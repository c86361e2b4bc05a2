//! A collection of cards.

use vstd::prelude::*;
use crate::error::{fail, Fallible};
use crate::path;
use crate::text;

verus! {

/// Whether a line of the macro file defines nothing: it is blank, or a comment.
pub open spec fn is_blank(line: Seq<char>) -> bool {
    let t = text::trim(line);
    t.len() == 0 || text::starts_with(t, "%"@)
}

/// The macros that the first `n` lines define: a name and a definition, with a
/// space between them.
pub open spec fn macros_in(lines: Seq<Seq<char>>, n: nat) -> Seq<(Seq<char>, Seq<char>)>
    decreases n,
{
    if n == 0 {
        seq![]
    } else {
        let before = macros_in(lines, (n - 1) as nat);
        let line = lines[n - 1];
        if is_blank(line) {
            before
        } else {
            match text::split_once(line, ' ') {
                Some(pair) => before.push(pair),
                None => before,
            }
        }
    }
}

/// The numbers of those of the first `n` lines that are neither blank nor a
/// definition. The first line has the number one.
pub open spec fn malformed_in(lines: Seq<Seq<char>>, n: nat) -> Seq<nat>
    decreases n,
{
    if n == 0 {
        seq![]
    } else {
        let before = malformed_in(lines, (n - 1) as nat);
        let line = lines[n - 1];
        if !is_blank(line) && text::split_once(line, ' ') is None {
            before.push(n)
        } else {
            before
        }
    }
}

/// The texts of some macros.
pub open spec fn macro_views(macros: Seq<(String, String)>) -> Seq<(Seq<char>, Seq<char>)> {
    macros.map_values(|m: (String, String)| (m.0@, m.1@))
}

/// Line numbers as mathematical numbers.
pub open spec fn numbers(v: Seq<usize>) -> Seq<nat> {
    v.map_values(|i: usize| i as nat)
}

/// The macros of a macro file, and the numbers of the lines that are no
/// definitions.
pub fn parse_macros(content: &str) -> (result: (Vec<(String, String)>, Vec<usize>))
    ensures
        ({
            let lines = text::lines(content@);
            &&& macro_views(result.0@) == macros_in(lines, lines.len())
            &&& numbers(result.1@) == malformed_in(lines, lines.len())
        }),
{
    let lines = text::lines_of(content);
    let ghost all = text::views(lines@);
    let mut macros: Vec<(String, String)> = Vec::new();
    let mut malformed: Vec<usize> = Vec::new();
    let mut i: usize = 0;
    proof {
        assert(macro_views(macros@) =~= macros_in(all, 0));
        assert(numbers(malformed@) =~= malformed_in(all, 0));
    }
    while i < lines.len()
        invariant
            i <= lines@.len(),
            all == text::views(lines@),
            macro_views(macros@) == macros_in(all, i as nat),
            numbers(malformed@) == malformed_in(all, i as nat),
        decreases lines@.len() - i,
    {
        let line = lines[i].as_str();
        let trimmed = text::trim_of(line);
        let ghost macros_before = macros@;
        let ghost malformed_before = malformed@;
        i += 1;
        proof {
            assert(all[i - 1] == line@);
        }
        if !trimmed.is_empty() && !text::has_prefix(trimmed, "%") {
            match text::split_once_at(line, ' ') {
                Some(pair) => {
                    macros.push(pair);
                    proof {
                        assert(macro_views(macros@) =~= macro_views(macros_before).push(
                            (pair.0@, pair.1@),
                        ));
                    }
                },
                None => {
                    malformed.push(i);
                    proof {
                        assert(numbers(malformed@) =~= numbers(malformed_before).push(i as nat));
                    }
                },
            }
        }
    }
    (macros, malformed)
}

/// What is said of a line of the macro file that is no definition.
pub fn malformed_warning(file: &str, line: usize) -> (result: String)
    ensures
        result@ == file@ + ": line "@ + text::decimal(line as nat)
            + " is not a valid macro definition (expected a name and a definition separated by a space); line ignored."@,
{
    let number = text::decimal_of(line as u64);
    let mut result = text::cat3(file, ": line ", number.as_str());
    result.append(
        " is not a valid macro definition (expected a name and a definition separated by a space); line ignored.",
    );
    result
}

/// Refuses a directory that is not there.
pub fn check_directory(exists: bool) -> (result: Fallible<()>)
    ensures
        match result {
            Ok(_) => exists,
            Err(e) => !exists && e@ == "directory does not exist."@,
        },
{
    if !exists {
        return fail("directory does not exist.");
    }
    Ok(())
}

/// The database of a collection that is drilled on its own.
pub fn own_db_path(directory: &str) -> (result: String)
    ensures
        result@ == path::join_path(directory@, "hashcards.db"@),
{
    path::join(directory, "hashcards.db")
}

/// The macro file of a collection.
pub fn macros_path(directory: &str) -> (result: String)
    ensures
        result@ == path::join_path(directory@, "macros.tex"@),
{
    path::join(directory, "macros.tex")
}

/// Every line of the macro file is accounted for once: it is blank, defines a
/// macro, or is reported.
pub proof fn law_every_line_is_accounted_for(lines: Seq<Seq<char>>, n: nat, i: int)
    requires
        n <= lines.len(),
        0 <= i < n,
    ensures
        malformed_in(lines, n).contains((i + 1) as nat) <==> !is_blank(lines[i])
            && text::split_once(lines[i], ' ') is None,
        !is_blank(lines[i]) ==> match text::split_once(lines[i], ' ') {
            Some(pair) => macros_in(lines, n).contains(pair),
            None => true,
        },
    decreases n,
{
    let before = malformed_in(lines, (n - 1) as nat);
    let after = malformed_in(lines, n);
    lemma_malformed_bound(lines, (n - 1) as nat);
    if i < n - 1 {
        law_every_line_is_accounted_for(lines, (n - 1) as nat, i);
        let k = (i + 1) as nat;
        if before.contains(k) {
            let j = choose|j: int| 0 <= j < before.len() && before[j] == k;
            assert(after[j] == k);
        }
        if after.contains(k) {
            let j = choose|j: int| 0 <= j < after.len() && after[j] == k;
            assert(j < before.len() && before[j] == k);
        }
        if text::split_once(lines[i], ' ') is Some && !is_blank(lines[i]) {
            let pair = text::split_once(lines[i], ' ')->0;
            let ms = macros_in(lines, (n - 1) as nat);
            let j = choose|j: int| 0 <= j < ms.len() && ms[j] == pair;
            assert(macros_in(lines, n)[j] == pair);
        }
    } else {
        if after.contains(n) {
            let j = choose|j: int| 0 <= j < after.len() && after[j] == n;
            if j < before.len() {
                assert(before[j] == n);
            }
        }
        if !is_blank(lines[i]) {
            match text::split_once(lines[i], ' ') {
                Some(pair) => {
                    assert(macros_in(lines, n).last() == pair);
                },
                None => {
                    assert(after.last() == n);
                },
            }
        }
    }
}

proof fn lemma_malformed_bound(lines: Seq<Seq<char>>, n: nat)
    ensures
        forall|j: int| 0 <= j < malformed_in(lines, n).len() ==> #[trigger] malformed_in(
            lines,
            n,
        )[j] <= n,
    decreases n,
{
    if n > 0 {
        lemma_malformed_bound(lines, (n - 1) as nat);
        let before = malformed_in(lines, (n - 1) as nat);
        assert forall|j: int| 0 <= j < malformed_in(lines, n).len() implies #[trigger] malformed_in(
            lines,
            n,
        )[j] <= n by {
            if j < before.len() {
                assert(malformed_in(lines, n)[j] == before[j]);
            }
        }
    }
}

/// A line defines nothing exactly if it is white space only, or if the first
/// character that is none is a percent sign.
pub proof fn law_comments_begin_with_a_percent_sign(line: Seq<char>, blank: Seq<char>)
    requires
        forall|i: int| 0 <= i < blank.len() ==> text::is_white_space(#[trigger] blank[i]),
    ensures
        is_blank(blank),
        is_blank(blank + seq!['%'] + line),
        line.len() > 0 && line[0] != '%' && !text::is_white_space(line[0]) ==> !is_blank(
            blank + line,
        ),
{
    reveal_strlit("%");
    text::lemma_trim_drops_white_space(blank, Seq::empty());
    assert(blank + Seq::<char>::empty() =~= blank);
    let c = seq!['%'] + line;
    assert(c[0] == '%');
    text::lemma_trim_drops_white_space(blank, c);
    assert(blank + seq!['%'] + line =~= blank + c);
    let t = text::trim(c);
    text::lemma_trim_keeps_first(c);
    assert(t.subrange(0, 1) =~= "%"@);
    if line.len() > 0 && line[0] != '%' && !text::is_white_space(line[0]) {
        text::lemma_trim_drops_white_space(blank, line);
        text::lemma_trim_keeps_first(line);
        let u = text::trim(line);
        assert(u.subrange(0, 1)[0] == u[0]);
    }
}

} // verus!
