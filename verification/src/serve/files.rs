//! The file manager of a card folder.

use vstd::prelude::*;
use crate::error::{fail, Fallible};
use crate::list;
use crate::order;
use crate::parser;
use crate::parser::{ParsedFile, Parser};
use crate::path;
use crate::serve::local;
use crate::serve::local::LOCAL_META_FILE;
use crate::text;

verus! {

/// What a new card file holds.
pub const CARD_TEMPLATE: &'static str = "---\nname = \"My deck\"\n---\n\nQ: What is the capital of France?\nA: Paris.\n\nC: The mitochondria is the [powerhouse] of the cell.\n";

/// One row of the tree of files.
pub struct TreeEntry {
    pub rel_path: String,
    pub name: String,
    pub is_dir: bool,
    pub depth: usize,
}

impl Clone for TreeEntry {
    fn clone(&self) -> (result: Self)
        ensures
            result == *self,
    {
        TreeEntry {
            rel_path: self.rel_path.clone(),
            name: self.name.clone(),
            is_dir: self.is_dir,
            depth: self.depth,
        }
    }
}

/// Something that lies in a folder, with what lies below it.
pub struct Listed {
    pub name: String,
    pub is_dir: bool,
    pub is_symlink: bool,
    pub below: Vec<Listed>,
}

/// Something that lies in a folder, with the rows of what lies below it.
struct Entry {
    name: String,
    is_dir: bool,
    is_symlink: bool,
    below: Vec<TreeEntry>,
}

/// A row as it is seen: its path, its name, whether it is a folder, and how
/// deep it lies.
pub type Row = (Seq<char>, Seq<char>, bool, nat);

/// A row as it is seen.
pub open spec fn row(e: TreeEntry) -> Row {
    (e.rel_path@, e.name@, e.is_dir, e.depth as nat)
}

/// Rows as they are seen.
pub open spec fn rows(entries: Seq<TreeEntry>) -> Seq<Row> {
    entries.map_values(|e: TreeEntry| row(e))
}

/// Something that lies in a folder, with the rows of what lies below it, as it
/// is seen.
#[verifier::ext_equal]
pub struct EntryView {
    pub name: Seq<char>,
    pub is_dir: bool,
    pub is_symlink: bool,
    pub below: Seq<Row>,
}

impl View for Entry {
    type V = EntryView;

    closed spec fn view(&self) -> EntryView {
        EntryView {
            name: self.name@,
            is_dir: self.is_dir,
            is_symlink: self.is_symlink,
            below: rows(self.below@),
        }
    }
}

spec fn seen(entries: Seq<Entry>) -> Seq<EntryView> {
    entries.map_values(|e: Entry| e@)
}

/// Whether a name belongs to the user. Names with a dot in front, that of the
/// file with the id among them, are kept from sight.
pub open spec fn shown(name: Seq<char>) -> bool {
    !text::starts_with(name, "."@) && name != LOCAL_META_FILE@
}

/// Whether a name belongs to the user.
pub fn is_shown(name: &str) -> (result: bool)
    ensures
        result == shown(name@),
{
    !text::has_prefix(name, ".") && !text::same(name, LOCAL_META_FILE)
}

/// Whether an entry is a folder that is shown.
pub open spec fn shown_folder() -> spec_fn(EntryView) -> bool {
    |e: EntryView| shown(e.name) && !e.is_symlink && e.is_dir
}

/// Whether an entry is a card file that is shown.
pub open spec fn shown_file() -> spec_fn(EntryView) -> bool {
    |e: EntryView| shown(e.name) && !e.is_symlink && !e.is_dir && text::ends_with(e.name, ".md"@)
}

/// A path that is one name longer.
pub open spec fn joined_rel(prefix: Seq<char>, name: Seq<char>) -> Seq<char> {
    if prefix.len() == 0 {
        name
    } else {
        prefix + "/"@ + name
    }
}

/// A path that is one name longer.
pub fn join_rel(prefix: &str, name: &str) -> (result: String)
    ensures
        result@ == joined_rel(prefix@, name@),
{
    if prefix.is_empty() {
        name.to_owned()
    } else {
        text::cat3(prefix, "/", name)
    }
}

/// The names of some entries.
pub open spec fn names_of(entries: Seq<EntryView>) -> Seq<Seq<char>> {
    entries.map_values(|e: EntryView| e.name)
}

/// The entries sorted by name.
pub open spec fn by_name(entries: Seq<EntryView>) -> Seq<EntryView> {
    order::arranged(entries, names_of(entries))
}

/// The row of an entry.
pub open spec fn entry_row(e: EntryView, prefix: Seq<char>, depth: nat) -> Row {
    (joined_rel(prefix, e.name), e.name, e.is_dir, depth)
}

/// The row of an entry, followed by what lies below it.
pub open spec fn entry_rows(e: EntryView, prefix: Seq<char>, depth: nat) -> Seq<Row> {
    seq![entry_row(e, prefix, depth)] + (if e.is_dir {
        e.below
    } else {
        seq![]
    })
}

/// The rows of some entries, each followed by what lies below it.
pub open spec fn flattened(entries: Seq<EntryView>, prefix: Seq<char>, depth: nat) -> Seq<Row>
    decreases entries.len(),
{
    if entries.len() == 0 {
        seq![]
    } else {
        flattened(entries.drop_last(), prefix, depth) + entry_rows(entries.last(), prefix, depth)
    }
}

/// The rows of a folder: its folders, each followed by what lies below it, then
/// its card files.
pub open spec fn level(entries: Seq<EntryView>, prefix: Seq<char>, depth: nat) -> Seq<Row> {
    flattened(by_name(list::keep(entries, shown_folder())), prefix, depth) + flattened(
        by_name(list::keep(entries, shown_file())),
        prefix,
        depth,
    )
}

/// An entry of a folder, with the rows of what lies below it.
pub open spec fn entry(item: Listed, prefix: Seq<char>, depth: nat) -> EntryView
    decreases item, 0int,
{
    EntryView {
        name: item.name@,
        is_dir: item.is_dir,
        is_symlink: item.is_symlink,
        below: tree(item.below@, joined_rel(prefix, item.name@), depth + 1),
    }
}

/// The entries of a folder, each with the rows of what lies below it.
pub open spec fn entries_of(items: Seq<Listed>, prefix: Seq<char>, depth: nat) -> Seq<EntryView>
    decreases items, 0int,
{
    if items.len() == 0 {
        seq![]
    } else {
        entries_of(items.drop_last(), prefix, depth).push(entry(items.last(), prefix, depth))
    }
}

/// The rows of a folder and of all that lies below it: at each level folders
/// before files, each sorted by name, and behind each folder what it holds.
pub open spec fn tree(items: Seq<Listed>, prefix: Seq<char>, depth: nat) -> Seq<Row>
    decreases items, 1int,
{
    level(entries_of(items, prefix, depth), prefix, depth)
}

/// How many levels a listing has.
pub open spec fn height(items: Seq<Listed>) -> nat
    decreases items,
{
    if items.len() == 0 {
        0
    } else {
        let last = 1 + height(items.last().below@);
        if last > height(items.drop_last()) {
            last
        } else {
            height(items.drop_last())
        }
    }
}

proof fn lemma_height(items: Seq<Listed>, i: int)
    requires
        0 <= i < items.len(),
    ensures
        1 + height(items[i].below@) <= height(items),
    decreases items.len(),
{
    if i < items.len() - 1 {
        lemma_height(items.drop_last(), i);
    }
}

proof fn lemma_entries_of(items: Seq<Listed>, prefix: Seq<char>, depth: nat)
    ensures
        entries_of(items, prefix, depth).len() == items.len(),
        forall|i: int|
            0 <= i < items.len() ==> #[trigger] entries_of(items, prefix, depth)[i] == entry(
                items[i],
                prefix,
                depth,
            ),
    decreases items.len(),
{
    if items.len() > 0 {
        lemma_entries_of(items.drop_last(), prefix, depth);
        assert forall|i: int| 0 <= i < items.len() implies #[trigger] entries_of(
            items,
            prefix,
            depth,
        )[i] == entry(items[i], prefix, depth) by {
            if i < items.len() - 1 {
                assert(items.drop_last()[i] == items[i]);
                assert(entries_of(items, prefix, depth)[i] == entries_of(
                    items.drop_last(),
                    prefix,
                    depth,
                )[i]);
            }
        }
    }
}

/// The entries that are shown as folders, or as files.
fn kept<'a>(entries: &'a Vec<Entry>, folders: bool) -> (result: Vec<&'a Entry>)
    ensures
        ({
            let all = list::keep(
                seen(entries@),
                if folders {
                    shown_folder()
                } else {
                    shown_file()
                },
            );
            &&& result@.len() == all.len()
            &&& forall|i: int| 0 <= i < all.len() ==> (#[trigger] result@[i])@ == all[i]
        }),
{
    let ghost all = seen(entries@);
    let ghost p = if folders {
        shown_folder()
    } else {
        shown_file()
    };
    let mut result: Vec<&Entry> = Vec::new();
    let mut i: usize = 0;
    while i < entries.len()
        invariant
            i <= entries@.len(),
            all == seen(entries@),
            p == if folders {
                shown_folder()
            } else {
                shown_file()
            },
            result@.len() == list::keep(all.take(i as int), p).len(),
            forall|k: int|
                0 <= k < result@.len() ==> (#[trigger] result@[k])@ == list::keep(
                    all.take(i as int),
                    p,
                )[k],
        decreases entries@.len() - i,
    {
        let e = &entries[i];
        proof {
            list::lemma_keep_step(all, p, i as int);
            assert(all[i as int] == e@);
        }
        let fits = is_shown(e.name.as_str()) && !e.is_symlink && if folders {
            e.is_dir
        } else {
            !e.is_dir && text::has_suffix(e.name.as_str(), ".md")
        };
        if fits {
            result.push(e);
        }
        i += 1;
    }
    proof {
        assert(all.take(i as int) == all);
    }
    result
}

/// Appends the rows of some entries in the order of their names.
fn push_sorted(rows_out: &mut Vec<TreeEntry>, entries: &Vec<&Entry>, prefix: &str, depth: usize)
    ensures
        rows(final(rows_out)@) == rows(old(rows_out)@) + flattened(
            by_name(entries@.map_values(|e: &Entry| e@)),
            prefix@,
            depth as nat,
        ),
{
    let ghost all = entries@.map_values(|e: &Entry| e@);
    let mut names: Vec<String> = Vec::new();
    let mut i: usize = 0;
    while i < entries.len()
        invariant
            i <= entries@.len(),
            names@.len() == i,
            forall|k: int| 0 <= k < i ==> (#[trigger] names@[k])@ == entries@[k].name@,
        decreases entries@.len() - i,
    {
        names.push(entries[i].name.clone());
        i += 1;
    }
    proof {
        assert(text::views(names@) =~= names_of(all));
    }
    let places = order::order_of(&names);
    let ghost sorted = by_name(all);
    proof {
        assert(sorted.len() == places@.len());
        assert(rows(rows_out@) =~= rows(old(rows_out)@) + flattened(
            sorted.take(0),
            prefix@,
            depth as nat,
        ));
    }
    let mut k: usize = 0;
    while k < places.len()
        invariant
            k <= places@.len(),
            all == entries@.map_values(|e: &Entry| e@),
            all.len() == names@.len(),
            sorted == by_name(all),
            sorted.len() == places@.len(),
            order::numbers(places@) == order::order(names_of(all), all.len()),
            forall|i: int| 0 <= i < places@.len() ==> 0 <= #[trigger] places@[i] < entries@.len(),
            rows(rows_out@) == rows(old(rows_out)@) + flattened(
                sorted.take(k as int),
                prefix@,
                depth as nat,
            ),
        decreases places@.len() - k,
    {
        let e = entries[places[k]];
        proof {
            assert(order::numbers(places@)[k as int] == places@[k as int]);
            assert(sorted[k as int] == e@);
            assert(sorted.take(k + 1).drop_last() == sorted.take(k as int));
        }
        let ghost start = rows(rows_out@);
        let rel_path = join_rel(prefix, e.name.as_str());
        let ghost head = entry_row(e@, prefix@, depth as nat);
        rows_out.push(TreeEntry { rel_path, name: e.name.clone(), is_dir: e.is_dir, depth });
        proof {
            assert(rows(rows_out@) =~= start.push(head));
        }
        if e.is_dir {
            let mut j: usize = 0;
            proof {
                assert(rows(rows_out@) =~= start.push(head) + rows(e.below@.take(0)));
            }
            while j < e.below.len()
                invariant
                    j <= e.below@.len(),
                    rows(rows_out@) == start.push(head) + rows(e.below@.take(j as int)),
                decreases e.below@.len() - j,
            {
                let ghost before = rows(rows_out@);
                rows_out.push(e.below[j].clone());
                j += 1;
                proof {
                    assert(rows(rows_out@) =~= before.push(row(e.below@[j - 1])));
                    assert(rows(e.below@.take(j as int)) =~= rows(e.below@.take(j - 1)).push(
                        row(e.below@[j - 1]),
                    ));
                    assert(rows(rows_out@) =~= start.push(head) + rows(e.below@.take(j as int)));
                }
            }
            proof {
                assert(e.below@.take(j as int) == e.below@);
            }
        }
        k += 1;
        proof {
            assert(rows(rows_out@) =~= start + entry_rows(e@, prefix@, depth as nat));
            assert(rows(rows_out@) =~= rows(old(rows_out)@) + flattened(
                sorted.take(k as int),
                prefix@,
                depth as nat,
            ));
        }
    }
    proof {
        assert(sorted.take(k as int) == sorted);
    }
}

fn tree_level(prefix: &str, depth: usize, entries: &Vec<Entry>) -> (result: Vec<TreeEntry>)
    ensures
        rows(result@) == level(seen(entries@), prefix@, depth as nat),
{
    let mut result: Vec<TreeEntry> = Vec::new();
    let folders = kept(entries, true);
    proof {
        assert(folders@.map_values(|e: &Entry| e@) =~= list::keep(seen(entries@), shown_folder()));
        assert(rows(result@) =~= Seq::<Row>::empty());
    }
    push_sorted(&mut result, &folders, prefix, depth);
    let files = kept(entries, false);
    proof {
        assert(files@.map_values(|e: &Entry| e@) =~= list::keep(seen(entries@), shown_file()));
    }
    push_sorted(&mut result, &files, prefix, depth);
    proof {
        assert(rows(result@) =~= level(seen(entries@), prefix@, depth as nat));
    }
    result
}

/// The rows of a folder at a depth, and of all that lies below it.
fn walk(prefix: &str, depth: usize, items: &Vec<Listed>) -> (result: Vec<TreeEntry>)
    requires
        depth + height(items@) <= usize::MAX,
    ensures
        rows(result@) == tree(items@, prefix@, depth as nat),
    decreases items,
{
    let mut entries: Vec<Entry> = Vec::new();
    let mut i: usize = 0;
    proof {
        lemma_entries_of(items@, prefix@, depth as nat);
    }
    while i < items.len()
        invariant
            i <= items@.len(),
            depth + height(items@) <= usize::MAX,
            entries@.len() == i,
            forall|k: int|
                0 <= k < i ==> (#[trigger] entries@[k])@ == entry(
                    items@[k],
                    prefix@,
                    depth as nat,
                ),
        decreases items@.len() - i,
    {
        let item = &items[i];
        proof {
            lemma_height(items@, i as int);
        }
        let path = join_rel(prefix, item.name.as_str());
        let below = walk(path.as_str(), depth + 1, &item.below);
        entries.push(
            Entry {
                name: item.name.clone(),
                is_dir: item.is_dir,
                is_symlink: item.is_symlink,
                below,
            },
        );
        proof {
            assert(entries@[i as int]@ =~= entry(*item, prefix@, depth as nat));
        }
        i += 1;
    }
    proof {
        assert(seen(entries@) =~= entries_of(items@, prefix@, depth as nat));
    }
    tree_level(prefix, depth, &entries)
}

/// The whole tree of a card folder, given what lies in it.
pub fn read_tree(items: &Vec<Listed>) -> (result: Vec<TreeEntry>)
    requires
        height(items@) <= usize::MAX,
    ensures
        rows(result@) == tree(items@, ""@, 0),
{
    walk("", 0, items)
}

/// The last of the first `n` rows that lies less deep than `depth`; -1 if none
/// does.
pub open spec fn last_above(rs: Seq<Row>, n: int, depth: nat) -> int
    decreases n,
{
    if n <= 0 {
        -1
    } else if rs[n - 1].3 < depth {
        n - 1
    } else {
        last_above(rs, n - 1, depth)
    }
}

/// The row that a row belongs to: the last one before it that lies less deep;
/// -1 if there is none.
pub open spec fn parent(rs: Seq<Row>, i: int) -> int {
    last_above(rs, i, rs[i].3)
}

/// Whether rows are a tree below a folder at this depth, written out depth
/// first: a row without a parent lies in the folder itself, and any other one
/// level below its parent, which is a folder, and in it.
pub open spec fn depth_first(rs: Seq<Row>, prefix: Seq<char>, depth: nat) -> bool {
    forall|i: int|
        0 <= i < rs.len() ==> {
            let p = parent(rs, i);
            &&& (#[trigger] rs[i]).3 >= depth
            &&& if p < 0 {
                rs[i].3 == depth && rs[i].0 == joined_rel(prefix, rs[i].1)
            } else {
                rs[p].2 && rs[i].3 == rs[p].3 + 1 && rs[i].0 == joined_rel(rs[p].0, rs[i].1)
            }
        }
}

proof fn lemma_last_above(a: Seq<Row>, b: Seq<Row>, n: int, depth: nat)
    requires
        0 <= n <= b.len(),
    ensures
        last_above(a + b, a.len() + n, depth) == {
            let p = last_above(b, n, depth);
            if p < 0 {
                last_above(a, a.len() as int, depth)
            } else {
                a.len() + p
            }
        },
        -1 <= last_above(b, n, depth) < n || n == 0,
    decreases n,
{
    if n > 0 {
        lemma_last_above(a, b, n - 1, depth);
        assert((a + b)[a.len() + n - 1] == b[n - 1]);
    } else {
        lemma_last_above_front(a, b, a.len() as int, depth);
    }
}

proof fn lemma_last_above_front(a: Seq<Row>, b: Seq<Row>, n: int, depth: nat)
    requires
        0 <= n <= a.len(),
    ensures
        last_above(a + b, n, depth) == last_above(a, n, depth),
        -1 <= last_above(a, n, depth) < n || n == 0 && last_above(a, n, depth) == -1,
    decreases n,
{
    if n > 0 {
        lemma_last_above_front(a, b, n - 1, depth);
        assert((a + b)[n - 1] == a[n - 1]);
    }
}

proof fn lemma_none_above(rs: Seq<Row>, n: int, depth: nat)
    requires
        0 <= n <= rs.len(),
        forall|i: int| 0 <= i < n ==> (#[trigger] rs[i]).3 >= depth,
    ensures
        last_above(rs, n, depth) == -1,
    decreases n,
{
    if n > 0 {
        lemma_none_above(rs, n - 1, depth);
        assert(rs[n - 1].3 >= depth);
    }
}

proof fn lemma_depth_first_append(a: Seq<Row>, b: Seq<Row>, prefix: Seq<char>, depth: nat)
    requires
        depth_first(a, prefix, depth),
        depth_first(b, prefix, depth),
    ensures
        depth_first(a + b, prefix, depth),
{
    let rs = a + b;
    assert forall|i: int| 0 <= i < rs.len() implies {
        let p = parent(rs, i);
        &&& (#[trigger] rs[i]).3 >= depth
        &&& if p < 0 {
            rs[i].3 == depth && rs[i].0 == joined_rel(prefix, rs[i].1)
        } else {
            rs[p].2 && rs[i].3 == rs[p].3 + 1 && rs[i].0 == joined_rel(rs[p].0, rs[i].1)
        }
    } by {
        if i < a.len() {
            lemma_last_above_front(a, b, i, rs[i].3);
            assert(rs[i] == a[i]);
            let p = parent(a, i);
            if p >= 0 {
                assert(rs[p] == a[p]);
            }
        } else {
            let j = i - a.len();
            lemma_last_above(a, b, j, rs[i].3);
            assert(rs[i] == b[j]);
            let p = parent(b, j);
            if p >= 0 {
                assert(rs[a.len() + p] == b[p]);
            } else {
                lemma_none_above(a, a.len() as int, depth);
            }
        }
    }
}

proof fn lemma_depth_first_entry(e: EntryView, prefix: Seq<char>, depth: nat)
    requires
        depth_first(e.below, joined_rel(prefix, e.name), depth + 1),
    ensures
        depth_first(entry_rows(e, prefix, depth), prefix, depth),
{
    let head = entry_row(e, prefix, depth);
    let one = seq![head];
    let rs = entry_rows(e, prefix, depth);
    assert(parent(rs, 0) == -1);
    if e.is_dir {
        let b = e.below;
        assert(rs == one + b);
        assert forall|i: int| 0 <= i < rs.len() implies {
            let p = parent(rs, i);
            &&& (#[trigger] rs[i]).3 >= depth
            &&& if p < 0 {
                rs[i].3 == depth && rs[i].0 == joined_rel(prefix, rs[i].1)
            } else {
                rs[p].2 && rs[i].3 == rs[p].3 + 1 && rs[i].0 == joined_rel(rs[p].0, rs[i].1)
            }
        } by {
            if i > 0 {
                let j = i - 1;
                lemma_last_above(one, b, j, rs[i].3);
                assert(rs[i] == b[j]);
                let p = parent(b, j);
                if p >= 0 {
                    assert(rs[1 + p] == b[p]);
                } else {
                    assert(last_above(one, 1, rs[i].3) == 0);
                    assert(rs[0] == head);
                }
            }
        }
    } else {
        assert(rs =~= one);
    }
}

proof fn lemma_depth_first_entries(entries: Seq<EntryView>, prefix: Seq<char>, depth: nat)
    requires
        forall|i: int|
            0 <= i < entries.len() ==> depth_first(
                (#[trigger] entries[i]).below,
                joined_rel(prefix, entries[i].name),
                depth + 1,
            ),
    ensures
        depth_first(flattened(entries, prefix, depth), prefix, depth),
    decreases entries.len(),
{
    if entries.len() > 0 {
        let rest = entries.drop_last();
        assert forall|i: int| 0 <= i < rest.len() implies depth_first(
            (#[trigger] rest[i]).below,
            joined_rel(prefix, rest[i].name),
            depth + 1,
        ) by {
            assert(rest[i] == entries[i]);
        }
        lemma_depth_first_entries(rest, prefix, depth);
        let last = entries[entries.len() - 1];
        lemma_depth_first_entry(last, prefix, depth);
        lemma_depth_first_append(
            flattened(rest, prefix, depth),
            entry_rows(last, prefix, depth),
            prefix,
            depth,
        );
    }
}

proof fn lemma_by_name(entries: Seq<EntryView>)
    ensures
        forall|e: EntryView| #[trigger] by_name(entries).contains(e) <==> entries.contains(e),
{
    let names = names_of(entries);
    let places = order::order(names, names.len());
    let sorted = by_name(entries);
    order::lemma_order(names, names.len());
    assert forall|e: EntryView| #[trigger] sorted.contains(e) <==> entries.contains(e) by {
        if sorted.contains(e) {
            let i = choose|i: int| 0 <= i < sorted.len() && sorted[i] == e;
            assert(entries[places[i]] == e);
        }
        if entries.contains(e) {
            let k = choose|k: int| 0 <= k < entries.len() && entries[k] == e;
            assert(places.contains(k));
            let i = choose|i: int| 0 <= i < places.len() && places[i] == k;
            assert(sorted[i] == e);
        }
    }
}

/// The tree is written out depth first: what follows a folder, as long as it
/// lies deeper, lies below it, and everything below the top lies in the folder
/// that it follows.
pub proof fn law_the_tree_is_written_depth_first(
    items: Seq<Listed>,
    prefix: Seq<char>,
    depth: nat,
)
    ensures
        depth_first(tree(items, prefix, depth), prefix, depth),
    decreases height(items),
{
    let entries = entries_of(items, prefix, depth);
    lemma_entries_of(items, prefix, depth);
    let folders = list::keep(entries, shown_folder());
    let files = list::keep(entries, shown_file());
    list::lemma_keep(entries, shown_folder());
    list::lemma_keep(entries, shown_file());
    lemma_by_name(folders);
    lemma_by_name(files);
    assert forall|e: EntryView| entries.contains(e) implies depth_first(
        #[trigger] e.below,
        joined_rel(prefix, e.name),
        depth + 1,
    ) by {
        let i = choose|i: int| 0 <= i < entries.len() && entries[i] == e;
        assert(e == entry(items[i], prefix, depth));
        lemma_height(items, i);
        law_the_tree_is_written_depth_first(
            items[i].below@,
            joined_rel(prefix, items[i].name@),
            depth + 1,
        );
    }
    assert forall|i: int| 0 <= i < by_name(folders).len() implies depth_first(
        (#[trigger] by_name(folders)[i]).below,
        joined_rel(prefix, by_name(folders)[i].name),
        depth + 1,
    ) by {
        assert(by_name(folders).contains(by_name(folders)[i]));
        assert(folders.contains(by_name(folders)[i]));
        assert(entries.contains(by_name(folders)[i]));
    }
    assert forall|i: int| 0 <= i < by_name(files).len() implies depth_first(
        (#[trigger] by_name(files)[i]).below,
        joined_rel(prefix, by_name(files)[i].name),
        depth + 1,
    ) by {
        assert(by_name(files).contains(by_name(files)[i]));
        assert(files.contains(by_name(files)[i]));
        assert(entries.contains(by_name(files)[i]));
    }
    lemma_depth_first_entries(by_name(folders), prefix, depth);
    lemma_depth_first_entries(by_name(files), prefix, depth);
    lemma_depth_first_append(
        flattened(by_name(folders), prefix, depth),
        flattened(by_name(files), prefix, depth),
        prefix,
        depth,
    );
}

/// Whether some rows stand at this place.
pub open spec fn stands_at(rs: Seq<Row>, piece: Seq<Row>, at: int) -> bool {
    0 <= at && at + piece.len() <= rs.len() && rs.subrange(at, at + piece.len()) == piece
}

proof fn lemma_flattened_at(entries: Seq<EntryView>, prefix: Seq<char>, depth: nat, k: int)
    requires
        0 <= k < entries.len(),
    ensures
        stands_at(
            flattened(entries, prefix, depth),
            entry_rows(entries[k], prefix, depth),
            flattened(entries.take(k), prefix, depth).len() as int,
        ),
    decreases entries.len(),
{
    let all = flattened(entries, prefix, depth);
    let piece = entry_rows(entries[k], prefix, depth);
    let at = flattened(entries.take(k), prefix, depth).len() as int;
    let rest = entries.drop_last();
    if k < entries.len() - 1 {
        lemma_flattened_at(rest, prefix, depth, k);
        assert(rest.take(k) == entries.take(k));
        assert(all.subrange(at, at + piece.len()) =~= flattened(rest, prefix, depth).subrange(
            at,
            at + piece.len(),
        ));
    } else {
        assert(entries.take(k) == rest);
        assert(all.subrange(at, at + piece.len()) =~= piece);
    }
}

/// Each folder that is shown stands directly before the tree of what it holds.
pub proof fn law_a_folder_stands_before_what_it_holds(
    items: Seq<Listed>,
    prefix: Seq<char>,
    depth: nat,
    k: int,
)
    requires
        0 <= k < items.len(),
        shown(items[k].name@) && !items[k].is_symlink && items[k].is_dir,
    ensures
        ({
            let path = joined_rel(prefix, items[k].name@);
            exists|at: int|
                #[trigger] stands_at(
                    tree(items, prefix, depth),
                    seq![(path, items[k].name@, true, depth)] + tree(
                        items[k].below@,
                        path,
                        depth + 1,
                    ),
                    at,
                )
        }),
{
    let entries = entries_of(items, prefix, depth);
    lemma_entries_of(items, prefix, depth);
    let e = entry(items[k], prefix, depth);
    assert(entries[k] == e);
    let folders = list::keep(entries, shown_folder());
    list::lemma_keep(entries, shown_folder());
    assert(entries.contains(e));
    assert(folders.contains(e));
    lemma_by_name(folders);
    assert(by_name(folders).contains(e));
    let i = choose|i: int| 0 <= i < by_name(folders).len() && by_name(folders)[i] == e;
    lemma_flattened_at(by_name(folders), prefix, depth, i);
    let front = flattened(by_name(folders), prefix, depth);
    let piece = entry_rows(e, prefix, depth);
    let at = flattened(by_name(folders).take(i), prefix, depth).len() as int;
    let rs = tree(items, prefix, depth);
    assert(rs.subrange(at, at + piece.len()) =~= front.subrange(at, at + piece.len()));
    let path = joined_rel(prefix, items[k].name@);
    let wanted = seq![(path, items[k].name@, true, depth)] + tree(items[k].below@, path, depth + 1);
    assert(piece =~= wanted);
    assert(stands_at(rs, wanted, at));
}

/// What is wrong with the name of a new file or folder.
pub open spec fn name_error(name: Seq<char>) -> Option<Seq<char>> {
    let t = text::trim(name);
    if t.len() == 0 {
        Some("Enter a name."@)
    } else if t == LOCAL_META_FILE@ {
        Some("`"@ + LOCAL_META_FILE@ + "` is reserved by hashcards."@)
    } else if text::starts_with(t, "."@) {
        Some("Names cannot start with a dot."@)
    } else if t.contains('/') || t.contains('\\') {
        Some("Names cannot contain `/` or `\\` \u{2014} create a folder instead."@)
    } else {
        None
    }
}

/// Checks the name of a new file or folder: one component of a path, and none
/// that is kept from sight.
pub fn validate_name(name: &str) -> (result: Fallible<String>)
    ensures
        match result {
            Ok(n) => name_error(name@) is None && n@ == text::trim(name@),
            Err(e) => name_error(name@) == Some(e@),
        },
{
    let trimmed = text::trim_of(name);
    if trimmed.is_empty() {
        return fail("Enter a name.");
    }
    if text::same(trimmed, LOCAL_META_FILE) {
        let message = text::cat3("`", LOCAL_META_FILE, "` is reserved by hashcards.");
        return fail(message.as_str());
    }
    if text::has_prefix(trimmed, ".") {
        return fail("Names cannot start with a dot.");
    }
    if text::has_char(trimmed, '/') || text::has_char(trimmed, '\\') {
        return fail("Names cannot contain `/` or `\\` \u{2014} create a folder instead.");
    }
    Ok(trimmed.to_owned())
}

/// A name that is accepted is one component of a path, and what it names is
/// shown.
pub proof fn law_accepted_names_are_one_component(name: Seq<char>)
    requires
        name_error(name) is None,
    ensures
        path::components(text::trim(name)) == seq![text::trim(name)],
        !path::has_parent(text::trim(name)),
        shown(text::trim(name)),
{
    let t = text::trim(name);
    reveal_strlit(".");
    reveal_strlit("..");
    if t == "."@ || t == ".."@ {
        assert(t.subrange(0, 1) =~= "."@);
        assert(text::starts_with(t, "."@));
    }
    path::lemma_one_component(t);
    text::lemma_first_index_bounds(t, '/');
    assert(text::split(t, '/') =~= seq![t]);
    assert forall|i: int| 0 <= i < text::split(t, '/').len() implies text::split(t, '/')[i]
        != ".."@ by {}
}

/// The names in a folder that belong to the user, sorted.
pub fn non_empty_children(names: &Vec<String>) -> (result: Vec<String>)
    ensures
        ({
            let own = list::keep(text::views(names@), |n: Seq<char>| shown(n));
            text::views(result@) == order::arranged(own, own)
        }),
{
    let ghost all = text::views(names@);
    let ghost p = |n: Seq<char>| shown(n);
    let mut own: Vec<String> = Vec::new();
    let mut i: usize = 0;
    while i < names.len()
        invariant
            i <= names@.len(),
            all == text::views(names@),
            p == (|n: Seq<char>| shown(n)),
            text::views(own@) == list::keep(all.take(i as int), p),
        decreases names@.len() - i,
    {
        proof {
            list::lemma_keep_step(all, p, i as int);
        }
        if is_shown(names[i].as_str()) {
            let name = names[i].clone();
            proof {
                text::lemma_views_push(own@, name);
            }
            own.push(name);
        }
        i += 1;
    }
    proof {
        assert(all.take(i as int) == all);
    }
    order::sorted(&own)
}

/// The form that makes a file or folder.
pub struct NewEntryForm {
    /// The folder to make it in. Empty means the card folder itself.
    pub parent: String,
    pub name: String,
}

/// The form that renames a file or folder.
pub struct RenameForm {
    pub path: String,
    pub name: String,
}

/// The form that deletes a file or folder.
pub struct DeleteForm {
    pub path: String,
}

/// The form that saves a file.
pub struct SaveForm {
    pub content: String,
    /// When the file was changed last, as the browser knows it.
    pub mtime: u64,
}

/// The name that a file gets: its extension is added where it is missing.
pub open spec fn file_name(name: Seq<char>, is_file: bool) -> Seq<char> {
    if is_file && !text::ends_with(name, ".md"@) {
        name + ".md"@
    } else {
        name
    }
}

fn file_name_of(name: &str, is_file: bool) -> (result: String)
    ensures
        result@ == file_name(name@, is_file),
{
    if is_file && !text::has_suffix(name, ".md") {
        text::cat2(name, ".md")
    } else {
        name.to_owned()
    }
}

/// A text without the slashes around it.
pub open spec fn sans_slashes(s: Seq<char>) -> Seq<char> {
    text::strip_end(text::strip_start(s, text::being('/')), text::being('/'))
}

fn sans_slashes_of<'a>(s: &'a str) -> (result: &'a str)
    ensures
        result@ == sans_slashes(s@),
{
    text::strip_end_char(text::strip_start_char(s, '/'), '/')
}

/// Where a new file or folder is to be made.
pub open spec fn new_path(parent: Seq<char>, name: Seq<char>, is_dir: bool) -> Seq<char> {
    joined_rel(sans_slashes(text::trim(parent)), file_name(text::trim(name), !is_dir))
}

/// Where a new file or folder is to be made.
pub fn planned_entry(form: &NewEntryForm, is_dir: bool) -> (result: Fallible<String>)
    ensures
        match result {
            Ok(rel) => name_error(form.name@) is None && rel@ == new_path(
                form.parent@,
                form.name@,
                is_dir,
            ),
            Err(e) => name_error(form.name@) == Some(e@),
        },
{
    match validate_name(form.name.as_str()) {
        Ok(name) => {
            let name = file_name_of(name.as_str(), !is_dir);
            let parent = sans_slashes_of(text::trim_of(form.parent.as_str()));
            Ok(join_rel(parent, name.as_str()))
        },
        Err(e) => Err(e),
    }
}

/// Refuses to make something where there is something already.
pub fn check_free(rel: &str, exists: bool) -> (result: Fallible<()>)
    ensures
        match result {
            Ok(_) => !exists,
            Err(e) => exists && e@ == "`"@ + rel@ + "` already exists."@,
        },
{
    if exists {
        let message = text::cat3("`", rel, "` already exists.");
        return fail(message.as_str());
    }
    Ok(())
}

/// Whether a new folder becomes a collection, which gets its id at once.
pub fn becomes_collection(rel: &str, is_dir: bool) -> (result: bool)
    ensures
        result == (is_dir && !rel@.contains('/')),
{
    is_dir && !text::has_char(rel, '/')
}

/// What is said of something that was made.
pub fn created_message(rel: &str, is_dir: bool) -> (result: String)
    ensures
        result@ == if is_dir {
            "Created folder `"@ + rel@ + "`."@
        } else {
            "Created `"@ + rel@ + "`."@
        },
{
    if is_dir {
        text::cat3("Created folder `", rel, "`.")
    } else {
        text::cat3("Created `", rel, "`.")
    }
}

/// Refuses to touch what is not there.
pub fn check_present(path: &str, exists: bool) -> (result: Fallible<()>)
    ensures
        match result {
            Ok(_) => exists,
            Err(e) => !exists && e@ == "`"@ + path@ + "` does not exist."@,
        },
{
    if !exists {
        let message = text::cat3("`", path, "` does not exist.");
        return fail(message.as_str());
    }
    Ok(())
}

/// The folder that a path lies in.
pub open spec fn parent_of(path: Seq<char>) -> Seq<char> {
    let p = sans_slashes(path);
    let i = text::last_index(p, '/');
    if i >= 0 {
        p.take(i)
    } else {
        seq![]
    }
}

/// The new path of something that is renamed: it stays in its folder.
pub fn planned_rename(form: &RenameForm, is_file: bool) -> (result: Fallible<String>)
    ensures
        match result {
            Ok(rel) => name_error(form.name@) is None && rel@ == joined_rel(
                parent_of(form.path@),
                file_name(text::trim(form.name@), is_file),
            ),
            Err(e) => name_error(form.name@) == Some(e@),
        },
{
    match validate_name(form.name.as_str()) {
        Ok(name) => {
            let name = file_name_of(name.as_str(), is_file);
            let whole = sans_slashes_of(form.path.as_str());
            let v = text::chars_of(whole);
            let after = text::after_last_index(&v, '/');
            let parent = if after > 0 {
                text::string_of(&v, 0, after - 1)
            } else {
                String::new()
            };
            proof {
                assert(parent@ =~= parent_of(form.path@));
            }
            Ok(join_rel(parent.as_str(), name.as_str()))
        },
        Err(e) => Err(e),
    }
}

/// What is said of something that was renamed.
pub fn renamed_message(rel: &str) -> (result: String)
    ensures
        result@ == "Renamed to `"@ + rel@ + "`."@,
{
    text::cat3("Renamed to `", rel, "`.")
}

/// Refuses to delete a folder that holds something of the user's: a whole
/// collection would go, with its reviews.
pub fn check_empty(path: &str, own: &Vec<String>) -> (result: Fallible<()>)
    ensures
        match result {
            Ok(_) => own@.len() == 0,
            Err(e) => own@.len() > 0 && e@ == "`"@ + path@
                + "` is not empty \u{2014} it still holds "@ + text::join(
                text::views(own@),
                ", "@,
            ) + ". Delete those first."@,
        },
{
    if own.len() > 0 {
        let list = text::joined(own, ", ");
        let message = text::cat5(
            "`",
            path,
            "` is not empty \u{2014} it still holds ",
            list.as_str(),
            ". Delete those first.",
        );
        return fail(message.as_str());
    }
    Ok(())
}

/// What is said of something that was deleted.
pub fn deleted_message(path: &str) -> (result: String)
    ensures
        result@ == "Deleted `"@ + path@ + "`."@,
{
    text::cat3("Deleted `", path, "`.")
}

/// The collection folder that a file lies in: the first part of its path. A
/// file that lies in none has no place for its reviews.
pub fn collection_folder(rel: &str) -> (result: Fallible<String>)
    ensures
        ({
            let t = sans_slashes(rel@);
            let top = t.take(text::first_index(t, '/'));
            match result {
                Ok(r) => r@ == top && top.len() > 0 && t.contains('/'),
                Err(e) => {
                    ||| top.len() == 0 && e@ == "`"@ + rel@
                        + "` is not inside a collection folder."@
                    ||| top.len() > 0 && !t.contains('/') && e@ == "`"@ + rel@
                        + "` sits directly in your card folder. Move it into a collection folder so its reviews have somewhere to go."@
                },
            }
        }),
{
    let trimmed = sans_slashes_of(rel);
    let v = text::chars_of(trimmed);
    proof {
        text::lemma_first_index_bounds(trimmed@, '/');
        assert(v@.skip(0) == v@);
    }
    let end = text::index_from(&v, 0, '/');
    let top = text::string_of(&v, 0, end);
    proof {
        assert(top@ =~= trimmed@.take(end as int));
    }
    if top.as_str().is_empty() {
        let message = text::cat3("`", rel, "` is not inside a collection folder.");
        return fail(message.as_str());
    }
    if !text::has_char(trimmed, '/') {
        let message = text::cat3(
            "`",
            rel,
            "` sits directly in your card folder. Move it into a collection folder so its reviews have somewhere to go.",
        );
        return fail(message.as_str());
    }
    Ok(top)
}

/// Refuses to take something for a collection folder that is none.
pub fn check_collection_folder(top: &str, is_dir: bool) -> (result: Fallible<()>)
    ensures
        match result {
            Ok(_) => is_dir,
            Err(e) => !is_dir && e@ == "`"@ + top@ + "` is not a collection folder."@,
        },
{
    if !is_dir {
        let message = text::cat3("`", top, "` is not a collection folder.");
        return fail(message.as_str());
    }
    Ok(())
}

/// The database of the collection with an id.
pub fn db_path_for(db_dir: &str, id: &str) -> (result: String)
    ensures
        result@ == path::join_path(db_dir@, id@ + ".db"@),
{
    let file = text::cat2(id, ".db");
    path::join(db_dir, file.as_str())
}

/// A text without any `suffix` at its end.
pub open spec fn sans_suffix(s: Seq<char>, suffix: Seq<char>) -> Seq<char>
    decreases s.len(),
{
    if suffix.len() > 0 && text::ends_with(s, suffix) {
        sans_suffix(s.take(s.len() - suffix.len()), suffix)
    } else {
        s
    }
}

/// The deck that a file is named for.
pub fn buffer_deck_name(rel: &str) -> (result: String)
    ensures
        result@ == sans_suffix(text::after_last(rel@, '/'), ".md"@),
{
    let mut name = text::behind_last(rel, '/').to_owned();
    proof {
        reveal_strlit(".md");
    }
    while text::has_suffix(name.as_str(), ".md")
        invariant
            ".md"@.len() == 3,
            sans_suffix(name@, ".md"@) == sans_suffix(text::after_last(rel@, '/'), ".md"@),
        decreases name@.len(),
    {
        let v = text::chars_of(name.as_str());
        let short = text::string_of(&v, 0, v.len() - 3);
        proof {
            assert(short@ =~= name@.take(name@.len() - 3));
        }
        name = short;
    }
    name
}

/// Reads a buffer as the file at a path below the card folder would be read.
/// The deck is named after the file.
pub fn parse_buffer(rel: &str, content: &str) -> (result: Fallible<ParsedFile>)
    ensures
        parser::is_read(
            result,
            content@,
            sans_suffix(text::after_last(rel@, '/'), ".md"@),
            rel@,
        ),
{
    let (body, offset) = parser::strip_frontmatter_with_offset(content)?;
    let parser = Parser::new(buffer_deck_name(rel), rel.to_owned(), offset);
    parser.parse_with_duplicates(body.as_str())
}

/// Refuses to open what is not a file.
pub fn check_file(rel: &str, is_file: bool) -> (result: Fallible<()>)
    ensures
        match result {
            Ok(_) => is_file,
            Err(e) => !is_file && e@ == "`"@ + rel@ + "` is not a file."@,
        },
{
    if !is_file {
        let message = text::cat3("`", rel, "` is not a file.");
        return fail(message.as_str());
    }
    Ok(())
}

/// Refuses to save over a change that was made elsewhere.
pub fn check_unchanged(form: &SaveForm, current: u64) -> (result: Fallible<()>)
    ensures
        match result {
            Ok(_) => form.mtime == current,
            Err(e) => form.mtime != current && e@
                == "This file changed since you opened it. Reload the page and reapply your edit."@,
        },
{
    if form.mtime != current {
        return fail(
            "This file changed since you opened it. Reload the page and reapply your edit.",
        );
    }
    Ok(())
}

/// How far saving a file has come.
pub enum SaveStep {
    /// The new text parses into this many cards: their reviews are moved next.
    Migrate(usize),
    /// The old text has to be written back, and this said.
    Revert(String),
    /// The file is saved, and this said.
    Saved(String),
}

/// Decides what follows once the new text is written and has been read: a text
/// that is not understood does not stay.
pub fn after_parse(parsed: Result<usize, String>) -> (result: SaveStep)
    ensures
        match parsed {
            Ok(cards) => result == SaveStep::Migrate(cards),
            Err(e) => result matches SaveStep::Revert(m) && m@ == "Not saved \u{2014} "@ + e@,
        },
{
    match parsed {
        Ok(cards) => SaveStep::Migrate(cards),
        Err(e) => SaveStep::Revert(text::cat2("Not saved \u{2014} ", e.as_str())),
    }
}

/// What is said of a file that was saved.
pub open spec fn saved_text(cards: nat, skipped: nat) -> Seq<char> {
    if skipped > 0 {
        "Saved "@ + text::decimal(cards) + " cards. "@ + text::decimal(skipped)
            + " could not be matched to their old review history and start fresh."@
    } else {
        "Saved "@ + text::decimal(cards) + " cards."@
    }
}

/// Decides what follows once the reviews were moved, `collided` of them onto
/// cards that had some already. If that failed, the file is put back, rather
/// than left before reviews that do not belong to it.
pub fn after_migration(cards: usize, skipped: usize, moved: Result<usize, String>) -> (result:
    SaveStep)
    requires
        moved matches Ok(collided) ==> skipped + collided <= usize::MAX,
    ensures
        match moved {
            Ok(collided) => result matches SaveStep::Saved(m) && m@ == saved_text(
                cards as nat,
                (skipped + collided) as nat,
            ),
            Err(e) => result matches SaveStep::Revert(m) && m@
                == "Not saved \u{2014} the review history could not be updated: "@ + e@,
        },
{
    match moved {
        Ok(collided) => {
            let fresh: usize = skipped + collided;
            let count = text::decimal_of(cards as u64);
            if fresh > 0 {
                let number = text::decimal_of(fresh as u64);
                SaveStep::Saved(
                    text::cat5(
                        "Saved ",
                        count.as_str(),
                        " cards. ",
                        number.as_str(),
                        " could not be matched to their old review history and start fresh.",
                    ),
                )
            } else {
                SaveStep::Saved(text::cat3("Saved ", count.as_str(), " cards."))
            }
        },
        Err(e) => SaveStep::Revert(
            text::cat2(
                "Not saved \u{2014} the review history could not be updated: ",
                e.as_str(),
            ),
        ),
    }
}

/// A name is accepted exactly if it is not blank, is not the one that is
/// reserved, is not hidden and holds no separator.
pub proof fn law_names_are_refused_for_a_reason(name: Seq<char>)
    ensures
        name_error(name) is None <==> {
            let t = text::trim(name);
            &&& t.len() > 0
            &&& t != LOCAL_META_FILE@
            &&& t[0] != '.'
            &&& forall|i: int| 0 <= i < t.len() ==> #[trigger] t[i] != '/' && t[i] != '\\'
        },
{
    reveal_strlit(".");
    let t = text::trim(name);
    if t.len() > 0 {
        assert(text::starts_with(t, "."@) <==> t[0] == '.') by {
            assert(t.subrange(0, 1)[0] == t[0]);
            if t[0] == '.' {
                assert(t.subrange(0, 1) =~= "."@);
            }
        }
    }
    if t.contains('/') {
        let i = choose|i: int| 0 <= i < t.len() && t[i] == '/';
        assert(t[i] == '/');
    }
    if t.contains('\\') {
        let i = choose|i: int| 0 <= i < t.len() && t[i] == '\\';
        assert(t[i] == '\\');
    }
    if !t.contains('/') && !t.contains('\\') {
        assert forall|i: int| 0 <= i < t.len() implies #[trigger] t[i] != '/' && t[i] != '\\' by {
            assert(t.contains(t[i]));
        }
    }
}

/// A card file ends in `.md`: one that does already keeps its name, as every
/// folder does, and others get the ending.
pub proof fn law_card_files_end_in_md(name: Seq<char>)
    ensures
        text::ends_with(file_name(name, true), ".md"@),
        file_name(name, true) == name || file_name(name, true) == name + ".md"@,
        file_name(name + ".md"@, true) == name + ".md"@,
        file_name(name, false) == name,
{
    text::law_beginnings_and_ends_are_found(name, ".md"@, ".md"@);
}

/// What is created in a folder has that folder above it.
pub proof fn law_created_files_lie_in_their_folder(
    folder: Seq<char>,
    name: Seq<char>,
    is_dir: bool,
)
    requires
        folder.len() > 0 ==> !text::is_white_space(folder[0]) && !text::is_white_space(
            folder.last(),
        ) && folder[0] != '/' && folder.last() != '/',
        name_error(name) is None,
    ensures
        parent_of(new_path(folder, name, is_dir)) == folder,
        folder.len() > 0 ==> new_path(folder, name, is_dir) == folder + "/"@ + new_path(
            Seq::empty(),
            name,
            is_dir,
        ),
        is_dir ==> new_path(Seq::empty(), name, is_dir) == text::trim(name),
        !is_dir ==> text::ends_with(new_path(Seq::empty(), name, is_dir), ".md"@),
{
    reveal_strlit("/");
    reveal_strlit(".md");
    let t = text::trim(name);
    let f = file_name(t, !is_dir);
    law_card_files_end_in_md(t);
    assert forall|i: int| 0 <= i < f.len() implies #[trigger] f[i] != '/' by {
        if i < t.len() {
            assert(f[i] == t[i]);
            assert(t.contains(t[i]));
        }
    }
    assert(f.len() > 0);
    let none = Seq::<char>::empty();
    assert(text::trim(folder) == folder);
    assert(sans_slashes(folder) == folder);
    assert(text::trim(none) == none);
    assert(sans_slashes(none) == none);
    let p = joined_rel(folder, f);
    assert(new_path(folder, name, is_dir) == p);
    assert(p.last() == f.last());
    assert(p[0] != '/');
    assert(sans_slashes(p) == p);
    text::lemma_last_index(p, '/');
    let i = text::last_index(p, '/');
    if folder.len() > 0 {
        assert(p[folder.len() as int] == '/');
        assert(i >= folder.len());
        if i > folder.len() {
            assert(p[i] == f[i - folder.len() - 1]);
        }
        assert(p.take(i) =~= folder);
    } else {
        if i >= 0 {
            assert(p[i] == f[i]);
        }
        assert(folder =~= none);
    }
}

/// Taking an ending away takes it away as often as it stands there, and nothing
/// else.
pub proof fn law_endings_are_taken_away(s: Seq<char>, suffix: Seq<char>)
    requires
        suffix.len() > 0,
    ensures
        sans_suffix(s + suffix, suffix) == sans_suffix(s, suffix),
        !text::ends_with(s, suffix) ==> sans_suffix(s, suffix) == s,
{
    text::law_beginnings_and_ends_are_found(s, suffix, suffix);
    assert((s + suffix).take(s.len() as int) =~= s);
}

/// A card file that is not hidden is listed where it lies, and what is listed at
/// a level stands there: it is shown, it is no link, and it is a folder or a
/// card file.
pub proof fn law_card_files_are_listed(
    items: Seq<Listed>,
    prefix: Seq<char>,
    depth: nat,
    k: int,
)
    requires
        0 <= k < items.len(),
    ensures
        shown(items[k].name@) && !items[k].is_symlink && !items[k].is_dir && text::ends_with(
            items[k].name@,
            ".md"@,
        ) ==> tree(items, prefix, depth).contains(
            (joined_rel(prefix, items[k].name@), items[k].name@, false, depth),
        ),
{
    let entries = entries_of(items, prefix, depth);
    lemma_entries_of(items, prefix, depth);
    let e = entries[k];
    assert(e == entry(items[k], prefix, depth));
    if shown_file()(e) {
        let kept = list::keep(entries, shown_file());
        list::lemma_keep(entries, shown_file());
        assert(entries.contains(e));
        assert(kept.contains(e));
        lemma_by_name(kept);
        let sorted = by_name(kept);
        assert(sorted.contains(e));
        let m = choose|m: int| 0 <= m < sorted.len() && sorted[m] == e;
        lemma_flattened_at(sorted, prefix, depth, m);
        let folders = flattened(by_name(list::keep(entries, shown_folder())), prefix, depth);
        let files = flattened(sorted, prefix, depth);
        let row = entry_row(e, prefix, depth);
        assert(entry_rows(e, prefix, depth)[0] == row);
        let at = flattened(sorted.take(m), prefix, depth).len() as int;
        assert(files.subrange(at, at + entry_rows(e, prefix, depth).len())[0] == files[at]);
        assert((folders + files)[folders.len() + at] == row);
    }
}

/// Whether what lies below the entries of a level is deeper than they are.
spec fn deeper(entries: Seq<EntryView>, depth: nat) -> bool {
    forall|k: int, j: int|
        0 <= k < entries.len() && 0 <= j < entries[k].below.len() ==> (
        #[trigger] entries[k].below[j]).3 > depth
}

proof fn lemma_below_is_deeper(items: Seq<Listed>, prefix: Seq<char>, depth: nat)
    ensures
        ({
            let entries = entries_of(items, prefix, depth);
            &&& deeper(by_name(list::keep(entries, shown_folder())), depth)
            &&& deeper(by_name(list::keep(entries, shown_file())), depth)
        }),
{
    let entries = entries_of(items, prefix, depth);
    lemma_entries_of(items, prefix, depth);
    assert forall|e: EntryView, j: int|
        entries.contains(e) && 0 <= j < e.below.len() implies (#[trigger] e.below[j]).3 > depth by {
        let k = choose|k: int| 0 <= k < entries.len() && entries[k] == e;
        law_the_tree_is_written_depth_first(
            items[k].below@,
            joined_rel(prefix, items[k].name@),
            depth + 1,
        );
        assert(e == entry(items[k], prefix, depth));
        assert(e.below[j].3 >= depth + 1);
    }
    lemma_kept_is_deeper(entries, shown_folder(), depth);
    lemma_kept_is_deeper(entries, shown_file(), depth);
}

proof fn lemma_kept_is_deeper(
    entries: Seq<EntryView>,
    p: spec_fn(EntryView) -> bool,
    depth: nat,
)
    requires
        forall|e: EntryView, j: int|
            entries.contains(e) && 0 <= j < e.below.len() ==> (#[trigger] e.below[j]).3 > depth,
    ensures
        deeper(by_name(list::keep(entries, p)), depth),
{
    let kept = list::keep(entries, p);
    list::lemma_keep(entries, p);
    lemma_by_name(kept);
    let sorted = by_name(kept);
    assert forall|k: int, j: int|
        0 <= k < sorted.len() && 0 <= j < sorted[k].below.len() implies (
    #[trigger] sorted[k].below[j]).3 > depth by {
        assert(sorted.contains(sorted[k]));
        assert(kept.contains(sorted[k]));
        assert(entries.contains(sorted[k]));
    }
}

proof fn lemma_top_rows(entries: Seq<EntryView>, prefix: Seq<char>, depth: nat, i: int) -> (k: int)
    requires
        deeper(entries, depth),
        0 <= i < flattened(entries, prefix, depth).len(),
        flattened(entries, prefix, depth)[i].3 == depth,
    ensures
        0 <= k < entries.len(),
        flattened(entries, prefix, depth)[i] == entry_row(entries[k], prefix, depth),
        flattened(entries.take(k), prefix, depth).len() == i,
    decreases entries.len(),
{
    let rest = entries.drop_last();
    let front = flattened(rest, prefix, depth);
    let n = entries.len() - 1;
    if i < front.len() {
        assert(deeper(rest, depth)) by {
            assert forall|k: int, j: int|
                0 <= k < rest.len() && 0 <= j < rest[k].below.len() implies (
            #[trigger] rest[k].below[j]).3 > depth by {
                assert(rest[k] == entries[k]);
                assert(entries[k].below[j].3 > depth);
            }
        }
        let k = lemma_top_rows(rest, prefix, depth, i);
        assert(rest.take(k) =~= entries.take(k));
        k
    } else {
        let rows = entry_rows(entries.last(), prefix, depth);
        assert(flattened(entries, prefix, depth)[i] == rows[i - front.len()]);
        if i > front.len() {
            assert(entries[n].below[i - front.len() - 1].3 > depth);
        }
        assert(entries.take(n) =~= rest);
        n
    }
}

proof fn lemma_flattened_grows(
    entries: Seq<EntryView>,
    prefix: Seq<char>,
    depth: nat,
    a: int,
    b: int,
)
    requires
        0 <= a <= b <= entries.len(),
    ensures
        flattened(entries.take(a), prefix, depth).len() <= flattened(
            entries.take(b),
            prefix,
            depth,
        ).len(),
    decreases b - a,
{
    if a < b {
        assert(entries.take(b).drop_last() =~= entries.take(b - 1));
        lemma_flattened_grows(entries, prefix, depth, a, b - 1);
    }
}

proof fn lemma_sorted_by_name(entries: Seq<EntryView>, i: int, j: int)
    requires
        0 <= i < j < by_name(entries).len(),
    ensures
        !text::precedes(by_name(entries)[j].name, by_name(entries)[i].name),
{
    let names = names_of(entries);
    let places = order::order(names, names.len());
    order::lemma_order(names, names.len());
    assert(names[places[i]] == by_name(entries)[i].name);
    assert(names[places[j]] == by_name(entries)[j].name);
}

proof fn lemma_top_rows_sorted(
    entries: Seq<EntryView>,
    prefix: Seq<char>,
    depth: nat,
    i: int,
    j: int,
)
    requires
        deeper(by_name(entries), depth),
        0 <= i < j < flattened(by_name(entries), prefix, depth).len(),
        flattened(by_name(entries), prefix, depth)[i].3 == depth,
        flattened(by_name(entries), prefix, depth)[j].3 == depth,
    ensures
        !text::precedes(
            flattened(by_name(entries), prefix, depth)[j].1,
            flattened(by_name(entries), prefix, depth)[i].1,
        ),
{
    let sorted = by_name(entries);
    let a = lemma_top_rows(sorted, prefix, depth, i);
    let b = lemma_top_rows(sorted, prefix, depth, j);
    if b <= a {
        lemma_flattened_grows(sorted, prefix, depth, b, a);
    }
    lemma_sorted_by_name(entries, a, b);
}

/// At each level the folders come before the files, and each of the two goes by
/// name.
pub proof fn law_levels_are_sorted(
    items: Seq<Listed>,
    prefix: Seq<char>,
    depth: nat,
    i: int,
    j: int,
)
    requires
        0 <= i < j < tree(items, prefix, depth).len(),
        tree(items, prefix, depth)[i].3 == depth,
        tree(items, prefix, depth)[j].3 == depth,
    ensures
        ({
            let a = tree(items, prefix, depth)[i];
            let b = tree(items, prefix, depth)[j];
            &&& b.2 ==> a.2
            &&& a.2 == b.2 ==> !text::precedes(b.1, a.1)
        }),
{
    let entries = entries_of(items, prefix, depth);
    let folders = list::keep(entries, shown_folder());
    let files = list::keep(entries, shown_file());
    lemma_below_is_deeper(items, prefix, depth);
    list::lemma_keep(entries, shown_folder());
    list::lemma_keep(entries, shown_file());
    lemma_by_name(folders);
    lemma_by_name(files);
    let x = flattened(by_name(folders), prefix, depth);
    let y = flattened(by_name(files), prefix, depth);
    if j < x.len() {
        lemma_top_rows_sorted(folders, prefix, depth, i, j);
        let k = lemma_top_rows(by_name(folders), prefix, depth, i);
        assert(by_name(folders).contains(by_name(folders)[k]));
    } else {
        let k = lemma_top_rows(by_name(files), prefix, depth, j - x.len());
        assert(by_name(files).contains(by_name(files)[k]));
        assert(files.contains(by_name(files)[k]));
        if i >= x.len() {
            lemma_top_rows_sorted(files, prefix, depth, i - x.len(), j - x.len());
        } else {
            let m = lemma_top_rows(by_name(folders), prefix, depth, i);
            assert(by_name(folders).contains(by_name(folders)[m]));
            assert(folders.contains(by_name(folders)[m]));
        }
    }
}

/// Where a row comes from: a listed entry that is shown.
pub open spec fn comes_from(r: Row, items: Seq<Listed>, prefix: Seq<char>, k: int) -> bool {
    &&& 0 <= k < items.len()
    &&& r.1 == items[k].name@
    &&& r.0 == joined_rel(prefix, items[k].name@)
    &&& r.2 == items[k].is_dir
    &&& shown(items[k].name@)
    &&& !items[k].is_symlink
    &&& items[k].is_dir || text::ends_with(items[k].name@, ".md"@)
}

/// Nothing is listed at a level that does not lie there and is to be shown.
pub proof fn law_only_what_is_shown_is_listed(
    items: Seq<Listed>,
    prefix: Seq<char>,
    depth: nat,
    i: int,
)
    requires
        0 <= i < tree(items, prefix, depth).len(),
        tree(items, prefix, depth)[i].3 == depth,
    ensures
        exists|k: int| #[trigger] comes_from(tree(items, prefix, depth)[i], items, prefix, k),
{
    let entries = entries_of(items, prefix, depth);
    lemma_entries_of(items, prefix, depth);
    let a = list::keep(entries, shown_folder());
    let b = list::keep(entries, shown_file());
    list::lemma_keep(entries, shown_folder());
    list::lemma_keep(entries, shown_file());
    lemma_by_name(a);
    lemma_by_name(b);
    let x = flattened(by_name(a), prefix, depth);
    let y = flattened(by_name(b), prefix, depth);
    let r = tree(items, prefix, depth)[i];
    lemma_below_is_deeper(items, prefix, depth);
    let from = if i < x.len() {
        lemma_top_rows(by_name(a), prefix, depth, i)
    } else {
        lemma_top_rows(by_name(b), prefix, depth, i - x.len())
    };
    let e = if i < x.len() {
        by_name(a)[from]
    } else {
        by_name(b)[from]
    };
    if i < x.len() {
        assert(by_name(a).contains(e));
        assert(a.contains(e));
    } else {
        assert(by_name(b).contains(e));
        assert(b.contains(e));
    }
    assert(entries.contains(e));
    let k = choose|k: int| 0 <= k < entries.len() && entries[k] == e;
    assert(comes_from(r, items, prefix, k));
}

/// A saved file is told with how many cards it holds, and also how many of them
/// lost their history, where any did.
pub proof fn law_saved_files_are_told_with_their_cards(cards: nat, skipped: nat)
    ensures
        text::starts_with(saved_text(cards, skipped), "Saved "@ + text::decimal(cards)),
        skipped > 0 ==> text::starts_with(
            saved_text(cards, skipped),
            "Saved "@ + text::decimal(cards) + " cards. "@ + text::decimal(skipped),
        ),
{
    let head = "Saved "@ + text::decimal(cards);
    let tail = " could not be matched to their old review history and start fresh."@;
    let rest = " cards. "@ + text::decimal(skipped);
    assert(skipped > 0 ==> saved_text(cards, skipped) =~= head + (rest + tail));
    text::law_beginnings_and_ends_are_found(head, rest + tail, tail);
    text::law_beginnings_and_ends_are_found(head, " cards."@, tail);
    assert(head + " cards. "@ + text::decimal(skipped) =~= head + rest);
    text::law_beginnings_and_ends_are_found(head + rest, tail, tail);
}

} // verus!
