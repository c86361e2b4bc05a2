//! File paths as text, with `/` between the components.

use vstd::prelude::*;
use crate::list;
use crate::text;

verus! {

/// Whether a path starts at the root of the file system.
pub open spec fn is_absolute(path: Seq<char>) -> bool {
    path.len() > 0 && path[0] == '/'
}

/// Where `rel` is, seen from `base`. An absolute `rel` is itself.
pub open spec fn join_path(base: Seq<char>, rel: Seq<char>) -> Seq<char> {
    if is_absolute(rel) || base.len() == 0 {
        rel
    } else if base.last() == '/' {
        base + rel
    } else {
        base + "/"@ + rel
    }
}

/// Whether a path starts at the root of the file system.
pub fn absolute(path: &str) -> (result: bool)
    ensures
        result == is_absolute(path@),
{
    let v = text::chars_of(path);
    v.len() > 0 && v[0] == '/'
}

/// Where `rel` is, seen from `base`.
pub fn join(base: &str, rel: &str) -> (result: String)
    ensures
        result@ == join_path(base@, rel@),
{
    let v = text::chars_of(base);
    if absolute(rel) || v.len() == 0 {
        rel.to_owned()
    } else if v[v.len() - 1] == '/' {
        text::cat2(base, rel)
    } else {
        text::cat3(base, "/", rel)
    }
}

/// Whether one of the components of a path is `..`.
pub open spec fn has_parent(path: Seq<char>) -> bool {
    text::split(path, '/').contains(".."@)
}

/// Whether one of the components of a path is `..`.
pub fn climbs(path: &str) -> (result: bool)
    ensures
        result == has_parent(path@),
{
    let parts = text::split_at_char(path, '/');
    let mut i: usize = 0;
    while i < parts.len()
        invariant
            i <= parts@.len(),
            text::views(parts@) == text::split(path@, '/'),
            forall|j: int| 0 <= j < i ==> #[trigger] text::views(parts@)[j] != ".."@,
        decreases parts@.len() - i,
    {
        if text::same(parts[i].as_str(), "..") {
            proof {
                assert(text::views(parts@)[i as int] == ".."@);
            }
            return true;
        }
        i += 1;
    }
    false
}

/// Whether a piece of a path names something: it is not empty and not `.`.
pub open spec fn names(piece: Seq<char>) -> bool {
    piece.len() > 0 && piece != "."@
}

/// Whether a piece of a path names something.
pub open spec fn naming() -> spec_fn(Seq<char>) -> bool {
    |piece: Seq<char>| names(piece)
}

/// The components of a relative path: its pieces, without the empty ones and
/// the dots that name the place they stand in.
pub open spec fn components(path: Seq<char>) -> Seq<Seq<char>> {
    list::keep(text::split(path, '/'), naming())
}

/// A path that is put behind another adds its components.
pub proof fn lemma_joined_components(base: Seq<char>, rel: Seq<char>)
    requires
        !is_absolute(rel),
    ensures
        components(join_path(base, rel)) == components(base) + components(rel),
{
    let p = naming();
    if base.len() == 0 {
        assert(text::split(base, '/') =~= seq![base]);
        assert(list::keep(text::split(base, '/').drop_last(), p) =~= Seq::<Seq<char>>::empty());
        assert(components(base) =~= Seq::<Seq<char>>::empty());
        assert(components(base) + components(rel) =~= components(rel));
    } else {
        let front = if base.last() == '/' {
            base.drop_last()
        } else {
            base
        };
        reveal_strlit("/");
        text::lemma_split_append(front, rel, '/');
        assert(join_path(base, rel) =~= front.push('/') + rel);
        list::lemma_keep_append(text::split(front, '/'), text::split(rel, '/'), p);
        if base.last() == '/' {
            let none = Seq::<char>::empty();
            text::lemma_split_append(front, none, '/');
            assert(front.push('/') + none =~= base);
            assert(text::split(none, '/') =~= seq![none]);
            assert(text::split(base, '/') =~= text::split(front, '/').push(none));
            assert(text::split(base, '/').drop_last() =~= text::split(front, '/'));
        }
    }
}

/// A path of one component has that one.
pub proof fn lemma_one_component(name: Seq<char>)
    requires
        names(name),
        !name.contains('/'),
    ensures
        components(name) == seq![name],
        !is_absolute(name),
{
    text::lemma_first_index_bounds(name, '/');
    assert(text::split(name, '/') =~= seq![name]);
    assert(text::split(name, '/').drop_last() =~= Seq::<Seq<char>>::empty());
    assert(list::keep(text::split(name, '/').drop_last(), naming()) =~= Seq::<Seq<char>>::empty());
    if is_absolute(name) {
        assert(name.contains(name[0]));
    }
}

/// The components of a relative path.
pub fn components_of(path: &str) -> (result: Vec<String>)
    ensures
        text::views(result@) == components(path@),
{
    let parts = text::split_at_char(path, '/');
    let ghost pieces = text::views(parts@);
    let ghost p = naming();
    let mut result: Vec<String> = Vec::new();
    let mut i: usize = 0;
    while i < parts.len()
        invariant
            i <= parts@.len(),
            pieces == text::views(parts@),
            pieces == text::split(path@, '/'),
            p == naming(),
            text::views(result@) == list::keep(pieces.take(i as int), p),
        decreases parts@.len() - i,
    {
        proof {
            list::lemma_keep_step(pieces, p, i as int);
        }
        let piece = parts[i].clone();
        if !piece.as_str().is_empty() && !text::same(piece.as_str(), ".") {
            proof {
                text::lemma_views_push(result@, piece);
            }
            result.push(piece);
        }
        i += 1;
    }
    proof {
        assert(pieces.take(i as int) == pieces);
    }
    result
}

/// The last component of a path, unless that is `..`.
pub open spec fn file_name(path: Seq<char>) -> Option<Seq<char>> {
    let parts = components(path);
    if parts.len() == 0 || parts.last() == ".."@ {
        None
    } else {
        Some(parts.last())
    }
}

/// The last component of a path, unless that is `..`.
pub fn file_name_of(path: &str) -> (result: Option<String>)
    ensures
        text::opt_text(result) == file_name(path@),
{
    let parts = components_of(path);
    if parts.len() == 0 {
        return None;
    }
    let last = parts[parts.len() - 1].clone();
    proof {
        assert(components(path@).last() == last@);
    }
    if text::same(last.as_str(), "..") {
        None
    } else {
        Some(last)
    }
}

/// What stands behind the last dot of a file name, unless that dot is its
/// first character.
pub open spec fn extension(path: Seq<char>) -> Option<Seq<char>> {
    match file_name(path) {
        Some(name) => if text::last_index(name, '.') > 0 {
            Some(text::after_last(name, '.'))
        } else {
            None
        },
        None => None,
    }
}

/// The extension of a file name.
pub fn extension_of(path: &str) -> (result: Option<String>)
    ensures
        text::opt_text(result) == extension(path@),
{
    match file_name_of(path) {
        Some(name) => {
            let v = text::chars_of(name.as_str());
            let i = text::after_last_index(&v, '.');
            if i > 1 {
                Some(text::behind_last(name.as_str(), '.').to_owned())
            } else {
                None
            }
        },
        None => None,
    }
}

/// The path of `file` seen from the directory `dir`, if it lies in it: what
/// remains of the components of `file` behind those of `dir`.
pub open spec fn inside(file: Seq<char>, dir: Seq<char>) -> Option<Seq<char>> {
    let parts = components(file);
    let prefix = components(dir);
    if is_absolute(file) == is_absolute(dir) && prefix.len() <= parts.len() && parts.take(
        prefix.len() as int,
    ) == prefix {
        Some(text::join(parts.skip(prefix.len() as int), "/"@))
    } else {
        None
    }
}

/// The path of `file` seen from the directory `dir`, if it lies in it.
pub fn strip_prefix(file: &str, dir: &str) -> (result: Option<String>)
    ensures
        text::opt_text(result) == inside(file@, dir@),
{
    let parts = components_of(file);
    let prefix = components_of(dir);
    let ghost p = text::views(parts@);
    let ghost q = text::views(prefix@);
    if absolute(file) != absolute(dir) || prefix.len() > parts.len() {
        return None;
    }
    let mut i: usize = 0;
    while i < prefix.len()
        invariant
            i <= prefix@.len() <= parts@.len(),
            p == text::views(parts@),
            q == text::views(prefix@),
            p == components(file@),
            q == components(dir@),
            forall|j: int| 0 <= j < i ==> #[trigger] p[j] == q[j],
        decreases prefix@.len() - i,
    {
        if !text::same(parts[i].as_str(), prefix[i].as_str()) {
            proof {
                assert(p.take(q.len() as int)[i as int] != q[i as int]);
            }
            return None;
        }
        i += 1;
    }
    proof {
        assert(p.take(q.len() as int) =~= q);
        assert(p.subrange(q.len() as int, p.len() as int) == p.skip(q.len() as int));
    }
    Some(text::joined_range(&parts, prefix.len(), parts.len(), "/"))
}

/// Whether a name can stand for a file or a folder: it is one piece of a path,
/// and neither the folder itself nor the one above.
pub open spec fn is_name(name: Seq<char>) -> bool {
    name.len() > 0 && !name.contains('/') && name != "."@ && name != ".."@
}

/// A file in a folder has the name that it was put there under, and the folder
/// does not matter.
pub proof fn law_files_keep_their_name_in_a_folder(dir: Seq<char>, name: Seq<char>)
    requires
        is_name(name),
    ensures
        file_name(join_path(dir, name)) == Some(name),
        file_name(name) == Some(name),
        inside(join_path(dir, name), dir) == Some(name),
{
    lemma_one_component(name);
    lemma_joined_components(dir, name);
    let all = components(dir) + seq![name];
    assert(all.last() == name);
    assert(all.take(components(dir).len() as int) =~= components(dir));
    assert(all.skip(components(dir).len() as int) =~= seq![name]);
    law_joined_paths_are_absolute_with_their_base(dir, name);
}

/// A relative path goes below what it is joined to, and is found again there;
/// an absolute one stands on its own.
pub proof fn law_joined_paths_lie_inside(dir: Seq<char>, rel: Seq<char>)
    ensures
        !is_absolute(rel) ==> inside(join_path(dir, rel), dir) == Some(
            text::join(components(rel), "/"@),
        ),
        is_absolute(rel) ==> join_path(dir, rel) == rel,
{
    if !is_absolute(rel) {
        lemma_joined_components(dir, rel);
        law_joined_paths_are_absolute_with_their_base(dir, rel);
        let all = components(dir) + components(rel);
        assert(all.take(components(dir).len() as int) =~= components(dir));
        assert(all.skip(components(dir).len() as int) =~= components(rel));
    }
}

/// A joined path is absolute exactly where its base is, or what was joined to it.
pub proof fn law_joined_paths_are_absolute_with_their_base(base: Seq<char>, rel: Seq<char>)
    ensures
        is_absolute(join_path(base, rel)) <==> is_absolute(base) || is_absolute(rel),
{
    reveal_strlit("/");
}

/// Only what begins with the components of a folder lies inside it.
pub proof fn law_other_folders_hold_other_files(file: Seq<char>, dir: Seq<char>, i: int)
    requires
        0 <= i < components(dir).len(),
        i >= components(file).len() || components(file)[i] != components(dir)[i],
    ensures
        inside(file, dir) is None,
{
    if components(dir).len() <= components(file).len() {
        assert(components(file).take(components(dir).len() as int)[i] == components(file)[i]);
    }
}

/// The components of a path are its names: neither further slashes nor the
/// folder itself between them change what is named.
pub proof fn law_components_are_the_names(parts: Seq<Seq<char>>, path: Seq<char>)
    requires
        forall|i: int|
            0 <= i < parts.len() ==> (#[trigger] parts[i]).len() > 0 && !parts[i].contains('/')
                && parts[i] != "."@,
    ensures
        components(text::join(parts, "/"@)) == parts,
        components(seq!['/'] + path) == components(path),
        components(path.push('/')) == components(path),
        components(seq!['.', '/'] + path) == components(path),
{
    reveal_strlit("/");
    reveal_strlit(".");
    let none = Seq::<char>::empty();
    assert(seq!['/'] =~= "/"@);
    lemma_nothing_named(none);
    if parts.len() > 0 {
        text::lemma_split_of_joined(parts, '/');
        list::lemma_keep_everything(parts, naming());
    } else {
        assert(text::join(parts, "/"@) =~= none);
        assert(parts =~= components(none));
    }
    text::lemma_split_append(none, path, '/');
    assert(none.push('/') + path =~= seq!['/'] + path);
    list::lemma_keep_append(text::split(none, '/'), text::split(path, '/'), naming());
    assert(components(none) + components(path) =~= components(path));
    text::lemma_split_append(path, none, '/');
    assert(path.push('/') + none =~= path.push('/'));
    list::lemma_keep_append(text::split(path, '/'), text::split(none, '/'), naming());
    assert(components(path) + components(none) =~= components(path));
    let here = seq!['.'];
    assert(here =~= "."@);
    lemma_nothing_named(here);
    text::lemma_split_append(here, path, '/');
    assert(here.push('/') + path =~= seq!['.', '/'] + path);
    list::lemma_keep_append(text::split(here, '/'), text::split(path, '/'), naming());
    assert(components(here) + components(path) =~= components(path));
}

proof fn lemma_nothing_named(s: Seq<char>)
    requires
        s.len() == 0 || s == "."@,
    ensures
        components(s).len() == 0,
{
    reveal_strlit(".");
    assert forall|j: int| 0 <= j < s.len() implies s[j] != '/' by {}
    text::lemma_first_index(s, '/', s.len() as int);
    assert(text::split(s, '/') =~= seq![s]);
    list::lemma_keep_nothing(seq![s], naming());
}

/// The extension of a file is what follows the last dot of its name; a name with
/// no dot behind its first character has none.
pub proof fn law_extensions_follow_the_last_dot(
    dir: Seq<char>,
    stem: Seq<char>,
    ext: Seq<char>,
    name: Seq<char>,
)
    requires
        stem.len() > 0,
        !stem.contains('/'),
        ext.len() > 0,
        !ext.contains('/'),
        !ext.contains('.'),
        is_name(name),
        !name.skip(1).contains('.'),
    ensures
        extension(join_path(dir, stem.push('.') + ext)) == Some(ext),
        extension(join_path(dir, name)) is None,
{
    let full = stem.push('.') + ext;
    reveal_strlit(".");
    reveal_strlit("..");
    assert(!full.contains('/')) by {
        if full.contains('/') {
            let i = choose|i: int| 0 <= i < full.len() && full[i] == '/';
            if i < stem.len() {
                assert(stem[i] == '/');
            } else {
                assert(i > stem.len());
                assert(ext[i - stem.len() - 1] == '/');
            }
        }
    }
    assert(full.last() == ext.last());
    assert(ext.contains(ext.last()));
    assert(full != "."@);
    assert(full != ".."@);
    law_files_keep_their_name_in_a_folder(dir, full);
    text::lemma_last_index(full, '.');
    let k = text::last_index(full, '.');
    assert(full[stem.len() as int] == '.');
    assert(k >= stem.len());
    if k > stem.len() {
        assert(ext[k - stem.len() - 1] == '.');
        assert(ext.contains('.'));
    }
    assert(full.skip(k + 1) =~= ext);
    law_files_keep_their_name_in_a_folder(dir, name);
    text::lemma_last_index(name, '.');
    let m = text::last_index(name, '.');
    if m > 0 {
        assert(name.skip(1)[m - 1] == '.');
        assert(name.skip(1).contains('.'));
    }
}

/// A path leads upwards exactly where one of its names is two dots.
pub proof fn law_two_dots_lead_upwards(a: Seq<char>, b: Seq<char>, name: Seq<char>)
    requires
        !name.contains('/'),
    ensures
        has_parent(name) <==> name == ".."@,
        has_parent(a.push('/') + b) <==> has_parent(a) || has_parent(b),
{
    assert forall|j: int| 0 <= j < name.len() implies name[j] != '/' by {
        assert(name.contains(name[j]));
    }
    text::lemma_first_index(name, '/', name.len() as int);
    assert(text::split(name, '/') =~= seq![name]);
    if name == ".."@ {
        assert(text::split(name, '/')[0] == ".."@);
    }
    text::lemma_split_append(a, b, '/');
    let x = text::split(a, '/');
    let y = text::split(b, '/');
    let up = ".."@;
    if x.contains(up) {
        let i = choose|i: int| 0 <= i < x.len() && x[i] == up;
        assert((x + y)[i] == up);
    }
    if y.contains(up) {
        let i = choose|i: int| 0 <= i < y.len() && y[i] == up;
        assert((x + y)[x.len() + i] == up);
    }
    if (x + y).contains(up) {
        let i = choose|i: int| 0 <= i < (x + y).len() && (x + y)[i] == up;
        if i < x.len() {
            assert(x[i] == up);
        } else {
            assert(y[i - x.len()] == up);
        }
    }
}

} // verus!
