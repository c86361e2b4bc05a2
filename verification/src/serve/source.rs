//! Where the text behind a pasted address comes from.

use vstd::prelude::*;
use crate::error::{fail, Fallible};
use crate::list;
use crate::text;
use crate::url;

verus! {

/// Where the text of a source comes from.
#[derive(Clone, Copy, Debug, PartialEq, Eq, Structural)]
pub enum SourceKind {
    Hedgedoc,
    Git,
}

impl SourceKind {
    /// The label that is shown for the source.
    pub fn label(&self) -> (result: &'static str)
        ensures
            result@ == match *self {
                SourceKind::Hedgedoc => "hedgedoc"@,
                SourceKind::Git => "git"@,
            },
    {
        match self {
            SourceKind::Hedgedoc => "hedgedoc",
            SourceKind::Git => "git",
        }
    }
}

/// How the address of a page that shows a file becomes the address of the file
/// itself.
pub struct RawPlan {
    /// The host to go to, where it changes.
    pub host: Option<String>,
    /// The segments of the path, where they change.
    pub path: Option<Vec<String>>,
}

/// The host of GitHub's raw files.
pub open spec fn raw_host() -> Seq<char> {
    "raw.githubusercontent.com"@
}

/// Where `piece` first stands among the segments; their number if it does not.
pub open spec fn piece_index(segments: Seq<Seq<char>>, piece: Seq<char>) -> int
    decreases segments.len(),
{
    if segments.len() == 0 || segments[0] == piece {
        0
    } else {
        1 + piece_index(segments.skip(1), piece)
    }
}

/// Whether the segments are those of a page of GitLab that shows a file:
/// `-/blob/` and something behind it.
pub open spec fn is_gitlab(segments: Seq<Seq<char>>) -> bool {
    let dash = piece_index(segments, "-"@);
    segments.len() > dash + 2 && segments[dash + 1] == "blob"@
}

/// The new host and path for the address of a file page, each where it
/// changes; `None` for an address that is not of a file.
///
/// GitHub has `owner/repo/blob/ref/path` and serves the file from another host
/// without the `blob`. GitLab has `-/blob/` and serves the file under `-/raw/`.
/// Gitea and Forgejo have `owner/repo/src/branch/` and serve it under
/// `raw/branch/`. Any other address of a Markdown file is that of the file.
pub open spec fn raw_plan(host: Option<Seq<char>>, segments: Option<Seq<Seq<char>>>) -> Option<
    (Option<Seq<char>>, Option<Seq<Seq<char>>>),
> {
    match (host, segments) {
        (Some(h), Some(all)) => {
            let s = list::keep(all, |p: Seq<char>| p.len() > 0);
            let dash = piece_index(s, "-"@);
            if h == "github.com"@ && s.len() >= 5 && s[2] == "blob"@ {
                Some((Some(raw_host()), Some(s.take(2) + s.skip(3))))
            } else if is_gitlab(s) {
                Some((None, Some(s.update(dash + 1, "raw"@))))
            } else if s.len() >= 6 && s[2] == "src"@ && s[3] == "branch"@ {
                Some((None, Some(s.take(2) + seq!["raw"@] + s.skip(3))))
            } else if s.len() > 0 && text::ends_with(s.last(), ".md"@) {
                Some((None, None))
            } else {
                None
            }
        },
        _ => None,
    }
}

/// A plan as the rules see it.
pub open spec fn plan_view(plan: RawPlan) -> (Option<Seq<char>>, Option<Seq<Seq<char>>>) {
    (text::opt_text(plan.host), url::opt_views(plan.path))
}

/// The segments that are not empty.
pub fn nonempty(segments: &Vec<String>) -> (result: Vec<String>)
    ensures
        text::views(result@) == list::keep(
            text::views(segments@),
            |p: Seq<char>| p.len() > 0,
        ),
{
    let ghost all = text::views(segments@);
    let ghost p = |p: Seq<char>| p.len() > 0;
    let mut result: Vec<String> = Vec::new();
    let mut i: usize = 0;
    proof {
        assert(text::views(result@) =~= list::keep(all.take(0), p));
    }
    while i < segments.len()
        invariant
            i <= segments@.len(),
            all == text::views(segments@),
            p == (|p: Seq<char>| p.len() > 0),
            text::views(result@) == list::keep(all.take(i as int), p),
        decreases segments@.len() - i,
    {
        proof {
            list::lemma_keep_step(all, p, i as int);
        }
        let piece = segments[i].clone();
        if !piece.as_str().is_empty() {
            proof {
                text::lemma_views_push(result@, piece);
            }
            result.push(piece);
        }
        i += 1;
    }
    proof {
        assert(all.take(i as int) == all);
    }
    result
}

fn position(segments: &Vec<String>, piece: &str) -> (result: usize)
    ensures
        result == piece_index(text::views(segments@), piece@),
        result <= segments@.len(),
{
    let ghost s = text::views(segments@);
    let mut i: usize = 0;
    proof {
        assert(s.skip(0) == s);
    }
    while i < segments.len()
        invariant
            i <= segments@.len(),
            s == text::views(segments@),
            i + piece_index(s.skip(i as int), piece@) == piece_index(s, piece@),
        decreases segments@.len() - i,
    {
        proof {
            assert(s.skip(i as int).skip(1) == s.skip(i + 1));
            assert(s.skip(i as int)[0] == segments@[i as int]@);
        }
        if text::same(segments[i].as_str(), piece) {
            return i;
        }
        i += 1;
    }
    i
}

/// The segments with `count` of them, from place `at` on, replaced by `put`.
fn patched(segments: &Vec<String>, at: usize, count: usize, put: Option<&str>) -> (result: Vec<
    String,
>)
    requires
        at + count <= segments@.len(),
    ensures
        text::views(result@) == text::views(segments@).take(at as int) + (match put {
            Some(p) => seq![p@],
            None => seq![],
        }) + text::views(segments@).skip(at + count),
{
    let ghost s = text::views(segments@);
    let n: usize = segments.len();
    let from: usize = at + count;
    let mut result: Vec<String> = Vec::new();
    let mut i: usize = 0;
    proof {
        assert(text::views(result@) =~= s.take(0));
    }
    while i < at
        invariant
            i <= at <= segments@.len(),
            s == text::views(segments@),
            text::views(result@) == s.take(i as int),
        decreases at - i,
    {
        let piece = segments[i].clone();
        proof {
            text::lemma_views_push(result@, piece);
        }
        result.push(piece);
        i += 1;
        proof {
            assert(text::views(result@) =~= s.take(i as int));
        }
    }
    let ghost middle: Seq<Seq<char>> = match put {
        Some(p) => seq![p@],
        None => seq![],
    };
    if let Some(p) = put {
        let piece = p.to_owned();
        proof {
            text::lemma_views_push(result@, piece);
        }
        result.push(piece);
    }
    let mut j: usize = from;
    proof {
        assert(text::views(result@) =~= s.take(at as int) + middle + s.subrange(
            from as int,
            from as int,
        ));
    }
    while j < n
        invariant
            n == segments@.len(),
            from <= j <= segments@.len(),
            s == text::views(segments@),
            text::views(result@) == s.take(at as int) + middle + s.subrange(from as int, j as int),
        decreases n - j,
    {
        let piece = segments[j].clone();
        proof {
            text::lemma_views_push(result@, piece);
        }
        result.push(piece);
        j += 1;
        proof {
            assert(text::views(result@) =~= s.take(at as int) + middle + s.subrange(
                from as int,
                j as int,
            ));
        }
    }
    proof {
        assert(s.subrange(from as int, j as int) == s.skip(from as int));
    }
    result
}

/// How the address of a file page becomes the address of the file.
pub fn git_raw_plan(host: &Option<String>, segments: &Option<Vec<String>>) -> (result: Option<
    RawPlan,
>)
    ensures
        match result {
            Some(plan) => raw_plan(text::opt_text(*host), url::opt_views(*segments)) == Some(
                plan_view(plan),
            ),
            None => raw_plan(text::opt_text(*host), url::opt_views(*segments)) is None,
        },
{
    let (h, all) = match (host, segments) {
        (Some(h), Some(all)) => (h, all),
        _ => {
            return None;
        },
    };
    let s = nonempty(all);
    let ghost v = text::views(s@);
    proof {
        assert(forall|i: int| 0 <= i < s@.len() ==> #[trigger] v[i] == s@[i]@);
    }
    if text::same(h.as_str(), "github.com") && s.len() >= 5 && text::same(s[2].as_str(), "blob") {
        let path = patched(&s, 2, 1, None);
        proof {
            assert(text::views(path@) =~= v.take(2) + v.skip(3));
        }
        return Some(
            RawPlan { host: Some("raw.githubusercontent.com".to_owned()), path: Some(path) },
        );
    }
    let dash = position(&s, "-");
    if dash < s.len() && s.len() - dash > 2 && text::same(s[dash + 1].as_str(), "blob") {
        let path = patched(&s, dash + 1, 1, Some("raw"));
        proof {
            assert(text::views(path@) =~= v.update(dash + 1, "raw"@));
        }
        return Some(RawPlan { host: None, path: Some(path) });
    }
    proof {
        assert(!is_gitlab(v));
    }
    if s.len() >= 6 && text::same(s[2].as_str(), "src") && text::same(s[3].as_str(), "branch") {
        let path = patched(&s, 2, 1, Some("raw"));
        proof {
            assert(text::views(path@) =~= v.take(2) + seq!["raw"@] + v.skip(3));
        }
        return Some(RawPlan { host: None, path: Some(path) });
    }
    if s.len() > 0 && text::has_suffix(s[s.len() - 1].as_str(), ".md") {
        return Some(RawPlan { host: None, path: None });
    }
    None
}

/// Which kind of source an address names.
pub open spec fn kind(s: Seq<char>) -> SourceKind {
    match url::url_text(s) {
        Ok(u) => if raw_plan(url::url_host(u), url::url_segments(u)) is Some {
            SourceKind::Git
        } else {
            SourceKind::Hedgedoc
        },
        Err(_) => SourceKind::Hedgedoc,
    }
}

/// Which kind of source an address names, for display.
pub fn detect_kind(address: &str) -> (result: SourceKind)
    ensures
        result == kind(address@),
{
    match url::parse(address) {
        Ok(u) => match url::parts(u.as_str()) {
            Some(p) => match git_raw_plan(&p.host, &p.segments) {
                Some(_) => SourceKind::Git,
                None => SourceKind::Hedgedoc,
            },
            None => SourceKind::Hedgedoc,
        },
        Err(_) => SourceKind::Hedgedoc,
    }
}

/// The address of the file for an address `u` without query and fragment.
pub open spec fn raw_target(
    u: Seq<char>,
    plan: (Option<Seq<char>>, Option<Seq<Seq<char>>>),
) -> Seq<char> {
    let v = match plan.0 {
        Some(host) => url::or_same(url::url_with_host(u, host), u),
        None => u,
    };
    match plan.1 {
        Some(path) => url::or_same(url::url_with_path(v, text::join(path, "/"@)), v),
        None => v,
    }
}

/// Whether an address has room for the texts that it is changed with.
pub open spec fn plan_fits(
    u: Seq<char>,
    plan: (Option<Seq<char>>, Option<Seq<Seq<char>>>),
) -> bool {
    let v = match plan.0 {
        Some(host) => url::or_same(url::url_with_host(u, host), u),
        None => u,
    };
    &&& plan.0 matches Some(host) ==> text::all_ascii(host) && url::roomy(u, host)
    &&& plan.1 matches Some(path) ==> url::roomy(v, text::join(path, "/"@))
}

/// Changes an address as planned; `None` if it has no room for that.
pub fn apply_raw_plan(u: &str, plan: &RawPlan) -> (result: Option<String>)
    ensures
        match result {
            Some(t) => plan_fits(u@, plan_view(*plan)) && t@ == raw_target(u@, plan_view(*plan)),
            None => !plan_fits(u@, plan_view(*plan)),
        },
{
    let v = match &plan.host {
        Some(host) => {
            if !url::is_plain(host.as_str()) || !url::has_room(u, host.as_str()) {
                return None;
            }
            match url::with_host(u, host.as_str()) {
                Some(t) => t,
                None => u.to_owned(),
            }
        },
        None => u.to_owned(),
    };
    match &plan.path {
        Some(path) => {
            let joined = text::joined(path, "/");
            if !url::has_room(v.as_str(), joined.as_str()) {
                return None;
            }
            match url::with_path(v.as_str(), joined.as_str()) {
                Some(t) => Some(t),
                None => Some(v),
            }
        },
        None => Some(v),
    }
}

/// The kind of a pasted address, and the address that its text is fetched
/// from. Only secure addresses are taken. The address of a note comes back
/// without its query and fragment; the way to its text is a matter of
/// HedgeDoc.
pub fn raw_url(address: &str) -> (result: Fallible<(SourceKind, String)>)
    ensures
        match url::url_text(address@) {
            Err(e) => result matches Err(r) && r@ == "Invalid source URL `"@ + address@ + "`: "@
                + e,
            Ok(u) => {
                let b = url::bare(u);
                let plan = raw_plan(url::url_host(u), url::url_segments(u));
                if url::url_scheme(u) != Some("https"@) {
                    result matches Err(r) && r@ == "Source URLs must use HTTPS (got: "@ + address@
                        + ")"@
                } else if plan is Some && !plan_fits(b, plan->0) {
                    result matches Err(r) && r@ == "Invalid source URL `"@ + address@
                        + "`: it is too long"@
                } else {
                    result matches Ok((k, t)) && k == kind(address@) && t@ == match plan {
                        Some(p) => raw_target(b, p),
                        None => b,
                    }
                }
            },
        },
{
    let u = match url::parse(address) {
        Ok(u) => u,
        Err(e) => {
            let mut message = text::cat3("Invalid source URL `", address, "`: ");
            message.append(e.as_str());
            return fail(message.as_str());
        },
    };
    let secure = match url::parts(u.as_str()) {
        Some(p) => text::same(p.scheme.as_str(), "https"),
        None => false,
    };
    if !secure {
        let message = text::cat3("Source URLs must use HTTPS (got: ", address, ")");
        return fail(message.as_str());
    }
    let b = url::bare_of(u.as_str());
    let plan = match url::parts(b.as_str()) {
        Some(p) => git_raw_plan(&p.host, &p.segments),
        None => None,
    };
    match plan {
        Some(plan) => match apply_raw_plan(b.as_str(), &plan) {
            Some(t) => Ok((SourceKind::Git, t)),
            None => {
                let message = text::cat3("Invalid source URL `", address, "`: it is too long");
                fail(message.as_str())
            },
        },
        None => Ok((SourceKind::Hedgedoc, b)),
    }
}

proof fn lemma_piece_index(segments: Seq<Seq<char>>, piece: Seq<char>, i: int)
    requires
        0 <= i <= segments.len(),
        forall|j: int| 0 <= j < i ==> #[trigger] segments[j] != piece,
        i < segments.len() ==> segments[i] == piece,
    ensures
        piece_index(segments, piece) == i,
    decreases segments.len(),
{
    if i > 0 {
        let rest = segments.skip(1);
        assert(segments[0] != piece);
        assert forall|j: int| 0 <= j < i - 1 implies #[trigger] rest[j] != piece by {
            assert(rest[j] == segments[j + 1]);
        }
        lemma_piece_index(rest, piece, i - 1);
    }
}

/// Whether every segment of a path names something.
pub open spec fn all_named(segments: Seq<Seq<char>>) -> bool {
    forall|i: int| 0 <= i < segments.len() ==> (#[trigger] segments[i]).len() > 0
}

/// A file shown on GitHub is fetched from where GitHub keeps raw files: the owner,
/// the repository, the branch and the path are kept, and only the word `blob`
/// goes.
pub proof fn law_github_files_are_fetched_raw(
    owner: Seq<char>,
    repo: Seq<char>,
    rest: Seq<Seq<char>>,
)
    requires
        owner.len() > 0 && repo.len() > 0,
        rest.len() >= 2,
        all_named(rest),
    ensures
        raw_plan(Some("github.com"@), Some(seq![owner, repo, "blob"@] + rest)) == Some(
            (Some("raw.githubusercontent.com"@), Some(seq![owner, repo] + rest)),
        ),
{
    reveal_strlit("blob");
    let s = seq![owner, repo, "blob"@] + rest;
    let p = |x: Seq<char>| x.len() > 0;
    list::lemma_keep_everything(s, p);
    assert(s.take(2) + s.skip(3) =~= seq![owner, repo] + rest);
}

/// A file shown on GitLab is fetched raw from the same host: of its path only the
/// word behind the dash changes.
pub proof fn law_gitlab_files_are_fetched_raw(
    host: Seq<char>,
    project: Seq<Seq<char>>,
    rest: Seq<Seq<char>>,
)
    requires
        host != "github.com"@,
        all_named(project),
        !project.contains("-"@),
        rest.len() > 0,
        all_named(rest),
    ensures
        raw_plan(Some(host), Some(project + seq!["-"@, "blob"@] + rest)) == Some(
            (None::<Seq<char>>, Some(project + seq!["-"@, "raw"@] + rest)),
        ),
{
    reveal_strlit("blob");
    reveal_strlit("-");
    let s = project + seq!["-"@, "blob"@] + rest;
    let n = project.len() as int;
    let p = |x: Seq<char>| x.len() > 0;
    list::lemma_keep_everything(s, p);
    assert forall|j: int| 0 <= j < n implies #[trigger] s[j] != "-"@ by {
        assert(s[j] == project[j]);
        assert(project.contains(project[j]));
    }
    lemma_piece_index(s, "-"@, n);
    assert(s[n + 1] == "blob"@);
    assert(s.update(n + 1, "raw"@) =~= project + seq!["-"@, "raw"@] + rest);
}

/// A file shown on Gitea or Forgejo is fetched raw from the same host: of its
/// path only the word before the branch changes.
pub proof fn law_gitea_files_are_fetched_raw(
    host: Seq<char>,
    owner: Seq<char>,
    repo: Seq<char>,
    rest: Seq<Seq<char>>,
)
    requires
        owner.len() > 0 && repo.len() > 0,
        owner != "-"@ && repo != "-"@,
        rest.len() >= 2,
        all_named(rest),
        !rest.contains("-"@),
    ensures
        raw_plan(Some(host), Some(seq![owner, repo, "src"@, "branch"@] + rest)) == Some(
            (None::<Seq<char>>, Some(seq![owner, repo, "raw"@, "branch"@] + rest)),
        ),
{
    reveal_strlit("blob");
    reveal_strlit("src");
    reveal_strlit("branch");
    reveal_strlit("-");
    let s = seq![owner, repo, "src"@, "branch"@] + rest;
    let p = |x: Seq<char>| x.len() > 0;
    list::lemma_keep_everything(s, p);
    assert("src"@[0] == 's' && "blob"@[0] == 'b');
    assert("branch"@.len() == 6 && "-"@.len() == 1 && "src"@.len() == 3);
    assert forall|j: int| 0 <= j < s.len() implies #[trigger] s[j] != "-"@ by {
        if j >= 4 {
            assert(s[j] == rest[j - 4]);
            assert(rest.contains(rest[j - 4]));
        }
    }
    lemma_piece_index(s, "-"@, s.len() as int);
    assert(s.take(2) + seq!["raw"@] + s.skip(3) =~= seq![owner, repo, "raw"@, "branch"@] + rest);
}

/// A file elsewhere is fetched as it is if it ends in `.md`, and is no file
/// otherwise. Empty segments do not matter, and what has no host is no file.
pub proof fn law_other_addresses_are_files_by_their_ending(
    host: Seq<char>,
    all: Seq<Seq<char>>,
    name: Seq<char>,
)
    requires
        name.len() > 0,
    ensures
        all.len() == 0 ==> (raw_plan(Some(host), Some(all.push(name))) == if text::ends_with(
            name,
            ".md"@,
        ) {
            Some((None::<Seq<char>>, None::<Seq<Seq<char>>>))
        } else {
            None
        }),
        raw_plan(Some(host), Some(all)) == raw_plan(
            Some(host),
            Some(list::keep(all, |p: Seq<char>| p.len() > 0)),
        ),
        raw_plan(None, Some(all)) is None,
        raw_plan(Some(host), None) is None,
{
    let p = |x: Seq<char>| x.len() > 0;
    let kept = list::keep(all, p);
    list::lemma_keep(all, p);
    assert forall|i: int| 0 <= i < kept.len() implies p(#[trigger] kept[i]) by {
        assert(kept.contains(kept[i]));
    }
    list::lemma_keep_everything(kept, p);
    if all.len() == 0 {
        let s = all.push(name);
        assert(s =~= seq![name]);
        list::lemma_keep_everything(s, p);
        if name == "-"@ {
            lemma_piece_index(s, "-"@, 0);
        } else {
            lemma_piece_index(s, "-"@, 1);
        }
    }
}

/// An address is that of a file exactly if there is a way to fetch it raw; where
/// nothing of it changes it is fetched as it is, and else from the new host and
/// path.
pub proof fn law_files_are_fetched_as_planned(
    s: Seq<char>,
    u: Seq<char>,
    host: Seq<char>,
    path: Seq<Seq<char>>,
    v: Seq<char>,
    w: Seq<char>,
)
    ensures
        url::url_text(s) == Ok::<Seq<char>, Seq<char>>(u) ==> (kind(s) is Git <==> raw_plan(
            url::url_host(u),
            url::url_segments(u),
        ) is Some),
        url::url_text(s) is Err ==> kind(s) is Hedgedoc,
        raw_target(u, (None, None)) == u,
        url::url_with_host(u, host) == Some(v) && url::url_with_path(v, text::join(path, "/"@))
            == Some(w) ==> raw_target(u, (Some(host), Some(path))) == w,
        url::url_with_path(u, text::join(path, "/"@)) == Some(w) ==> raw_target(
            u,
            (None, Some(path)),
        ) == w,
{
}

} // verus!
