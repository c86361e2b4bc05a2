//! Markdown as HTML.

use pulldown_cmark::{html, Event, Options, Parser, Tag};
use vstd::prelude::*;
use crate::error::{fail, Fallible};
use crate::list;
use crate::path;
use crate::percent;
use crate::percent::{percent_encode, Safe};
use crate::text;
use crate::url;

verus! {

/// Whether an address names a sound file: what follows its last dot is one of
/// the known extensions.
pub open spec fn is_audio(address: Seq<char>) -> bool {
    let ext = text::after_last(address, '.');
    ext == "mp3"@ || ext == "wav"@ || ext == "ogg"@ || ext == "m4a"@
}

/// Whether an address names a sound file.
pub fn is_audio_file(address: &str) -> (result: bool)
    ensures
        result == is_audio(address@),
{
    let ext = text::behind_last(address, '.');
    text::same(ext, "mp3") || text::same(ext, "wav") || text::same(ext, "ogg") || text::same(
        ext,
        "m4a",
    )
}

/// What stands for a character inside a quoted attribute.
pub open spec fn attribute_char(c: char) -> Seq<char> {
    if c == '&' {
        "&amp;"@
    } else if c == '<' {
        "&lt;"@
    } else if c == '>' {
        "&gt;"@
    } else if c == '"' {
        "&quot;"@
    } else if c == '\'' {
        "&#39;"@
    } else {
        seq![c]
    }
}

/// Escapes a character for an attribute.
pub open spec fn escaping() -> spec_fn(char) -> Seq<char> {
    |c: char| attribute_char(c)
}

/// A text as the value of a quoted attribute.
pub open spec fn attribute(s: Seq<char>) -> Seq<char> {
    text::expand(s, escaping())
}

/// A text as the value of a quoted attribute.
pub fn escape_attribute(s: &str) -> (result: String)
    ensures
        result@ == attribute(s@),
{
    let v = text::chars_of(s);
    let mut result = String::new();
    let mut i: usize = 0;
    proof {
        assert(s@.take(0) =~= Seq::<char>::empty());
    }
    while i < v.len()
        invariant
            v@ == s@,
            i <= v@.len(),
            result@ == text::expand(s@.take(i as int), escaping()),
        decreases v@.len() - i,
    {
        let c = v[i];
        proof {
            text::lemma_expand_step(s@, escaping(), i as int);
        }
        if c == '&' {
            result.append("&amp;");
        } else if c == '<' {
            result.append("&lt;");
        } else if c == '>' {
            result.append("&gt;");
        } else if c == '"' {
            result.append("&quot;");
        } else if c == '\'' {
            result.append("&#39;");
        } else {
            result.push(c);
        }
        i += 1;
    }
    proof {
        assert(s@.take(i as int) == s@);
    }
    result
}

/// The value of an attribute cannot end it: it holds no quotation mark and no
/// angle bracket.
pub proof fn law_attributes_hold_no_markup(s: Seq<char>)
    ensures
        !attribute(s).contains('"'),
        !attribute(s).contains('\''),
        !attribute(s).contains('<'),
        !attribute(s).contains('>'),
    decreases s.len(),
{
    if s.len() > 0 {
        let head = attribute(s.drop_last());
        let tail = attribute_char(s.last());
        law_attributes_hold_no_markup(s.drop_last());
        assert(attribute(s) == head + tail);
        reveal_strlit("&amp;");
        reveal_strlit("&lt;");
        reveal_strlit("&gt;");
        reveal_strlit("&quot;");
        reveal_strlit("&#39;");
        let all = head + tail;
        assert forall|i: int| 0 <= i < all.len() implies #[trigger] all[i] != '"' && all[i] != '\''
            && all[i] != '<' && all[i] != '>' by {
            if i < head.len() {
                assert(head.contains(head[i]));
            } else {
                assert(all[i] == tail[i - head.len()]);
            }
        }
    }
}

/// The text that an HTML reader makes of the value of an attribute; a `&` with
/// which none of the references used here begins is left as it is.
pub open spec fn attribute_text(t: Seq<char>) -> Seq<char>
    decreases t.len(),
{
    proof {
        reveal_strlit("&amp;");
        reveal_strlit("&lt;");
        reveal_strlit("&gt;");
        reveal_strlit("&quot;");
        reveal_strlit("&#39;");
    }
    if t.len() == 0 {
        seq![]
    } else if text::starts_with(t, "&amp;"@) {
        seq!['&'] + attribute_text(t.skip(5))
    } else if text::starts_with(t, "&lt;"@) {
        seq!['<'] + attribute_text(t.skip(4))
    } else if text::starts_with(t, "&gt;"@) {
        seq!['>'] + attribute_text(t.skip(4))
    } else if text::starts_with(t, "&quot;"@) {
        seq!['"'] + attribute_text(t.skip(6))
    } else if text::starts_with(t, "&#39;"@) {
        seq!['\''] + attribute_text(t.skip(5))
    } else {
        seq![t[0]] + attribute_text(t.skip(1))
    }
}

/// An escaped text is read back as the text.
pub proof fn law_attributes_mean_their_text(s: Seq<char>)
    ensures
        attribute_text(attribute(s)) == s,
    decreases s.len(),
{
    reveal_strlit("&amp;");
    reveal_strlit("&lt;");
    reveal_strlit("&gt;");
    reveal_strlit("&quot;");
    reveal_strlit("&#39;");
    let f = escaping();
    if s.len() > 0 {
        let one = seq![s[0]];
        let rest = s.skip(1);
        let head = attribute_char(s[0]);
        let t = attribute(s);
        law_attributes_mean_their_text(rest);
        assert(one + rest =~= s);
        text::lemma_expand_split(one, rest, f);
        assert(one.drop_last() =~= Seq::<char>::empty());
        assert(text::expand(one.drop_last(), f) =~= Seq::<char>::empty());
        assert(text::expand(one, f) =~= head);
        assert(t == head + attribute(rest));
        assert(t.subrange(0, head.len() as int) =~= head);
        assert(t.skip(head.len() as int) =~= attribute(rest));
        assert(text::starts_with(t, "&amp;"@) ==> t[0] == t.subrange(0, 5)[0] && t[1]
            == t.subrange(0, 5)[1]);
        assert(text::starts_with(t, "&lt;"@) ==> t[0] == t.subrange(0, 4)[0] && t[1]
            == t.subrange(0, 4)[1]);
        assert(text::starts_with(t, "&gt;"@) ==> t[0] == t.subrange(0, 4)[0] && t[1]
            == t.subrange(0, 4)[1]);
        assert(text::starts_with(t, "&quot;"@) ==> t[0] == t.subrange(0, 6)[0] && t[1]
            == t.subrange(0, 6)[1]);
        assert(text::starts_with(t, "&#39;"@) ==> t[0] == t.subrange(0, 5)[0]);
        assert(t[0] == head[0]);
        if head.len() > 1 {
            assert(t[1] == head[1]);
        }
    }
}

/// What the address of a medium in a card stands for.
pub enum Resolution {
    /// A file of the collection, by its path.
    File(String),
    /// Something on another server.
    External,
    /// Nothing, for a reason.
    Failed(String),
}

/// Where the files of a collection are served.
pub struct MarkdownRenderConfig {
    /// What stands in front of the path of a file.
    pub file_url_prefix: String,
}

/// The parts of a path, each encoded.
pub open spec fn encoded_parts(parts: Seq<Seq<char>>) -> Seq<Seq<char>> {
    parts.map_values(|p: Seq<char>| percent::encoded(p, percent::safe_in(Safe::Segment)))
}

/// The address that a file of a collection is served from.
pub open spec fn file_address(prefix: Seq<char>, file: Seq<char>) -> Seq<char> {
    text::strip_end(prefix, text::being('/')) + "/"@ + text::join(
        encoded_parts(path::components(file)),
        "/"@,
    )
}

/// The address of a medium, or what is wrong with it. Other servers are only
/// asked over the web, by an address that has been read and written again.
pub open spec fn media_address(
    address: Seq<char>,
    prefix: Seq<char>,
    resolution: Resolution,
) -> Result<Seq<char>, Seq<char>> {
    match resolution {
        Resolution::File(file) => Ok(file_address(prefix, file@)),
        Resolution::External => match url::url_text(address) {
            Err(e) => Err("External media URL is invalid ('"@ + address + "'): "@ + e),
            Ok(u) => if url::url_scheme(u) == Some("http"@) || url::url_scheme(u) == Some(
                "https"@,
            ) {
                Ok(u)
            } else {
                Err("External media URL must use http or https (got: "@ + address + ")"@)
            },
        },
        Resolution::Failed(e) => Err(
            "Failed to resolve media path '"@ + address + "': "@ + e@,
        ),
    }
}

fn encoded_path(file: &str) -> (result: String)
    ensures
        result@ == text::join(encoded_parts(path::components(file@)), "/"@),
{
    let parts = path::components_of(file);
    let ghost all = text::views(parts@);
    let mut out: Vec<String> = Vec::new();
    let mut i: usize = 0;
    while i < parts.len()
        invariant
            i <= parts@.len(),
            all == text::views(parts@),
            out@.len() == i,
            forall|k: int|
                0 <= k < i ==> (#[trigger] out@[k])@ == percent::encoded(
                    all[k],
                    percent::safe_in(Safe::Segment),
                ),
        decreases parts@.len() - i,
    {
        out.push(percent_encode(parts[i].as_str(), Safe::Segment));
        i += 1;
    }
    proof {
        assert(text::views(out@) =~= encoded_parts(all));
    }
    text::joined(&out, "/")
}

/// The address of a medium.
pub fn modify_url(address: &str, config: &MarkdownRenderConfig, resolution: &Resolution) -> (result:
    Fallible<String>)
    ensures
        match media_address(address@, config.file_url_prefix@, *resolution) {
            Ok(u) => result matches Ok(r) && r@ == u,
            Err(e) => result matches Err(r) && r@ == e,
        },
{
    match resolution {
        Resolution::File(file) => {
            let prefix = text::strip_end_char(config.file_url_prefix.as_str(), '/');
            let path = encoded_path(file.as_str());
            Ok(text::cat3(prefix, "/", path.as_str()))
        },
        Resolution::External => match url::parse(address) {
            Err(e) => {
                let mut message = text::cat3("External media URL is invalid ('", address, "'): ");
                message.append(e.as_str());
                fail(message.as_str())
            },
            Ok(u) => {
                let web = match url::parts(u.as_str()) {
                    Some(p) => text::same(p.scheme.as_str(), "http") || text::same(
                        p.scheme.as_str(),
                        "https",
                    ),
                    None => false,
                };
                if web {
                    Ok(u)
                } else {
                    let message = text::cat3(
                        "External media URL must use http or https (got: ",
                        address,
                        ")",
                    );
                    fail(message.as_str())
                }
            },
        },
        Resolution::Failed(e) => {
            let mut message = text::cat3("Failed to resolve media path '", address, "': ");
            message.append(e.as_str());
            fail(message.as_str())
        },
    }
}

/// What stands in the place of a piece of a text.
pub enum Replacement {
    /// The piece itself.
    Kept,
    /// An image with this address.
    Image(String),
    /// This HTML.
    Html(String),
}

/// What stands in the place of a piece of a text, as seen.
pub enum Shown {
    Kept,
    Image(Seq<char>),
    Html(Seq<char>),
}

/// A replacement as it is seen.
pub open spec fn shown(r: Replacement) -> Shown {
    match r {
        Replacement::Kept => Shown::Kept,
        Replacement::Image(u) => Shown::Image(u@),
        Replacement::Html(h) => Shown::Html(h@),
    }
}

/// Some replacements as they are seen.
pub open spec fn all_shown(rs: Seq<Replacement>) -> Seq<Shown> {
    rs.map_values(|r: Replacement| shown(r))
}

/// The address and the title of an image, where a piece of a text begins one.
pub type Image = Option<(Seq<char>, Seq<char>)>;

/// A piece of a text as it is seen.
pub open spec fn piece_view(p: Option<(String, String)>) -> Image {
    match p {
        Some((address, title)) => Some((address@, title@)),
        None => None,
    }
}

/// Some pieces of a text as they are seen.
pub open spec fn piece_views(ps: Seq<Option<(String, String)>>) -> Seq<Image> {
    ps.map_values(|p: Option<(String, String)>| piece_view(p))
}

/// The pieces that a text is read as, in order, and which of them begin an
/// image.
pub uninterp spec fn markdown_pieces(markdown: Seq<char>, tables: bool, math: bool) -> Seq<Image>;

/// A text as HTML, each of its pieces kept or replaced.
pub uninterp spec fn markdown_html(
    markdown: Seq<char>,
    tables: bool,
    math: bool,
    pieces: Seq<Shown>,
) -> Seq<char>;

/// `pulldown_cmark::Parser` reads a text with the given extensions. For each
/// event that it yields, in order, the address and the title are handed out if
/// it is the start of an image. Only that they depend on the arguments alone is
/// said of them.
#[verifier::external_body]
fn pieces_of(markdown: &str, tables: bool, math: bool) -> (result: Vec<Option<(String, String)>>)
    ensures
        piece_views(result@) == markdown_pieces(markdown@, tables, math),
{
    let mut options = Options::empty();
    options.set(Options::ENABLE_TABLES, tables);
    options.set(Options::ENABLE_MATH, math);
    let pieces = Parser::new_ext(markdown, options).map(|event| match event {
        Event::Start(Tag::Image { dest_url, title, .. }) => {
            Some((dest_url.to_string(), title.to_string()))
        },
        _ => None,
    });
    pieces.collect()
}

/// `pulldown_cmark::Parser` reads a text with the given extensions, and
/// `pulldown_cmark::html::push_html` writes the events as HTML: each as it is,
/// as a piece of HTML, or, if it is the start of an image, with another
/// address, as the replacement at its place says. Events behind the last
/// replacement are left out. Only that the result depends on the arguments
/// alone is said of it.
#[verifier::external_body]
fn html_of(markdown: &str, tables: bool, math: bool, pieces: &Vec<Replacement>) -> (result: String)
    ensures
        result@ == markdown_html(markdown@, tables, math, all_shown(pieces@)),
{
    let mut options = Options::empty();
    options.set(Options::ENABLE_TABLES, tables);
    options.set(Options::ENABLE_MATH, math);
    let events = Parser::new_ext(markdown, options).zip(pieces).map(|pair| match pair {
        (_, Replacement::Html(h)) => Event::Html(h.as_str().into()),
        (Event::Start(Tag::Image { link_type, title, id, .. }), Replacement::Image(u)) => {
            Event::Start(Tag::Image { link_type, dest_url: u.as_str().into(), title, id })
        },
        (event, _) => event,
    });
    let mut out = String::new();
    html::push_html(&mut out, events);
    out
}

/// What stands in the place of an image at an address, with a title: a player,
/// where it is a sound, and otherwise the image.
pub open spec fn image_for(address: Seq<char>, title: Seq<char>) -> Shown {
    if is_audio(address) {
        Shown::Html(
            "<audio controls src=\""@ + attribute(address) + "\" title=\""@ + attribute(title)
                + "\"></audio>"@,
        )
    } else {
        Shown::Image(address)
    }
}

fn image_of(address: String, title: &str) -> (result: Replacement)
    ensures
        shown(result) == image_for(address@, title@),
{
    if is_audio_file(address.as_str()) {
        let src = escape_attribute(address.as_str());
        let label = escape_attribute(title);
        Replacement::Html(
            text::cat5(
                "<audio controls src=\"",
                src.as_str(),
                "\" title=\"",
                label.as_str(),
                "\"></audio>",
            ),
        )
    } else {
        Replacement::Image(address)
    }
}

/// The addresses of the images among the first `n` pieces of a text, in order.
pub open spec fn addresses(pieces: Seq<Image>, n: nat) -> Seq<Seq<char>>
    decreases n,
{
    if n == 0 {
        seq![]
    } else {
        match pieces[n - 1] {
            Some(image) => addresses(pieces, (n - 1) as nat).push(image.0),
            None => addresses(pieces, (n - 1) as nat),
        }
    }
}

/// What stands in the places of the first `n` pieces of a text, or what is
/// wrong with the first image there is something wrong with. The images were
/// looked up in order; one that was not cannot be shown.
pub open spec fn shown_pieces(
    pieces: Seq<Image>,
    prefix: Seq<char>,
    resolutions: Seq<Resolution>,
    n: nat,
) -> Result<Seq<Shown>, Seq<char>>
    decreases n,
{
    if n == 0 {
        Ok(seq![])
    } else {
        let i = (n - 1) as nat;
        match shown_pieces(pieces, prefix, resolutions, i) {
            Err(e) => Err(e),
            Ok(before) => match pieces[i as int] {
                None => Ok(before.push(Shown::Kept)),
                Some(image) => match looked_up(
                    image.0,
                    prefix,
                    resolutions,
                    addresses(pieces, i).len() as int,
                ) {
                    Err(e) => Err(e),
                    Ok(address) => Ok(before.push(image_for(address, image.1))),
                },
            },
        }
    }
}

/// The address of the image at a place, by what was looked up for it.
pub open spec fn looked_up(
    address: Seq<char>,
    prefix: Seq<char>,
    resolutions: Seq<Resolution>,
    i: int,
) -> Result<Seq<char>, Seq<char>> {
    if i < resolutions.len() {
        media_address(address, prefix, resolutions[i])
    } else {
        Err("Failed to resolve media path '"@ + address + "': it was not looked up."@)
    }
}

/// Decides what stands in the places of the pieces of a text.
pub fn replace_images(
    pieces: &Vec<Option<(String, String)>>,
    config: &MarkdownRenderConfig,
    resolutions: &Vec<Resolution>,
) -> (result: Fallible<Vec<Replacement>>)
    ensures
        match shown_pieces(
            piece_views(pieces@),
            config.file_url_prefix@,
            resolutions@,
            pieces@.len(),
        ) {
            Ok(s) => result matches Ok(r) && all_shown(r@) == s,
            Err(e) => result matches Err(r) && r@ == e,
        },
{
    let ghost all = piece_views(pieces@);
    let ghost prefix = config.file_url_prefix@;
    let mut out: Vec<Replacement> = Vec::new();
    let mut seen: usize = 0;
    let mut i: usize = 0;
    proof {
        assert(all_shown(out@) =~= Seq::<Shown>::empty());
    }
    while i < pieces.len()
        invariant
            i <= pieces@.len(),
            seen <= i,
            all == piece_views(pieces@),
            prefix == config.file_url_prefix@,
            seen == addresses(all, i as nat).len(),
            shown_pieces(all, prefix, resolutions@, i as nat) == Ok::<Seq<Shown>, Seq<char>>(
                all_shown(out@),
            ),
        decreases pieces@.len() - i,
    {
        let ghost before = out@;
        proof {
            assert(all[i as int] == piece_view(pieces@[i as int]));
        }
        match &pieces[i] {
            None => {
                out.push(Replacement::Kept);
                proof {
                    assert(all_shown(out@) =~= all_shown(before).push(Shown::Kept));
                }
            },
            Some(image) => {
                let address = image.0.as_str();
                let found = if seen < resolutions.len() {
                    modify_url(address, config, &resolutions[seen])
                } else {
                    let message = text::cat3(
                        "Failed to resolve media path '",
                        address,
                        "': it was not looked up.",
                    );
                    fail(message.as_str())
                };
                match found {
                    Ok(u) => {
                        let shown_image = image_of(u, image.1.as_str());
                        out.push(shown_image);
                        proof {
                            assert(all_shown(out@) =~= all_shown(before).push(shown(shown_image)));
                        }
                    },
                    Err(e) => {
                        proof {
                            lemma_first_error_stays(
                                all,
                                prefix,
                                resolutions@,
                                i as nat + 1,
                                pieces@.len(),
                            );
                        }
                        return Err(e);
                    },
                }
                seen += 1;
            },
        }
        i += 1;
    }
    Ok(out)
}

proof fn lemma_first_error_stays(
    pieces: Seq<Image>,
    prefix: Seq<char>,
    resolutions: Seq<Resolution>,
    i: nat,
    n: nat,
)
    requires
        i <= n,
        shown_pieces(pieces, prefix, resolutions, i) is Err,
    ensures
        shown_pieces(pieces, prefix, resolutions, n) == shown_pieces(
            pieces,
            prefix,
            resolutions,
            i,
        ),
    decreases n - i,
{
    if i < n {
        lemma_first_error_stays(pieces, prefix, resolutions, i, (n - 1) as nat);
    }
}

/// The addresses of the images among some pieces of a text, in order.
pub fn addresses_in(pieces: &Vec<Option<(String, String)>>) -> (result: Vec<String>)
    ensures
        text::views(result@) == addresses(piece_views(pieces@), pieces@.len()),
{
    let ghost all = piece_views(pieces@);
    let mut out: Vec<String> = Vec::new();
    let mut i: usize = 0;
    proof {
        assert(text::views(out@) =~= Seq::<Seq<char>>::empty());
    }
    while i < pieces.len()
        invariant
            i <= pieces@.len(),
            all == piece_views(pieces@),
            text::views(out@) == addresses(all, i as nat),
        decreases pieces@.len() - i,
    {
        proof {
            assert(all[i as int] == piece_view(pieces@[i as int]));
        }
        if let Some(image) = &pieces[i] {
            let address = image.0.clone();
            proof {
                text::lemma_views_push(out@, address);
            }
            out.push(address);
        }
        i += 1;
    }
    out
}

/// The addresses of the images of a text, which have to be looked up before it
/// can be shown.
pub fn image_addresses(markdown: &str) -> (result: Vec<String>)
    ensures
        text::views(result@) == addresses(
            markdown_pieces(markdown@, true, true),
            markdown_pieces(markdown@, true, true).len(),
        ),
{
    let pieces = pieces_of(markdown, true, true);
    proof {
        assert(piece_views(pieces@).len() == pieces@.len());
    }
    addresses_in(&pieces)
}

/// A text as HTML, or what is wrong with one of its images.
pub open spec fn rendered(
    markdown: Seq<char>,
    prefix: Seq<char>,
    resolutions: Seq<Resolution>,
) -> Result<Seq<char>, Seq<char>> {
    let pieces = markdown_pieces(markdown, true, true);
    match shown_pieces(pieces, prefix, resolutions, pieces.len()) {
        Ok(shown) => Ok(markdown_html(markdown, true, true, shown)),
        Err(e) => Err(e),
    }
}

/// Writes a text as HTML. Tables and formulas are understood; the images were
/// looked up in order.
pub fn markdown_to_html(
    config: &MarkdownRenderConfig,
    markdown: &str,
    resolutions: &Vec<Resolution>,
) -> (result: Fallible<String>)
    ensures
        match rendered(markdown@, config.file_url_prefix@, resolutions@) {
            Ok(html) => result matches Ok(r) && r@ == html,
            Err(e) => result matches Err(r) && r@ == e,
        },
{
    let pieces = pieces_of(markdown, true, true);
    proof {
        assert(piece_views(pieces@).len() == pieces@.len());
    }
    match replace_images(&pieces, config, resolutions) {
        Ok(replacements) => Ok(html_of(markdown, true, true, &replacements)),
        Err(e) => Err(e),
    }
}

/// HTML without the paragraph around it, where it is one paragraph.
pub open spec fn inline(html: Seq<char>) -> Seq<char> {
    if text::starts_with(html, "<p>"@) && text::ends_with(html, "</p>\n"@) {
        html.subrange(3, html.len() - 5)
    } else {
        html
    }
}

/// Takes the paragraph around a text away, where it is one paragraph.
pub fn inline_of(html: &str) -> (result: String)
    ensures
        result@ == inline(html@),
{
    if text::has_prefix(html, "<p>") && text::has_suffix(html, "</p>\n") {
        let v = text::chars_of(html);
        proof {
            reveal_strlit("<p>");
            reveal_strlit("</p>\n");
            let n = html@.len() as int;
            let head = html@.subrange(0, 3);
            let tail = html@.subrange(n - 5, n);
            assert(head[1] == html@[1] && head[2] == html@[2]);
            assert(tail[0] == html@[n - 5] && tail[1] == html@[n - 4] && tail[2] == html@[n - 3]);
            assert(n >= 8);
        }
        text::string_of(&v, 3, v.len() - 5)
    } else {
        html.to_owned()
    }
}

/// Writes a text as HTML that can stand in the middle of a line.
pub fn markdown_to_html_inline(
    config: &MarkdownRenderConfig,
    markdown: &str,
    resolutions: &Vec<Resolution>,
) -> (result: Fallible<String>)
    ensures
        match rendered(markdown@, config.file_url_prefix@, resolutions@) {
            Ok(html) => result matches Ok(r) && r@ == inline(html),
            Err(e) => result matches Err(r) && r@ == e,
        },
{
    match markdown_to_html(config, markdown, resolutions) {
        Ok(html) => Ok(inline_of(html.as_str())),
        Err(e) => Err(e),
    }
}

/// What is heard goes by its extension, and nothing else is heard.
pub proof fn law_audio_goes_by_extension(stem: Seq<char>, ext: Seq<char>)
    requires
        !ext.contains('.'),
    ensures
        is_audio(stem.push('.') + ext) <==> ext == "mp3"@ || ext == "wav"@ || ext == "ogg"@
            || ext == "m4a"@,
{
    let s = stem.push('.') + ext;
    text::lemma_last_index(s, '.');
    let k = text::last_index(s, '.');
    assert(s[stem.len() as int] == '.');
    assert(k >= stem.len());
    if k > stem.len() {
        assert(ext[k - stem.len() - 1] == '.');
        assert(ext.contains('.'));
    }
    assert(s.skip(k + 1) =~= ext);
}

/// What stands in one paragraph is shown without it; all else is left as it is.
pub proof fn law_one_paragraph_is_taken_out(s: Seq<char>, html: Seq<char>)
    requires
        html.len() < 3 || html[0] != '<' || html[1] != 'p' || html[2] != '>',
    ensures
        inline("<p>"@ + s + "</p>\n"@) == s,
        inline(html) == html,
{
    reveal_strlit("<p>");
    reveal_strlit("</p>\n");
    let t = "<p>"@ + s + "</p>\n"@;
    assert(t.subrange(0, 3) =~= "<p>"@);
    assert(t.subrange(t.len() - 5, t.len() as int) =~= "</p>\n"@);
    assert(t.subrange(3, t.len() - 5) =~= s);
    if text::starts_with(html, "<p>"@) {
        let p = html.subrange(0, 3);
        assert(p[0] == html[0] && p[1] == html[1] && p[2] == html[2]);
    }
}

/// A picture is shown from its address; a recording is played from it, and
/// reading the address and the title back from the markup gives both.
pub proof fn law_media_are_shown_from_their_address(address: Seq<char>, title: Seq<char>)
    ensures
        !is_audio(address) ==> image_for(address, title) == Shown::Image(address),
        is_audio(address) ==> exists|a: Seq<char>, t: Seq<char>|
            #![trigger attribute_text(a), attribute_text(t)]
            {
                &&& attribute_text(a) == address
                &&& attribute_text(t) == title
                &&& image_for(address, title) == Shown::Html(
                    "<audio controls src=\""@ + a + "\" title=\""@ + t + "\"></audio>"@,
                )
            },
{
    law_attributes_mean_their_text(address);
    law_attributes_mean_their_text(title);
    let a = attribute(address);
    let t = attribute(title);
    assert(attribute_text(a) == address && attribute_text(t) == title);
}

/// Whether a piece of a text is a picture.
pub open spec fn is_image() -> spec_fn(Image) -> bool {
    |p: Image| p is Some
}

/// The addresses of a text are those of its pictures, in their order.
pub proof fn law_addresses_are_those_of_the_pictures(pieces: Seq<Image>, n: nat)
    requires
        n <= pieces.len(),
    ensures
        addresses(pieces, n) == list::keep(pieces.take(n as int), is_image()).map_values(
            |p: Image| (p->0).0,
        ),
    decreases n,
{
    let images = list::keep(pieces.take(n as int), is_image());
    if n == 0 {
        assert(images.len() == 0);
    } else {
        let m = (n - 1) as nat;
        law_addresses_are_those_of_the_pictures(pieces, m);
        list::lemma_keep_step(pieces, is_image(), n - 1);
        assert(pieces.take(m as int + 1) == pieces.take(n as int));
    }
    assert(addresses(pieces, n) =~= images.map_values(|p: Image| (p->0).0));
}

/// Each picture of a text is shown as it was looked up, in its own place, and
/// everything else is kept. The look-ups are used in the order of the pictures.
pub proof fn law_each_picture_is_shown_in_its_place(
    pieces: Seq<Image>,
    prefix: Seq<char>,
    resolutions: Seq<Resolution>,
    n: nat,
    i: int,
)
    requires
        0 <= i < n <= pieces.len(),
        shown_pieces(pieces, prefix, resolutions, n) is Ok,
    ensures
        ({
            let all = shown_pieces(pieces, prefix, resolutions, n)->Ok_0;
            let before = list::keep(pieces.take(i), is_image()).len() as int;
            &&& all.len() == n
            &&& match pieces[i] {
                None => all[i] == Shown::Kept,
                Some((address, title)) => {
                    &&& before < resolutions.len()
                    &&& media_address(address, prefix, resolutions[before]) matches Ok(found)
                        && all[i] == image_for(found, title)
                },
            }
        }),
    decreases n,
{
    let m = (n - 1) as nat;
    law_addresses_are_those_of_the_pictures(pieces, m);
    if m > 0 {
        if i < m {
            law_each_picture_is_shown_in_its_place(pieces, prefix, resolutions, m, i);
        } else {
            law_each_picture_is_shown_in_its_place(pieces, prefix, resolutions, m, 0);
        }
    }
}

/// A file is found below the prefix: a folder's address is the beginning of the
/// addresses of what it holds, and a name can be read back from its address.
pub proof fn law_files_are_addressed_below_their_folder(
    prefix: Seq<char>,
    dir: Seq<char>,
    name: Seq<char>,
)
    requires
        path::is_name(name),
        path::components(dir).len() > 0,
        prefix.len() > 0 ==> prefix.last() != '/',
    ensures
        exists|a: Seq<char>|
            {
                &&& #[trigger] percent::decoded(a) == vstd::utf8::encode_utf8(name)
                &&& file_address(prefix, path::join_path(dir, name)) == file_address(prefix, dir)
                    + "/"@ + a
                &&& file_address(prefix, name) == prefix + "/"@ + a
                &&& !a.contains('/')
            },
{
    let safe = percent::safe_in(Safe::Segment);
    let a = percent::encoded(name, safe);
    percent::law_encoding_can_be_undone(name, safe);
    percent::law_encoded_texts_are_plain(name, safe);
    assert(!a.contains('/')) by {
        if a.contains('/') {
            let i = choose|i: int| 0 <= i < a.len() && a[i] == '/';
            assert(percent::is_plain(a[i], safe));
        }
    }
    path::lemma_one_component(name);
    path::lemma_joined_components(dir, name);
    let parts = path::components(dir);
    let all = parts + seq![name];
    assert(encoded_parts(all).drop_last() =~= encoded_parts(parts));
    assert(encoded_parts(all).last() == a);
    assert(encoded_parts(seq![name]) =~= seq![a]);
    assert(text::strip_end(prefix, text::being('/')) == prefix);
    assert(file_address(prefix, path::join_path(dir, name)) =~= file_address(prefix, dir) + "/"@
        + a);
}

/// Media are taken from a file below the prefix or over the web, and from
/// nowhere else.
pub proof fn law_media_come_from_files_or_the_web(
    address: Seq<char>,
    prefix: Seq<char>,
    resolution: Resolution,
)
    ensures
        resolution matches Resolution::File(file) ==> media_address(address, prefix, resolution)
            == Ok::<Seq<char>, Seq<char>>(file_address(prefix, file@)),
        resolution is Failed ==> media_address(address, prefix, resolution) is Err,
        resolution is External && media_address(address, prefix, resolution) is Ok
            ==> url::url_text(address) == media_address(address, prefix, resolution) && (
        url::url_scheme(url::url_text(address)->Ok_0) == Some("http"@) || url::url_scheme(
            url::url_text(address)->Ok_0,
        ) == Some("https"@)),
        resolution is External && media_address(address, prefix, resolution) is Err ==> (
        url::url_text(address) matches Ok(u) ==> url::url_scheme(u) != Some("http"@)
            && url::url_scheme(u) != Some("https"@)),
{
}

} // verus!
