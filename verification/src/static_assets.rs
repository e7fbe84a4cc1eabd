//! Rules for serving files from the public directory and the client bundle:
//! which request paths are safe, what a file name's extension makes of its
//! content type, which requests can only ever name an asset, strong ETags
//! and conditional requests, and the bounded index of settled fingerprints.
//!
//! Paths are read by the rules of a Unix path: `/` separates components,
//! empty and `.` components in the middle are ignored.

use vstd::prelude::*;

use crate::config::{is_project_relative, parent_segment_in};
use crate::runtime_config::{join, join_path};
use crate::text::{
    chars_eq, contains_char, has_char, lower_all, opt_text, str_chars, string_from_chars, sub_chars,
    to_ascii_lowercase,
};

verus! {

broadcast use vstd::string::group_string_axioms;

// ─── Path shapes ─────────────────────────────────────────────────────────────

/// Index of the last `c` in `s[..n]`, or `-1`.
pub open spec fn last_index_of(s: Seq<char>, c: char, n: int) -> int
    decreases n,
{
    if n <= 0 {
        -1
    } else if s[n - 1] == c {
        n - 1
    } else {
        last_index_of(s, c, n - 1)
    }
}

pub proof fn lemma_last_index_of(s: Seq<char>, c: char, n: int)
    requires
        0 <= n <= s.len(),
    ensures
        -1 <= last_index_of(s, c, n) < n,
        last_index_of(s, c, n) >= 0 ==> s[last_index_of(s, c, n)] == c,
        forall|k: int| last_index_of(s, c, n) < k < n ==> s[k] != c,
    decreases n,
{
    if n > 0 && s[n - 1] != c {
        lemma_last_index_of(s, c, n - 1);
    }
}

fn last_index(v: &[char], c: char, n: usize) -> (r: Option<usize>)
    requires
        n <= v.len(),
    ensures
        match r {
            Some(k) => k as int == last_index_of(v@, c, n as int),
            None => last_index_of(v@, c, n as int) == -1,
        },
{
    let mut i = n;
    while i > 0
        invariant
            i <= n <= v.len(),
            last_index_of(v@, c, n as int) == last_index_of(v@, c, i as int),
        decreases i,
    {
        if v[i - 1] == c {
            return Some(i - 1);
        }
        i -= 1;
    }
    None
}

/// `Path::file_name`: the last component of `s` when it is a name, skipping
/// empty and `.` components; `None` for a path that ends in `..`, the root,
/// or nothing.
pub open spec fn file_name(s: Seq<char>) -> Option<Seq<char>>
    decreases s.len(),
{
    let k = last_index_of(s, '/', s.len() as int);
    let seg = s.subrange(k + 1, s.len() as int);
    if seg.len() == 0 || seg == seq!['.'] {
        if k < 0 {
            None
        } else {
            proof {
                lemma_last_index_of(s, '/', s.len() as int);
            }
            file_name(s.subrange(0, k))
        }
    } else if seg == seq!['.', '.'] {
        None
    } else {
        Some(seg)
    }
}

/// `Path::extension` of a file name: the text after its last `.`, unless the
/// name has no `.` or its only `.` leads it.
pub open spec fn name_extension(name: Seq<char>) -> Option<Seq<char>> {
    let d = last_index_of(name, '.', name.len() as int);
    if d <= 0 {
        None
    } else {
        Some(name.subrange(d + 1, name.len() as int))
    }
}

pub open spec fn path_extension(s: Seq<char>) -> Option<Seq<char>> {
    match file_name(s) {
        Some(name) => name_extension(name),
        None => None,
    }
}

/// The file name of `v`.
pub fn file_name_of(v: &Vec<char>) -> (r: Option<Vec<char>>)
    ensures
        match r {
            Some(name) => file_name(v@) == Some(name@),
            None => file_name(v@) is None,
        },
{
    let mut end = v.len();
    assert(v@.subrange(0, end as int) =~= v@);
    loop
        invariant
            end <= v.len(),
            file_name(v@) == file_name(v@.subrange(0, end as int)),
        decreases end,
    {
        let ghost s = v@.subrange(0, end as int);
        let slash = last_index(v.as_slice(), '/', end);
        proof {
            lemma_last_index_of(v@, '/', end as int);
        }
        let start = match slash {
            Some(k) => k + 1,
            None => 0,
        };
        proof {
            lemma_last_index_of(v@, '/', end as int);
            assert forall|k: int| 0 <= k <= end implies last_index_of(s, '/', k) == last_index_of(
                v@,
                '/',
                k,
            ) by {
                lemma_same_prefix_last_index(s, v@, '/', k);
            }
            assert(s.subrange(start as int, end as int) =~= v@.subrange(start as int, end as int));
        }
        let len = end - start;
        if len == 0 || (len == 1 && v[start] == '.') {
            match slash {
                None => {
                    proof {
                        if len == 1 {
                            assert(s.subrange(start as int, end as int) =~= seq!['.']);
                        }
                    }
                    return None;
                },
                Some(k) => {
                    proof {
                        if len == 1 {
                            assert(s.subrange(start as int, end as int) =~= seq!['.']);
                        }
                        assert(s.subrange(0, k as int) =~= v@.subrange(0, k as int));
                    }
                    end = k;
                },
            }
        } else if len == 2 && v[start] == '.' && v[start + 1] == '.' {
            assert(s.subrange(start as int, end as int) =~= seq!['.', '.']);
            return None;
        } else {
            proof {
                if len == 1 {
                    assert(s.subrange(start as int, end as int)[0] == v@[start as int]);
                }
                if len == 2 {
                    assert(s.subrange(start as int, end as int)[0] == v@[start as int]);
                    assert(s.subrange(start as int, end as int)[1] == v@[start + 1]);
                }
            }
            return Some(sub_chars(v, start, end));
        }
    }
}

proof fn lemma_same_prefix_last_index(s: Seq<char>, t: Seq<char>, c: char, k: int)
    requires
        k <= s.len(),
        k <= t.len(),
        forall|i: int| 0 <= i < k ==> s[i] == t[i],
    ensures
        last_index_of(s, c, k) == last_index_of(t, c, k),
    decreases k,
{
    if k > 0 {
        lemma_same_prefix_last_index(s, t, c, k - 1);
    }
}

/// The extension of the file `v` names, if any.
pub fn extension_of(v: &Vec<char>) -> (r: Option<Vec<char>>)
    ensures
        match r {
            Some(e) => path_extension(v@) == Some(e@),
            None => path_extension(v@) is None,
        },
{
    match file_name_of(v) {
        None => None,
        Some(name) => match last_index(name.as_slice(), '.', name.len()) {
            Some(d) if d > 0 => {
                proof {
                    lemma_last_index_of(name@, '.', name.len() as int);
                }
                Some(sub_chars(&name, d + 1, name.len()))
            },
            _ => None,
        },
    }
}

/// The extension of `path`, lowered with `to_ascii_lowercase`.
pub open spec fn lower_extension(path: Seq<char>) -> Option<Seq<char>> {
    match path_extension(path) {
        Some(e) => Some(lower_all(e)),
        None => None,
    }
}

pub(crate) fn lowered_extension(path: &str) -> (r: Option<Vec<char>>)
    ensures
        match r {
            Some(e) => lower_extension(path@) == Some(e@),
            None => lower_extension(path@) is None,
        },
{
    match extension_of(&str_chars(path)) {
        Some(e) => Some(to_ascii_lowercase(&e)),
        None => None,
    }
}

/// A request path that stays inside the directory it is resolved against:
/// non-empty, free of `\`, not absolute, and never stepping up through `..`.
pub open spec fn safe_relative_path(path: Seq<char>) -> bool {
    is_project_relative(path) && !contains_char(path, '\\')
}

pub fn is_safe_relative_path(path: &str) -> (r: bool)
    ensures
        r == safe_relative_path(path@),
{
    let v = str_chars(path);
    if v.len() == 0 || has_char(v.as_slice(), '\\') || v[0] == '/' {
        return false;
    }
    !parent_segment_in(&v)
}

// ─── Content types ───────────────────────────────────────────────────────────

/// The `Content-Type` a file is served with, by its extension in any case.
pub open spec fn content_type(ext: Option<Seq<char>>) -> Seq<char> {
    match ext {
        Some(e) => if e == "css"@ {
            "text/css; charset=utf-8"@
        } else if e == "js"@ || e == "mjs"@ {
            "text/javascript; charset=utf-8"@
        } else if e == "json"@ {
            "application/json; charset=utf-8"@
        } else if e == "webmanifest"@ {
            "application/manifest+json; charset=utf-8"@
        } else if e == "txt"@ {
            "text/plain; charset=utf-8"@
        } else if e == "xml"@ {
            "application/xml; charset=utf-8"@
        } else if e == "svg"@ {
            "image/svg+xml"@
        } else if e == "png"@ {
            "image/png"@
        } else if e == "jpg"@ || e == "jpeg"@ {
            "image/jpeg"@
        } else if e == "webp"@ {
            "image/webp"@
        } else if e == "avif"@ {
            "image/avif"@
        } else {
            "application/octet-stream"@
        },
        None => "application/octet-stream"@,
    }
}

/// Every file is served by the type its extension names, in any case:
/// scripts (`js` and `mjs` alike) as JavaScript, `jpg` and `jpeg` alike as
/// JPEG, each other known extension as its own type, and anything else as
/// `application/octet-stream`.
pub proof fn law_a_file_is_served_by_its_extension(path: Seq<char>)
    ensures
        lower_extension(path) == Some("css"@) ==> content_type(lower_extension(path)) == "text/css; charset=utf-8"@,
        lower_extension(path) == Some("js"@) ==> content_type(lower_extension(path))
            == "text/javascript; charset=utf-8"@,
        lower_extension(path) == Some("mjs"@) ==> content_type(lower_extension(path))
            == "text/javascript; charset=utf-8"@,
        lower_extension(path) == Some("json"@) ==> content_type(lower_extension(path))
            == "application/json; charset=utf-8"@,
        lower_extension(path) == Some("webmanifest"@) ==> content_type(lower_extension(path))
            == "application/manifest+json; charset=utf-8"@,
        lower_extension(path) == Some("txt"@) ==> content_type(lower_extension(path))
            == "text/plain; charset=utf-8"@,
        lower_extension(path) == Some("xml"@) ==> content_type(lower_extension(path))
            == "application/xml; charset=utf-8"@,
        lower_extension(path) == Some("svg"@) ==> content_type(lower_extension(path)) == "image/svg+xml"@,
        lower_extension(path) == Some("png"@) ==> content_type(lower_extension(path)) == "image/png"@,
        lower_extension(path) == Some("jpg"@) ==> content_type(lower_extension(path)) == "image/jpeg"@,
        lower_extension(path) == Some("jpeg"@) ==> content_type(lower_extension(path)) == "image/jpeg"@,
        lower_extension(path) == Some("webp"@) ==> content_type(lower_extension(path)) == "image/webp"@,
        lower_extension(path) == Some("avif"@) ==> content_type(lower_extension(path)) == "image/avif"@,
        lower_extension(path) is None ==> content_type(lower_extension(path)) == "application/octet-stream"@,
{
    reveal_strlit("css");
    reveal_strlit("js");
    reveal_strlit("mjs");
    reveal_strlit("json");
    reveal_strlit("webmanifest");
    reveal_strlit("txt");
    reveal_strlit("xml");
    reveal_strlit("svg");
    reveal_strlit("png");
    reveal_strlit("jpg");
    reveal_strlit("jpeg");
    reveal_strlit("webp");
    reveal_strlit("avif");
    assert(content_type(Some("css"@)) == "text/css; charset=utf-8"@) by {
    }
    assert(content_type(Some("js"@)) == "text/javascript; charset=utf-8"@) by {
        assert("js"@.len() != "css"@.len());
    }
    assert(content_type(Some("mjs"@)) == "text/javascript; charset=utf-8"@) by {
        assert("mjs"@[0] != "css"@[0]);
        assert("mjs"@.len() != "js"@.len());
    }
    assert(content_type(Some("json"@)) == "application/json; charset=utf-8"@) by {
        assert("json"@.len() != "css"@.len());
        assert("json"@.len() != "js"@.len());
        assert("json"@.len() != "mjs"@.len());
    }
    assert(content_type(Some("webmanifest"@)) == "application/manifest+json; charset=utf-8"@) by {
        assert("webmanifest"@.len() != "css"@.len());
        assert("webmanifest"@.len() != "js"@.len());
        assert("webmanifest"@.len() != "mjs"@.len());
        assert("webmanifest"@.len() != "json"@.len());
    }
    assert(content_type(Some("txt"@)) == "text/plain; charset=utf-8"@) by {
        assert("txt"@[0] != "css"@[0]);
        assert("txt"@.len() != "js"@.len());
        assert("txt"@[0] != "mjs"@[0]);
        assert("txt"@.len() != "json"@.len());
        assert("txt"@.len() != "webmanifest"@.len());
    }
    assert(content_type(Some("xml"@)) == "application/xml; charset=utf-8"@) by {
        assert("xml"@[0] != "css"@[0]);
        assert("xml"@.len() != "js"@.len());
        assert("xml"@[0] != "mjs"@[0]);
        assert("xml"@.len() != "json"@.len());
        assert("xml"@.len() != "webmanifest"@.len());
        assert("xml"@[0] != "txt"@[0]);
    }
    assert(content_type(Some("svg"@)) == "image/svg+xml"@) by {
        assert("svg"@[0] != "css"@[0]);
        assert("svg"@.len() != "js"@.len());
        assert("svg"@[0] != "mjs"@[0]);
        assert("svg"@.len() != "json"@.len());
        assert("svg"@.len() != "webmanifest"@.len());
        assert("svg"@[0] != "txt"@[0]);
        assert("svg"@[0] != "xml"@[0]);
    }
    assert(content_type(Some("png"@)) == "image/png"@) by {
        assert("png"@[0] != "css"@[0]);
        assert("png"@.len() != "js"@.len());
        assert("png"@[0] != "mjs"@[0]);
        assert("png"@.len() != "json"@.len());
        assert("png"@.len() != "webmanifest"@.len());
        assert("png"@[0] != "txt"@[0]);
        assert("png"@[0] != "xml"@[0]);
        assert("png"@[0] != "svg"@[0]);
    }
    assert(content_type(Some("jpg"@)) == "image/jpeg"@) by {
        assert("jpg"@[0] != "css"@[0]);
        assert("jpg"@.len() != "js"@.len());
        assert("jpg"@[0] != "mjs"@[0]);
        assert("jpg"@.len() != "json"@.len());
        assert("jpg"@.len() != "webmanifest"@.len());
        assert("jpg"@[0] != "txt"@[0]);
        assert("jpg"@[0] != "xml"@[0]);
        assert("jpg"@[0] != "svg"@[0]);
        assert("jpg"@[0] != "png"@[0]);
    }
    assert(content_type(Some("jpeg"@)) == "image/jpeg"@) by {
        assert("jpeg"@.len() != "css"@.len());
        assert("jpeg"@.len() != "js"@.len());
        assert("jpeg"@.len() != "mjs"@.len());
        assert("jpeg"@[1] != "json"@[1]);
        assert("jpeg"@.len() != "webmanifest"@.len());
        assert("jpeg"@.len() != "txt"@.len());
        assert("jpeg"@.len() != "xml"@.len());
        assert("jpeg"@.len() != "svg"@.len());
        assert("jpeg"@.len() != "png"@.len());
        assert("jpeg"@.len() != "jpg"@.len());
    }
    assert(content_type(Some("webp"@)) == "image/webp"@) by {
        assert("webp"@.len() != "css"@.len());
        assert("webp"@.len() != "js"@.len());
        assert("webp"@.len() != "mjs"@.len());
        assert("webp"@[0] != "json"@[0]);
        assert("webp"@.len() != "webmanifest"@.len());
        assert("webp"@.len() != "txt"@.len());
        assert("webp"@.len() != "xml"@.len());
        assert("webp"@.len() != "svg"@.len());
        assert("webp"@.len() != "png"@.len());
        assert("webp"@.len() != "jpg"@.len());
        assert("webp"@[0] != "jpeg"@[0]);
    }
    assert(content_type(Some("avif"@)) == "image/avif"@) by {
        assert("avif"@.len() != "css"@.len());
        assert("avif"@.len() != "js"@.len());
        assert("avif"@.len() != "mjs"@.len());
        assert("avif"@[0] != "json"@[0]);
        assert("avif"@.len() != "webmanifest"@.len());
        assert("avif"@.len() != "txt"@.len());
        assert("avif"@.len() != "xml"@.len());
        assert("avif"@.len() != "svg"@.len());
        assert("avif"@.len() != "png"@.len());
        assert("avif"@.len() != "jpg"@.len());
        assert("avif"@[0] != "jpeg"@[0]);
        assert("avif"@[0] != "webp"@[0]);
    }
}

pub(crate) fn is(v: &Vec<char>, lit: &str) -> (r: bool)
    ensures
        r == (v@ == lit@),
{
    chars_eq(v.as_slice(), str_chars(lit).as_slice())
}

/// The content type of the file at `path`.
pub fn content_type_for(path: &str) -> (r: &'static str)
    ensures
        r@ == content_type(lower_extension(path@)),
{
    let e = match lowered_extension(path) {
        Some(e) => e,
        None => return "application/octet-stream",
    };
    if is(&e, "css") {
        "text/css; charset=utf-8"
    } else if is(&e, "js") || is(&e, "mjs") {
        "text/javascript; charset=utf-8"
    } else if is(&e, "json") {
        "application/json; charset=utf-8"
    } else if is(&e, "webmanifest") {
        "application/manifest+json; charset=utf-8"
    } else if is(&e, "txt") {
        "text/plain; charset=utf-8"
    } else if is(&e, "xml") {
        "application/xml; charset=utf-8"
    } else if is(&e, "svg") {
        "image/svg+xml"
    } else if is(&e, "png") {
        "image/png"
    } else if is(&e, "jpg") || is(&e, "jpeg") {
        "image/jpeg"
    } else if is(&e, "webp") {
        "image/webp"
    } else if is(&e, "avif") {
        "image/avif"
    } else {
        "application/octet-stream"
    }
}

/// A `.png`, `.jpg` or `.jpeg` file, in any case: one the build stores as
/// WebP.
pub open spec fn convertible_image(path: Seq<char>) -> bool {
    match lower_extension(path) {
        Some(e) => e == "png"@ || e == "jpg"@ || e == "jpeg"@,
        None => false,
    }
}

/// PNG and JPEG images (`png`, `jpg`, `jpeg`, in any case) are the ones the
/// build converts to WebP; a WebP, SVG or extension-less file is not.
pub proof fn law_png_and_jpeg_images_are_converted(path: Seq<char>)
    ensures
        lower_extension(path) == Some("png"@) ==> convertible_image(path),
        lower_extension(path) == Some("jpg"@) ==> convertible_image(path),
        lower_extension(path) == Some("jpeg"@) ==> convertible_image(path),
        lower_extension(path) == Some("webp"@) ==> !convertible_image(path),
        lower_extension(path) == Some("svg"@) ==> !convertible_image(path),
        lower_extension(path) is None ==> !convertible_image(path),
{
    reveal_strlit("png");
    reveal_strlit("jpg");
    reveal_strlit("jpeg");
    reveal_strlit("webp");
    reveal_strlit("svg");
    assert("webp"@[0] != "png"@[0] && "webp"@[0] != "jpg"@[0] && "webp"@[0] != "jpeg"@[0]);
    assert("svg"@[0] != "png"@[0] && "svg"@[0] != "jpg"@[0] && "svg"@.len() != "jpeg"@.len());
}

pub fn is_convertible_image_url(path: &str) -> (r: bool)
    ensures
        r == convertible_image(path@),
{
    match lowered_extension(path) {
        Some(e) => is(&e, "png") || is(&e, "jpg") || is(&e, "jpeg"),
        None => false,
    }
}

// ─── Which file answers a public URL ─────────────────────────────────────────

/// What the file system says of a candidate path under the public directory.
pub enum PublicFile {
    /// Not a file.
    Missing,
    /// A file whose canonical path lies outside the public directory.
    Outside,
    /// A file, by its canonical path inside the public directory.
    Inside(String),
}

/// What std's `Path::with_extension` makes of `path` with `extension`.
pub uninterp spec fn path_with_extension(path: Seq<char>, extension: Seq<char>) -> Seq<char>;

/// Calls `std::path::Path::with_extension` on a path given as text. Its
/// outcome depends on the two texts alone; how std finds and replaces the
/// extension is left unstated here. std panics on an extension holding a
/// path separator (`/`, and `\` on Windows), so only ASCII letters are
/// passed.
#[verifier::external_body]
pub(crate) fn with_extension(path: &str, extension: &str) -> (r: String)
    requires
        ascii_letters(extension@),
    ensures
        r@ == path_with_extension(path@, extension@),
{
    std::path::Path::new(path).with_extension(extension).to_string_lossy().into_owned()
}

/// `e` is made of ASCII letters only, and so holds no path separator on any
/// platform.
pub open spec fn ascii_letters(e: Seq<char>) -> bool {
    forall|i: int| 0 <= i < e.len() ==> ('a' <= #[trigger] e[i] <= 'z' || 'A' <= e[i] <= 'Z')
}

/// The extensions under which a `.webp` URL may find its source image, in the
/// order they are tried.
pub open spec fn source_extensions() -> Seq<&'static str> {
    seq!["png", "jpg", "jpeg", "PNG", "JPG", "JPEG"]
}

pub open spec fn source_path(requested: Seq<char>, k: int) -> Seq<char> {
    path_with_extension(requested, source_extensions()[k]@)
}

pub open spec fn inside_path(answer: PublicFile) -> Option<Seq<char>> {
    match answer {
        PublicFile::Inside(path) => Some(path@),
        _ => None,
    }
}

/// The one canonical path the answers found, when they found exactly one
/// (however many times).
pub open spec fn sole_inside(answers: Seq<PublicFile>) -> Option<Seq<char>> {
    if exists|i: int| 0 <= i < answers.len() && #[trigger] inside_path(answers[i]) is Some {
        let i0 = choose|i: int| 0 <= i < answers.len() && #[trigger] inside_path(answers[i]) is Some;
        let v = inside_path(answers[i0]);
        if forall|j: int|
            0 <= j < answers.len() && #[trigger] inside_path(answers[j]) is Some ==> inside_path(
                answers[j],
            ) == v {
            v
        } else {
            None
        }
    } else {
        None
    }
}

/// The answers the file system gave about the requested path, the source
/// images of a `.webp` URL, and the `.webp` twin of a PNG or JPEG URL.
pub ghost struct PublicAnswers {
    pub requested: PublicFile,
    pub sources: Seq<PublicFile>,
    pub webp: PublicFile,
}

pub open spec fn picked_source(requested: Seq<char>, answers: PublicAnswers) -> Option<Seq<char>> {
    if path_extension(requested) == Some("webp"@) {
        sole_inside(answers.sources)
    } else {
        None
    }
}

/// The file that answers `requested`: the file itself; for a `.webp` URL,
/// its one PNG or JPEG source; for a PNG or JPEG URL, its `.webp`. A file
/// outside the public directory answers nothing.
pub open spec fn public_asset(requested: Seq<char>, answers: PublicAnswers) -> Option<Seq<char>> {
    match answers.requested {
        PublicFile::Inside(path) => Some(path@),
        PublicFile::Outside => None,
        PublicFile::Missing => match picked_source(requested, answers) {
            Some(path) => Some(path),
            None => if convertible_image(requested) {
                inside_path(answers.webp)
            } else {
                None
            },
        },
    }
}

pub open spec fn probed<F: Fn(&str) -> PublicFile>(probe: F, path: Seq<char>, answer: PublicFile) -> bool {
    exists|s: &str| #[trigger] probe.ensures((s,), answer) && s@ == path
}

/// The answers are what `probe` said of each path `public_asset` reads.
pub open spec fn answers_ground<F: Fn(&str) -> PublicFile>(
    probe: F,
    requested: Seq<char>,
    answers: PublicAnswers,
) -> bool {
    &&& probed(probe, requested, answers.requested)
    &&& answers.requested is Missing && path_extension(requested) == Some("webp"@) ==> {
        &&& answers.sources.len() == 6
        &&& forall|k: int| 0 <= k < 6 ==> probed(probe, source_path(requested, k), #[trigger] answers.sources[k])
    }
    &&& answers.requested is Missing && picked_source(requested, answers) is None && convertible_image(
        requested,
    ) ==> probed(probe, path_with_extension(requested, "webp"@), answers.webp)
}

/// Among the source images of a `.webp` URL, the one canonical path found,
/// when exactly one was.
fn sole_source<F: Fn(&str) -> PublicFile>(requested: &str, probe: &F) -> (r: (
    Option<String>,
    Ghost<Seq<PublicFile>>,
))
    requires
        forall|p: &str| probe.requires((p,)),
    ensures
        r.1@.len() == 6,
        forall|k: int| 0 <= k < 6 ==> probed(*probe, source_path(requested@, k), #[trigger] r.1@[k]),
        opt_text(r.0) == sole_inside(r.1@),
{
    let extensions = ["png", "jpg", "jpeg", "PNG", "JPG", "JPEG"];
    assert(extensions@ =~= source_extensions());
    let ghost mut answers: Seq<PublicFile> = Seq::empty();
    let ghost mut seen: int = 0;
    let ghost mut clash: int = 0;
    let mut found: Option<String> = None;
    let mut conflict = false;
    proof {
        reveal_strlit("png");
        reveal_strlit("jpg");
        reveal_strlit("jpeg");
        reveal_strlit("PNG");
        reveal_strlit("JPG");
        reveal_strlit("JPEG");
        assert(ascii_letters("png"@));
        assert(ascii_letters("jpg"@));
        assert(ascii_letters("jpeg"@));
        assert(ascii_letters("PNG"@));
        assert(ascii_letters("JPG"@));
        assert(ascii_letters("JPEG"@));
        assert(forall|j: int| 0 <= j < 6 ==> ascii_letters((#[trigger] source_extensions()[j])@));
    }
    let mut k: usize = 0;
    while k < 6
        invariant
            k <= 6,
            extensions@ == source_extensions(),
            forall|j: int| 0 <= j < 6 ==> ascii_letters((#[trigger] source_extensions()[j])@),
            forall|p: &str| probe.requires((p,)),
            answers.len() == k,
            forall|j: int| 0 <= j < k ==> probed(*probe, source_path(requested@, j), #[trigger] answers[j]),
            found is None ==> forall|j: int| 0 <= j < k ==> #[trigger] inside_path(answers[j]) is None,
            found is Some ==> 0 <= seen < k && inside_path(answers[seen]) == opt_text(found),
            !conflict && found is Some ==> forall|j: int|
                0 <= j < k && #[trigger] inside_path(answers[j]) is Some ==> inside_path(answers[j]) == opt_text(found),
            conflict ==> found is Some && 0 <= clash < k && inside_path(answers[clash]) is Some
                && inside_path(answers[clash]) != opt_text(found),
        decreases 6 - k,
    {
        let candidate = with_extension(requested, extensions[k]);
        let answer = probe(candidate.as_str());
        assert(probed(*probe, source_path(requested@, k as int), answer));
        let ghost before = answers;
        proof {
            answers = answers.push(answer);
            assert(forall|j: int| 0 <= j < k ==> answers[j] == before[j]);
        }
        match &answer {
            PublicFile::Inside(path) => {
                match &found {
                    None => {
                        found = Some(string_from_chars(str_chars(path.as_str()).as_slice()));
                        proof {
                            seen = k as int;
                        }
                    },
                    Some(v) => {
                        if !chars_eq(str_chars(v.as_str()).as_slice(), str_chars(path.as_str()).as_slice()) {
                            conflict = true;
                            proof {
                                clash = k as int;
                            }
                        }
                    },
                }
            },
            _ => {},
        }
        assert(inside_path(answers[k as int]) == inside_path(answer));
        k += 1;
    }
    if conflict {
        proof {
            let i0 = choose|i: int| 0 <= i < answers.len() && #[trigger] inside_path(answers[i]) is Some;
            assert(inside_path(answers[seen]) is Some);
            if inside_path(answers[i0]) == opt_text(found) {
                assert(!(inside_path(answers[clash]) == inside_path(answers[i0])));
            } else {
                assert(!(inside_path(answers[seen]) == inside_path(answers[i0])));
            }
        }
        (None, Ghost(answers))
    } else {
        proof {
            if found is Some {
                assert(inside_path(answers[seen]) is Some);
            }
        }
        (found, Ghost(answers))
    }
}

/// The file that answers the public URL path `request_path`: the file
/// itself; for a `.webp` URL, its one PNG or JPEG source; for a PNG or JPEG
/// URL, its `.webp`. `probe` says of a path whether it is a file and, if so,
/// its canonical path when that lies inside the public directory; paths are
/// asked about in that order, and no further once one decides.
pub fn resolve_public_asset<F: Fn(&str) -> PublicFile>(
    public_dir: &str,
    request_path: &str,
    probe: F,
) -> (r: Option<String>)
    requires
        forall|p: &str| probe.requires((p,)),
    ensures
        exists|answers: PublicAnswers|
            #![trigger public_asset(join_path(public_dir@, request_path@), answers)]
            answers_ground(probe, join_path(public_dir@, request_path@), answers) && opt_text(r)
                == public_asset(join_path(public_dir@, request_path@), answers),
{
    let requested = join(public_dir, request_path);
    let ghost req = requested@;
    let first = probe(requested.as_str());
    assert(probed(probe, req, first));
    let ghost mut answers = PublicAnswers { requested: first, sources: Seq::empty(), webp: first };
    match first {
        PublicFile::Inside(path) => {
            assert(answers_ground(probe, req, answers));
            assert(public_asset(req, answers) == Some(path@));
            return Some(path);
        },
        PublicFile::Outside => {
            assert(answers_ground(probe, req, answers));
            return None;
        },
        PublicFile::Missing => {},
    }
    let chars = str_chars(requested.as_str());
    let is_webp = match extension_of(&chars) {
        Some(e) => is(&e, "webp"),
        None => false,
    };
    if is_webp {
        let (picked, Ghost(sources)) = sole_source(requested.as_str(), &probe);
        proof {
            answers = PublicAnswers { requested: first, sources, webp: first };
        }
        if picked.is_some() {
            assert(answers_ground(probe, req, answers));
            assert(public_asset(req, answers) == opt_text(picked));
            return picked;
        }
    }
    assert(picked_source(req, answers) is None);
    if is_convertible_image_url(requested.as_str()) {
        proof {
            reveal_strlit("webp");
            assert(ascii_letters("webp"@));
        }
        let twin = with_extension(requested.as_str(), "webp");
        let answer = probe(twin.as_str());
        proof {
            reveal_strlit("webp");
            assert(probed(probe, path_with_extension(req, "webp"@), answer));
            answers = PublicAnswers { requested: first, sources: answers.sources, webp: answer };
        }
        assert(answers_ground(probe, req, answers));
        assert(public_asset(req, answers) == inside_path(answer));
        return match answer {
            PublicFile::Inside(path) => Some(path),
            _ => None,
        };
    }
    assert(answers_ground(probe, req, answers));
    assert(public_asset(req, answers) is None);
    None
}

// ─── Requests that only ever name an asset ───────────────────────────────────

/// Extensions that only ever name a build or public asset: images, fonts,
/// media and emitted web assets.
pub open spec fn static_asset_extensions() -> Seq<Seq<char>> {
    seq![
        "apng"@, "avif"@, "bmp"@, "css"@, "eot"@, "gif"@, "ico"@, "jpeg"@, "jpg"@, "js"@,
        "map"@, "mjs"@, "mov"@, "mp3"@, "mp4"@, "ogg"@, "otf"@, "png"@, "svg"@, "ttf"@,
        "wav"@, "webm"@, "webp"@, "woff"@, "woff2"@,
    ]
}

fn static_asset_extension_list() -> (r: Vec<&'static str>)
    ensures
        r@.len() == static_asset_extensions().len(),
        forall|i: int| 0 <= i < r@.len() ==> (#[trigger] r@[i])@ == static_asset_extensions()[i],
{
    let r = vec![
        "apng", "avif", "bmp", "css", "eot", "gif", "ico", "jpeg", "jpg", "js", "map", "mjs",
        "mov", "mp3", "mp4", "ogg", "otf", "png", "svg", "ttf", "wav", "webm", "webp", "woff",
        "woff2",
    ];
    r
}

/// `s` without trailing `/`.
pub open spec fn trim_end_slashes(s: Seq<char>) -> Seq<char>
    decreases s.len(),
{
    if s.len() > 0 && s.last() == '/' {
        trim_end_slashes(s.drop_last())
    } else {
        s
    }
}

/// `/robots.txt`, `/sitemap.xml` and `/sitemap_index.xml`, with any trailing
/// slashes: well-known crawler files that are never a page.
pub open spec fn crawler_discovery_path(path: Seq<char>) -> bool {
    let p = trim_end_slashes(path);
    p == "/robots.txt"@ || p == "/sitemap.xml"@ || p == "/sitemap_index.xml"@
}

fn is_crawler_discovery_path(path: &Vec<char>) -> (r: bool)
    ensures
        r == crawler_discovery_path(path@),
{
    let mut end = path.len();
    assert(path@.subrange(0, end as int) =~= path@);
    while end > 0 && path[end - 1] == '/'
        invariant
            end <= path.len(),
            trim_end_slashes(path@) == trim_end_slashes(path@.subrange(0, end as int)),
        decreases end,
    {
        assert(path@.subrange(0, end as int).drop_last() =~= path@.subrange(0, end - 1));
        end -= 1;
    }
    proof {
        if end > 0 {
            assert(path@.subrange(0, end as int).last() == path@[end - 1]);
        }
    }
    let p = sub_chars(path, 0, end);
    is(&p, "/robots.txt") || is(&p, "/sitemap.xml") || is(&p, "/sitemap_index.xml")
}

/// The last `/`-separated segment of a request path splits at its last `.`
/// into a non-empty name and an extension that, lowered, only ever names an
/// asset; or the path is a crawler-discovery file.
pub open spec fn static_asset_request(path: Seq<char>) -> bool {
    crawler_discovery_path(path) || {
        let seg = path.subrange(last_index_of(path, '/', path.len() as int) + 1, path.len() as int);
        let d = last_index_of(seg, '.', seg.len() as int);
        d > 0 && d + 1 < seg.len() && static_asset_extensions().contains(
            lower_all(seg.subrange(d + 1, seg.len() as int)),
        )
    }
}

/// A request that reaches routing with this shape has already missed both the
/// client bundle directory and the public directory, so the file does not
/// exist and a dynamic route must not render a page for it.
pub fn is_static_asset_request(request_path: &str) -> (r: bool)
    ensures
        r == static_asset_request(request_path@),
{
    let path = str_chars(request_path);
    if is_crawler_discovery_path(&path) {
        return true;
    }
    proof {
        lemma_last_index_of(path@, '/', path.len() as int);
    }
    let start = match last_index(path.as_slice(), '/', path.len()) {
        Some(k) => k + 1,
        None => 0,
    };
    let seg = sub_chars(&path, start, path.len());
    proof {
        lemma_last_index_of(seg@, '.', seg.len() as int);
    }
    let d = match last_index(seg.as_slice(), '.', seg.len()) {
        Some(d) => d,
        None => return false,
    };
    if d == 0 || d + 1 == seg.len() {
        return false;
    }
    let ext = to_ascii_lowercase(&sub_chars(&seg, d + 1, seg.len()));
    is_static_asset_extension(&ext)
}

fn is_static_asset_extension(ext: &Vec<char>) -> (r: bool)
    ensures
        r == static_asset_extensions().contains(ext@),
{
    let list = static_asset_extension_list();
    let mut i: usize = 0;
    while i < list.len()
        invariant
            i <= list.len(),
            list@.len() == static_asset_extensions().len(),
            forall|k: int| 0 <= k < list@.len() ==> (#[trigger] list@[k])@ == static_asset_extensions()[k],
            forall|k: int| 0 <= k < i ==> static_asset_extensions()[k] != ext@,
        decreases list.len() - i,
    {
        if is(ext, list[i]) {
            assert(static_asset_extensions()[i as int] == ext@);
            return true;
        }
        i += 1;
    }
    false
}

// ─── ETags ───────────────────────────────────────────────────────────────────

/// A byte `http` accepts as text in a header value: visible ASCII or a tab.
pub open spec fn visible_header_byte(b: u8) -> bool {
    (32 <= b && b < 127) || b == 9
}

/// The header value `value` read as text, byte for byte.
pub open spec fn header_text(value: Seq<u8>) -> Seq<char> {
    value.map_values(|b: u8| b as char)
}

/// `s[i..j]` is one of the `sep`-separated pieces of `s`.
pub open spec fn is_piece(s: Seq<char>, sep: char, i: int, j: int) -> bool {
    &&& 0 <= i <= j <= s.len()
    &&& (i == 0 || s[i - 1] == sep)
    &&& (j == s.len() || s[j] == sep)
    &&& forall|k: int| i <= k < j ==> s[k] != sep
}

/// Index of the first character of `s` at or after `i` that is not `"`.
pub open spec fn quote_start(s: Seq<char>, i: int) -> int
    decreases s.len() - i,
{
    if 0 <= i < s.len() && s[i] == '"' {
        quote_start(s, i + 1)
    } else {
        i
    }
}

/// Index just past the last character of `s[lo..j]` that is not `"`.
pub open spec fn quote_end(s: Seq<char>, lo: int, j: int) -> int
    decreases j - lo,
{
    if lo < j && s[j - 1] == '"' {
        quote_end(s, lo, j - 1)
    } else {
        j
    }
}

/// `str::trim_matches('"')`.
pub open spec fn strip_quotes(s: Seq<char>) -> Seq<char> {
    let lo = quote_start(s, 0);
    s.subrange(lo, quote_end(s, lo, s.len() as int))
}

/// One `If-None-Match` candidate names `etag`: `*`, or the tag itself, weak
/// or strong, quoted or not.
pub open spec fn candidate_matches(candidate: Seq<char>, etag: Seq<char>) -> bool {
    let c = crate::text::trim(candidate);
    c == seq!['*'] || strip_quotes(
        if crate::text::starts_with(c, "W/"@) {
            c.subrange(2, c.len() as int)
        } else {
            c
        },
    ) == strip_quotes(etag)
}

/// An `If-None-Match` header whose value is `value` names `etag`.
pub open spec fn etag_matches_spec(value: Seq<u8>, etag: Seq<char>) -> bool {
    let text = header_text(value);
    &&& forall|k: int| 0 <= k < value.len() ==> visible_header_byte(#[trigger] value[k])
    &&& exists|i: int, j: int| #[trigger] is_piece(text, ',', i, j) && candidate_matches(text.subrange(i, j), etag)
}

fn strip_quote_chars(v: &Vec<char>) -> (r: Vec<char>)
    ensures
        r@ == strip_quotes(v@),
{
    let mut lo: usize = 0;
    while lo < v.len() && v[lo] == '"'
        invariant
            lo <= v.len(),
            quote_start(v@, 0) == quote_start(v@, lo as int),
        decreases v.len() - lo,
    {
        lo += 1;
    }
    let mut hi = v.len();
    while lo < hi && v[hi - 1] == '"'
        invariant
            lo <= hi <= v.len(),
            quote_end(v@, lo as int, v.len() as int) == quote_end(v@, lo as int, hi as int),
        decreases hi - lo,
    {
        hi -= 1;
    }
    sub_chars(v, lo, hi)
}

fn matches_candidate(candidate: &Vec<char>, target: &Vec<char>, Ghost(etag): Ghost<Seq<char>>) -> (r: bool)
    requires
        target@ == strip_quotes(etag),
    ensures
        r == candidate_matches(candidate@, etag),
{
    let c = crate::text::trim_chars(candidate);
    if c.len() == 1 && c[0] == '*' {
        assert(c@ =~= seq!['*']);
        return true;
    }
    assert(c@ != seq!['*']) by {
        if c@.len() == 1 {
            assert(c@[0] == c[0]);
        }
    }
    let weak = str_chars("W/");
    let tag = if crate::text::has_prefix(c.as_slice(), weak.as_slice()) {
        proof {
            reveal_strlit("W/");
        }
        sub_chars(&c, 2, c.len())
    } else {
        c
    };
    let stripped = strip_quote_chars(&tag);
    chars_eq(stripped.as_slice(), target.as_slice())
}

fn header_chars(value: &[u8]) -> (r: Option<Vec<char>>)
    ensures
        match r {
            Some(text) => text@ == header_text(value@) && forall|k: int|
                0 <= k < value@.len() ==> visible_header_byte(#[trigger] value@[k]),
            None => exists|k: int| 0 <= k < value@.len() && !visible_header_byte(#[trigger] value@[k]),
        },
{
    let mut out: Vec<char> = Vec::new();
    let mut i: usize = 0;
    while i < value.len()
        invariant
            i <= value.len(),
            out@ == header_text(value@.subrange(0, i as int)),
            forall|k: int| 0 <= k < i ==> visible_header_byte(#[trigger] value@[k]),
        decreases value.len() - i,
    {
        let b = value[i];
        if !((32 <= b && b < 127) || b == 9) {
            assert(!visible_header_byte(value@[i as int]));
            return None;
        }
        out.push(b as char);
        i += 1;
        assert(out@ =~= header_text(value@.subrange(0, i as int)));
    }
    assert(value@.subrange(0, i as int) =~= value@);
    Some(out)
}

/// Whether an `If-None-Match` value (its raw bytes) names `etag`: the value
/// must be text, and one of its comma-separated candidates must be `*` or
/// the tag, weak or strong, quoted or not.
pub fn etag_matches(value: &[u8], etag: &str) -> (r: bool)
    ensures
        r == etag_matches_spec(value@, etag@),
{
    let text = match header_chars(value) {
        Some(text) => text,
        None => return false,
    };
    let target = strip_quote_chars(&str_chars(etag));
    let mut start: usize = 0;
    let mut i: usize = 0;
    while i < text.len()
        invariant
            start <= i <= text.len(),
            text@ == header_text(value@),
            forall|k: int| 0 <= k < value@.len() ==> visible_header_byte(#[trigger] value@[k]),
            target@ == strip_quotes(etag@),
            start == 0 || text@[start - 1] == ',',
            forall|k: int| start <= k < i ==> text@[k] != ',',
            forall|a: int, b: int|
                #[trigger] is_piece(text@, ',', a, b) && b < start ==> !candidate_matches(
                    text@.subrange(a, b),
                    etag@,
                ),
        decreases text.len() - i,
    {
        if text[i] == ',' {
            let piece = sub_chars(&text, start, i);
            assert(is_piece(text@, ',', start as int, i as int));
            if matches_candidate(&piece, &target, Ghost(etag@)) {
                return true;
            }
            proof {
                assert forall|a: int, b: int|
                    #[trigger] is_piece(text@, ',', a, b) && b < i + 1 implies !candidate_matches(
                    text@.subrange(a, b),
                    etag@,
                ) by {
                    if b >= start {
                        if b < i {
                            assert(text@[b] != ',');
                        }
                        if a < start {
                            assert(text@[start - 1] == ',');
                        }
                        if a > start {
                            assert(text@[a - 1] != ',');
                        }
                    }
                }
            }
            start = i + 1;
        }
        i += 1;
    }
    let piece = sub_chars(&text, start, text.len());
    assert(is_piece(text@, ',', start as int, text.len() as int));
    if matches_candidate(&piece, &target, Ghost(etag@)) {
        return true;
    }
    proof {
        assert forall|a: int, b: int| #[trigger] is_piece(text@, ',', a, b) implies !candidate_matches(
            text@.subrange(a, b),
            etag@,
        ) by {
            if b >= start {
                if b < text.len() {
                    assert(text@[b] != ',');
                }
                if a < start {
                    assert(text@[start - 1] == ',');
                }
                if a > start {
                    assert(text@[a - 1] != ',');
                }
            }
        }
    }
    false
}

/// The BLAKE3 hash of `bytes` in lowercase hexadecimal.
pub uninterp spec fn blake3_hex_digest(bytes: Seq<u8>) -> Seq<char>;

pub open spec fn is_lower_hex(c: char) -> bool {
    ('0' <= c && c <= '9') || ('a' <= c && c <= 'f')
}

/// `blake3::hash(bytes).to_hex()`: BLAKE3's 32-byte digest of `bytes`,
/// written as 64 lowercase hexadecimal digits. The digits themselves are
/// only named here; that they are 64 of `0-9a-f` is what `to_hex` writes.
#[verifier::external_body]
pub(crate) fn blake3_hex(bytes: &[u8]) -> (r: String)
    ensures
        r@ == blake3_hex_digest(bytes@),
        r@.len() == 64,
        forall|i: int| 0 <= i < 64 ==> is_lower_hex(#[trigger] r@[i]),
{
    blake3::hash(bytes).to_hex().to_string()
}

/// The strong ETag of `bytes`: the first 16 hex digits of their BLAKE3 hash,
/// quoted.
pub open spec fn etag_of(bytes: Seq<u8>) -> Seq<char> {
    seq!['"'] + blake3_hex_digest(bytes).subrange(0, 16) + seq!['"']
}

pub fn compute_etag(bytes: &[u8]) -> (r: String)
    ensures
        r@ == etag_of(bytes@),
        r@.len() == 18,
{
    let hex = str_chars(blake3_hex(bytes).as_str());
    let mut out: Vec<char> = Vec::new();
    out.push('"');
    let mut i: usize = 0;
    while i < 16
        invariant
            i <= 16,
            hex@ == blake3_hex_digest(bytes@),
            hex@.len() == 64,
            out@ == seq!['"'] + hex@.subrange(0, i as int),
        decreases 16 - i,
    {
        out.push(hex[i]);
        i += 1;
        assert(out@ =~= seq!['"'] + hex@.subrange(0, i as int));
    }
    out.push('"');
    crate::text::string_from_chars(out.as_slice())
}

// ─── The fingerprint index ───────────────────────────────────────────────────

/// Most fingerprints the index keeps.
pub const ASSET_ETAG_CACHE_LIMIT: usize = 1024;

/// How long, in nanoseconds, a file's modification time must lie in the past
/// before its fingerprint may be kept. Several filesystems record times to
/// the second, so two writes within one second can share a length and a
/// time; a file untouched for two seconds can only change into a newer one.
pub const ASSET_ETAG_SETTLE_NANOS: i128 = 2_000_000_000;

/// The identity of the bytes a fingerprint was computed from: the file's
/// length, and its modification time in nanoseconds since the Unix epoch.
#[derive(Debug, Clone, Copy, PartialEq, Eq, Structural)]
pub struct AssetIdentity {
    pub len: u64,
    pub modified: i128,
}

/// The file stopped changing long enough ago, as of `now`, for its identity
/// to stand for its bytes. A modification time in the future never does.
pub open spec fn settled(identity: AssetIdentity, now: i128) -> bool {
    now - identity.modified >= ASSET_ETAG_SETTLE_NANOS
}

pub fn is_settled(identity: &AssetIdentity, now: i128) -> (r: bool)
    ensures
        r == settled(*identity, now),
{
    if now < i128::MIN + ASSET_ETAG_SETTLE_NANOS {
        false
    } else {
        identity.modified <= now - ASSET_ETAG_SETTLE_NANOS
    }
}

/// One remembered fingerprint.
pub struct CachedEtag {
    pub file: Vec<u8>,
    pub identity: AssetIdentity,
    pub etag: String,
}

pub ghost struct CachedEtagView {
    pub file: Seq<u8>,
    pub identity: AssetIdentity,
    pub etag: Seq<char>,
}

impl View for CachedEtag {
    type V = CachedEtagView;

    open spec fn view(&self) -> CachedEtagView {
        CachedEtagView { file: self.file@, identity: self.identity, etag: self.etag@ }
    }
}

/// A bounded `file -> (identity, etag)` index over settled public assets,
/// oldest first. Eviction follows first insertion: refreshing a file's
/// fingerprint keeps its place.
pub struct AssetEtagCache {
    entries: Vec<CachedEtag>,
}

/// Where `file` stands in `entries`.
pub open spec fn position_of(entries: Seq<CachedEtagView>, file: Seq<u8>) -> Option<int> {
    if exists|i: int| 0 <= i < entries.len() && (#[trigger] entries[i]).file == file {
        Some(choose|i: int| 0 <= i < entries.len() && (#[trigger] entries[i]).file == file)
    } else {
        None
    }
}

/// No file twice, and no more than the limit.
pub open spec fn index_wf(entries: Seq<CachedEtagView>) -> bool {
    &&& entries.len() <= ASSET_ETAG_CACHE_LIMIT
    &&& forall|i: int, j: int|
        0 <= i < j < entries.len() ==> (#[trigger] entries[i]).file != (#[trigger] entries[j]).file
}

/// The fingerprint kept for exactly this identity of `file`.
pub open spec fn lookup(entries: Seq<CachedEtagView>, file: Seq<u8>, identity: AssetIdentity) -> Option<
    Seq<char>,
> {
    match position_of(entries, file) {
        Some(i) => if entries[i].identity == identity {
            Some(entries[i].etag)
        } else {
            None
        },
        None => None,
    }
}

/// The index after recording `etag` for `file` at `identity`, as of `now`.
pub open spec fn record(
    entries: Seq<CachedEtagView>,
    file: Seq<u8>,
    identity: AssetIdentity,
    etag: Seq<char>,
    now: i128,
) -> Seq<CachedEtagView> {
    let entry = CachedEtagView { file, identity, etag };
    if !settled(identity, now) {
        entries
    } else {
        match position_of(entries, file) {
            Some(i) => entries.update(i, entry),
            None => if entries.len() + 1 > ASSET_ETAG_CACHE_LIMIT {
                entries.push(entry).drop_first()
            } else {
                entries.push(entry)
            },
        }
    }
}

fn copy_bytes(a: &[u8]) -> (r: Vec<u8>)
    ensures
        r@ == a@,
{
    let mut out: Vec<u8> = Vec::new();
    let mut i: usize = 0;
    while i < a.len()
        invariant
            i <= a.len(),
            out@ == a@.subrange(0, i as int),
        decreases a.len() - i,
    {
        out.push(a[i]);
        i += 1;
        assert(out@ =~= a@.subrange(0, i as int));
    }
    assert(a@.subrange(0, i as int) =~= a@);
    out
}

fn bytes_eq(a: &[u8], b: &[u8]) -> (r: bool)
    ensures
        r == (a@ == b@),
{
    if a.len() != b.len() {
        return false;
    }
    let mut i: usize = 0;
    while i < a.len()
        invariant
            a.len() == b.len(),
            i <= a.len(),
            forall|k: int| 0 <= k < i ==> a@[k] == b@[k],
        decreases a.len() - i,
    {
        if a[i] != b[i] {
            return false;
        }
        i += 1;
    }
    assert(a@ =~= b@);
    true
}

impl AssetEtagCache {
    pub closed spec fn view(&self) -> Seq<CachedEtagView> {
        self.entries@.map_values(|e: CachedEtag| e@)
    }

    pub closed spec fn wf(&self) -> bool {
        index_wf(self.view())
    }

    pub fn new() -> (r: AssetEtagCache)
        ensures
            r.wf(),
            r.view() == Seq::<CachedEtagView>::empty(),
    {
        let r = AssetEtagCache { entries: Vec::new() };
        assert(r.view() =~= Seq::<CachedEtagView>::empty());
        r
    }

    pub fn len(&self) -> (r: usize)
        ensures
            r == self.view().len(),
    {
        self.entries.len()
    }

    fn find(&self, file: &[u8]) -> (r: Option<usize>)
        requires
            self.wf(),
        ensures
            match r {
                Some(i) => position_of(self.view(), file@) == Some(i as int),
                None => position_of(self.view(), file@) is None,
            },
    {
        let ghost v = self.view();
        let mut i: usize = 0;
        while i < self.entries.len()
            invariant
                i <= self.entries.len(),
                v == self.view(),
                index_wf(v),
                v.len() == self.entries.len(),
                forall|k: int| 0 <= k < i ==> (#[trigger] v[k]).file != file@,
            decreases self.entries.len() - i,
        {
            if bytes_eq(self.entries[i].file.as_slice(), file) {
                assert(v[i as int].file == file@);
                let ghost c = choose|k: int| 0 <= k < v.len() && (#[trigger] v[k]).file == file@;
                assert(c == i) by {
                    if c != i {
                        if c < i {
                            assert(v[c].file != v[i as int].file);
                        } else {
                            assert(v[i as int].file != v[c].file);
                        }
                    }
                }
                return Some(i);
            }
            i += 1;
        }
        None
    }

    /// The fingerprint kept for `file`, if it was computed from exactly this
    /// identity; a different length or modification time misses.
    pub fn cached_asset_etag(&self, file: &[u8], identity: &AssetIdentity) -> (r: Option<String>)
        requires
            self.wf(),
        ensures
            match r {
                Some(e) => lookup(self.view(), file@, *identity) == Some(e@),
                None => lookup(self.view(), file@, *identity) is None,
            },
    {
        match self.find(file) {
            Some(i) => if self.entries[i].identity == *identity {
                Some(self.entries[i].etag.clone())
            } else {
                None
            },
            None => None,
        }
    }

    /// Records the fingerprint of a file that has stopped changing as of
    /// `now`; a file modified more recently is left out. The oldest entry
    /// gives way once the index is full.
    pub fn store_asset_etag(&mut self, file: &[u8], identity: &AssetIdentity, etag: &str, now: i128)
        requires
            old(self).wf(),
        ensures
            final(self).wf(),
            final(self).view() == record(old(self).view(), file@, *identity, etag@, now),
    {
        if !is_settled(identity, now) {
            return;
        }
        let ghost before = self.view();
        let entry = CachedEtag { file: copy_bytes(file), identity: *identity, etag: etag.to_string() };
        match self.find(file) {
            Some(i) => {
                self.entries.set(i, entry);
                assert(self.view() =~= before.update(i as int, entry@));
            },
            None => {
                self.entries.push(entry);
                assert(self.view() =~= before.push(entry@));
                if self.entries.len() > ASSET_ETAG_CACHE_LIMIT {
                    let ghost pushed = self.view();
                    self.entries.remove(0);
                    assert(self.view() =~= pushed.drop_first());
                }
            },
        }
    }
}

proof fn lemma_position_unique(entries: Seq<CachedEtagView>, file: Seq<u8>, i: int)
    requires
        index_wf(entries),
        0 <= i < entries.len(),
        entries[i].file == file,
    ensures
        position_of(entries, file) == Some(i),
{
    let c = choose|k: int| 0 <= k < entries.len() && (#[trigger] entries[k]).file == file;
    assert(entries[i].file == file);
    if c < i {
        assert(entries[c].file != entries[i].file);
    } else if c > i {
        assert(entries[i].file != entries[c].file);
    }
}

proof fn lemma_record_wf(
    entries: Seq<CachedEtagView>,
    file: Seq<u8>,
    identity: AssetIdentity,
    etag: Seq<char>,
    now: i128,
)
    requires
        index_wf(entries),
    ensures
        index_wf(record(entries, file, identity, etag, now)),
        settled(identity, now) ==> exists|i: int|
            0 <= i < record(entries, file, identity, etag, now).len() && #[trigger] record(
                entries,
                file,
                identity,
                etag,
                now,
            )[i] == (CachedEtagView { file, identity, etag }),
{
    let r = record(entries, file, identity, etag, now);
    let entry = CachedEtagView { file, identity, etag };
    if settled(identity, now) {
        match position_of(entries, file) {
            Some(i) => {
                assert(r[i] == entry);
            },
            None => {
                assert forall|k: int| 0 <= k < entries.len() implies (#[trigger] entries[k]).file != file by {
                    if entries[k].file == file {
                        assert(exists|j: int| 0 <= j < entries.len() && (#[trigger] entries[j]).file == file);
                    }
                }
                assert(r[r.len() - 1] == entry);
            },
        }
    }
}

/// Once a settled file's fingerprint is recorded, asking for that file at
/// the same identity gives the fingerprint back.
pub proof fn law_a_recorded_fingerprint_is_found(
    entries: Seq<CachedEtagView>,
    file: Seq<u8>,
    identity: AssetIdentity,
    etag: Seq<char>,
    now: i128,
)
    requires
        index_wf(entries),
        settled(identity, now),
    ensures
        lookup(record(entries, file, identity, etag, now), file, identity) == Some(etag),
{
    lemma_record_wf(entries, file, identity, etag, now);
    let r = record(entries, file, identity, etag, now);
    let i = choose|i: int| 0 <= i < r.len() && #[trigger] r[i] == (CachedEtagView { file, identity, etag });
    lemma_position_unique(r, file, i);
}

/// A fingerprint answers only for the identity it was computed from: once a
/// settled file is recorded, a different length or modification time misses.
pub proof fn law_a_changed_identity_misses(
    entries: Seq<CachedEtagView>,
    file: Seq<u8>,
    identity: AssetIdentity,
    other: AssetIdentity,
    etag: Seq<char>,
    now: i128,
)
    requires
        index_wf(entries),
        settled(identity, now),
        other != identity,
    ensures
        lookup(record(entries, file, identity, etag, now), file, other) is None,
{
    lemma_record_wf(entries, file, identity, etag, now);
    let r = record(entries, file, identity, etag, now);
    let i = choose|i: int| 0 <= i < r.len() && #[trigger] r[i] == (CachedEtagView { file, identity, etag });
    lemma_position_unique(r, file, i);
}

/// A file modified within the settle window is never recorded.
pub proof fn law_unsettled_files_are_not_recorded(
    entries: Seq<CachedEtagView>,
    file: Seq<u8>,
    identity: AssetIdentity,
    etag: Seq<char>,
    now: i128,
)
    requires
        !settled(identity, now),
    ensures
        record(entries, file, identity, etag, now) == entries,
{
}

/// The index never holds more than its limit, and never one file twice.
pub proof fn law_the_index_stays_bounded(
    entries: Seq<CachedEtagView>,
    file: Seq<u8>,
    identity: AssetIdentity,
    etag: Seq<char>,
    now: i128,
)
    requires
        index_wf(entries),
    ensures
        index_wf(record(entries, file, identity, etag, now)),
        record(entries, file, identity, etag, now).len() <= ASSET_ETAG_CACHE_LIMIT,
{
    lemma_record_wf(entries, file, identity, etag, now);
}

// ─── Requests ────────────────────────────────────────────────────────────────

/// The request holds the version identified by `etag`: its `If-None-Match`
/// header, given by its raw bytes, names it.
pub open spec fn request_matches(if_none_match: Option<Seq<u8>>, etag: Seq<char>) -> bool {
    match if_none_match {
        Some(value) => etag_matches_spec(value, etag),
        None => false,
    }
}

pub fn request_matches_etag(if_none_match: Option<&[u8]>, etag: &str) -> (r: bool)
    ensures
        r == request_matches(
            match if_none_match {
                Some(v) => Some(v@),
                None => None,
            },
            etag@,
        ),
{
    match if_none_match {
        Some(value) => etag_matches(value, etag),
        None => false,
    }
}

/// A client that sends back the strong tag it was given is answered
/// `304 Not Modified`: a header holding exactly that tag names it.
pub proof fn law_a_returned_etag_matches(value: Seq<u8>, etag: Seq<char>)
    requires
        header_text(value) == etag,
        forall|k: int| 0 <= k < value.len() ==> visible_header_byte(#[trigger] value[k]) && value[k] != 44,
        crate::text::trim(etag) == etag,
        !crate::text::starts_with(etag, "W/"@),
    ensures
        request_matches(Some(value), etag),
{
    let text = header_text(value);
    assert forall|k: int| 0 <= k < text.len() implies #[trigger] text[k] != ',' by {
        assert(text[k] == value[k] as char);
    }
    assert(is_piece(text, ',', 0, text.len() as int));
    assert(text.subrange(0, text.len() as int) =~= etag);
    assert(candidate_matches(text.subrange(0, text.len() as int), etag));
}

/// `s` without leading `/`.
pub open spec fn trim_start_slashes(s: Seq<char>) -> Seq<char>
    decreases s.len(),
{
    if s.len() > 0 && s[0] == '/' {
        trim_start_slashes(s.drop_first())
    } else {
        s
    }
}

/// The public-directory path a request names, when it is safe to resolve:
/// the request path without its leading slashes.
pub open spec fn public_request(request_path: Seq<char>) -> Option<Seq<char>> {
    let trimmed = trim_start_slashes(request_path);
    if safe_relative_path(trimmed) {
        Some(trimmed)
    } else {
        None
    }
}

proof fn lemma_trim_start_slashes(s: Seq<char>)
    ensures
        trim_start_slashes(s).len() <= s.len(),
        s.subrange(s.len() - trim_start_slashes(s).len(), s.len() as int) == trim_start_slashes(s),
        forall|k: int| 0 <= k < s.len() - trim_start_slashes(s).len() ==> #[trigger] s[k] == '/',
        trim_start_slashes(s).len() > 0 ==> trim_start_slashes(s)[0] != '/',
    decreases s.len(),
{
    if s.len() > 0 && s[0] == '/' {
        lemma_trim_start_slashes(s.drop_first());
        let t = trim_start_slashes(s);
        assert(s.subrange(s.len() - t.len(), s.len() as int) =~= s.drop_first().subrange(
            s.drop_first().len() - t.len(),
            s.drop_first().len() as int,
        ));
        assert forall|k: int| 0 <= k < s.len() - t.len() implies #[trigger] s[k] == '/' by {
            if k > 0 {
                assert(s[k] == s.drop_first()[k - 1]);
            }
        }
    } else {
        assert(s.subrange(0, s.len() as int) =~= s);
    }
}

/// A public request names the file after its leading slashes: what is
/// served is the rest of the request path, which is a safe relative path,
/// and everything before it is `/`.
pub proof fn law_a_public_request_is_its_path_after_the_slashes(request_path: Seq<char>)
    ensures
        public_request(request_path) matches Some(p) ==> safe_relative_path(p) && crate::text::ends_with(request_path, p)
            && forall|k: int| 0 <= k < request_path.len() - p.len() ==> #[trigger] request_path[k] == '/',
        public_request(request_path) is None ==> !safe_relative_path(trim_start_slashes(request_path)),
{
    lemma_trim_start_slashes(request_path);
}

pub fn public_request_path(request_path: &str) -> (r: Option<String>)
    ensures
        match r {
            Some(p) => public_request(request_path@) == Some(p@),
            None => public_request(request_path@) is None,
        },
{
    let v = str_chars(request_path);
    let mut start: usize = 0;
    assert(v@.subrange(0, v.len() as int) =~= v@);
    while start < v.len() && v[start] == '/'
        invariant
            start <= v.len(),
            trim_start_slashes(v@) == trim_start_slashes(v@.subrange(start as int, v.len() as int)),
        decreases v.len() - start,
    {
        assert(v@.subrange(start as int, v.len() as int).drop_first() =~= v@.subrange(
            start + 1,
            v.len() as int,
        ));
        start += 1;
    }
    proof {
        if start < v.len() {
            assert(v@.subrange(start as int, v.len() as int)[0] == v@[start as int]);
        }
    }
    let trimmed = crate::text::chars_to_string(&v, start, v.len());
    if is_safe_relative_path(trimmed.as_str()) {
        Some(trimmed)
    } else {
        None
    }
}

/// The client-bundle file a request names: the single file name after
/// `/__ruvyxa/client/`, holding no `/`, `\` or `..`.
pub open spec fn client_request(request_path: Seq<char>) -> Option<Seq<char>> {
    let prefix = "/__ruvyxa/client/"@;
    if !crate::text::starts_with(request_path, prefix) {
        None
    } else {
        let name = request_path.subrange(prefix.len() as int, request_path.len() as int);
        if name.len() == 0 || contains_char(name, '/') || contains_char(name, '\\') || exists|k: int|
            0 <= k && k + 1 < name.len() && #[trigger] name[k] == '.' && name[k + 1] == '.' {
            None
        } else {
            Some(name)
        }
    }
}

fn has_double_dot(v: &[char]) -> (r: bool)
    ensures
        r == exists|k: int| 0 <= k && k + 1 < v@.len() && #[trigger] v@[k] == '.' && v@[k + 1] == '.',
{
    let mut i: usize = 0;
    while i < v.len() && i + 1 < v.len()
        invariant
            i <= v.len(),
            forall|k: int| 0 <= k < i && k + 1 < v@.len() ==> !(#[trigger] v@[k] == '.' && v@[k + 1] == '.'),
        decreases v.len() - i,
    {
        if v[i] == '.' && v[i + 1] == '.' {
            return true;
        }
        i += 1;
    }
    false
}

pub fn client_file_name(request_path: &str) -> (r: Option<String>)
    ensures
        match r {
            Some(n) => client_request(request_path@) == Some(n@),
            None => client_request(request_path@) is None,
        },
{
    let v = str_chars(request_path);
    let prefix = str_chars("/__ruvyxa/client/");
    if !crate::text::has_prefix(v.as_slice(), prefix.as_slice()) {
        return None;
    }
    let name = sub_chars(&v, prefix.len(), v.len());
    if name.len() == 0 || has_char(name.as_slice(), '/') || has_char(name.as_slice(), '\\')
        || has_double_dot(name.as_slice()) {
        return None;
    }
    Some(crate::text::string_from_chars(name.as_slice()))
}

} // verus!
