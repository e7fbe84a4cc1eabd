//! The fox: the one place that decides how the mascot is drawn.
//!
//! The fox runs the length of a progress track, but only where movement is
//! safe: a real terminal that has not opted out of animation.
//!
//! [`tui_header_title`] deliberately does *not* consult terminal capabilities.
//! The header emoji is part of the product name in every transcript, including
//! piped output.

use vstd::prelude::*;

use crate::text::{chars_eq, first_word, first_word_of, push_str, str_chars, string_from_chars};
use crate::theme::Capabilities;

verus! {

/// Glyphs for one drawing style. Two sets exist so a terminal without box
/// drawing still gets a readable track rather than replacement characters.
#[derive(Debug, Clone, Copy, PartialEq, Eq)]
pub struct Glyphs {
    pub filled: &'static str,
    pub empty: &'static str,
    /// Two frames of dust kicked up behind the runner. Alternating these is
    /// what makes the fox look like it is running rather than sliding.
    pub dust: [&'static str; 2],
    pub runner: &'static str,
    pub spinner: &'static [&'static str],
    pub done: &'static str,
    pub pending: &'static str,
}

pub open spec fn str_views(s: Seq<&'static str>) -> Seq<Seq<char>> {
    s.map_values(|x: &'static str| x@)
}

/// The box-drawing set.
pub open spec fn is_unicode_set(g: Glyphs) -> bool {
    &&& g.filled@ == "▰"@
    &&& g.empty@ == "▱"@
    &&& g.dust[0]@ == "·"@
    &&& g.dust[1]@ == "˙"@
    &&& g.runner@ == "🦊"@
    &&& str_views(g.spinner@) == seq!["⠋"@, "⠙"@, "⠹"@, "⠸"@, "⠼"@, "⠴"@, "⠦"@, "⠧"@, "⠇"@, "⠏"@]
    &&& g.done@ == "✓"@
    &&& g.pending@ == "◌"@
}

/// The ASCII-only set.
pub open spec fn is_ascii_set(g: Glyphs) -> bool {
    &&& g.filled@ == "#"@
    &&& g.empty@ == "-"@
    &&& g.dust[0]@ == "."@
    &&& g.dust[1]@ == ","@
    &&& g.runner@ == ">"@
    &&& str_views(g.spinner@) == seq!["|"@, "/"@, "-"@, "\\"@]
    &&& g.done@ == "+"@
    &&& g.pending@ == "o"@
}

pub fn unicode_glyphs() -> (g: Glyphs)
    ensures
        is_unicode_set(g),
{
    let spinner: &'static [&'static str] = &["⠋", "⠙", "⠹", "⠸", "⠼", "⠴", "⠦", "⠧", "⠇", "⠏"];
    let g = Glyphs {
        filled: "▰",
        empty: "▱",
        dust: ["·", "˙"],
        runner: "🦊",
        spinner,
        done: "✓",
        pending: "◌",
    };
    assert(str_views(g.spinner@) =~= seq!["⠋"@, "⠙"@, "⠹"@, "⠸"@, "⠼"@, "⠴"@, "⠦"@, "⠧"@, "⠇"@, "⠏"@]);
    g
}

pub fn ascii_glyphs() -> (g: Glyphs)
    ensures
        is_ascii_set(g),
{
    let spinner: &'static [&'static str] = &["|", "/", "-", "\\"];
    let g = Glyphs {
        filled: "#",
        empty: "-",
        dust: [".", ","],
        runner: ">",
        spinner,
        done: "+",
        pending: "o",
    };
    assert(str_views(g.spinner@) =~= seq!["|"@, "/"@, "-"@, "\\"@]);
    g
}

pub fn glyphs(capabilities: Capabilities) -> (g: Glyphs)
    ensures
        capabilities.unicode ==> is_unicode_set(g),
        !capabilities.unicode ==> is_ascii_set(g),
{
    if capabilities.unicode {
        unicode_glyphs()
    } else {
        ascii_glyphs()
    }
}

/// The title used by every command header. Stable across terminals by design.
pub fn tui_header_title(title: &str) -> (r: String)
    ensures
        r@ == "🦊 Ruvyxa "@ + title@,
{
    let mut out: Vec<char> = Vec::new();
    push_str(&mut out, "🦊 Ruvyxa ");
    push_str(&mut out, title);
    string_from_chars(out.as_slice())
}

/// The icon and one-line tagline under a command's title.
///
/// The fox stays on the title line so every command still announces the same
/// product; the badge is what makes `doctor` recognisable from `clean` at a
/// glance in a scrollback full of runs.
#[derive(Debug, Clone, Copy, PartialEq, Eq)]
pub struct Badge {
    pub icon: &'static str,
    pub tagline: &'static str,
}

/// The badge table, matched on a command title's first word: `(icon, tagline)`.
/// A command missing from it falls back to the mascot.
pub open spec fn badge_for(word: Seq<char>) -> (Seq<char>, Seq<char>) {
    if word == "Dev"@ {
        ("⚡"@, "hot reload · route watching · HMR"@)
    } else if word == "Server"@ {
        ("🚀"@, "serving the production build"@)
    } else if word == "Build"@ {
        ("📦"@, "compile · bundle · prerender · ship"@)
    } else if word == "Routes"@ {
        ("🗺"@, "every path this app answers"@)
    } else if word == "Analyze"@ {
        ("🔍"@, "routes · imports · server/client boundaries"@)
    } else if word == "Check"@ {
        ("🧪"@, "production readiness, end to end"@)
    } else if word == "Doctor"@ {
        ("🩺"@, "project · toolchain · adapter · graph"@)
    } else if word == "Clean"@ {
        ("🧹"@, "remove generated output"@)
    } else if word == "Parity"@ {
        ("⚖"@, "dev and prod must agree"@)
    } else if word == "Benchmark"@ {
        ("⏱"@, "discovery · analysis · production build"@)
    } else if word == "Plugin"@ {
        ("🧩"@, "a publishable extension package"@)
    } else if word == "Adds"@ {
        ("✨"@, "framework-native starting points"@)
    } else {
        ("🦊"@, "the Ruvyxa framework"@)
    }
}

fn word_is(word: &Vec<char>, name: &str) -> (r: bool)
    ensures
        r == (word@ == name@),
{
    chars_eq(word.as_slice(), str_chars(name).as_slice())
}

/// Matched on the title's first word, so `Benchmark (3 sample(s))` resolves the
/// same as `Benchmark`.
pub fn badge(title: &str) -> (r: Badge)
    ensures
        (r.icon@, r.tagline@) == badge_for(first_word(title@)),
{
    let v = str_chars(title);
    let word = first_word_of(&v);
    if word_is(&word, "Dev") {
        Badge { icon: "⚡", tagline: "hot reload · route watching · HMR" }
    } else if word_is(&word, "Server") {
        Badge { icon: "🚀", tagline: "serving the production build" }
    } else if word_is(&word, "Build") {
        Badge { icon: "📦", tagline: "compile · bundle · prerender · ship" }
    } else if word_is(&word, "Routes") {
        Badge { icon: "🗺", tagline: "every path this app answers" }
    } else if word_is(&word, "Analyze") {
        Badge { icon: "🔍", tagline: "routes · imports · server/client boundaries" }
    } else if word_is(&word, "Check") {
        Badge { icon: "🧪", tagline: "production readiness, end to end" }
    } else if word_is(&word, "Doctor") {
        Badge { icon: "🩺", tagline: "project · toolchain · adapter · graph" }
    } else if word_is(&word, "Clean") {
        Badge { icon: "🧹", tagline: "remove generated output" }
    } else if word_is(&word, "Parity") {
        Badge { icon: "⚖", tagline: "dev and prod must agree" }
    } else if word_is(&word, "Benchmark") {
        Badge { icon: "⏱", tagline: "discovery · analysis · production build" }
    } else if word_is(&word, "Plugin") {
        Badge { icon: "🧩", tagline: "a publishable extension package" }
    } else if word_is(&word, "Adds") {
        Badge { icon: "✨", tagline: "framework-native starting points" }
    } else {
        Badge { icon: "🦊", tagline: "the Ruvyxa framework" }
    }
}

} // verus!
