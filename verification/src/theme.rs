//! Terminal capability detection and the single colour palette.
//!
//! Every colour in the command line resolves to a role named here —
//! `heading`, `accent`, `ok`, `warn`, `alert`, `link`, `label`, `dim`, `brand`.
//! Call sites ask for a role, never for an ANSI code, which is what stops two
//! commands from picking different greens for the same idea.
//!
//! Whether colour is allowed is decided once per process from the terminal and
//! the environment; the roles take that decision as their first argument.
//!
//! The opt-outs:
//!
//! - stdout is not a terminal — no colour, no animation
//! - `NO_COLOR` is set — no colour
//! - `TERM=dumb` — no colour, no animation
//! - `RUVYXA_FUN=0` (or `false`, `off`, `no`, empty) — no animation, no mascot
//! - `RUVYXA_ASCII=1` — ASCII glyphs only, for terminals without box drawing

use vstd::prelude::*;

use crate::text::{
    opt_text,
    chars_eq, eq_ignore_ascii_case, eq_ignore_case, push_str, str_chars, string_from_chars,
    trim, trim_chars,
};

verus! {

/// What the attached terminal can be asked to do.
#[derive(Debug, Clone, Copy, PartialEq, Eq, Structural)]
pub struct Capabilities {
    /// ANSI colour escapes are safe to emit.
    pub color: bool,
    /// Carriage-return repainting is safe: a real terminal that has not opted
    /// out. Everything that redraws a line must check this, so piped output and
    /// CI logs keep one line per event.
    pub animate: bool,
    /// Non-ASCII glyphs (box drawing, braille, emoji) are safe to emit.
    pub unicode: bool,
}

impl Capabilities {
    /// Plain, unconditional output: what `TERM=dumb` gets. A pipe differs — it
    /// keeps `unicode`, because a log file renders UTF-8 whatever produced it.
    pub fn plain() -> (r: Capabilities)
        ensures
            r == plain_capabilities(),
    {
        Capabilities { color: false, animate: false, unicode: false }
    }
}

pub open spec fn plain_capabilities() -> Capabilities {
    Capabilities { color: false, animate: false, unicode: false }
}

/// A variable is "off" when it is set to an explicit negative. An empty value
/// counts as not asking for the feature.
pub open spec fn is_off(value: Option<Seq<char>>) -> bool {
    match value {
        None => false,
        Some(v) => {
            let t = trim(v);
            t.len() == 0 || t == "0"@ || eq_ignore_case(t, "false"@) || eq_ignore_case(t, "off"@)
                || eq_ignore_case(t, "no"@)
        },
    }
}

pub open spec fn is_on(value: Option<Seq<char>>) -> bool {
    match value {
        None => false,
        Some(v) => !is_off(Some(v)),
    }
}

/// The decision table, from the terminal answer and the four variables it reads.
pub open spec fn capabilities_for(
    is_terminal: bool,
    term: Option<Seq<char>>,
    no_color: Option<Seq<char>>,
    fun: Option<Seq<char>>,
    ascii: Option<Seq<char>>,
) -> Capabilities {
    let dumb = match term {
        Some(t) => eq_ignore_case(t, "dumb"@),
        None => false,
    };
    Capabilities {
        color: is_terminal && !dumb && no_color is None,
        animate: is_terminal && !dumb && !is_off(fun),
        unicode: !dumb && !is_on(ascii),
    }
}


fn off_value(value: &Option<String>) -> (r: bool)
    ensures
        r == is_off(opt_text(*value)),
{
    match value {
        None => false,
        Some(value) => {
            let v = str_chars(value.as_str());
            let t = trim_chars(&v);
            t.len() == 0 || chars_eq(&t, &str_chars("0")) || eq_ignore_ascii_case(
                &t,
                &str_chars("false"),
            ) || eq_ignore_ascii_case(&t, &str_chars("off")) || eq_ignore_ascii_case(
                &t,
                &str_chars("no"),
            )
        },
    }
}

/// The capabilities for a terminal answer and the values of `TERM`,
/// `NO_COLOR`, `RUVYXA_FUN`, and `RUVYXA_ASCII`.
pub fn capabilities_from(
    is_terminal: bool,
    term: &Option<String>,
    no_color: &Option<String>,
    fun: &Option<String>,
    ascii: &Option<String>,
) -> (r: Capabilities)
    ensures
        r == capabilities_for(
            is_terminal,
            opt_text(*term),
            opt_text(*no_color),
            opt_text(*fun),
            opt_text(*ascii),
        ),
{
    let dumb = match term {
        Some(t) => eq_ignore_ascii_case(&str_chars(t.as_str()), &str_chars("dumb")),
        None => false,
    };
    Capabilities {
        color: is_terminal && !dumb && no_color.is_none(),
        animate: is_terminal && !dumb && !off_value(fun),
        // Not gated on `is_terminal`: a redirected log renders UTF-8 as well as
        // a terminal does. Only a terminal that cannot draw the glyphs — or a
        // user who says so — falls back to ASCII.
        unicode: !dumb && !(ascii.is_some() && !off_value(ascii)),
    }
}

/// The detection rules, taking the terminal answer and the environment as
/// arguments so the decision table can be tested without a terminal.
pub fn detect_capabilities(is_terminal: bool, env: impl Fn(&str) -> Option<String>) -> (r: Capabilities)
    requires
        forall|name: &str| env.requires((name,)),
    ensures
        exists|t: Option<String>, n: Option<String>, f: Option<String>, a: Option<String>|
            #![trigger env.ensures(("TERM",), t), env.ensures(("NO_COLOR",), n), env.ensures(("RUVYXA_FUN",), f), env.ensures(("RUVYXA_ASCII",), a)]
            env.ensures(("TERM",), t) && env.ensures(("NO_COLOR",), n) && env.ensures(
                ("RUVYXA_FUN",),
                f,
            ) && env.ensures(("RUVYXA_ASCII",), a) && r == capabilities_for(
                is_terminal,
                opt_text(t),
                opt_text(n),
                opt_text(f),
                opt_text(a),
            ),
{
    let term = env("TERM");
    let no_color = env("NO_COLOR");
    let fun = env("RUVYXA_FUN");
    let ascii = env("RUVYXA_ASCII");
    capabilities_from(is_terminal, &term, &no_color, &fun, &ascii)
}

/// `value` wrapped in the escape for `code` when colour is allowed.
pub open spec fn painted(color: bool, value: Seq<char>, code: Seq<char>) -> Seq<char> {
    if color {
        "\x1b["@ + code + "m"@ + value + "\x1b[0m"@
    } else {
        value
    }
}

/// Colour `value` with the ANSI `code` when `color` is set.
pub fn paint_when(color: bool, value: &str, code: &str) -> (r: String)
    ensures
        r@ == painted(color, value@, code@),
{
    if !color {
        let v = str_chars(value);
        return string_from_chars(v.as_slice());
    }
    let mut out: Vec<char> = Vec::new();
    push_str(&mut out, "\x1b[");
    push_str(&mut out, code);
    push_str(&mut out, "m");
    push_str(&mut out, value);
    push_str(&mut out, "\x1b[0m");
    string_from_chars(out.as_slice())
}

// ─── Roles ───────────────────────────────────────────────────────────────────
//
// A role says what a value *is*, and the palette decides what colour that
// becomes. If two values carry different meaning, they get different colours,
// and if they carry the same meaning they get the same one everywhere.
//
// Every code stays inside the 16-colour range so a terminal without 256-colour
// support renders the same distinctions rather than approximating them.

pub fn heading(color: bool, value: &str) -> (r: String)
    ensures
        r@ == painted(color, value@, "1;35"@),
{
    paint_when(color, value, "1;35")
}

/// The mascot and anything that carries the product's identity.
pub fn brand(color: bool, value: &str) -> (r: String)
    ensures
        r@ == painted(color, value@, "1;33"@),
{
    paint_when(color, value, "1;33")
}

pub fn label(color: bool, value: &str) -> (r: String)
    ensures
        r@ == painted(color, value@, "90"@),
{
    paint_when(color, value, "90")
}

/// A name, a word, a text value: the default for anything that is not a count,
/// a path, or a status.
pub fn accent(color: bool, value: &str) -> (r: String)
    ensures
        r@ == painted(color, value@, "36"@),
{
    paint_when(color, value, "36")
}

/// A count or a measurement. Bright and bold so a number is findable in a
/// column of names.
pub fn number(color: bool, value: &str) -> (r: String)
    ensures
        r@ == painted(color, value@, "1;96"@),
{
    paint_when(color, value, "1;96")
}

/// Structural or descriptive information: a version, a target, a kind.
pub fn info(color: bool, value: &str) -> (r: String)
    ensures
        r@ == painted(color, value@, "94"@),
{
    paint_when(color, value, "94")
}

/// A secondary classification that must stay distinguishable from [`info`]
/// when the two sit in the same column.
pub fn note(color: bool, value: &str) -> (r: String)
    ensures
        r@ == painted(color, value@, "95"@),
{
    paint_when(color, value, "95")
}

pub fn dim(color: bool, value: &str) -> (r: String)
    ensures
        r@ == painted(color, value@, "90"@),
{
    paint_when(color, value, "90")
}

pub fn ok_text(color: bool, value: &str) -> (r: String)
    ensures
        r@ == painted(color, value@, "32"@),
{
    paint_when(color, value, "32")
}

pub fn warn_text(color: bool, value: &str) -> (r: String)
    ensures
        r@ == painted(color, value@, "33"@),
{
    paint_when(color, value, "33")
}

pub fn alert_text(color: bool, value: &str) -> (r: String)
    ensures
        r@ == painted(color, value@, "31"@),
{
    paint_when(color, value, "31")
}

pub fn link(color: bool, value: &str) -> (r: String)
    ensures
        r@ == painted(color, value@, "34"@),
{
    paint_when(color, value, "34")
}

pub fn success(color: bool) -> (r: String)
    ensures
        r@ == painted(color, "[ok]"@, "32"@),
{
    ok_text(color, "[ok]")
}

pub fn error_label(color: bool) -> (r: String)
    ensures
        r@ == painted(color, "[error]"@, "31"@),
{
    alert_text(color, "[error]")
}

/// Without colour a role writes its value unchanged; with colour the value is
/// enclosed by exactly one escape and one reset.
pub proof fn law_paint_is_transparent_without_colour(value: Seq<char>, code: Seq<char>)
    ensures
        painted(false, value, code) == value,
        painted(true, value, code).len() == value.len() + code.len() + "\x1b["@.len() + "m"@.len()
            + "\x1b[0m"@.len(),
{
}

/// Output that is not a terminal never gets colour or animation, and a dumb
/// terminal gets nothing at all, whatever else the environment says; a pipe
/// still gets Unicode unless ASCII is asked for.
pub proof fn law_pipes_and_dumb_terminals_stay_plain(
    is_terminal: bool,
    term: Option<Seq<char>>,
    no_color: Option<Seq<char>>,
    fun: Option<Seq<char>>,
    ascii: Option<Seq<char>>,
)
    ensures
        !is_terminal ==> !capabilities_for(is_terminal, term, no_color, fun, ascii).color
            && !capabilities_for(is_terminal, term, no_color, fun, ascii).animate,
        (term matches Some(t) && eq_ignore_case(t, "dumb"@)) ==> capabilities_for(
            is_terminal,
            term,
            no_color,
            fun,
            ascii,
        ) == plain_capabilities(),
        (!is_terminal && !(term matches Some(t) && eq_ignore_case(t, "dumb"@)) && !is_on(ascii))
            ==> capabilities_for(is_terminal, term, no_color, fun, ascii).unicode,
{
}

/// Each opt-out turns off its own feature whatever the rest of the
/// environment says: `NO_COLOR` set turns off colour, an explicit negative
/// `RUVYXA_FUN` turns off animation, an `RUVYXA_ASCII` that is set and not
/// negative turns off Unicode; and a real terminal that opts out of nothing
/// gets all three.
pub proof fn law_each_opt_out_turns_off_its_own_feature(
    is_terminal: bool,
    term: Option<Seq<char>>,
    no_color: Option<Seq<char>>,
    fun: Option<Seq<char>>,
    ascii: Option<Seq<char>>,
)
    ensures
        no_color is Some ==> !capabilities_for(is_terminal, term, no_color, fun, ascii).color,
        is_off(fun) ==> !capabilities_for(is_terminal, term, no_color, fun, ascii).animate,
        is_on(ascii) ==> !capabilities_for(is_terminal, term, no_color, fun, ascii).unicode,
        (is_terminal && term is None && no_color is None && fun is None && ascii is None) ==> ({
            let c = capabilities_for(is_terminal, term, no_color, fun, ascii);
            c.color && c.animate && c.unicode
        }),
{
}

} // verus!
