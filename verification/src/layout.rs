//! Field and unit formatting shared by every Ruvyxa command.
//!
//! The two label widths below are chosen together, not independently. A field
//! line is `"  " + label(20) + " "` and a phase line is `"  ◌ " + label(18) +
//! " "`, so both put their value in column 23 and the build summary reads as
//! one table instead of two. Changing one without the other reintroduces the
//! misalignment this module exists to remove.

use vstd::prelude::*;

use crate::text::{
    opt_text,
    decimal, digit_char, push_decimal, push_repeat, push_str, repeat, str_chars, string_from_chars,
};
use crate::theme::{accent, dim, label, ok_text, paint_when, painted, warn_text};

verus! {

broadcast use vstd::string::group_string_axioms;

/// Width of the label column in a `key: value` field line.
pub const FIELD_LABEL_WIDTH: usize = 20;

/// Width of the label column in a build-phase line, which carries a two-column
/// status glyph before the label.
pub const PHASE_LABEL_WIDTH: usize = 18;

/// How many spaces pad `len` out to `width`: none once `len` reaches it.
pub open spec fn padding(width: int, len: int) -> nat {
    if width > len {
        (width - len) as nat
    } else {
        0
    }
}

/// The spaces that pad a value of `len` bytes out to `width`.
pub fn spaces(width: usize, len: usize) -> (r: String)
    ensures
        r@ == repeat(" "@, padding(width as int, len as int)),
{
    let mut out: Vec<char> = Vec::new();
    let n: usize = if width > len { width - len } else { 0 };
    push_repeat(&mut out, " ", n);
    assert(out@ =~= repeat(" "@, padding(width as int, len as int)));
    string_from_chars(out.as_slice())
}

/// A field line: the dimmed label, padded by its byte length to the label
/// column, then the value.
pub open spec fn field_text(color: bool, name: &str, value: Seq<char>) -> Seq<char> {
    "  "@ + painted(color, name@, "90"@) + repeat(
        " "@,
        padding(FIELD_LABEL_WIDTH as int, name.len() as int),
    ) + " "@ + value
}

pub fn field_line(color: bool, name: &str, value: String) -> (r: String)
    ensures
        r@ == field_text(color, name, value@),
{
    let mut out: Vec<char> = Vec::new();
    push_str(&mut out, "  ");
    let styled = label(color, name);
    push_str(&mut out, styled.as_str());
    let pad = spaces(FIELD_LABEL_WIDTH, name.len());
    push_str(&mut out, pad.as_str());
    push_str(&mut out, " ");
    push_str(&mut out, value.as_str());
    assert(out@ =~= field_text(color, name, value@));
    string_from_chars(out.as_slice())
}

/// `"on"` or `"off"`.
pub fn enabled_text(enabled: bool) -> (r: &'static str)
    ensures
        r@ == (if enabled {
            "on"@
        } else {
            "off"@
        }),
{
    if enabled {
        "on"
    } else {
        "off"
    }
}

/// A count in the accent colour.
pub fn accent_count(color: bool, value: usize) -> (r: String)
    ensures
        r@ == painted(color, decimal(value as nat), "36"@),
{
    let mut digits: Vec<char> = Vec::new();
    push_decimal(&mut digits, value as u64);
    let text = string_from_chars(digits.as_slice());
    accent(color, text.as_str())
}

// ─── Byte sizes ──────────────────────────────────────────────────────────────
//
// Sizes are printed as the nearest tenth (below ten units) or the nearest whole
// unit, the way a binary floating-point value is formatted with a fixed number
// of decimals: the quotient is exact below 2^53, and a tie goes to the even
// neighbour. Above 2^53 a count first loses its low bits to the nearest value
// that a 53-bit significand can hold, exactly as the conversion to a float does.

pub open spec fn kib() -> nat {
    1024
}

pub open spec fn mib() -> nat {
    1048576
}

/// `num / den` rounded to the nearest integer, a tie going to the even one.
pub open spec fn round_half_even(num: nat, den: nat) -> nat
    recommends
        den > 0,
{
    let q = num / den;
    let r = num % den;
    if 2 * r > den || (2 * r == den && q % 2 == 1) {
        q + 1
    } else {
        q
    }
}

/// The gap between neighbouring binary64 values around the whole number `n`:
/// one below 2^53, doubling with every further bit.
pub open spec fn f64_spacing(n: nat) -> nat
    decreases n,
{
    if n < 0x20_0000_0000_0000 {
        1
    } else {
        2 * f64_spacing(n / 2)
    }
}

/// The binary64 value nearest to the whole number `n`, a tie going to the even
/// significand.
pub open spec fn nearest_f64(n: nat) -> nat {
    let u = f64_spacing(n);
    round_half_even(n, u) * u
}

/// A count of tenths written with one decimal: `12` is `1.2`.
pub open spec fn tenths_text(t: nat) -> Seq<char> {
    decimal(t / 10) + "."@ + seq![digit_char(t % 10)]
}

/// The quotient `num / den` written with one decimal below ten, and as a whole
/// number from ten on, followed by `unit`.
pub open spec fn scaled_text(num: nat, den: nat, unit: Seq<char>) -> Seq<char> {
    if num < 10 * den {
        tenths_text(round_half_even(num * 10, den)) + unit
    } else {
        decimal(round_half_even(num, den)) + unit
    }
}

pub open spec fn bytes_text(bytes: nat) -> Seq<char> {
    if bytes < kib() {
        decimal(bytes) + " B"@
    } else if bytes < mib() {
        scaled_text(bytes, kib(), " kB"@)
    } else {
        scaled_text(nearest_f64(bytes), mib(), " MB"@)
    }
}

fn round_even(num: u128, den: u128) -> (r: u128)
    requires
        den > 0,
        num < 0x1_0000_0000_0000_0000_0000_0000,
    ensures
        r == round_half_even(num as nat, den as nat),
        r <= num / den + 1,
{
    let q = num / den;
    let r = num % den;
    if r > den - r || (r == den - r && q % 2 == 1) {
        q + 1
    } else {
        q
    }
}

proof fn lemma_spacing_halves(n: nat, unit: nat, m: nat)
    requires
        unit > 0,
        m == n / unit,
        m >= 0x20_0000_0000_0000,
    ensures
        m / 2 == n / (unit * 2),
        f64_spacing(m) == 2 * f64_spacing(m / 2),
{
    vstd::arithmetic::div_mod::lemma_div_denominator(n as int, unit as int, 2);
}

fn f64_spacing_of(n: u64) -> (u: u128)
    ensures
        u == f64_spacing(n as nat),
        1 <= u <= 0x1000,
{
    let mut m: u64 = n;
    let mut unit: u128 = 1;
    while m >= 0x20_0000_0000_0000
        invariant
            1 <= unit <= 0x1000,
            m as nat == (n as nat) / (unit as nat),
            unit * f64_spacing(m as nat) == f64_spacing(n as nat),
            unit * m <= n,
        decreases m,
    {
        proof {
            lemma_spacing_halves(n as nat, unit as nat, m as nat);
            assert(unit < 0x800) by (nonlinear_arith)
                requires
                    m >= 0x20_0000_0000_0000,
                    unit >= 1,
                    unit * m <= n,
                    n < 0x1_0000_0000_0000_0000,
            ;
            assert(unit * (2 * f64_spacing((m / 2) as nat)) == (unit * 2) * f64_spacing(
                (m / 2) as nat,
            )) by (nonlinear_arith);
            assert((unit * 2) * (m / 2) <= unit * m) by (nonlinear_arith)
                requires
                    unit >= 1,
            ;
        }
        m = m / 2;
        unit = unit * 2;
    }
    proof {
        assert(unit * 1 == unit);
    }
    unit
}

/// Appends `num / den` in the form [`scaled_text`] describes.
fn push_scaled(out: &mut Vec<char>, num: u128, den: u128, unit: &str)
    requires
        den > 0,
        num <= 0x2_0000_0000_0000_0000,
        1024 <= den <= 1048576,
    ensures
        final(out)@ == old(out)@ + scaled_text(num as nat, den as nat, unit@),
{
    if num < 10 * den {
        let t = round_even(num * 10, den);
        assert(t <= 101) by (nonlinear_arith)
            requires
                t as int <= ((num * 10) as int) / (den as int) + 1,
                num < 10 * den,
                den > 0,
        ;
        push_decimal(out, (t / 10) as u64);
        push_str(out, ".");
        let d = t % 10;
        assert(d < 10);
        let c: char = if d == 0 {
            '0'
        } else if d == 1 {
            '1'
        } else if d == 2 {
            '2'
        } else if d == 3 {
            '3'
        } else if d == 4 {
            '4'
        } else if d == 5 {
            '5'
        } else if d == 6 {
            '6'
        } else if d == 7 {
            '7'
        } else if d == 8 {
            '8'
        } else {
            '9'
        };
        assert(c == digit_char((t % 10) as nat));
        out.push(c);
        push_str(out, unit);
        assert(final(out)@ =~= old(out)@ + scaled_text(num as nat, den as nat, unit@));
    } else {
        let w = round_even(num, den);
        assert(w <= 0x1_0000_0000_0000_0000) by (nonlinear_arith)
            requires
                w as int <= (num as int) / (den as int) + 1,
                num <= 0x2_0000_0000_0000_0000,
                den >= 1024,
        ;
        assert(w < 0x1_0000_0000_0000_0000) by (nonlinear_arith)
            requires
                w as int <= (num as int) / (den as int) + 1,
                num <= 0x2_0000_0000_0000_0000,
                den >= 1024,
        ;
        push_decimal(out, w as u64);
        push_str(out, unit);
        assert(final(out)@ =~= old(out)@ + scaled_text(num as nat, den as nat, unit@));
    }
}

/// A byte count in `B`, `kB`, or `MB`.
pub fn format_bytes(bytes: usize) -> (r: String)
    ensures
        r@ == bytes_text(bytes as nat),
{
    let mut out: Vec<char> = Vec::new();
    if bytes < 1024 {
        push_decimal(&mut out, bytes as u64);
        push_str(&mut out, " B");
    } else if bytes < 1048576 {
        push_scaled(&mut out, bytes as u128, 1024, " kB");
    } else {
        let n = bytes as u64;
        let unit = f64_spacing_of(n);
        let k = round_even(n as u128, unit);
        assert(k * unit <= 0x2_0000_0000_0000_0000) by (nonlinear_arith)
            requires
                k as int <= (n as int) / (unit as int) + 1,
                1 <= unit <= 0x1000,
                n < 0x1_0000_0000_0000_0000,
        ;
        push_scaled(&mut out, k * unit, 1048576, " MB");
    }
    assert(out@ =~= bytes_text(bytes as nat));
    string_from_chars(out.as_slice())
}

// ─── Paths and statuses ──────────────────────────────────────────────────────

/// A path, as displayed, in the path colour.
pub fn path_text(color: bool, path: &str) -> (r: String)
    ensures
        r@ == painted(color, path@, "34"@),
{
    paint_when(color, path, "34")
}

/// What std's `Path::strip_prefix` leaves of `path` once `root` is taken off
/// its front, whole components at a time; `None` where `root` is not a
/// prefix of `path`.
pub uninterp spec fn path_without_prefix(path: Seq<char>, root: Seq<char>) -> Option<Seq<char>>;


/// Calls `std::path::Path::strip_prefix` on two paths given as text and
/// hands back the remainder as text. Its outcome depends on the two texts
/// alone; how std splits a path into components is left unstated here.
#[verifier::external_body]
pub(crate) fn strip_path_prefix(path: &str, root: &str) -> (r: Option<String>)
    ensures
        opt_text(r) == path_without_prefix(path@, root@),
{
    std::path::Path::new(path).strip_prefix(root).ok().map(|rest| rest.to_string_lossy().into_owned())
}

/// A path as shown to the user: relative to `root` where it lies inside it,
/// else as given.
pub fn display_path_relative(root: &str, path: &str) -> (r: String)
    ensures
        r@ == match path_without_prefix(path@, root@) {
            Some(rest) => rest,
            None => path@,
        },
{
    match strip_path_prefix(path, root) {
        Some(rest) => rest,
        None => string_from_chars(str_chars(path).as_slice()),
    }
}

/// `ok` when a path exists, `missing` in the warning colour when it does
/// not.
pub fn exists_status(color: bool, exists: bool) -> (r: String)
    ensures
        r@ == (if exists {
            painted(color, "ok"@, "32"@)
        } else {
            painted(color, "missing"@, "33"@)
        }),
{
    if exists {
        ok_text(color, "ok")
    } else {
        warn_text(color, "missing")
    }
}

/// A tool's version as `doctor` reports it: `missing` is a warning, anything
/// else is fine.
pub fn tool_status(color: bool, value: &str) -> (r: String)
    ensures
        r@ == (if value@ == "missing"@ {
            painted(color, value@, "33"@)
        } else {
            painted(color, value@, "32"@)
        }),
{
    if crate::text::chars_eq(str_chars(value).as_slice(), str_chars("missing").as_slice()) {
        warn_text(color, value)
    } else {
        ok_text(color, value)
    }
}

/// A compatibility report: in the success colour when it starts with
/// `ok `, as a warning otherwise.
pub fn compatibility_status(color: bool, value: &str) -> (r: String)
    ensures
        r@ == (if crate::text::starts_with(value@, "ok "@) {
            painted(color, value@, "32"@)
        } else {
            painted(color, value@, "33"@)
        }),
{
    if crate::text::has_prefix(str_chars(value).as_slice(), str_chars("ok ").as_slice()) {
        ok_text(color, value)
    } else {
        warn_text(color, value)
    }
}

// ─── Tables ──────────────────────────────────────────────────────────────────

pub open spec fn separator_cells(color: bool, widths: Seq<usize>) -> Seq<char>
    decreases widths.len(),
{
    if widths.len() == 0 {
        Seq::empty()
    } else {
        separator_cells(color, widths.drop_last()) + painted(
            color,
            repeat("-"@, (widths.last() + 2) as nat),
            "90"@,
        ) + painted(color, "+"@, "90"@)
    }
}

/// A table's separator line: `+`, then for each column a run of `-` two
/// wider than the column and another `+`, all dimmed.
pub open spec fn separator_line(color: bool, widths: Seq<usize>) -> Seq<char> {
    "  "@ + painted(color, "+"@, "90"@) + separator_cells(color, widths)
}

pub fn table_separator(color: bool, widths: &[usize]) -> (r: String)
    requires
        forall|i: int| 0 <= i < widths@.len() ==> #[trigger] widths@[i] + 2 <= usize::MAX,
    ensures
        r@ == separator_line(color, widths@),
{
    let mut out: Vec<char> = Vec::new();
    push_str(&mut out, "  ");
    let plus = dim(color, "+");
    push_str(&mut out, plus.as_str());
    let mut i: usize = 0;
    assert(widths@.subrange(0, 0) =~= Seq::<usize>::empty());
    while i < widths.len()
        invariant
            i <= widths.len(),
            plus@ == painted(color, "+"@, "90"@),
            forall|k: int| 0 <= k < widths@.len() ==> #[trigger] widths@[k] + 2 <= usize::MAX,
            out@ == "  "@ + plus@ + separator_cells(color, widths@.subrange(0, i as int)),
        decreases widths.len() - i,
    {
        let mut dashes: Vec<char> = Vec::new();
        push_repeat(&mut dashes, "-", widths[i] + 2);
        let run = dim(color, string_from_chars(dashes.as_slice()).as_str());
        push_str(&mut out, run.as_str());
        push_str(&mut out, plus.as_str());
        assert(widths@.subrange(0, i + 1).drop_last() =~= widths@.subrange(0, i as int));
        i += 1;
        assert(out@ =~= "  "@ + plus@ + separator_cells(color, widths@.subrange(0, i as int)));
    }
    assert(widths@.subrange(0, i as int) =~= widths@);
    string_from_chars(out.as_slice())
}

pub open spec fn row_cells(
    color: bool,
    raw: Seq<&str>,
    styled: Seq<String>,
    widths: Seq<usize>,
    right_align_from: usize,
    n: nat,
) -> Seq<char>
    decreases n,
{
    if n == 0 {
        Seq::empty()
    } else {
        let i = n - 1;
        let pad = repeat(" "@, padding(widths[i] as int, raw[i].len() as int));
        row_cells(color, raw, styled, widths, right_align_from, (n - 1) as nat) + " "@ + if i
            < right_align_from {
            styled[i]@ + pad
        } else {
            pad + styled[i]@
        } + " "@ + painted(color, "|"@, "90"@)
    }
}

/// One bordered table row: each cell padded to its column by the byte
/// length of its raw text, left-aligned before `right_align_from` and
/// right-aligned from there on.
pub open spec fn row_line(
    color: bool,
    raw: Seq<&str>,
    styled: Seq<String>,
    widths: Seq<usize>,
    right_align_from: usize,
) -> Seq<char> {
    "  "@ + painted(color, "|"@, "90"@) + row_cells(color, raw, styled, widths, right_align_from, raw.len())
}

pub fn box_row(
    color: bool,
    raw: &[&str],
    styled: &[String],
    widths: &[usize],
    right_align_from: usize,
) -> (r: String)
    requires
        styled@.len() == raw@.len(),
        widths@.len() >= raw@.len(),
    ensures
        r@ == row_line(color, raw@, styled@, widths@, right_align_from),
{
    let mut out: Vec<char> = Vec::new();
    push_str(&mut out, "  ");
    let bar = dim(color, "|");
    push_str(&mut out, bar.as_str());
    let mut i: usize = 0;
    while i < raw.len()
        invariant
            i <= raw.len(),
            styled@.len() == raw@.len(),
            widths@.len() >= raw@.len(),
            bar@ == painted(color, "|"@, "90"@),
            out@ == "  "@ + bar@ + row_cells(color, raw@, styled@, widths@, right_align_from, i as nat),
        decreases raw.len() - i,
    {
        let pad = spaces(widths[i], raw[i].len());
        push_str(&mut out, " ");
        if i < right_align_from {
            push_str(&mut out, styled[i].as_str());
            push_str(&mut out, pad.as_str());
        } else {
            push_str(&mut out, pad.as_str());
            push_str(&mut out, styled[i].as_str());
        }
        push_str(&mut out, " ");
        push_str(&mut out, bar.as_str());
        i += 1;
        assert(out@ =~= "  "@ + bar@ + row_cells(color, raw@, styled@, widths@, right_align_from, i as nat));
    }
    string_from_chars(out.as_slice())
}

} // verus!
