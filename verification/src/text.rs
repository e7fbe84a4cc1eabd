//! Character-level helpers shared by every module: converting between `&str`
//! and character vectors, and the small ASCII predicates the scanners use.

use vstd::prelude::*;

verus! {

broadcast use vstd::string::group_string_axioms;

/// The characters of `s`, in order.
pub fn str_chars(s: &str) -> (r: Vec<char>)
    ensures
        r@ == s@,
{
    let mut r: Vec<char> = Vec::new();
    let mut it = s.chars();
    assert(vstd::std_specs::iter::IteratorSpec::remaining(&it) == s@);
    loop
        invariant
            vstd::std_specs::iter::IteratorSpec::obeys_prophetic_iter_laws(&it),
            r@ + vstd::std_specs::iter::IteratorSpec::remaining(&it) == s@,
            vstd::std_specs::iter::IteratorSpec::decrease(&it) is Some,
        decreases vstd::std_specs::iter::IteratorSpec::decrease(&it)->0,
    {
        match it.next() {
            Some(c) => {
                r.push(c);
                assert(r@ + vstd::std_specs::iter::IteratorSpec::remaining(&it) =~= s@);
            },
            None => {
                assert(r@ =~= s@);
                return r;
            },
        }
    }
}

/// A `String` holding exactly the characters `chars`, collected through std's
/// `FromIterator<char>` for `String`.
#[verifier::external_body]
pub(crate) fn string_from_chars(chars: &[char]) -> (r: String)
    ensures
        r@ == chars@,
{
    chars.iter().collect()
}

/// The characters `v[from..to]` as an owned `String`.
pub fn chars_to_string(v: &Vec<char>, from: usize, to: usize) -> (r: String)
    requires
        from <= to <= v.len(),
    ensures
        r@ == v@.subrange(from as int, to as int),
{
    let mut out: Vec<char> = Vec::new();
    let mut i = from;
    while i < to
        invariant
            from <= i <= to <= v.len(),
            out@ == v@.subrange(from as int, i as int),
        decreases to - i,
    {
        out.push(v[i]);
        i += 1;
        assert(out@ =~= v@.subrange(from as int, i as int));
    }
    string_from_chars(out.as_slice())
}

/// Appends every character of `s` to `out`.
pub fn push_str(out: &mut Vec<char>, s: &str)
    ensures
        final(out)@ == old(out)@ + s@,
{
    let chars = str_chars(s);
    push_chars(out, &chars);
}

/// Appends every character of `chars` to `out`.
pub fn push_chars(out: &mut Vec<char>, chars: &Vec<char>)
    ensures
        final(out)@ == old(out)@ + chars@,
{
    let mut i: usize = 0;
    while i < chars.len()
        invariant
            i <= chars.len(),
            out@ == old(out)@ + chars@.subrange(0, i as int),
        decreases chars.len() - i,
    {
        out.push(chars[i]);
        i += 1;
        assert(out@ =~= old(out)@ + chars@.subrange(0, i as int));
    }
    assert(chars@.subrange(0, chars.len() as int) =~= chars@);
}

// ─── Character classes ───────────────────────────────────────────────────────

/// `char::is_whitespace`: the Unicode `White_Space` property.
/// An optional text by its characters.
pub open spec fn opt_text(v: Option<String>) -> Option<Seq<char>> {
    match v {
        Some(s) => Some(s@),
        None => None,
    }
}

pub open spec fn is_unicode_ws(c: char) -> bool {
    let n = c as u32;
    (9 <= n <= 13) || n == 32 || n == 0x85 || n == 0xA0 || n == 0x1680 || (0x2000 <= n <= 0x200A)
        || n == 0x2028 || n == 0x2029 || n == 0x202F || n == 0x205F || n == 0x3000
}

pub fn is_whitespace(c: char) -> (r: bool)
    ensures
        r == is_unicode_ws(c),
{
    let n = c as u32;
    (9 <= n && n <= 13) || n == 32 || n == 0x85 || n == 0xA0 || n == 0x1680 || (0x2000 <= n && n
        <= 0x200A) || n == 0x2028 || n == 0x2029 || n == 0x202F || n == 0x205F || n == 0x3000
}

/// `u8::is_ascii_digit` on a character.
pub open spec fn is_ascii_digit(c: char) -> bool {
    48 <= (c as u32) <= 57
}

/// `char::is_ascii_alphanumeric`.
pub open spec fn is_ascii_alnum(c: char) -> bool {
    is_ascii_digit(c) || (65 <= (c as u32) <= 90) || (97 <= (c as u32) <= 122)
}

/// `char::is_ascii_alphabetic`.
pub open spec fn is_ascii_alpha(c: char) -> bool {
    (65 <= (c as u32) <= 90) || (97 <= (c as u32) <= 122)
}

/// `char::is_control`: the Unicode `Cc` category.
pub open spec fn is_control(c: char) -> bool {
    (c as u32) <= 0x1F || (0x7F <= (c as u32) <= 0x9F)
}

pub fn ascii_digit(c: char) -> (r: bool)
    ensures
        r == is_ascii_digit(c),
{
    let n = c as u32;
    48 <= n && n <= 57
}

pub fn ascii_alnum(c: char) -> (r: bool)
    ensures
        r == is_ascii_alnum(c),
{
    let n = c as u32;
    (48 <= n && n <= 57) || (65 <= n && n <= 90) || (97 <= n && n <= 122)
}

pub fn ascii_alpha(c: char) -> (r: bool)
    ensures
        r == is_ascii_alpha(c),
{
    let n = c as u32;
    (65 <= n && n <= 90) || (97 <= n && n <= 122)
}

pub fn control(c: char) -> (r: bool)
    ensures
        r == is_control(c),
{
    let n = c as u32;
    n <= 0x1F || (0x7F <= n && n <= 0x9F)
}

/// `char::to_ascii_lowercase`.
pub open spec fn lower(c: char) -> char {
    if 65 <= (c as u32) <= 90 {
        ((c as u32) + 32) as char
    } else {
        c
    }
}

pub fn to_lower(c: char) -> (r: char)
    ensures
        r == lower(c),
{
    if 'A' <= c && c <= 'Z' {
        let n = (c as u32) + 32;
        assert(n == (c as u32) + 32);
        char_from_ascii(n)
    } else {
        c
    }
}

/// The character with the ASCII code `n`.
fn char_from_ascii(n: u32) -> (r: char)
    requires
        n < 128,
    ensures
        r == n as char,
{
    let b = n as u8;
    b as char
}

/// Every character of `s` lowered with `to_ascii_lowercase`.
pub open spec fn lower_all(s: Seq<char>) -> Seq<char> {
    s.map_values(|c: char| lower(c))
}

pub fn to_ascii_lowercase(v: &Vec<char>) -> (r: Vec<char>)
    ensures
        r@ == lower_all(v@),
{
    let mut out: Vec<char> = Vec::new();
    let mut i: usize = 0;
    while i < v.len()
        invariant
            i <= v.len(),
            out@ == lower_all(v@.subrange(0, i as int)),
        decreases v.len() - i,
    {
        out.push(to_lower(v[i]));
        i += 1;
        assert(out@ =~= lower_all(v@.subrange(0, i as int)));
    }
    assert(v@.subrange(0, i as int) =~= v@);
    out
}

/// `str::eq_ignore_ascii_case`.
pub open spec fn eq_ignore_case(a: Seq<char>, b: Seq<char>) -> bool {
    lower_all(a) == lower_all(b)
}

pub fn eq_ignore_ascii_case(a: &[char], b: &[char]) -> (r: bool)
    ensures
        r == eq_ignore_case(a@, b@),
{
    if a.len() != b.len() {
        assert(lower_all(a@).len() != lower_all(b@).len());
        return false;
    }
    let mut i: usize = 0;
    while i < a.len()
        invariant
            a.len() == b.len(),
            i <= a.len(),
            forall|k: int| 0 <= k < i ==> lower(a@[k]) == lower(b@[k]),
        decreases a.len() - i,
    {
        if to_lower(a[i]) != to_lower(b[i]) {
            assert(lower_all(a@)[i as int] != lower_all(b@)[i as int]);
            return false;
        }
        i += 1;
    }
    assert(lower_all(a@) =~= lower_all(b@));
    true
}

// ─── Trimming ────────────────────────────────────────────────────────────────

/// Index of the first non-whitespace character of `s` at or after `i`.
pub open spec fn trim_start_index(s: Seq<char>, i: int) -> int
    decreases s.len() - i,
{
    if 0 <= i < s.len() && is_unicode_ws(s[i]) {
        trim_start_index(s, i + 1)
    } else {
        i
    }
}

/// Index just past the last non-whitespace character of `s[lo..j]`.
pub open spec fn trim_end_index(s: Seq<char>, lo: int, j: int) -> int
    decreases j - lo,
{
    if lo < j && is_unicode_ws(s[j - 1]) {
        trim_end_index(s, lo, j - 1)
    } else {
        j
    }
}

/// `str::trim`: `s` without leading and trailing Unicode whitespace.
pub open spec fn trim(s: Seq<char>) -> Seq<char> {
    let lo = trim_start_index(s, 0);
    s.subrange(lo, trim_end_index(s, lo, s.len() as int))
}

pub proof fn lemma_trim_bounds(s: Seq<char>, i: int)
    requires
        0 <= i <= s.len(),
    ensures
        i <= trim_start_index(s, i) <= s.len(),
    decreases s.len() - i,
{
    if i < s.len() && is_unicode_ws(s[i]) {
        lemma_trim_bounds(s, i + 1);
    }
}

pub proof fn lemma_trim_end_bounds(s: Seq<char>, lo: int, j: int)
    requires
        0 <= lo <= j <= s.len(),
    ensures
        lo <= trim_end_index(s, lo, j) <= j,
    decreases j - lo,
{
    if lo < j && is_unicode_ws(s[j - 1]) {
        lemma_trim_end_bounds(s, lo, j - 1);
    }
}

/// The bounds `(lo, hi)` of `trim(v)` inside `v`.
pub fn trim_bounds(v: &Vec<char>) -> (r: (usize, usize))
    ensures
        r.0 <= r.1 <= v.len(),
        r.0 == trim_start_index(v@, 0),
        r.1 == trim_end_index(v@, r.0 as int, v.len() as int),
        v@.subrange(r.0 as int, r.1 as int) == trim(v@),
{
    let mut lo: usize = 0;
    while lo < v.len() && is_whitespace(v[lo])
        invariant
            lo <= v.len(),
            trim_start_index(v@, 0) == trim_start_index(v@, lo as int),
        decreases v.len() - lo,
    {
        lo += 1;
    }
    let mut hi = v.len();
    while lo < hi && is_whitespace(v[hi - 1])
        invariant
            lo <= hi <= v.len(),
            trim_end_index(v@, lo as int, v.len() as int) == trim_end_index(v@, lo as int, hi as int),
        decreases hi - lo,
    {
        hi -= 1;
    }
    (lo, hi)
}

/// The characters of `v[from..to]`.
pub fn sub_chars(v: &Vec<char>, from: usize, to: usize) -> (r: Vec<char>)
    requires
        from <= to <= v.len(),
    ensures
        r@ == v@.subrange(from as int, to as int),
{
    let mut out: Vec<char> = Vec::new();
    let mut i = from;
    while i < to
        invariant
            from <= i <= to <= v.len(),
            out@ == v@.subrange(from as int, i as int),
        decreases to - i,
    {
        out.push(v[i]);
        i += 1;
        assert(out@ =~= v@.subrange(from as int, i as int));
    }
    out
}

/// `str::trim` on a character vector.
pub fn trim_chars(v: &Vec<char>) -> (r: Vec<char>)
    ensures
        r@ == trim(v@),
{
    let (lo, hi) = trim_bounds(v);
    sub_chars(v, lo, hi)
}

// ─── Comparisons ─────────────────────────────────────────────────────────────

/// Whether `v` equals `w`.
pub fn chars_eq(v: &[char], w: &[char]) -> (r: bool)
    ensures
        r == (v@ == w@),
{
    if v.len() != w.len() {
        return false;
    }
    let mut i: usize = 0;
    while i < v.len()
        invariant
            v.len() == w.len(),
            i <= v.len(),
            forall|k: int| 0 <= k < i ==> v@[k] == w@[k],
        decreases v.len() - i,
    {
        if v[i] != w[i] {
            return false;
        }
        i += 1;
    }
    assert(v@ =~= w@);
    true
}

/// Whether `s` starts with `p`.
pub open spec fn starts_with(s: Seq<char>, p: Seq<char>) -> bool {
    p.len() <= s.len() && s.subrange(0, p.len() as int) == p
}

/// Whether `s` ends with `p`.
pub open spec fn ends_with(s: Seq<char>, p: Seq<char>) -> bool {
    p.len() <= s.len() && s.subrange(s.len() - p.len(), s.len() as int) == p
}

pub fn has_prefix(v: &[char], p: &[char]) -> (r: bool)
    ensures
        r == starts_with(v@, p@),
{
    if p.len() > v.len() {
        return false;
    }
    let mut i: usize = 0;
    while i < p.len()
        invariant
            p.len() <= v.len(),
            i <= p.len(),
            forall|k: int| 0 <= k < i ==> v@[k] == p@[k],
        decreases p.len() - i,
    {
        if v[i] != p[i] {
            assert(v@.subrange(0, p.len() as int)[i as int] != p@[i as int]);
            return false;
        }
        i += 1;
    }
    assert(v@.subrange(0, p.len() as int) =~= p@);
    true
}

pub fn has_suffix(v: &[char], p: &[char]) -> (r: bool)
    ensures
        r == ends_with(v@, p@),
{
    if p.len() > v.len() {
        return false;
    }
    let off = v.len() - p.len();
    let mut i: usize = 0;
    while i < p.len()
        invariant
            p.len() <= v.len(),
            off == v.len() - p.len(),
            i <= p.len(),
            forall|k: int| 0 <= k < i ==> v@[off + k] == p@[k],
        decreases p.len() - i,
    {
        if v[off + i] != p[i] {
            assert(v@.subrange(off as int, v.len() as int)[i as int] != p@[i as int]);
            return false;
        }
        i += 1;
    }
    assert(v@.subrange(off as int, v.len() as int) =~= p@);
    true
}

/// Whether `c` occurs in `s`.
pub open spec fn contains_char(s: Seq<char>, c: char) -> bool {
    exists|k: int| 0 <= k < s.len() && s[k] == c
}

pub fn has_char(v: &[char], c: char) -> (r: bool)
    ensures
        r == contains_char(v@, c),
{
    let mut i: usize = 0;
    while i < v.len()
        invariant
            i <= v.len(),
            forall|k: int| 0 <= k < i ==> v@[k] != c,
        decreases v.len() - i,
    {
        if v[i] == c {
            return true;
        }
        i += 1;
    }
    false
}

// ─── Building text ───────────────────────────────────────────────────────────

/// `s` repeated `n` times.
pub open spec fn repeat(s: Seq<char>, n: nat) -> Seq<char>
    decreases n,
{
    if n == 0 {
        Seq::empty()
    } else {
        repeat(s, (n - 1) as nat) + s
    }
}

pub proof fn lemma_repeat_len(s: Seq<char>, n: nat)
    ensures
        repeat(s, n).len() == n * s.len(),
    decreases n,
{
    if n > 0 {
        lemma_repeat_len(s, (n - 1) as nat);
        assert(repeat(s, n).len() == (n - 1) * s.len() + s.len());
        assert((n - 1) * s.len() + s.len() == n * s.len()) by (nonlinear_arith);
    } else {
        assert(0 * s.len() == 0) by (nonlinear_arith);
    }
}

/// Appends `s` to `out` `n` times.
pub fn push_repeat(out: &mut Vec<char>, s: &str, n: usize)
    ensures
        final(out)@ == old(out)@ + repeat(s@, n as nat),
{
    let chars = str_chars(s);
    let mut i: usize = 0;
    while i < n
        invariant
            i <= n,
            chars@ == s@,
            out@ == old(out)@ + repeat(s@, i as nat),
        decreases n - i,
    {
        push_chars(out, &chars);
        i += 1;
        assert(out@ =~= old(out)@ + repeat(s@, i as nat));
    }
}

/// The decimal digits of `n`.
pub open spec fn decimal(n: nat) -> Seq<char>
    decreases n,
{
    if n < 10 {
        seq![digit_char(n)]
    } else {
        decimal(n / 10) + seq![digit_char(n % 10)]
    }
}

pub open spec fn digit_char(d: nat) -> char {
    (48 + d) as char
}

fn digit(d: u64) -> (r: char)
    requires
        d < 10,
    ensures
        r == digit_char(d as nat),
{
    char_from_ascii((48 + d) as u32)
}

/// Appends the decimal form of `n`, as `Display` writes an unsigned integer.
pub fn push_decimal(out: &mut Vec<char>, n: u64)
    ensures
        final(out)@ == old(out)@ + decimal(n as nat),
    decreases n,
{
    if n < 10 {
        out.push(digit(n));
    } else {
        push_decimal(out, n / 10);
        out.push(digit(n % 10));
    }
}

/// The decimal form of `n` as a `String`.
pub fn decimal_string(n: u64) -> (r: String)
    ensures
        r@ == decimal(n as nat),
{
    let mut out: Vec<char> = Vec::new();
    push_decimal(&mut out, n);
    assert(out@ =~= decimal(n as nat));
    string_from_chars(out.as_slice())
}

// ─── Reading numbers ─────────────────────────────────────────────────────────

/// Every character of `s` is an ASCII digit.
pub open spec fn all_digits(s: Seq<char>) -> bool {
    forall|i: int| 0 <= i < s.len() ==> is_ascii_digit(#[trigger] s[i])
}

/// The value of a run of decimal digits.
pub open spec fn digits_value(s: Seq<char>) -> nat
    decreases s.len(),
{
    if s.len() == 0 {
        0
    } else {
        digits_value(s.drop_last()) * 10 + ((s.last() as u32) - 48) as nat
    }
}

/// What `str::parse` makes of `s` for an unsigned integer type whose largest
/// value is `max`: an optional `+`, then at least one decimal digit, with no
/// overflow.
pub open spec fn parse_unsigned(s: Seq<char>, max: nat) -> Option<nat> {
    let digits = if s.len() > 0 && s[0] == '+' {
        s.drop_first()
    } else {
        s
    };
    if digits.len() > 0 && all_digits(digits) && digits_value(digits) <= max {
        Some(digits_value(digits))
    } else {
        None
    }
}

/// Whether the digits of `s` from `from` on stay within `max` once read.
fn read_digits(s: &[char], from: usize, max: u64) -> (r: Option<u64>)
    requires
        from <= s.len(),
    ensures
        match r {
            Some(v) => all_digits(s@.subrange(from as int, s.len() as int)) && v == digits_value(
                s@.subrange(from as int, s.len() as int),
            ) && v <= max,
            None => !(all_digits(s@.subrange(from as int, s.len() as int)) && digits_value(
                s@.subrange(from as int, s.len() as int),
            ) <= max),
        },
{
    let mut value: u64 = 0;
    let mut i = from;
    while i < s.len()
        invariant
            from <= i <= s.len(),
            all_digits(s@.subrange(from as int, i as int)),
            value == digits_value(s@.subrange(from as int, i as int)),
            value <= max,
        decreases s.len() - i,
    {
        let c = s[i];
        if !ascii_digit(c) {
            proof {
                let t = s@.subrange(from as int, s.len() as int);
                assert(t[i - from] == c);
            }
            return None;
        }
        let d: u64 = (c as u32 - 48) as u64;
        let ghost prev = s@.subrange(from as int, i as int);
        assert(s@.subrange(from as int, i + 1) =~= prev.push(c));
        assert(s@.subrange(from as int, i + 1).drop_last() =~= prev);
        if d > max || value > (max - d) / 10 {
            proof {
                assert(all_digits(s@.subrange(from as int, i + 1)));
                lemma_digits_grow(s@, from as int, i as int, s.len() as int);
                assert(digits_value(s@.subrange(from as int, i + 1)) == value * 10 + d);
                if d <= max {
                    assert(value * 10 + d > max) by (nonlinear_arith)
                        requires
                            value > (max - d) / 10,
                            d <= max,
                    ;
                }
            }
            return None;
        }
        assert(value * 10 + d <= max) by (nonlinear_arith)
            requires
                value <= (max - d) / 10,
                d <= max,
        ;
        value = value * 10 + d;
        i += 1;
        assert(all_digits(s@.subrange(from as int, i as int)));
    }
    Some(value)
}

/// A prefix of a run of digits never reads as more than the whole run.
proof fn lemma_digits_grow(s: Seq<char>, from: int, i: int, end: int)
    requires
        0 <= from <= i < end <= s.len(),
        all_digits(s.subrange(from, i + 1)),
    ensures
        all_digits(s.subrange(from, end)) ==> digits_value(s.subrange(from, i + 1))
            <= digits_value(s.subrange(from, end)),
    decreases end - i,
{
    if all_digits(s.subrange(from, end)) && end > i + 1 {
        assert(all_digits(s.subrange(from, end - 1))) by {
            assert forall|k: int| 0 <= k < s.subrange(from, end - 1).len() implies is_ascii_digit(
                #[trigger] s.subrange(from, end - 1)[k],
            ) by {
                assert(s.subrange(from, end - 1)[k] == s.subrange(from, end)[k]);
            }
        }
        lemma_digits_grow(s, from, i, end - 1);
        assert(s.subrange(from, end).drop_last() =~= s.subrange(from, end - 1));
    }
}

/// `str::parse::<u64>` on the characters of `s`.
pub fn parse_u64(s: &[char]) -> (r: Option<u64>)
    ensures
        match r {
            Some(v) => parse_unsigned(s@, u64::MAX as nat) == Some(v as nat),
            None => parse_unsigned(s@, u64::MAX as nat) is None,
        },
{
    let from: usize = if s.len() > 0 && s[0] == '+' {
        1
    } else {
        0
    };
    proof {
        let digits = if s@.len() > 0 && s@[0] == '+' {
            s@.drop_first()
        } else {
            s@
        };
        assert(digits =~= s@.subrange(from as int, s.len() as int));
    }
    if from == s.len() {
        return None;
    }
    read_digits(s, from, u64::MAX)
}

/// Index of the first whitespace character of `s` at or after `i`.
pub open spec fn token_end(s: Seq<char>, i: int) -> int
    decreases s.len() - i,
{
    if 0 <= i < s.len() && !is_unicode_ws(s[i]) {
        token_end(s, i + 1)
    } else {
        i
    }
}

/// The first whitespace-separated word of `s` (empty when there is none).
pub open spec fn first_word(s: Seq<char>) -> Seq<char> {
    let i = trim_start_index(s, 0);
    s.subrange(i, token_end(s, i))
}

pub proof fn lemma_token_end_bounds(s: Seq<char>, i: int)
    requires
        0 <= i <= s.len(),
    ensures
        i <= token_end(s, i) <= s.len(),
    decreases s.len() - i,
{
    if i < s.len() && !is_unicode_ws(s[i]) {
        lemma_token_end_bounds(s, i + 1);
    }
}

/// The first whitespace-separated word of `v`, as `split_whitespace().next()`
/// gives it (empty when there is none).
pub fn first_word_of(v: &Vec<char>) -> (r: Vec<char>)
    ensures
        r@ == first_word(v@),
{
    let mut i: usize = 0;
    while i < v.len() && is_whitespace(v[i])
        invariant
            i <= v.len(),
            trim_start_index(v@, 0) == trim_start_index(v@, i as int),
        decreases v.len() - i,
    {
        i += 1;
    }
    let mut j = i;
    while j < v.len() && !is_whitespace(v[j])
        invariant
            i <= j <= v.len(),
            token_end(v@, i as int) == token_end(v@, j as int),
        decreases v.len() - j,
    {
        j += 1;
    }
    sub_chars(v, i, j)
}

// ─── Ordering text ───────────────────────────────────────────────────────────
//
// Text is ordered character by character, a proper prefix first. UTF-8 keeps
// code-point order, so this is also the order of the bytes.

/// `a` sorts before `b`.
pub open spec fn text_lt(a: Seq<char>, b: Seq<char>) -> bool
    decreases a.len(),
{
    if a.len() == 0 {
        b.len() > 0
    } else if b.len() == 0 {
        false
    } else if a[0] < b[0] {
        true
    } else if a[0] > b[0] {
        false
    } else {
        text_lt(a.drop_first(), b.drop_first())
    }
}

pub proof fn lemma_text_lt_irreflexive(a: Seq<char>)
    ensures
        !text_lt(a, a),
    decreases a.len(),
{
    if a.len() > 0 {
        lemma_text_lt_irreflexive(a.drop_first());
    }
}

pub proof fn lemma_text_lt_transitive(a: Seq<char>, b: Seq<char>, c: Seq<char>)
    requires
        text_lt(a, b),
        text_lt(b, c),
    ensures
        text_lt(a, c),
    decreases a.len(),
{
    if a.len() > 0 && b.len() > 0 && c.len() > 0 {
        if a[0] == b[0] && b[0] == c[0] {
            lemma_text_lt_transitive(a.drop_first(), b.drop_first(), c.drop_first());
        }
    }
}

pub proof fn lemma_text_lt_total(a: Seq<char>, b: Seq<char>)
    ensures
        a == b || text_lt(a, b) || text_lt(b, a),
    decreases a.len(),
{
    if a.len() > 0 && b.len() > 0 && a[0] == b[0] {
        lemma_text_lt_total(a.drop_first(), b.drop_first());
        if a.drop_first() == b.drop_first() {
            assert(a =~= seq![a[0]] + a.drop_first());
            assert(b =~= seq![b[0]] + b.drop_first());
        }
    } else if a.len() == 0 && b.len() == 0 {
        assert(a =~= b);
    }
}

pub proof fn lemma_text_lt_asymmetric(a: Seq<char>, b: Seq<char>)
    requires
        text_lt(a, b),
    ensures
        !text_lt(b, a),
{
    if text_lt(b, a) {
        lemma_text_lt_transitive(a, b, a);
        lemma_text_lt_irreflexive(a);
    }
}

/// Whether `a` sorts before `b`.
pub fn text_less(a: &[char], b: &[char]) -> (r: bool)
    ensures
        r == text_lt(a@, b@),
{
    let mut i: usize = 0;
    assert(a@.subrange(0, a.len() as int) =~= a@);
    assert(b@.subrange(0, b.len() as int) =~= b@);
    while i < a.len() && i < b.len() && a[i] == b[i]
        invariant
            i <= a.len(),
            i <= b.len(),
            text_lt(a@, b@) == text_lt(a@.subrange(i as int, a.len() as int), b@.subrange(
                i as int,
                b.len() as int,
            )),
        decreases a.len() - i,
    {
        proof {
            let sa = a@.subrange(i as int, a.len() as int);
            let sb = b@.subrange(i as int, b.len() as int);
            assert(sa.drop_first() =~= a@.subrange(i + 1, a.len() as int));
            assert(sb.drop_first() =~= b@.subrange(i + 1, b.len() as int));
        }
        i += 1;
    }
    proof {
        let sa = a@.subrange(i as int, a.len() as int);
        let sb = b@.subrange(i as int, b.len() as int);
        if i < a.len() && i < b.len() {
            assert(sa[0] == a@[i as int]);
            assert(sb[0] == b@[i as int]);
        }
    }
    if i == a.len() {
        i < b.len()
    } else if i == b.len() {
        false
    } else {
        a[i] < b[i]
    }
}

/// `s` is in strictly increasing order.
pub open spec fn sorted_strictly(s: Seq<Seq<char>>) -> bool {
    forall|i: int, j: int| 0 <= i < j < s.len() ==> text_lt(#[trigger] s[i], #[trigger] s[j])
}

/// Two strictly sorted sequences with the same elements are the same.
pub proof fn lemma_sorted_unique(a: Seq<Seq<char>>, b: Seq<Seq<char>>)
    requires
        sorted_strictly(a),
        sorted_strictly(b),
        a.to_set() == b.to_set(),
    ensures
        a == b,
    decreases a.len(),
{
    if a.len() == 0 {
        if b.len() > 0 {
            assert(b.to_set().contains(b[0]));
        }
        assert(a =~= b);
    } else {
        assert(a.to_set().contains(a[0]));
        if b.len() == 0 {
            assert(false);
        }
        assert(b.to_set().contains(b[0]));
        let ia = choose|k: int| 0 <= k < a.len() && a[k] == b[0];
        let ib = choose|k: int| 0 <= k < b.len() && b[k] == a[0];
        if ia > 0 {
            // b[0] = a[ia] is after a[0]; a[0] = b[ib] is after or at b[0].
            assert(text_lt(a[0], a[ia]));
            if ib > 0 {
                assert(text_lt(b[0], b[ib]));
                lemma_text_lt_asymmetric(a[0], b[0]);
            } else {
                lemma_text_lt_irreflexive(a[0]);
            }
        }
        assert(a[0] == b[0]) by {
            if ia > 0 {
            } else {
            }
        }
        let ta = a.drop_first();
        let tb = b.drop_first();
        assert(sorted_strictly(ta));
        assert(sorted_strictly(tb));
        assert forall|x: Seq<char>| ta.to_set().contains(x) implies tb.to_set().contains(x) by {
            let k = choose|k: int| 0 <= k < ta.len() && ta[k] == x;
            assert(a[k + 1] == x);
            assert(a.to_set().contains(x));
            let m = choose|m: int| 0 <= m < b.len() && b[m] == x;
            assert(text_lt(a[0], a[k + 1]));
            if m == 0 {
                lemma_text_lt_irreflexive(a[0]);
            }
            assert(tb[m - 1] == x);
        }
        assert forall|x: Seq<char>| tb.to_set().contains(x) implies ta.to_set().contains(x) by {
            let k = choose|k: int| 0 <= k < tb.len() && tb[k] == x;
            assert(b[k + 1] == x);
            assert(b.to_set().contains(x));
            let m = choose|m: int| 0 <= m < a.len() && a[m] == x;
            assert(text_lt(b[0], b[k + 1]));
            if m == 0 {
                lemma_text_lt_irreflexive(b[0]);
            }
            assert(ta[m - 1] == x);
        }
        assert(ta.to_set() =~= tb.to_set());
        lemma_sorted_unique(ta, tb);
        assert(a =~= seq![a[0]] + ta);
        assert(b =~= seq![b[0]] + tb);
    }
}

pub open spec fn texts_of(v: Seq<String>) -> Seq<Seq<char>> {
    v.map_values(|s: String| s@)
}

/// Inserts `x` into the strictly sorted `v`, unless it is already there.
pub fn insert_sorted(v: &mut Vec<String>, x: String)
    requires
        sorted_strictly(texts_of(old(v)@)),
    ensures
        sorted_strictly(texts_of(final(v)@)),
        texts_of(final(v)@).to_set() == texts_of(old(v)@).to_set().insert(x@),
{
    let xs = str_chars(x.as_str());
    let mut i: usize = 0;
    while i < v.len() && text_less(str_chars(v[i].as_str()).as_slice(), xs.as_slice())
        invariant
            i <= v.len(),
            xs@ == x@,
            v@ == old(v)@,
            sorted_strictly(texts_of(v@)),
            forall|k: int| 0 <= k < i ==> text_lt(#[trigger] texts_of(v@)[k], x@),
        decreases v.len() - i,
    {
        i += 1;
    }
    let ghost t = texts_of(v@);
    if i < v.len() && chars_eq(str_chars(v[i].as_str()).as_slice(), xs.as_slice()) {
        assert(t.to_set().insert(x@) =~= t.to_set()) by {
            assert(t[i as int] == x@);
        }
        return;
    }
    proof {
        if i < v.len() {
            lemma_text_lt_total(t[i as int], x@);
        }
    }
    v.insert(i, x);
    proof {
        let n = texts_of(v@);
        assert(n =~= t.subrange(0, i as int).push(x@) + t.subrange(i as int, t.len() as int));
        assert forall|a: int, b: int| 0 <= a < b < n.len() implies text_lt(
            #[trigger] n[a],
            #[trigger] n[b],
        ) by {
            if b < i {
                assert(n[a] == t[a] && n[b] == t[b]);
            } else if b == i {
                assert(n[a] == t[a]);
            } else if a < i {
                assert(n[a] == t[a] && n[b] == t[b - 1]);
                lemma_text_lt_transitive(t[a], x@, t[i as int]);
                if b - 1 > i {
                    lemma_text_lt_transitive(t[a], t[i as int], t[b - 1]);
                }
            } else if a == i {
                assert(n[b] == t[b - 1]);
                if b - 1 > i {
                    lemma_text_lt_transitive(x@, t[i as int], t[b - 1]);
                }
            } else {
                assert(n[a] == t[a - 1] && n[b] == t[b - 1]);
            }
        }
        assert forall|y: Seq<char>| n.to_set().contains(y) <==> t.to_set().insert(x@).contains(
            y,
        ) by {
            if n.to_set().contains(y) {
                let k = choose|k: int| 0 <= k < n.len() && n[k] == y;
                if k < i {
                    assert(t[k] == y);
                } else if k > i {
                    assert(t[k - 1] == y);
                }
            }
            if t.to_set().contains(y) {
                let k = choose|k: int| 0 <= k < t.len() && t[k] == y;
                if k < i {
                    assert(n[k] == y);
                } else {
                    assert(n[k + 1] == y);
                }
            }
            if y == x@ {
                assert(n[i as int] == y);
            }
        }
        assert(n.to_set() =~= t.to_set().insert(x@));
    }
}

pub proof fn lemma_decimal_len(n: nat)
    ensures
        decimal(n).len() >= 1,
        n >= 10 ==> decimal(n).len() >= 2,
    decreases n,
{
    if n >= 10 {
        lemma_decimal_len(n / 10);
    }
}

/// Different numbers have different decimal forms.
pub proof fn lemma_decimal_injective(a: nat, b: nat)
    ensures
        decimal(a) == decimal(b) ==> a == b,
    decreases a,
{
    if decimal(a) == decimal(b) {
        lemma_decimal_len(a);
        lemma_decimal_len(b);
        if a < 10 && b < 10 {
            assert(decimal(a)[0] == decimal(b)[0]);
        } else if a >= 10 && b >= 10 {
            let da = decimal(a);
            let db = decimal(b);
            assert(da.last() == db.last());
            assert(da.drop_last() =~= decimal(a / 10));
            assert(db.drop_last() =~= decimal(b / 10));
            lemma_decimal_injective(a / 10, b / 10);
            assert(a % 10 == b % 10);
        } else {
            assert(decimal(a).len() != decimal(b).len());
        }
    }
}

/// `x` stands somewhere in `s`.
pub open spec fn holds_text(s: Seq<char>, x: Seq<char>) -> bool {
    exists|a: int, z: int| 0 <= a <= z <= s.len() && z == a + x.len() && #[trigger] s.subrange(a, z) == x
}

pub proof fn lemma_holds_left(s: Seq<char>, t: Seq<char>, x: Seq<char>)
    requires
        holds_text(s, x),
    ensures
        holds_text(s + t, x),
{
    let (a, z) = choose|a: int, z: int| 0 <= a <= z <= s.len() && z == a + x.len() && #[trigger] s.subrange(a, z) == x;
    assert((s + t).subrange(a, z) =~= s.subrange(a, z));
}

pub proof fn lemma_holds_right(s: Seq<char>, t: Seq<char>, x: Seq<char>)
    requires
        holds_text(t, x),
    ensures
        holds_text(s + t, x),
{
    let (a, z) = choose|a: int, z: int| 0 <= a <= z <= t.len() && z == a + x.len() && #[trigger] t.subrange(a, z) == x;
    assert((s + t).subrange(s.len() + a, s.len() + z) =~= t.subrange(a, z));
}

pub proof fn lemma_holds_itself(s: Seq<char>)
    ensures
        holds_text(s, s),
{
    assert(s.subrange(0, s.len() as int) =~= s);
}

pub proof fn lemma_holds_trans(s: Seq<char>, y: Seq<char>, x: Seq<char>)
    requires
        holds_text(s, y),
        holds_text(y, x),
    ensures
        holds_text(s, x),
{
    let (a, z) = choose|a: int, z: int| 0 <= a <= z <= s.len() && z == a + y.len() && #[trigger] s.subrange(a, z) == y;
    let (b, w) = choose|b: int, w: int| 0 <= b <= w <= y.len() && w == b + x.len() && #[trigger] y.subrange(b, w) == x;
    assert(s.subrange(a + b, a + w) =~= y.subrange(b, w));
}

} // verus!
