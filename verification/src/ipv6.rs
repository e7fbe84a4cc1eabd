//! IPv6 address text: reading the colon-hexadecimal form (with `::`
//! compression and an embedded dotted-quad tail) and writing the canonical
//! RFC 5952 form.
//!
//! The reading follows the standard library's address parser: groups of one
//! to four hex digits, at most one `::` standing for at least one zero group,
//! and a trailing dotted quad only where two groups are left for it. Octets of
//! a dotted quad take one to three decimal digits, without a leading zero.

use vstd::prelude::*;

use crate::text::push_str;

verus! {

// ─── Digits ──────────────────────────────────────────────────────────────────

pub open spec fn is_hex_digit(c: char) -> bool {
    ('0' <= c && c <= '9') || ('a' <= c && c <= 'f') || ('A' <= c && c <= 'F')
}

pub open spec fn hex_digit_value(c: char) -> nat {
    if '0' <= c && c <= '9' {
        ((c as u32) - 48) as nat
    } else if 'a' <= c && c <= 'f' {
        ((c as u32) - 87) as nat
    } else {
        ((c as u32) - 55) as nat
    }
}

pub open spec fn is_dec_digit(c: char) -> bool {
    '0' <= c && c <= '9'
}

/// Index just past the run of hex digits of `s` that starts at `p`.
pub open spec fn hex_run_end(s: Seq<char>, p: int) -> int
    decreases s.len() - p,
{
    if 0 <= p < s.len() && is_hex_digit(s[p]) {
        hex_run_end(s, p + 1)
    } else {
        p
    }
}

/// Index just past the run of decimal digits of `s` that starts at `p`.
pub open spec fn dec_run_end(s: Seq<char>, p: int) -> int
    decreases s.len() - p,
{
    if 0 <= p < s.len() && is_dec_digit(s[p]) {
        dec_run_end(s, p + 1)
    } else {
        p
    }
}

/// The value of the digits `s[p..e]` in `radix`.
pub open spec fn run_value(s: Seq<char>, p: int, e: int, radix: nat) -> nat
    decreases e - p,
{
    if e <= p {
        0
    } else {
        run_value(s, p, e - 1, radix) * radix + hex_digit_value(s[e - 1])
    }
}

pub proof fn lemma_run_ends(s: Seq<char>, p: int)
    requires
        0 <= p <= s.len(),
    ensures
        p <= hex_run_end(s, p) <= s.len(),
        p <= dec_run_end(s, p) <= s.len(),
        forall|k: int| p <= k < hex_run_end(s, p) ==> is_hex_digit(#[trigger] s[k]),
        forall|k: int| p <= k < dec_run_end(s, p) ==> is_dec_digit(#[trigger] s[k]),
    decreases s.len() - p,
{
    if p < s.len() {
        lemma_run_ends(s, p + 1);
    }
}

/// A group: one to four hex digits, and the position after them.
pub open spec fn hex_group(s: Seq<char>, p: int) -> Option<(nat, int)> {
    let e = hex_run_end(s, p);
    if p < e && e - p <= 4 {
        Some((run_value(s, p, e, 16), e))
    } else {
        None
    }
}

/// An octet of a dotted quad: one to three decimal digits, no leading zero,
/// at most 255.
pub open spec fn dec_octet(s: Seq<char>, p: int) -> Option<(nat, int)> {
    let e = dec_run_end(s, p);
    if p < e && e - p <= 3 && !(s[p] == '0' && e - p > 1) && run_value(s, p, e, 10) <= 255 {
        Some((run_value(s, p, e, 10), e))
    } else {
        None
    }
}

/// `c` at position `p`, and the position after it.
pub open spec fn char_at(s: Seq<char>, p: int, c: char) -> Option<int> {
    if 0 <= p < s.len() && s[p] == c {
        Some(p + 1)
    } else {
        None
    }
}

/// A dotted quad as two 16-bit groups, and the position after it.
pub open spec fn dotted_quad(s: Seq<char>, p: int) -> Option<(nat, nat, int)> {
    match dec_octet(s, p) {
        None => None,
        Some((a, p1)) => match char_at(s, p1, '.') {
            None => None,
            Some(p2) => match dec_octet(s, p2) {
                None => None,
                Some((b, p3)) => match char_at(s, p3, '.') {
                    None => None,
                    Some(p4) => match dec_octet(s, p4) {
                        None => None,
                        Some((c, p5)) => match char_at(s, p5, '.') {
                            None => None,
                            Some(p6) => match dec_octet(s, p6) {
                                None => None,
                                Some((d, p7)) => Some((a * 256 + b, c * 256 + d, p7)),
                            },
                        },
                    },
                },
            },
        },
    }
}

/// Reads the groups of one side of a `::`, from the `i`th group of at most
/// `limit`: each group after the first follows a `:`; where two groups are
/// left a dotted quad may stand for them and ends the side. Returns the
/// groups, the position after them, and whether a dotted quad ended them.
pub open spec fn read_groups(s: Seq<char>, p: int, i: nat, limit: nat) -> (Seq<nat>, int, bool)
    decreases limit - i,
{
    if i >= limit {
        (Seq::empty(), p, false)
    } else {
        let start = if i > 0 {
            char_at(s, p, ':')
        } else {
            Some(p)
        };
        match start {
            None => (Seq::empty(), p, false),
            Some(q) => if i + 1 < limit && dotted_quad(s, q) is Some {
                let (hi, lo, e) = dotted_quad(s, q)->Some_0;
                (seq![hi, lo], e, true)
            } else {
                match hex_group(s, q) {
                    None => (Seq::empty(), p, false),
                    Some((g, e)) => {
                        let (rest, end, quad) = read_groups(s, e, i + 1, limit);
                        (seq![g] + rest, end, quad)
                    },
                }
            },
        }
    }
}

/// The eight groups `s` denotes as a whole, or `None` when it is not an IPv6
/// address.
pub open spec fn parse_ipv6(s: Seq<char>) -> Option<Seq<nat>> {
    let (head, e, quad) = read_groups(s, 0, 0, 8);
    if head.len() == 8 {
        if e == s.len() {
            Some(head)
        } else {
            None
        }
    } else if quad {
        None
    } else if e + 2 <= s.len() && s[e] == ':' && s[e + 1] == ':' {
        let (tail, end, _) = read_groups(s, e + 2, 0, (7 - head.len()) as nat);
        if end == s.len() {
            Some(head + Seq::new((8 - head.len() - tail.len()) as nat, |k: int| 0nat) + tail)
        } else {
            None
        }
    } else {
        None
    }
}

// ─── Display ─────────────────────────────────────────────────────────────────

pub open spec fn hex_char(d: nat) -> char {
    if d < 10 {
        (48 + d) as char
    } else {
        (87 + d) as char
    }
}

/// Lowercase hex without leading zeros.
pub open spec fn hex_text(n: nat) -> Seq<char>
    decreases n,
{
    if n < 16 {
        seq![hex_char(n)]
    } else {
        hex_text(n / 16) + seq![hex_char(n % 16)]
    }
}

pub open spec fn dec_text(n: nat) -> Seq<char>
    decreases n,
{
    if n < 10 {
        seq![hex_char(n)]
    } else {
        dec_text(n / 10) + seq![hex_char(n % 10)]
    }
}

/// The groups `g[from..to]` in hex, joined by `:`.
pub open spec fn joined(g: Seq<nat>, from: int, to: int) -> Seq<char>
    decreases to - from,
{
    if to <= from {
        Seq::empty()
    } else if to == from + 1 {
        hex_text(g[from])
    } else {
        joined(g, from, to - 1) + ":"@ + hex_text(g[to - 1])
    }
}

/// The first longest run of zero groups among `g[0..n]`, as (start, length),
/// given the run of zeros that ends at `n`.
pub open spec fn longest_zeros(g: Seq<nat>, n: int) -> (int, int)
    decreases n,
{
    if n <= 0 {
        (0, 0)
    } else {
        let before = longest_zeros(g, n - 1);
        let current = zero_run_ending(g, n);
        if current > before.1 {
            (n - current, current)
        } else {
            before
        }
    }
}

/// The length of the run of zero groups that ends just before `n`.
pub open spec fn zero_run_ending(g: Seq<nat>, n: int) -> int
    decreases n,
{
    if n <= 0 || g[n - 1] != 0 {
        0
    } else {
        zero_run_ending(g, n - 1) + 1
    }
}

/// The canonical text of an address: an IPv4-mapped address keeps its dotted
/// quad; otherwise the first longest run of two or more zero groups becomes
/// `::`.
pub open spec fn ipv6_text(g: Seq<nat>) -> Seq<char> {
    if g[0] == 0 && g[1] == 0 && g[2] == 0 && g[3] == 0 && g[4] == 0 && g[5] == 0xffff {
        "::ffff:"@ + dec_text(g[6] / 256) + "."@ + dec_text(g[6] % 256) + "."@ + dec_text(g[7] / 256)
            + "."@ + dec_text(g[7] % 256)
    } else {
        let (start, len) = longest_zeros(g, 8);
        if len > 1 {
            joined(g, 0, start) + "::"@ + joined(g, start + len, 8)
        } else {
            joined(g, 0, 8)
        }
    }
}

/// The canonical form of the IPv6 address `s`, or `None` when `s` is not one.
pub open spec fn canonical_ipv6(s: Seq<char>) -> Option<Seq<char>> {
    match parse_ipv6(s) {
        Some(g) => Some(ipv6_text(g)),
        None => None,
    }
}

// ─── Reading ─────────────────────────────────────────────────────────────────

fn hex_digit(c: char) -> (r: bool)
    ensures
        r == is_hex_digit(c),
{
    ('0' <= c && c <= '9') || ('a' <= c && c <= 'f') || ('A' <= c && c <= 'F')
}

fn digit_value(c: char) -> (r: u32)
    requires
        is_hex_digit(c),
    ensures
        r == hex_digit_value(c),
        r < 16,
{
    if '0' <= c && c <= '9' {
        c as u32 - 48
    } else if 'a' <= c && c <= 'f' {
        c as u32 - 87
    } else {
        c as u32 - 55
    }
}

proof fn lemma_run_value_bound(s: Seq<char>, p: int, e: int, radix: nat)
    requires
        p <= e,
        radix == 10 || radix == 16,
        forall|k: int| p <= k < e ==> hex_digit_value(#[trigger] s[k]) < radix,
    ensures
        run_value(s, p, e, radix) < vstd::arithmetic::power::pow(radix as int, (e - p) as nat),
    decreases e - p,
{
    reveal(vstd::arithmetic::power::pow);
    if e > p {
        lemma_run_value_bound(s, p, e - 1, radix);
        let v = run_value(s, p, e - 1, radix);
        let b = vstd::arithmetic::power::pow(radix as int, (e - 1 - p) as nat);
        assert(vstd::arithmetic::power::pow(radix as int, (e - p) as nat) == radix * b);
        assert(v * radix + hex_digit_value(s[e - 1]) < radix * b) by (nonlinear_arith)
            requires
                v < b,
                hex_digit_value(s[e - 1]) < radix,
                radix > 0,
        ;
    }
}

/// Reads the run of digits in `radix` that starts at `p`, giving its end and
/// value when it is at most `max_len` long.
fn read_run(s: &[char], p: usize, radix: u32, max_len: usize) -> (r: (usize, Option<u32>))
    requires
        p <= s.len(),
        radix == 10 || radix == 16,
        1 <= max_len <= 4,
    ensures
        r.0 == (if radix == 16 {
            hex_run_end(s@, p as int)
        } else {
            dec_run_end(s@, p as int)
        }),
        match r.1 {
            Some(v) => r.0 - p <= max_len && v == run_value(s@, p as int, r.0 as int, radix as nat),
            None => r.0 - p > max_len,
        },
{
    proof {
        lemma_run_ends(s@, p as int);
    }
    let mut e = p;
    while e < s.len() && ((radix == 16 && hex_digit(s[e])) || (radix == 10 && '0' <= s[e]
        && s[e] <= '9'))
        invariant
            p <= e <= s.len(),
            radix == 16 ==> hex_run_end(s@, p as int) == hex_run_end(s@, e as int),
            radix == 10 ==> dec_run_end(s@, p as int) == dec_run_end(s@, e as int),
        decreases s.len() - e,
    {
        e += 1;
    }
    if e - p > max_len {
        return (e, None);
    }
    let mut v: u32 = 0;
    let mut k = p;
    proof {
        vstd::arithmetic::power::lemma_pow0(radix as int);
    }
    while k < e
        invariant
            p <= k <= e <= s.len(),
            e - p <= max_len <= 4,
            radix == 10 || radix == 16,
            radix == 16 ==> e == hex_run_end(s@, p as int),
            radix == 10 ==> e == dec_run_end(s@, p as int),
            forall|j: int| p <= j < e ==> is_hex_digit(#[trigger] s@[j]) && (radix == 10
                ==> is_dec_digit(s@[j])),
            v == run_value(s@, p as int, k as int, radix as nat),
            v < vstd::arithmetic::power::pow(radix as int, (k - p) as nat),
        decreases e - k,
    {
        let d = digit_value(s[k]);
        proof {
            lemma_run_value_bound(s@, p as int, k + 1, radix as nat);
            vstd::arithmetic::power::lemma_pow_increases(radix as nat, (k + 1 - p) as nat, 4);
            assert(vstd::arithmetic::power::pow(radix as int, 4) <= 65536) by {
                reveal_with_fuel(vstd::arithmetic::power::pow, 5);
            }
        }
        v = v * radix + d;
        k += 1;
    }
    (e, Some(v))
}

proof fn lemma_run_digits(s: Seq<char>, p: int)
    requires
        0 <= p <= s.len(),
    ensures
        forall|k: int| p <= k < dec_run_end(s, p) ==> is_hex_digit(#[trigger] s[k]) && is_dec_digit(
            s[k],
        ) && hex_digit_value(s[k]) < 10,
        forall|k: int| p <= k < hex_run_end(s, p) ==> is_hex_digit(#[trigger] s[k])
            && hex_digit_value(s[k]) < 16,
{
    lemma_run_ends(s, p);
}

fn read_hex_group(s: &[char], p: usize) -> (r: Option<(u32, usize)>)
    requires
        p <= s.len(),
    ensures
        match r {
            Some((g, e)) => hex_group(s@, p as int) == Some((g as nat, e as int)) && g < 65536 && e
                <= s.len(),
            None => hex_group(s@, p as int) is None,
        },
{
    proof {
        lemma_run_digits(s@, p as int);
    }
    let (e, v) = read_run(s, p, 16, 4);
    match v {
        Some(v) => if e > p {
            proof {
                lemma_run_value_bound(s@, p as int, e as int, 16);
                vstd::arithmetic::power::lemma_pow_increases(16, (e - p) as nat, 4);
                assert(vstd::arithmetic::power::pow(16, 4) == 65536) by {
                    reveal_with_fuel(vstd::arithmetic::power::pow, 5);
                }
                lemma_run_ends(s@, p as int);
            }
            Some((v, e))
        } else {
            None
        },
        None => None,
    }
}

fn read_dec_octet(s: &[char], p: usize) -> (r: Option<(u32, usize)>)
    requires
        p <= s.len(),
    ensures
        match r {
            Some((v, e)) => dec_octet(s@, p as int) == Some((v as nat, e as int)) && v < 256 && e
                <= s.len(),
            None => dec_octet(s@, p as int) is None,
        },
{
    proof {
        lemma_run_digits(s@, p as int);
        lemma_run_ends(s@, p as int);
    }
    let (e, v) = read_run(s, p, 10, 3);
    match v {
        Some(v) => if e > p && !(s[p] == '0' && e - p > 1) && v <= 255 {
            Some((v, e))
        } else {
            None
        },
        None => None,
    }
}

fn read_char(s: &[char], p: usize, c: char) -> (r: Option<usize>)
    requires
        p <= s.len(),
    ensures
        match r {
            Some(q) => char_at(s@, p as int, c) == Some(q as int) && q <= s.len(),
            None => char_at(s@, p as int, c) is None,
        },
{
    if p < s.len() && s[p] == c {
        Some(p + 1)
    } else {
        None
    }
}

fn read_dotted_quad(s: &[char], p: usize) -> (r: Option<(u32, u32, usize)>)
    requires
        p <= s.len(),
    ensures
        match r {
            Some((hi, lo, e)) => dotted_quad(s@, p as int) == Some(
                (hi as nat, lo as nat, e as int),
            ) && hi < 65536 && lo < 65536 && e <= s.len(),
            None => dotted_quad(s@, p as int) is None,
        },
{
    let (a, p1) = match read_dec_octet(s, p) {
        Some(x) => x,
        None => return None,
    };
    let p2 = match read_char(s, p1, '.') {
        Some(x) => x,
        None => return None,
    };
    let (b, p3) = match read_dec_octet(s, p2) {
        Some(x) => x,
        None => return None,
    };
    let p4 = match read_char(s, p3, '.') {
        Some(x) => x,
        None => return None,
    };
    let (c, p5) = match read_dec_octet(s, p4) {
        Some(x) => x,
        None => return None,
    };
    let p6 = match read_char(s, p5, '.') {
        Some(x) => x,
        None => return None,
    };
    let (d, p7) = match read_dec_octet(s, p6) {
        Some(x) => x,
        None => return None,
    };
    Some((a * 256 + b, c * 256 + d, p7))
}

fn read_groups_exec(s: &[char], p: usize, i: usize, limit: usize) -> (r: (Vec<u32>, usize, bool))
    requires
        p <= s.len(),
        limit <= 8,
    ensures
        (r.0@.map_values(|g: u32| g as nat), r.1 as int, r.2) == read_groups(
            s@,
            p as int,
            i as nat,
            limit as nat,
        ),
        r.1 <= s.len(),
        forall|k: int| 0 <= k < r.0@.len() ==> #[trigger] r.0@[k] < 65536,
    decreases limit - i,
{
    if i >= limit {
        let v: Vec<u32> = Vec::new();
        assert(v@.map_values(|g: u32| g as nat) =~= Seq::<nat>::empty());
        return (v, p, false);
    }
    let q = if i > 0 {
        read_char(s, p, ':')
    } else {
        Some(p)
    };
    match q {
        None => {
            let v: Vec<u32> = Vec::new();
            assert(v@.map_values(|g: u32| g as nat) =~= Seq::<nat>::empty());
            (v, p, false)
        },
        Some(q) => {
            if i + 1 < limit {
                if let Some((hi, lo, e)) = read_dotted_quad(s, q) {
                    let mut v: Vec<u32> = Vec::new();
                    v.push(hi);
                    v.push(lo);
                    assert(v@.map_values(|g: u32| g as nat) =~= seq![hi as nat, lo as nat]);
                    return (v, e, true);
                }
            }
            match read_hex_group(s, q) {
                None => {
                    let v: Vec<u32> = Vec::new();
                    assert(v@.map_values(|g: u32| g as nat) =~= Seq::<nat>::empty());
                    (v, p, false)
                },
                Some((g, e)) => {
                    let (rest, end, quad) = read_groups_exec(s, e, i + 1, limit);
                    let mut v: Vec<u32> = Vec::new();
                    v.push(g);
                    let mut k: usize = 0;
                    while k < rest.len()
                        invariant
                            k <= rest.len(),
                            v@ == seq![g] + rest@.subrange(0, k as int),
                        decreases rest.len() - k,
                    {
                        v.push(rest[k]);
                        k += 1;
                        assert(v@ =~= seq![g] + rest@.subrange(0, k as int));
                    }
                    assert(rest@.subrange(0, rest.len() as int) =~= rest@);
                    assert(v@.map_values(|x: u32| x as nat) =~= seq![g as nat] + rest@.map_values(
                        |x: u32| x as nat,
                    ));
                    (v, end, quad)
                },
            }
        },
    }
}

proof fn lemma_read_groups_len(s: Seq<char>, p: int, i: nat, limit: nat)
    requires
        i <= limit,
    ensures
        read_groups(s, p, i, limit).0.len() <= limit - i,
    decreases limit - i,
{
    if i < limit {
        let start = if i > 0 {
            char_at(s, p, ':')
        } else {
            Some(p)
        };
        if let Some(q) = start {
            if !(i + 1 < limit && dotted_quad(s, q) is Some) {
                if let Some((g, e)) = hex_group(s, q) {
                    lemma_read_groups_len(s, e, i + 1, limit);
                }
            }
        }
    }
}

/// The eight groups of the IPv6 address `s`, or `None` when it is not one.
pub fn read_ipv6(s: &[char]) -> (r: Option<Vec<u32>>)
    ensures
        match r {
            Some(g) => parse_ipv6(s@) == Some(g@.map_values(|x: u32| x as nat)) && g.len() == 8
                && forall|k: int| 0 <= k < 8 ==> #[trigger] g@[k] < 65536,
            None => parse_ipv6(s@) is None,
        },
{
    let (head, e, quad) = read_groups_exec(s, 0, 0, 8);
    proof {
        lemma_read_groups_len(s@, 0, 0, 8);
    }
    if head.len() == 8 {
        if e == s.len() {
            return Some(head);
        }
        return None;
    }
    if quad {
        return None;
    }
    if !(e < s.len() && s.len() - e >= 2 && s[e] == ':' && s[e + 1] == ':') {
        return None;
    }
    let limit = 7 - head.len();
    let (tail, end, _) = read_groups_exec(s, e + 2, 0, limit);
    proof {
        lemma_read_groups_len(s@, e + 2, 0, limit as nat);
    }
    if end != s.len() {
        return None;
    }
    let zeros = 8 - head.len() - tail.len();
    let mut g: Vec<u32> = Vec::new();
    let mut k: usize = 0;
    while k < head.len()
        invariant
            k <= head.len(),
            g@ == head@.subrange(0, k as int),
        decreases head.len() - k,
    {
        g.push(head[k]);
        k += 1;
        assert(g@ =~= head@.subrange(0, k as int));
    }
    let mut z: usize = 0;
    while z < zeros
        invariant
            z <= zeros,
            g@ == head@ + Seq::new(z as nat, |j: int| 0u32),
        decreases zeros - z,
    {
        g.push(0);
        z += 1;
        assert(g@ =~= head@ + Seq::new(z as nat, |j: int| 0u32));
    }
    let mut t: usize = 0;
    while t < tail.len()
        invariant
            t <= tail.len(),
            g@ == head@ + Seq::new(zeros as nat, |j: int| 0u32) + tail@.subrange(0, t as int),
        decreases tail.len() - t,
    {
        g.push(tail[t]);
        t += 1;
        assert(g@ =~= head@ + Seq::new(zeros as nat, |j: int| 0u32) + tail@.subrange(0, t as int));
    }
    assert(tail@.subrange(0, tail.len() as int) =~= tail@);
    assert(g@.map_values(|x: u32| x as nat) =~= head@.map_values(|x: u32| x as nat) + Seq::new(
        (8 - head.len() - tail.len()) as nat,
        |j: int| 0nat,
    ) + tail@.map_values(|x: u32| x as nat));
    Some(g)
}

// ─── Writing ─────────────────────────────────────────────────────────────────

fn hex_char_of(d: u32) -> (r: char)
    requires
        d < 16,
    ensures
        r == hex_char(d as nat),
{
    let n: u8 = if d < 10 {
        48 + d as u8
    } else {
        87 + d as u8
    };
    n as char
}

fn push_hex(out: &mut Vec<char>, n: u32)
    ensures
        final(out)@ == old(out)@ + hex_text(n as nat),
    decreases n,
{
    if n < 16 {
        out.push(hex_char_of(n));
    } else {
        push_hex(out, n / 16);
        out.push(hex_char_of(n % 16));
    }
}

fn push_dec(out: &mut Vec<char>, n: u32)
    ensures
        final(out)@ == old(out)@ + dec_text(n as nat),
    decreases n,
{
    if n < 10 {
        out.push(hex_char_of(n));
    } else {
        push_dec(out, n / 10);
        out.push(hex_char_of(n % 10));
    }
}

fn push_joined(out: &mut Vec<char>, g: &Vec<u32>, from: usize, to: usize)
    requires
        from <= to <= g.len(),
    ensures
        final(out)@ == old(out)@ + joined(g@.map_values(|x: u32| x as nat), from as int, to as int),
{
    let ghost gs = g@.map_values(|x: u32| x as nat);
    let mut k = from;
    while k < to
        invariant
            from <= k <= to <= g.len(),
            gs == g@.map_values(|x: u32| x as nat),
            out@ == old(out)@ + joined(gs, from as int, k as int),
        decreases to - k,
    {
        if k > from {
            out.push(':');
        }
        push_hex(out, g[k]);
        k += 1;
        proof {
            if k - 1 > from {
                reveal_strlit(":");
                assert(out@ =~= old(out)@ + joined(gs, from as int, k as int));
            } else {
                assert(out@ =~= old(out)@ + joined(gs, from as int, k as int));
            }
        }
    }
}

/// The canonical text of the eight groups `g`.
fn write_ipv6(g: &Vec<u32>) -> (r: Vec<char>)
    requires
        g.len() == 8,
        forall|k: int| 0 <= k < 8 ==> #[trigger] g@[k] < 65536,
    ensures
        r@ == ipv6_text(g@.map_values(|x: u32| x as nat)),
{
    let ghost gs = g@.map_values(|x: u32| x as nat);
    let mut out: Vec<char> = Vec::new();
    if g[0] == 0 && g[1] == 0 && g[2] == 0 && g[3] == 0 && g[4] == 0 && g[5] == 0xffff {
        push_str(&mut out, "::ffff:");
        push_dec(&mut out, g[6] / 256);
        out.push('.');
        push_dec(&mut out, g[6] % 256);
        out.push('.');
        push_dec(&mut out, g[7] / 256);
        out.push('.');
        push_dec(&mut out, g[7] % 256);
        proof {
            reveal_strlit("::ffff:");
            reveal_strlit(".");
        }
        assert(out@ =~= ipv6_text(gs));
        return out;
    }
    // The first longest run of zero groups.
    let mut best_start: usize = 0;
    let mut best_len: usize = 0;
    let mut current: usize = 0;
    let mut i: usize = 0;
    while i < 8
        invariant
            i <= 8,
            g.len() == 8,
            gs == g@.map_values(|x: u32| x as nat),
            (best_start as int, best_len as int) == longest_zeros(gs, i as int),
            current as int == zero_run_ending(gs, i as int),
            current <= i,
            best_start + best_len <= i,
        decreases 8 - i,
    {
        if g[i] == 0 {
            current += 1;
        } else {
            current = 0;
        }
        i += 1;
        if current > best_len {
            best_start = i - current;
            best_len = current;
        }
    }
    if best_len > 1 {
        push_joined(&mut out, g, 0, best_start);
        out.push(':');
        out.push(':');
        push_joined(&mut out, g, best_start + best_len, 8);
        proof {
            reveal_strlit("::");
        }
    } else {
        push_joined(&mut out, g, 0, 8);
    }
    assert(out@ =~= ipv6_text(gs));
    out
}

/// The canonical form of the IPv6 address `host`, or `None` when it is not one.
pub fn canonical_ipv6_of(host: &[char]) -> (r: Option<Vec<char>>)
    ensures
        match r {
            Some(t) => canonical_ipv6(host@) == Some(t@),
            None => canonical_ipv6(host@) is None,
        },
{
    match read_ipv6(host) {
        Some(g) => Some(write_ipv6(&g)),
        None => None,
    }
}

} // verus!
