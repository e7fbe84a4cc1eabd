//! `sitemap.xml`: the entries a build lists, their XML, and the documents they
//! are sharded into at the protocol limits.

use vstd::prelude::*;

use crate::config::is_segment;
use crate::site_discovery::{absolute_http_url, normalize_absolute_http_url, res_view, strings_of};
use vstd::string::StringSliceAdditionalSpecFns;
use crate::text::{
    opt_text, ends_with, holds_text, lemma_holds_itself, lemma_holds_left, lemma_holds_right,
    insert_sorted, lemma_sorted_unique, lemma_text_lt_irreflexive, lemma_text_lt_total,
    lemma_text_lt_transitive, sorted_strictly, text_less, text_lt, texts_of,
    ascii_alnum, chars_eq, contains_char, control, digits_value, all_digits, has_char, has_prefix,
    is_ascii_alnum, is_control, push_chars, push_decimal, push_str, starts_with, str_chars,
    string_from_chars, sub_chars, trim, trim_chars, decimal,
};

verus! {

broadcast use vstd::string::group_string_axioms;

// ─── Escaping ────────────────────────────────────────────────────────────────

/// The XML form of one character: the five markup characters become entities.
pub open spec fn xml_char(c: char) -> Seq<char> {
    if c == '&' {
        "&amp;"@
    } else if c == '<' {
        "&lt;"@
    } else if c == '>' {
        "&gt;"@
    } else if c == '"' {
        "&quot;"@
    } else if c == '\'' {
        "&apos;"@
    } else {
        seq![c]
    }
}

/// `s` with every markup character replaced by its entity.
pub open spec fn escaped(s: Seq<char>) -> Seq<char>
    decreases s.len(),
{
    if s.len() == 0 {
        Seq::empty()
    } else {
        escaped(s.drop_last()) + xml_char(s.last())
    }
}

/// Appends `s` escaped for XML text and attribute values.
pub fn push_escaped(out: &mut Vec<char>, s: &str)
    ensures
        final(out)@ == old(out)@ + escaped(s@),
{
    let v = str_chars(s);
    let mut i: usize = 0;
    while i < v.len()
        invariant
            i <= v.len(),
            v@ == s@,
            out@ == old(out)@ + escaped(v@.subrange(0, i as int)),
        decreases v.len() - i,
    {
        let c = v[i];
        if c == '&' {
            push_str(out, "&amp;");
        } else if c == '<' {
            push_str(out, "&lt;");
        } else if c == '>' {
            push_str(out, "&gt;");
        } else if c == '"' {
            push_str(out, "&quot;");
        } else if c == '\'' {
            push_str(out, "&apos;");
        } else {
            out.push(c);
        }
        assert(v@.subrange(0, i + 1).drop_last() =~= v@.subrange(0, i as int));
        i += 1;
        assert(out@ =~= old(out)@ + escaped(v@.subrange(0, i as int)));
    }
    assert(v@.subrange(0, v.len() as int) =~= v@);
}

/// `value` escaped for XML.
pub fn escape_xml(value: &str) -> (r: String)
    ensures
        r@ == escaped(value@),
{
    let mut out: Vec<char> = Vec::new();
    push_escaped(&mut out, value);
    string_from_chars(out.as_slice())
}

/// Escaped text never holds a markup character other than `&`: nothing a
/// value holds can close a tag or an attribute.
pub proof fn law_escaped_text_holds_no_markup(s: Seq<char>)
    ensures
        forall|k: int|
            0 <= k < escaped(s).len() ==> #[trigger] escaped(s)[k] != '<' && escaped(s)[k] != '>'
                && escaped(s)[k] != '"' && escaped(s)[k] != '\'',
    decreases s.len(),
{
    reveal_strlit("&amp;");
    reveal_strlit("&lt;");
    reveal_strlit("&gt;");
    reveal_strlit("&quot;");
    reveal_strlit("&apos;");
    if s.len() > 0 {
        law_escaped_text_holds_no_markup(s.drop_last());
        let head = escaped(s.drop_last());
        let tail = xml_char(s.last());
        assert forall|k: int| 0 <= k < escaped(s).len() implies #[trigger] escaped(s)[k] != '<'
            && escaped(s)[k] != '>' && escaped(s)[k] != '"' && escaped(s)[k] != '\'' by {
            if k < head.len() {
                assert(escaped(s)[k] == head[k]);
            } else {
                assert(escaped(s)[k] == tail[k - head.len()]);
            }
        }
    }
}

/// One of the five entities starts at `k` of `t`.
pub open spec fn entity_at(t: Seq<char>, k: int) -> bool {
    ||| k + 5 <= t.len() && t.subrange(k, k + 5) == "&amp;"@
    ||| k + 4 <= t.len() && t.subrange(k, k + 4) == "&lt;"@
    ||| k + 4 <= t.len() && t.subrange(k, k + 4) == "&gt;"@
    ||| k + 6 <= t.len() && t.subrange(k, k + 6) == "&quot;"@
    ||| k + 6 <= t.len() && t.subrange(k, k + 6) == "&apos;"@
}

/// Every `&` of escaped text begins an entity: no value leaves a bare one.
pub proof fn law_every_ampersand_begins_an_entity(s: Seq<char>)
    ensures
        forall|k: int| 0 <= k < escaped(s).len() && #[trigger] escaped(s)[k] == '&' ==> entity_at(escaped(s), k),
    decreases s.len(),
{
    reveal_strlit("&amp;");
    reveal_strlit("&lt;");
    reveal_strlit("&gt;");
    reveal_strlit("&quot;");
    reveal_strlit("&apos;");
    if s.len() > 0 {
        law_every_ampersand_begins_an_entity(s.drop_last());
        let head = escaped(s.drop_last());
        let tail = xml_char(s.last());
        let t = escaped(s);
        assert(t == head + tail);
        assert forall|k: int| 0 <= k < t.len() && #[trigger] t[k] == '&' implies entity_at(t, k) by {
            if k < head.len() {
                assert(t[k] == head[k]);
                assert(entity_at(head, k));
                if k + 5 <= head.len() && head.subrange(k, k + 5) == "&amp;"@ {
                    assert(t.subrange(k, k + 5) =~= head.subrange(k, k + 5));
                } else if k + 4 <= head.len() && head.subrange(k, k + 4) == "&lt;"@ {
                    assert(t.subrange(k, k + 4) =~= head.subrange(k, k + 4));
                } else if k + 4 <= head.len() && head.subrange(k, k + 4) == "&gt;"@ {
                    assert(t.subrange(k, k + 4) =~= head.subrange(k, k + 4));
                } else if k + 6 <= head.len() && head.subrange(k, k + 6) == "&quot;"@ {
                    assert(t.subrange(k, k + 6) =~= head.subrange(k, k + 6));
                } else {
                    assert(t.subrange(k, k + 6) =~= head.subrange(k, k + 6));
                }
            } else {
                assert(t[k] == tail[k - head.len()]);
                assert(k == head.len());
                assert(t.subrange(k, t.len() as int) =~= tail);
                let c = s.last();
                assert(c == '&' || c == '<' || c == '>' || c == '"' || c == '\'');
                assert(t.subrange(k, t.len() as int) == xml_char(c));
            }
        }
    }
}

/// `t` with each entity read back as the character it stands for, left to
/// right.
pub open spec fn unescaped(t: Seq<char>) -> Seq<char>
    decreases t.len(),
{
    if t.len() == 0 {
        Seq::empty()
    } else if t.len() >= 5 && t.subrange(0, 5) == "&amp;"@ {
        seq!['&'] + unescaped(t.subrange(5, t.len() as int))
    } else if t.len() >= 4 && t.subrange(0, 4) == "&lt;"@ {
        seq!['<'] + unescaped(t.subrange(4, t.len() as int))
    } else if t.len() >= 4 && t.subrange(0, 4) == "&gt;"@ {
        seq!['>'] + unescaped(t.subrange(4, t.len() as int))
    } else if t.len() >= 6 && t.subrange(0, 6) == "&quot;"@ {
        seq!['"'] + unescaped(t.subrange(6, t.len() as int))
    } else if t.len() >= 6 && t.subrange(0, 6) == "&apos;"@ {
        seq!['\''] + unescaped(t.subrange(6, t.len() as int))
    } else {
        seq![t[0]] + unescaped(t.subrange(1, t.len() as int))
    }
}

proof fn lemma_not_entity(t: Seq<char>, entity: Seq<char>, i: int)
    requires
        0 <= i < entity.len(),
        i < t.len() ==> t[i] != entity[i],
    ensures
        !(t.len() >= entity.len() && t.subrange(0, entity.len() as int) == entity),
{
    if t.len() >= entity.len() && t.subrange(0, entity.len() as int) == entity {
        assert(t.subrange(0, entity.len() as int)[i] == t[i]);
    }
}

proof fn lemma_unescape_one(c: char, rest: Seq<char>)
    ensures
        unescaped(xml_char(c) + rest) == seq![c] + unescaped(rest),
{
    reveal_strlit("&amp;");
    reveal_strlit("&lt;");
    reveal_strlit("&gt;");
    reveal_strlit("&quot;");
    reveal_strlit("&apos;");
    let t = xml_char(c) + rest;
    let n = xml_char(c).len() as int;
    assert(t.subrange(0, n) =~= xml_char(c));
    assert(t.subrange(n, t.len() as int) =~= rest);
    assert(t[0] == xml_char(c)[0]);
    if n > 1 {
        assert(t[1] == xml_char(c)[1]);
        assert(t[2] == xml_char(c)[2]);
    }
    if c == '&' {
    } else if c == '<' {
        lemma_not_entity(t, "&amp;"@, 1);
    } else if c == '>' {
        lemma_not_entity(t, "&amp;"@, 1);
        lemma_not_entity(t, "&lt;"@, 1);
    } else if c == '"' {
        lemma_not_entity(t, "&amp;"@, 1);
        lemma_not_entity(t, "&lt;"@, 1);
        lemma_not_entity(t, "&gt;"@, 1);
    } else if c == '\'' {
        lemma_not_entity(t, "&amp;"@, 2);
        lemma_not_entity(t, "&lt;"@, 1);
        lemma_not_entity(t, "&gt;"@, 1);
        lemma_not_entity(t, "&quot;"@, 1);
    } else {
        lemma_not_entity(t, "&amp;"@, 0);
        lemma_not_entity(t, "&lt;"@, 0);
        lemma_not_entity(t, "&gt;"@, 0);
        lemma_not_entity(t, "&quot;"@, 0);
        lemma_not_entity(t, "&apos;"@, 0);
    }
}

proof fn lemma_unescape_prefix(s: Seq<char>, rest: Seq<char>)
    ensures
        unescaped(escaped(s) + rest) == s + unescaped(rest),
    decreases s.len(),
{
    if s.len() == 0 {
        assert(escaped(s) + rest =~= rest);
        assert(s + unescaped(rest) =~= unescaped(rest));
    } else {
        let c = s.last();
        lemma_unescape_prefix(s.drop_last(), xml_char(c) + rest);
        assert(escaped(s) + rest =~= escaped(s.drop_last()) + (xml_char(c) + rest));
        lemma_unescape_one(c, rest);
        assert(s.drop_last() + (seq![c] + unescaped(rest)) =~= s + unescaped(rest));
    }
}

/// Escaping loses nothing: reading the entities back gives the value again,
/// never a doubly escaped one.
pub proof fn law_unescaping_restores_the_value(s: Seq<char>)
    ensures
        unescaped(escaped(s)) == s,
{
    lemma_unescape_prefix(s, Seq::empty());
    assert(escaped(s) + Seq::<char>::empty() =~= escaped(s));
    assert(s + Seq::<char>::empty() =~= s);
}

/// The bytes that stay as they are in a path: letters, digits, `/`, `-`, `.`,
/// `_`, `~`.
pub open spec fn unreserved(b: u8) -> bool {
    b == 47 || (48 <= b <= 57) || (65 <= b <= 90) || (97 <= b <= 122) || b == 45 || b == 46 || b
        == 95 || b == 126
}

pub open spec fn hex_upper(d: nat) -> char {
    if d < 10 {
        (48 + d) as char
    } else {
        (55 + d) as char
    }
}

/// The UTF-8 bytes of a path with every reserved byte written as `%XX`.
pub open spec fn percent_encoded(bytes: Seq<u8>) -> Seq<char>
    decreases bytes.len(),
{
    if bytes.len() == 0 {
        Seq::empty()
    } else {
        percent_encoded(bytes.drop_last()) + percent_unit(bytes.last())
    }
}

/// One byte of a path as it is written: itself when unreserved, else `%XX`.
pub open spec fn percent_unit(b: u8) -> Seq<char> {
    if unreserved(b) {
        seq![b as char]
    } else {
        seq!['%', hex_upper((b / 16) as nat), hex_upper((b % 16) as nat)]
    }
}

fn hex_digit_upper(d: u8) -> (r: char)
    requires
        d < 16,
    ensures
        r == hex_upper(d as nat),
{
    let n: u8 = if d < 10 {
        48 + d
    } else {
        55 + d
    };
    n as char
}

/// Appends the UTF-8 bytes of `path`, percent-encoded.
pub fn push_percent_encoded(out: &mut Vec<char>, path: &str)
    ensures
        final(out)@ == old(out)@ + percent_encoded(path.spec_bytes()),
{
    let bytes = path.as_bytes();
    let mut i: usize = 0;
    while i < bytes.len()
        invariant
            i <= bytes.len(),
            bytes@ == path.spec_bytes(),
            out@ == old(out)@ + percent_encoded(bytes@.subrange(0, i as int)),
        decreases bytes.len() - i,
    {
        let b = bytes[i];
        if b == 47 || (48 <= b && b <= 57) || (65 <= b && b <= 90) || (97 <= b && b <= 122) || b
            == 45 || b == 46 || b == 95 || b == 126 {
            out.push(b as char);
        } else {
            out.push('%');
            out.push(hex_digit_upper(b / 16));
            out.push(hex_digit_upper(b % 16));
        }
        assert(bytes@.subrange(0, i + 1).drop_last() =~= bytes@.subrange(0, i as int));
        i += 1;
        assert(out@ =~= old(out)@ + percent_encoded(bytes@.subrange(0, i as int)));
    }
    assert(bytes@.subrange(0, bytes.len() as int) =~= bytes@);
}

pub fn percent_encode_path(path: &str) -> (r: String)
    ensures
        r@ == percent_encoded(path.spec_bytes()),
{
    let mut out: Vec<char> = Vec::new();
    push_percent_encoded(&mut out, path);
    string_from_chars(out.as_slice())
}

/// The value of an uppercase hexadecimal digit.
pub open spec fn hex_value(c: char) -> int {
    if '0' <= c && c <= '9' {
        c as int - 48
    } else {
        c as int - 55
    }
}

/// `t` with each `%XX` read back as the byte it stands for, left to right.
pub open spec fn percent_decoded(t: Seq<char>) -> Seq<u8>
    decreases t.len(),
{
    if t.len() == 0 {
        Seq::empty()
    } else if t[0] == '%' && t.len() >= 3 {
        seq![(hex_value(t[1]) * 16 + hex_value(t[2])) as u8] + percent_decoded(t.subrange(3, t.len() as int))
    } else {
        seq![t[0] as u8] + percent_decoded(t.subrange(1, t.len() as int))
    }
}

/// The characters a percent-encoded path is made of: unreserved ASCII,
/// `%` and uppercase hexadecimal digits.
pub open spec fn percent_char(c: char) -> bool {
    &&& (c as int) < 128
    &&& unreserved(c as u8) || c == '%'
}

proof fn lemma_percent_one(b: u8, rest: Seq<char>)
    ensures
        percent_decoded(percent_unit(b) + rest) == seq![b] + percent_decoded(rest),
        forall|k: int| 0 <= k < percent_unit(b).len() ==> percent_char(#[trigger] percent_unit(b)[k]),
{
    let t = percent_unit(b) + rest;
    let n = percent_unit(b).len() as int;
    assert(t.subrange(n, t.len() as int) =~= rest);
    if !unreserved(b) {
        assert(t[1] == hex_upper((b / 16) as nat));
        assert(t[2] == hex_upper((b % 16) as nat));
        assert((hex_value(hex_upper((b / 16) as nat)) * 16 + hex_value(hex_upper((b % 16) as nat))) as u8 == b);
    } else {
        assert(t[0] == b as char);
    }
}

proof fn lemma_percent_prefix(bytes: Seq<u8>, rest: Seq<char>)
    ensures
        percent_decoded(percent_encoded(bytes) + rest) == bytes + percent_decoded(rest),
        forall|k: int| 0 <= k < percent_encoded(bytes).len() ==> percent_char(#[trigger] percent_encoded(bytes)[k]),
    decreases bytes.len(),
{
    if bytes.len() == 0 {
        assert(percent_encoded(bytes) + rest =~= rest);
        assert(bytes + percent_decoded(rest) =~= percent_decoded(rest));
    } else {
        let b = bytes.last();
        lemma_percent_prefix(bytes.drop_last(), percent_unit(b) + rest);
        assert(percent_encoded(bytes) =~= percent_encoded(bytes.drop_last()) + percent_unit(b));
        assert(percent_encoded(bytes) + rest =~= percent_encoded(bytes.drop_last()) + (percent_unit(b) + rest));
        lemma_percent_one(b, rest);
        assert(bytes.drop_last() + (seq![b] + percent_decoded(rest)) =~= bytes + percent_decoded(rest));
        let head = percent_encoded(bytes.drop_last());
        assert forall|k: int| 0 <= k < percent_encoded(bytes).len() implies percent_char(
            #[trigger] percent_encoded(bytes)[k],
        ) by {
            if k < head.len() {
                assert(percent_encoded(bytes)[k] == head[k]);
            } else {
                assert(percent_encoded(bytes)[k] == percent_unit(b)[k - head.len()]);
            }
        }
    }
}

/// A percent-encoded path is plain ASCII, made only of unreserved bytes and
/// `%XX` triples, and decoding it gives back exactly the path's bytes.
pub proof fn law_percent_encoding_is_ascii_and_reversible(bytes: Seq<u8>)
    ensures
        forall|k: int| 0 <= k < percent_encoded(bytes).len() ==> percent_char(#[trigger] percent_encoded(bytes)[k]),
        percent_decoded(percent_encoded(bytes)) == bytes,
{
    lemma_percent_prefix(bytes, Seq::empty());
    assert(percent_encoded(bytes) + Seq::<char>::empty() =~= percent_encoded(bytes));
    assert(bytes + Seq::<u8>::empty() =~= bytes);
}

// ─── Checks on values ────────────────────────────────────────────────────────

pub open spec fn no_control(v: Seq<char>) -> bool {
    forall|k: int| 0 <= k < v.len() ==> !is_control(#[trigger] v[k])
}

fn free_of_control(v: &Vec<char>) -> (r: bool)
    ensures
        r == no_control(v@),
{
    let mut i: usize = 0;
    while i < v.len()
        invariant
            i <= v.len(),
            forall|k: int| 0 <= k < i ==> !is_control(#[trigger] v@[k]),
        decreases v.len() - i,
    {
        if control(v[i]) {
            return false;
        }
        i += 1;
    }
    true
}

pub open spec fn unit_view(r: Result<(), String>) -> Result<(), Seq<char>> {
    match r {
        Ok(()) => Ok(()),
        Err(e) => Err(e@),
    }
}

pub open spec fn single_line_check(value: Seq<char>, field: Seq<char>) -> Result<(), Seq<char>> {
    if no_control(value) {
        Ok(())
    } else {
        Err(field + " must not contain control characters"@)
    }
}

fn message2(a: &str, b: &str) -> (r: String)
    ensures
        r@ == a@ + b@,
{
    let mut out = str_chars(a);
    push_str(&mut out, b);
    string_from_chars(out.as_slice())
}

pub fn validate_single_line(value: &str, field: &str) -> (r: Result<(), String>)
    ensures
        unit_view(r) == single_line_check(value@, field@),
{
    if !free_of_control(&str_chars(value)) {
        return Err(message2(field, " must not contain control characters"));
    }
    Ok(())
}

pub open spec fn non_empty_text_check(value: Seq<char>, field: Seq<char>) -> Result<
    (),
    Seq<char>,
> {
    if trim(value).len() == 0 {
        Err(field + " must not be empty"@)
    } else {
        single_line_check(value, field)
    }
}

pub fn validate_non_empty_text(value: &str, field: &str) -> (r: Result<(), String>)
    ensures
        unit_view(r) == non_empty_text_check(value@, field@),
{
    if trim_chars(&str_chars(value)).len() == 0 {
        return Err(message2(field, " must not be empty"));
    }
    validate_single_line(value, field)
}

/// The characters a concrete application path may not hold.
pub open spec fn path_forbidden(c: char) -> bool {
    c == '\\' || c == '?' || c == '#' || c == '[' || c == ']' || is_control(c)
}

/// Some `/`-separated segment of `s` is `.` or `..`.
pub open spec fn has_dot_segment(s: Seq<char>) -> bool {
    exists|i: int, j: int|
        #[trigger] is_segment(s, i, j) && ((j == i + 1 && s[i] == '.') || (j == i + 2 && s[i]
            == '.' && s[i + 1] == '.'))
}

/// A concrete absolute application path: starts with `/`, names no parent or
/// current directory, and holds no query, fragment, route parameter, control
/// character, or backslash.
pub open spec fn application_path_ok(p: Seq<char>) -> bool {
    &&& p.len() > 0
    &&& p[0] == '/'
    &&& forall|k: int| 0 <= k < p.len() ==> !path_forbidden(#[trigger] p[k])
    &&& !has_dot_segment(p)
}

pub open spec fn dot_segment(s: Seq<char>, i: int, j: int) -> bool {
    (j == i + 1 && s[i] == '.') || (j == i + 2 && s[i] == '.' && s[i + 1] == '.')
}

fn dot_segment_in(v: &Vec<char>) -> (r: bool)
    ensures
        r == has_dot_segment(v@),
{
    let mut start: usize = 0;
    let mut i: usize = 0;
    while i < v.len()
        invariant
            start <= i <= v.len(),
            start == 0 || v@[start - 1] == '/',
            forall|k: int| start <= k < i ==> v@[k] != '/',
            forall|a: int, b: int|
                #![trigger is_segment(v@, a, b)]
                is_segment(v@, a, b) && b < start ==> !dot_segment(v@, a, b),
        decreases v.len() - i,
    {
        if v[i] == '/' {
            assert(is_segment(v@, start as int, i as int));
            if (i - start == 1 && v[start] == '.') || (i - start == 2 && v[start] == '.' && v[start
                + 1] == '.') {
                return true;
            }
            proof {
                lemma_segments_before(v@, start as int, i as int);
            }
            start = i + 1;
        }
        i += 1;
    }
    assert(is_segment(v@, start as int, v.len() as int));
    if (v.len() - start == 1 && v[start] == '.') || (v.len() - start == 2 && v[start] == '.'
        && v[start + 1] == '.') {
        return true;
    }
    proof {
        lemma_segments_before(v@, start as int, v.len() as int);
        assert forall|a: int, b: int| #[trigger] is_segment(v@, a, b) implies !dot_segment(
            v@,
            a,
            b,
        ) by {
            assert(b < v.len() + 1);
        }
    }
    false
}

proof fn lemma_segments_before(s: Seq<char>, start: int, end: int)
    requires
        is_segment(s, start, end),
        !dot_segment(s, start, end),
        forall|a: int, b: int|
            #![trigger is_segment(s, a, b)]
            is_segment(s, a, b) && b < start ==> !dot_segment(s, a, b),
    ensures
        forall|a: int, b: int|
            #![trigger is_segment(s, a, b)]
            is_segment(s, a, b) && b < end + 1 ==> !dot_segment(s, a, b),
{
    assert forall|a: int, b: int|
        #![trigger is_segment(s, a, b)]
        is_segment(s, a, b) && b < end + 1 implies !dot_segment(s, a, b) by {
        if b >= start {
            if a < start {
                assert(s[start - 1] == '/');
            }
            if a > start {
                assert(s[a - 1] != '/');
            }
            if b < end {
                assert(s[b] != '/');
            }
        }
    }
}

fn path_chars_allowed(p: &Vec<char>) -> (r: bool)
    ensures
        r == forall|k: int| 0 <= k < p@.len() ==> !path_forbidden(#[trigger] p@[k]),
{
    let mut i: usize = 0;
    while i < p.len()
        invariant
            i <= p.len(),
            forall|k: int| 0 <= k < i ==> !path_forbidden(#[trigger] p@[k]),
        decreases p.len() - i,
    {
        let c = p[i];
        if c == '\\' || c == '?' || c == '#' || c == '[' || c == ']' || control(c) {
            assert(path_forbidden(p@[i as int]));
            return false;
        }
        i += 1;
    }
    true
}

pub open spec fn application_path_check(path: Seq<char>, field: Seq<char>) -> Result<
    (),
    Seq<char>,
> {
    if application_path_ok(path) {
        Ok(())
    } else {
        Err(field + " must be a concrete absolute application path: "@ + path)
    }
}

pub fn validate_application_path(path: &str, field: &str) -> (r: Result<(), String>)
    ensures
        unit_view(r) == application_path_check(path@, field@),
{
    let p = str_chars(path);
    let ok = p.len() > 0 && p[0] == '/' && path_chars_allowed(&p) && !dot_segment_in(&p);
    if !ok {
        let mut m = str_chars(field);
        push_str(&mut m, " must be a concrete absolute application path: ");
        push_chars(&mut m, &p);
        return Err(string_from_chars(m.as_slice()));
    }
    Ok(())
}

/// The path of an exclusion pattern, without its trailing `*`.
pub open spec fn pattern_path(pattern: Seq<char>) -> Seq<char> {
    if pattern.len() > 0 && pattern.last() == '*' {
        pattern.drop_last()
    } else {
        pattern
    }
}

pub open spec fn exclusion_check(pattern: Seq<char>) -> Result<(), Seq<char>> {
    let path = pattern_path(pattern);
    if contains_char(path, '*') {
        Err("site.sitemap.exclude only supports a trailing '*': "@ + pattern)
    } else {
        application_path_check(path, "site.sitemap.exclude"@)
    }
}

/// An exclusion is an exact path, or a path prefix followed by one `*`.
pub fn validate_exclusion_pattern(pattern: &str) -> (r: Result<(), String>)
    ensures
        unit_view(r) == exclusion_check(pattern@),
{
    let p = str_chars(pattern);
    let path = if p.len() > 0 && p[p.len() - 1] == '*' {
        sub_chars(&p, 0, p.len() - 1)
    } else {
        p.clone()
    };
    assert(path@ == pattern_path(pattern@));
    if has_char(path.as_slice(), '*') {
        let mut m = str_chars("site.sitemap.exclude only supports a trailing '*': ");
        push_chars(&mut m, &p);
        return Err(string_from_chars(m.as_slice()));
    }
    let text = string_from_chars(path.as_slice());
    validate_application_path(text.as_str(), "site.sitemap.exclude")
}

/// Whether `pattern` excludes `path`: a trailing `*` matches any path with the
/// prefix before it; otherwise the path must be the pattern itself.
pub open spec fn excludes(pattern: Seq<char>, path: Seq<char>) -> bool {
    if pattern.len() > 0 && pattern.last() == '*' {
        starts_with(path, pattern.drop_last())
    } else {
        path == pattern
    }
}

pub fn exclusion_matches(pattern: &str, path: &str) -> (r: bool)
    ensures
        r == excludes(pattern@, path@),
{
    let p = str_chars(pattern);
    let v = str_chars(path);
    if p.len() > 0 && p[p.len() - 1] == '*' {
        let prefix = sub_chars(&p, 0, p.len() - 1);
        assert(prefix@ =~= p@.drop_last());
        has_prefix(v.as_slice(), prefix.as_slice())
    } else {
        chars_eq(v.as_slice(), p.as_slice())
    }
}

/// The protocol's limit on the characters of one location.
pub const SITEMAP_MAX_LOCATION_CHARS: usize = 2048;

pub open spec fn location_check(value: Seq<char>, field: Seq<char>) -> Result<(), Seq<char>> {
    if value.len() > SITEMAP_MAX_LOCATION_CHARS {
        Err(field + " URL exceeds 2048 characters: "@ + value)
    } else {
        Ok(())
    }
}

pub fn validate_sitemap_location(value: &str, field: &str) -> (r: Result<(), String>)
    ensures
        unit_view(r) == location_check(value@, field@),
{
    let v = str_chars(value);
    if v.len() > SITEMAP_MAX_LOCATION_CHARS {
        let mut m = str_chars(field);
        push_str(&mut m, " URL exceeds 2048 characters: ");
        push_chars(&mut m, &v);
        return Err(string_from_chars(m.as_slice()));
    }
    Ok(())
}

// ─── Dates ───────────────────────────────────────────────────────────────────

/// Whether chrono's `NaiveDate::parse_from_str` reads `value` in `format`.
pub uninterp spec fn naive_date_parses(value: Seq<char>, format: Seq<char>) -> bool;

/// Whether chrono's `DateTime::parse_from_rfc3339` reads `value`.
pub uninterp spec fn rfc3339_parses(value: Seq<char>) -> bool;

/// Calls `chrono::NaiveDate::parse_from_str(value, format)` and reports
/// whether it succeeded. Its outcome depends on the two strings alone; which
/// texts it accepts is chrono's format grammar, left unstated here.
#[verifier::external_body]
fn parses_as_naive_date(value: &str, format: &str) -> (r: bool)
    ensures
        r == naive_date_parses(value@, format@),
{
    chrono::NaiveDate::parse_from_str(value, format).is_ok()
}

/// Calls `chrono::DateTime::parse_from_rfc3339(value)` and reports whether it
/// succeeded. Its outcome depends on the string alone; the RFC 3339 grammar it
/// implements is left unstated here.
#[verifier::external_body]
fn parses_as_rfc3339(value: &str) -> (r: bool)
    ensures
        r == rfc3339_parses(value@),
{
    chrono::DateTime::parse_from_rfc3339(value).is_ok()
}

/// The verdict on a last-modified value, given whether it reads as a calendar
/// date (`%Y-%m-%d`) and whether it reads as an RFC 3339 timestamp.
pub open spec fn last_modified_verdict_spec(is_date: bool, is_timestamp: bool, field: Seq<char>) -> Result<
    (),
    Seq<char>,
> {
    if is_date || is_timestamp {
        Ok(())
    } else {
        Err(field + " must be an ISO 8601 date or RFC 3339 timestamp"@)
    }
}

pub fn last_modified_verdict(is_date: bool, is_timestamp: bool, field: &str) -> (r: Result<
    (),
    String,
>)
    ensures
        unit_view(r) == last_modified_verdict_spec(is_date, is_timestamp, field@),
{
    if is_date || is_timestamp {
        Ok(())
    } else {
        Err(message2(field, " must be an ISO 8601 date or RFC 3339 timestamp"))
    }
}

pub open spec fn last_modified_check(value: Seq<char>, field: Seq<char>) -> Result<(), Seq<char>> {
    last_modified_verdict_spec(
        naive_date_parses(value, "%Y-%m-%d"@),
        rfc3339_parses(value),
        field,
    )
}

/// Accepts an ISO 8601 calendar date or an RFC 3339 timestamp.
pub fn validate_last_modified(value: &str, field: &str) -> (r: Result<(), String>)
    ensures
        unit_view(r) == last_modified_check(value@, field@),
{
    let is_date = parses_as_naive_date(value, "%Y-%m-%d");
    let is_timestamp = parses_as_rfc3339(value);
    last_modified_verdict(is_date, is_timestamp, field)
}

// ─── Numbers written as text ─────────────────────────────────────────────────
//
// A priority or a rating arrives as the decimal text a binary float prints as
// (`0.8`, `1`, `-0`, `NaN`, `inf`): the text is what the sitemap carries, and
// its range can be read off it exactly.

pub open spec fn all_zero(s: Seq<char>) -> bool {
    forall|k: int| 0 <= k < s.len() ==> #[trigger] s[k] == '0'
}

/// `t` is a decimal number (optional `-`, digits, optional `.` and digits)
/// that lies between 0 and `max`.
pub open spec fn number_within(t: Seq<char>, max: nat) -> bool {
    let neg = t.len() > 0 && t[0] == '-';
    let body = if neg {
        t.drop_first()
    } else {
        t
    };
    let dot = if contains_char(body, '.') {
        choose|k: int| 0 <= k < body.len() && body[k] == '.' && forall|j: int|
            0 <= j < k ==> body[j] != '.'
    } else {
        body.len() as int
    };
    let int_part = body.subrange(0, dot);
    let frac = if dot < body.len() {
        body.subrange(dot + 1, body.len() as int)
    } else {
        Seq::empty()
    };
    &&& int_part.len() > 0
    &&& all_digits(int_part)
    &&& (dot == body.len() || (frac.len() > 0 && all_digits(frac)))
    &&& if neg {
        digits_value(int_part) == 0 && all_zero(frac)
    } else {
        digits_value(int_part) < max || (digits_value(int_part) == max && all_zero(frac))
    }
}

fn zeros_only(v: &Vec<char>) -> (r: bool)
    ensures
        r == all_zero(v@),
{
    let mut i: usize = 0;
    while i < v.len()
        invariant
            i <= v.len(),
            forall|k: int| 0 <= k < i ==> #[trigger] v@[k] == '0',
        decreases v.len() - i,
    {
        if v[i] != '0' {
            return false;
        }
        i += 1;
    }
    true
}

fn digits_only(v: &Vec<char>) -> (r: bool)
    ensures
        r == all_digits(v@),
{
    let mut i: usize = 0;
    while i < v.len()
        invariant
            i <= v.len(),
            all_digits(v@.subrange(0, i as int)),
        decreases v.len() - i,
    {
        if !crate::text::ascii_digit(v[i]) {
            return false;
        }
        i += 1;
        assert forall|k: int| 0 <= k < i implies crate::text::is_ascii_digit(
            #[trigger] v@.subrange(0, i as int)[k],
        ) by {
            if k < i - 1 {
                assert(v@.subrange(0, i as int)[k] == v@.subrange(0, i - 1)[k]);
            }
        }
    }
    assert(v@.subrange(0, v.len() as int) =~= v@);
    true
}

/// Whether the leading digits `d` read as at most `max` (and exactly `max`
/// when `exact`), without reading past what a `u64` holds.
fn compare_digits(d: &Vec<char>, max: u64) -> (r: (bool, bool))
    requires
        all_digits(d@),
    ensures
        r.0 == (digits_value(d@) < max),
        r.1 == (digits_value(d@) == max),
{
    let mut value: u64 = 0;
    let mut i: usize = 0;
    while i < d.len()
        invariant
            i <= d.len(),
            all_digits(d@),
            value == digits_value(d@.subrange(0, i as int)),
            value <= max,
        decreases d.len() - i,
    {
        assert(d@.subrange(0, i + 1).drop_last() =~= d@.subrange(0, i as int));
        assert(crate::text::is_ascii_digit(d@[i as int]));
        let digit: u64 = (d[i] as u32 - 48) as u64;
        if value > (max - digit.min(max)) / 10 || digit > max {
            proof {
                lemma_digits_at_least(d@, (i + 1) as int);
                if digit <= max {
                    assert(value * 10 + digit > max) by (nonlinear_arith)
                        requires
                            value > (max - digit) / 10,
                            digit <= max,
                    ;
                }
            }
            return (false, false);
        }
        assert(value * 10 + digit <= max) by (nonlinear_arith)
            requires
                value <= (max - digit) / 10,
                digit <= max,
        ;
        value = value * 10 + digit;
        i += 1;
    }
    assert(d@.subrange(0, d.len() as int) =~= d@);
    (value < max, value == max)
}

/// A prefix of a run of digits never reads as more than the whole run.
proof fn lemma_digits_at_least(d: Seq<char>, n: int)
    requires
        0 <= n <= d.len(),
        all_digits(d),
    ensures
        digits_value(d.subrange(0, n)) <= digits_value(d),
    decreases d.len() - n,
{
    if n < d.len() {
        lemma_digits_at_least(d.drop_last(), n);
        assert(d.drop_last().subrange(0, n) =~= d.subrange(0, n));
        assert(all_digits(d.drop_last())) by {
            assert forall|k: int| 0 <= k < d.drop_last().len() implies crate::text::is_ascii_digit(
                #[trigger] d.drop_last()[k],
            ) by {
                assert(d.drop_last()[k] == d[k]);
            }
        }
    } else {
        assert(d.subrange(0, n) =~= d);
    }
}

pub fn within(text: &str, max: u64) -> (r: bool)
    ensures
        r == number_within(text@, max as nat),
{
    let t = str_chars(text);
    let neg = t.len() > 0 && t[0] == '-';
    let body = if neg {
        sub_chars(&t, 1, t.len())
    } else {
        t.clone()
    };
    assert(neg ==> body@ =~= t@.drop_first());
    let mut dot: usize = 0;
    while dot < body.len() && body[dot] != '.'
        invariant
            dot <= body.len(),
            forall|j: int| 0 <= j < dot ==> body@[j] != '.',
        decreases body.len() - dot,
    {
        dot += 1;
    }
    proof {
        if dot < body.len() {
            let k = choose|k: int| 0 <= k < body@.len() && body@[k] == '.' && forall|j: int|
                0 <= j < k ==> body@[j] != '.';
            assert(contains_char(body@, '.'));
            if k < dot {
                assert(body@[k] != '.');
            }
            if k > dot {
                assert(body@[dot as int] == '.');
            }
        } else {
            assert(!contains_char(body@, '.'));
        }
    }
    let int_part = sub_chars(&body, 0, dot);
    let frac = if dot < body.len() {
        sub_chars(&body, dot + 1, body.len())
    } else {
        Vec::new()
    };
    if int_part.len() == 0 || !digits_only(&int_part) {
        return false;
    }
    if dot < body.len() && !(frac.len() > 0 && digits_only(&frac)) {
        return false;
    }
    let frac_zero = zeros_only(&frac);
    if neg {
        let (below, _) = compare_digits(&int_part, 1);
        below && frac_zero
    } else {
        let (below, equal) = compare_digits(&int_part, max);
        below || (equal && frac_zero)
    }
}

// ─── Entries ─────────────────────────────────────────────────────────────────

/// How often a page is expected to change.
#[derive(Debug, Clone, Copy, PartialEq, Eq, Structural)]
pub enum SitemapChangeFrequency {
    Always,
    Hourly,
    Daily,
    Weekly,
    Monthly,
    Yearly,
    Never,
}

pub open spec fn frequency_text(f: SitemapChangeFrequency) -> Seq<char> {
    match f {
        SitemapChangeFrequency::Always => "always"@,
        SitemapChangeFrequency::Hourly => "hourly"@,
        SitemapChangeFrequency::Daily => "daily"@,
        SitemapChangeFrequency::Weekly => "weekly"@,
        SitemapChangeFrequency::Monthly => "monthly"@,
        SitemapChangeFrequency::Yearly => "yearly"@,
        SitemapChangeFrequency::Never => "never"@,
    }
}

impl SitemapChangeFrequency {
    pub fn as_str(&self) -> (r: &'static str)
        ensures
            r@ == frequency_text(*self),
    {
        match self {
            SitemapChangeFrequency::Always => "always",
            SitemapChangeFrequency::Hourly => "hourly",
            SitemapChangeFrequency::Daily => "daily",
            SitemapChangeFrequency::Weekly => "weekly",
            SitemapChangeFrequency::Monthly => "monthly",
            SitemapChangeFrequency::Yearly => "yearly",
            SitemapChangeFrequency::Never => "never",
        }
    }
}

#[derive(Debug, Clone, Copy, PartialEq, Eq, Structural)]
pub enum YesNo {
    Yes,
    No,
}

pub open spec fn yes_no_text(v: YesNo) -> Seq<char> {
    match v {
        YesNo::Yes => "yes"@,
        YesNo::No => "no"@,
    }
}

impl YesNo {
    pub fn as_str(&self) -> (r: &'static str)
        ensures
            r@ == yes_no_text(*self),
    {
        match self {
            YesNo::Yes => "yes",
            YesNo::No => "no",
        }
    }
}

#[derive(Debug, Clone, Copy, PartialEq, Eq, Structural)]
pub enum SitemapRelationship {
    Allow,
    Deny,
}

pub open spec fn relationship_text(v: SitemapRelationship) -> Seq<char> {
    match v {
        SitemapRelationship::Allow => "allow"@,
        SitemapRelationship::Deny => "deny"@,
    }
}

impl SitemapRelationship {
    pub fn as_str(&self) -> (r: &'static str)
        ensures
            r@ == relationship_text(*self),
    {
        match self {
            SitemapRelationship::Allow => "allow",
            SitemapRelationship::Deny => "deny",
        }
    }
}

/// A country or platform restriction of a video.
#[derive(Debug, Clone)]
pub struct SitemapVideoRelationship {
    pub relationship: SitemapRelationship,
    pub content: String,
}

#[derive(Debug, Clone)]
pub struct SitemapVideoUploader {
    pub content: String,
    pub info: Option<String>,
}

/// A video on a page. `rating` is the rating as its decimal text.
#[derive(Debug, Clone, Default)]
pub struct SitemapVideo {
    pub title: String,
    pub thumbnail_loc: String,
    pub description: String,
    pub content_loc: Option<String>,
    pub player_loc: Option<String>,
    pub duration: Option<u32>,
    pub view_count: Option<u64>,
    pub rating: Option<String>,
    pub expiration_date: Option<String>,
    pub publication_date: Option<String>,
    pub family_friendly: Option<YesNo>,
    pub requires_subscription: Option<YesNo>,
    pub live: Option<YesNo>,
    pub restriction: Option<SitemapVideoRelationship>,
    pub platform: Option<SitemapVideoRelationship>,
    pub uploader: Option<SitemapVideoUploader>,
    pub tag: Option<crate::site_discovery::OneOrManyStrings>,
}

/// One `<url>` of a sitemap. `priority` is the priority as its decimal text;
/// `alternates` pairs a language tag with the URL of that language's page, in
/// the order of their tags.
#[derive(Debug, Clone, Default)]
pub struct SitemapEntry {
    pub location: String,
    pub last_modified: Option<String>,
    pub change_frequency: Option<SitemapChangeFrequency>,
    pub priority: Option<String>,
    pub alternates: Vec<(String, String)>,
    pub images: Vec<String>,
    pub videos: Vec<SitemapVideo>,
}

pub open spec fn spaces_text(n: nat) -> Seq<char> {
    Seq::new(n, |k: int| ' ')
}

/// `<name>value</name>` on a line of its own, indented by `indent`.
pub open spec fn element(indent: nat, name: Seq<char>, value: Seq<char>) -> Seq<char> {
    spaces_text(indent) + "<"@ + name + ">"@ + escaped(value) + "</"@ + name + ">\n"@
}

pub open spec fn opt_element(indent: nat, name: Seq<char>, value: Option<Seq<char>>) -> Seq<char> {
    match value {
        Some(v) => element(indent, name, v),
        None => Seq::empty(),
    }
}


pub open spec fn opt_decimal_u32(v: Option<u32>) -> Option<Seq<char>> {
    match v {
        Some(n) => Some(decimal(n as nat)),
        None => None,
    }
}

pub open spec fn opt_decimal_u64(v: Option<u64>) -> Option<Seq<char>> {
    match v {
        Some(n) => Some(decimal(n as nat)),
        None => None,
    }
}

pub open spec fn opt_yes_no(v: Option<YesNo>) -> Option<Seq<char>> {
    match v {
        Some(x) => Some(yes_no_text(x)),
        None => None,
    }
}

fn push_spaces(out: &mut Vec<char>, n: usize)
    ensures
        final(out)@ == old(out)@ + spaces_text(n as nat),
{
    let mut i: usize = 0;
    while i < n
        invariant
            i <= n,
            out@ == old(out)@ + spaces_text(i as nat),
        decreases n - i,
    {
        out.push(' ');
        i += 1;
        assert(out@ =~= old(out)@ + spaces_text(i as nat));
    }
}

pub fn push_xml_element(out: &mut Vec<char>, indent: usize, name: &str, value: &str)
    ensures
        final(out)@ == old(out)@ + element(indent as nat, name@, value@),
{
    push_spaces(out, indent);
    push_str(out, "<");
    push_str(out, name);
    push_str(out, ">");
    push_escaped(out, value);
    push_str(out, "</");
    push_str(out, name);
    push_str(out, ">\n");
    assert(final(out)@ =~= old(out)@ + element(indent as nat, name@, value@));
}

pub fn push_optional_xml_element(out: &mut Vec<char>, indent: usize, name: &str, value: Option<&str>)
    ensures
        final(out)@ == old(out)@ + opt_element(
            indent as nat,
            name@,
            match value {
                Some(v) => Some(v@),
                None => None,
            },
        ),
{
    match value {
        Some(v) => push_xml_element(out, indent, name, v),
        None => {
            assert(out@ =~= old(out)@ + Seq::<char>::empty());
        },
    }
}

fn opt_str_of(v: &Option<String>) -> (r: Option<&str>)
    ensures
        match r {
            Some(s) => v matches Some(t) && s@ == t@,
            None => v is None,
        },
{
    match v {
        Some(s) => Some(s.as_str()),
        None => None,
    }
}

/// A restriction or platform line of a video.
pub open spec fn relationship_xml(name: Seq<char>, value: Option<SitemapVideoRelationship>) -> Seq<
    char,
> {
    match value {
        Some(v) => "      <video:"@ + name + " relationship=\""@ + relationship_text(
            v.relationship,
        ) + "\">"@ + escaped(v.content@) + "</video:"@ + name + ">\n"@,
        None => Seq::empty(),
    }
}

pub fn push_video_relationship(
    out: &mut Vec<char>,
    name: &str,
    value: &Option<SitemapVideoRelationship>,
)
    ensures
        final(out)@ == old(out)@ + relationship_xml(name@, *value),
{
    match value {
        Some(v) => {
            push_str(out, "      <video:");
            push_str(out, name);
            push_str(out, " relationship=\"");
            push_str(out, v.relationship.as_str());
            push_str(out, "\">");
            push_escaped(out, v.content.as_str());
            push_str(out, "</video:");
            push_str(out, name);
            push_str(out, ">\n");
            assert(final(out)@ =~= old(out)@ + relationship_xml(name@, *value));
        },
        None => {
            assert(out@ =~= old(out)@ + Seq::<char>::empty());
        },
    }
}

pub open spec fn uploader_xml(value: Option<SitemapVideoUploader>) -> Seq<char> {
    match value {
        Some(u) => {
            let info = match u.info {
                Some(i) => " info=\""@ + escaped(i@) + "\""@,
                None => Seq::empty(),
            };
            "      <video:uploader"@ + info + ">"@ + escaped(u.content@) + "</video:uploader>\n"@
        },
        None => Seq::empty(),
    }
}

/// One `<video:tag>` line per tag.
pub open spec fn tags_xml(tags: Seq<Seq<char>>) -> Seq<char>
    decreases tags.len(),
{
    if tags.len() == 0 {
        Seq::empty()
    } else {
        tags_xml(tags.drop_last()) + element(6, "video:tag"@, tags.last())
    }
}

pub open spec fn video_tags(v: SitemapVideo) -> Seq<Seq<char>> {
    match v.tag {
        Some(t) => t@,
        None => Seq::empty(),
    }
}

/// The text fields of a video.
pub open spec fn video_texts(v: SitemapVideo) -> Seq<char> {
    element(6, "video:title"@, v.title@) + element(6, "video:thumbnail_loc"@, v.thumbnail_loc@)
        + element(6, "video:description"@, v.description@) + opt_element(
        6,
        "video:content_loc"@,
        opt_text(v.content_loc),
    ) + opt_element(6, "video:player_loc"@, opt_text(v.player_loc))
}

/// The measured fields of a video.
pub open spec fn video_counts(v: SitemapVideo) -> Seq<char> {
    opt_element(6, "video:duration"@, opt_decimal_u32(v.duration)) + opt_element(
        6,
        "video:view_count"@,
        opt_decimal_u64(v.view_count),
    ) + opt_element(6, "video:rating"@, opt_text(v.rating))
}

/// The dates of a video.
pub open spec fn video_dates(v: SitemapVideo) -> Seq<char> {
    opt_element(6, "video:expiration_date"@, opt_text(v.expiration_date)) + opt_element(
        6,
        "video:publication_date"@,
        opt_text(v.publication_date),
    )
}

/// The measured and dated fields of a video.
pub open spec fn video_figures(v: SitemapVideo) -> Seq<char> {
    video_counts(v) + video_dates(v)
}

/// The yes/no flags of a video.
pub open spec fn video_flags(v: SitemapVideo) -> Seq<char> {
    opt_element(6, "video:family_friendly"@, opt_yes_no(v.family_friendly)) + opt_element(
        6,
        "video:requires_subscription"@,
        opt_yes_no(v.requires_subscription),
    ) + opt_element(6, "video:live"@, opt_yes_no(v.live))
}

/// The restrictions, uploader, and tags of a video.
pub open spec fn video_extras(v: SitemapVideo) -> Seq<char> {
    relationship_xml("restriction"@, v.restriction) + relationship_xml("platform"@, v.platform)
        + uploader_xml(v.uploader) + tags_xml(video_tags(v))
}

/// The `<video:video>` block of a video.
#[verifier::opaque]
pub open spec fn video_xml(v: SitemapVideo) -> Seq<char> {
    "    <video:video>\n"@ + video_texts(v) + video_figures(v) + video_flags(v) + video_extras(v)
        + "    </video:video>\n"@
}

fn push_decimal_element(out: &mut Vec<char>, indent: usize, name: &str, value: Option<u64>)
    ensures
        final(out)@ == old(out)@ + opt_element(
            indent as nat,
            name@,
            match value {
                Some(n) => Some(decimal(n as nat)),
                None => None,
            },
        ),
{
    match value {
        Some(n) => {
            let mut digits: Vec<char> = Vec::new();
            push_decimal(&mut digits, n);
            let text = string_from_chars(digits.as_slice());
            push_xml_element(out, indent, name, text.as_str());
        },
        None => {
            assert(out@ =~= old(out)@ + Seq::<char>::empty());
        },
    }
}

fn yes_no_str(v: &Option<YesNo>) -> (r: Option<&'static str>)
    ensures
        match r {
            Some(s) => opt_yes_no(*v) == Some(s@),
            None => v is None,
        },
{
    match v {
        Some(x) => Some(x.as_str()),
        None => None,
    }
}

fn push_video_texts(out: &mut Vec<char>, v: &SitemapVideo)
    ensures
        final(out)@ == old(out)@ + video_texts(*v),
{
    push_xml_element(out, 6, "video:title", v.title.as_str());
    push_xml_element(out, 6, "video:thumbnail_loc", v.thumbnail_loc.as_str());
    push_xml_element(out, 6, "video:description", v.description.as_str());
    push_optional_xml_element(out, 6, "video:content_loc", opt_str_of(&v.content_loc));
    push_optional_xml_element(out, 6, "video:player_loc", opt_str_of(&v.player_loc));
    assert(final(out)@ =~= old(out)@ + video_texts(*v));
}

fn push_video_counts(out: &mut Vec<char>, v: &SitemapVideo)
    ensures
        final(out)@ == old(out)@ + video_counts(*v),
{
    let duration: Option<u64> = match v.duration {
        Some(d) => Some(d as u64),
        None => None,
    };
    assert(opt_decimal_u32(v.duration) == match duration {
        Some(n) => Some(decimal(n as nat)),
        None => None::<Seq<char>>,
    });
    push_decimal_element(out, 6, "video:duration", duration);
    push_decimal_element(out, 6, "video:view_count", v.view_count);
    push_optional_xml_element(out, 6, "video:rating", opt_str_of(&v.rating));
    assert(final(out)@ =~= old(out)@ + video_counts(*v));
}

fn push_video_dates(out: &mut Vec<char>, v: &SitemapVideo)
    ensures
        final(out)@ == old(out)@ + video_dates(*v),
{
    push_optional_xml_element(out, 6, "video:expiration_date", opt_str_of(&v.expiration_date));
    push_optional_xml_element(out, 6, "video:publication_date", opt_str_of(&v.publication_date));
    assert(final(out)@ =~= old(out)@ + video_dates(*v));
}

fn push_video_figures(out: &mut Vec<char>, v: &SitemapVideo)
    ensures
        final(out)@ == old(out)@ + video_figures(*v),
{
    push_video_counts(out, v);
    push_video_dates(out, v);
    assert(final(out)@ =~= old(out)@ + video_figures(*v));
}

fn push_video_flags(out: &mut Vec<char>, v: &SitemapVideo)
    ensures
        final(out)@ == old(out)@ + video_flags(*v),
{
    push_optional_xml_element(out, 6, "video:family_friendly", yes_no_str(&v.family_friendly));
    push_optional_xml_element(
        out,
        6,
        "video:requires_subscription",
        yes_no_str(&v.requires_subscription),
    );
    push_optional_xml_element(out, 6, "video:live", yes_no_str(&v.live));
    assert(final(out)@ =~= old(out)@ + video_flags(*v));
}

fn push_uploader(out: &mut Vec<char>, uploader: &Option<SitemapVideoUploader>)
    ensures
        final(out)@ == old(out)@ + uploader_xml(*uploader),
{
    if let Some(u) = uploader {
        push_str(out, "      <video:uploader");
        let ghost before_info = out@;
        if let Some(info) = &u.info {
            push_str(out, " info=\"");
            push_escaped(out, info.as_str());
            push_str(out, "\"");
        }
        push_str(out, ">");
        push_escaped(out, u.content.as_str());
        push_str(out, "</video:uploader>\n");
    }
    assert(final(out)@ =~= old(out)@ + uploader_xml(*uploader));
}

fn push_video_extras(out: &mut Vec<char>, v: &SitemapVideo)
    ensures
        final(out)@ == old(out)@ + video_extras(*v),
{
    push_video_relationship(out, "restriction", &v.restriction);
    push_video_relationship(out, "platform", &v.platform);
    push_uploader(out, &v.uploader);
    let ghost before_tags = out@;
    let tags: Vec<String> = match &v.tag {
        Some(t) => t.values(),
        None => Vec::new(),
    };
    assert(crate::site_discovery::strings_of(tags@) =~= video_tags(*v));
    let mut i: usize = 0;
    while i < tags.len()
        invariant
            i <= tags.len(),
            out@ == before_tags + tags_xml(
                crate::site_discovery::strings_of(tags@).subrange(0, i as int),
            ),
        decreases tags.len() - i,
    {
        push_xml_element(out, 6, "video:tag", tags[i].as_str());
        assert(crate::site_discovery::strings_of(tags@).subrange(0, i + 1).drop_last()
            =~= crate::site_discovery::strings_of(tags@).subrange(0, i as int));
        i += 1;
    }
    assert(crate::site_discovery::strings_of(tags@).subrange(0, tags.len() as int)
        =~= crate::site_discovery::strings_of(tags@));
    assert(final(out)@ =~= old(out)@ + video_extras(*v));
}

fn push_video(out: &mut Vec<char>, v: &SitemapVideo)
    ensures
        final(out)@ == old(out)@ + video_xml(*v),
{
    push_str(out, "    <video:video>\n");
    push_video_texts(out, v);
    push_video_figures(out, v);
    push_video_flags(out, v);
    push_video_extras(out, v);
    push_str(out, "    </video:video>\n");
    reveal(video_xml);
    assert(final(out)@ =~= old(out)@ + video_xml(*v));
}

pub open spec fn pairs_of(v: Seq<(String, String)>) -> Seq<(Seq<char>, Seq<char>)> {
    v.map_values(|p: (String, String)| (p.0@, p.1@))
}

pub open spec fn alternate_xml(language: Seq<char>, href: Seq<char>) -> Seq<char> {
    "    <xhtml:link rel=\"alternate\" hreflang=\""@ + escaped(language) + "\" href=\""@ + escaped(
        href,
    ) + "\" />\n"@
}

pub open spec fn alternates_xml(pairs: Seq<(Seq<char>, Seq<char>)>) -> Seq<char>
    decreases pairs.len(),
{
    if pairs.len() == 0 {
        Seq::empty()
    } else {
        alternates_xml(pairs.drop_last()) + alternate_xml(pairs.last().0, pairs.last().1)
    }
}

pub open spec fn images_xml(images: Seq<Seq<char>>) -> Seq<char>
    decreases images.len(),
{
    if images.len() == 0 {
        Seq::empty()
    } else {
        images_xml(images.drop_last()) + "    <image:image>\n"@ + element(
            6,
            "image:loc"@,
            images.last(),
        ) + "    </image:image>\n"@
    }
}

pub open spec fn videos_xml(videos: Seq<SitemapVideo>) -> Seq<char>
    decreases videos.len(),
{
    if videos.len() == 0 {
        Seq::empty()
    } else {
        videos_xml(videos.drop_last()) + video_xml(videos.last())
    }
}

pub open spec fn opt_frequency(v: Option<SitemapChangeFrequency>) -> Option<Seq<char>> {
    match v {
        Some(f) => Some(frequency_text(f)),
        None => None,
    }
}

/// The start of an entry's `<url>` element: its location, alternate
/// languages, and images.
pub open spec fn entry_open(e: SitemapEntry) -> Seq<char> {
    "  <url>\n"@ + element(4, "loc"@, e.location@) + alternates_xml(pairs_of(e.alternates@))
        + images_xml(crate::site_discovery::strings_of(e.images@))
}

/// The end of an entry's `<url>` element: its date, frequency, and priority.
pub open spec fn entry_close(e: SitemapEntry) -> Seq<char> {
    opt_element(4, "lastmod"@, opt_text(e.last_modified)) + opt_element(
        4,
        "changefreq"@,
        opt_frequency(e.change_frequency),
    ) + opt_element(4, "priority"@, opt_text(e.priority)) + "  </url>\n"@
}

/// The `<url>` element of an entry.
pub open spec fn entry_xml(e: SitemapEntry) -> Seq<char> {
    entry_open(e) + videos_xml(e.videos@) + entry_close(e)
}

proof fn lemma_four_spaces()
    ensures
        spaces_text(4) == "    "@,
{
    reveal_strlit("    ");
    assert(spaces_text(4) =~= "    "@);
}

proof fn lemma_loc_element(v: Seq<char>)
    ensures
        element(4, "loc"@, v) == "    <loc>"@ + escaped(v) + "</loc>\n"@,
{
    lemma_four_spaces();
    reveal_strlit("    ");
    reveal_strlit("<");
    reveal_strlit(">");
    reveal_strlit("</");
    reveal_strlit(">\n");
    reveal_strlit("loc");
    reveal_strlit("    <loc>");
    reveal_strlit("</loc>\n");
    assert(element(4, "loc"@, v) =~= "    <loc>"@ + escaped(v) + "</loc>\n"@);
}

proof fn lemma_lastmod_element(v: Seq<char>)
    ensures
        element(4, "lastmod"@, v) == "    <lastmod>"@ + escaped(v) + "</lastmod>\n"@,
{
    lemma_four_spaces();
    reveal_strlit("    ");
    reveal_strlit("<");
    reveal_strlit(">");
    reveal_strlit("</");
    reveal_strlit(">\n");
    reveal_strlit("lastmod");
    reveal_strlit("    <lastmod>");
    reveal_strlit("</lastmod>\n");
    assert(element(4, "lastmod"@, v) =~= "    <lastmod>"@ + escaped(v) + "</lastmod>\n"@);
}

proof fn lemma_changefreq_element(v: Seq<char>)
    ensures
        element(4, "changefreq"@, v) == "    <changefreq>"@ + escaped(v) + "</changefreq>\n"@,
{
    lemma_four_spaces();
    reveal_strlit("    ");
    reveal_strlit("<");
    reveal_strlit(">");
    reveal_strlit("</");
    reveal_strlit(">\n");
    reveal_strlit("changefreq");
    reveal_strlit("    <changefreq>");
    reveal_strlit("</changefreq>\n");
    assert(element(4, "changefreq"@, v) =~= "    <changefreq>"@ + escaped(v) + "</changefreq>\n"@);
}

proof fn lemma_priority_element(v: Seq<char>)
    ensures
        element(4, "priority"@, v) == "    <priority>"@ + escaped(v) + "</priority>\n"@,
{
    lemma_four_spaces();
    reveal_strlit("    ");
    reveal_strlit("<");
    reveal_strlit(">");
    reveal_strlit("</");
    reveal_strlit(">\n");
    reveal_strlit("priority");
    reveal_strlit("    <priority>");
    reveal_strlit("</priority>\n");
    assert(element(4, "priority"@, v) =~= "    <priority>"@ + escaped(v) + "</priority>\n"@);
}

/// An entry's `<url>` element opens with its location, escaped, and closes
/// the element; its date, change frequency and priority, where set, are each
/// written escaped in their own element.
#[verifier::spinoff_prover]
#[verifier::rlimit(80)]
pub proof fn law_an_entry_writes_its_location_and_metadata(e: SitemapEntry)
    ensures
        starts_with(entry_xml(e), "  <url>\n"@ + "    <loc>"@ + escaped(e.location@) + "</loc>\n"@),
        ends_with(entry_xml(e), "  </url>\n"@),
        e.last_modified matches Some(d) ==> holds_text(
            entry_xml(e),
            "    <lastmod>"@ + escaped(d@) + "</lastmod>\n"@,
        ),
        e.change_frequency matches Some(f) ==> holds_text(
            entry_xml(e),
            "    <changefreq>"@ + escaped(frequency_text(f)) + "</changefreq>\n"@,
        ),
        e.priority matches Some(p) ==> holds_text(
            entry_xml(e),
            "    <priority>"@ + escaped(p@) + "</priority>\n"@,
        ),
{
    let x = entry_xml(e);
    lemma_loc_element(e.location@);
    let loc = "  <url>\n"@ + element(4, "loc"@, e.location@);
    let rest_open = alternates_xml(pairs_of(e.alternates@)) + images_xml(
        crate::site_discovery::strings_of(e.images@),
    );
    let lm = opt_element(4, "lastmod"@, opt_text(e.last_modified));
    let cf = opt_element(4, "changefreq"@, opt_frequency(e.change_frequency));
    let pr = opt_element(4, "priority"@, opt_text(e.priority));
    let tail = "  </url>\n"@;
    let front = loc + rest_open + videos_xml(e.videos@);
    assert(x =~= front + lm + cf + pr + tail);
    assert(x.subrange(0, loc.len() as int) =~= loc);
    assert(loc =~= "  <url>\n"@ + "    <loc>"@ + escaped(e.location@) + "</loc>\n"@);
    assert(x.subrange(x.len() - tail.len(), x.len() as int) =~= tail);
    if e.last_modified is Some {
        lemma_lastmod_element(e.last_modified->Some_0@);
        lemma_holds_itself(lm);
        lemma_holds_right(front, lm, lm);
        lemma_holds_left(front + lm, cf + pr + tail, lm);
        assert(front + lm + (cf + pr + tail) =~= x);
    }
    if e.change_frequency is Some {
        lemma_changefreq_element(frequency_text(e.change_frequency->Some_0));
        lemma_holds_itself(cf);
        lemma_holds_right(front + lm, cf, cf);
        lemma_holds_left(front + lm + cf, pr + tail, cf);
        assert(front + lm + cf + (pr + tail) =~= x);
    }
    if e.priority is Some {
        lemma_priority_element(e.priority->Some_0@);
        lemma_holds_itself(pr);
        lemma_holds_right(front + lm + cf, pr, pr);
        lemma_holds_left(front + lm + cf + pr, tail, pr);
    }
}

fn push_alternates(out: &mut Vec<char>, alternates: &Vec<(String, String)>)
    ensures
        final(out)@ == old(out)@ + alternates_xml(pairs_of(alternates@)),
{
    let mut i: usize = 0;
    while i < alternates.len()
        invariant
            i <= alternates.len(),
            out@ == old(out)@ + alternates_xml(pairs_of(alternates@).subrange(0, i as int)),
        decreases alternates.len() - i,
    {
        let ghost before = out@;
        push_str(out, "    <xhtml:link rel=\"alternate\" hreflang=\"");
        push_escaped(out, alternates[i].0.as_str());
        push_str(out, "\" href=\"");
        push_escaped(out, alternates[i].1.as_str());
        push_str(out, "\" />\n");
        assert(out@ =~= before + alternate_xml(alternates@[i as int].0@, alternates@[i as int].1@));
        assert(pairs_of(alternates@).subrange(0, i + 1).drop_last() =~= pairs_of(
            alternates@,
        ).subrange(0, i as int));
        i += 1;
    }
    assert(pairs_of(alternates@).subrange(0, alternates.len() as int) =~= pairs_of(alternates@));
}

fn push_images(out: &mut Vec<char>, images: &Vec<String>)
    ensures
        final(out)@ == old(out)@ + images_xml(crate::site_discovery::strings_of(images@)),
{
    let ghost all = crate::site_discovery::strings_of(images@);
    let mut i: usize = 0;
    while i < images.len()
        invariant
            i <= images.len(),
            all == crate::site_discovery::strings_of(images@),
            out@ == old(out)@ + images_xml(all.subrange(0, i as int)),
        decreases images.len() - i,
    {
        let ghost before = out@;
        push_str(out, "    <image:image>\n");
        push_xml_element(out, 6, "image:loc", images[i].as_str());
        push_str(out, "    </image:image>\n");
        assert(all.subrange(0, i + 1).drop_last() =~= all.subrange(0, i as int));
        assert(out@ =~= before + "    <image:image>\n"@ + element(6, "image:loc"@, all[i as int])
            + "    </image:image>\n"@);
        i += 1;
    }
    assert(all.subrange(0, images.len() as int) =~= all);
}

fn push_videos(out: &mut Vec<char>, videos: &Vec<SitemapVideo>)
    ensures
        final(out)@ == old(out)@ + videos_xml(videos@),
{
    let mut i: usize = 0;
    while i < videos.len()
        invariant
            i <= videos.len(),
            out@ == old(out)@ + videos_xml(videos@.subrange(0, i as int)),
        decreases videos.len() - i,
    {
        push_video(out, &videos[i]);
        assert(videos@.subrange(0, i + 1).drop_last() =~= videos@.subrange(0, i as int));
        i += 1;
    }
    assert(videos@.subrange(0, videos.len() as int) =~= videos@);
}

fn frequency_str(v: &Option<SitemapChangeFrequency>) -> (r: Option<&'static str>)
    ensures
        match r {
            Some(s) => opt_frequency(*v) == Some(s@),
            None => v is None,
        },
{
    match v {
        Some(f) => Some(f.as_str()),
        None => None,
    }
}

fn push_entry_open(out: &mut Vec<char>, entry: &SitemapEntry)
    ensures
        final(out)@ == old(out)@ + entry_open(*entry),
{
    push_str(out, "  <url>\n");
    push_xml_element(out, 4, "loc", entry.location.as_str());
    push_alternates(out, &entry.alternates);
    push_images(out, &entry.images);
    assert(final(out)@ =~= old(out)@ + entry_open(*entry));
}

fn push_entry_close(out: &mut Vec<char>, entry: &SitemapEntry)
    ensures
        final(out)@ == old(out)@ + entry_close(*entry),
{
    push_optional_xml_element(out, 4, "lastmod", opt_str_of(&entry.last_modified));
    push_optional_xml_element(out, 4, "changefreq", frequency_str(&entry.change_frequency));
    push_optional_xml_element(out, 4, "priority", opt_str_of(&entry.priority));
    push_str(out, "  </url>\n");
    assert(final(out)@ =~= old(out)@ + entry_close(*entry));
}

/// Appends the `<url>` element of `entry`.
pub fn push_entry_xml(out: &mut Vec<char>, entry: &SitemapEntry)
    ensures
        final(out)@ == old(out)@ + entry_xml(*entry),
{
    push_entry_open(out, entry);
    push_videos(out, &entry.videos);
    push_entry_close(out, entry);
    assert(final(out)@ =~= old(out)@ + entry_xml(*entry));
}

/// The `<url>` element of `entry`.
pub fn sitemap_entry_xml(entry: &SitemapEntry) -> (r: String)
    ensures
        r@ == entry_xml(*entry),
{
    let mut out: Vec<char> = Vec::new();
    push_entry_xml(&mut out, entry);
    string_from_chars(out.as_slice())
}

// ─── Documents ───────────────────────────────────────────────────────────────

/// The protocol limits of one sitemap document.
pub const SITEMAP_MAX_URLS: usize = 50000;

pub const SITEMAP_MAX_BYTES: usize = 52428800;

/// The bytes a character takes in UTF-8.
pub open spec fn utf8_width(c: char) -> nat {
    if (c as u32) < 0x80 {
        1
    } else if (c as u32) < 0x800 {
        2
    } else if (c as u32) < 0x10000 {
        3
    } else {
        4
    }
}

/// The length of `s` in UTF-8 bytes.
pub open spec fn utf8_len(s: Seq<char>) -> nat
    decreases s.len(),
{
    if s.len() == 0 {
        0
    } else {
        utf8_len(s.drop_last()) + utf8_width(s.last())
    }
}

pub proof fn lemma_utf8_len_concat(a: Seq<char>, b: Seq<char>)
    ensures
        utf8_len(a + b) == utf8_len(a) + utf8_len(b),
    decreases b.len(),
{
    if b.len() > 0 {
        lemma_utf8_len_concat(a, b.drop_last());
        assert((a + b).drop_last() =~= a + b.drop_last());
    } else {
        assert(a + b =~= a);
    }
}

pub proof fn lemma_utf8_len_bound(s: Seq<char>)
    ensures
        utf8_len(s) <= 4 * s.len(),
    decreases s.len(),
{
    if s.len() > 0 {
        lemma_utf8_len_bound(s.drop_last());
    }
}

fn utf8_length(v: &Vec<char>) -> (r: u128)
    ensures
        r == utf8_len(v@),
        r <= 4 * v.len(),
{
    let mut n: u128 = 0;
    let mut i: usize = 0;
    while i < v.len()
        invariant
            i <= v.len(),
            n == utf8_len(v@.subrange(0, i as int)),
            n <= 4 * i,
        decreases v.len() - i,
    {
        let c = v[i] as u32;
        let w: u128 = if c < 0x80 {
            1
        } else if c < 0x800 {
            2
        } else if c < 0x10000 {
            3
        } else {
            4
        };
        assert(v@.subrange(0, i + 1).drop_last() =~= v@.subrange(0, i as int));
        n = n + w;
        i += 1;
    }
    assert(v@.subrange(0, v.len() as int) =~= v@);
    n
}

/// Which extension namespaces a set of entries needs.
#[derive(Debug, Clone, Copy, PartialEq, Eq, Structural)]
pub struct SitemapFeatures {
    pub alternates: bool,
    pub images: bool,
    pub videos: bool,
}

pub open spec fn features_of(entries: Seq<SitemapEntry>) -> SitemapFeatures {
    SitemapFeatures {
        alternates: exists|k: int|
            0 <= k < entries.len() && (#[trigger] entries[k]).alternates@.len() > 0,
        images: exists|k: int| 0 <= k < entries.len() && (#[trigger] entries[k]).images@.len() > 0,
        videos: exists|k: int| 0 <= k < entries.len() && (#[trigger] entries[k]).videos@.len() > 0,
    }
}

pub fn sitemap_features(entries: &[SitemapEntry]) -> (r: SitemapFeatures)
    ensures
        r == features_of(entries@),
{
    let mut f = SitemapFeatures { alternates: false, images: false, videos: false };
    let mut i: usize = 0;
    while i < entries.len()
        invariant
            i <= entries.len(),
            f.alternates == exists|k: int|
                0 <= k < i && (#[trigger] entries@[k]).alternates@.len() > 0,
            f.images == exists|k: int| 0 <= k < i && (#[trigger] entries@[k]).images@.len() > 0,
            f.videos == exists|k: int| 0 <= k < i && (#[trigger] entries@[k]).videos@.len() > 0,
        decreases entries.len() - i,
    {
        let e = &entries[i];
        if e.alternates.len() > 0 {
            f.alternates = true;
        }
        if e.images.len() > 0 {
            f.images = true;
        }
        if e.videos.len() > 0 {
            f.videos = true;
        }
        i += 1;
    }
    f
}

pub open spec fn header_text(f: SitemapFeatures) -> Seq<char> {
    "<?xml version=\"1.0\" encoding=\"UTF-8\"?>\n"@
        + "<urlset xmlns=\"http://www.sitemaps.org/schemas/sitemap/0.9\""@ + (if f.alternates {
        " xmlns:xhtml=\"http://www.w3.org/1999/xhtml\""@
    } else {
        Seq::empty()
    }) + (if f.images {
        " xmlns:image=\"http://www.google.com/schemas/sitemap-image/1.1\""@
    } else {
        Seq::empty()
    }) + (if f.videos {
        " xmlns:video=\"http://www.google.com/schemas/sitemap-video/1.1\""@
    } else {
        Seq::empty()
    }) + ">\n"@
}

pub fn sitemap_header(features: SitemapFeatures) -> (r: Vec<char>)
    ensures
        r@ == header_text(features),
{
    let mut out: Vec<char> = Vec::new();
    push_str(&mut out, "<?xml version=\"1.0\" encoding=\"UTF-8\"?>\n");
    push_str(&mut out, "<urlset xmlns=\"http://www.sitemaps.org/schemas/sitemap/0.9\"");
    let ghost a = out@;
    if features.alternates {
        push_str(&mut out, " xmlns:xhtml=\"http://www.w3.org/1999/xhtml\"");
    }
    let ghost b = out@;
    if features.images {
        push_str(&mut out, " xmlns:image=\"http://www.google.com/schemas/sitemap-image/1.1\"");
    }
    let ghost c = out@;
    if features.videos {
        push_str(&mut out, " xmlns:video=\"http://www.google.com/schemas/sitemap-video/1.1\"");
    }
    push_str(&mut out, ">\n");
    assert(out@ =~= header_text(features));
    out
}

pub open spec fn footer_text() -> Seq<char> {
    "</urlset>\n"@
}

/// A document: the header, the entries of one group, the footer.
pub open spec fn document_text(header: Seq<char>, group: Seq<Seq<char>>) -> Seq<char> {
    header + group.flatten_alt() + footer_text()
}

/// How entries are grouped into documents: in order, a new document starting
/// whenever the current one holds `max_urls` entries or the next entry would
/// take it past `max_bytes` bytes. `None` when one entry alone does not fit.
pub open spec fn grouping(
    texts: Seq<Seq<char>>,
    header: Seq<char>,
    max_urls: nat,
    max_bytes: nat,
) -> Option<Seq<Seq<Seq<char>>>>
    decreases texts.len(),
{
    if texts.len() == 0 {
        Some(seq![Seq::empty()])
    } else {
        match grouping(texts.drop_last(), header, max_urls, max_bytes) {
            None => None,
            Some(groups) => group_step(groups, texts.last(), header, max_urls, max_bytes),
        }
    }
}

/// Places the entry text `e` after the groups so far.
pub open spec fn group_step(
    groups: Seq<Seq<Seq<char>>>,
    e: Seq<char>,
    header: Seq<char>,
    max_urls: nat,
    max_bytes: nat,
) -> Option<Seq<Seq<Seq<char>>>> {
    let current = groups.last();
    let used = utf8_len(header) + utf8_len(current.flatten_alt());
    let tail = utf8_len(e) + utf8_len(footer_text());
    if current.len() > 0 && (current.len() == max_urls || used + tail > max_bytes) {
        if utf8_len(header) + tail > max_bytes {
            None
        } else {
            Some(groups.push(seq![e]))
        }
    } else if used + tail > max_bytes {
        None
    } else {
        Some(groups.drop_last().push(current.push(e)))
    }
}

pub open spec fn entry_texts(entries: Seq<SitemapEntry>) -> Seq<Seq<char>> {
    entries.map_values(|e: SitemapEntry| entry_xml(e))
}

pub open spec fn documents_of(header: Seq<char>, groups: Seq<Seq<Seq<char>>>) -> Seq<Seq<char>> {
    groups.map_values(|g: Seq<Seq<char>>| document_text(header, g))
}

/// The sitemap documents for `entries` under the given limits, or why there
/// are none.
pub open spec fn documents_for(entries: Seq<SitemapEntry>, max_urls: nat, max_bytes: nat) -> Result<
    Seq<Seq<char>>,
    Seq<char>,
> {
    let header = header_text(features_of(entries));
    if max_urls == 0 || max_bytes <= utf8_len(header) + utf8_len(footer_text()) {
        Err("sitemap limits must allow at least one URL"@)
    } else {
        match grouping(entry_texts(entries), header, max_urls, max_bytes) {
            None => Err("one sitemap entry exceeds the "@ + decimal(max_bytes) + "-byte document limit"@),
            Some(groups) => Ok(documents_of(header, groups)),
        }
    }
}

pub open spec fn docs_view(r: Result<Vec<String>, String>) -> Result<Seq<Seq<char>>, Seq<char>> {
    match r {
        Ok(v) => Ok(crate::site_discovery::strings_of(v@)),
        Err(e) => Err(e@),
    }
}

proof fn lemma_grouping_error(
    texts: Seq<Seq<char>>,
    header: Seq<char>,
    max_urls: nat,
    max_bytes: nat,
    i: int,
)
    requires
        0 <= i < texts.len(),
        grouping(texts.subrange(0, i + 1), header, max_urls, max_bytes) is None,
    ensures
        grouping(texts, header, max_urls, max_bytes) is None,
    decreases texts.len() - i,
{
    if i + 1 < texts.len() {
        assert(texts.drop_last().subrange(0, i + 1) =~= texts.subrange(0, i + 1));
        lemma_grouping_error(texts.drop_last(), header, max_urls, max_bytes, i);
    } else {
        assert(texts.subrange(0, i + 1) =~= texts);
    }
}

fn message_with_limit(max_bytes: usize) -> (r: String)
    ensures
        r@ == "one sitemap entry exceeds the "@ + decimal(max_bytes as nat) + "-byte document limit"@,
{
    let mut m = str_chars("one sitemap entry exceeds the ");
    push_decimal(&mut m, max_bytes as u64);
    push_str(&mut m, "-byte document limit");
    string_from_chars(m.as_slice())
}

/// The sitemap documents for `entries`: a new document whenever one reaches
/// `max_urls` entries or the next entry would take it past `max_bytes` bytes.
#[verifier::rlimit(60)]
pub fn sitemap_documents_with_limits(
    entries: &[SitemapEntry],
    max_urls: usize,
    max_bytes: usize,
) -> (r: Result<Vec<String>, String>)
    ensures
        docs_view(r) == documents_for(entries@, max_urls as nat, max_bytes as nat),
{
    let features = sitemap_features(entries);
    let header = sitemap_header(features);
    let header_bytes = utf8_length(&header);
    let footer = str_chars("</urlset>\n");
    let footer_bytes = utf8_length(&footer);
    assert(footer@ == footer_text());
    if max_urls == 0 || (max_bytes as u128) <= header_bytes + footer_bytes {
        return Err("sitemap limits must allow at least one URL".to_string());
    }
    let ghost texts = entry_texts(entries@);
    let ghost mut groups: Seq<Seq<Seq<char>>> = seq![Seq::empty()];
    let mut documents: Vec<String> = Vec::new();
    let mut document: Vec<char> = header.clone();
    let mut used: u128 = header_bytes;
    let mut count: usize = 0;
    assert(Seq::<Seq<char>>::empty().flatten_alt() =~= Seq::<char>::empty());
    assert(document@ =~= header@ + groups.last().flatten_alt());
    assert(crate::site_discovery::strings_of(documents@) =~= documents_of(
        header@,
        groups.drop_last(),
    ));
    let mut i: usize = 0;
    while i < entries.len()
        invariant
            i <= entries.len(),
            texts == entry_texts(entries@),
            header@ == header_text(features_of(entries@)),
            header_bytes == utf8_len(header@),
            footer@ == footer_text(),
            footer_bytes == utf8_len(footer_text()),
            header_bytes <= 4 * header.len(),
            footer_bytes <= 4 * footer.len(),
            0 < max_urls,
            max_bytes as u128 > header_bytes + footer_bytes,
            grouping(texts.subrange(0, i as int), header@, max_urls as nat, max_bytes as nat)
                == Some(groups),
            groups.len() > 0,
            count == groups.last().len(),
            count <= max_urls,
            document@ == header@ + groups.last().flatten_alt(),
            used == utf8_len(document@),
            used <= 4 * document.len(),
            crate::site_discovery::strings_of(documents@) == documents_of(
                header@,
                groups.drop_last(),
            ),
        decreases entries.len() - i,
    {
        let mut entry: Vec<char> = Vec::new();
        push_entry_xml(&mut entry, &entries[i]);
        assert(entry@ == texts[i as int]);
        let entry_bytes = utf8_length(&entry);
        assert(texts.subrange(0, i + 1).drop_last() =~= texts.subrange(0, i as int));
        assert(texts.subrange(0, i + 1).last() == entry@);
        assert(grouping(texts.subrange(0, i + 1), header@, max_urls as nat, max_bytes as nat)
            == group_step(groups, entry@, header@, max_urls as nat, max_bytes as nat));
        proof {
            lemma_utf8_len_concat(header@, groups.last().flatten_alt());
        }
        let exceeds = used + entry_bytes + footer_bytes > max_bytes as u128;
        if count > 0 && (count == max_urls || exceeds) {
            if header_bytes + entry_bytes + footer_bytes > max_bytes as u128 {
                proof {
                    lemma_grouping_error(texts, header@, max_urls as nat, max_bytes as nat, i as int);
                }
                return Err(message_with_limit(max_bytes));
            }
            let mut finished = document.clone();
            push_chars(&mut finished, &footer);
            let ghost before = documents@;
            documents.push(string_from_chars(finished.as_slice()));
            proof {
                assert(crate::site_discovery::strings_of(documents@) =~= crate::site_discovery::strings_of(
                    before,
                ).push(finished@));
                assert(groups.push(seq![entry@]).drop_last() =~= groups);
                assert(documents_of(header@, groups) =~= documents_of(
                    header@,
                    groups.drop_last(),
                ).push(document_text(header@, groups.last())));
                groups = groups.push(seq![entry@]);
                assert(seq![entry@].drop_last() =~= Seq::<Seq<char>>::empty());
                assert(Seq::<Seq<char>>::empty().flatten_alt() =~= Seq::<char>::empty());
                assert(seq![entry@].flatten_alt() =~= entry@);
            }
            document = header.clone();
            push_chars(&mut document, &entry);
            assert(document@ =~= header@ + groups.last().flatten_alt());
            proof {
                lemma_utf8_len_concat(header@, entry@);
                lemma_utf8_len_bound(entry@);
            }
            used = header_bytes + entry_bytes;
            count = 1;
        } else {
            if used + entry_bytes + footer_bytes > max_bytes as u128 {
                proof {
                    lemma_grouping_error(texts, header@, max_urls as nat, max_bytes as nat, i as int);
                }
                return Err(message_with_limit(max_bytes));
            }
            let ghost old_doc = document@;
            push_chars(&mut document, &entry);
            proof {
                lemma_utf8_len_concat(old_doc, entry@);
                lemma_utf8_len_bound(entry@);
                let current = groups.last();
                assert(current.push(entry@).drop_last() =~= current);
                assert(groups.drop_last().push(current.push(entry@)).drop_last() =~= groups.drop_last());
                groups = groups.drop_last().push(current.push(entry@));
                assert(current.push(entry@).flatten_alt() =~= current.flatten_alt() + entry@);
                assert(document@ =~= header@ + groups.last().flatten_alt());
            }
            used = used + entry_bytes;
            count = count + 1;
        }
        i += 1;
    }
    assert(texts.subrange(0, entries.len() as int) =~= texts);
    push_chars(&mut document, &footer);
    let ghost before = documents@;
    documents.push(string_from_chars(document.as_slice()));
    proof {
        assert(crate::site_discovery::strings_of(documents@) =~= crate::site_discovery::strings_of(
            before,
        ).push(document@));
        assert(documents_of(header@, groups) =~= documents_of(header@, groups.drop_last()).push(
            document_text(header@, groups.last()),
        ));
    }
    Ok(documents)
}

/// The sitemap documents for `entries` at the protocol limits: 50,000 URLs and
/// 50 MiB per document.
pub fn sitemap_documents(entries: &[SitemapEntry]) -> (r: Result<Vec<String>, String>)
    ensures
        docs_view(r) == documents_for(
            entries@,
            SITEMAP_MAX_URLS as nat,
            SITEMAP_MAX_BYTES as nat,
        ),
{
    sitemap_documents_with_limits(entries, SITEMAP_MAX_URLS, SITEMAP_MAX_BYTES)
}

/// What every grouping keeps: each group within both limits, and the groups,
/// read in order, giving back every entry text in order.
pub open spec fn groups_within(
    groups: Seq<Seq<Seq<char>>>,
    texts: Seq<Seq<char>>,
    header: Seq<char>,
    max_urls: nat,
    max_bytes: nat,
) -> bool {
    &&& groups.len() > 0
    &&& forall|k: int| 0 <= k < groups.len() ==> (#[trigger] groups[k]).len() <= max_urls
    &&& forall|k: int|
        0 <= k < groups.len() ==> utf8_len(header) + utf8_len((#[trigger] groups[k]).flatten_alt())
            + utf8_len(footer_text()) <= max_bytes
    &&& groups.flatten_alt() == texts
}

proof fn lemma_grouping_within(
    texts: Seq<Seq<char>>,
    header: Seq<char>,
    max_urls: nat,
    max_bytes: nat,
)
    requires
        max_urls > 0,
        max_bytes > utf8_len(header) + utf8_len(footer_text()),
    ensures
        grouping(texts, header, max_urls, max_bytes) matches Some(groups) ==> groups_within(
            groups,
            texts,
            header,
            max_urls,
            max_bytes,
        ),
    decreases texts.len(),
{
    if texts.len() == 0 {
        let groups = seq![Seq::<Seq<char>>::empty()];
        assert(Seq::<Seq<char>>::empty().flatten_alt() =~= Seq::<char>::empty());
        assert(groups.drop_last() =~= Seq::<Seq<Seq<char>>>::empty());
        assert(groups.drop_last().flatten_alt() =~= Seq::<Seq<char>>::empty());
        assert(groups.flatten_alt() =~= Seq::<Seq<char>>::empty() + Seq::<Seq<char>>::empty());
        assert(groups.flatten_alt() =~= texts);
    } else {
        lemma_grouping_within(texts.drop_last(), header, max_urls, max_bytes);
        if let Some(g) = grouping(texts.drop_last(), header, max_urls, max_bytes) {
            let e = texts.last();
            let current = g.last();
            let used = utf8_len(header) + utf8_len(current.flatten_alt());
            let tail = utf8_len(e) + utf8_len(footer_text());
            if let Some(next) = group_step(g, e, header, max_urls, max_bytes) {
                if current.len() > 0 && (current.len() == max_urls || used + tail > max_bytes) {
                    assert(next == g.push(seq![e]));
                    assert(seq![e].drop_last() =~= Seq::<Seq<char>>::empty());
                    assert(Seq::<Seq<char>>::empty().flatten_alt() =~= Seq::<char>::empty());
                    assert(seq![e].flatten_alt() =~= e);
                    assert(next.drop_last() =~= g);
                    assert(next.flatten_alt() =~= texts.drop_last() + seq![e]);
                    assert(texts.drop_last() + seq![e] =~= texts);
                    assert forall|k: int| 0 <= k < next.len() implies (#[trigger] next[k]).len()
                        <= max_urls && utf8_len(header) + utf8_len(next[k].flatten_alt()) + utf8_len(
                        footer_text(),
                    ) <= max_bytes by {
                        if k < g.len() {
                            assert(next[k] == g[k]);
                        }
                    }
                } else {
                    let grown = current.push(e);
                    assert(next == g.drop_last().push(grown));
                    assert(grown.drop_last() =~= current);
                    assert(grown.flatten_alt() =~= current.flatten_alt() + e);
                    lemma_utf8_len_concat(current.flatten_alt(), e);
                    assert(next.drop_last() =~= g.drop_last());
                    assert(g.drop_last().push(current) =~= g);
                    assert(g.flatten_alt() =~= g.drop_last().flatten_alt() + current);
                    assert(next.flatten_alt() =~= g.drop_last().flatten_alt() + grown);
                    assert(next.flatten_alt() =~= texts.drop_last() + seq![e]);
                    assert(texts.drop_last() + seq![e] =~= texts);
                    assert forall|k: int| 0 <= k < next.len() implies (#[trigger] next[k]).len()
                        <= max_urls && utf8_len(header) + utf8_len(next[k].flatten_alt()) + utf8_len(
                        footer_text(),
                    ) <= max_bytes by {
                        if k < g.len() - 1 {
                            assert(next[k] == g[k]);
                        } else {
                            assert(next[k] == grown);
                            assert(current == g[g.len() - 1]);
                        }
                    }
                }
            }
        }
    }
}

/// Sharding respects the protocol: no document holds more than `max_urls`
/// entries or more than `max_bytes` bytes, and the documents, read in order,
/// list every entry exactly once and in order.
pub proof fn law_documents_respect_the_limits(
    entries: Seq<SitemapEntry>,
    max_urls: nat,
    max_bytes: nat,
)
    ensures
        documents_for(entries, max_urls, max_bytes) is Ok ==> {
            let header = header_text(features_of(entries));
            exists|groups: Seq<Seq<Seq<char>>>|
                #![trigger documents_of(header, groups)]
                documents_for(entries, max_urls, max_bytes) == Ok::<Seq<Seq<char>>, Seq<char>>(
                    documents_of(header, groups),
                ) && groups_within(groups, entry_texts(entries), header, max_urls, max_bytes)
        },
        documents_for(entries, max_urls, max_bytes) matches Ok(docs) ==> forall|k: int|
            0 <= k < docs.len() ==> utf8_len(#[trigger] docs[k]) <= max_bytes,
{
    let header = header_text(features_of(entries));
    if documents_for(entries, max_urls, max_bytes) is Ok {
        lemma_grouping_within(entry_texts(entries), header, max_urls, max_bytes);
        let groups = grouping(entry_texts(entries), header, max_urls, max_bytes)->Some_0;
        let docs = documents_of(header, groups);
        assert forall|k: int| 0 <= k < docs.len() implies utf8_len(#[trigger] docs[k])
            <= max_bytes by {
            lemma_utf8_len_concat(header, groups[k].flatten_alt());
            lemma_utf8_len_concat(header + groups[k].flatten_alt(), footer_text());
        }
    }
}

proof fn lemma_grouping_fails(texts: Seq<Seq<char>>, header: Seq<char>, max_urls: nat, max_bytes: nat)
    requires
        max_urls >= 1,
    ensures
        grouping(texts, header, max_urls, max_bytes) is None <==> exists|i: int|
            0 <= i < texts.len() && utf8_len(header) + utf8_len(#[trigger] texts[i]) + utf8_len(
                footer_text(),
            ) > max_bytes,
        grouping(texts, header, max_urls, max_bytes) matches Some(g) ==> g.len() >= 1,
    decreases texts.len(),
{
    if texts.len() > 0 {
        let rest = texts.drop_last();
        lemma_grouping_fails(rest, header, max_urls, max_bytes);
        let e = texts.last();
        let over = utf8_len(header) + utf8_len(e) + utf8_len(footer_text()) > max_bytes;
        assert forall|i: int| 0 <= i < rest.len() implies #[trigger] rest[i] == texts[i] by {}
        if exists|i: int|
            0 <= i < rest.len() && utf8_len(header) + utf8_len(#[trigger] rest[i]) + utf8_len(
                footer_text(),
            ) > max_bytes {
            let i = choose|i: int|
                0 <= i < rest.len() && utf8_len(header) + utf8_len(#[trigger] rest[i]) + utf8_len(
                    footer_text(),
                ) > max_bytes;
            assert(texts[i] == rest[i]);
        } else {
            let groups = grouping(rest, header, max_urls, max_bytes)->Some_0;
            let current = groups.last();
            if current.len() == 0 {
                assert(current.flatten_alt() =~= Seq::<char>::empty());
            }
            if over {
                assert(texts[texts.len() - 1] == e);
            } else {
                assert forall|i: int| 0 <= i < texts.len() implies !(utf8_len(header) + utf8_len(
                    #[trigger] texts[i],
                ) + utf8_len(footer_text()) > max_bytes) by {
                    if i < rest.len() {
                        assert(texts[i] == rest[i]);
                    }
                }
            }
        }
    }
}

/// The documents cannot be written exactly when the limits leave no room for
/// one URL, or some entry alone does not fit in a document under them.
pub proof fn law_documents_fail_exactly_when_an_entry_cannot_fit(
    entries: Seq<SitemapEntry>,
    max_urls: nat,
    max_bytes: nat,
)
    ensures
        documents_for(entries, max_urls, max_bytes) is Err <==> ({
            let h = utf8_len(header_text(features_of(entries)));
            let f = utf8_len(footer_text());
            ||| max_urls == 0
            ||| max_bytes <= h + f
            ||| exists|i: int|
                0 <= i < entries.len() && h + utf8_len(entry_xml(#[trigger] entries[i])) + f > max_bytes
        }),
{
    let header = header_text(features_of(entries));
    let texts = entry_texts(entries);
    if max_urls >= 1 {
        lemma_grouping_fails(texts, header, max_urls, max_bytes);
        assert forall|i: int| 0 <= i < entries.len() implies #[trigger] texts[i] == entry_xml(entries[i]) by {}
        if exists|i: int|
            0 <= i < texts.len() && utf8_len(header) + utf8_len(#[trigger] texts[i]) + utf8_len(
                footer_text(),
            ) > max_bytes {
            let i = choose|i: int|
                0 <= i < texts.len() && utf8_len(header) + utf8_len(#[trigger] texts[i]) + utf8_len(
                    footer_text(),
                ) > max_bytes;
            assert(entry_xml(entries[i]) == texts[i]);
        }
        if exists|i: int|
            0 <= i < entries.len() && utf8_len(header) + utf8_len(entry_xml(#[trigger] entries[i]))
                + utf8_len(footer_text()) > max_bytes {
            let i = choose|i: int|
                0 <= i < entries.len() && utf8_len(header) + utf8_len(entry_xml(#[trigger] entries[i]))
                    + utf8_len(footer_text()) > max_bytes;
            assert(texts[i] == entry_xml(entries[i]));
        }
    }
}

/// A document holding `group` is closed before the entry text `next` only
/// because `next` would break a limit: the count, or the bytes.
pub open spec fn closed_before(
    group: Seq<Seq<char>>,
    next: Seq<char>,
    header: Seq<char>,
    max_urls: nat,
    max_bytes: nat,
) -> bool {
    ||| group.len() == max_urls
    ||| utf8_len(header) + utf8_len(group.flatten_alt()) + utf8_len(next) + utf8_len(footer_text())
        > max_bytes
}

/// Each document but the last is followed by a non-empty one, and was closed
/// only because the next one's first entry would not fit in it.
pub open spec fn filled_greedily(
    groups: Seq<Seq<Seq<char>>>,
    header: Seq<char>,
    max_urls: nat,
    max_bytes: nat,
) -> bool {
    forall|k: int|
        0 <= k < groups.len() - 1 ==> (#[trigger] groups[k + 1]).len() > 0 && closed_before(
            groups[k],
            groups[k + 1][0],
            header,
            max_urls,
            max_bytes,
        )
}

proof fn lemma_grouping_greedy(texts: Seq<Seq<char>>, header: Seq<char>, max_urls: nat, max_bytes: nat)
    ensures
        grouping(texts, header, max_urls, max_bytes) matches Some(g) ==> g.len() >= 1
            && filled_greedily(g, header, max_urls, max_bytes),
    decreases texts.len(),
{
    if texts.len() > 0 {
        lemma_grouping_greedy(texts.drop_last(), header, max_urls, max_bytes);
        match grouping(texts.drop_last(), header, max_urls, max_bytes) {
            None => {},
            Some(groups) => {
                let e = texts.last();
                let current = groups.last();
                let used = utf8_len(header) + utf8_len(current.flatten_alt());
                let tail = utf8_len(e) + utf8_len(footer_text());
                if current.len() > 0 && (current.len() == max_urls || used + tail > max_bytes) {
                    if utf8_len(header) + tail <= max_bytes {
                        let g2 = groups.push(seq![e]);
                        assert forall|k: int| 0 <= k < g2.len() - 1 implies (#[trigger] g2[k + 1]).len() > 0
                            && closed_before(g2[k], g2[k + 1][0], header, max_urls, max_bytes) by {
                            if k < groups.len() - 1 {
                                assert(g2[k] == groups[k]);
                                assert(g2[k + 1] == groups[k + 1]);
                            } else {
                                assert(g2[k] == current);
                                assert(g2[k + 1] == seq![e]);
                            }
                        }
                    }
                } else if used + tail <= max_bytes {
                    let g2 = groups.drop_last().push(current.push(e));
                    assert forall|k: int| 0 <= k < g2.len() - 1 implies (#[trigger] g2[k + 1]).len() > 0
                        && closed_before(g2[k], g2[k + 1][0], header, max_urls, max_bytes) by {
                        assert(g2[k] == groups[k]);
                        if k + 1 < groups.len() - 1 {
                            assert(g2[k + 1] == groups[k + 1]);
                        } else {
                            assert(groups[k + 1] == current);
                            assert(current.len() > 0);
                            assert(g2[k + 1] == current.push(e));
                            assert(g2[k + 1][0] == current[0]);
                        }
                    }
                }
            },
        }
    }
}

/// Documents are filled greedily: each is closed only when the entry after
/// it would break the URL count or the byte limit, so no document could have
/// taken the next entry.
pub proof fn law_a_document_closes_only_when_the_next_entry_does_not_fit(
    entries: Seq<SitemapEntry>,
    max_urls: nat,
    max_bytes: nat,
)
    ensures
        documents_for(entries, max_urls, max_bytes) is Ok ==> {
            let header = header_text(features_of(entries));
            let groups = grouping(entry_texts(entries), header, max_urls, max_bytes)->Some_0;
            &&& documents_for(entries, max_urls, max_bytes) == Ok::<Seq<Seq<char>>, Seq<char>>(
                documents_of(header, groups),
            )
            &&& filled_greedily(groups, header, max_urls, max_bytes)
        },
{
    let header = header_text(features_of(entries));
    lemma_grouping_greedy(entry_texts(entries), header, max_urls, max_bytes);
}

// ─── The index ───────────────────────────────────────────────────────────────

pub open spec fn shard_location(site_url: Seq<char>, index: nat) -> Seq<char> {
    site_url + "/sitemap-"@ + decimal(index) + ".xml"@
}

pub open spec fn index_lines(site_url: Seq<char>, n: nat) -> Seq<char>
    decreases n,
{
    if n == 0 {
        Seq::empty()
    } else {
        index_lines(site_url, (n - 1) as nat) + "  <sitemap><loc>"@ + escaped(
            shard_location(site_url, (n - 1) as nat),
        ) + "</loc></sitemap>\n"@
    }
}

pub open spec fn index_head() -> Seq<char> {
    "<?xml version=\"1.0\" encoding=\"UTF-8\"?>\n<sitemapindex xmlns=\"http://www.sitemaps.org/schemas/sitemap/0.9\">\n"@
}

/// The sitemap index for `shard_count` shards, or why there is none.
pub open spec fn index_xml(site_url: Seq<char>, shard_count: nat) -> Result<Seq<char>, Seq<char>> {
    if shard_count > SITEMAP_MAX_URLS {
        Err("sitemap index exceeds the 50000-entry protocol limit"@)
    } else if exists|i: nat|
        i < shard_count && (#[trigger] shard_location(site_url, i)).len()
            > SITEMAP_MAX_LOCATION_CHARS {
        Err("generated sitemap shard URL is too long"@)
    } else {
        let xml = index_head() + index_lines(site_url, shard_count) + "</sitemapindex>\n"@;
        if utf8_len(xml) > SITEMAP_MAX_BYTES {
            Err("sitemap index exceeds the 52428800-byte protocol limit"@)
        } else {
            Ok(xml)
        }
    }
}

pub fn sitemap_index_xml(site_url: &str, shard_count: usize) -> (r: Result<String, String>)
    ensures
        res_view(r) == index_xml(site_url@, shard_count as nat),
        r is Ok ==> shard_count <= SITEMAP_MAX_URLS,
{
    if shard_count > SITEMAP_MAX_URLS {
        return Err("sitemap index exceeds the 50000-entry protocol limit".to_string());
    }
    let mut xml = str_chars(
        "<?xml version=\"1.0\" encoding=\"UTF-8\"?>\n<sitemapindex xmlns=\"http://www.sitemaps.org/schemas/sitemap/0.9\">\n",
    );
    let mut index: usize = 0;
    while index < shard_count
        invariant
            index <= shard_count <= SITEMAP_MAX_URLS,
            xml@ == index_head() + index_lines(site_url@, index as nat),
            forall|i: nat| i < index ==> (#[trigger] shard_location(site_url@, i)).len()
                <= SITEMAP_MAX_LOCATION_CHARS,
        decreases shard_count - index,
    {
        let mut location = str_chars(site_url);
        push_str(&mut location, "/sitemap-");
        push_decimal(&mut location, index as u64);
        push_str(&mut location, ".xml");
        assert(location@ == shard_location(site_url@, index as nat));
        if location.len() > SITEMAP_MAX_LOCATION_CHARS {
            return Err("generated sitemap shard URL is too long".to_string());
        }
        push_str(&mut xml, "  <sitemap><loc>");
        let text = string_from_chars(location.as_slice());
        push_escaped(&mut xml, text.as_str());
        push_str(&mut xml, "</loc></sitemap>\n");
        index += 1;
    }
    push_str(&mut xml, "</sitemapindex>\n");
    if utf8_length(&xml) > SITEMAP_MAX_BYTES as u128 {
        return Err("sitemap index exceeds the 52428800-byte protocol limit".to_string());
    }
    Ok(string_from_chars(xml.as_slice()))
}

// ─── Configured entries ──────────────────────────────────────────────────────

pub open spec fn priority_check(value: Seq<char>, field: Seq<char>) -> Result<(), Seq<char>> {
    if number_within(value, 1) {
        Ok(())
    } else {
        Err(field + " must be between 0 and 1"@)
    }
}

/// A priority, given as its decimal text, lies between 0 and 1.
pub fn validate_priority(value: &str, field: &str) -> (r: Result<(), String>)
    ensures
        unit_view(r) == priority_check(value@, field@),
{
    if within(value, 1) {
        Ok(())
    } else {
        Err(message2(field, " must be between 0 and 1"))
    }
}

/// Metadata applied to every discovered or explicit entry.
#[derive(Debug, Clone, Default)]
pub struct SitemapEntryMetadata {
    pub last_modified: Option<String>,
    pub change_frequency: Option<SitemapChangeFrequency>,
    pub priority: Option<String>,
}

pub open spec fn metadata_check(value: SitemapEntryMetadata, field: Seq<char>) -> Result<
    (),
    Seq<char>,
> {
    let date = match value.last_modified {
        Some(d) => last_modified_check(d@, field + ".lastModified"@),
        None => Ok(()),
    };
    if date is Err {
        date
    } else {
        match value.priority {
            Some(p) => priority_check(p@, field + ".priority"@),
            None => Ok(()),
        }
    }
}

pub fn validate_entry_metadata(value: &SitemapEntryMetadata, field: &str) -> (r: Result<
    (),
    String,
>)
    ensures
        unit_view(r) == metadata_check(*value, field@),
{
    if let Some(d) = &value.last_modified {
        validate_last_modified(d.as_str(), message2(field, ".lastModified").as_str())?;
    }
    if let Some(p) = &value.priority {
        validate_priority(p.as_str(), message2(field, ".priority").as_str())?;
    }
    Ok(())
}

/// Where a configured entry's `url` points: a path under the site, or an
/// absolute URL on the site's origin.
pub open spec fn entry_location(value: Seq<char>, site_url: Seq<char>, field: Seq<char>) -> Result<
    Seq<char>,
    Seq<char>,
> {
    let location: Result<Seq<char>, Seq<char>> = if value.len() > 0 && value[0] == '/' {
        match application_path_check(value, field + ".url"@) {
            Err(e) => Err(e),
            Ok(()) => Ok(site_url + percent_encoded(vstd::utf8::encode_utf8(value))),
        }
    } else {
        match absolute_http_url(value, field + ".url"@) {
            Err(e) => Err(e),
            Ok(n) => if n == site_url {
                Ok(site_url + "/"@)
            } else if starts_with(n, site_url + "/"@) || starts_with(n, site_url + "?"@) {
                Ok(n)
            } else {
                Err(field + ".url must use the configured sitemap origin "@ + site_url)
            },
        }
    };
    match location {
        Err(e) => Err(e),
        Ok(l) => match location_check(l, field) {
            Err(e) => Err(e),
            Ok(()) => Ok(l),
        },
    }
}

pub fn normalize_sitemap_entry_url(value: &str, site_url: &str, field: &str) -> (r: Result<
    String,
    String,
>)
    ensures
        res_view(r) == entry_location(value@, site_url@, field@),
{
    let v = str_chars(value);
    let url_field = message2(field, ".url");
    let location: String = if v.len() > 0 && v[0] == '/' {
        validate_application_path(value, url_field.as_str())?;
        let mut l = str_chars(site_url);
        push_percent_encoded(&mut l, value);
        string_from_chars(l.as_slice())
    } else {
        let normalized = normalize_absolute_http_url(value, url_field.as_str())?;
        let n = str_chars(normalized.as_str());
        let site = str_chars(site_url);
        let mut slash = site.clone();
        push_str(&mut slash, "/");
        let mut query = site.clone();
        push_str(&mut query, "?");
        if chars_eq(n.as_slice(), site.as_slice()) {
            string_from_chars(slash.as_slice())
        } else if has_prefix(n.as_slice(), slash.as_slice()) || has_prefix(
            n.as_slice(),
            query.as_slice(),
        ) {
            normalized
        } else {
            let mut m = str_chars(field);
            push_str(&mut m, ".url must use the configured sitemap origin ");
            push_chars(&mut m, &site);
            return Err(string_from_chars(m.as_slice()));
        }
    };
    validate_sitemap_location(location.as_str(), field)?;
    Ok(location)
}

pub open spec fn language_tag_ok(tag: Seq<char>) -> bool {
    tag.len() > 0 && forall|k: int| 0 <= k < tag.len() ==> is_ascii_alnum(#[trigger] tag[k]) || tag[k]
        == '-'
}

/// Each alternate's URL normalized, in order, or the first that cannot be:
/// an invalid language tag, or a URL that is not absolute http(s).
pub open spec fn alternates_normalized(
    pairs: Seq<(Seq<char>, Seq<char>)>,
    field: Seq<char>,
) -> Result<Seq<(Seq<char>, Seq<char>)>, Seq<char>>
    decreases pairs.len(),
{
    if pairs.len() == 0 {
        Ok(Seq::empty())
    } else {
        match alternates_normalized(pairs.drop_last(), field) {
            Err(e) => Err(e),
            Ok(done) => {
                let (language, href) = pairs.last();
                if !language_tag_ok(language) {
                    Err(field + ".alternates.languages contains invalid language tag "@ + language)
                } else {
                    match absolute_http_url(href, field + ".alternates.languages."@ + language) {
                        Err(e) => Err(e),
                        Ok(u) => Ok(done.push((language, u))),
                    }
                }
            },
        }
    }
}

proof fn lemma_alternates_error(pairs: Seq<(Seq<char>, Seq<char>)>, field: Seq<char>, i: int)
    requires
        0 <= i < pairs.len(),
        alternates_normalized(pairs.subrange(0, i + 1), field) is Err,
    ensures
        alternates_normalized(pairs, field) == alternates_normalized(pairs.subrange(0, i + 1), field),
    decreases pairs.len() - i,
{
    if i + 1 < pairs.len() {
        assert(pairs.drop_last().subrange(0, i + 1) =~= pairs.subrange(0, i + 1));
        lemma_alternates_error(pairs.drop_last(), field, i);
    } else {
        assert(pairs.subrange(0, i + 1) =~= pairs);
    }
}

fn tag_ok(tag: &Vec<char>) -> (r: bool)
    ensures
        r == language_tag_ok(tag@),
{
    if tag.len() == 0 {
        return false;
    }
    let mut i: usize = 0;
    while i < tag.len()
        invariant
            i <= tag.len(),
            forall|k: int| 0 <= k < i ==> is_ascii_alnum(#[trigger] tag@[k]) || tag@[k] == '-',
        decreases tag.len() - i,
    {
        if !(ascii_alnum(tag[i]) || tag[i] == '-') {
            return false;
        }
        i += 1;
    }
    true
}

pub fn normalize_alternates(alternates: &Vec<(String, String)>, field: &str) -> (r: Result<
    Vec<(String, String)>,
    String,
>)
    ensures
        match r {
            Ok(v) => alternates_normalized(pairs_of(alternates@), field@) == Ok::<
                Seq<(Seq<char>, Seq<char>)>,
                Seq<char>,
            >(pairs_of(v@)),
            Err(e) => alternates_normalized(pairs_of(alternates@), field@) == Err::<
                Seq<(Seq<char>, Seq<char>)>,
                Seq<char>,
            >(e@),
        },
{
    let ghost all = pairs_of(alternates@);
    let mut out: Vec<(String, String)> = Vec::new();
    let mut i: usize = 0;
    assert(all.subrange(0, 0) =~= Seq::<(Seq<char>, Seq<char>)>::empty());
    assert(pairs_of(out@) =~= Seq::<(Seq<char>, Seq<char>)>::empty());
    while i < alternates.len()
        invariant
            i <= alternates.len(),
            all == pairs_of(alternates@),
            alternates_normalized(all.subrange(0, i as int), field@) == Ok::<
                Seq<(Seq<char>, Seq<char>)>,
                Seq<char>,
            >(pairs_of(out@)),
        decreases alternates.len() - i,
    {
        let language = &alternates[i].0;
        let href = &alternates[i].1;
        assert(all.subrange(0, i + 1).drop_last() =~= all.subrange(0, i as int));
        assert(all.subrange(0, i + 1).last() == (language@, href@));
        let tag = str_chars(language.as_str());
        if !tag_ok(&tag) {
            let mut m = str_chars(field);
            push_str(&mut m, ".alternates.languages contains invalid language tag ");
            push_chars(&mut m, &tag);
            proof {
                lemma_alternates_error(all, field@, i as int);
            }
            return Err(string_from_chars(m.as_slice()));
        }
        let mut f = str_chars(field);
        push_str(&mut f, ".alternates.languages.");
        push_chars(&mut f, &tag);
        let f = string_from_chars(f.as_slice());
        match normalize_absolute_http_url(href.as_str(), f.as_str()) {
            Ok(u) => {
                let ghost before = out@;
                out.push((language.clone(), u));
                assert(pairs_of(out@) =~= pairs_of(before).push((language@, u@)));
            },
            Err(e) => {
                proof {
                    lemma_alternates_error(all, field@, i as int);
                }
                return Err(e);
            },
        }
        i += 1;
    }
    assert(all.subrange(0, alternates.len() as int) =~= all);
    Ok(out)
}

// ─── Videos ──────────────────────────────────────────────────────────────────

pub open spec fn err_of(r: Result<(), Seq<char>>) -> Option<Seq<char>> {
    match r {
        Err(e) => Some(e),
        Ok(()) => None,
    }
}

pub open spec fn url_err(r: Result<Seq<char>, Seq<char>>) -> Option<Seq<char>> {
    match r {
        Err(e) => Some(e),
        Ok(_) => None,
    }
}

/// The earlier of two problems.
pub open spec fn first(a: Option<Seq<char>>, b: Option<Seq<char>>) -> Option<Seq<char>> {
    if a is Some {
        a
    } else {
        b
    }
}

pub open spec fn opt_url_err(v: Option<String>, field: Seq<char>) -> Option<Seq<char>> {
    match v {
        Some(u) => url_err(absolute_http_url(u@, field)),
        None => None,
    }
}

pub open spec fn opt_date_err(v: Option<String>, field: Seq<char>) -> Option<Seq<char>> {
    match v {
        Some(d) => err_of(last_modified_check(d@, field)),
        None => None,
    }
}

pub open spec fn relationship_err(v: Option<SitemapVideoRelationship>, field: Seq<char>) -> Option<
    Seq<char>,
> {
    match v {
        Some(r) => err_of(non_empty_text_check(r.content@, field)),
        None => None,
    }
}

pub open spec fn duration_err(v: Option<u32>, field: Seq<char>) -> Option<Seq<char>> {
    match v {
        Some(d) => if 1 <= d <= 28800 {
            None
        } else {
            Some(field + ".duration must be between 1 and 28800 seconds"@)
        },
        None => None,
    }
}

pub open spec fn rating_err(v: Option<String>, field: Seq<char>) -> Option<Seq<char>> {
    match v {
        Some(r) => if number_within(r@, 5) {
            None
        } else {
            Some(field + ".rating must be between 0 and 5"@)
        },
        None => None,
    }
}

pub open spec fn uploader_err(v: Option<SitemapVideoUploader>, field: Seq<char>) -> Option<
    Seq<char>,
> {
    match v {
        Some(u) => first(
            err_of(non_empty_text_check(u.content@, field + ".uploader.content"@)),
            opt_url_err(u.info, field + ".uploader.info"@),
        ),
        None => None,
    }
}

/// The first tag that is empty or spans lines.
pub open spec fn tags_err(tags: Seq<Seq<char>>, field: Seq<char>) -> Option<Seq<char>>
    decreases tags.len(),
{
    if tags.len() == 0 {
        None
    } else {
        first(tags_err(tags.drop_last(), field), err_of(non_empty_text_check(tags.last(), field)))
    }
}

/// The first problem of a video, in the order its fields are checked.
pub open spec fn video_problem(v: SitemapVideo, f: Seq<char>) -> Option<Seq<char>> {
    first(
        err_of(non_empty_text_check(v.title@, f + ".title"@)),
        first(
            err_of(non_empty_text_check(v.description@, f + ".description"@)),
            first(
                url_err(absolute_http_url(v.thumbnail_loc@, f + ".thumbnail_loc"@)),
                first(
                    opt_url_err(v.content_loc, f + ".content_loc"@),
                    first(
                        opt_url_err(v.player_loc, f + ".player_loc"@),
                        first(
                            duration_err(v.duration, f),
                            first(
                                rating_err(v.rating, f),
                                first(
                                    opt_date_err(v.expiration_date, f + ".expiration_date"@),
                                    first(
                                        opt_date_err(v.publication_date, f + ".publication_date"@),
                                        first(
                                            relationship_err(v.restriction, f + ".restriction.content"@),
                                            first(
                                                relationship_err(v.platform, f + ".platform.content"@),
                                                first(
                                                    uploader_err(v.uploader, f),
                                                    tags_err(video_tags(v), f + ".tag"@),
                                                ),
                                            ),
                                        ),
                                    ),
                                ),
                            ),
                        ),
                    ),
                ),
            ),
        ),
    )
}

pub open spec fn url_value(v: Seq<char>, field: Seq<char>) -> Seq<char> {
    absolute_http_url(v, field)->Ok_0
}

pub open spec fn opt_url_value(v: Option<String>, field: Seq<char>) -> Option<Seq<char>> {
    match v {
        Some(u) => Some(url_value(u@, field)),
        None => None,
    }
}

pub open spec fn same_relationship(a: Option<SitemapVideoRelationship>, b: Option<SitemapVideoRelationship>) -> bool {
    match (a, b) {
        (Some(x), Some(y)) => x.relationship == y.relationship && x.content@ == y.content@,
        (None, None) => true,
        _ => false,
    }
}

/// `new` is `old` with its URLs normalized: thumbnail, content, player, and
/// uploader info; every other field as it was.
pub open spec fn video_normalized(old: SitemapVideo, new: SitemapVideo, f: Seq<char>) -> bool {
    &&& new.title@ == old.title@
    &&& new.description@ == old.description@
    &&& new.thumbnail_loc@ == url_value(old.thumbnail_loc@, f + ".thumbnail_loc"@)
    &&& opt_text(new.content_loc) == opt_url_value(old.content_loc, f + ".content_loc"@)
    &&& opt_text(new.player_loc) == opt_url_value(old.player_loc, f + ".player_loc"@)
    &&& new.duration == old.duration
    &&& new.view_count == old.view_count
    &&& opt_text(new.rating) == opt_text(old.rating)
    &&& opt_text(new.expiration_date) == opt_text(old.expiration_date)
    &&& opt_text(new.publication_date) == opt_text(old.publication_date)
    &&& new.family_friendly == old.family_friendly
    &&& new.requires_subscription == old.requires_subscription
    &&& new.live == old.live
    &&& same_relationship(new.restriction, old.restriction)
    &&& same_relationship(new.platform, old.platform)
    &&& match (new.uploader, old.uploader) {
        (Some(n), Some(o)) => n.content@ == o.content@ && opt_text(n.info) == opt_url_value(
            o.info,
            f + ".uploader.info"@,
        ),
        (None, None) => true,
        _ => false,
    }
    &&& video_tags(new) == video_tags(old)
}

fn check_text(value: &String, field: &str, suffix: &str) -> (r: Result<(), String>)
    ensures
        unit_view(r) == non_empty_text_check(value@, field@ + suffix@),
{
    validate_non_empty_text(value.as_str(), message2(field, suffix).as_str())
}

fn normalize_opt_url(value: &Option<String>, field: &str, suffix: &str) -> (r: Result<
    Option<String>,
    String,
>)
    ensures
        match r {
            Ok(n) => opt_url_err(*value, field@ + suffix@) is None && opt_text(n) == opt_url_value(
                *value,
                field@ + suffix@,
            ),
            Err(e) => opt_url_err(*value, field@ + suffix@) == Some(e@),
        },
{
    match value {
        Some(u) => {
            let n = normalize_absolute_http_url(u.as_str(), message2(field, suffix).as_str())?;
            Ok(Some(n))
        },
        None => Ok(None),
    }
}

fn check_opt_date(value: &Option<String>, field: &str, suffix: &str) -> (r: Result<(), String>)
    ensures
        match r {
            Ok(()) => opt_date_err(*value, field@ + suffix@) is None,
            Err(e) => opt_date_err(*value, field@ + suffix@) == Some(e@),
        },
{
    match value {
        Some(d) => validate_last_modified(d.as_str(), message2(field, suffix).as_str()),
        None => Ok(()),
    }
}

fn check_relationship(value: &Option<SitemapVideoRelationship>, field: &str, suffix: &str) -> (r:
    Result<(), String>)
    ensures
        match r {
            Ok(()) => relationship_err(*value, field@ + suffix@) is None,
            Err(e) => relationship_err(*value, field@ + suffix@) == Some(e@),
        },
{
    match value {
        Some(rel) => check_text(&rel.content, field, suffix),
        None => Ok(()),
    }
}

fn check_tags(video: &SitemapVideo, field: &str) -> (r: Result<(), String>)
    ensures
        match r {
            Ok(()) => tags_err(video_tags(*video), field@ + ".tag"@) is None,
            Err(e) => tags_err(video_tags(*video), field@ + ".tag"@) == Some(e@),
        },
{
    let tags: Vec<String> = match &video.tag {
        Some(t) => t.values(),
        None => Vec::new(),
    };
    let ghost all = strings_of(tags@);
    assert(all =~= video_tags(*video));
    let tag_field = message2(field, ".tag");
    let mut i: usize = 0;
    while i < tags.len()
        invariant
            i <= tags.len(),
            all == strings_of(tags@),
            all == video_tags(*video),
            tag_field@ == field@ + ".tag"@,
            tags_err(all.subrange(0, i as int), tag_field@) is None,
        decreases tags.len() - i,
    {
        assert(all.subrange(0, i + 1).drop_last() =~= all.subrange(0, i as int));
        match validate_non_empty_text(tags[i].as_str(), tag_field.as_str()) {
            Ok(()) => {},
            Err(e) => {
                proof {
                    assert(all.subrange(0, i + 1).last() == all[i as int]);
                    assert(tags_err(all.subrange(0, i + 1), tag_field@) == Some(e@));
                    lemma_tags_error(all, tag_field@, i as int);
                }
                return Err(e);
            },
        }
        i += 1;
    }
    assert(all.subrange(0, tags.len() as int) =~= all);
    Ok(())
}

proof fn lemma_tags_error(tags: Seq<Seq<char>>, field: Seq<char>, i: int)
    requires
        0 <= i < tags.len(),
        tags_err(tags.subrange(0, i + 1), field) is Some,
    ensures
        tags_err(tags, field) == tags_err(tags.subrange(0, i + 1), field),
    decreases tags.len() - i,
{
    if i + 1 < tags.len() {
        assert(tags.drop_last().subrange(0, i + 1) =~= tags.subrange(0, i + 1));
        lemma_tags_error(tags.drop_last(), field, i);
    } else {
        assert(tags.subrange(0, i + 1) =~= tags);
    }
}

fn copy_text(v: &Option<String>) -> (r: Option<String>)
    ensures
        opt_text(r) == opt_text(*v),
{
    match v {
        Some(s) => Some(s.clone()),
        None => None,
    }
}

fn copy_relationship(v: &Option<SitemapVideoRelationship>) -> (r: Option<SitemapVideoRelationship>)
    ensures
        same_relationship(r, *v),
{
    match v {
        Some(x) => Some(SitemapVideoRelationship { relationship: x.relationship, content: x.content.clone() }),
        None => None,
    }
}

fn copy_tags(v: &Option<crate::site_discovery::OneOrManyStrings>) -> (r: Option<
    crate::site_discovery::OneOrManyStrings,
>)
    ensures
        crate::site_discovery::opt_values(r) == crate::site_discovery::opt_values(*v),
{
    match v {
        Some(t) => Some(crate::site_discovery::OneOrManyStrings::Many(t.values())),
        None => None,
    }
}

/// A copy of `video` with its URLs normalized, or its first problem.
pub fn normalized_video(video: &SitemapVideo, field: &str) -> (r: Result<SitemapVideo, String>)
    ensures
        match r {
            Ok(n) => video_problem(*video, field@) is None && video_normalized(*video, n, field@),
            Err(e) => video_problem(*video, field@) == Some(e@),
        },
{
    check_text(&video.title, field, ".title")?;
    check_text(&video.description, field, ".description")?;
    let thumbnail = normalize_absolute_http_url(
        video.thumbnail_loc.as_str(),
        message2(field, ".thumbnail_loc").as_str(),
    )?;
    let content_loc = normalize_opt_url(&video.content_loc, field, ".content_loc")?;
    let player_loc = normalize_opt_url(&video.player_loc, field, ".player_loc")?;
    if let Some(d) = video.duration {
        if !(1 <= d && d <= 28800) {
            return Err(message2(field, ".duration must be between 1 and 28800 seconds"));
        }
    }
    if let Some(rating) = &video.rating {
        if !within(rating.as_str(), 5) {
            return Err(message2(field, ".rating must be between 0 and 5"));
        }
    }
    check_opt_date(&video.expiration_date, field, ".expiration_date")?;
    check_opt_date(&video.publication_date, field, ".publication_date")?;
    check_relationship(&video.restriction, field, ".restriction.content")?;
    check_relationship(&video.platform, field, ".platform.content")?;
    let uploader: Option<SitemapVideoUploader> = match &video.uploader {
        Some(u) => {
            check_text(&u.content, field, ".uploader.content")?;
            let info = normalize_opt_url(&u.info, field, ".uploader.info")?;
            Some(SitemapVideoUploader { content: u.content.clone(), info })
        },
        None => None,
    };
    check_tags(video, field)?;
    Ok(
        SitemapVideo {
            title: video.title.clone(),
            thumbnail_loc: thumbnail,
            description: video.description.clone(),
            content_loc,
            player_loc,
            duration: video.duration,
            view_count: video.view_count,
            rating: copy_text(&video.rating),
            expiration_date: copy_text(&video.expiration_date),
            publication_date: copy_text(&video.publication_date),
            family_friendly: video.family_friendly,
            requires_subscription: video.requires_subscription,
            live: video.live,
            restriction: copy_relationship(&video.restriction),
            platform: copy_relationship(&video.platform),
            uploader,
            tag: copy_tags(&video.tag),
        },
    )
}

/// Validates a video and normalizes its URLs; on a problem the video is left
/// as it was.
pub fn normalize_video(video: &mut SitemapVideo, field: &str) -> (r: Result<(), String>)
    ensures
        match r {
            Ok(()) => video_problem(*old(video), field@) is None && video_normalized(
                *old(video),
                *final(video),
                field@,
            ),
            Err(e) => video_problem(*old(video), field@) == Some(e@) && *final(video) == *old(
                video,
            ),
        },
{
    let normalized = normalized_video(video, field)?;
    *video = normalized;
    Ok(())
}

// ─── Listing the entries ─────────────────────────────────────────────────────

/// A route of the manifest, as the sitemap reads it: its path, and whether it
/// renders a page.
#[derive(Debug, Clone)]
pub struct ManifestRoute {
    pub path: String,
    pub page: bool,
}

/// A Next-style entry that enriches a discovered URL or adds a new one.
#[derive(Debug, Clone, Default)]
pub struct SitemapEntryOptions {
    pub url: String,
    pub last_modified: Option<String>,
    pub change_frequency: Option<SitemapChangeFrequency>,
    pub priority: Option<String>,
    pub alternates: Vec<(String, String)>,
    pub images: Vec<String>,
    pub videos: Vec<SitemapVideo>,
}

/// Additive controls for the route-derived sitemap.
#[derive(Debug, Clone, Default)]
pub struct SitemapGenerationOptions {
    /// Exact paths or trailing-`*` path prefixes omitted from the sitemap.
    pub exclude: Vec<String>,
    /// Concrete paths that cannot be inferred from the route manifest.
    pub additional_paths: Vec<String>,
    /// Metadata applied to every automatically discovered or explicit entry.
    pub defaults: SitemapEntryMetadata,
    pub entries: Vec<SitemapEntryOptions>,
}

/// A path the manifest can list: one without a route parameter.
pub open spec fn listable(path: Seq<char>) -> bool {
    !contains_char(path, '[')
}

/// The concrete paths of the manifest's pages and of the prerendered pages.
pub open spec fn discovered_paths(routes: Seq<ManifestRoute>, prerendered: Seq<String>) -> Set<
    Seq<char>,
> {
    Set::new(
        |p: Seq<char>|
            listable(p) && ((exists|k: int|
                0 <= k < routes.len() && (#[trigger] routes[k]).page && routes[k].path@ == p) || (
            exists|k: int| 0 <= k < prerendered.len() && (#[trigger] prerendered[k])@ == p)),
    )
}

/// The first of `checks`, in order, that fails.
pub open spec fn first_failure(checks: Seq<Result<(), Seq<char>>>) -> Option<Seq<char>>
    decreases checks.len(),
{
    if checks.len() == 0 {
        None
    } else {
        first(first_failure(checks.drop_last()), err_of(checks.last()))
    }
}

pub open spec fn exclusion_checks(patterns: Seq<Seq<char>>) -> Seq<Result<(), Seq<char>>> {
    patterns.map_values(|p: Seq<char>| exclusion_check(p))
}

pub open spec fn additional_checks(paths: Seq<Seq<char>>) -> Seq<Result<(), Seq<char>>> {
    paths.map_values(|p: Seq<char>| application_path_check(p, "site.sitemap.additionalPaths"@))
}

/// The paths that stay listed once no exclusion matches them.
pub open spec fn kept_paths(all: Set<Seq<char>>, patterns: Seq<Seq<char>>) -> Set<Seq<char>> {
    all.filter(|p: Seq<char>| !exists|k: int| 0 <= k < patterns.len() && excludes(#[trigger] patterns[k], p))
}

/// The paths of a finite set in order.
pub open spec fn in_order(paths: Set<Seq<char>>) -> Seq<Seq<char>> {
    choose|q: Seq<Seq<char>>| sorted_strictly(q) && q.to_set() == paths
}

pub open spec fn route_location(site_url: Seq<char>, path: Seq<char>) -> Seq<char> {
    site_url + percent_encoded(vstd::utf8::encode_utf8(path))
}

pub open spec fn location_checks(paths: Seq<Seq<char>>, site_url: Seq<char>) -> Seq<
    Result<(), Seq<char>>,
> {
    paths.map_values(|p: Seq<char>| location_check(route_location(site_url, p), "sitemap route"@))
}

/// What an entry holds, apart from its location.
pub ghost struct EntryModel {
    pub last_modified: Option<Seq<char>>,
    pub change_frequency: Option<SitemapChangeFrequency>,
    pub priority: Option<Seq<char>>,
    pub alternates: Seq<(Seq<char>, Seq<char>)>,
    pub images: Seq<Seq<char>>,
    /// The configured entry whose videos it carries, normalized.
    pub videos_from: Option<nat>,
}

pub open spec fn default_model(defaults: SitemapEntryMetadata) -> EntryModel {
    EntryModel {
        last_modified: opt_text(defaults.last_modified),
        change_frequency: defaults.change_frequency,
        priority: opt_text(defaults.priority),
        alternates: Seq::empty(),
        images: Seq::empty(),
        videos_from: None,
    }
}

pub open spec fn entry_field(i: nat) -> Seq<char> {
    "site.sitemap.entries["@ + decimal(i) + "]"@
}

pub open spec fn indexed_field(field: Seq<char>, name: Seq<char>, j: nat) -> Seq<char> {
    field + "."@ + name + "["@ + decimal(j) + "]"@
}

/// Each image URL normalized, or the first that is not an absolute http(s) URL.
pub open spec fn images_normalized(images: Seq<Seq<char>>, field: Seq<char>) -> Result<
    Seq<Seq<char>>,
    Seq<char>,
>
    decreases images.len(),
{
    if images.len() == 0 {
        Ok(Seq::empty())
    } else {
        match images_normalized(images.drop_last(), field) {
            Err(e) => Err(e),
            Ok(done) => match absolute_http_url(
                images.last(),
                indexed_field(field, "images"@, (images.len() - 1) as nat),
            ) {
                Err(e) => Err(e),
                Ok(u) => Ok(done.push(u)),
            },
        }
    }
}

/// The first video with a problem.
pub open spec fn videos_problem(videos: Seq<SitemapVideo>, field: Seq<char>) -> Option<Seq<char>>
    decreases videos.len(),
{
    if videos.len() == 0 {
        None
    } else {
        first(
            videos_problem(videos.drop_last(), field),
            video_problem(videos.last(), indexed_field(field, "videos"@, (videos.len() - 1) as nat)),
        )
    }
}

/// The entry a configured entry makes of `base`.
pub open spec fn updated_model(
    base: EntryModel,
    cfg: SitemapEntryOptions,
    i: nat,
    alternates: Seq<(Seq<char>, Seq<char>)>,
    images: Seq<Seq<char>>,
) -> EntryModel {
    EntryModel {
        last_modified: if cfg.last_modified is Some {
            opt_text(cfg.last_modified)
        } else {
            base.last_modified
        },
        change_frequency: if cfg.change_frequency is Some {
            cfg.change_frequency
        } else {
            base.change_frequency
        },
        priority: if cfg.priority is Some {
            opt_text(cfg.priority)
        } else {
            base.priority
        },
        alternates,
        images,
        videos_from: Some(i),
    }
}

pub open spec fn cfg_date_check(cfg: SitemapEntryOptions, field: Seq<char>) -> Result<(), Seq<char>> {
    match cfg.last_modified {
        Some(d) => last_modified_check(d@, field + ".lastModified"@),
        None => Ok(()),
    }
}

pub open spec fn cfg_priority_check(cfg: SitemapEntryOptions, field: Seq<char>) -> Result<
    (),
    Seq<char>,
> {
    match cfg.priority {
        Some(p) => priority_check(p@, field + ".priority"@),
        None => Ok(()),
    }
}

/// Applies the `i`th configured entry to the entries so far.
pub open spec fn apply_entry(
    m: Map<Seq<char>, EntryModel>,
    cfg: SitemapEntryOptions,
    i: nat,
    site_url: Seq<char>,
    defaults: SitemapEntryMetadata,
) -> Result<Map<Seq<char>, EntryModel>, Seq<char>> {
    let field = entry_field(i);
    match entry_location(cfg.url@, site_url, field) {
        Err(e) => Err(e),
        Ok(loc) => {
            let base = if m.contains_key(loc) {
                m[loc]
            } else {
                default_model(defaults)
            };
            if cfg_date_check(cfg, field) is Err {
                Err(cfg_date_check(cfg, field)->Err_0)
            } else if cfg_priority_check(cfg, field) is Err {
                Err(cfg_priority_check(cfg, field)->Err_0)
            } else {
                match alternates_normalized(pairs_of(cfg.alternates@), field) {
                    Err(e) => Err(e),
                    Ok(alternates) => match images_normalized(strings_of(cfg.images@), field) {
                        Err(e) => Err(e),
                        Ok(images) => match videos_problem(cfg.videos@, field) {
                            Some(e) => Err(e),
                            None => Ok(m.insert(loc, updated_model(base, cfg, i, alternates, images))),
                        },
                    },
                }
            }
        },
    }
}

/// The entries after the first `n` configured entries.
pub open spec fn apply_entries(
    m: Map<Seq<char>, EntryModel>,
    cfgs: Seq<SitemapEntryOptions>,
    n: nat,
    site_url: Seq<char>,
    defaults: SitemapEntryMetadata,
) -> Result<Map<Seq<char>, EntryModel>, Seq<char>>
    decreases n,
{
    if n == 0 {
        Ok(m)
    } else {
        match apply_entries(m, cfgs, (n - 1) as nat, site_url, defaults) {
            Err(e) => Err(e),
            Ok(before) => apply_entry(before, cfgs[n - 1], (n - 1) as nat, site_url, defaults),
        }
    }
}

/// The entries discovered from the manifest, before any configured entry.
pub open spec fn discovered_entries(
    keep: Set<Seq<char>>,
    site_url: Seq<char>,
    defaults: SitemapEntryMetadata,
) -> Map<Seq<char>, EntryModel> {
    Map::new(
        |loc: Seq<char>| exists|p: Seq<char>| keep.contains(p) && loc == route_location(site_url, p),
        |loc: Seq<char>| default_model(defaults),
    )
}

/// The sitemap's entries, keyed by location, or the first problem met in
/// the order the inputs are read: exclusions, additional paths, the default
/// metadata, the discovered locations in path order, then the configured
/// entries in order.
pub open spec fn entries_plan(
    routes: Seq<ManifestRoute>,
    prerendered: Seq<String>,
    site_url: Seq<char>,
    exclude: Seq<Seq<char>>,
    additional: Seq<Seq<char>>,
    defaults: SitemapEntryMetadata,
    cfgs: Seq<SitemapEntryOptions>,
) -> Result<Map<Seq<char>, EntryModel>, Seq<char>> {
    if first_failure(exclusion_checks(exclude)) is Some {
        Err(first_failure(exclusion_checks(exclude))->Some_0)
    } else if first_failure(additional_checks(additional)) is Some {
        Err(first_failure(additional_checks(additional))->Some_0)
    } else if metadata_check(defaults, "site.sitemap.defaults"@) is Err {
        Err(metadata_check(defaults, "site.sitemap.defaults"@)->Err_0)
    } else {
        let keep = kept_paths(discovered_paths(routes, prerendered) + additional.to_set(), exclude);
        let ordered = in_order(keep);
        if first_failure(location_checks(ordered, site_url)) is Some {
            Err(first_failure(location_checks(ordered, site_url))->Some_0)
        } else {
            apply_entries(
                discovered_entries(keep, site_url, defaults),
                cfgs,
                cfgs.len(),
                site_url,
                defaults,
            )
        }
    }
}

/// The pages a plan lists before any configured entry: every listable page
/// of the manifest, every prerendered page and every additional path, minus
/// those an exclusion matches.
pub open spec fn kept_pages(
    routes: Seq<ManifestRoute>,
    prerendered: Seq<String>,
    exclude: Seq<Seq<char>>,
    additional: Seq<Seq<char>>,
) -> Set<Seq<char>> {
    kept_paths(discovered_paths(routes, prerendered) + additional.to_set(), exclude)
}

#[verifier::rlimit(40)]
proof fn lemma_apply_entries_grows(
    m: Map<Seq<char>, EntryModel>,
    cfgs: Seq<SitemapEntryOptions>,
    n: nat,
    site_url: Seq<char>,
    defaults: SitemapEntryMetadata,
)
    requires
        n <= cfgs.len(),
        apply_entries(m, cfgs, n, site_url, defaults) is Ok,
    ensures
        m.dom().subset_of(apply_entries(m, cfgs, n, site_url, defaults)->Ok_0.dom()),
        forall|k: int|
            0 <= k < n ==> (#[trigger] entry_location(cfgs[k].url@, site_url, entry_field(k as nat))) is Ok
                && apply_entries(m, cfgs, n, site_url, defaults)->Ok_0.dom().contains(
                entry_location(cfgs[k].url@, site_url, entry_field(k as nat))->Ok_0,
            ),
        forall|loc: Seq<char>|
            #[trigger] apply_entries(m, cfgs, n, site_url, defaults)->Ok_0.dom().contains(loc) ==> m.dom().contains(
                loc,
            ) || exists|k: int|
                0 <= k < n && #[trigger] entry_location(cfgs[k].url@, site_url, entry_field(k as nat))
                    == Ok::<Seq<char>, Seq<char>>(loc),
    decreases n,
{
    if n > 0 {
        lemma_apply_entries_grows(m, cfgs, (n - 1) as nat, site_url, defaults);
        let before = apply_entries(m, cfgs, (n - 1) as nat, site_url, defaults)->Ok_0;
        let after = apply_entries(m, cfgs, n, site_url, defaults)->Ok_0;
        assert(apply_entries(m, cfgs, n, site_url, defaults) == apply_entry(
            before,
            cfgs[n - 1],
            (n - 1) as nat,
            site_url,
            defaults,
        ));
        let loc = entry_location(cfgs[n - 1].url@, site_url, entry_field((n - 1) as nat))->Ok_0;
        assert(after.dom() == before.dom().insert(loc));
        assert forall|l: Seq<char>| #[trigger] after.dom().contains(l) implies m.dom().contains(l) || exists|k: int|
            0 <= k < n && #[trigger] entry_location(cfgs[k].url@, site_url, entry_field(k as nat))
                == Ok::<Seq<char>, Seq<char>>(l) by {
            if l == loc {
                assert(entry_location(cfgs[n - 1].url@, site_url, entry_field((n - 1) as nat)) == Ok::<
                    Seq<char>,
                    Seq<char>,
                >(l));
            } else {
                assert(before.dom().contains(l));
                if !m.dom().contains(l) {
                    let k = choose|k: int|
                        0 <= k < n - 1 && #[trigger] entry_location(
                            cfgs[k].url@,
                            site_url,
                            entry_field(k as nat),
                        ) == Ok::<Seq<char>, Seq<char>>(l);
                    assert(0 <= k < n);
                }
            }
        }
    }
}

/// A plan lists exactly the kept pages, each at its location under the site
/// URL, and the configured entries, each at its normalized location: no
/// location comes from anywhere else.
pub proof fn law_a_plan_lists_exactly_the_kept_pages_and_the_configured_entries(
    routes: Seq<ManifestRoute>,
    prerendered: Seq<String>,
    site_url: Seq<char>,
    exclude: Seq<Seq<char>>,
    additional: Seq<Seq<char>>,
    defaults: SitemapEntryMetadata,
    cfgs: Seq<SitemapEntryOptions>,
    location: Seq<char>,
)
    requires
        entries_plan(routes, prerendered, site_url, exclude, additional, defaults, cfgs) is Ok,
    ensures
        entries_plan(routes, prerendered, site_url, exclude, additional, defaults, cfgs)->Ok_0.dom().contains(
            location,
        ) <==> (exists|page: Seq<char>|
            kept_pages(routes, prerendered, exclude, additional).contains(page) && location
                == route_location(site_url, page)) || (exists|k: int|
            0 <= k < cfgs.len() && #[trigger] entry_location(cfgs[k].url@, site_url, entry_field(k as nat))
                == Ok::<Seq<char>, Seq<char>>(location)),
{
    let keep = kept_pages(routes, prerendered, exclude, additional);
    let start = discovered_entries(keep, site_url, defaults);
    lemma_apply_entries_grows(start, cfgs, cfgs.len(), site_url, defaults);
    let dom = entries_plan(routes, prerendered, site_url, exclude, additional, defaults, cfgs)->Ok_0.dom();
    if exists|k: int|
        0 <= k < cfgs.len() && #[trigger] entry_location(cfgs[k].url@, site_url, entry_field(k as nat))
            == Ok::<Seq<char>, Seq<char>>(location) {
        let k = choose|k: int|
            0 <= k < cfgs.len() && #[trigger] entry_location(cfgs[k].url@, site_url, entry_field(k as nat))
                == Ok::<Seq<char>, Seq<char>>(location);
        assert(dom.contains(location));
    }
    if dom.contains(location) {
        assert(apply_entries(start, cfgs, cfgs.len(), site_url, defaults)->Ok_0.dom().contains(location));
    }
}

/// Every kept page of a plan is listed, at its location under the site URL:
/// configured entries only add locations or merge into listed ones.
pub proof fn law_every_kept_page_is_listed(
    routes: Seq<ManifestRoute>,
    prerendered: Seq<String>,
    site_url: Seq<char>,
    exclude: Seq<Seq<char>>,
    additional: Seq<Seq<char>>,
    defaults: SitemapEntryMetadata,
    cfgs: Seq<SitemapEntryOptions>,
    page: Seq<char>,
)
    requires
        entries_plan(routes, prerendered, site_url, exclude, additional, defaults, cfgs) is Ok,
        kept_pages(routes, prerendered, exclude, additional).contains(page),
    ensures
        entries_plan(routes, prerendered, site_url, exclude, additional, defaults, cfgs)->Ok_0.dom().contains(
            route_location(site_url, page),
        ),
{
    let keep = kept_pages(routes, prerendered, exclude, additional);
    let start = discovered_entries(keep, site_url, defaults);
    assert(start.dom().contains(route_location(site_url, page)));
    lemma_apply_entries_grows(start, cfgs, cfgs.len(), site_url, defaults);
}

/// Every configured entry of a plan is listed, at its normalized location.
pub proof fn law_every_configured_entry_is_listed(
    routes: Seq<ManifestRoute>,
    prerendered: Seq<String>,
    site_url: Seq<char>,
    exclude: Seq<Seq<char>>,
    additional: Seq<Seq<char>>,
    defaults: SitemapEntryMetadata,
    cfgs: Seq<SitemapEntryOptions>,
    k: int,
)
    requires
        entries_plan(routes, prerendered, site_url, exclude, additional, defaults, cfgs) is Ok,
        0 <= k < cfgs.len(),
    ensures
        entry_location(cfgs[k].url@, site_url, entry_field(k as nat)) is Ok,
        entries_plan(routes, prerendered, site_url, exclude, additional, defaults, cfgs)->Ok_0.dom().contains(
            entry_location(cfgs[k].url@, site_url, entry_field(k as nat))->Ok_0,
        ),
{
    let keep = kept_pages(routes, prerendered, exclude, additional);
    let start = discovered_entries(keep, site_url, defaults);
    lemma_apply_entries_grows(start, cfgs, cfgs.len(), site_url, defaults);
    assert(entry_location(cfgs[k].url@, site_url, entry_field(k as nat)) is Ok);
}

/// Without configured entries a plan lists exactly the kept pages, each at
/// its location under the site URL.
pub proof fn law_without_configured_entries_only_kept_pages_are_listed(
    routes: Seq<ManifestRoute>,
    prerendered: Seq<String>,
    site_url: Seq<char>,
    exclude: Seq<Seq<char>>,
    additional: Seq<Seq<char>>,
    defaults: SitemapEntryMetadata,
    location: Seq<char>,
)
    requires
        entries_plan(routes, prerendered, site_url, exclude, additional, defaults, Seq::empty()) is Ok,
    ensures
        entries_plan(routes, prerendered, site_url, exclude, additional, defaults, Seq::empty())->Ok_0.dom().contains(
            location,
        ) <==> exists|page: Seq<char>|
            kept_pages(routes, prerendered, exclude, additional).contains(page) && location
                == route_location(site_url, page),
{
}

pub open spec fn locations(v: Seq<SitemapEntry>) -> Seq<Seq<char>> {
    v.map_values(|e: SitemapEntry| e.location@)
}

pub open spec fn video_field(i: nat, j: nat) -> Seq<char> {
    indexed_field(entry_field(i), "videos"@, j)
}

/// `e` holds what `model` says, its videos normalized from the configured
/// entry named there.
pub open spec fn entry_is(e: SitemapEntry, model: EntryModel, cfgs: Seq<SitemapEntryOptions>) -> bool {
    &&& opt_text(e.last_modified) == model.last_modified
    &&& e.change_frequency == model.change_frequency
    &&& opt_text(e.priority) == model.priority
    &&& pairs_of(e.alternates@) == model.alternates
    &&& strings_of(e.images@) == model.images
    &&& match model.videos_from {
        None => e.videos@.len() == 0,
        Some(i) => i < cfgs.len() && e.videos@.len() == cfgs[i as int].videos@.len() && forall|j: int|
            0 <= j < e.videos@.len() ==> video_normalized(
                #[trigger] cfgs[i as int].videos@[j],
                e.videos@[j],
                video_field(i, j as nat),
            ),
    }
}

/// `v` lists the entries of `m`, in location order.
pub open spec fn entries_listed(
    v: Seq<SitemapEntry>,
    m: Map<Seq<char>, EntryModel>,
    cfgs: Seq<SitemapEntryOptions>,
) -> bool {
    &&& sorted_strictly(locations(v))
    &&& locations(v).to_set() == m.dom()
    &&& forall|k: int| 0 <= k < v.len() ==> entry_is(#[trigger] v[k], m[v[k].location@], cfgs)
}

/// A sitemap lists every location of its plan once, in location order.
pub proof fn law_each_location_is_listed_once_in_order(
    v: Seq<SitemapEntry>,
    m: Map<Seq<char>, EntryModel>,
    cfgs: Seq<SitemapEntryOptions>,
)
    requires
        entries_listed(v, m, cfgs),
    ensures
        sorted_strictly(locations(v)),
        locations(v).to_set() == m.dom(),
{
}

/// The order is deterministic: two listings of one plan name the same
/// locations in the same order.
pub proof fn law_a_listing_is_determined_by_its_plan(
    v: Seq<SitemapEntry>,
    w: Seq<SitemapEntry>,
    m: Map<Seq<char>, EntryModel>,
    cfgs: Seq<SitemapEntryOptions>,
)
    requires
        entries_listed(v, m, cfgs),
        entries_listed(w, m, cfgs),
    ensures
        locations(v) == locations(w),
{
    crate::text::lemma_sorted_unique(locations(v), locations(w));
}

// ─── Building the entries ────────────────────────────────────────────────────

proof fn lemma_first_failure_prefix(checks: Seq<Result<(), Seq<char>>>, i: int)
    requires
        0 <= i <= checks.len(),
        first_failure(checks.subrange(0, i)) is Some,
    ensures
        first_failure(checks) == first_failure(checks.subrange(0, i)),
    decreases checks.len() - i,
{
    if i < checks.len() {
        assert(checks.drop_last().subrange(0, i) =~= checks.subrange(0, i));
        lemma_first_failure_prefix(checks.drop_last(), i);
    } else {
        assert(checks.subrange(0, i) =~= checks);
    }
}

fn check_exclusions(patterns: &Vec<String>) -> (r: Result<(), String>)
    ensures
        match r {
            Ok(()) => first_failure(exclusion_checks(texts_of(patterns@))) is None,
            Err(e) => first_failure(exclusion_checks(texts_of(patterns@))) == Some(e@),
        },
{
    let ghost checks = exclusion_checks(texts_of(patterns@));
    let mut i: usize = 0;
    while i < patterns.len()
        invariant
            i <= patterns.len(),
            checks == exclusion_checks(texts_of(patterns@)),
            first_failure(checks.subrange(0, i as int)) is None,
        decreases patterns.len() - i,
    {
        assert(checks.subrange(0, i + 1).drop_last() =~= checks.subrange(0, i as int));
        assert(checks[i as int] == exclusion_check(patterns@[i as int]@));
        match validate_exclusion_pattern(patterns[i].as_str()) {
            Ok(()) => {},
            Err(e) => {
                proof {
                    lemma_first_failure_prefix(checks, i + 1);
                }
                return Err(e);
            },
        }
        i += 1;
    }
    assert(checks.subrange(0, patterns.len() as int) =~= checks);
    Ok(())
}

fn any_exclusion(patterns: &Vec<String>, path: &String) -> (r: bool)
    ensures
        r == exists|k: int| 0 <= k < patterns@.len() && excludes(#[trigger] texts_of(patterns@)[k], path@),
{
    let mut i: usize = 0;
    while i < patterns.len()
        invariant
            i <= patterns.len(),
            forall|k: int| 0 <= k < i ==> !excludes(#[trigger] texts_of(patterns@)[k], path@),
        decreases patterns.len() - i,
    {
        if exclusion_matches(patterns[i].as_str(), path.as_str()) {
            assert(excludes(texts_of(patterns@)[i as int], path@));
            return true;
        }
        i += 1;
    }
    false
}

/// The default entry for `location`.
fn default_entry(location: String, defaults: &SitemapEntryMetadata) -> (r: SitemapEntry)
    ensures
        r.location@ == location@,
        forall|cfgs: Seq<SitemapEntryOptions>| entry_is(r, default_model(*defaults), cfgs),
{
    let r = SitemapEntry {
        location,
        last_modified: copy_text(&defaults.last_modified),
        change_frequency: defaults.change_frequency,
        priority: copy_text(&defaults.priority),
        alternates: Vec::new(),
        images: Vec::new(),
        videos: Vec::new(),
    };
    assert(pairs_of(r.alternates@) =~= Seq::<(Seq<char>, Seq<char>)>::empty());
    assert(strings_of(r.images@) =~= Seq::<Seq<char>>::empty());
    r
}

/// Removes and returns the entry at `location`, if there is one.
fn take_entry(entries: &mut Vec<SitemapEntry>, location: &Vec<char>) -> (r: Option<SitemapEntry>)
    ensures
        match r {
            Some(e) => exists|k: int|
                0 <= k < old(entries)@.len() && old(entries)@[k] == e && final(entries)@ == old(
                    entries,
                )@.remove(k) && e.location@ == location@,
            None => !locations(old(entries)@).contains(location@) && final(entries)@ == old(
                entries,
            )@,
        },
{
    let mut i: usize = 0;
    while i < entries.len()
        invariant
            i <= entries.len(),
            entries@ == old(entries)@,
            forall|k: int| 0 <= k < i ==> (#[trigger] entries@[k]).location@ != location@,
        decreases entries.len() - i,
    {
        if chars_eq(str_chars(entries[i].location.as_str()).as_slice(), location.as_slice()) {
            let e = entries.remove(i);
            return Some(e);
        }
        i += 1;
    }
    proof {
        if locations(old(entries)@).contains(location@) {
            let k = choose|k: int| 0 <= k < locations(old(entries)@).len() && locations(old(entries)@)[k] == location@;
            assert(old(entries)@[k].location@ == location@);
        }
    }
    None
}

/// Inserts `e` where its location belongs in order.
fn put_entry(entries: &mut Vec<SitemapEntry>, e: SitemapEntry)
    requires
        sorted_strictly(locations(old(entries)@)),
        !locations(old(entries)@).contains(e.location@),
    ensures
        sorted_strictly(locations(final(entries)@)),
        exists|p: int| 0 <= p <= old(entries)@.len() && final(entries)@ == old(entries)@.insert(p, e),
{
    let key = str_chars(e.location.as_str());
    let mut i: usize = 0;
    while i < entries.len() && text_less(
        str_chars(entries[i].location.as_str()).as_slice(),
        key.as_slice(),
    )
        invariant
            i <= entries.len(),
            key@ == e.location@,
            entries@ == old(entries)@,
            sorted_strictly(locations(entries@)),
            !locations(entries@).contains(e.location@),
            forall|k: int| 0 <= k < i ==> text_lt(#[trigger] locations(entries@)[k], e.location@),
        decreases entries.len() - i,
    {
        i += 1;
    }
    let ghost t = locations(entries@);
    proof {
        if i < entries.len() {
            lemma_text_lt_total(t[i as int], e.location@);
            assert(t[i as int] != e.location@);
        }
    }
    let ghost x = e.location@;
    entries.insert(i, e);
    proof {
        let n = locations(entries@);
        assert(n =~= t.subrange(0, i as int).push(x) + t.subrange(i as int, t.len() as int));
        assert forall|a: int, b: int| 0 <= a < b < n.len() implies text_lt(
            #[trigger] n[a],
            #[trigger] n[b],
        ) by {
            if b < i {
                assert(n[a] == t[a] && n[b] == t[b]);
            } else if b == i {
                assert(n[a] == t[a]);
            } else if a < i {
                assert(n[a] == t[a] && n[b] == t[b - 1]);
                lemma_text_lt_transitive(t[a], x, t[i as int]);
                if b - 1 > i {
                    lemma_text_lt_transitive(t[a], t[i as int], t[b - 1]);
                }
            } else if a == i {
                assert(n[b] == t[b - 1]);
                if b - 1 > i {
                    lemma_text_lt_transitive(x, t[i as int], t[b - 1]);
                }
            } else {
                assert(n[a] == t[a - 1] && n[b] == t[b - 1]);
            }
        }
    }
}

/// Listing survives removing an entry and its key.
proof fn lemma_listed_remove(
    v: Seq<SitemapEntry>,
    m: Map<Seq<char>, EntryModel>,
    cfgs: Seq<SitemapEntryOptions>,
    k: int,
)
    requires
        entries_listed(v, m, cfgs),
        0 <= k < v.len(),
    ensures
        entries_listed(v.remove(k), m.remove(v[k].location@), cfgs),
{
    let w = v.remove(k);
    let key = v[k].location@;
    let lv = locations(v);
    let lw = locations(w);
    assert(lw =~= lv.remove(k));
    assert forall|a: int, b: int| 0 <= a < b < lw.len() implies text_lt(
        #[trigger] lw[a],
        #[trigger] lw[b],
    ) by {
        if a < k && b < k {
            assert(lw[a] == lv[a] && lw[b] == lv[b]);
        } else if a < k {
            assert(lw[a] == lv[a] && lw[b] == lv[b + 1]);
        } else {
            assert(lw[a] == lv[a + 1] && lw[b] == lv[b + 1]);
        }
    }
    assert forall|j: int| 0 <= j < lv.len() && j != k implies #[trigger] lv[j] != key by {
        if j < k {
            assert(text_lt(lv[j], lv[k]));
        } else {
            assert(text_lt(lv[k], lv[j]));
        }
        lemma_text_lt_irreflexive(key);
    }
    assert forall|y: Seq<char>| lw.to_set().contains(y) <==> m.remove(key).dom().contains(y) by {
        if lw.to_set().contains(y) {
            let j = choose|j: int| 0 <= j < lw.len() && lw[j] == y;
            let o = if j < k {
                j
            } else {
                j + 1
            };
            assert(lv[o] == y);
            assert(lv.to_set().contains(y));
        }
        if m.remove(key).dom().contains(y) {
            assert(lv.to_set().contains(y));
            let j = choose|j: int| 0 <= j < lv.len() && lv[j] == y;
            if j < k {
                assert(lw[j] == y);
            } else if j > k {
                assert(lw[j - 1] == y);
            }
        }
    }
    assert(lw.to_set() =~= m.remove(key).dom());
    assert forall|j: int| 0 <= j < w.len() implies entry_is(
        #[trigger] w[j],
        m.remove(key)[w[j].location@],
        cfgs,
    ) by {
        let o = if j < k {
            j
        } else {
            j + 1
        };
        assert(w[j] == v[o]);
        assert(lv[o] != key);
        assert(entry_is(v[o], m[v[o].location@], cfgs));
    }
}

/// Listing survives inserting an entry under a new key.
proof fn lemma_listed_insert(
    v: Seq<SitemapEntry>,
    m: Map<Seq<char>, EntryModel>,
    cfgs: Seq<SitemapEntryOptions>,
    p: int,
    e: SitemapEntry,
    model: EntryModel,
    w: Seq<SitemapEntry>,
)
    requires
        entries_listed(v, m, cfgs),
        !m.dom().contains(e.location@),
        0 <= p <= v.len(),
        w == v.insert(p, e),
        sorted_strictly(locations(w)),
        entry_is(e, model, cfgs),
    ensures
        entries_listed(w, m.insert(e.location@, model), cfgs),
{
    let key = e.location@;
    let lv = locations(v);
    let lw = locations(w);
    assert(lw =~= lv.insert(p, key));
    assert forall|y: Seq<char>| lw.to_set().contains(y) <==> m.insert(key, model).dom().contains(
        y,
    ) by {
        if lw.to_set().contains(y) {
            let j = choose|j: int| 0 <= j < lw.len() && lw[j] == y;
            if j < p {
                assert(lv[j] == y);
                assert(lv.to_set().contains(y));
            } else if j > p {
                assert(lv[j - 1] == y);
                assert(lv.to_set().contains(y));
            }
        }
        if m.dom().contains(y) {
            assert(lv.to_set().contains(y));
            let j = choose|j: int| 0 <= j < lv.len() && lv[j] == y;
            if j < p {
                assert(lw[j] == y);
            } else {
                assert(lw[j + 1] == y);
            }
        }
        if y == key {
            assert(lw[p] == y);
        }
    }
    assert(lw.to_set() =~= m.insert(key, model).dom());
    assert forall|j: int| 0 <= j < w.len() implies entry_is(
        #[trigger] w[j],
        m.insert(key, model)[w[j].location@],
        cfgs,
    ) by {
        if j == p {
            assert(w[j] == e);
        } else {
            let o = if j < p {
                j
            } else {
                j - 1
            };
            assert(w[j] == v[o]);
            assert(lv.to_set().contains(lv[o]));
            assert(lv[o] != key);
            assert(entry_is(v[o], m[v[o].location@], cfgs));
        }
    }
}

fn entry_field_text(i: usize) -> (r: String)
    ensures
        r@ == entry_field(i as nat),
{
    let mut m = str_chars("site.sitemap.entries[");
    push_decimal(&mut m, i as u64);
    push_str(&mut m, "]");
    string_from_chars(m.as_slice())
}

fn indexed_field_text(field: &str, name: &str, j: usize) -> (r: String)
    ensures
        r@ == indexed_field(field@, name@, j as nat),
{
    let mut m = str_chars(field);
    push_str(&mut m, ".");
    push_str(&mut m, name);
    push_str(&mut m, "[");
    push_decimal(&mut m, j as u64);
    push_str(&mut m, "]");
    string_from_chars(m.as_slice())
}

proof fn lemma_images_error(images: Seq<Seq<char>>, field: Seq<char>, i: int)
    requires
        0 <= i < images.len(),
        images_normalized(images.subrange(0, i + 1), field) is Err,
    ensures
        images_normalized(images, field) == images_normalized(images.subrange(0, i + 1), field),
    decreases images.len() - i,
{
    if i + 1 < images.len() {
        assert(images.drop_last().subrange(0, i + 1) =~= images.subrange(0, i + 1));
        lemma_images_error(images.drop_last(), field, i);
    } else {
        assert(images.subrange(0, i + 1) =~= images);
    }
}

fn normalize_images(images: &Vec<String>, field: &str) -> (r: Result<Vec<String>, String>)
    ensures
        match r {
            Ok(v) => images_normalized(strings_of(images@), field@) == Ok::<
                Seq<Seq<char>>,
                Seq<char>,
            >(strings_of(v@)),
            Err(e) => images_normalized(strings_of(images@), field@) == Err::<
                Seq<Seq<char>>,
                Seq<char>,
            >(e@),
        },
{
    let ghost all = strings_of(images@);
    let mut out: Vec<String> = Vec::new();
    assert(all.subrange(0, 0) =~= Seq::<Seq<char>>::empty());
    assert(strings_of(out@) =~= Seq::<Seq<char>>::empty());
    let mut j: usize = 0;
    while j < images.len()
        invariant
            j <= images.len(),
            all == strings_of(images@),
            images_normalized(all.subrange(0, j as int), field@) == Ok::<
                Seq<Seq<char>>,
                Seq<char>,
            >(strings_of(out@)),
        decreases images.len() - j,
    {
        assert(all.subrange(0, j + 1).drop_last() =~= all.subrange(0, j as int));
        let f = indexed_field_text(field, "images", j);
        match normalize_absolute_http_url(images[j].as_str(), f.as_str()) {
            Ok(u) => {
                let ghost before = out@;
                out.push(u);
                assert(strings_of(out@) =~= strings_of(before).push(u@));
            },
            Err(e) => {
                proof {
                    lemma_images_error(all, field@, j as int);
                }
                return Err(e);
            },
        }
        j += 1;
    }
    assert(all.subrange(0, images.len() as int) =~= all);
    Ok(out)
}

proof fn lemma_videos_error(videos: Seq<SitemapVideo>, field: Seq<char>, i: int)
    requires
        0 <= i < videos.len(),
        videos_problem(videos.subrange(0, i + 1), field) is Some,
    ensures
        videos_problem(videos, field) == videos_problem(videos.subrange(0, i + 1), field),
    decreases videos.len() - i,
{
    if i + 1 < videos.len() {
        assert(videos.drop_last().subrange(0, i + 1) =~= videos.subrange(0, i + 1));
        lemma_videos_error(videos.drop_last(), field, i);
    } else {
        assert(videos.subrange(0, i + 1) =~= videos);
    }
}

fn normalize_videos(videos: &Vec<SitemapVideo>, field: &str) -> (r: Result<
    Vec<SitemapVideo>,
    String,
>)
    ensures
        match r {
            Ok(v) => videos_problem(videos@, field@) is None && v@.len() == videos@.len() && forall|
                j: int,
            |
                0 <= j < v@.len() ==> video_normalized(
                    #[trigger] videos@[j],
                    v@[j],
                    indexed_field(field@, "videos"@, j as nat),
                ),
            Err(e) => videos_problem(videos@, field@) == Some(e@),
        },
{
    let mut out: Vec<SitemapVideo> = Vec::new();
    let mut j: usize = 0;
    while j < videos.len()
        invariant
            j <= videos.len(),
            out@.len() == j,
            videos_problem(videos@.subrange(0, j as int), field@) is None,
            forall|k: int|
                0 <= k < j ==> video_normalized(
                    #[trigger] videos@[k],
                    out@[k],
                    indexed_field(field@, "videos"@, k as nat),
                ),
        decreases videos.len() - j,
    {
        assert(videos@.subrange(0, j + 1).drop_last() =~= videos@.subrange(0, j as int));
        let f = indexed_field_text(field, "videos", j);
        match normalized_video(&videos[j], f.as_str()) {
            Ok(v) => {
                out.push(v);
            },
            Err(e) => {
                proof {
                    lemma_videos_error(videos@, field@, j as int);
                }
                return Err(e);
            },
        }
        j += 1;
    }
    assert(videos@.subrange(0, videos.len() as int) =~= videos@);
    Ok(out)
}

/// Applies the `i`th configured entry to `entries`.
fn apply_configured(
    entries: &mut Vec<SitemapEntry>,
    cfg: &SitemapEntryOptions,
    i: usize,
    site_url: &str,
    defaults: &SitemapEntryMetadata,
    Ghost(m): Ghost<Map<Seq<char>, EntryModel>>,
    Ghost(cfgs): Ghost<Seq<SitemapEntryOptions>>,
) -> (r: Result<Ghost<Map<Seq<char>, EntryModel>>, String>)
    requires
        entries_listed(old(entries)@, m, cfgs),
        i < cfgs.len(),
        cfgs[i as int] == *cfg,
    ensures
        match r {
            Ok(g) => apply_entry(m, *cfg, i as nat, site_url@, *defaults) == Ok::<
                Map<Seq<char>, EntryModel>,
                Seq<char>,
            >(g@) && entries_listed(final(entries)@, g@, cfgs),
            Err(e) => apply_entry(m, *cfg, i as nat, site_url@, *defaults) == Err::<
                Map<Seq<char>, EntryModel>,
                Seq<char>,
            >(e@),
        },
{
    let field = entry_field_text(i);
    let location = normalize_sitemap_entry_url(cfg.url.as_str(), site_url, field.as_str())?;
    let ghost loc = location@;
    let key = str_chars(location.as_str());
    let ghost before = entries@;
    let taken = take_entry(entries, &key);
    let ghost rest: Map<Seq<char>, EntryModel> = m.remove(loc);
    let ghost base_model = if m.contains_key(loc) {
        m[loc]
    } else {
        default_model(*defaults)
    };
    let mut entry = match taken {
        Some(e) => {
            proof {
                let k = choose|k: int|
                    0 <= k < before.len() && before[k] == e && entries@ == before.remove(k)
                        && e.location@ == key@;
                lemma_listed_remove(before, m, cfgs, k);
                assert(locations(before).to_set().contains(loc)) by {
                    assert(locations(before)[k] == loc);
                }
            }
            e
        },
        None => {
            proof {
                assert(!m.dom().contains(loc));
                assert(m.remove(loc) =~= m);
            }
            default_entry(location, defaults)
        },
    };
    assert(entry_is(entry, base_model, cfgs));
    assert(entry.location@ == loc);
    if let Some(d) = &cfg.last_modified {
        validate_last_modified(d.as_str(), message2(field.as_str(), ".lastModified").as_str())?;
        entry.last_modified = Some(d.clone());
    }
    if let Some(f) = cfg.change_frequency {
        entry.change_frequency = Some(f);
    }
    if let Some(p) = &cfg.priority {
        validate_priority(p.as_str(), message2(field.as_str(), ".priority").as_str())?;
        entry.priority = Some(p.clone());
    }
    let alternates = normalize_alternates(&cfg.alternates, field.as_str())?;
    let images = normalize_images(&cfg.images, field.as_str())?;
    let videos = normalize_videos(&cfg.videos, field.as_str())?;
    entry.alternates = alternates;
    entry.images = images;
    entry.videos = videos;
    let ghost model = updated_model(
        base_model,
        *cfg,
        i as nat,
        pairs_of(entry.alternates@),
        strings_of(entry.images@),
    );
    assert(entry_is(entry, model, cfgs));
    proof {
        assert(!locations(entries@).contains(loc)) by {
            if locations(entries@).contains(loc) {
                assert(locations(entries@).to_set().contains(loc));
            }
        }
    }
    let ghost middle = entries@;
    put_entry(entries, entry);
    proof {
        let p = choose|p: int| 0 <= p <= middle.len() && entries@ == middle.insert(p, entry);
        lemma_listed_insert(middle, rest, cfgs, p, entry, model, entries@);
        assert(rest.insert(loc, model) =~= m.insert(loc, model));
    }
    Ok(Ghost(m.insert(loc, model)))
}

pub open spec fn routes_found(routes: Seq<ManifestRoute>, n: int) -> Set<Seq<char>> {
    Set::new(
        |p: Seq<char>|
            listable(p) && exists|k: int| 0 <= k < n && (#[trigger] routes[k]).page && routes[k].path@ == p,
    )
}

pub open spec fn prerendered_found(prerendered: Seq<String>, n: int) -> Set<Seq<char>> {
    Set::new(
        |p: Seq<char>| listable(p) && exists|k: int| 0 <= k < n && (#[trigger] prerendered[k])@ == p,
    )
}

/// The sorted, unique paths the manifest and the prerendered pages list.
fn collect_paths(routes: &[ManifestRoute], prerendered: &[String]) -> (r: Vec<String>)
    ensures
        sorted_strictly(texts_of(r@)),
        texts_of(r@).to_set() == discovered_paths(routes@, prerendered@),
{
    let mut paths: Vec<String> = Vec::new();
    assert(texts_of(paths@).to_set() =~= routes_found(routes@, 0));
    let mut i: usize = 0;
    while i < routes.len()
        invariant
            i <= routes.len(),
            sorted_strictly(texts_of(paths@)),
            texts_of(paths@).to_set() == routes_found(routes@, i as int),
        decreases routes.len() - i,
    {
        let route = &routes[i];
        let ghost before = texts_of(paths@).to_set();
        if route.page && !has_char(str_chars(route.path.as_str()).as_slice(), '[') {
            insert_sorted(&mut paths, route.path.clone());
            assert(texts_of(paths@).to_set() =~= routes_found(routes@, i + 1));
        } else {
            assert(before =~= routes_found(routes@, i + 1));
        }
        i += 1;
    }
    let mut j: usize = 0;
    assert(routes_found(routes@, routes.len() as int) + prerendered_found(prerendered@, 0)
        =~= routes_found(routes@, routes.len() as int));
    while j < prerendered.len()
        invariant
            j <= prerendered.len(),
            sorted_strictly(texts_of(paths@)),
            texts_of(paths@).to_set() == routes_found(routes@, routes.len() as int)
                + prerendered_found(prerendered@, j as int),
        decreases prerendered.len() - j,
    {
        let path = &prerendered[j];
        let ghost before = texts_of(paths@).to_set();
        if !has_char(str_chars(path.as_str()).as_slice(), '[') {
            insert_sorted(&mut paths, path.clone());
            assert(texts_of(paths@).to_set() =~= routes_found(routes@, routes.len() as int)
                + prerendered_found(prerendered@, j + 1));
        } else {
            assert(before =~= routes_found(routes@, routes.len() as int) + prerendered_found(
                prerendered@,
                j + 1,
            ));
        }
        j += 1;
    }
    assert(texts_of(paths@).to_set() =~= discovered_paths(routes@, prerendered@));
    paths
}

/// Adds the configured additional paths, each checked first.
fn add_paths(paths: &mut Vec<String>, additional: &Vec<String>) -> (r: Result<(), String>)
    requires
        sorted_strictly(texts_of(old(paths)@)),
    ensures
        match r {
            Ok(()) => first_failure(additional_checks(texts_of(additional@))) is None
                && sorted_strictly(texts_of(final(paths)@)) && texts_of(final(paths)@).to_set()
                == texts_of(old(paths)@).to_set() + texts_of(additional@).to_set(),
            Err(e) => first_failure(additional_checks(texts_of(additional@))) == Some(e@),
        },
{
    let ghost start = texts_of(paths@).to_set();
    let ghost checks = additional_checks(texts_of(additional@));
    let mut i: usize = 0;
    assert(texts_of(additional@).subrange(0, 0).to_set() =~= Set::<Seq<char>>::empty());
    assert(start + Set::<Seq<char>>::empty() =~= start);
    while i < additional.len()
        invariant
            i <= additional.len(),
            checks == additional_checks(texts_of(additional@)),
            first_failure(checks.subrange(0, i as int)) is None,
            sorted_strictly(texts_of(paths@)),
            texts_of(paths@).to_set() == start + texts_of(additional@).subrange(0, i as int).to_set(),
        decreases additional.len() - i,
    {
        assert(checks.subrange(0, i + 1).drop_last() =~= checks.subrange(0, i as int));
        assert(checks[i as int] == application_path_check(
            additional@[i as int]@,
            "site.sitemap.additionalPaths"@,
        ));
        match validate_application_path(additional[i].as_str(), "site.sitemap.additionalPaths") {
            Ok(()) => {},
            Err(e) => {
                proof {
                    lemma_first_failure_prefix(checks, i + 1);
                }
                return Err(e);
            },
        }
        insert_sorted(paths, additional[i].clone());
        assert(texts_of(additional@).subrange(0, i + 1) =~= texts_of(additional@).subrange(
            0,
            i as int,
        ).push(additional@[i as int]@));
        proof {
            texts_of(additional@).subrange(0, i as int).lemma_push_to_set_commute(
                additional@[i as int]@,
            );
        }
        assert(texts_of(paths@).to_set() =~= start + texts_of(additional@).subrange(
            0,
            i + 1,
        ).to_set());
        i += 1;
    }
    assert(checks.subrange(0, additional.len() as int) =~= checks);
    assert(texts_of(additional@).subrange(0, additional.len() as int) =~= texts_of(additional@));
    Ok(())
}

/// The paths no exclusion matches, in their order.
fn retain_paths(paths: &Vec<String>, patterns: &Vec<String>) -> (r: Vec<String>)
    requires
        sorted_strictly(texts_of(paths@)),
    ensures
        sorted_strictly(texts_of(r@)),
        texts_of(r@).to_set() == kept_paths(texts_of(paths@).to_set(), texts_of(patterns@)),
{
    let ghost pats = texts_of(patterns@);
    let ghost all = texts_of(paths@);
    let mut out: Vec<String> = Vec::new();
    let ghost mut from: Seq<int> = Seq::empty();
    let mut i: usize = 0;
    while i < paths.len()
        invariant
            i <= paths.len(),
            pats == texts_of(patterns@),
            all == texts_of(paths@),
            sorted_strictly(all),
            from.len() == out@.len(),
            forall|k: int| 0 <= k < from.len() ==> 0 <= #[trigger] from[k] < i && texts_of(out@)[k]
                == all[from[k]],
            forall|a: int, b: int| 0 <= a < b < from.len() ==> #[trigger] from[a] < #[trigger] from[b],
            texts_of(out@).to_set() == kept_paths(all.subrange(0, i as int).to_set(), pats),
        decreases paths.len() - i,
    {
        let ghost before = texts_of(out@).to_set();
        let ghost old_out = out@;
        if !any_exclusion(patterns, &paths[i]) {
            out.push(paths[i].clone());
            proof {
                from = from.push(i as int);
                assert(texts_of(out@) =~= texts_of(old_out).push(all[i as int]));
                texts_of(old_out).lemma_push_to_set_commute(all[i as int]);
            }
        }
        proof {
            assert(all.subrange(0, i + 1) =~= all.subrange(0, i as int).push(all[i as int]));
            all.subrange(0, i as int).lemma_push_to_set_commute(all[i as int]);
            assert(texts_of(out@).to_set() =~= kept_paths(all.subrange(0, i + 1).to_set(), pats));
        }
        i += 1;
    }
    proof {
        assert(all.subrange(0, paths.len() as int) =~= all);
        let t = texts_of(out@);
        assert forall|a: int, b: int| 0 <= a < b < t.len() implies text_lt(
            #[trigger] t[a],
            #[trigger] t[b],
        ) by {
            assert(from[a] < from[b]);
        }
    }
    out
}

pub closed spec fn plan_for(
    routes: Seq<ManifestRoute>,
    prerendered: Seq<String>,
    site_url: Seq<char>,
    options: Option<&SitemapGenerationOptions>,
) -> Result<Map<Seq<char>, EntryModel>, Seq<char>> {
    match options {
        Some(o) => entries_plan(
            routes,
            prerendered,
            site_url,
            texts_of(o.exclude@),
            texts_of(o.additional_paths@),
            o.defaults,
            o.entries@,
        ),
        None => entries_plan(
            routes,
            prerendered,
            site_url,
            Seq::empty(),
            Seq::empty(),
            SitemapEntryMetadata { last_modified: None, change_frequency: None, priority: None },
            Seq::empty(),
        ),
    }
}

/// What `plan_for` stands for: the entry plan of the options' exclusions,
/// additional paths, defaults and configured entries, or of none.
pub proof fn lemma_plan_for(
    routes: Seq<ManifestRoute>,
    prerendered: Seq<String>,
    site_url: Seq<char>,
    options: Option<&SitemapGenerationOptions>,
)
    ensures
        plan_for(routes, prerendered, site_url, options) == entries_plan(
            routes,
            prerendered,
            site_url,
            options_excluded(options),
            options_additional(options),
            options_defaults(options),
            options_entries(options),
        ),
{
}

pub open spec fn options_excluded(options: Option<&SitemapGenerationOptions>) -> Seq<Seq<char>> {
    match options {
        Some(o) => texts_of(o.exclude@),
        None => Seq::empty(),
    }
}

pub open spec fn options_additional(options: Option<&SitemapGenerationOptions>) -> Seq<Seq<char>> {
    match options {
        Some(o) => texts_of(o.additional_paths@),
        None => Seq::empty(),
    }
}

pub open spec fn options_defaults(options: Option<&SitemapGenerationOptions>) -> SitemapEntryMetadata {
    match options {
        Some(o) => o.defaults,
        None => SitemapEntryMetadata { last_modified: None, change_frequency: None, priority: None },
    }
}

pub open spec fn options_entries(options: Option<&SitemapGenerationOptions>) -> Seq<SitemapEntryOptions> {
    match options {
        Some(o) => o.entries@,
        None => Seq::empty(),
    }
}

/// The sitemap's entries in location order: every listable page of the
/// manifest and every prerendered page, the additional paths, minus the
/// excluded ones, each with the default metadata; then each configured entry
/// merged into the entry at its location, or added.
pub fn sitemap_entries(
    routes: &[ManifestRoute],
    prerendered: &[String],
    site_url: &str,
    options: Option<&SitemapGenerationOptions>,
) -> (r: Result<Vec<SitemapEntry>, String>)
    ensures
        match r {
            Ok(v) => plan_for(routes@, prerendered@, site_url@, options) matches Ok(m)
                && entries_listed(v@, m, options_entries(options)),
            Err(e) => plan_for(routes@, prerendered@, site_url@, options) == Err::<
                Map<Seq<char>, EntryModel>,
                Seq<char>,
            >(e@),
        },
{
    let empty = SitemapGenerationOptions {
        exclude: Vec::new(),
        additional_paths: Vec::new(),
        defaults: SitemapEntryMetadata { last_modified: None, change_frequency: None, priority: None },
        entries: Vec::new(),
    };
    let o: &SitemapGenerationOptions = match options {
        Some(o) => o,
        None => &empty,
    };
    assert(texts_of(empty.exclude@) =~= Seq::<Seq<char>>::empty());
    assert(texts_of(empty.additional_paths@) =~= Seq::<Seq<char>>::empty());
    assert(plan_for(routes@, prerendered@, site_url@, options) == entries_plan(
        routes@,
        prerendered@,
        site_url@,
        texts_of(o.exclude@),
        texts_of(o.additional_paths@),
        o.defaults,
        o.entries@,
    ));
    let ghost cfgs = o.entries@;
    check_exclusions(&o.exclude)?;
    let mut paths = collect_paths(routes, prerendered);
    add_paths(&mut paths, &o.additional_paths)?;
    validate_entry_metadata(&o.defaults, "site.sitemap.defaults")?;
    let kept = retain_paths(&paths, &o.exclude);
    let ghost keep = kept_paths(
        discovered_paths(routes@, prerendered@) + texts_of(o.additional_paths@).to_set(),
        texts_of(o.exclude@),
    );
    assert(texts_of(kept@).to_set() == keep);
    proof {
        let q = in_order(keep);
        assert(sorted_strictly(texts_of(kept@)) && texts_of(kept@).to_set() == keep);
        assert(sorted_strictly(q) && q.to_set() == keep);
        lemma_sorted_unique(q, texts_of(kept@));
    }
    let (mut entries, Ghost(m0)) = discovered_entry_list(&kept, site_url, &o.defaults, Ghost(cfgs))?;
    apply_all_configured(&mut entries, o, site_url, Ghost(m0))?;
    Ok(entries)
}

/// The entries of the kept paths, in location order.
fn discovered_entry_list(
    kept: &Vec<String>,
    site_url: &str,
    defaults: &SitemapEntryMetadata,
    Ghost(cfgs): Ghost<Seq<SitemapEntryOptions>>,
) -> (r: Result<(Vec<SitemapEntry>, Ghost<Map<Seq<char>, EntryModel>>), String>)
    ensures
        match r {
            Ok((v, g)) => first_failure(location_checks(texts_of(kept@), site_url@)) is None
                && g@ == discovered_entries(texts_of(kept@).to_set(), site_url@, *defaults)
                && entries_listed(v@, g@, cfgs),
            Err(e) => first_failure(location_checks(texts_of(kept@), site_url@)) == Some(e@),
        },
{
    let o_defaults = defaults;
    // The discovered entries, in location order.
    let ghost checks = location_checks(texts_of(kept@), site_url@);
    let mut entries: Vec<SitemapEntry> = Vec::new();
    let ghost mut m: Map<Seq<char>, EntryModel> = Map::empty();
    assert(locations(entries@).to_set() =~= m.dom());
    assert(texts_of(kept@).subrange(0, 0).to_set() =~= Set::<Seq<char>>::empty());
    assert(m =~= discovered_entries(texts_of(kept@).subrange(0, 0).to_set(), site_url@, *o_defaults));
    assert(checks.subrange(0, 0) =~= Seq::<Result<(), Seq<char>>>::empty());
    let mut i: usize = 0;
    while i < kept.len()
        invariant
            i <= kept.len(),
            checks == location_checks(texts_of(kept@), site_url@),
            first_failure(checks.subrange(0, i as int)) is None,
            entries_listed(entries@, m, cfgs),
            m == discovered_entries(texts_of(kept@).subrange(0, i as int).to_set(), site_url@, *o_defaults),
        decreases kept.len() - i,
    {
        let mut location = str_chars(site_url);
        push_percent_encoded(&mut location, kept[i].as_str());
        let location = string_from_chars(location.as_slice());
        assert(location@ == route_location(site_url@, kept@[i as int]@));
        assert(checks.subrange(0, i + 1).drop_last() =~= checks.subrange(0, i as int));
        match validate_sitemap_location(location.as_str(), "sitemap route") {
            Ok(()) => {},
            Err(e) => {
                proof {
                    lemma_first_failure_prefix(checks, i + 1);
                }
                return Err(e);
            },
        }
        let ghost loc = location@;
        let key = str_chars(location.as_str());
        let ghost next = discovered_entries(
            texts_of(kept@).subrange(0, i + 1).to_set(),
            site_url@,
            *o_defaults,
        );
        proof {
            assert(texts_of(kept@).subrange(0, i + 1) =~= texts_of(kept@).subrange(
                0,
                i as int,
            ).push(kept@[i as int]@));
            texts_of(kept@).subrange(0, i as int).lemma_push_to_set_commute(kept@[i as int]@);
        }
        let ghost before = entries@;
        match take_entry(&mut entries, &key) {
            Some(old_entry) => {
                // The location was already listed: it stays, unchanged.
                proof {
                    let k = choose|k: int|
                        0 <= k < before.len() && before[k] == old_entry && entries@ == before.remove(k)
                            && old_entry.location@ == key@;
                    assert(locations(before)[k] == loc);
                    assert(locations(before).to_set().contains(loc));
                    lemma_listed_remove(before, m, cfgs, k);
                    assert(!locations(entries@).contains(loc)) by {
                        if locations(entries@).contains(loc) {
                            assert(locations(entries@).to_set().contains(loc));
                        }
                    }
                }
                let ghost middle = entries@;
                put_entry(&mut entries, old_entry);
                proof {
                    let p = choose|p: int| 0 <= p <= middle.len() && entries@ == middle.insert(p, old_entry);
                    lemma_listed_insert(middle, m.remove(loc), cfgs, p, old_entry, m[loc], entries@);
                    assert(m.remove(loc).insert(loc, m[loc]) =~= m);
                    assert(next =~= m);
                }
            },
            None => {
                let e = default_entry(location, o_defaults);
                proof {
                    assert(!m.dom().contains(loc));
                }
                let ghost middle = entries@;
                put_entry(&mut entries, e);
                proof {
                    let p = choose|p: int| 0 <= p <= middle.len() && entries@ == middle.insert(p, e);
                    lemma_listed_insert(middle, m, cfgs, p, e, default_model(*o_defaults), entries@);
                    assert(next =~= m.insert(loc, default_model(*o_defaults)));
                    m = m.insert(loc, default_model(*o_defaults));
                }
            },
        }
        i += 1;
    }
    assert(checks.subrange(0, kept.len() as int) =~= checks);
    assert(texts_of(kept@).subrange(0, kept.len() as int) =~= texts_of(kept@));
    assert(m =~= discovered_entries(texts_of(kept@).to_set(), site_url@, *defaults));
    Ok((entries, Ghost(m)))
}

/// Applies every configured entry, in order.
fn apply_all_configured(
    entries: &mut Vec<SitemapEntry>,
    o: &SitemapGenerationOptions,
    site_url: &str,
    Ghost(m0): Ghost<Map<Seq<char>, EntryModel>>,
) -> (r: Result<(), String>)
    requires
        entries_listed(old(entries)@, m0, o.entries@),
    ensures
        match r {
            Ok(()) => apply_entries(m0, o.entries@, o.entries@.len(), site_url@, o.defaults) matches Ok(m)
                && entries_listed(final(entries)@, m, o.entries@),
            Err(e) => apply_entries(m0, o.entries@, o.entries@.len(), site_url@, o.defaults) == Err::<
                Map<Seq<char>, EntryModel>,
                Seq<char>,
            >(e@),
        },
{
    let ghost cfgs = o.entries@;
    let ghost mut m = m0;
    // The configured entries, in order.
    let mut c: usize = 0;
    while c < o.entries.len()
        invariant
            c <= o.entries.len(),
            cfgs == o.entries@,
            entries_listed(entries@, m, cfgs),
            apply_entries(m0, cfgs, c as nat, site_url@, o.defaults) == Ok::<
                Map<Seq<char>, EntryModel>,
                Seq<char>,
            >(m),
        decreases o.entries.len() - c,
    {
        match apply_configured(
            entries,
            &o.entries[c],
            c,
            site_url,
            &o.defaults,
            Ghost(m),
            Ghost(cfgs),
        ) {
            Ok(g) => {
                proof {
                    m = g@;
                }
            },
            Err(e) => {
                proof {
                    lemma_apply_entries_error(m0, cfgs, (c + 1) as nat, cfgs.len(), site_url@, o.defaults);
                }
                return Err(e);
            },
        }
        c += 1;
    }
    Ok(())
}

proof fn lemma_apply_entries_error(
    m: Map<Seq<char>, EntryModel>,
    cfgs: Seq<SitemapEntryOptions>,
    k: nat,
    n: nat,
    site_url: Seq<char>,
    defaults: SitemapEntryMetadata,
)
    requires
        k <= n,
        apply_entries(m, cfgs, k, site_url, defaults) is Err,
    ensures
        apply_entries(m, cfgs, n, site_url, defaults) == apply_entries(m, cfgs, k, site_url, defaults),
    decreases n - k,
{
    if n > k {
        lemma_apply_entries_error(m, cfgs, k, (n - 1) as nat, site_url, defaults);
    }
}

} // verus!
