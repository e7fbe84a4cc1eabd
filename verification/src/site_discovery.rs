//! Production `robots.txt` and `sitemap.xml` generation.
//!
//! The build emits conservative crawler-discovery files from the route
//! manifest. Project-owned files copied from `public/` always win. The
//! generator enforces the protocol constraints that are easy to miss in
//! hand-written output: absolute URLs, XML escaping, deterministic ordering,
//! and sitemap sharding at the protocol limits.
//!
//! Writing the files is the caller's business; this module decides what they
//! say.

use vstd::prelude::*;

use crate::ipv6::{canonical_ipv6, canonical_ipv6_of};
use crate::text::{
    opt_text,
    ascii_alnum, ascii_alpha, chars_eq, contains_char, control, decimal, eq_ignore_ascii_case,
    eq_ignore_case, has_char, is_ascii_alnum, is_ascii_alpha, is_control, is_unicode_ws,
    is_whitespace, lower_all, parse_u64, parse_unsigned, push_chars, push_decimal, push_str,
    starts_with, str_chars, string_from_chars, sub_chars, to_ascii_lowercase, trim, trim_chars,
};

verus! {

broadcast use vstd::string::group_string_axioms;

// ─── Finding text ────────────────────────────────────────────────────────────

/// `pat` occurs in `s` at `i`.
pub open spec fn occurs_at(s: Seq<char>, pat: Seq<char>, i: int) -> bool {
    0 <= i && i + pat.len() <= s.len() && s.subrange(i, i + pat.len()) == pat
}

/// The first index at or after `from` where `pat` occurs in `s`, or -1.
pub open spec fn find_from(s: Seq<char>, pat: Seq<char>, from: int) -> int
    decreases s.len() - from,
{
    if from < 0 || from + pat.len() > s.len() {
        -1
    } else if pat.len() == 0 || occurs_at(s, pat, from) {
        from
    } else {
        find_from(s, pat, from + 1)
    }
}

pub proof fn lemma_find_from(s: Seq<char>, pat: Seq<char>, from: int)
    requires
        0 <= from,
    ensures
        find_from(s, pat, from) == -1 || (from <= find_from(s, pat, from) && occurs_at(
            s,
            pat,
            find_from(s, pat, from),
        )),
        find_from(s, pat, from) == -1 ==> forall|k: int| from <= k ==> !occurs_at(s, pat, k),
        forall|k: int| from <= k < find_from(s, pat, from) ==> !occurs_at(s, pat, k),
    decreases s.len() - from,
{
    if from + pat.len() <= s.len() && pat.len() > 0 && !occurs_at(s, pat, from) {
        lemma_find_from(s, pat, from + 1);
    }
    if pat.len() == 0 && from <= s.len() {
        assert(s.subrange(from, from) =~= pat);
    }
}

pub(crate) fn find_text(s: &Vec<char>, pat: &Vec<char>) -> (r: Option<usize>)
    ensures
        match r {
            Some(i) => find_from(s@, pat@, 0) == i as int,
            None => find_from(s@, pat@, 0) == -1,
        },
{
    if pat.len() > s.len() {
        return None;
    }
    let mut i: usize = 0;
    while pat.len() <= s.len() - i
        invariant
            i <= s.len(),
            find_from(s@, pat@, 0) == find_from(s@, pat@, i as int),
        decreases s.len() - i,
    {
        let mut k: usize = 0;
        let mut same = true;
        assert(s@.subrange(i as int, i as int) =~= pat@.subrange(0, 0));
        while k < pat.len()
            invariant
                k <= pat.len(),
                i + pat.len() <= s.len(),
                same == (s@.subrange(i as int, i + k) == pat@.subrange(0, k as int)),
            decreases pat.len() - k,
        {
            if same && s[i + k] != pat[k] {
                same = false;
            }
            proof {
                if same {
                    assert(s@.subrange(i as int, i + k + 1) =~= s@.subrange(i as int, i + k).push(
                        s@[i + k],
                    ));
                    assert(pat@.subrange(0, k + 1) =~= pat@.subrange(0, k as int).push(pat@[k as int]));
                } else {
                    if s@.subrange(i as int, i + k + 1) == pat@.subrange(0, k + 1) {
                        assert(s@.subrange(i as int, i + k) =~= s@.subrange(i as int, i + k + 1).subrange(0, k as int));
                        assert(pat@.subrange(0, k as int) =~= pat@.subrange(0, k + 1).subrange(0, k as int));
                        assert(s@[i + k] == s@.subrange(i as int, i + k + 1)[k as int]);
                    }
                }
            }
            k += 1;
        }
        assert(pat@.subrange(0, pat.len() as int) =~= pat@);
        if same {
            return Some(i);
        }
        if i == s.len() {
            return None;
        }
        i += 1;
    }
    None
}

/// The first index of `a` or `b` in `s`, or its length.
pub open spec fn first_of(s: Seq<char>, a: char, b: char, from: int) -> int
    decreases s.len() - from,
{
    if 0 <= from < s.len() && s[from] != a && s[from] != b {
        first_of(s, a, b, from + 1)
    } else {
        from
    }
}

pub proof fn lemma_first_of(s: Seq<char>, a: char, b: char, from: int)
    requires
        0 <= from <= s.len(),
    ensures
        from <= first_of(s, a, b, from) <= s.len(),
    decreases s.len() - from,
{
    if from < s.len() && s[from] != a && s[from] != b {
        lemma_first_of(s, a, b, from + 1);
    }
}

/// How many times `c` occurs in `s`.
pub open spec fn count_char(s: Seq<char>, c: char) -> nat
    decreases s.len(),
{
    if s.len() == 0 {
        0
    } else {
        count_char(s.drop_last(), c) + if s.last() == c {
            1nat
        } else {
            0nat
        }
    }
}

fn count_of(v: &Vec<char>, c: char) -> (r: usize)
    ensures
        r == count_char(v@, c),
{
    let mut n: usize = 0;
    let mut i: usize = 0;
    while i < v.len()
        invariant
            i <= v.len(),
            n == count_char(v@.subrange(0, i as int), c),
            n <= i,
        decreases v.len() - i,
    {
        assert(v@.subrange(0, i + 1).drop_last() =~= v@.subrange(0, i as int));
        if v[i] == c {
            n += 1;
        }
        i += 1;
    }
    assert(v@.subrange(0, v.len() as int) =~= v@);
    n
}

fn index_of(v: &Vec<char>, c: char) -> (r: Option<usize>)
    ensures
        match r {
            Some(i) => i < v.len() && v@[i as int] == c && forall|k: int| 0 <= k < i ==> v@[k] != c,
            None => !contains_char(v@, c),
        },
{
    let mut i: usize = 0;
    while i < v.len()
        invariant
            i <= v.len(),
            forall|k: int| 0 <= k < i ==> v@[k] != c,
        decreases v.len() - i,
    {
        if v[i] == c {
            return Some(i);
        }
        i += 1;
    }
    None
}

// ─── Checks on text ──────────────────────────────────────────────────────────

/// A character that may not appear anywhere in a URL value.
pub open spec fn forbidden_in_url(c: char) -> bool {
    is_unicode_ws(c) || is_control(c) || c == '\\'
}

/// Why a URL's text is unusable, before its parts are looked at.
pub open spec fn url_text_problem(s: Seq<char>) -> Option<Seq<char>> {
    if s.len() == 0 {
        Some("must not be empty"@)
    } else if exists|k: int| 0 <= k < s.len() && forbidden_in_url(#[trigger] s[k]) {
        Some("contains whitespace, a control character, or a backslash"@)
    } else {
        None
    }
}

pub fn validate_url_text(value: &Vec<char>) -> (r: Result<(), &'static str>)
    ensures
        match r {
            Ok(()) => url_text_problem(value@) is None,
            Err(m) => url_text_problem(value@) == Some(m@),
        },
{
    if value.len() == 0 {
        return Err("must not be empty");
    }
    let mut i: usize = 0;
    while i < value.len()
        invariant
            i <= value.len(),
            forall|k: int| 0 <= k < i ==> !forbidden_in_url(#[trigger] value@[k]),
        decreases value.len() - i,
    {
        let c = value[i];
        if is_whitespace(c) || control(c) || c == '\\' {
            assert(forbidden_in_url(value@[i as int]));
            return Err("contains whitespace, a control character, or a backslash");
        }
        i += 1;
    }
    Ok(())
}

/// `s[i..j]` is one `.`-separated label of `s`.
pub open spec fn is_label(s: Seq<char>, i: int, j: int) -> bool {
    &&& 0 <= i <= j <= s.len()
    &&& (i == 0 || s[i - 1] == '.')
    &&& (j == s.len() || s[j] == '.')
    &&& forall|k: int| i <= k < j ==> s[k] != '.'
}

/// A label of a DNS host: one to 63 letters, digits, or hyphens, neither
/// starting nor ending with a hyphen.
pub open spec fn label_ok(s: Seq<char>, i: int, j: int) -> bool {
    &&& i < j
    &&& j - i <= 63
    &&& s[i] != '-'
    &&& s[j - 1] != '-'
}

/// An ASCII or punycode host name of at most 253 characters.
pub open spec fn dns_host_ok(s: Seq<char>) -> bool {
    &&& s.len() <= 253
    &&& forall|k: int| 0 <= k < s.len() ==> is_ascii_alnum(#[trigger] s[k]) || s[k] == '-' || s[k]
        == '.'
    &&& forall|i: int, j: int| #[trigger] is_label(s, i, j) ==> label_ok(s, i, j)
}

/// Whether the label `host[start..end]` keeps the DNS rules; it is one.
fn label_fits(host: &Vec<char>, start: usize, end: usize) -> (r: bool)
    requires
        is_label(host@, start as int, end as int),
    ensures
        r == label_ok(host@, start as int, end as int),
{
    let len = end - start;
    !(len == 0 || len > 63 || host[start] == '-' || host[end - 1] == '-')
}

/// Once the label `s[start..end]` keeps the rules, so does every label that
/// ends by `end`, given that those ending before `start` do.
proof fn lemma_labels_before(s: Seq<char>, start: int, end: int)
    requires
        is_label(s, start, end),
        label_ok(s, start, end),
        forall|a: int, b: int|
            #![trigger is_label(s, a, b)]
            is_label(s, a, b) && b < start ==> label_ok(s, a, b),
    ensures
        forall|a: int, b: int|
            #![trigger is_label(s, a, b)]
            is_label(s, a, b) && b < end + 1 ==> label_ok(s, a, b),
{
    assert forall|a: int, b: int|
        #![trigger is_label(s, a, b)]
        is_label(s, a, b) && b < end + 1 implies label_ok(s, a, b) by {
        if b >= start {
            if a < start {
                assert(s[start - 1] == '.');
            }
            if a > start {
                assert(s[a - 1] != '.');
            }
            if b < end {
                assert(s[b] != '.');
            }
        }
    }
}

pub open spec fn dns_host_message() -> Seq<char> {
    "contains an invalid DNS host; use an ASCII or punycode hostname"@
}

pub fn validate_dns_host(host: &Vec<char>) -> (r: Result<(), String>)
    ensures
        match r {
            Ok(()) => dns_host_ok(host@),
            Err(m) => !dns_host_ok(host@) && m@ == dns_host_message(),
        },
{
    if host.len() > 253 {
        return Err("contains an invalid DNS host; use an ASCII or punycode hostname".to_string());
    }
    let mut start: usize = 0;
    let mut i: usize = 0;
    while i < host.len()
        invariant
            start <= i <= host.len(),
            host.len() <= 253,
            start == 0 || host@[start - 1] == '.',
            forall|k: int| start <= k < i ==> host@[k] != '.',
            forall|k: int| 0 <= k < i ==> is_ascii_alnum(#[trigger] host@[k]) || host@[k] == '-'
                || host@[k] == '.',
            forall|a: int, b: int|
                #![trigger is_label(host@, a, b)]
                is_label(host@, a, b) && b < start ==> label_ok(host@, a, b),
        decreases host.len() - i,
    {
        if host[i] == '.' {
            assert(is_label(host@, start as int, i as int));
            if !label_fits(host, start, i) {
                return Err(
                    "contains an invalid DNS host; use an ASCII or punycode hostname".to_string(),
                );
            }
            proof {
                lemma_labels_before(host@, start as int, i as int);
            }
            start = i + 1;
        } else {
            let c = host[i];
            if !(ascii_alnum(c) || c == '-') {
                return Err(
                    "contains an invalid DNS host; use an ASCII or punycode hostname".to_string(),
                );
            }
        }
        i += 1;
    }
    assert(is_label(host@, start as int, host.len() as int));
    if !label_fits(host, start, host.len()) {
        return Err("contains an invalid DNS host; use an ASCII or punycode hostname".to_string());
    }
    proof {
        lemma_labels_before(host@, start as int, host.len() as int);
    }
    Ok(())
}

// ─── Hosts and ports ─────────────────────────────────────────────────────────

/// A port suffix (`""` or `:<port>`), normalized to its decimal form.
pub open spec fn port_suffix(s: Seq<char>) -> Result<Seq<char>, Seq<char>> {
    if s.len() == 0 {
        Ok(Seq::empty())
    } else if s[0] != ':' {
        Err("contains invalid text after the host"@)
    } else {
        match parse_unsigned(s.drop_first(), 65535) {
            Some(p) => if p == 0 {
                Err("contains an invalid port"@)
            } else {
                Ok(":"@ + decimal(p))
            },
            None => Err("contains an invalid port"@),
        }
    }
}

pub open spec fn res_view(r: Result<String, String>) -> Result<Seq<char>, Seq<char>> {
    match r {
        Ok(s) => Ok(s@),
        Err(e) => Err(e@),
    }
}

pub fn normalize_port_suffix(value: &Vec<char>) -> (r: Result<String, String>)
    ensures
        res_view(r) == port_suffix(value@),
{
    if value.len() == 0 {
        return Ok(String::new());
    }
    if value[0] != ':' {
        return Err("contains invalid text after the host".to_string());
    }
    let digits = sub_chars(value, 1, value.len());
    assert(digits@ =~= value@.drop_first());
    match parse_u64(digits.as_slice()) {
        Some(p) => {
            if p > 65535 || p == 0 {
                return Err("contains an invalid port".to_string());
            }
            let mut out: Vec<char> = Vec::new();
            push_str(&mut out, ":");
            push_decimal(&mut out, p);
            Ok(string_from_chars(out.as_slice()))
        },
        None => Err("contains an invalid port".to_string()),
    }
}

/// A host and optional port, normalized: a bracketed IPv6 address in its
/// canonical form, or a DNS name (or dotted quad) in lower case. Credentials
/// are refused. Every dotted-quad address is also a well-formed DNS name, so
/// the DNS rules decide for both.
pub open spec fn authority(s: Seq<char>) -> Result<Seq<char>, Seq<char>> {
    if s.len() == 0 || contains_char(s, '@') {
        Err("must contain a host and must not contain credentials"@)
    } else if s[0] == '[' {
        let a = s.drop_first();
        if !contains_char(a, ']') {
            Err("contains an invalid IPv6 host"@)
        } else {
            let close = find_from(a, "]"@, 0);
            match canonical_ipv6(a.subrange(0, close)) {
                None => Err("contains an invalid IPv6 host"@),
                Some(text) => match port_suffix(a.subrange(close + 1, a.len() as int)) {
                    Ok(port) => Ok("["@ + text + "]"@ + port),
                    Err(e) => Err(e),
                },
            }
        }
    } else if count_char(s, ':') > 1 {
        Err("IPv6 hosts must use brackets"@)
    } else {
        let colon = find_from(s, ":"@, 0);
        let host = if colon >= 0 {
            s.subrange(0, colon)
        } else {
            s
        };
        let port = if colon >= 0 {
            s.subrange(colon, s.len() as int)
        } else {
            Seq::empty()
        };
        match port_suffix(port) {
            Err(e) => Err(e),
            Ok(p) => if host.len() == 0 {
                Err("must contain a host"@)
            } else if !dns_host_ok(host) {
                Err(dns_host_message())
            } else {
                Ok(lower_all(host) + p)
            },
        }
    }
}

pub(crate) proof fn lemma_find_char(s: Seq<char>, c: char, i: int)
    requires
        0 <= i < s.len(),
        s[i] == c,
        forall|k: int| 0 <= k < i ==> s[k] != c,
    ensures
        find_from(s, seq![c], 0) == i,
{
    lemma_find_from(s, seq![c], 0);
    assert(occurs_at(s, seq![c], i)) by {
        assert(s.subrange(i, i + 1) =~= seq![c]);
    }
    let f = find_from(s, seq![c], 0);
    if f != i {
        assert(f != -1);
        assert(occurs_at(s, seq![c], f));
        assert(s.subrange(f, f + 1)[0] == c);
        assert(s[f] == c);
    }
}

pub(crate) proof fn lemma_no_char(s: Seq<char>, c: char)
    requires
        !contains_char(s, c),
    ensures
        find_from(s, seq![c], 0) == -1,
{
    lemma_find_from(s, seq![c], 0);
    let f = find_from(s, seq![c], 0);
    if f != -1 {
        assert(s.subrange(f, f + 1)[0] == c);
        assert(s[f] == c);
    }
}

pub fn normalize_authority(value: &Vec<char>) -> (r: Result<String, String>)
    ensures
        res_view(r) == authority(value@),
{
    proof {
        reveal_strlit("]");
        reveal_strlit(":");
    }
    if value.len() == 0 || has_char(value.as_slice(), '@') {
        return Err("must contain a host and must not contain credentials".to_string());
    }
    if value[0] == '[' {
        let address = sub_chars(value, 1, value.len());
        assert(address@ =~= value@.drop_first());
        let close = match index_of(&address, ']') {
            Some(i) => i,
            None => {
                return Err("contains an invalid IPv6 host".to_string());
            },
        };
        proof {
            lemma_find_char(address@, ']', close as int);
            assert("]"@ =~= seq![']']);
        }
        let host = sub_chars(&address, 0, close);
        let suffix = sub_chars(&address, close + 1, address.len());
        let text = match canonical_ipv6_of(host.as_slice()) {
            Some(t) => t,
            None => {
                return Err("contains an invalid IPv6 host".to_string());
            },
        };
        let port = normalize_port_suffix(&suffix)?;
        let mut out: Vec<char> = Vec::new();
        push_str(&mut out, "[");
        push_chars(&mut out, &text);
        push_str(&mut out, "]");
        push_str(&mut out, port.as_str());
        assert(out@ =~= "["@ + text@ + "]"@ + port@);
        return Ok(string_from_chars(out.as_slice()));
    }
    if count_of(value, ':') > 1 {
        return Err("IPv6 hosts must use brackets".to_string());
    }
    let (host, port_text) = match index_of(value, ':') {
        Some(i) => {
            proof {
                lemma_find_char(value@, ':', i as int);
                assert(":"@ =~= seq![':']);
            }
            (sub_chars(value, 0, i), sub_chars(value, i, value.len()))
        },
        None => {
            proof {
                lemma_no_char(value@, ':');
                assert(":"@ =~= seq![':']);
            }
            assert(value@.subrange(0, value.len() as int) =~= value@);
            (sub_chars(value, 0, value.len()), Vec::new())
        },
    };
    assert(port_text@ == (if find_from(value@, ":"@, 0) >= 0 {
        value@.subrange(find_from(value@, ":"@, 0), value@.len() as int)
    } else {
        Seq::<char>::empty()
    }));
    let port = normalize_port_suffix(&port_text)?;
    if host.len() == 0 {
        return Err("must contain a host".to_string());
    }
    validate_dns_host(&host)?;
    let mut out = to_ascii_lowercase(&host);
    push_str(&mut out, port.as_str());
    Ok(string_from_chars(out.as_slice()))
}

// ─── Origins and URLs ────────────────────────────────────────────────────────

pub open spec fn is_http_scheme(scheme: Seq<char>) -> bool {
    eq_ignore_case(scheme, "http"@) || eq_ignore_case(scheme, "https"@)
}

pub open spec fn origin_shape_message() -> Seq<char> {
    "must be an origin without a path, query, or fragment"@
}

/// A site origin, normalized: trimmed, `https://` assumed when no scheme is
/// given, the scheme in lower case, one trailing `/` tolerated, and no path,
/// query, or fragment.
pub open spec fn site_origin(value: Seq<char>) -> Result<Seq<char>, Seq<char>> {
    let v = trim(value);
    match url_text_problem(v) {
        Some(m) => Err(m),
        None => {
            let n = if find_from(v, "://"@, 0) >= 0 {
                v
            } else {
                "https://"@ + v
            };
            let at = find_from(n, "://"@, 0);
            let scheme = n.subrange(0, at);
            let rest = n.subrange(at + 3, n.len() as int);
            if !is_http_scheme(scheme) {
                Err("must use the http or https scheme"@)
            } else if rest.len() > 0 && rest.last() == '/' && rest.drop_last().len() > 0
                && rest.drop_last().last() == '/' {
                Err(origin_shape_message())
            } else {
                let origin = if rest.len() > 0 && rest.last() == '/' {
                    rest.drop_last()
                } else {
                    rest
                };
                if contains_char(origin, '/') || contains_char(origin, '?') || contains_char(
                    origin,
                    '#',
                ) {
                    Err(origin_shape_message())
                } else {
                    match authority(origin) {
                        Ok(a) => Ok(lower_all(scheme) + "://"@ + a),
                        Err(e) => Err(e),
                    }
                }
            }
        },
    }
}

pub fn normalize_site_origin(value: &str) -> (r: Result<String, String>)
    ensures
        res_view(r) == site_origin(value@),
{
    proof {
        reveal_strlit("://");
        reveal_strlit("https://");
    }
    let v = trim_chars(&str_chars(value));
    if let Err(m) = validate_url_text(&v) {
        return Err(m.to_string());
    }
    let sep = str_chars("://");
    let n = match find_text(&v, &sep) {
        Some(_) => v,
        None => {
            let mut n = str_chars("https://");
            push_chars(&mut n, &v);
            proof {
                lemma_find_from("https://"@ + v@, "://"@, 0);
                assert(occurs_at("https://"@ + v@, "://"@, 5)) by {
                    assert(("https://"@ + v@).subrange(5, 8) =~= "://"@);
                }
                assert forall|k: int| 0 <= k < 5 implies !occurs_at("https://"@ + v@, "://"@, k) by {
                    if occurs_at("https://"@ + v@, "://"@, k) {
                        assert(("https://"@ + v@).subrange(k, k + 3)[0] == ':');
                    }
                }
            }
            n
        },
    };
    let at = match find_text(&n, &sep) {
        Some(at) => at,
        None => {
            return Err("must be an absolute http(s) origin".to_string());
        },
    };
    proof {
        lemma_find_from(n@, "://"@, 0);
    }
    let scheme = sub_chars(&n, 0, at);
    let rest = sub_chars(&n, at + 3, n.len());
    if !(eq_ignore_ascii_case(scheme.as_slice(), str_chars("http").as_slice())
        || eq_ignore_ascii_case(scheme.as_slice(), str_chars("https").as_slice())) {
        return Err("must use the http or https scheme".to_string());
    }
    let origin = if rest.len() > 0 && rest[rest.len() - 1] == '/' {
        let o = sub_chars(&rest, 0, rest.len() - 1);
        assert(o@ =~= rest@.drop_last());
        if o.len() > 0 && o[o.len() - 1] == '/' {
            return Err("must be an origin without a path, query, or fragment".to_string());
        }
        o
    } else {
        rest
    };
    if has_char(origin.as_slice(), '/') || has_char(origin.as_slice(), '?') || has_char(
        origin.as_slice(),
        '#',
    ) {
        return Err("must be an origin without a path, query, or fragment".to_string());
    }
    let authority_text = normalize_authority(&origin)?;
    let mut out = to_ascii_lowercase(&scheme);
    push_str(&mut out, "://");
    push_str(&mut out, authority_text.as_str());
    Ok(string_from_chars(out.as_slice()))
}

/// An absolute http(s) URL, normalized: trimmed, the scheme in lower case, the
/// authority normalized, no fragment; the path and query kept as written.
/// Errors about the URL's shape name `field`.
pub open spec fn absolute_http_url(value: Seq<char>, field: Seq<char>) -> Result<
    Seq<char>,
    Seq<char>,
> {
    let v = trim(value);
    match url_text_problem(v) {
        Some(m) => Err(m),
        None => {
            let at = find_from(v, "://"@, 0);
            if at < 0 {
                Err(field + " must be an absolute http(s) URL"@)
            } else {
                let scheme = v.subrange(0, at);
                let rest = v.subrange(at + 3, v.len() as int);
                if !is_http_scheme(scheme) {
                    Err(field + " must use http or https"@)
                } else if contains_char(rest, '#') {
                    Err(field + " must not contain a fragment"@)
                } else {
                    let boundary = first_of(rest, '/', '?', 0);
                    match authority(rest.subrange(0, boundary)) {
                        Ok(a) => Ok(lower_all(scheme) + "://"@ + a + rest.subrange(
                            boundary,
                            rest.len() as int,
                        )),
                        Err(e) => Err(e),
                    }
                }
            }
        },
    }
}

fn join2(a: &str, b: &str) -> (r: String)
    ensures
        r@ == a@ + b@,
{
    let mut out = str_chars(a);
    push_str(&mut out, b);
    string_from_chars(out.as_slice())
}

pub fn normalize_absolute_http_url(value: &str, field: &str) -> (r: Result<String, String>)
    ensures
        res_view(r) == absolute_http_url(value@, field@),
{
    proof {
        reveal_strlit("://");
    }
    let v = trim_chars(&str_chars(value));
    if let Err(m) = validate_url_text(&v) {
        return Err(m.to_string());
    }
    let at = match find_text(&v, &str_chars("://")) {
        Some(at) => at,
        None => {
            return Err(join2(field, " must be an absolute http(s) URL"));
        },
    };
    proof {
        lemma_find_from(v@, "://"@, 0);
    }
    let scheme = sub_chars(&v, 0, at);
    let rest = sub_chars(&v, at + 3, v.len());
    if !(eq_ignore_ascii_case(scheme.as_slice(), str_chars("http").as_slice())
        || eq_ignore_ascii_case(scheme.as_slice(), str_chars("https").as_slice())) {
        return Err(join2(field, " must use http or https"));
    }
    if has_char(rest.as_slice(), '#') {
        return Err(join2(field, " must not contain a fragment"));
    }
    let mut boundary: usize = 0;
    while boundary < rest.len() && rest[boundary] != '/' && rest[boundary] != '?'
        invariant
            boundary <= rest.len(),
            first_of(rest@, '/', '?', 0) == first_of(rest@, '/', '?', boundary as int),
        decreases rest.len() - boundary,
    {
        boundary += 1;
    }
    let authority_text = normalize_authority(&sub_chars(&rest, 0, boundary))?;
    let mut out = to_ascii_lowercase(&scheme);
    push_str(&mut out, "://");
    push_str(&mut out, authority_text.as_str());
    push_chars(&mut out, &sub_chars(&rest, boundary, rest.len()));
    Ok(string_from_chars(out.as_slice()))
}

// ─── The site URL ────────────────────────────────────────────────────────────


/// Set to something other than whitespace.
pub open spec fn non_blank(v: Option<Seq<char>>) -> bool {
    v matches Some(s) && trim(s).len() > 0
}

pub open spec fn equals_ignoring_case(v: Option<Seq<char>>, word: Seq<char>) -> bool {
    v matches Some(s) && eq_ignore_case(s, word)
}

/// `value` normalized as an origin, its error prefixed by where it came from.
pub open spec fn origin_from(source: Seq<char>, value: Seq<char>) -> Result<
    Option<Seq<char>>,
    Seq<char>,
> {
    match site_origin(value) {
        Ok(o) => Ok(Some(o)),
        Err(m) => Err(source + " "@ + m),
    }
}

/// The site URL from the environment of a production host: `RUVYXA_SITE_URL`,
/// then Vercel's production URL, then the deployment URL of a Vercel
/// production build, then Netlify's `URL`. Preview deployment URLs are never
/// used as canonical origins.
pub open spec fn site_url_from_env(
    site: Option<Seq<char>>,
    vercel_production: Option<Seq<char>>,
    vercel_env: Option<Seq<char>>,
    vercel_url: Option<Seq<char>>,
    netlify: Option<Seq<char>>,
    url: Option<Seq<char>>,
) -> Result<Option<Seq<char>>, Seq<char>> {
    if non_blank(site) {
        origin_from("RUVYXA_SITE_URL"@, site->0)
    } else if non_blank(vercel_production) {
        origin_from("VERCEL_PROJECT_PRODUCTION_URL"@, vercel_production->0)
    } else if equals_ignoring_case(vercel_env, "production"@) && non_blank(vercel_url) {
        origin_from("VERCEL_URL"@, vercel_url->0)
    } else if equals_ignoring_case(netlify, "true"@) && non_blank(url) {
        origin_from("URL"@, url->0)
    } else {
        Ok(None)
    }
}

/// A preview deployment's URL is never taken as the site's origin: without
/// a site URL of its own or a production URL, and outside a Vercel
/// production build and Netlify, there is no site URL, whatever
/// `VERCEL_URL` and `URL` hold.
pub proof fn law_a_preview_url_is_never_the_origin(
    site: Option<Seq<char>>,
    vercel_production: Option<Seq<char>>,
    vercel_env: Option<Seq<char>>,
    vercel_url: Option<Seq<char>>,
    netlify: Option<Seq<char>>,
    url: Option<Seq<char>>,
)
    requires
        !non_blank(site),
        !non_blank(vercel_production),
        !equals_ignoring_case(vercel_env, "production"@),
        !equals_ignoring_case(netlify, "true"@),
    ensures
        site_url_from_env(site, vercel_production, vercel_env, vercel_url, netlify, url) == Ok::<
            Option<Seq<char>>,
            Seq<char>,
        >(None),
{
}

pub open spec fn site_url_view(r: Result<Option<String>, String>) -> Result<
    Option<Seq<char>>,
    Seq<char>,
> {
    match r {
        Ok(Some(s)) => Ok(Some(s@)),
        Ok(None) => Ok(None),
        Err(e) => Err(e@),
    }
}

fn blank(v: &Option<String>) -> (r: bool)
    ensures
        r == !non_blank(opt_text(*v)),
{
    match v {
        Some(s) => trim_chars(&str_chars(s.as_str())).len() == 0,
        None => true,
    }
}

fn is_word(v: &Option<String>, word: &str) -> (r: bool)
    ensures
        r == equals_ignoring_case(opt_text(*v), word@),
{
    match v {
        Some(s) => eq_ignore_ascii_case(str_chars(s.as_str()).as_slice(), str_chars(word).as_slice()),
        None => false,
    }
}

fn origin_with_source(source: &str, value: &str) -> (r: Result<Option<String>, String>)
    ensures
        site_url_view(r) == origin_from(source@, value@),
{
    match normalize_site_origin(value) {
        Ok(o) => Ok(Some(o)),
        Err(m) => {
            let mut out = str_chars(source);
            push_str(&mut out, " ");
            push_str(&mut out, m.as_str());
            Err(string_from_chars(out.as_slice()))
        },
    }
}

/// The site URL the environment's answers select: the values of
/// `RUVYXA_SITE_URL`, `VERCEL_PROJECT_PRODUCTION_URL`, `VERCEL_ENV`,
/// `VERCEL_URL`, `NETLIFY`, and `URL`.
pub fn site_url_from_values(
    site: &Option<String>,
    vercel_production: &Option<String>,
    vercel_env: &Option<String>,
    vercel_url: &Option<String>,
    netlify: &Option<String>,
    url: &Option<String>,
) -> (r: Result<Option<String>, String>)
    ensures
        site_url_view(r) == site_url_from_env(
            opt_text(*site),
            opt_text(*vercel_production),
            opt_text(*vercel_env),
            opt_text(*vercel_url),
            opt_text(*netlify),
            opt_text(*url),
        ),
{
    if !blank(site) {
        origin_with_source("RUVYXA_SITE_URL", site.as_ref().unwrap().as_str())
    } else if !blank(vercel_production) {
        origin_with_source(
            "VERCEL_PROJECT_PRODUCTION_URL",
            vercel_production.as_ref().unwrap().as_str(),
        )
    } else if is_word(vercel_env, "production") && !blank(vercel_url) {
        origin_with_source("VERCEL_URL", vercel_url.as_ref().unwrap().as_str())
    } else if is_word(netlify, "true") && !blank(url) {
        origin_with_source("URL", url.as_ref().unwrap().as_str())
    } else {
        Ok(None)
    }
}

/// Resolve a validated absolute origin from explicit config or production-host
/// environment variables. A configured value that is not blank wins and the
/// environment is not read.
pub fn resolve_site_url(configured: Option<&str>, env: impl Fn(&str) -> Option<String>) -> (r:
    Result<Option<String>, String>)
    requires
        forall|name: &str| env.requires((name,)),
    ensures
        (configured matches Some(c) && trim(c@).len() > 0) ==> site_url_view(r) == origin_from(
            "site.url"@,
            configured->0@,
        ),
        !(configured matches Some(c) && trim(c@).len() > 0) ==> exists|
            site: Option<String>,
            vercel_production: Option<String>,
            vercel_env: Option<String>,
            vercel_url: Option<String>,
            netlify: Option<String>,
            url: Option<String>,
        |
            #![trigger site_url_from_env(opt_text(site), opt_text(vercel_production), opt_text(vercel_env), opt_text(vercel_url), opt_text(netlify), opt_text(url))]
            env.ensures(("RUVYXA_SITE_URL",), site) && env.ensures(
                ("VERCEL_PROJECT_PRODUCTION_URL",),
                vercel_production,
            ) && env.ensures(("VERCEL_ENV",), vercel_env) && (equals_ignoring_case(
                opt_text(vercel_env),
                "production"@,
            ) ==> env.ensures(("VERCEL_URL",), vercel_url)) && env.ensures(("NETLIFY",), netlify)
                && (equals_ignoring_case(opt_text(netlify), "true"@) ==> env.ensures(
                ("URL",),
                url,
            )) && site_url_view(r) == site_url_from_env(
                opt_text(site),
                opt_text(vercel_production),
                opt_text(vercel_env),
                opt_text(vercel_url),
                opt_text(netlify),
                opt_text(url),
            ),
{
    if let Some(value) = configured {
        if trim_chars(&str_chars(value)).len() > 0 {
            return origin_with_source("site.url", value);
        }
    }
    let site = env("RUVYXA_SITE_URL");
    let vercel_production = env("VERCEL_PROJECT_PRODUCTION_URL");
    let vercel_env = env("VERCEL_ENV");
    let production = is_word(&vercel_env, "production");
    let vercel_url = if production {
        env("VERCEL_URL")
    } else {
        None
    };
    let netlify = env("NETLIFY");
    let on_netlify = is_word(&netlify, "true");
    let url = if on_netlify {
        env("URL")
    } else {
        None
    };
    let r = site_url_from_values(&site, &vercel_production, &vercel_env, &vercel_url, &netlify, &url);
    assert(env.ensures(("VERCEL_URL",), vercel_url) || !production);
    assert(env.ensures(("URL",), url) || !on_netlify);
    r
}

// ─── robots.txt ──────────────────────────────────────────────────────────────

/// One value or a list of them, as a config may write either.
#[derive(Debug, Clone)]
pub enum OneOrManyStrings {
    One(String),
    Many(Vec<String>),
}

pub open spec fn strings_of(v: Seq<String>) -> Seq<Seq<char>> {
    v.map_values(|s: String| s@)
}

impl View for OneOrManyStrings {
    type V = Seq<Seq<char>>;

    open spec fn view(&self) -> Seq<Seq<char>> {
        match self {
            OneOrManyStrings::One(value) => seq![value@],
            OneOrManyStrings::Many(values) => strings_of(values@),
        }
    }
}

impl OneOrManyStrings {
    /// The values, in order.
    pub fn values(&self) -> (r: Vec<String>)
        ensures
            strings_of(r@) == self@,
    {
        match self {
            OneOrManyStrings::One(value) => {
                let mut r: Vec<String> = Vec::new();
                r.push(value.clone());
                assert(strings_of(r@) =~= seq![value@]);
                r
            },
            OneOrManyStrings::Many(values) => {
                let mut r: Vec<String> = Vec::new();
                let mut i: usize = 0;
                while i < values.len()
                    invariant
                        i <= values.len(),
                        strings_of(r@) == strings_of(values@).subrange(0, i as int),
                    decreases values.len() - i,
                {
                    let c = values[i].clone();
                    assert(c@ == values@[i as int]@);
                    let ghost before = r@;
                    r.push(c);
                    assert(r@ == before.push(c));
                    assert(strings_of(r@) =~= strings_of(before).push(c@));
                    i += 1;
                    assert(strings_of(r@) =~= strings_of(values@).subrange(0, i as int));
                }
                assert(strings_of(values@).subrange(0, i as int) =~= strings_of(values@));
                r
            },
        }
    }
}

pub open spec fn opt_values(v: Option<OneOrManyStrings>) -> Option<Seq<Seq<char>>> {
    match v {
        Some(x) => Some(x@),
        None => None,
    }
}

/// One robots rule: the user agents it names and the paths it allows and
/// disallows.
#[derive(Debug, Clone, Default)]
pub struct RobotsRuleOptions {
    pub user_agent: Option<OneOrManyStrings>,
    pub allow: Option<OneOrManyStrings>,
    pub disallow: Option<OneOrManyStrings>,
    pub crawl_delay: Option<u64>,
}

pub ghost struct RuleView {
    pub user_agent: Option<Seq<Seq<char>>>,
    pub allow: Option<Seq<Seq<char>>>,
    pub disallow: Option<Seq<Seq<char>>>,
    pub crawl_delay: Option<u64>,
}

impl View for RobotsRuleOptions {
    type V = RuleView;

    open spec fn view(&self) -> RuleView {
        RuleView {
            user_agent: opt_values(self.user_agent),
            allow: opt_values(self.allow),
            disallow: opt_values(self.disallow),
            crawl_delay: self.crawl_delay,
        }
    }
}

/// One rule or a list of them.
#[derive(Debug, Clone)]
pub enum OneOrManyRules {
    One(RobotsRuleOptions),
    Many(Vec<RobotsRuleOptions>),
}

pub open spec fn rules_of(v: Seq<RobotsRuleOptions>) -> Seq<RuleView> {
    v.map_values(|r: RobotsRuleOptions| r@)
}

impl View for OneOrManyRules {
    type V = Seq<RuleView>;

    open spec fn view(&self) -> Seq<RuleView> {
        match self {
            OneOrManyRules::One(rule) => seq![rule@],
            OneOrManyRules::Many(rules) => rules_of(rules@),
        }
    }
}

/// Next-style robots policy serialized into the RFC 9309 text format.
#[derive(Debug, Clone, Default)]
pub struct RobotsGenerationOptions {
    pub rules: Option<OneOrManyRules>,
    pub sitemap: Option<OneOrManyStrings>,
    pub host: Option<String>,
}

pub ghost struct RobotsView {
    pub rules: Option<Seq<RuleView>>,
    pub sitemap: Option<Seq<Seq<char>>>,
    pub host: Option<Seq<char>>,
}

impl View for RobotsGenerationOptions {
    type V = RobotsView;

    open spec fn view(&self) -> RobotsView {
        RobotsView {
            rules: match self.rules {
                Some(r) => Some(r@),
                None => None,
            },
            sitemap: opt_values(self.sitemap),
            host: opt_text(self.host),
        }
    }
}

impl RobotsGenerationOptions {
    /// No rules, sitemaps, or host: the default policy.
    pub fn new() -> (r: RobotsGenerationOptions)
        ensures
            r@.rules is None,
            r@.sitemap is None,
            r@.host is None,
    {
        RobotsGenerationOptions { rules: None, sitemap: None, host: None }
    }
}

/// The `site.robots` switch: on, off, or on with options.
#[derive(Debug, Clone)]
pub enum RobotsSetting {
    Enabled(bool),
    Options(RobotsGenerationOptions),
}

impl RobotsSetting {
    /// Off only when explicitly switched off.
    pub fn enabled(&self) -> (r: bool)
        ensures
            r == !(self matches RobotsSetting::Enabled(false)),
    {
        match self {
            RobotsSetting::Enabled(on) => *on,
            RobotsSetting::Options(_) => true,
        }
    }

    pub fn options(&self) -> (r: Option<&RobotsGenerationOptions>)
        ensures
            match self {
                RobotsSetting::Options(o) => r == Some(o),
                RobotsSetting::Enabled(_) => r is None,
            },
    {
        match self {
            RobotsSetting::Options(options) => Some(options),
            RobotsSetting::Enabled(_) => None,
        }
    }
}

/// `parts` joined by `sep`.
pub open spec fn join(parts: Seq<Seq<char>>, sep: Seq<char>) -> Seq<char>
    decreases parts.len(),
{
    if parts.len() == 0 {
        Seq::empty()
    } else if parts.len() == 1 {
        parts[0]
    } else {
        join(parts.drop_last(), sep) + sep + parts.last()
    }
}

/// A product token: `*`, or letters, hyphens, and underscores.
pub open spec fn user_agent_ok(v: Seq<char>) -> bool {
    v == "*"@ || (v.len() > 0 && forall|k: int|
        0 <= k < v.len() ==> is_ascii_alpha(#[trigger] v[k]) || v[k] == '-' || v[k] == '_')
}

pub open spec fn single_line(v: Seq<char>) -> bool {
    forall|k: int| 0 <= k < v.len() ==> !is_control(#[trigger] v[k])
}

/// The `Allow`/`Disallow` lines for `values`, or the first value that cannot
/// be written: one not starting with `/`, or one with a control character.
pub open spec fn path_lines(directive: Seq<char>, values: Seq<Seq<char>>) -> Result<
    Seq<Seq<char>>,
    Seq<char>,
>
    decreases values.len(),
{
    if values.len() == 0 {
        Ok(Seq::empty())
    } else {
        match path_lines(directive, values.drop_last()) {
            Err(e) => Err(e),
            Ok(lines) => {
                let v = values.last();
                if v.len() > 0 && v[0] != '/' {
                    Err("site.robots.rules "@ + directive + " value must start with '/': "@ + v)
                } else if !single_line(v) {
                    Err("site.robots.rules path must not contain control characters"@)
                } else {
                    Ok(lines.push(directive + ": "@ + v))
                }
            },
        }
    }
}

pub open spec fn opt_path_lines(directive: Seq<char>, values: Option<Seq<Seq<char>>>) -> Result<
    Seq<Seq<char>>,
    Seq<char>,
> {
    match values {
        Some(v) => path_lines(directive, v),
        None => Ok(Seq::empty()),
    }
}

/// The block of lines one user agent gets from `rule`.
pub open spec fn agent_block(rule: RuleView, agent: Seq<char>) -> Result<Seq<char>, Seq<char>> {
    if !user_agent_ok(agent) {
        Err("site.robots.rules userAgent is not a valid product token: "@ + agent)
    } else {
        match opt_path_lines("Allow"@, rule.allow) {
            Err(e) => Err(e),
            Ok(allow) => match opt_path_lines("Disallow"@, rule.disallow) {
                Err(e) => Err(e),
                Ok(disallow) => {
                    let delay = match rule.crawl_delay {
                        Some(d) => seq!["Crawl-delay: "@ + decimal(d as nat)],
                        None => Seq::empty(),
                    };
                    Ok(join(seq!["User-agent: "@ + agent] + allow + disallow + delay, "\n"@))
                },
            },
        }
    }
}

/// The blocks for the first `n` agents of `rule`.
pub open spec fn agent_blocks(rule: RuleView, agents: Seq<Seq<char>>, n: nat) -> Result<
    Seq<Seq<char>>,
    Seq<char>,
>
    decreases n,
{
    if n == 0 {
        Ok(Seq::empty())
    } else {
        match agent_blocks(rule, agents, (n - 1) as nat) {
            Err(e) => Err(e),
            Ok(blocks) => match agent_block(rule, agents[n - 1]) {
                Err(e) => Err(e),
                Ok(b) => Ok(blocks.push(b)),
            },
        }
    }
}

pub open spec fn rule_agents(rule: RuleView) -> Seq<Seq<char>> {
    match rule.user_agent {
        Some(a) => a,
        None => seq!["*"@],
    }
}

pub open spec fn rule_blocks(rule: RuleView) -> Result<Seq<Seq<char>>, Seq<char>> {
    let agents = rule_agents(rule);
    if agents.len() == 0 {
        Err("site.robots.rules userAgent must not be empty"@)
    } else {
        agent_blocks(rule, agents, agents.len())
    }
}

/// The blocks for the first `n` rules.
pub open spec fn all_blocks(rules: Seq<RuleView>, n: nat) -> Result<Seq<Seq<char>>, Seq<char>>
    decreases n,
{
    if n == 0 {
        Ok(Seq::empty())
    } else {
        match all_blocks(rules, (n - 1) as nat) {
            Err(e) => Err(e),
            Ok(blocks) => match rule_blocks(rules[n - 1]) {
                Err(e) => Err(e),
                Ok(more) => Ok(blocks + more),
            },
        }
    }
}

/// The rule every agent gets when none is configured: allow everything.
pub open spec fn default_rule() -> RuleView {
    RuleView {
        user_agent: Some(seq!["*"@]),
        allow: Some(seq!["/"@]),
        disallow: None,
        crawl_delay: None,
    }
}

pub open spec fn robots_rules(options: Option<RobotsView>) -> Seq<RuleView> {
    match options {
        Some(o) => match o.rules {
            Some(r) => if r.len() > 0 {
                r
            } else {
                seq![default_rule()]
            },
            None => seq![default_rule()],
        },
        None => seq![default_rule()],
    }
}

/// Each of `values` as an absolute URL, or the first that is not one.
pub open spec fn normalized_urls(values: Seq<Seq<char>>, field: Seq<char>) -> Result<
    Seq<Seq<char>>,
    Seq<char>,
>
    decreases values.len(),
{
    if values.len() == 0 {
        Ok(Seq::empty())
    } else {
        match normalized_urls(values.drop_last(), field) {
            Err(e) => Err(e),
            Ok(urls) => match absolute_http_url(values.last(), field) {
                Err(e) => Err(e),
                Ok(u) => Ok(urls.push(u)),
            },
        }
    }
}

/// The `Sitemap:` URLs: the configured ones, or else the generated sitemap of
/// `automatic` when there is one.
pub open spec fn robots_sitemaps(automatic: Option<Seq<char>>, options: Option<RobotsView>) -> Result<
    Seq<Seq<char>>,
    Seq<char>,
> {
    let explicit = match options {
        Some(o) => o.sitemap,
        None => None,
    };
    match explicit {
        Some(values) => normalized_urls(values, "site.robots.sitemap"@),
        None => match automatic {
            Some(origin) => Ok(seq![origin + "/sitemap.xml"@]),
            None => Ok(Seq::empty()),
        },
    }
}

pub open spec fn sitemap_lines(urls: Seq<Seq<char>>) -> Seq<char>
    decreases urls.len(),
{
    if urls.len() == 0 {
        Seq::empty()
    } else {
        sitemap_lines(urls.drop_last()) + "Sitemap: "@ + urls.last() + "\n"@
    }
}

/// The text of `robots.txt`: one block per user agent, then the sitemaps,
/// then the host; or the first configured value that cannot be written.
pub open spec fn robots_text(automatic: Option<Seq<char>>, options: Option<RobotsView>) -> Result<
    Seq<char>,
    Seq<char>,
> {
    let rules = robots_rules(options);
    match all_blocks(rules, rules.len()) {
        Err(e) => Err(e),
        Ok(blocks) => {
            let text = join(blocks, "\n\n"@) + "\n"@;
            match robots_sitemaps(automatic, options) {
                Err(e) => Err(e),
                Ok(urls) => {
                    let text = if urls.len() > 0 {
                        text + "\n"@ + sitemap_lines(urls)
                    } else {
                        text
                    };
                    let host = match options {
                        Some(o) => o.host,
                        None => None,
                    };
                    match host {
                        None => Ok(text),
                        Some(h) => match site_origin(h) {
                            Err(e) => Err(e),
                            Ok(o) => Ok(text + "Host: "@ + o + "\n"@),
                        },
                    }
                },
            }
        },
    }
}

pub open spec fn text_view(r: Result<Vec<char>, String>) -> Result<Seq<char>, Seq<char>> {
    match r {
        Ok(v) => Ok(v@),
        Err(e) => Err(e@),
    }
}

fn validate_user_agent(value: &Vec<char>) -> (r: bool)
    ensures
        r == user_agent_ok(value@),
{
    proof {
        reveal_strlit("*");
    }
    if chars_eq(value.as_slice(), str_chars("*").as_slice()) {
        return true;
    }
    if value.len() == 0 {
        return false;
    }
    let mut i: usize = 0;
    while i < value.len()
        invariant
            i <= value.len(),
            value@ != "*"@,
            forall|k: int| 0 <= k < i ==> is_ascii_alpha(#[trigger] value@[k]) || value@[k] == '-'
                || value@[k] == '_',
        decreases value.len() - i,
    {
        let c = value[i];
        if !(ascii_alpha(c) || c == '-' || c == '_') {
            assert(!(is_ascii_alpha(value@[i as int]) || value@[i as int] == '-' || value@[i as int]
                == '_'));
            return false;
        }
        i += 1;
    }
    true
}

fn is_single_line(value: &Vec<char>) -> (r: bool)
    ensures
        r == single_line(value@),
{
    let mut i: usize = 0;
    while i < value.len()
        invariant
            i <= value.len(),
            forall|k: int| 0 <= k < i ==> !is_control(#[trigger] value@[k]),
        decreases value.len() - i,
    {
        if control(value[i]) {
            return false;
        }
        i += 1;
    }
    true
}

/// Appends the `directive` lines of `values` to `lines`, each after a line
/// break.
fn append_robots_paths(
    block: &mut Vec<char>,
    directive: &str,
    values: &Option<OneOrManyStrings>,
    Ghost(lines): Ghost<Seq<Seq<char>>>,
) -> (r: Result<Ghost<Seq<Seq<char>>>, String>)
    requires
        lines.len() > 0,
        old(block)@ == join(lines, "\n"@),
    ensures
        match r {
            Ok(g) => opt_path_lines(directive@, opt_values(*values)) == Ok::<
                Seq<Seq<char>>,
                Seq<char>,
            >(g@) && final(block)@ == join(lines + g@, "\n"@),
            Err(e) => opt_path_lines(directive@, opt_values(*values)) == Err::<
                Seq<Seq<char>>,
                Seq<char>,
            >(e@),
        },
{
    let list = match values {
        None => {
            assert(lines + Seq::<Seq<char>>::empty() =~= lines);
            return Ok(Ghost(Seq::empty()));
        },
        Some(v) => v.values(),
    };
    let ghost all = strings_of(list@);
    let ghost mut added: Seq<Seq<char>> = Seq::empty();
    let mut i: usize = 0;
    while i < list.len()
        invariant
            i <= list.len(),
            all == strings_of(list@),
            opt_values(*values) == Some(all),
            lines.len() > 0,
            path_lines(directive@, all.subrange(0, i as int)) == Ok::<Seq<Seq<char>>, Seq<char>>(
                added,
            ),
            block@ == join(lines + added, "\n"@),
        decreases list.len() - i,
    {
        let v = str_chars(list[i].as_str());
        assert(all.subrange(0, i + 1).drop_last() =~= all.subrange(0, i as int));
        assert(all.subrange(0, i + 1).last() == v@);
        if v.len() > 0 && v[0] != '/' {
            let mut m = str_chars("site.robots.rules ");
            push_str(&mut m, directive);
            push_str(&mut m, " value must start with '/': ");
            push_chars(&mut m, &v);
            proof {
                assert(path_lines(directive@, all.subrange(0, i + 1)) == Err::<Seq<Seq<char>>, Seq<char>>(m@));
                lemma_path_lines_error(directive@, all, i as int);
            }
            return Err(string_from_chars(m.as_slice()));
        }
        if !is_single_line(&v) {
            proof {
                assert(path_lines(directive@, all.subrange(0, i + 1)) == Err::<Seq<Seq<char>>, Seq<char>>(
                    "site.robots.rules path must not contain control characters"@,
                ));
                lemma_path_lines_error(directive@, all, i as int);
            }
            return Err("site.robots.rules path must not contain control characters".to_string());
        }
        let mut line = str_chars(directive);
        push_str(&mut line, ": ");
        push_chars(&mut line, &v);
        push_str(block, "\n");
        push_chars(block, &line);
        proof {
            let before = lines + added;
            added = added.push(line@);
            assert(lines + added =~= before.push(line@));
            assert((lines + added).drop_last() =~= before);
        }
        i += 1;
    }
    assert(all.subrange(0, list.len() as int) =~= all);
    Ok(Ghost(added))
}

/// An error at the `i`th value is the error of the whole list.
proof fn lemma_path_lines_error(directive: Seq<char>, values: Seq<Seq<char>>, i: int)
    requires
        0 <= i < values.len(),
        path_lines(directive, values.subrange(0, i + 1)) is Err,
    ensures
        path_lines(directive, values) == path_lines(directive, values.subrange(0, i + 1)),
    decreases values.len() - i,
{
    if i + 1 < values.len() {
        assert(values.drop_last().subrange(0, i + 1) =~= values.subrange(0, i + 1));
        lemma_path_lines_error(directive, values.drop_last(), i);
        assert(values.drop_last().subrange(0, i + 1) =~= values.subrange(0, i + 1));
    } else {
        assert(values.subrange(0, i + 1) =~= values);
    }
}

/// Once the blocks of the first `m` agents fail, so do those of every longer
/// prefix, with the same error.
proof fn lemma_agent_blocks_error(rule: RuleView, agents: Seq<Seq<char>>, m: nat, n: nat)
    requires
        m <= n,
        agent_blocks(rule, agents, m) is Err,
    ensures
        agent_blocks(rule, agents, n) == agent_blocks(rule, agents, m),
    decreases n - m,
{
    if n > m {
        lemma_agent_blocks_error(rule, agents, m, (n - 1) as nat);
    }
}

proof fn lemma_all_blocks_error(rules: Seq<RuleView>, m: nat, n: nat)
    requires
        m <= n,
        all_blocks(rules, m) is Err,
    ensures
        all_blocks(rules, n) == all_blocks(rules, m),
    decreases n - m,
{
    if n > m {
        lemma_all_blocks_error(rules, m, (n - 1) as nat);
    }
}

proof fn lemma_normalized_urls_error(values: Seq<Seq<char>>, field: Seq<char>, i: int)
    requires
        0 <= i < values.len(),
        normalized_urls(values.subrange(0, i + 1), field) is Err,
    ensures
        normalized_urls(values, field) == normalized_urls(values.subrange(0, i + 1), field),
    decreases values.len() - i,
{
    if i + 1 < values.len() {
        assert(values.drop_last().subrange(0, i + 1) =~= values.subrange(0, i + 1));
        lemma_normalized_urls_error(values.drop_last(), field, i);
    } else {
        assert(values.subrange(0, i + 1) =~= values);
    }
}

/// Appends `block` to text holding the blocks `blocks`, separated by a blank
/// line.
fn push_block(
    text: &mut Vec<char>,
    block: &Vec<char>,
    any: bool,
    Ghost(blocks): Ghost<Seq<Seq<char>>>,
)
    requires
        old(text)@ == join(blocks, "\n\n"@),
        any == (blocks.len() > 0),
    ensures
        final(text)@ == join(blocks.push(block@), "\n\n"@),
{
    if any {
        push_str(text, "\n\n");
    }
    push_chars(text, block);
    assert(blocks.push(block@).drop_last() =~= blocks);
    proof {
        if blocks.len() == 0 {
            assert(text@ =~= block@);
        }
    }
}

/// Appends the blocks of `rule`, one per user agent, to `text`.
fn push_rule_blocks(
    text: &mut Vec<char>,
    rule: &RobotsRuleOptions,
    any: bool,
    Ghost(blocks): Ghost<Seq<Seq<char>>>,
) -> (r: Result<Ghost<Seq<Seq<char>>>, String>)
    requires
        old(text)@ == join(blocks, "\n\n"@),
        any == (blocks.len() > 0),
    ensures
        match r {
            Ok(g) => rule_blocks(rule@) == Ok::<Seq<Seq<char>>, Seq<char>>(g@) && final(text)@
                == join(blocks + g@, "\n\n"@) && g@.len() > 0,
            Err(e) => rule_blocks(rule@) == Err::<Seq<Seq<char>>, Seq<char>>(e@),
        },
{
    let agents: Vec<String> = match &rule.user_agent {
        Some(a) => a.values(),
        None => {
            let mut v: Vec<String> = Vec::new();
            v.push("*".to_string());
            assert(strings_of(v@) =~= seq!["*"@]);
            v
        },
    };
    let ghost names = strings_of(agents@);
    assert(names == rule_agents(rule@));
    if agents.len() == 0 {
        return Err("site.robots.rules userAgent must not be empty".to_string());
    }
    let ghost mut added: Seq<Seq<char>> = Seq::empty();
    let mut any = any;
    let mut j: usize = 0;
    while j < agents.len()
        invariant
            j <= agents.len(),
            any == (blocks.len() + added.len() > 0),
            added.len() == j,
            names == strings_of(agents@),
            names == rule_agents(rule@),
            agent_blocks(rule@, names, j as nat) == Ok::<Seq<Seq<char>>, Seq<char>>(added),
            text@ == join(blocks + added, "\n\n"@),
        decreases agents.len() - j,
    {
        let agent = str_chars(agents[j].as_str());
        assert(names[j as int] == agent@);
        if !validate_user_agent(&agent) {
            let mut m = str_chars("site.robots.rules userAgent is not a valid product token: ");
            push_chars(&mut m, &agent);
            proof {
                lemma_agent_blocks_error(rule@, names, (j + 1) as nat, names.len());
            }
            return Err(string_from_chars(m.as_slice()));
        }
        let mut block = str_chars("User-agent: ");
        push_chars(&mut block, &agent);
        let ghost first = seq![block@];
        assert(join(first, "\n"@) == block@);
        let allow = match append_robots_paths(&mut block, "Allow", &rule.allow, Ghost(first)) {
            Ok(g) => g,
            Err(e) => {
                proof {
                    lemma_agent_blocks_error(rule@, names, (j + 1) as nat, names.len());
                }
                return Err(e);
            },
        };
        let disallow = match append_robots_paths(
            &mut block,
            "Disallow",
            &rule.disallow,
            Ghost(first + allow@),
        ) {
            Ok(g) => g,
            Err(e) => {
                proof {
                    lemma_agent_blocks_error(rule@, names, (j + 1) as nat, names.len());
                }
                return Err(e);
            },
        };
        let ghost lines = first + allow@ + disallow@;
        if let Some(d) = rule.crawl_delay {
            let mut line = str_chars("Crawl-delay: ");
            push_decimal(&mut line, d);
            push_str(&mut block, "\n");
            push_chars(&mut block, &line);
            proof {
                assert(lines.push(line@).drop_last() =~= lines);
                assert(lines + seq![line@] =~= lines.push(line@));
                lines = lines.push(line@);
            }
        } else {
            assert(lines + Seq::<Seq<char>>::empty() =~= lines);
        }
        assert(block@ == join(lines, "\n"@));
        push_block(text, &block, any, Ghost(blocks + added));
        proof {
            assert((blocks + added).push(block@) =~= blocks + added.push(block@));
            added = added.push(block@);
        }
        any = true;
        j += 1;
    }
    Ok(Ghost(added))
}

pub open spec fn opt_robots(options: Option<&RobotsGenerationOptions>) -> Option<RobotsView> {
    match options {
        Some(o) => Some(o@),
        None => None,
    }
}

pub open spec fn opt_str(v: Option<&str>) -> Option<Seq<char>> {
    match v {
        Some(s) => Some(s@),
        None => None,
    }
}

/// The blocks of `robots.txt`, joined by blank lines.
fn robots_blocks(options: Option<&RobotsGenerationOptions>) -> (r: Result<
    (Vec<char>, Ghost<Seq<Seq<char>>>),
    String,
>)
    ensures
        match r {
            Ok((text, g)) => all_blocks(
                robots_rules(opt_robots(options)),
                robots_rules(opt_robots(options)).len(),
            ) == Ok::<Seq<Seq<char>>, Seq<char>>(g@) && text@ == join(g@, "\n\n"@),
            Err(e) => all_blocks(
                robots_rules(opt_robots(options)),
                robots_rules(opt_robots(options)).len(),
            ) == Err::<Seq<Seq<char>>, Seq<char>>(e@),
        },
{
    let ghost rules_view = robots_rules(opt_robots(options));
    let mut text: Vec<char> = Vec::new();
    let ghost mut blocks: Seq<Seq<char>> = Seq::empty();
    let fallback = RobotsRuleOptions {
        user_agent: Some(OneOrManyStrings::One("*".to_string())),
        allow: Some(OneOrManyStrings::One("/".to_string())),
        disallow: None,
        crawl_delay: None,
    };
    assert(fallback@ == default_rule());
    let many: Option<&Vec<RobotsRuleOptions>> = match options {
        Some(o) => match &o.rules {
            Some(OneOrManyRules::Many(list)) => if list.len() > 0 {
                Some(list)
            } else {
                None
            },
            _ => None,
        },
        None => None,
    };
    match many {
        Some(list) => {
            assert(rules_view == rules_of(list@));
            let ghost mut done: Seq<Seq<char>> = Seq::empty();
            let mut any = false;
            let mut i: usize = 0;
            while i < list.len()
                invariant
                    i <= list.len(),
                    any == (done.len() > 0),
                    rules_view == rules_of(list@),
                    rules_view == robots_rules(opt_robots(options)),
                    all_blocks(rules_view, i as nat) == Ok::<Seq<Seq<char>>, Seq<char>>(done),
                    text@ == join(done, "\n\n"@),
                decreases list.len() - i,
            {
                let rule = &list[i];
                assert(rules_view[i as int] == rule@);
                let ghost before = done;
                match push_rule_blocks(&mut text, rule, any, Ghost(done)) {
                    Ok(g) => {
                        proof {
                            done = done + g@;
                        }
                        any = true;
                    },
                    Err(e) => {
                        proof {
                            assert(all_blocks(rules_view, (i + 1) as nat) == Err::<
                                Seq<Seq<char>>,
                                Seq<char>,
                            >(e@));
                            lemma_all_blocks_error(rules_view, (i + 1) as nat, rules_view.len());
                        }
                        return Err(e);
                    },
                }
                i += 1;
            }
            proof {
                blocks = done;
            }
        },
        None => {
            let rule: &RobotsRuleOptions = match options {
                Some(o) => match &o.rules {
                    Some(OneOrManyRules::One(rule)) => rule,
                    _ => &fallback,
                },
                None => &fallback,
            };
            assert(rules_view == seq![rule@]);
            assert(all_blocks(rules_view, 0) == Ok::<Seq<Seq<char>>, Seq<char>>(Seq::empty()));
            match push_rule_blocks(&mut text, rule, false, Ghost(Seq::empty())) {
                Ok(g) => {
                    assert(Seq::<Seq<char>>::empty() + g@ =~= g@);
                    proof {
                        blocks = g@;
                    }
                },
                Err(e) => {
                    return Err(e);
                },
            }
        },
    }
    assert(all_blocks(rules_view, rules_view.len()) == Ok::<Seq<Seq<char>>, Seq<char>>(blocks));
    Ok((text, Ghost(blocks)))
}

/// The `Sitemap:` URLs of `robots.txt`.
fn robots_sitemap_urls(
    automatic_sitemap_origin: Option<&str>,
    options: Option<&RobotsGenerationOptions>,
) -> (r: Result<Vec<String>, String>)
    ensures
        match r {
            Ok(urls) => robots_sitemaps(opt_str(automatic_sitemap_origin), opt_robots(options))
                == Ok::<Seq<Seq<char>>, Seq<char>>(strings_of(urls@)),
            Err(e) => robots_sitemaps(opt_str(automatic_sitemap_origin), opt_robots(options))
                == Err::<Seq<Seq<char>>, Seq<char>>(e@),
        },
{
    let explicit: Option<&OneOrManyStrings> = match options {
        Some(o) => match &o.sitemap {
            Some(s) => Some(s),
            None => None,
        },
        None => None,
    };
    let mut urls: Vec<String> = Vec::new();
    match explicit {
        Some(values) => {
            let list = values.values();
            let ghost all = strings_of(list@);
            assert(all.subrange(0, 0) =~= Seq::<Seq<char>>::empty());
            assert(strings_of(urls@) =~= Seq::<Seq<char>>::empty());
            let mut i: usize = 0;
            while i < list.len()
                invariant
                    i <= list.len(),
                    all == strings_of(list@),
                    robots_sitemaps(opt_str(automatic_sitemap_origin), opt_robots(options))
                        == normalized_urls(all, "site.robots.sitemap"@),
                    normalized_urls(all.subrange(0, i as int), "site.robots.sitemap"@) == Ok::<
                        Seq<Seq<char>>,
                        Seq<char>,
                    >(strings_of(urls@)),
                decreases list.len() - i,
            {
                assert(all.subrange(0, i + 1).drop_last() =~= all.subrange(0, i as int));
                match normalize_absolute_http_url(list[i].as_str(), "site.robots.sitemap") {
                    Ok(u) => {
                        let ghost before = urls@;
                        urls.push(u);
                        assert(strings_of(urls@) =~= strings_of(before).push(u@));
                    },
                    Err(e) => {
                        proof {
                            assert(normalized_urls(all.subrange(0, i + 1), "site.robots.sitemap"@)
                                == Err::<Seq<Seq<char>>, Seq<char>>(e@));
                            lemma_normalized_urls_error(all, "site.robots.sitemap"@, i as int);
                        }
                        return Err(e);
                    },
                }
                i += 1;
            }
            assert(all.subrange(0, list.len() as int) =~= all);
        },
        None => {
            if let Some(origin) = automatic_sitemap_origin {
                let mut u = str_chars(origin);
                push_str(&mut u, "/sitemap.xml");
                urls.push(string_from_chars(u.as_slice()));
                assert(strings_of(urls@) =~= seq![origin@ + "/sitemap.xml"@]);
            } else {
                assert(strings_of(urls@) =~= Seq::<Seq<char>>::empty());
            }
        },
    }
    assert(robots_sitemaps(opt_str(automatic_sitemap_origin), opt_robots(options)) == Ok::<
        Seq<Seq<char>>,
        Seq<char>,
    >(strings_of(urls@)));
    urls
        .len();
    Ok(urls)
}

/// The text of `robots.txt` for the generated sitemap of
/// `automatic_sitemap_origin`, if any, and the configured policy.
pub fn robots_txt(
    automatic_sitemap_origin: Option<&str>,
    options: Option<&RobotsGenerationOptions>,
) -> (r: Result<String, String>)
    ensures
        res_view(r) == robots_text(opt_str(automatic_sitemap_origin), opt_robots(options)),
{
    let (mut text, Ghost(blocks)) = robots_blocks(options)?;
    push_str(&mut text, "\n");
    let urls = robots_sitemap_urls(automatic_sitemap_origin, options)?;
    let ghost head = text@;
    if urls.len() > 0 {
        push_str(&mut text, "\n");
        let ghost start = text@;
        let mut i: usize = 0;
        while i < urls.len()
            invariant
                i <= urls.len(),
                text@ == start + sitemap_lines(strings_of(urls@).subrange(0, i as int)),
            decreases urls.len() - i,
        {
            push_str(&mut text, "Sitemap: ");
            push_str(&mut text, urls[i].as_str());
            push_str(&mut text, "\n");
            assert(strings_of(urls@).subrange(0, i + 1).drop_last() =~= strings_of(urls@).subrange(
                0,
                i as int,
            ));
            i += 1;
        }
        assert(strings_of(urls@).subrange(0, urls.len() as int) =~= strings_of(urls@));
    }
    let host: Option<&String> = match options {
        Some(o) => o.host.as_ref(),
        None => None,
    };
    if let Some(h) = host {
        let origin = normalize_site_origin(h.as_str())?;
        push_str(&mut text, "Host: ");
        push_str(&mut text, origin.as_str());
        push_str(&mut text, "\n");
    }
    Ok(string_from_chars(text.as_slice()))
}

} // verus!
