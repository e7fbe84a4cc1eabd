//! What a resolved site origin looks like, and that resolving it again gives
//! it back unchanged.

use vstd::prelude::*;

use crate::site_discovery::{
    authority, count_char, dns_host_ok, find_from, forbidden_in_url, is_http_scheme, is_label,
    label_ok, occurs_at, port_suffix, site_origin, url_text_problem,
};
use crate::text::{
    all_digits, contains_char, decimal, digit_char, digits_value, eq_ignore_case, is_ascii_alnum,
    is_ascii_digit, is_unicode_ws, lower, lower_all, parse_unsigned, trim, trim_end_index,
    trim_start_index,
};

verus! {

/// The characters a resolved DNS origin is written with.
pub open spec fn origin_char(c: char) -> bool {
    is_ascii_alnum(c) || c == ':' || c == '/' || c == '-' || c == '.'
}

proof fn lemma_origin_char_allowed(c: char)
    requires
        origin_char(c),
    ensures
        !forbidden_in_url(c),
        !is_unicode_ws(c),
{
}

proof fn lemma_trim_plain(s: Seq<char>)
    requires
        s.len() > 0,
        !is_unicode_ws(s[0]),
        !is_unicode_ws(s[s.len() - 1]),
    ensures
        trim(s) == s,
{
    assert(trim_start_index(s, 0) == 0);
    assert(trim_end_index(s, 0, s.len() as int) == s.len());
    assert(s.subrange(0, s.len() as int) =~= s);
}

proof fn lemma_decimal_digits(n: nat)
    ensures
        decimal(n).len() > 0,
        all_digits(decimal(n)),
        digits_value(decimal(n)) == n,
    decreases n,
{
    if n >= 10 {
        lemma_decimal_digits(n / 10);
        let d = decimal(n);
        assert(d.drop_last() =~= decimal(n / 10));
        assert(d.last() == digit_char(n % 10));
        assert((digit_char(n % 10) as u32) == 48 + n % 10);
        assert(n == (n / 10) * 10 + n % 10);
        assert(digits_value(d) == digits_value(decimal(n / 10)) * 10 + n % 10);
        assert(digits_value(decimal(n / 10)) == n / 10);
        assert forall|i: int| 0 <= i < d.len() implies is_ascii_digit(#[trigger] d[i]) by {
            if i < d.len() - 1 {
                assert(d[i] == decimal(n / 10)[i]);
            }
        }
    } else {
        assert(decimal(n) =~= seq![digit_char(n)]);
        assert(decimal(n).drop_last() =~= Seq::<char>::empty());
        assert((digit_char(n) as u32) == 48 + n);
        assert(digits_value(Seq::<char>::empty()) == 0);
        assert(digits_value(decimal(n)) == digits_value(decimal(n).drop_last()) * 10 + n);
    }
}

proof fn lemma_count_concat(a: Seq<char>, b: Seq<char>, c: char)
    ensures
        count_char(a + b, c) == count_char(a, c) + count_char(b, c),
    decreases b.len(),
{
    if b.len() == 0 {
        assert(a + b =~= a);
    } else {
        lemma_count_concat(a, b.drop_last(), c);
        assert((a + b).drop_last() =~= a + b.drop_last());
        assert((a + b).last() == b.last());
    }
}

proof fn lemma_count_absent(s: Seq<char>, c: char)
    requires
        forall|k: int| 0 <= k < s.len() ==> #[trigger] s[k] != c,
    ensures
        count_char(s, c) == 0,
    decreases s.len(),
{
    if s.len() > 0 {
        assert forall|k: int| 0 <= k < s.len() - 1 implies #[trigger] s.drop_last()[k] != c by {
            assert(s.drop_last()[k] == s[k]);
        }
        lemma_count_absent(s.drop_last(), c);
        assert(s.last() == s[s.len() - 1]);
    }
}

/// A port suffix as a resolved origin writes it: none, or `:` and the port
/// in decimal.
pub open spec fn written_port(p: Seq<char>, n: nat) -> bool {
    p.len() == 0 || (1 <= n <= 65535 && p == ":"@ + decimal(n))
}

proof fn lemma_written_port(p: Seq<char>, n: nat)
    requires
        written_port(p, n),
    ensures
        port_suffix(p) == Ok::<Seq<char>, Seq<char>>(p),
        forall|k: int| 0 <= k < p.len() ==> origin_char(#[trigger] p[k]) && p[k] != '/',
        count_char(p, ':') <= 1,
        p.len() > 0 ==> p[0] == ':' && is_ascii_digit(p[p.len() - 1]),
        p.len() > 0 ==> forall|k: int| 1 <= k < p.len() ==> is_ascii_digit(#[trigger] p[k]),
{
    reveal_strlit(":");
    if p.len() > 0 {
        let d = decimal(n);
        lemma_decimal_digits(n);
        assert(p.drop_first() =~= d);
        assert(d[0] != '+') by {
            assert(is_ascii_digit(d[0]));
        }
        assert(parse_unsigned(d, 65535) == Some(n));
        assert forall|k: int| 1 <= k < p.len() implies is_ascii_digit(#[trigger] p[k]) by {
            assert(p[k] == d[k - 1]);
            assert(is_ascii_digit(d[k - 1]));
        }
        assert forall|k: int| 0 <= k < p.len() implies origin_char(#[trigger] p[k]) && p[k] != '/' by {
            if k > 0 {
                assert(is_ascii_digit(p[k]));
            }
        }
        lemma_count_concat(":"@, d, ':');
        assert forall|k: int| 0 <= k < d.len() implies #[trigger] d[k] != ':' by {
            assert(is_ascii_digit(d[k]));
        }
        lemma_count_absent(d, ':');
        assert(count_char(":"@, ':') == 1) by {
            assert((":"@).drop_last() =~= Seq::<char>::empty());
            assert(count_char(Seq::<char>::empty(), ':') == 0);
            assert((":"@).last() == ':');
        }
        assert(p[0] == ':');
        assert(parse_unsigned(p.drop_first(), 65535) == Some(n));
    } else {
        assert(count_char(p, ':') == 0);
        assert(p =~= Seq::<char>::empty());
    }
}

proof fn lemma_lower_idempotent(s: Seq<char>)
    ensures
        lower_all(lower_all(s)) == lower_all(s),
{
    assert(lower_all(lower_all(s)) =~= lower_all(s));
}

proof fn lemma_lowercase_letters(s: Seq<char>)
    requires
        forall|k: int| 0 <= k < s.len() ==> 97 <= (#[trigger] s[k] as u32) <= 122,
    ensures
        lower_all(s) == s,
{
    assert(lower_all(s) =~= s);
}

proof fn lemma_dns_host_lowered(h: Seq<char>)
    requires
        dns_host_ok(h),
    ensures
        dns_host_ok(lower_all(h)),
{
    let l = lower_all(h);
    assert forall|k: int| 0 <= k < l.len() implies is_ascii_alnum(#[trigger] l[k]) || l[k] == '-' || l[k]
        == '.' by {
        assert(l[k] == lower(h[k]));
    }
    assert forall|i: int, j: int| #[trigger] is_label(l, i, j) implies label_ok(l, i, j) by {
        assert forall|k: int| i <= k < j implies h[k] != '.' by {
            assert(l[k] == lower(h[k]));
        }
        if i > 0 {
            assert(l[i - 1] == lower(h[i - 1]));
        }
        if j < h.len() {
            assert(l[j] == lower(h[j]));
        }
        assert(is_label(h, i, j));
        if i < j {
            assert(l[i] == lower(h[i]));
            assert(l[j - 1] == lower(h[j - 1]));
        }
    }
}

proof fn lemma_dns_host_chars(h: Seq<char>)
    requires
        dns_host_ok(h),
    ensures
        forall|k: int| 0 <= k < h.len() ==> origin_char(#[trigger] h[k]) && h[k] != ':' && h[k] != '/',
{
}

/// A DNS origin as resolution writes it resolves to itself.
proof fn lemma_dns_origin_fixed(scheme: Seq<char>, host: Seq<char>, p: Seq<char>, n: nat)
    requires
        scheme == "http"@ || scheme == "https"@,
        host.len() > 0,
        dns_host_ok(host),
        lower_all(host) == host,
        written_port(p, n),
    ensures
        site_origin(scheme + "://"@ + host + p) == Ok::<Seq<char>, Seq<char>>(scheme + "://"@ + host + p),
{
    reveal_strlit("http");
    reveal_strlit("https");
    reveal_strlit("://");
    reveal_strlit(":");
    let sep = "://"@;
    let rest = host + p;
    let o = scheme + sep + rest;
    assert(scheme + sep + host + p =~= o);
    let sl = scheme.len() as int;
    lemma_written_port(p, n);
    lemma_dns_host_chars(host);
    assert forall|k: int| 0 <= k < sl implies 97 <= (#[trigger] scheme[k] as u32) <= 122 by {}
    lemma_lowercase_letters(scheme);
    assert forall|k: int| 0 <= k < rest.len() implies origin_char(#[trigger] rest[k]) && rest[k] != '/' by {
        if k < host.len() {
            assert(rest[k] == host[k]);
        } else {
            assert(rest[k] == p[k - host.len()]);
        }
    }
    assert forall|k: int| 0 <= k < o.len() implies origin_char(#[trigger] o[k]) by {
        if k < sl {
            assert(o[k] == scheme[k]);
        } else if k < sl + 3 {
            assert(o[k] == sep[k - sl]);
        } else {
            assert(o[k] == rest[k - sl - 3]);
        }
    }
    // trim and the text checks
    assert(o[0] == scheme[0]);
    assert(o[o.len() - 1] == rest[rest.len() - 1]);
    lemma_origin_char_allowed(o[0]);
    lemma_origin_char_allowed(o[o.len() - 1]);
    lemma_trim_plain(o);
    assert forall|k: int| 0 <= k < o.len() implies !forbidden_in_url(#[trigger] o[k]) by {
        lemma_origin_char_allowed(o[k]);
    }
    assert(url_text_problem(o) is None);
    // the scheme separator
    crate::site_discovery::lemma_find_from(o, sep, 0);
    assert(o.subrange(sl, sl + 3) =~= sep);
    assert(occurs_at(o, sep, sl));
    let f = find_from(o, sep, 0);
    if f != sl {
        if f != -1 && f < sl {
            assert(o.subrange(f, f + 3)[0] == o[f]);
            assert(o[f] == scheme[f]);
        }
    }
    assert(f == sl);
    assert(o.subrange(0, sl) =~= scheme);
    assert(o.subrange(sl + 3, o.len() as int) =~= rest);
    assert(is_http_scheme(scheme));
    assert(rest[rest.len() - 1] != '/');
    assert(!contains_char(rest, '/'));
    assert(!contains_char(rest, '?'));
    assert(!contains_char(rest, '#'));
    assert(authority(rest) == Ok::<Seq<char>, Seq<char>>(rest)) by {
        lemma_authority_fixed(host, p, n);
    }
}

proof fn lemma_authority_fixed(host: Seq<char>, p: Seq<char>, n: nat)
    requires
        host.len() > 0,
        dns_host_ok(host),
        lower_all(host) == host,
        written_port(p, n),
    ensures
        authority(host + p) == Ok::<Seq<char>, Seq<char>>(host + p),
{
    reveal_strlit(":");
    let rest = host + p;
    lemma_written_port(p, n);
    lemma_dns_host_chars(host);
    assert forall|k: int| 0 <= k < rest.len() implies origin_char(#[trigger] rest[k]) && rest[k] != '/' by {
        if k < host.len() {
            assert(rest[k] == host[k]);
        } else {
            assert(rest[k] == p[k - host.len()]);
        }
    }
    assert(!contains_char(rest, '@'));
    assert(rest[0] == host[0]);
    assert(rest[0] != '[');
    lemma_count_concat(host, p, ':');
    lemma_count_absent(host, ':');
    assert(count_char(rest, ':') <= 1);
    assert(":"@ =~= seq![':']);
    if p.len() > 0 {
        assert(rest[host.len() as int] == ':');
        assert forall|k: int| 0 <= k < host.len() implies rest[k] != ':' by {
            assert(rest[k] == host[k]);
        }
        crate::site_discovery::lemma_find_char(rest, ':', host.len() as int);
        assert(rest.subrange(0, host.len() as int) =~= host);
        assert(rest.subrange(host.len() as int, rest.len() as int) =~= p);
    } else {
        assert(rest =~= host);
        assert(!contains_char(rest, ':'));
        crate::site_discovery::lemma_no_char(rest, ':');
        assert(p =~= Seq::<char>::empty());
    }
}

proof fn lemma_port_written(port: Seq<char>) -> (n: nat)
    requires
        port_suffix(port) is Ok,
    ensures
        written_port(port_suffix(port)->Ok_0, n),
{
    if port.len() == 0 {
        0
    } else {
        let v = parse_unsigned(port.drop_first(), 65535)->Some_0;
        v
    }
}

proof fn lemma_bracketed_authority(s: Seq<char>)
    requires
        authority(s) is Ok,
        s[0] == '[',
    ensures
        authority(s)->Ok_0.len() > 0 && authority(s)->Ok_0[0] == '[',
{
    reveal_strlit("[");
}

proof fn lemma_authority_parts(s: Seq<char>) -> (parts: (Seq<char>, Seq<char>, nat))
    requires
        authority(s) is Ok,
        s[0] != '[',
    ensures
        authority(s)->Ok_0 == parts.0 + parts.1,
        parts.0.len() > 0,
        dns_host_ok(parts.0),
        lower_all(parts.0) == parts.0,
        written_port(parts.1, parts.2),
{
    let colon = find_from(s, ":"@, 0);
    let host = if colon >= 0 {
        s.subrange(0, colon)
    } else {
        s
    };
    let port = if colon >= 0 {
        s.subrange(colon, s.len() as int)
    } else {
        Seq::empty()
    };
    let n = lemma_port_written(port);
    lemma_dns_host_lowered(host);
    lemma_lower_idempotent(host);
    (lower_all(host), port_suffix(port)->Ok_0, n)
}

/// The parts of a resolved origin whose host is a DNS name: its scheme in
/// lower case, its host in lower case, and its port as resolution writes it.
proof fn lemma_dns_origin_parts(value: Seq<char>) -> (parts: (Seq<char>, Seq<char>, Seq<char>, nat))
    requires
        site_origin(value) is Ok,
        !contains_char(site_origin(value)->Ok_0, '['),
    ensures
        parts.0 == "http"@ || parts.0 == "https"@,
        parts.1.len() > 0,
        dns_host_ok(parts.1),
        lower_all(parts.1) == parts.1,
        written_port(parts.2, parts.3),
        site_origin(value)->Ok_0 == parts.0 + "://"@ + parts.1 + parts.2,
{
    reveal_strlit("http");
    reveal_strlit("https");
    reveal_strlit("://");
    let v = trim(value);
    let n = if find_from(v, "://"@, 0) >= 0 {
        v
    } else {
        "https://"@ + v
    };
    let at = find_from(n, "://"@, 0);
    let scheme = n.subrange(0, at);
    let rest = n.subrange(at + 3, n.len() as int);
    let origin = if rest.len() > 0 && rest.last() == '/' {
        rest.drop_last()
    } else {
        rest
    };
    let a = authority(origin)->Ok_0;
    let o = site_origin(value)->Ok_0;
    assert(o == lower_all(scheme) + "://"@ + a);
    let sl = lower_all(scheme).len() as int;
    if origin[0] == '[' {
        lemma_bracketed_authority(origin);
        assert(o[sl + 3] == a[0]);
        assert(contains_char(o, '['));
    }
    let (host, p, port) = lemma_authority_parts(origin);
    assert forall|k: int| 0 <= k < 4 implies 97 <= (#[trigger] ("http"@)[k] as u32) <= 122 by {}
    assert forall|k: int| 0 <= k < 5 implies 97 <= (#[trigger] ("https"@)[k] as u32) <= 122 by {}
    lemma_lowercase_letters("http"@);
    lemma_lowercase_letters("https"@);
    assert(lower_all(scheme) == "http"@ || lower_all(scheme) == "https"@);
    assert(o =~= lower_all(scheme) + "://"@ + host + p);
    (lower_all(scheme), host, p, port)
}

/// A resolved origin whose host is a DNS name resolves to itself: its scheme
/// and host are already in lower case, it has no trailing slash, and its
/// port is already written canonically, so resolving it again changes
/// nothing.
pub proof fn law_a_resolved_dns_origin_resolves_to_itself(value: Seq<char>)
    requires
        site_origin(value) is Ok,
        !contains_char(site_origin(value)->Ok_0, '['),
    ensures
        site_origin(site_origin(value)->Ok_0) == site_origin(value),
{
    let (scheme, host, p, n) = lemma_dns_origin_parts(value);
    lemma_dns_origin_fixed(scheme, host, p, n);
}

} // verus!
