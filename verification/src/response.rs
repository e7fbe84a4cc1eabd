//! The security headers every response carries by default, and the
//! cache policy of HTML documents.
//!
//! The defaults are declared once and both directions read them: applying
//! inserts each default the response does not set, and disabling removes a
//! header only while it still holds its exact default value, so an
//! application's own header survives either way.

use vstd::prelude::*;

use axum::http::{HeaderMap, HeaderName, HeaderValue};
use vstd::string::StringSliceAdditionalSpecFns;

verus! {

broadcast use vstd::string::group_string_axioms;

#[verifier::external_type_specification]
#[verifier::external_body]
#[verifier::reject_recursive_types(T)]
pub struct ExHeaderMap<T>(HeaderMap<T>);

#[verifier::external_type_specification]
#[verifier::external_body]
pub struct ExHeaderValue(HeaderValue);

/// The headers of a map: each name, lowercase, with its values in order.
pub uninterp spec fn header_entries(map: HeaderMap<HeaderValue>) -> Map<Seq<char>, Seq<Seq<u8>>>;

/// A name `HeaderName::from_static` accepts: lowercase letters, digits and
/// `-`, at most 65535 of them.
pub open spec fn header_name_ok(name: Seq<char>) -> bool {
    &&& name.len() > 0
    &&& name.len() <= 65535
    &&& forall|i: int|
        0 <= i < name.len() ==> ('a' <= #[trigger] name[i] <= 'z' || '0' <= name[i] <= '9' || name[i]
            == '-')
}

/// A value `HeaderValue::from_static` accepts: visible ASCII or tabs.
pub open spec fn header_value_ok(value: Seq<char>) -> bool {
    forall|i: int| 0 <= i < value.len() ==> ((' ' <= #[trigger] value[i] && value[i] <= '~') || value[i] == '\t')
}

/// Fewest headers of distinct names at which `HeaderMap::insert` could need
/// to grow past its size limit.
pub const HEADER_NAMES_LIMIT: usize = 4096;

/// `HeaderMap::keys_len`: how many distinct names the map holds, which
/// are finitely many.
#[verifier::external_body]
fn header_names(map: &HeaderMap<HeaderValue>) -> (r: usize)
    ensures
        r as int == (if header_entries(*map).dom().finite() {
            header_entries(*map).dom().len() as int
        } else {
            -1
        }),
{
    map.keys_len()
}

/// Whether the headers leave room to finish a response: one header of its
/// own and the security defaults, below the limit on distinct names.
pub fn has_room_for_defaults(headers: &HeaderMap<HeaderValue>) -> (r: bool)
    ensures
        r == (header_entries(*headers).dom().finite() && header_entries(*headers).dom().len() + 8
            < HEADER_NAMES_LIMIT),
{
    let names = header_names(headers);
    names < HEADER_NAMES_LIMIT - 8
}

/// `HeaderMap::contains_key`: the map holds a header of this name.
#[verifier::external_body]
fn has_header(map: &HeaderMap<HeaderValue>, name: &str) -> (r: bool)
    requires
        header_name_ok(name@),
    ensures
        r == header_entries(*map).dom().contains(name@),
{
    map.contains_key(name)
}

/// `HeaderMap::get`: the first value of the header of this name.
#[verifier::external_body]
fn first_header_value<'a>(map: &'a HeaderMap<HeaderValue>, name: &str) -> (r: Option<&'a [u8]>)
    requires
        header_name_ok(name@),
    ensures
        r is Some <==> header_entries(*map).dom().contains(name@),
        r matches Some(v) ==> header_entries(*map)[name@].len() > 0 && v@ == header_entries(*map)[name@][0],
{
    match map.get(name) {
        Some(value) => Some(value.as_bytes()),
        None => None,
    }
}

/// `HeaderMap::insert` of `HeaderName::from_static(name)` and
/// `HeaderValue::from_static(value)`: the header then holds that one value.
/// Below the limit on distinct names the map never has to grow past its
/// maximum size, where `insert` panics.
#[verifier::external_body]
fn set_header(map: &mut HeaderMap<HeaderValue>, name: &'static str, value: &'static str)
    requires
        header_name_ok(name@),
        header_value_ok(value@),
        header_entries(*old(map)).dom().len() < HEADER_NAMES_LIMIT,
    ensures
        header_entries(*final(map)) == header_entries(*old(map)).insert(name@, seq![value.spec_bytes()]),
{
    map.insert(HeaderName::from_static(name), HeaderValue::from_static(value));
}

/// `HeaderMap::remove`: the header of this name is gone, all its values.
#[verifier::external_body]
fn remove_header(map: &mut HeaderMap<HeaderValue>, name: &str)
    requires
        header_name_ok(name@),
    ensures
        header_entries(*final(map)) == header_entries(*old(map)).remove(name@),
{
    map.remove(name);
}

/// The defaults, by name and value, as `(name, value)` text.
pub open spec fn security_defaults() -> Seq<(&'static str, &'static str)> {
    seq![
        ("x-content-type-options", "nosniff"),
        ("referrer-policy", "strict-origin-when-cross-origin"),
        ("permissions-policy", "camera=(), microphone=(), geolocation=()"),
        ("cross-origin-opener-policy", "same-origin"),
        ("cross-origin-resource-policy", "same-origin"),
        ("x-frame-options", "DENY"),
        ("x-permitted-cross-domain-policies", "none"),
    ]
}

/// Response headers sent unless the application sets its own.
pub fn default_security_headers() -> (r: Vec<(&'static str, &'static str)>)
    ensures
        r@ == security_defaults(),
{
    let r = vec![
        ("x-content-type-options", "nosniff"),
        ("referrer-policy", "strict-origin-when-cross-origin"),
        ("permissions-policy", "camera=(), microphone=(), geolocation=()"),
        ("cross-origin-opener-policy", "same-origin"),
        ("cross-origin-resource-policy", "same-origin"),
        ("x-frame-options", "DENY"),
        ("x-permitted-cross-domain-policies", "none"),
    ];
    assert(r@ =~= security_defaults());
    r
}

pub open spec fn default_name(i: int) -> Seq<char> {
    security_defaults()[i].0@
}

pub open spec fn default_bytes(i: int) -> Seq<u8> {
    security_defaults()[i].1.spec_bytes()
}

/// The defaults are well-formed and name seven different headers.
pub proof fn lemma_defaults_well_formed()
    ensures
        security_defaults().len() == 7,
        forall|i: int|
            0 <= i < 7 ==> header_name_ok(#[trigger] default_name(i)) && header_value_ok(
                security_defaults()[i].1@,
            ),
        forall|i: int, j: int| 0 <= i < j < 7 ==> #[trigger] default_name(i) != #[trigger] default_name(j),
{
    reveal_strlit("x-content-type-options");
    reveal_strlit("referrer-policy");
    reveal_strlit("permissions-policy");
    reveal_strlit("cross-origin-opener-policy");
    reveal_strlit("cross-origin-resource-policy");
    reveal_strlit("x-frame-options");
    reveal_strlit("x-permitted-cross-domain-policies");
    reveal_strlit("nosniff");
    reveal_strlit("strict-origin-when-cross-origin");
    reveal_strlit("camera=(), microphone=(), geolocation=()");
    reveal_strlit("same-origin");
    reveal_strlit("DENY");
    reveal_strlit("none");
    assert forall|i: int, j: int| 0 <= i < j < 7 implies #[trigger] default_name(i) != #[trigger] default_name(j) by {
        if default_name(i) == default_name(j) {
            assert(default_name(i).len() == default_name(j).len());
            assert(default_name(i)[2] == default_name(j)[2]);
            assert(default_name(i)[7] == default_name(j)[7]);
            assert(default_name(i)[14] == default_name(j)[14]);
        }
    }
}

/// `m` with the default at `i` added unless a header of its name is there.
pub open spec fn apply_default(m: Map<Seq<char>, Seq<Seq<u8>>>, i: int) -> Map<Seq<char>, Seq<Seq<u8>>> {
    if m.dom().contains(default_name(i)) {
        m
    } else {
        m.insert(default_name(i), seq![default_bytes(i)])
    }
}

/// `m` without the header named by the default at `i`, if its first value
/// is exactly that default.
pub open spec fn strip_default(m: Map<Seq<char>, Seq<Seq<u8>>>, i: int) -> Map<Seq<char>, Seq<Seq<u8>>> {
    if m.dom().contains(default_name(i)) && m[default_name(i)].len() > 0 && m[default_name(i)][0]
        == default_bytes(i) {
        m.remove(default_name(i))
    } else {
        m
    }
}

pub open spec fn applied_upto(m: Map<Seq<char>, Seq<Seq<u8>>>, n: nat) -> Map<Seq<char>, Seq<Seq<u8>>>
    decreases n,
{
    if n == 0 {
        m
    } else {
        apply_default(applied_upto(m, (n - 1) as nat), n - 1)
    }
}

pub open spec fn stripped_upto(m: Map<Seq<char>, Seq<Seq<u8>>>, n: nat) -> Map<Seq<char>, Seq<Seq<u8>>>
    decreases n,
{
    if n == 0 {
        m
    } else {
        strip_default(stripped_upto(m, (n - 1) as nat), n - 1)
    }
}

/// The headers with every missing default added.
pub open spec fn with_defaults(m: Map<Seq<char>, Seq<Seq<u8>>>) -> Map<Seq<char>, Seq<Seq<u8>>> {
    applied_upto(m, 7)
}

/// The headers with every header still at its default value removed.
pub open spec fn without_defaults(m: Map<Seq<char>, Seq<Seq<u8>>>) -> Map<Seq<char>, Seq<Seq<u8>>> {
    stripped_upto(m, 7)
}

proof fn lemma_applied_len(m: Map<Seq<char>, Seq<Seq<u8>>>, n: nat)
    requires
        m.dom().finite(),
        n <= 7,
    ensures
        applied_upto(m, n).dom().finite(),
        applied_upto(m, n).dom().len() <= m.dom().len() + n,
    decreases n,
{
    if n > 0 {
        lemma_applied_len(m, (n - 1) as nat);
    }
}

/// Sets `name` to `value` unless the map already holds a header of that
/// name.
fn insert_default_header(headers: &mut HeaderMap<HeaderValue>, name: &'static str, value: &'static str)
    requires
        header_name_ok(name@),
        header_value_ok(value@),
        header_entries(*old(headers)).dom().len() < HEADER_NAMES_LIMIT,
    ensures
        header_entries(*final(headers)) == if header_entries(*old(headers)).dom().contains(name@) {
            header_entries(*old(headers))
        } else {
            header_entries(*old(headers)).insert(name@, seq![value.spec_bytes()])
        },
{
    if !has_header(headers, name) {
        set_header(headers, name, value);
    }
}

/// Removes the header `name` when its first value is exactly
/// `default_value`.
fn remove_default_header(headers: &mut HeaderMap<HeaderValue>, name: &str, default_value: &str)
    requires
        header_name_ok(name@),
    ensures
        header_entries(*final(headers)) == if header_entries(*old(headers)).dom().contains(name@)
            && header_entries(*old(headers))[name@].len() > 0 && header_entries(*old(headers))[name@][0]
            == default_value.spec_bytes() {
            header_entries(*old(headers)).remove(name@)
        } else {
            header_entries(*old(headers))
        },
{
    let matches = match first_header_value(headers, name) {
        Some(current) => bytes_equal(current, default_value.as_bytes()),
        None => false,
    };
    if matches {
        remove_header(headers, name);
    }
}

/// Adds every default header the map does not already set; an application
/// header always wins.
pub fn apply_security_headers(headers: &mut HeaderMap<HeaderValue>)
    requires
        header_entries(*old(headers)).dom().finite(),
        header_entries(*old(headers)).dom().len() + 7 < HEADER_NAMES_LIMIT,
    ensures
        header_entries(*final(headers)) == with_defaults(header_entries(*old(headers))),
{
    let ghost start = header_entries(*headers);
    let defaults = default_security_headers();
    proof {
        lemma_defaults_well_formed();
    }
    let mut i: usize = 0;
    while i < defaults.len()
        invariant
            i <= defaults.len(),
            defaults@ == security_defaults(),
            start.dom().finite(),
            start.dom().len() + 7 < HEADER_NAMES_LIMIT,
            header_entries(*headers) == applied_upto(start, i as nat),
            forall|k: int| 0 <= k < 7 ==> header_name_ok(#[trigger] default_name(k)) && header_value_ok(
                security_defaults()[k].1@,
            ),
        decreases defaults.len() - i,
    {
        let (name, value) = defaults[i];
        assert(name@ == default_name(i as int));
        proof {
            lemma_applied_len(start, i as nat);
        }
        insert_default_header(headers, name, value);
        i += 1;
    }
}

/// Applies the defaults when `enabled`; otherwise removes each header that
/// still holds exactly its default value.
pub fn finalize_security_headers(headers: &mut HeaderMap<HeaderValue>, enabled: bool)
    requires
        header_entries(*old(headers)).dom().finite(),
        header_entries(*old(headers)).dom().len() + 7 < HEADER_NAMES_LIMIT,
    ensures
        header_entries(*final(headers)) == if enabled {
            with_defaults(header_entries(*old(headers)))
        } else {
            without_defaults(header_entries(*old(headers)))
        },
{
    if enabled {
        apply_security_headers(headers);
        return;
    }
    let ghost start = header_entries(*headers);
    let defaults = default_security_headers();
    proof {
        lemma_defaults_well_formed();
    }
    let mut i: usize = 0;
    while i < defaults.len()
        invariant
            i <= defaults.len(),
            defaults@ == security_defaults(),
            header_entries(*headers) == stripped_upto(start, i as nat),
            forall|k: int| 0 <= k < 7 ==> header_name_ok(#[trigger] default_name(k)),
        decreases defaults.len() - i,
    {
        let (name, value) = defaults[i];
        assert(name@ == default_name(i as int));
        remove_default_header(headers, name, value);
        i += 1;
    }
}

fn bytes_equal(a: &[u8], b: &[u8]) -> (r: bool)
    ensures
        r == (a@ == b@),
{
    if a.len() != b.len() {
        return false;
    }
    let mut i: usize = 0;
    while i < a.len()
        invariant
            a.len() == b.len(),
            i <= a.len(),
            forall|k: int| 0 <= k < i ==> a@[k] == b@[k],
        decreases a.len() - i,
    {
        if a[i] != b[i] {
            return false;
        }
        i += 1;
    }
    assert(a@ =~= b@);
    true
}

/// An HTML response with this status must not be stored by any cache: a
/// client or server error.
pub fn is_uncacheable_status(status: u16) -> (r: bool)
    ensures
        r == (400 <= status && status < 600),
{
    400 <= status && status < 600
}

pub open spec fn is_default_before(x: Seq<char>, n: nat) -> bool {
    exists|k: int| 0 <= k < n && #[trigger] default_name(k) == x
}

pub open spec fn strips_before(w: Map<Seq<char>, Seq<Seq<u8>>>, x: Seq<char>, n: nat) -> bool {
    exists|k: int|
        0 <= k < n && #[trigger] default_name(k) == x && w[x].len() > 0 && w[x][0] == default_bytes(k)
}

proof fn lemma_applied_at(m: Map<Seq<char>, Seq<Seq<u8>>>, n: nat, x: Seq<char>)
    requires
        n <= 7,
    ensures
        applied_upto(m, n).dom().contains(x) == (m.dom().contains(x) || is_default_before(x, n)),
        m.dom().contains(x) ==> applied_upto(m, n)[x] == m[x],
        forall|k: int|
            0 <= k < n && #[trigger] default_name(k) == x && !m.dom().contains(x) ==> applied_upto(m, n)[x]
                == seq![default_bytes(k)],
    decreases n,
{
    lemma_defaults_well_formed();
    if n > 0 {
        lemma_applied_at(m, (n - 1) as nat, x);
        let k = n - 1;
        if default_name(k) == x {
            assert(is_default_before(x, n));
        } else if is_default_before(x, n) {
            let j = choose|j: int| 0 <= j < n && #[trigger] default_name(j) == x;
            assert(j != k);
            assert(is_default_before(x, (n - 1) as nat));
        }
        if is_default_before(x, (n - 1) as nat) {
            let j = choose|j: int| 0 <= j < n - 1 && #[trigger] default_name(j) == x;
            assert(is_default_before(x, n));
        }
    }
}

proof fn lemma_stripped_at(w: Map<Seq<char>, Seq<Seq<u8>>>, n: nat, x: Seq<char>)
    requires
        n <= 7,
    ensures
        stripped_upto(w, n).dom().contains(x) == (w.dom().contains(x) && !strips_before(w, x, n)),
        stripped_upto(w, n).dom().contains(x) ==> stripped_upto(w, n)[x] == w[x],
    decreases n,
{
    lemma_defaults_well_formed();
    if n > 0 {
        lemma_stripped_at(w, (n - 1) as nat, x);
        let k = n - 1;
        let s = stripped_upto(w, (n - 1) as nat);
        if default_name(k) == x {
            // No earlier default has this name, so the header is as `w` had it.
            assert(!strips_before(w, x, (n - 1) as nat)) by {
                if strips_before(w, x, (n - 1) as nat) {
                    let j = choose|j: int|
                        0 <= j < n - 1 && #[trigger] default_name(j) == x && w[x].len() > 0 && w[x][0]
                            == default_bytes(j);
                    assert(default_name(j) != default_name(k));
                }
            }
            if w.dom().contains(x) && w[x].len() > 0 && w[x][0] == default_bytes(k) {
                assert(strips_before(w, x, n));
            } else if strips_before(w, x, n) {
                let j = choose|j: int|
                    0 <= j < n && #[trigger] default_name(j) == x && w[x].len() > 0 && w[x][0]
                        == default_bytes(j);
                if j < k {
                    assert(default_name(j) != default_name(k));
                }
            }
        } else {
            if strips_before(w, x, n) {
                let j = choose|j: int|
                    0 <= j < n && #[trigger] default_name(j) == x && w[x].len() > 0 && w[x][0]
                        == default_bytes(j);
                assert(j != k);
                assert(strips_before(w, x, (n - 1) as nat));
            }
            if strips_before(w, x, (n - 1) as nat) {
                let j = choose|j: int|
                    0 <= j < n - 1 && #[trigger] default_name(j) == x && w[x].len() > 0 && w[x][0]
                        == default_bytes(j);
                assert(strips_before(w, x, n));
            }
        }
    }
}

/// Whatever applying the defaults adds, disabling them takes back off: on
/// headers that set none of the defaults, the two leave the headers as they
/// were, and applying alone sets every default.
pub proof fn law_disabling_removes_exactly_what_enabling_adds(m: Map<Seq<char>, Seq<Seq<u8>>>)
    requires
        forall|k: int| 0 <= k < 7 ==> !m.dom().contains(#[trigger] default_name(k)),
    ensures
        without_defaults(with_defaults(m)) == m,
        forall|k: int| 0 <= k < 7 ==> with_defaults(m).dom().contains(#[trigger] default_name(k)),
{
    lemma_defaults_well_formed();
    let w = with_defaults(m);
    let r = without_defaults(w);
    assert forall|x: Seq<char>| #[trigger] r.dom().contains(x) == m.dom().contains(x) && (r.dom().contains(x) ==> r[x] == m[x]) by {
        lemma_applied_at(m, 7, x);
        lemma_stripped_at(w, 7, x);
        if is_default_before(x, 7) {
            let k = choose|k: int| 0 <= k < 7 && #[trigger] default_name(k) == x;
            assert(!m.dom().contains(x));
            assert(w[x] == seq![default_bytes(k)]);
            assert(strips_before(w, x, 7));
        } else {
            assert(!strips_before(w, x, 7));
        }
    }
    assert(r =~= m);
    assert forall|k: int| 0 <= k < 7 implies w.dom().contains(#[trigger] default_name(k)) by {
        lemma_applied_at(m, 7, default_name(k));
        assert(is_default_before(default_name(k), 7));
    }
}

/// Defaults, not overrides: a header the application set to anything but
/// its default value keeps that value when the defaults are applied, and
/// again when they are then disabled.
pub proof fn law_an_application_header_survives_both_directions(
    m: Map<Seq<char>, Seq<Seq<u8>>>,
    i: int,
)
    requires
        0 <= i < 7,
        m.dom().contains(default_name(i)),
        m[default_name(i)].len() > 0 ==> m[default_name(i)][0] != default_bytes(i),
    ensures
        with_defaults(m).dom().contains(default_name(i)),
        with_defaults(m)[default_name(i)] == m[default_name(i)],
        without_defaults(with_defaults(m)).dom().contains(default_name(i)),
        without_defaults(with_defaults(m))[default_name(i)] == m[default_name(i)],
{
    lemma_defaults_well_formed();
    let x = default_name(i);
    let w = with_defaults(m);
    lemma_applied_at(m, 7, x);
    lemma_stripped_at(w, 7, x);
    if strips_before(w, x, 7) {
        let k = choose|k: int|
            0 <= k < 7 && #[trigger] default_name(k) == x && w[x].len() > 0 && w[x][0] == default_bytes(k);
        if k != i {
            if k < i {
                assert(default_name(k) != default_name(i));
            } else {
                assert(default_name(i) != default_name(k));
            }
        }
    }
}

/// The cache policy an HTML response carries.
pub open spec fn no_store() -> Seq<u8> {
    "no-store, max-age=0".spec_bytes()
}

/// The headers of an HTML response with this status: a client or server
/// error is never stored by a cache, and the security defaults apply.
pub open spec fn html_headers(m: Map<Seq<char>, Seq<Seq<u8>>>, status: u16) -> Map<Seq<char>, Seq<Seq<u8>>> {
    with_defaults(
        if 400 <= status < 600 {
            m.insert("cache-control"@, seq![no_store()])
        } else {
            m
        },
    )
}

/// The headers of a JSON response: its content type, then the security
/// defaults.
pub open spec fn json_headers(m: Map<Seq<char>, Seq<Seq<u8>>>) -> Map<Seq<char>, Seq<Seq<u8>>> {
    with_defaults(m.insert("content-type"@, seq!["application/json; charset=utf-8".spec_bytes()]))
}

/// Finishes the headers of an HTML response with this status.
pub fn html_response_headers(headers: &mut HeaderMap<HeaderValue>, status: u16)
    requires
        header_entries(*old(headers)).dom().finite(),
        header_entries(*old(headers)).dom().len() + 8 < HEADER_NAMES_LIMIT,
    ensures
        header_entries(*final(headers)) == html_headers(header_entries(*old(headers)), status),
{
    if is_uncacheable_status(status) {
        proof {
            reveal_strlit("cache-control");
            reveal_strlit("no-store, max-age=0");
        }
        set_header(headers, "cache-control", "no-store, max-age=0");
    }
    apply_security_headers(headers);
}

/// Finishes the headers of a JSON response.
pub fn json_response_headers(headers: &mut HeaderMap<HeaderValue>)
    requires
        header_entries(*old(headers)).dom().finite(),
        header_entries(*old(headers)).dom().len() + 8 < HEADER_NAMES_LIMIT,
    ensures
        header_entries(*final(headers)) == json_headers(header_entries(*old(headers))),
{
    proof {
        reveal_strlit("content-type");
        reveal_strlit("application/json; charset=utf-8");
    }
    set_header(headers, "content-type", "application/json; charset=utf-8");
    apply_security_headers(headers);
}

} // verus!
