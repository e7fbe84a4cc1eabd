//! Development observability: how often each route's client bundle was
//! built and how large it came out, and how each server action has fared.
//!
//! Metrics are kept in key order, so a snapshot lists them as a sorted map
//! would.

use vstd::prelude::*;

use crate::text::{
    chars_eq, lemma_text_lt_asymmetric, lemma_text_lt_irreflexive, lemma_text_lt_total,
    lemma_text_lt_transitive, push_str, str_chars, string_from_chars, text_less, text_lt,
};

verus! {

broadcast use vstd::string::group_string_axioms;

/// Bundle builds of one route.
#[derive(Debug, Clone, Copy, PartialEq, Eq, Structural)]
pub struct BundleStats {
    pub bytes: usize,
    pub builds: u64,
}

/// Calls of one server action, with times in microseconds.
#[derive(Debug, Clone, Copy, PartialEq, Eq, Structural)]
pub struct ActionStats {
    pub calls: u64,
    pub errors: u64,
    pub total_micros: u128,
    pub last_micros: u128,
    pub max_micros: u128,
}

/// Bundle metric of one route, as a snapshot lists it.
#[derive(Debug, Clone)]
pub struct BundleMetric {
    pub path: String,
    pub bytes: usize,
    pub builds: u64,
}

/// Metric of one server action, as a snapshot lists it.
#[derive(Debug, Clone)]
pub struct ActionMetric {
    pub action: String,
    pub calls: u64,
    pub errors: u64,
    pub total_micros: u128,
    pub last_micros: u128,
    pub max_micros: u128,
}

pub open spec fn keys_of<S>(e: Seq<(Seq<char>, S)>) -> Seq<Seq<char>> {
    e.map_values(|x: (Seq<char>, S)| x.0)
}

/// Keys in strictly increasing order.
pub open spec fn keyed_wf<S>(e: Seq<(Seq<char>, S)>) -> bool {
    forall|i: int, j: int| 0 <= i < j < e.len() ==> text_lt(#[trigger] e[i].0, #[trigger] e[j].0)
}

pub open spec fn has_key<S>(e: Seq<(Seq<char>, S)>, k: Seq<char>) -> bool {
    exists|i: int| 0 <= i < e.len() && (#[trigger] e[i]).0 == k
}

pub open spec fn key_index<S>(e: Seq<(Seq<char>, S)>, k: Seq<char>) -> int {
    choose|i: int| 0 <= i < e.len() && (#[trigger] e[i]).0 == k
}

/// What is kept under `k`.
pub open spec fn value_at<S>(e: Seq<(Seq<char>, S)>, k: Seq<char>) -> Option<S> {
    if has_key(e, k) {
        Some(e[key_index(e, k)].1)
    } else {
        None
    }
}

/// `i` is where `k` stands, or would be inserted, among the keys of `e`.
pub open spec fn is_slot<S>(e: Seq<(Seq<char>, S)>, k: Seq<char>, i: int) -> bool {
    &&& 0 <= i <= e.len()
    &&& forall|j: int| 0 <= j < i ==> text_lt(#[trigger] e[j].0, k)
    &&& forall|j: int| i <= j < e.len() ==> !text_lt(#[trigger] e[j].0, k)
}

pub open spec fn slot<S>(e: Seq<(Seq<char>, S)>, k: Seq<char>) -> int {
    choose|i: int| is_slot(e, k, i)
}

/// `e` with `s` kept under `k`: replaced where `k` is, inserted in order
/// where it is not.
pub open spec fn upsert<S>(e: Seq<(Seq<char>, S)>, k: Seq<char>, s: S) -> Seq<(Seq<char>, S)> {
    let i = slot(e, k);
    if i < e.len() && e[i].0 == k {
        e.update(i, (k, s))
    } else {
        e.insert(i, (k, s))
    }
}

proof fn lemma_slot_unique<S>(e: Seq<(Seq<char>, S)>, k: Seq<char>, i: int, j: int)
    requires
        is_slot(e, k, i),
        is_slot(e, k, j),
    ensures
        i == j,
{
    if i < j {
        assert(text_lt(e[i].0, k));
        assert(!text_lt(e[i].0, k));
    } else if j < i {
        assert(text_lt(e[j].0, k));
        assert(!text_lt(e[j].0, k));
    }
}

proof fn lemma_value_at<S>(e: Seq<(Seq<char>, S)>, k: Seq<char>, i: int)
    requires
        keyed_wf(e),
        0 <= i < e.len(),
        e[i].0 == k,
    ensures
        value_at(e, k) == Some(e[i].1),
{
    assert(has_key(e, k)) by {
        assert(e[i].0 == k);
    }
    let c = key_index(e, k);
    assert(0 <= c < e.len() && e[c].0 == k);
    if c < i {
        assert(text_lt(e[c].0, e[i].0));
        lemma_text_lt_irreflexive(k);
    } else if c > i {
        assert(text_lt(e[i].0, e[c].0));
        lemma_text_lt_irreflexive(k);
    }
}

/// The slot of `k` in the keyed entries `v`, and whether `k` is there.
pub(crate) fn locate<S, T>(v: &Vec<(String, S)>, key: &str, Ghost(e): Ghost<Seq<(Seq<char>, T)>>) -> (r: (usize, bool))
    requires
        e.len() == v@.len(),
        forall|i: int| 0 <= i < e.len() ==> (#[trigger] e[i]).0 == v@[i].0@,
        keyed_wf(e),
    ensures
        is_slot(e, key@, r.0 as int),
        slot(e, key@) == r.0,
        r.1 == (r.0 < e.len() && e[r.0 as int].0 == key@),
        !r.1 ==> value_at(e, key@) is None,
        r.1 ==> value_at(e, key@) == Some(e[r.0 as int].1),
{
    let k = str_chars(key);
    let mut i: usize = 0;
    while i < v.len() && text_less(str_chars(v[i].0.as_str()).as_slice(), k.as_slice())
        invariant
            i <= v.len(),
            e.len() == v.len(),
            forall|j: int| 0 <= j < e.len() ==> (#[trigger] e[j]).0 == v@[j].0@,
            k@ == key@,
            forall|j: int| 0 <= j < i ==> text_lt(#[trigger] e[j].0, key@),
        decreases v.len() - i,
    {
        assert(e[i as int].0 == v@[i as int].0@);
        i += 1;
    }
    let found = i < v.len() && chars_eq(str_chars(v[i].0.as_str()).as_slice(), k.as_slice());
    proof {
        if i < v.len() {
            assert(e[i as int].0 == v@[i as int].0@);
            assert(!text_lt(e[i as int].0, key@));
            assert forall|j: int| i <= j < e.len() implies !text_lt(#[trigger] e[j].0, key@) by {
                if j > i {
                    assert(text_lt(e[i as int].0, e[j].0));
                    if text_lt(e[j].0, key@) {
                        lemma_text_lt_transitive(e[i as int].0, e[j].0, key@);
                    }
                }
            }
        }
        assert(is_slot(e, key@, i as int));
        lemma_slot_unique(e, key@, i as int, slot(e, key@));
        if found {
            lemma_value_at(e, key@, i as int);
        } else {
            assert forall|m: int| 0 <= m < e.len() implies (#[trigger] e[m]).0 != key@ by {
                if m < i {
                    lemma_text_lt_irreflexive(key@);
                } else if m > i {
                    if e[m].0 == key@ {
                        assert(!text_lt(e[i as int].0, key@));
                        lemma_text_lt_total(e[i as int].0, key@);
                        assert(text_lt(e[i as int].0, e[m].0));
                    }
                } else {
                    assert(e[i as int].0 != key@);
                }
            }
        }
    }
    (i, found)
}

/// Upserting keeps the keys in order.
pub(crate) proof fn lemma_upsert_wf<S>(e: Seq<(Seq<char>, S)>, k: Seq<char>, s: S)
    requires
        keyed_wf(e),
        exists|i: int| is_slot(e, k, i),
    ensures
        keyed_wf(upsert(e, k, s)),
{
    let i = slot(e, k);
    let u = upsert(e, k, s);
    if i < e.len() && e[i].0 == k {
        assert forall|a: int, b: int| 0 <= a < b < u.len() implies text_lt(#[trigger] u[a].0, #[trigger] u[b].0) by {
            assert(u[a].0 == e[a].0);
            assert(u[b].0 == e[b].0);
        }
    } else {
        assert forall|a: int, b: int| 0 <= a < b < u.len() implies text_lt(#[trigger] u[a].0, #[trigger] u[b].0) by {
            if b < i {
                assert(u[a] == e[a] && u[b] == e[b]);
            } else if b == i {
                assert(u[a] == e[a]);
            } else if a < i {
                assert(u[a] == e[a] && u[b] == e[b - 1]);
                assert(text_lt(e[a].0, k));
                lemma_text_lt_total(e[b - 1].0, k);
                lemma_text_lt_transitive(e[a].0, k, e[b - 1].0);
            } else if a == i {
                assert(u[b] == e[b - 1]);
                lemma_text_lt_total(e[b - 1].0, k);
                if i < e.len() {
                    assert(!text_lt(e[b - 1].0, k));
                }
            } else {
                assert(u[a] == e[a - 1] && u[b] == e[b - 1]);
            }
        }
    }
}

/// Every key has a slot in ordered entries.
pub(crate) proof fn lemma_slot_exists<S>(e: Seq<(Seq<char>, S)>, k: Seq<char>)
    requires
        keyed_wf(e),
    ensures
        exists|i: int| is_slot(e, k, i),
    decreases e.len(),
{
    if e.len() == 0 {
        assert(is_slot(e, k, 0));
    } else {
        let t = e.drop_last();
        assert(keyed_wf(t)) by {
            assert forall|a: int, b: int| 0 <= a < b < t.len() implies text_lt(#[trigger] t[a].0, #[trigger] t[b].0) by {
                assert(t[a] == e[a] && t[b] == e[b]);
            }
        }
        lemma_slot_exists(t, k);
        let i = choose|i: int| is_slot(t, k, i);
        if i < t.len() || !text_lt(e.last().0, k) {
            assert(is_slot(e, k, i)) by {
                assert forall|j: int| i <= j < e.len() implies !text_lt(#[trigger] e[j].0, k) by {
                    if j < t.len() {
                        assert(t[j] == e[j]);
                    } else if i < t.len() {
                        assert(text_lt(e[i].0, e[j].0));
                        assert(t[i] == e[i]);
                        if text_lt(e[j].0, k) {
                            lemma_text_lt_transitive(e[i].0, e[j].0, k);
                        }
                    }
                }
                assert forall|j: int| 0 <= j < i implies text_lt(#[trigger] e[j].0, k) by {
                    assert(t[j] == e[j]);
                }
            }
        } else {
            assert(is_slot(e, k, e.len() as int)) by {
                assert forall|j: int| 0 <= j < e.len() implies text_lt(#[trigger] e[j].0, k) by {
                    if j < t.len() {
                        assert(t[j] == e[j]);
                    }
                }
            }
        }
    }
}

pub open spec fn bundle_record(previous: Option<BundleStats>, bytes: usize) -> BundleStats {
    BundleStats {
        bytes,
        builds: match previous {
            Some(p) => p.builds.saturating_add(1),
            None => 1,
        },
    }
}

pub open spec fn action_record(previous: Option<ActionStats>, micros: u128, error: bool) -> ActionStats {
    let p = match previous {
        Some(p) => p,
        None => ActionStats { calls: 0, errors: 0, total_micros: 0, last_micros: 0, max_micros: 0 },
    };
    ActionStats {
        calls: p.calls.saturating_add(1),
        errors: p.errors.saturating_add(if error { 1 } else { 0 }),
        total_micros: p.total_micros.saturating_add(micros),
        last_micros: micros,
        max_micros: if p.max_micros < micros { micros } else { p.max_micros },
    }
}

/// The key an action is recorded under: `path#action`.
pub open spec fn action_key(path: Seq<char>, action: Seq<char>) -> Seq<char> {
    path + seq!['#'] + action
}

/// Bundle and action metrics of the development server.
pub struct DevToolsMetrics {
    bundles: Vec<(String, BundleStats)>,
    actions: Vec<(String, ActionStats)>,
}

impl DevToolsMetrics {
    pub closed spec fn bundles(&self) -> Seq<(Seq<char>, BundleStats)> {
        self.bundles@.map_values(|x: (String, BundleStats)| (x.0@, x.1))
    }

    pub closed spec fn actions(&self) -> Seq<(Seq<char>, ActionStats)> {
        self.actions@.map_values(|x: (String, ActionStats)| (x.0@, x.1))
    }

    pub closed spec fn wf(&self) -> bool {
        keyed_wf(self.bundles()) && keyed_wf(self.actions())
    }

    pub fn new() -> (r: DevToolsMetrics)
        ensures
            r.wf(),
            r.bundles() == Seq::<(Seq<char>, BundleStats)>::empty(),
            r.actions() == Seq::<(Seq<char>, ActionStats)>::empty(),
    {
        let r = DevToolsMetrics { bundles: Vec::new(), actions: Vec::new() };
        assert(r.bundles() =~= Seq::<(Seq<char>, BundleStats)>::empty());
        assert(r.actions() =~= Seq::<(Seq<char>, ActionStats)>::empty());
        r
    }

    /// Records a build of the bundle for `path` that came out `bytes` long.
    pub fn record_bundle(&mut self, path: &str, bytes: usize)
        requires
            old(self).wf(),
        ensures
            final(self).wf(),
            final(self).bundles() == upsert(
                old(self).bundles(),
                path@,
                bundle_record(value_at(old(self).bundles(), path@), bytes),
            ),
            final(self).actions() == old(self).actions(),
    {
        let ghost e = self.bundles();
        let ghost actions = self.actions();
        let (i, found) = locate::<BundleStats, BundleStats>(&self.bundles, path, Ghost(e));
        let stats = if found {
            BundleStats { bytes, builds: self.bundles[i].1.builds.saturating_add(1) }
        } else {
            BundleStats { bytes, builds: 1 }
        };
        proof {
            lemma_slot_exists(e, path@);
            lemma_upsert_wf(e, path@, stats);
        }
        if found {
            self.bundles.set(i, (path.to_string(), stats));
            assert(self.bundles() =~= e.update(i as int, (path@, stats)));
        } else {
            self.bundles.insert(i, (path.to_string(), stats));
            assert(self.bundles() =~= e.insert(i as int, (path@, stats)));
        }
        assert(self.actions() =~= actions);
    }

    /// Records a call of `action` on `path` that took `micros` microseconds
    /// and failed when `error`.
    pub fn record_action(&mut self, path: &str, action: &str, micros: u128, error: bool)
        requires
            old(self).wf(),
        ensures
            final(self).wf(),
            final(self).actions() == upsert(
                old(self).actions(),
                action_key(path@, action@),
                action_record(value_at(old(self).actions(), action_key(path@, action@)), micros, error),
            ),
            final(self).bundles() == old(self).bundles(),
    {
        let mut k = str_chars(path);
        k.push('#');
        push_str(&mut k, action);
        let key = string_from_chars(k.as_slice());
        assert(key@ =~= action_key(path@, action@));
        let ghost e = self.actions();
        let ghost bundles = self.bundles();
        let (i, found) = locate::<ActionStats, ActionStats>(&self.actions, key.as_str(), Ghost(e));
        let previous = if found {
            self.actions[i].1
        } else {
            ActionStats { calls: 0, errors: 0, total_micros: 0, last_micros: 0, max_micros: 0 }
        };
        let stats = ActionStats {
            calls: previous.calls.saturating_add(1),
            errors: previous.errors.saturating_add(if error { 1 } else { 0 }),
            total_micros: previous.total_micros.saturating_add(micros),
            last_micros: micros,
            max_micros: if previous.max_micros < micros { micros } else { previous.max_micros },
        };
        proof {
            lemma_slot_exists(e, key@);
            lemma_upsert_wf(e, key@, stats);
        }
        if found {
            self.actions.set(i, (key, stats));
            assert(self.actions() =~= e.update(i as int, (action_key(path@, action@), stats)));
        } else {
            self.actions.insert(i, (key, stats));
            assert(self.actions() =~= e.insert(i as int, (action_key(path@, action@), stats)));
        }
        assert(self.bundles() =~= bundles);
    }

    /// The bundle metrics, by route path in order.
    pub fn bundle_metrics(&self) -> (r: Vec<BundleMetric>)
        ensures
            r@.len() == self.bundles().len(),
            forall|i: int|
                0 <= i < r@.len() ==> (#[trigger] r@[i]).path@ == self.bundles()[i].0 && r@[i].bytes
                    == self.bundles()[i].1.bytes && r@[i].builds == self.bundles()[i].1.builds,
    {
        let mut out: Vec<BundleMetric> = Vec::new();
        let mut i: usize = 0;
        while i < self.bundles.len()
            invariant
                i <= self.bundles.len(),
                out@.len() == i,
                self.bundles().len() == self.bundles.len(),
                forall|j: int|
                    0 <= j < i ==> (#[trigger] out@[j]).path@ == self.bundles()[j].0 && out@[j].bytes
                        == self.bundles()[j].1.bytes && out@[j].builds == self.bundles()[j].1.builds,
            decreases self.bundles.len() - i,
        {
            let entry = &self.bundles[i];
            let path = string_from_chars(str_chars(entry.0.as_str()).as_slice());
            out.push(BundleMetric { path, bytes: entry.1.bytes, builds: entry.1.builds });
            i += 1;
        }
        out
    }

    /// The action metrics, by `path#action` in order.
    pub fn action_metrics(&self) -> (r: Vec<ActionMetric>)
        ensures
            r@.len() == self.actions().len(),
            forall|i: int|
                0 <= i < r@.len() ==> (#[trigger] r@[i]).action@ == self.actions()[i].0 && (ActionStats {
                    calls: r@[i].calls,
                    errors: r@[i].errors,
                    total_micros: r@[i].total_micros,
                    last_micros: r@[i].last_micros,
                    max_micros: r@[i].max_micros,
                }) == self.actions()[i].1,
    {
        let mut out: Vec<ActionMetric> = Vec::new();
        let mut i: usize = 0;
        while i < self.actions.len()
            invariant
                i <= self.actions.len(),
                out@.len() == i,
                self.actions().len() == self.actions.len(),
                forall|j: int|
                    0 <= j < i ==> (#[trigger] out@[j]).action@ == self.actions()[j].0 && (ActionStats {
                        calls: out@[j].calls,
                        errors: out@[j].errors,
                        total_micros: out@[j].total_micros,
                        last_micros: out@[j].last_micros,
                        max_micros: out@[j].max_micros,
                    }) == self.actions()[j].1,
            decreases self.actions.len() - i,
        {
            let entry = &self.actions[i];
            let action = string_from_chars(str_chars(entry.0.as_str()).as_slice());
            let s = entry.1;
            out.push(
                ActionMetric {
                    action,
                    calls: s.calls,
                    errors: s.errors,
                    total_micros: s.total_micros,
                    last_micros: s.last_micros,
                    max_micros: s.max_micros,
                },
            );
            i += 1;
        }
        out
    }
}

proof fn lemma_absent_key<S>(e: Seq<(Seq<char>, S)>, k: Seq<char>)
    requires
        !has_key(e, k),
    ensures
        forall|m: int| 0 <= m < e.len() ==> (#[trigger] e[m]).0 != k,
{
    assert forall|m: int| 0 <= m < e.len() implies (#[trigger] e[m]).0 != k by {
        if e[m].0 == k {
            assert(has_key(e, k));
        }
    }
}

/// What is recorded under a key is what the next read of that key finds,
/// and every other key reads as before; the keys stay in order.
pub proof fn law_a_record_is_read_back<S>(e: Seq<(Seq<char>, S)>, k: Seq<char>, s: S, other: Seq<char>)
    requires
        keyed_wf(e),
    ensures
        keyed_wf(upsert(e, k, s)),
        value_at(upsert(e, k, s), k) == Some(s),
        other != k ==> value_at(upsert(e, k, s), other) == value_at(e, other),
{
    lemma_slot_exists(e, k);
    lemma_upsert_wf(e, k, s);
    let u = upsert(e, k, s);
    let i = slot(e, k);
    assert(u[i] == (k, s));
    lemma_value_at(u, k, i);
    if other != k {
        if has_key(e, other) {
            let j = key_index(e, other);
            lemma_value_at(e, other, j);
            let uj = if i < e.len() && e[i].0 == k {
                j
            } else if j < i {
                j
            } else {
                j + 1
            };
            assert(u[uj] == e[j]);
            lemma_value_at(u, other, uj);
        } else {
            lemma_absent_key(e, other);
            assert forall|m: int| 0 <= m < u.len() implies (#[trigger] u[m]).0 != other by {
                if i < e.len() && e[i].0 == k {
                    if m != i {
                        assert(u[m] == e[m]);
                    }
                } else if m < i {
                    assert(u[m] == e[m]);
                } else if m > i {
                    assert(u[m] == e[m - 1]);
                }
            }
        }
    }
}

/// A route's bundle metric counts every build and keeps the latest size.
pub proof fn law_bundle_builds_are_counted(e: Seq<(Seq<char>, BundleStats)>, path: Seq<char>, bytes: usize)
    requires
        keyed_wf(e),
    ensures
        value_at(upsert(e, path, bundle_record(value_at(e, path), bytes)), path) matches Some(m) && m.bytes
            == bytes && m.builds == match value_at(e, path) {
            Some(p) => p.builds.saturating_add(1),
            None => 1,
        },
{
    law_a_record_is_read_back(e, path, bundle_record(value_at(e, path), bytes), path);
}

} // verus!
