//! What `ruvyxa doctor` reads out of a project's `package.json`: the
//! version of one dependency, the Ruvyxa packages in use, whether React and
//! React DOM agree, and dependencies declared twice with different versions.
//!
//! The three dependency sections are read in the order `dependencies`,
//! `devDependencies`, `peerDependencies`.

use vstd::prelude::*;

use crate::devtools::{keyed_wf, lemma_slot_exists, lemma_upsert_wf, locate, upsert, value_at};
use crate::environment::major_of;
use crate::text::{
    opt_text,
    chars_eq, decimal, has_prefix, push_decimal, push_str, starts_with, str_chars, string_from_chars,
    text_less, text_lt,
};

verus! {

broadcast use vstd::string::group_string_axioms;

/// One dependency section of `package.json`, when it is an object: each
/// dependency's name with its version, when the version is text.
pub type DependencySection = Vec<(String, Option<String>)>;

/// The dependency sections of a `package.json`; a section that is missing or
/// not an object is `None`.
pub struct PackageDependencies {
    pub dependencies: Option<DependencySection>,
    pub dev_dependencies: Option<DependencySection>,
    pub peer_dependencies: Option<DependencySection>,
}


pub open spec fn section_view(s: Option<DependencySection>) -> Seq<(Seq<char>, Option<Seq<char>>)> {
    match s {
        Some(v) => v@.map_values(|e: (String, Option<String>)| (e.0@, opt_text(e.1))),
        None => Seq::empty(),
    }
}

/// Every dependency entry, section by section.
pub open spec fn all_entries(p: PackageDependencies) -> Seq<(Seq<char>, Option<Seq<char>>)> {
    section_view(p.dependencies) + section_view(p.dev_dependencies) + section_view(p.peer_dependencies)
}

/// The version the first entry named `name` gives, if it is text.
pub open spec fn section_version(entries: Seq<(Seq<char>, Option<Seq<char>>)>, name: Seq<char>) -> Option<
    Seq<char>,
>
    decreases entries.len(),
{
    if entries.len() == 0 {
        None
    } else if entries[0].0 == name {
        entries[0].1
    } else {
        section_version(entries.drop_first(), name)
    }
}

/// The version of `name` in the first section that gives one as text.
pub open spec fn dependency_version_of(p: PackageDependencies, name: Seq<char>) -> Option<Seq<char>> {
    match section_version(section_view(p.dependencies), name) {
        Some(v) => Some(v),
        None => match section_version(section_view(p.dev_dependencies), name) {
            Some(v) => Some(v),
            None => section_version(section_view(p.peer_dependencies), name),
        },
    }
}

fn version_in(section: &Option<DependencySection>, name: &str) -> (r: Option<String>)
    ensures
        opt_text(r) == section_version(section_view(*section), name@),
{
    let entries = match section {
        Some(entries) => entries,
        None => return None,
    };
    let ghost all = section_view(*section);
    let target = str_chars(name);
    let mut i: usize = 0;
    assert(all.subrange(0, all.len() as int) =~= all);
    while i < entries.len()
        invariant
            i <= entries.len(),
            all == entries@.map_values(|e: (String, Option<String>)| (e.0@, opt_text(e.1))),
            all == section_view(*section),
            target@ == name@,
            section_version(all, name@) == section_version(all.subrange(i as int, all.len() as int), name@),
        decreases entries.len() - i,
    {
        let ghost rest = all.subrange(i as int, all.len() as int);
        assert(rest[0] == all[i as int]);
        if chars_eq(str_chars(entries[i].0.as_str()).as_slice(), target.as_slice()) {
            return match &entries[i].1 {
                Some(v) => Some(v.clone()),
                None => None,
            };
        }
        assert(rest.drop_first() =~= all.subrange(i + 1, all.len() as int));
        i += 1;
    }
    None
}

/// The version `package.json` gives for `name`, from the first section that
/// names it with a text version.
pub fn dependency_version(package: &PackageDependencies, name: &str) -> (r: Option<String>)
    ensures
        opt_text(r) == dependency_version_of(*package, name@),
{
    if let Some(v) = version_in(&package.dependencies, name) {
        return Some(v);
    }
    if let Some(v) = version_in(&package.dev_dependencies, name) {
        return Some(v);
    }
    version_in(&package.peer_dependencies, name)
}

/// How React and React DOM agree, by their major versions.
pub open spec fn react_compatibility_of(p: PackageDependencies) -> Seq<char> {
    match dependency_version_of(p, "react"@) {
        None => "missing react"@,
        Some(react) => match dependency_version_of(p, "react-dom"@) {
            None => "missing react-dom"@,
            Some(dom) => match (major_of(react), major_of(dom)) {
                (Some(left), Some(right)) => if left == right {
                    "ok (major "@ + decimal(left) + ")"@
                } else {
                    "mismatch react "@ + decimal(left) + " vs react-dom "@ + decimal(right)
                },
                _ => "unknown version format"@,
            },
        },
    }
}

pub fn react_compatibility(package: &PackageDependencies) -> (r: String)
    ensures
        r@ == react_compatibility_of(*package),
{
    let react = match dependency_version(package, "react") {
        Some(v) => v,
        None => return "missing react".to_string(),
    };
    let dom = match dependency_version(package, "react-dom") {
        Some(v) => v,
        None => return "missing react-dom".to_string(),
    };
    match (crate::environment::major_version(react.as_str()), crate::environment::major_version(dom.as_str())) {
        (Some(left), Some(right)) => {
            let mut out: Vec<char> = Vec::new();
            if left == right {
                push_str(&mut out, "ok (major ");
                push_decimal(&mut out, left);
                push_str(&mut out, ")");
            } else {
                push_str(&mut out, "mismatch react ");
                push_decimal(&mut out, left);
                push_str(&mut out, " vs react-dom ");
                push_decimal(&mut out, right);
            }
            string_from_chars(out.as_slice())
        },
        _ => "unknown version format".to_string(),
    }
}

/// A dependency's version as the report shows it.
pub open spec fn version_text(v: Option<Seq<char>>) -> Seq<char> {
    match v {
        Some(t) => t,
        None => "unknown"@,
    }
}

/// A Ruvyxa package: `ruvyxa` itself or one under `@ruvyxa/`.
pub open spec fn is_ruvyxa_package(name: Seq<char>) -> bool {
    name == "ruvyxa"@ || starts_with(name, "@ruvyxa/"@)
}

/// The Ruvyxa packages by name, in name order, each with the version its
/// last entry gives.
pub open spec fn ruvyxa_packages(entries: Seq<(Seq<char>, Option<Seq<char>>)>) -> Seq<(Seq<char>, Seq<char>)>
    decreases entries.len(),
{
    if entries.len() == 0 {
        Seq::empty()
    } else {
        let before = ruvyxa_packages(entries.drop_last());
        let (name, version) = entries.last();
        if is_ruvyxa_package(name) {
            upsert(before, name, version_text(version))
        } else {
            before
        }
    }
}

proof fn lemma_ruvyxa_packages_wf(entries: Seq<(Seq<char>, Option<Seq<char>>)>)
    ensures
        keyed_wf(ruvyxa_packages(entries)),
    decreases entries.len(),
{
    if entries.len() > 0 {
        lemma_ruvyxa_packages_wf(entries.drop_last());
        let before = ruvyxa_packages(entries.drop_last());
        lemma_slot_exists(before, entries.last().0);
        lemma_upsert_wf(before, entries.last().0, version_text(entries.last().1));
    }
}

pub open spec fn pairs_view(v: Seq<(String, String)>) -> Seq<(Seq<char>, Seq<char>)> {
    v.map_values(|e: (String, String)| (e.0@, e.1@))
}

fn version_string(v: &Option<String>) -> (r: String)
    ensures
        r@ == version_text(opt_text(*v)),
{
    match v {
        Some(t) => t.clone(),
        None => "unknown".to_string(),
    }
}

fn is_ruvyxa_name(name: &str) -> (r: bool)
    ensures
        r == is_ruvyxa_package(name@),
{
    let v = str_chars(name);
    chars_eq(v.as_slice(), str_chars("ruvyxa").as_slice()) || has_prefix(
        v.as_slice(),
        str_chars("@ruvyxa/").as_slice(),
    )
}

fn collect_ruvyxa(found: &mut Vec<(String, String)>, section: &Option<DependencySection>, Ghost(before): Ghost<
    Seq<(Seq<char>, Option<Seq<char>>)>,
>)
    requires
        pairs_view(old(found)@) == ruvyxa_packages(before),
    ensures
        pairs_view(final(found)@) == ruvyxa_packages(before + section_view(*section)),
{
    let entries = match section {
        Some(entries) => entries,
        None => {
            assert(before + section_view(*section) =~= before);
            return;
        },
    };
    let ghost all = section_view(*section);
    let mut i: usize = 0;
    assert(before + all.subrange(0, 0) =~= before);
    while i < entries.len()
        invariant
            i <= entries.len(),
            all == entries@.map_values(|e: (String, Option<String>)| (e.0@, opt_text(e.1))),
            pairs_view(found@) == ruvyxa_packages(before + all.subrange(0, i as int)),
        decreases entries.len() - i,
    {
        let ghost prefix = before + all.subrange(0, i as int);
        assert((before + all.subrange(0, i + 1)).drop_last() =~= prefix);
        assert((before + all.subrange(0, i + 1)).last() == all[i as int]);
        let name = &entries[i].0;
        if is_ruvyxa_name(name.as_str()) {
            let version = version_string(&entries[i].1);
            let ghost e = pairs_view(found@);
            proof {
                lemma_ruvyxa_packages_wf(prefix);
                lemma_slot_exists(e, name@);
            }
            let (slot, present) = locate::<String, Seq<char>>(found, name.as_str(), Ghost(e));
            assert(version@ == version_text(all[i as int].1));
            assert(name@ == all[i as int].0);
            if present {
                found.set(slot, (name.clone(), version));
                assert(pairs_view(found@) =~= e.update(slot as int, (name@, version_text(all[i as int].1))));
            } else {
                found.insert(slot, (name.clone(), version));
                assert(pairs_view(found@) =~= e.insert(slot as int, (name@, version_text(all[i as int].1))));
            }
        }
        i += 1;
    }
    assert(all.subrange(0, i as int) =~= all);
}

/// Every Ruvyxa package the project depends on, sorted by name, with the
/// version of its last entry.
pub fn ruvyxa_dependencies(package: &PackageDependencies) -> (r: Vec<(String, String)>)
    ensures
        pairs_view(r@) == ruvyxa_packages(all_entries(*package)),
{
    let mut found: Vec<(String, String)> = Vec::new();
    let ghost a = section_view(package.dependencies);
    let ghost b = section_view(package.dev_dependencies);
    assert(pairs_view(found@) =~= ruvyxa_packages(Seq::empty()));
    collect_ruvyxa(&mut found, &package.dependencies, Ghost(Seq::empty()));
    assert(Seq::<(Seq<char>, Option<Seq<char>>)>::empty() + a =~= a);
    collect_ruvyxa(&mut found, &package.dev_dependencies, Ghost(a));
    collect_ruvyxa(&mut found, &package.peer_dependencies, Ghost(a + b));
    found
}

/// What the scan for duplicates has seen so far: each name with the version
/// of its latest entry, and a report line for every entry whose version
/// differs from the one seen before it.
pub open spec fn duplicate_scan(entries: Seq<(Seq<char>, Option<Seq<char>>)>) -> (
    Seq<(Seq<char>, Seq<char>)>,
    Seq<Seq<char>>,
)
    decreases entries.len(),
{
    if entries.len() == 0 {
        (Seq::empty(), Seq::empty())
    } else {
        let (seen, lines) = duplicate_scan(entries.drop_last());
        let (name, version) = entries.last();
        let v = version_text(version);
        (
            upsert(seen, name, v),
            match value_at(seen, name) {
                Some(previous) => if previous != v {
                    lines.push(name + " ("@ + previous + ", "@ + v + ")"@)
                } else {
                    lines
                },
                None => lines,
            },
        )
    }
}

/// `s` in order, equal neighbours allowed.
pub open spec fn sorted_texts(s: Seq<Seq<char>>) -> bool {
    forall|i: int, j: int| 0 <= i < j < s.len() ==> !text_lt(#[trigger] s[j], #[trigger] s[i])
}

proof fn lemma_duplicate_scan_wf(entries: Seq<(Seq<char>, Option<Seq<char>>)>)
    ensures
        keyed_wf(duplicate_scan(entries).0),
    decreases entries.len(),
{
    if entries.len() > 0 {
        lemma_duplicate_scan_wf(entries.drop_last());
        let seen = duplicate_scan(entries.drop_last()).0;
        lemma_slot_exists(seen, entries.last().0);
        lemma_upsert_wf(seen, entries.last().0, version_text(entries.last().1));
    }
}

fn scan_section(
    seen: &mut Vec<(String, String)>,
    lines: &mut Vec<String>,
    section: &Option<DependencySection>,
    Ghost(before): Ghost<Seq<(Seq<char>, Option<Seq<char>>)>>,
)
    requires
        pairs_view(old(seen)@) == duplicate_scan(before).0,
        crate::site_discovery::strings_of(old(lines)@) == duplicate_scan(before).1,
    ensures
        pairs_view(final(seen)@) == duplicate_scan(before + section_view(*section)).0,
        crate::site_discovery::strings_of(final(lines)@) == duplicate_scan(before + section_view(*section)).1,
{
    let entries = match section {
        Some(entries) => entries,
        None => {
            assert(before + section_view(*section) =~= before);
            return;
        },
    };
    let ghost all = section_view(*section);
    let mut i: usize = 0;
    assert(before + all.subrange(0, 0) =~= before);
    while i < entries.len()
        invariant
            i <= entries.len(),
            all == entries@.map_values(|e: (String, Option<String>)| (e.0@, opt_text(e.1))),
            all == section_view(*section),
            pairs_view(seen@) == duplicate_scan(before + all.subrange(0, i as int)).0,
            crate::site_discovery::strings_of(lines@) == duplicate_scan(before + all.subrange(0, i as int)).1,
        decreases entries.len() - i,
    {
        let ghost prefix = before + all.subrange(0, i as int);
        assert((before + all.subrange(0, i + 1)).drop_last() =~= prefix);
        assert((before + all.subrange(0, i + 1)).last() == all[i as int]);
        let name = &entries[i].0;
        let version = version_string(&entries[i].1);
        assert(version@ == version_text(all[i as int].1));
        assert(name@ == all[i as int].0);
        let ghost e = pairs_view(seen@);
        let ghost old_lines = crate::site_discovery::strings_of(lines@);
        proof {
            lemma_duplicate_scan_wf(prefix);
            lemma_slot_exists(e, name@);
        }
        let (slot, present) = locate::<String, Seq<char>>(seen, name.as_str(), Ghost(e));
        if present {
            let previous = &seen[slot].1;
            assert(e[slot as int].1 == previous@);
            if !chars_eq(str_chars(previous.as_str()).as_slice(), str_chars(version.as_str()).as_slice()) {
                let mut line = str_chars(name.as_str());
                push_str(&mut line, " (");
                push_str(&mut line, previous.as_str());
                push_str(&mut line, ", ");
                push_str(&mut line, version.as_str());
                push_str(&mut line, ")");
                lines.push(string_from_chars(line.as_slice()));
                assert(crate::site_discovery::strings_of(lines@) =~= old_lines.push(
                    name@ + " ("@ + e[slot as int].1 + ", "@ + version@ + ")"@,
                ));
            }
            seen.set(slot, (name.clone(), version));
            assert(pairs_view(seen@) =~= e.update(slot as int, (name@, version_text(all[i as int].1))));
        } else {
            seen.insert(slot, (name.clone(), version));
            assert(pairs_view(seen@) =~= e.insert(slot as int, (name@, version_text(all[i as int].1))));
        }
        i += 1;
    }
    assert(all.subrange(0, i as int) =~= all);
}

/// `v` sorted, keeping every element.
fn sort_texts(v: Vec<String>) -> (r: Vec<String>)
    ensures
        sorted_texts(crate::site_discovery::strings_of(r@)),
        crate::site_discovery::strings_of(r@).to_multiset() == crate::site_discovery::strings_of(v@).to_multiset(),
{
    broadcast use vstd::seq_lib::to_multiset_insert, vstd::seq_lib::to_multiset_build;

    let mut out: Vec<String> = Vec::new();
    let mut k: usize = 0;
    assert(crate::site_discovery::strings_of(out@) =~= Seq::<Seq<char>>::empty());
    assert(crate::site_discovery::strings_of(v@).subrange(0, 0) =~= Seq::<Seq<char>>::empty());
    while k < v.len()
        invariant
            k <= v.len(),
            sorted_texts(crate::site_discovery::strings_of(out@)),
            crate::site_discovery::strings_of(out@).to_multiset() == crate::site_discovery::strings_of(
                v@,
            ).subrange(0, k as int).to_multiset(),
        decreases v.len() - k,
    {
        let ghost o = crate::site_discovery::strings_of(out@);
        let x = str_chars(v[k].as_str());
        let mut i: usize = 0;
        while i < out.len() && !text_less(x.as_slice(), str_chars(out[i].as_str()).as_slice())
            invariant
                i <= out.len(),
                o == crate::site_discovery::strings_of(out@),
                forall|j: int| 0 <= j < i ==> !text_lt(x@, #[trigger] o[j]),
            decreases out.len() - i,
        {
            i += 1;
        }
        proof {
            assert forall|j: int| i <= j < o.len() implies text_lt(x@, #[trigger] o[j]) by {
                if i < o.len() {
                    assert(text_lt(x@, o[i as int]));
                    if j > i && !text_lt(x@, o[j]) {
                        assert(!text_lt(o[j], o[i as int]));
                        crate::text::lemma_text_lt_total(o[j], o[i as int]);
                        if o[j] != o[i as int] {
                            crate::text::lemma_text_lt_transitive(x@, o[i as int], o[j]);
                        }
                    }
                }
            }
        }
        let item = string_from_chars(x.as_slice());
        out.insert(i, item);
        proof {
            let n = crate::site_discovery::strings_of(out@);
            assert(n =~= o.insert(i as int, x@));
            assert forall|a: int, b: int| 0 <= a < b < n.len() implies !text_lt(#[trigger] n[b], #[trigger] n[a]) by {
                if a < i && b == i {
                    assert(!text_lt(x@, o[a]));
                } else if a == i && b > i {
                    assert(text_lt(x@, o[b - 1]));
                    crate::text::lemma_text_lt_asymmetric(x@, o[b - 1]);
                } else if a < i && b > i {
                    assert(n[a] == o[a] && n[b] == o[b - 1]);
                } else if a > i {
                    assert(n[a] == o[a - 1] && n[b] == o[b - 1]);
                }
            }
            let sv = crate::site_discovery::strings_of(v@);
            assert(sv[k as int] == x@);
            assert(sv.subrange(0, k + 1) =~= sv.subrange(0, k as int).push(x@));
            vstd::seq_lib::to_multiset_insert(o, i as int, x@);
            vstd::seq_lib::to_multiset_build(sv.subrange(0, k as int), x@);
        }
        k += 1;
    }
    assert(crate::site_discovery::strings_of(v@).subrange(0, k as int) =~= crate::site_discovery::strings_of(v@));
    out
}

/// Dependencies declared again with a different version, one line each,
/// sorted.
pub fn duplicate_dependencies(package: &PackageDependencies) -> (r: Vec<String>)
    ensures
        sorted_texts(crate::site_discovery::strings_of(r@)),
        crate::site_discovery::strings_of(r@).to_multiset() == duplicate_scan(all_entries(*package)).1.to_multiset(),
{
    let mut seen: Vec<(String, String)> = Vec::new();
    let mut lines: Vec<String> = Vec::new();
    let ghost a = section_view(package.dependencies);
    let ghost b = section_view(package.dev_dependencies);
    assert(pairs_view(seen@) =~= duplicate_scan(Seq::empty()).0);
    assert(crate::site_discovery::strings_of(lines@) =~= duplicate_scan(Seq::empty()).1);
    scan_section(&mut seen, &mut lines, &package.dependencies, Ghost(Seq::empty()));
    assert(Seq::<(Seq<char>, Option<Seq<char>>)>::empty() + a =~= a);
    scan_section(&mut seen, &mut lines, &package.dev_dependencies, Ghost(a));
    scan_section(&mut seen, &mut lines, &package.peer_dependencies, Ghost(a + b));
    sort_texts(lines)
}

} // verus!
