//! Which crawler-discovery files a build writes into its staged public assets,
//! and what they say.
//!
//! Project-owned files always win: a `robots.txt` or `sitemap.xml` already in
//! the assets, or a route that serves one, is never overwritten. The plan is a
//! list of steps for the caller to carry out in order, followed by the report
//! or the reason the plan stops.

use vstd::prelude::*;

use crate::site_discovery::{
    opt_robots, opt_str, res_view, robots_text, robots_txt, RobotsGenerationOptions,
    RobotsSetting,
};
use crate::sitemap::{
    docs_view, documents_for, entries_listed, index_xml, options_entries, plan_for,
    sitemap_documents, sitemap_entries, sitemap_index_xml, EntryModel, ManifestRoute,
    SitemapEntry, SitemapGenerationOptions, SITEMAP_MAX_BYTES, SITEMAP_MAX_URLS,
};
use crate::text::{chars_eq, decimal, push_decimal, push_str, str_chars, string_from_chars};

verus! {

broadcast use vstd::string::group_string_axioms;

/// The `site.sitemap` switch: on, off, or on with options.
#[derive(Debug, Clone)]
pub enum SitemapSetting {
    Enabled(bool),
    Options(SitemapGenerationOptions),
}

impl SitemapSetting {
    /// Off only when explicitly switched off.
    pub fn enabled(&self) -> (r: bool)
        ensures
            r == !(self matches SitemapSetting::Enabled(false)),
    {
        match self {
            SitemapSetting::Enabled(on) => *on,
            SitemapSetting::Options(_) => true,
        }
    }

    pub fn options(&self) -> (r: Option<&SitemapGenerationOptions>)
        ensures
            match self {
                SitemapSetting::Options(o) => r == Some(o),
                SitemapSetting::Enabled(_) => r is None,
            },
    {
        match self {
            SitemapSetting::Options(options) => Some(options),
            SitemapSetting::Enabled(_) => None,
        }
    }
}

pub open spec fn sitemap_options(s: &SitemapSetting) -> Option<&SitemapGenerationOptions> {
    match s {
        SitemapSetting::Options(o) => Some(o),
        SitemapSetting::Enabled(_) => None,
    }
}

pub open spec fn sitemap_on(s: &SitemapSetting) -> bool {
    !(s matches SitemapSetting::Enabled(false))
}

pub open spec fn robots_on(s: &RobotsSetting) -> bool {
    !(s matches RobotsSetting::Enabled(false))
}

pub open spec fn robots_options(s: &RobotsSetting) -> Option<&RobotsGenerationOptions> {
    match s {
        RobotsSetting::Options(o) => Some(o),
        RobotsSetting::Enabled(_) => None,
    }
}

/// What the build wrote, for the CLI summary and production diagnostics.
#[derive(Debug, Clone, Copy, PartialEq, Eq, Structural)]
pub struct DiscoveryReport {
    pub robots_written: bool,
    pub sitemap_written: bool,
    pub sitemap_files_written: usize,
    /// Set when a sitemap was wanted but no site URL could be resolved.
    pub sitemap_needs_site_url: bool,
}

pub open spec fn empty_report() -> DiscoveryReport {
    DiscoveryReport {
        robots_written: false,
        sitemap_written: false,
        sitemap_files_written: 0,
        sitemap_needs_site_url: false,
    }
}

impl Default for DiscoveryReport {
    fn default() -> (r: DiscoveryReport)
        ensures
            r == empty_report(),
    {
        DiscoveryReport {
            robots_written: false,
            sitemap_written: false,
            sitemap_files_written: 0,
            sitemap_needs_site_url: false,
        }
    }
}

/// One thing for the caller to do.
#[derive(Debug)]
pub enum DiscoveryStep {
    /// Create the assets directory, with its parents.
    CreateAssetsDir,
    /// Write `contents` to the file `name` in the assets directory.
    Write { name: String, contents: String },
}

pub ghost enum StepView {
    CreateDir,
    Write(Seq<char>, Seq<char>),
}

impl View for DiscoveryStep {
    type V = StepView;

    open spec fn view(&self) -> StepView {
        match self {
            DiscoveryStep::CreateAssetsDir => StepView::CreateDir,
            DiscoveryStep::Write { name, contents } => StepView::Write(name@, contents@),
        }
    }
}

/// Why the plan stops.
#[derive(Debug)]
pub enum DiscoveryError {
    /// A generated shard would overwrite the project file of this name.
    ShardExists(String),
    /// A configured value cannot be written.
    Invalid(String),
}

pub ghost enum ErrorView {
    ShardExists(Seq<char>),
    Invalid(Seq<char>),
}

/// The steps, then the report or why the plan stopped after them.
#[derive(Debug)]
pub struct DiscoveryPlan {
    pub steps: Vec<DiscoveryStep>,
    pub outcome: Result<DiscoveryReport, DiscoveryError>,
}

pub open spec fn steps_view(v: Seq<DiscoveryStep>) -> Seq<StepView> {
    v.map_values(|s: DiscoveryStep| s@)
}

pub open spec fn outcome_view(r: Result<DiscoveryReport, DiscoveryError>) -> Result<
    DiscoveryReport,
    ErrorView,
> {
    match r {
        Ok(report) => Ok(report),
        Err(DiscoveryError::ShardExists(n)) => Err(ErrorView::ShardExists(n@)),
        Err(DiscoveryError::Invalid(m)) => Err(ErrorView::Invalid(m@)),
    }
}

pub open spec fn shard_name(i: nat) -> Seq<char> {
    "sitemap-"@ + decimal(i) + ".xml"@
}

/// The first of the first `n` shard names that the assets already hold.
pub open spec fn blocked_shard(present: Map<Seq<char>, bool>, n: nat) -> Option<nat>
    decreases n,
{
    if n == 0 {
        None
    } else {
        match blocked_shard(present, (n - 1) as nat) {
            Some(k) => Some(k),
            None => if present[shard_name((n - 1) as nat)] {
                Some((n - 1) as nat)
            } else {
                None
            },
        }
    }
}

/// Writing the first `n` of `docs` as shards.
pub open spec fn shard_writes(docs: Seq<Seq<char>>, n: nat) -> Seq<StepView>
    decreases n,
{
    if n == 0 {
        Seq::empty()
    } else {
        shard_writes(docs, (n - 1) as nat).push(
            StepView::Write(shard_name((n - 1) as nat), docs[n - 1]),
        )
    }
}

pub open spec fn has_route(routes: Seq<ManifestRoute>, path: Seq<char>) -> bool {
    exists|k: int| 0 <= k < routes.len() && (#[trigger] routes[k]).path@ == path
}

/// The sitemap half: its steps, and the report so far or why it stopped.
/// `docs` are the sitemap's documents, or why there are none.
pub open spec fn sitemap_phase(
    routes: Seq<ManifestRoute>,
    site: Option<Seq<char>>,
    enabled: bool,
    docs: Result<Seq<Seq<char>>, Seq<char>>,
    present: Map<Seq<char>, bool>,
) -> (Seq<StepView>, Result<DiscoveryReport, ErrorView>) {
    if !(enabled && !present["sitemap.xml"@] && !has_route(routes, "/sitemap.xml"@)) {
        (Seq::empty(), Ok(empty_report()))
    } else {
        match site {
            None => (
                Seq::empty(),
                Ok(DiscoveryReport { sitemap_needs_site_url: true, ..empty_report() }),
            ),
            Some(url) => match docs {
                Err(e) => (Seq::empty(), Err(ErrorView::Invalid(e))),
                Ok(ds) => if ds.len() == 1 {
                    (
                        seq![StepView::CreateDir, StepView::Write("sitemap.xml"@, ds[0])],
                        Ok(
                            DiscoveryReport {
                                sitemap_written: true,
                                sitemap_files_written: 1,
                                ..empty_report()
                            },
                        ),
                    )
                } else {
                    match blocked_shard(present, ds.len()) {
                        Some(k) => (
                            seq![StepView::CreateDir] + shard_writes(ds, k),
                            Err(ErrorView::ShardExists(shard_name(k))),
                        ),
                        None => match index_xml(url, ds.len()) {
                            Err(e) => (
                                seq![StepView::CreateDir] + shard_writes(ds, ds.len()),
                                Err(ErrorView::Invalid(e)),
                            ),
                            Ok(ix) => (
                                seq![StepView::CreateDir] + shard_writes(ds, ds.len()).push(
                                    StepView::Write("sitemap.xml"@, ix),
                                ),
                                Ok(
                                    DiscoveryReport {
                                        sitemap_written: true,
                                        sitemap_files_written: (ds.len() + 1) as usize,
                                        ..empty_report()
                                    },
                                ),
                            ),
                        },
                    }
                },
            },
        }
    }
}

/// The whole plan.
pub open spec fn discovery_spec(
    routes: Seq<ManifestRoute>,
    site: Option<Seq<char>>,
    sitemap_enabled: bool,
    robots_enabled: bool,
    robots: Option<crate::site_discovery::RobotsView>,
    docs: Result<Seq<Seq<char>>, Seq<char>>,
    present: Map<Seq<char>, bool>,
) -> (Seq<StepView>, Result<DiscoveryReport, ErrorView>) {
    let (steps, first_half) = sitemap_phase(routes, site, sitemap_enabled, docs, present);
    match first_half {
        Err(e) => (steps, Err(e)),
        Ok(report) => if !(robots_enabled && !present["robots.txt"@] && !has_route(
            routes,
            "/robots.txt"@,
        )) {
            (steps, Ok(report))
        } else {
            let automatic = if report.sitemap_written || present["sitemap.xml"@] || has_route(
                routes,
                "/sitemap.xml"@,
            ) {
                site
            } else {
                None
            };
            match robots_text(automatic, robots) {
                Err(e) => (steps.push(StepView::CreateDir), Err(ErrorView::Invalid(e))),
                Ok(text) => (
                    steps.push(StepView::CreateDir).push(StepView::Write("robots.txt"@, text)),
                    Ok(DiscoveryReport { robots_written: true, ..report }),
                ),
            }
        },
    }
}

/// `docs` are what the sitemap pipeline makes of the manifest: its entries
/// listed, then sharded into documents.
pub open spec fn sitemap_pipeline(
    routes: Seq<ManifestRoute>,
    prerendered: Seq<String>,
    url: Seq<char>,
    options: Option<&SitemapGenerationOptions>,
    docs: Result<Seq<Seq<char>>, Seq<char>>,
) -> bool {
    match plan_for(routes, prerendered, url, options) {
        Err(e) => docs == Err::<Seq<Seq<char>>, Seq<char>>(e),
        Ok(m) => exists|v: Seq<SitemapEntry>|
            entries_listed(v, m, options_entries(options)) && docs == documents_for(
                v,
                SITEMAP_MAX_URLS as nat,
                SITEMAP_MAX_BYTES as nat,
            ),
    }
}

/// `f` answered `b` when asked about a file named `name`.
pub open spec fn answered<F: Fn(&str) -> bool>(f: F, name: Seq<char>, b: bool) -> bool {
    exists|s: &str| #[trigger] f.ensures((s,), b) && s@ == name
}

pub open spec fn all_answered<F: Fn(&str) -> bool>(f: F, present: Map<Seq<char>, bool>) -> bool {
    forall|name: Seq<char>| #[trigger] present.dom().contains(name) ==> answered(f, name, present[name])
}

fn route_exists(routes: &[ManifestRoute], path: &str) -> (r: bool)
    ensures
        r == has_route(routes@, path@),
{
    let p = str_chars(path);
    let mut i: usize = 0;
    while i < routes.len()
        invariant
            i <= routes.len(),
            p@ == path@,
            forall|k: int| 0 <= k < i ==> (#[trigger] routes@[k]).path@ != path@,
        decreases routes.len() - i,
    {
        if chars_eq(str_chars(routes[i].path.as_str()).as_slice(), p.as_slice()) {
            assert(routes@[i as int].path@ == path@);
            return true;
        }
        i += 1;
    }
    false
}

fn shard_file_name(index: usize) -> (r: String)
    ensures
        r@ == shard_name(index as nat),
{
    let mut n = str_chars("sitemap-");
    push_decimal(&mut n, index as u64);
    push_str(&mut n, ".xml");
    string_from_chars(n.as_slice())
}

fn write_step(name: &str, contents: String) -> (r: DiscoveryStep)
    ensures
        r@ == StepView::Write(name@, contents@),
{
    DiscoveryStep::Write { name: name.to_string(), contents }
}

/// Writes the shards of `documents`, or stops at the first name the assets
/// already hold.
fn plan_shards<F: Fn(&str) -> bool>(
    steps: &mut Vec<DiscoveryStep>,
    documents: &Vec<String>,
    on_disk: &F,
    Ghost(present): Ghost<Map<Seq<char>, bool>>,
) -> (r: (Option<String>, Ghost<Map<Seq<char>, bool>>))
    requires
        forall|name: &str| on_disk.requires((name,)),
        all_answered(*on_disk, present),
        forall|k: nat| k < documents.len() ==> !present.dom().contains(#[trigger] shard_name(k)),
    ensures
        all_answered(*on_disk, r.1@),
        forall|n: Seq<char>| #[trigger] present.dom().contains(n) ==> r.1@.dom().contains(n) && r.1@[n]
            == present[n],
        match r.0 {
            Some(name) => blocked_shard(r.1@, documents.len() as nat) matches Some(k) && name@
                == shard_name(k) && steps_view(final(steps)@) == steps_view(old(steps)@)
                + shard_writes(crate::site_discovery::strings_of(documents@), k),
            None => blocked_shard(r.1@, documents.len() as nat) is None && steps_view(final(steps)@)
                == steps_view(old(steps)@) + shard_writes(
                crate::site_discovery::strings_of(documents@),
                documents.len() as nat,
            ),
        },
{
    let ghost docs = crate::site_discovery::strings_of(documents@);
    let ghost start = steps_view(steps@);
    let ghost mut answers = present;
    let mut index: usize = 0;
    assert(start + shard_writes(docs, 0) =~= start);
    while index < documents.len()
        invariant
            index <= documents.len(),
            docs == crate::site_discovery::strings_of(documents@),
            forall|name: &str| on_disk.requires((name,)),
            all_answered(*on_disk, answers),
            forall|n: Seq<char>| #[trigger] present.dom().contains(n) ==> answers.dom().contains(n)
                && answers[n] == present[n],
            forall|k: nat| k < documents.len() ==> !present.dom().contains(#[trigger] shard_name(k)),
            blocked_shard(answers, index as nat) is None,
            forall|k: nat|
                index <= k < documents.len() ==> !answers.dom().contains(#[trigger] shard_name(k)),
            forall|k: nat| k < index ==> answers.dom().contains(#[trigger] shard_name(k)),
            steps_view(steps@) == start + shard_writes(docs, index as nat),
            start == steps_view(old(steps)@),
        decreases documents.len() - index,
    {
        let name = shard_file_name(index);
        let taken = on_disk(name.as_str());
        proof {
            assert(answered(*on_disk, name@, taken));
            assert(!answers.dom().contains(name@));
            let ghost old_answers = answers;
            assert(!present.dom().contains(shard_name(index as nat)));
            answers = answers.insert(name@, taken);
            assert forall|n: Seq<char>| present.dom().contains(n) implies answers.dom().contains(n)
                && answers[n] == present[n] by {
                assert(n != name@);
                assert(old_answers.dom().contains(n) && old_answers[n] == present[n]);
            }
            assert forall|k: nat| k < index implies shard_name(k) != name@ by {
                lemma_shard_names_distinct(k, index as nat);
            }
            lemma_blocked_shard_unchanged(old_answers, answers, index as nat);
            assert(blocked_shard(answers, (index + 1) as nat) == if taken {
                Some(index as nat)
            } else {
                None::<nat>
            });
        }
        if taken {
            proof {
                lemma_blocked_shard_stays(answers, (index + 1) as nat, documents.len() as nat);
            }
            return (Some(name), Ghost(answers));
        }
        let ghost before = steps@;
        steps.push(write_step(name.as_str(), documents[index].clone()));
        assert(steps_view(steps@) =~= steps_view(before).push(
            StepView::Write(shard_name(index as nat), docs[index as int]),
        ));
        index += 1;
        proof {
            assert forall|k: nat|
                index <= k < documents.len() implies !answers.dom().contains(
                #[trigger] shard_name(k),
            ) by {
                lemma_shard_names_distinct(k, (index - 1) as nat);
            }
        }
    }
    (None, Ghost(answers))
}

proof fn lemma_shard_names_distinct(a: nat, b: nat)
    ensures
        a != b ==> shard_name(a) != shard_name(b),
{
    reveal_strlit("sitemap-");
    reveal_strlit(".xml");
    crate::text::lemma_decimal_injective(a, b);
    if shard_name(a) == shard_name(b) {
        let n = shard_name(a);
        assert(n.subrange(8, n.len() - 4) =~= decimal(a));
        assert(n.subrange(8, n.len() - 4) =~= decimal(b));
    }
}

proof fn lemma_blocked_shard_stays(a: Map<Seq<char>, bool>, n: nat, m: nat)
    requires
        n <= m,
        blocked_shard(a, n) is Some,
    ensures
        blocked_shard(a, m) == blocked_shard(a, n),
    decreases m - n,
{
    if m > n {
        lemma_blocked_shard_stays(a, n, (m - 1) as nat);
    }
}

/// Answers that agree on the first `n` shard names give the same blocked shard.
proof fn lemma_blocked_shard_unchanged(a: Map<Seq<char>, bool>, b: Map<Seq<char>, bool>, n: nat)
    requires
        forall|k: nat| k < n ==> #[trigger] a[shard_name(k)] == b[shard_name(k)],
    ensures
        blocked_shard(a, n) == blocked_shard(b, n),
    decreases n,
{
    if n > 0 {
        lemma_blocked_shard_unchanged(a, b, (n - 1) as nat);
    }
}

/// The sitemap half reads no answer but those for `sitemap.xml` and the shard names.
proof fn lemma_phase_ignores(
    routes: Seq<ManifestRoute>,
    site: Option<Seq<char>>,
    enabled: bool,
    docs: Result<Seq<Seq<char>>, Seq<char>>,
    present: Map<Seq<char>, bool>,
    name: Seq<char>,
    b: bool,
)
    requires
        name.len() > 0,
        name[0] != 's',
    ensures
        sitemap_phase(routes, site, enabled, docs, present.insert(name, b)) == sitemap_phase(
            routes,
            site,
            enabled,
            docs,
            present,
        ),
{
    reveal_strlit("sitemap.xml");
    reveal_strlit("sitemap-");
    assert(name != "sitemap.xml"@);
    let other = present.insert(name, b);
    if let Ok(ds) = docs {
        assert forall|k: nat| k < ds.len() implies #[trigger] present[shard_name(k)] == other[shard_name(
            k,
        )] by {
            assert(shard_name(k)[0] == 's');
        }
        lemma_blocked_shard_unchanged(present, other, ds.len());
    }
}

pub open spec fn plan_view(p: DiscoveryPlan) -> (Seq<StepView>, Result<DiscoveryReport, ErrorView>) {
    (steps_view(p.steps@), outcome_view(p.outcome))
}

/// The sitemap half of the plan.
#[verifier::rlimit(60)]
fn plan_sitemap<F: Fn(&str) -> bool>(
    routes: &[ManifestRoute],
    prerendered: &[String],
    site_url: Option<&str>,
    sitemap: &SitemapSetting,
    on_disk: &F,
) -> (r: (
    DiscoveryPlan,
    Option<bool>,
    Ghost<Map<Seq<char>, bool>>,
    Ghost<Result<Seq<Seq<char>>, Seq<char>>>,
))
    requires
        forall|name: &str| on_disk.requires((name,)),
    ensures
        r.1 == (if sitemap matches SitemapSetting::Enabled(false) {
            None
        } else {
            Some(r.2@["sitemap.xml"@])
        }),
        all_answered(*on_disk, r.2@),
        !(sitemap matches SitemapSetting::Enabled(false)) && !r.2@["sitemap.xml"@] && !has_route(routes@, "/sitemap.xml"@) && site_url is Some
            ==> sitemap_pipeline(
            routes@,
            prerendered@,
            site_url->0@,
            sitemap_options(sitemap),
            r.3@,
        ),
        !(sitemap matches SitemapSetting::Enabled(false)) ==> r.2@.dom().contains("sitemap.xml"@),
        plan_view(r.0) == sitemap_phase(
            routes@,
            opt_str(site_url),
            !(sitemap matches SitemapSetting::Enabled(false)),
            r.3@,
            r.2@,
        ),
{
    let mut steps: Vec<DiscoveryStep> = Vec::new();
    let ghost mut answers: Map<Seq<char>, bool> = Map::empty();
    let ghost mut docs: Result<Seq<Seq<char>>, Seq<char>> = Err(Seq::empty());
    let report = DiscoveryReport::default();
    let enabled = sitemap.enabled();
    assert(steps_view(steps@) =~= Seq::<StepView>::empty());
    if !enabled {
        return (DiscoveryPlan { steps, outcome: Ok(report) }, None, Ghost(answers), Ghost(docs));
    }
    let present = on_disk("sitemap.xml");
    proof {
        reveal_strlit("sitemap.xml");
        assert(answered(*on_disk, "sitemap.xml"@, present));
        answers = answers.insert("sitemap.xml"@, present);
        assert(all_answered(*on_disk, answers));
    }
    if present || route_exists(routes, "/sitemap.xml") {
        return (DiscoveryPlan { steps, outcome: Ok(report) }, Some(present), Ghost(answers), Ghost(docs));
    }
    let url = match site_url {
        None => {
            let report = DiscoveryReport { sitemap_needs_site_url: true, ..report };
            return (DiscoveryPlan { steps, outcome: Ok(report) }, Some(present), Ghost(answers), Ghost(docs));
        },
        Some(url) => url,
    };
    let entries = match sitemap_entries(routes, prerendered, url, sitemap.options()) {
        Ok(entries) => entries,
        Err(e) => {
            proof {
                docs = Err(e@);
            }
            return (
                DiscoveryPlan { steps, outcome: Err(DiscoveryError::Invalid(e)) },
                Some(present),
                Ghost(answers),
                Ghost(docs),
            );
        },
    };
    let documents = sitemap_documents(entries.as_slice());
    proof {
        docs = docs_view(documents);
        assert(entries_listed(entries@, plan_for(routes@, prerendered@, url@, sitemap_options(sitemap))->Ok_0, options_entries(sitemap_options(sitemap))));
    }
    let documents = match documents {
        Ok(d) => d,
        Err(e) => {
            return (
                DiscoveryPlan { steps, outcome: Err(DiscoveryError::Invalid(e)) },
                Some(present),
                Ghost(answers),
                Ghost(docs),
            );
        },
    };
    let ghost ds = crate::site_discovery::strings_of(documents@);
    steps.push(DiscoveryStep::CreateAssetsDir);
    if documents.len() == 1 {
        steps.push(write_step("sitemap.xml", documents[0].clone()));
        assert(steps_view(steps@) =~= seq![StepView::CreateDir, StepView::Write("sitemap.xml"@, ds[0])]);
        let report = DiscoveryReport { sitemap_written: true, sitemap_files_written: 1, ..report };
        return (DiscoveryPlan { steps, outcome: Ok(report) }, Some(present), Ghost(answers), Ghost(docs));
    }
    proof {
        assert forall|k: nat| k < documents.len() implies !answers.dom().contains(
            #[trigger] shard_name(k),
        ) by {
            reveal_strlit("sitemap-");
            if shard_name(k) == "sitemap.xml"@ {
                assert(shard_name(k)[7] == "sitemap.xml"@[7]);
            }
        }
    }
    let ghost before = steps_view(steps@);
    let ghost prev = answers;
    assert(before =~= seq![StepView::CreateDir]);
    let (blocked, Ghost(after)) = plan_shards(&mut steps, &documents, on_disk, Ghost(answers));
    proof {
        answers = after;
        assert(prev.dom().contains("sitemap.xml"@));
        assert(answers.dom().contains("sitemap.xml"@) && answers["sitemap.xml"@] == prev["sitemap.xml"@]);
    }
    match blocked {
        Some(name) => {
            assert(docs == Ok::<Seq<Seq<char>>, Seq<char>>(ds));
            return (
                DiscoveryPlan { steps, outcome: Err(DiscoveryError::ShardExists(name)) },
                Some(present),
                Ghost(answers),
                Ghost(docs),
            );
        },
        None => {},
    }
    match sitemap_index_xml(url, documents.len()) {
        Err(e) => {
            return (
                DiscoveryPlan { steps, outcome: Err(DiscoveryError::Invalid(e)) },
                Some(present),
                Ghost(answers),
                Ghost(docs),
            );
        },
        Ok(ix) => {
            let ghost mid = steps_view(steps@);
            steps.push(write_step("sitemap.xml", ix));
            assert(steps_view(steps@) =~= mid.push(StepView::Write("sitemap.xml"@, ix@)));
        },
    }
    let report = DiscoveryReport {
        sitemap_written: true,
        sitemap_files_written: documents.len() + 1,
        ..report
    };
    (DiscoveryPlan { steps, outcome: Ok(report) }, Some(present), Ghost(answers), Ghost(docs))
}

/// What the plan for `present` and `docs` rests on: each name in `present`
/// is what `on_disk` answered for it, the names the plan reads were asked,
/// and `docs` are what the sitemap pipeline makes of the manifest whenever a
/// sitemap is generated.
pub open spec fn plan_grounds<F: Fn(&str) -> bool>(
    on_disk: F,
    routes: Seq<ManifestRoute>,
    prerendered: Seq<String>,
    site: Option<Seq<char>>,
    sitemap: &SitemapSetting,
    robots_enabled: bool,
    present: Map<Seq<char>, bool>,
    docs: Result<Seq<Seq<char>>, Seq<char>>,
) -> bool {
    let sitemap_enabled = !(sitemap matches SitemapSetting::Enabled(false));
    &&& all_answered(on_disk, present)
    &&& sitemap_enabled ==> present.dom().contains("sitemap.xml"@)
    &&& robots_enabled && sitemap_phase(routes, site, sitemap_enabled, docs, present).1 is Ok
        ==> present.dom().contains("robots.txt"@)
    &&& robots_enabled && sitemap_phase(routes, site, sitemap_enabled, docs, present).1 is Ok
        && !present["robots.txt"@] && !has_route(routes, "/robots.txt"@) ==> present.dom().contains(
        "sitemap.xml"@,
    )
    &&& sitemap_enabled && !present["sitemap.xml"@] && !has_route(routes, "/sitemap.xml"@)
        && site is Some ==> sitemap_pipeline(
        routes,
        prerendered,
        site->0,
        sitemap_options(sitemap),
        docs,
    )
}

/// Plans the crawler-discovery files for a build whose staged public assets
/// hold the files for which `on_disk` answers `true`.
///
/// A sitemap is generated when it is enabled, the assets hold no
/// `sitemap.xml` and no route serves `/sitemap.xml`: one document is written
/// as `sitemap.xml`; several are written as `sitemap-0.xml`, `sitemap-1.xml`,
/// ... under a `sitemap.xml` index, and a shard name the assets already hold
/// stops the plan. Without a site URL the report asks for one instead.
/// `robots.txt` is generated on the same terms, and names the site's
/// `sitemap.xml` when a sitemap was written or is served by the project.
pub fn plan_discovery_files<F: Fn(&str) -> bool>(
    routes: &[ManifestRoute],
    prerendered: &[String],
    site_url: Option<&str>,
    sitemap: &SitemapSetting,
    robots: &RobotsSetting,
    on_disk: F,
) -> (r: DiscoveryPlan)
    requires
        forall|name: &str| on_disk.requires((name,)),
    ensures
        exists|present: Map<Seq<char>, bool>, docs: Result<Seq<Seq<char>>, Seq<char>>|
            #![trigger discovery_spec(routes@, opt_str(site_url), sitemap_on(sitemap), robots_on(robots), opt_robots(robots_options(robots)), docs, present)]
            plan_grounds(
                on_disk,
                routes@,
                prerendered@,
                opt_str(site_url),
                sitemap,
                robots_on(robots),
                present,
                docs,
            ) && plan_view(r) == discovery_spec(
                routes@,
                opt_str(site_url),
                sitemap_on(sitemap),
                robots_on(robots),
                opt_robots(robots_options(robots)),
                docs,
                present,
            ),
{
    let (plan, sitemap_present, Ghost(first), Ghost(docs)) = plan_sitemap(
        routes,
        prerendered,
        site_url,
        sitemap,
        &on_disk,
    );
    let ghost mut answers = first;
    let ghost sitemap_enabled = sitemap_on(sitemap);
    let ghost robots_enabled = robots_on(robots);
    let ghost site = opt_str(site_url);
    let ghost options = opt_robots(robots_options(robots));
    let DiscoveryPlan { mut steps, outcome } = plan;
    let report = match outcome {
        Ok(report) => report,
        Err(e) => {
            let r = DiscoveryPlan { steps, outcome: Err(e) };
            assert(plan_view(r) == discovery_spec(routes@, site, sitemap_enabled, robots_enabled, options, docs, answers));
            return r;
        },
    };
    let ghost first_steps = steps_view(steps@);
    assert(sitemap_phase(routes@, site, sitemap_enabled, docs, answers) == (first_steps, Ok::<DiscoveryReport, ErrorView>(report)));
    if !robots.enabled() {
        let r = DiscoveryPlan { steps, outcome: Ok(report) };
        assert(plan_view(r) == discovery_spec(routes@, site, sitemap_enabled, robots_enabled, options, docs, answers));
        return r;
    }
    let robots_present = on_disk("robots.txt");
    proof {
        reveal_strlit("robots.txt");
        reveal_strlit("sitemap.xml");
        assert(answered(on_disk, "robots.txt"@, robots_present));
        assert("robots.txt"@[0] != "sitemap.xml"@[0]);
        answers = answers.insert("robots.txt"@, robots_present);
        assert(all_answered(on_disk, answers));
        lemma_phase_ignores(routes@, site, sitemap_enabled, docs, first, "robots.txt"@, robots_present);
    }
    if robots_present || route_exists(routes, "/robots.txt") {
        let r = DiscoveryPlan { steps, outcome: Ok(report) };
        assert(plan_view(r) == discovery_spec(routes@, site, sitemap_enabled, robots_enabled, options, docs, answers));
        return r;
    }
    steps.push(DiscoveryStep::CreateAssetsDir);
    let sitemap_there = if report.sitemap_written {
        true
    } else {
        let there = match sitemap_present {
            Some(p) => p,
            None => {
                let p = on_disk("sitemap.xml");
                proof {
                    assert(answered(on_disk, "sitemap.xml"@, p));
                    answers = answers.insert("sitemap.xml"@, p);
                    assert(all_answered(on_disk, answers));
                }
                p
            },
        };
        there || route_exists(routes, "/sitemap.xml")
    };
    let automatic = if sitemap_there {
        site_url
    } else {
        None
    };
    let text = robots_txt(automatic, robots.options());
    let r = match text {
        Err(e) => DiscoveryPlan { steps, outcome: Err(DiscoveryError::Invalid(e)) },
        Ok(text) => {
            steps.push(write_step("robots.txt", text));
            DiscoveryPlan {
                steps,
                outcome: Ok(DiscoveryReport { robots_written: true, ..report }),
            }
        },
    };
    proof {
        assert(sitemap_phase(routes@, site, sitemap_enabled, docs, answers) == (first_steps, Ok::<DiscoveryReport, ErrorView>(report)));
        assert(plan_view(r) == discovery_spec(routes@, site, sitemap_enabled, robots_enabled, options, docs, answers));
    }
    r
}

proof fn lemma_shard_writes(docs: Seq<Seq<char>>, n: nat)
    ensures
        shard_writes(docs, n).len() == n,
        forall|i: int|
            0 <= i < n ==> #[trigger] shard_writes(docs, n)[i] == StepView::Write(
                shard_name(i as nat),
                docs[i],
            ),
    decreases n,
{
    if n > 0 {
        lemma_shard_writes(docs, (n - 1) as nat);
    }
}

proof fn lemma_blocked_shard(present: Map<Seq<char>, bool>, n: nat)
    ensures
        match blocked_shard(present, n) {
            Some(k) => k < n && present[shard_name(k)] && forall|j: nat|
                j < k ==> !present[#[trigger] shard_name(j)],
            None => forall|j: nat| j < n ==> !present[#[trigger] shard_name(j)],
        },
    decreases n,
{
    if n > 0 {
        lemma_blocked_shard(present, (n - 1) as nat);
    }
}

/// The plan never writes over a file that the staged assets already hold:
/// every `Write` step names a file for which the assets answered `false`.
pub proof fn law_plan_never_overwrites_project_files(
    routes: Seq<ManifestRoute>,
    site: Option<Seq<char>>,
    sitemap_enabled: bool,
    robots_enabled: bool,
    robots: Option<crate::site_discovery::RobotsView>,
    docs: Result<Seq<Seq<char>>, Seq<char>>,
    present: Map<Seq<char>, bool>,
)
    ensures
        forall|i: int|
            0 <= i < discovery_spec(
                routes,
                site,
                sitemap_enabled,
                robots_enabled,
                robots,
                docs,
                present,
            ).0.len() ==> (#[trigger] discovery_spec(
                routes,
                site,
                sitemap_enabled,
                robots_enabled,
                robots,
                docs,
                present,
            ).0[i] matches StepView::Write(name, _) ==> !present[name]),
{
    let phase = sitemap_phase(routes, site, sitemap_enabled, docs, present);
    let all = discovery_spec(routes, site, sitemap_enabled, robots_enabled, robots, docs, present);
    assert forall|i: int| 0 <= i < phase.0.len() implies (#[trigger] phase.0[i] matches StepView::Write(
        name,
        _,
    ) ==> !present[name]) by {
        if let Ok(ds) = docs {
            lemma_shard_writes(ds, ds.len());
            lemma_blocked_shard(present, ds.len());
            if let Some(k) = blocked_shard(present, ds.len()) {
                lemma_shard_writes(ds, k);
            }
        }
    }
    assert forall|i: int| 0 <= i < all.0.len() implies (#[trigger] all.0[i] matches StepView::Write(
        name,
        _,
    ) ==> !present[name]) by {
        if i < phase.0.len() {
            assert(all.0[i] == phase.0[i]);
        }
    }
}

} // verus!
