//! Server/Client boundary enforcement.
//!
//! Rules enforced:
//! - **RUV1007** – `"server-only"` import reachable from a client bundle.
//! - **RUV1008** – Private `process.env.*` variable read in a client bundle.
//! - **RUV1009** – `"client-only"` import reachable from a server bundle.
//! - **RUV1010** – File inside `server/` directory reachable by a client graph.
//!
//! Which imports and env reads a module has is decided by the one scanner in
//! [`crate::ast`]; this module only applies the policy. Turning a finding into
//! a diagnostic with a file position is the caller's business.

use vstd::prelude::*;

use crate::ast::{strings_view, AstFacts, ImportKind, ModuleAst};
use crate::text::{chars_eq, has_prefix, starts_with, str_chars};

verus! {

broadcast use vstd::string::group_string_axioms;

/// A specifier that marks its importer as server-only.
pub open spec fn server_only_specifier(s: Seq<char>) -> bool {
    s == "server-only"@ || s == "@ruvyxa/auth"@ || s == "@ruvyxa/database"@
}

/// Exactly three packages mark their importer as server-only:
/// `server-only`, `@ruvyxa/auth` and `@ruvyxa/database`; a subpath of one of
/// them (such as `@ruvyxa/auth/client`) does not.
pub proof fn law_three_packages_are_server_only(specifier: Seq<char>, subpath: Seq<char>)
    ensures
        server_only_specifier("server-only"@),
        server_only_specifier("@ruvyxa/auth"@),
        server_only_specifier("@ruvyxa/database"@),
        subpath.len() > 0 && subpath[0] == '/' ==> !server_only_specifier("@ruvyxa/auth"@ + subpath)
            && !server_only_specifier("@ruvyxa/database"@ + subpath) && !server_only_specifier(
            "server-only"@ + subpath,
        ),
{
    reveal_strlit("server-only");
    reveal_strlit("@ruvyxa/auth");
    reveal_strlit("@ruvyxa/database");
    if subpath.len() > 0 && subpath[0] == '/' {
        let a = "@ruvyxa/auth"@ + subpath;
        let d = "@ruvyxa/database"@ + subpath;
        let o = "server-only"@ + subpath;
        if a == "@ruvyxa/database"@ {
            assert(a[12] == '/');
            assert("@ruvyxa/database"@[12] == 'b');
        }
        if a == "server-only"@ {
            assert(a[0] != "server-only"@[0]);
        }
        if d == "@ruvyxa/auth"@ || d == "server-only"@ {
            assert(d.len() > 16);
        }
        if o == "@ruvyxa/auth"@ {
            assert(o[11] == '/');
            assert("@ruvyxa/auth"@[11] == 'h');
        }
        if o == "@ruvyxa/database"@ {
            assert(o[0] != "@ruvyxa/database"@[0]);
        }
        assert(a.len() != "@ruvyxa/auth"@.len());
        assert(d.len() != "@ruvyxa/database"@.len());
        assert(o.len() != "server-only"@.len());
    }
}

pub fn is_server_only_specifier(specifier: &str) -> (r: bool)
    ensures
        r == server_only_specifier(specifier@),
{
    let s = str_chars(specifier);
    chars_eq(s.as_slice(), str_chars("server-only").as_slice()) || chars_eq(
        s.as_slice(),
        str_chars("@ruvyxa/auth").as_slice(),
    ) || chars_eq(s.as_slice(), str_chars("@ruvyxa/database").as_slice())
}

/// Some import of the module names exactly `marker`.
pub open spec fn has_marker_import(facts: AstFacts, marker: Seq<char>) -> bool {
    exists|i: int| 0 <= i < facts.imports.len() && (#[trigger] facts.imports[i]).0 == marker
}

pub fn imports_marker(module: &ModuleAst, marker: &str) -> (r: bool)
    ensures
        r == has_marker_import(module@, marker@),
{
    let m = str_chars(marker);
    let mut i: usize = 0;
    while i < module.imports.len()
        invariant
            i <= module.imports.len(),
            m@ == marker@,
            forall|k: int| 0 <= k < i ==> (#[trigger] module@.imports[k]).0 != marker@,
        decreases module.imports.len() - i,
    {
        if chars_eq(str_chars(module.imports[i].specifier.as_str()).as_slice(), m.as_slice()) {
            assert(module@.imports[i as int].0 == marker@);
            return true;
        }
        i += 1;
    }
    false
}

/// Some import of the module is a server-only specifier.
pub open spec fn has_server_only_import(facts: AstFacts) -> bool {
    exists|i: int|
        0 <= i < facts.imports.len() && server_only_specifier((#[trigger] facts.imports[i]).0)
}

fn imports_server_only(module: &ModuleAst) -> (r: bool)
    ensures
        r == has_server_only_import(module@),
{
    let mut i: usize = 0;
    while i < module.imports.len()
        invariant
            i <= module.imports.len(),
            forall|k: int| 0 <= k < i ==> !server_only_specifier((#[trigger] module@.imports[k]).0),
        decreases module.imports.len() - i,
    {
        if is_server_only_specifier(module.imports[i].specifier.as_str()) {
            assert(server_only_specifier(module@.imports[i as int].0));
            return true;
        }
        i += 1;
    }
    false
}

/// `NODE_ENV` is substituted at build time and `RUVYXA_PUBLIC_*` is public by
/// contract; everything else statically named is a leak.
pub open spec fn is_private_env_name(name: Seq<char>) -> bool {
    name != "NODE_ENV"@ && !starts_with(name, "RUVYXA_PUBLIC_"@)
}

/// The private names among `reads`, in order.
pub open spec fn private_reads(reads: Seq<Seq<char>>) -> Seq<Seq<char>>
    decreases reads.len(),
{
    if reads.len() == 0 {
        Seq::empty()
    } else {
        let rest = private_reads(reads.drop_last());
        if is_private_env_name(reads.last()) {
            rest.push(reads.last())
        } else {
            rest
        }
    }
}

/// The `process.env` reads in `module` that must not reach a browser bundle.
pub fn private_env_reads(module: &ModuleAst) -> (r: Vec<String>)
    ensures
        strings_view(r@) == private_reads(module@.env_reads),
{
    let node_env = str_chars("NODE_ENV");
    let public_prefix = str_chars("RUVYXA_PUBLIC_");
    let mut out: Vec<String> = Vec::new();
    let mut i: usize = 0;
    while i < module.env_reads.len()
        invariant
            i <= module.env_reads.len(),
            node_env@ == "NODE_ENV"@,
            public_prefix@ == "RUVYXA_PUBLIC_"@,
            strings_view(out@) == private_reads(strings_view(module.env_reads@).subrange(0, i as int)),
        decreases module.env_reads.len() - i,
    {
        let name = &module.env_reads[i];
        let chars = str_chars(name.as_str());
        let keep = !chars_eq(chars.as_slice(), node_env.as_slice()) && !has_prefix(
            chars.as_slice(),
            public_prefix.as_slice(),
        );
        let ghost before = out@;
        if keep {
            out.push(name.clone());
        }
        proof {
            let all = strings_view(module.env_reads@);
            assert(all.subrange(0, i + 1).drop_last() =~= all.subrange(0, i as int));
            assert(all.subrange(0, i + 1).last() == name@);
            if keep {
                assert(strings_view(out@) =~= strings_view(before).push(name@));
            } else {
                assert(out@ == before);
            }
        }
        i += 1;
    }
    assert(strings_view(module.env_reads@).subrange(0, module.env_reads.len() as int)
        =~= module@.env_reads);
    out
}

// ─── Whole bundles ───────────────────────────────────────────────────────────

/// What the boundary check needs of one compiled module.
pub struct BoundaryModule {
    /// Resolved outside the project (a package); never checked.
    pub is_external: bool,
    /// The module's file lies under the project-level `server/` directory.
    pub inside_server_dir: bool,
    pub ast: ModuleAst,
}

pub ghost struct BoundaryModuleView {
    pub is_external: bool,
    pub inside_server_dir: bool,
    pub facts: AstFacts,
}

impl View for BoundaryModule {
    type V = BoundaryModuleView;

    open spec fn view(&self) -> BoundaryModuleView {
        BoundaryModuleView {
            is_external: self.is_external,
            inside_server_dir: self.inside_server_dir,
            facts: self.ast@,
        }
    }
}

/// A violation that stops a client build.
#[derive(Debug, Clone, Copy, PartialEq, Eq, Structural)]
pub enum Violation {
    /// RUV1007: a server-only module imported into a client bundle.
    ServerOnlyImport,
    /// RUV1010: a file under `server/` reached by the client graph.
    ServerDirectory,
}

/// What the client rules say of one module: the private env reads to report,
/// or the violation that stops the build.
pub open spec fn client_verdict(m: BoundaryModuleView) -> Result<Seq<Seq<char>>, Violation> {
    if m.is_external {
        Ok(Seq::empty())
    } else if has_server_only_import(m.facts) {
        Err(Violation::ServerOnlyImport)
    } else if m.inside_server_dir {
        Err(Violation::ServerDirectory)
    } else {
        Ok(private_reads(m.facts.env_reads))
    }
}

/// The client rules for one module, in their order: a server-only import
/// first, then the server directory, then the private env reads.
pub fn check_client_module(module: &BoundaryModule) -> (r: Result<Vec<String>, Violation>)
    ensures
        match r {
            Ok(reads) => client_verdict(module@) == Ok::<Seq<Seq<char>>, Violation>(
                strings_view(reads@),
            ),
            Err(v) => client_verdict(module@) == Err::<Seq<Seq<char>>, Violation>(v),
        },
{
    if module.is_external {
        let r: Vec<String> = Vec::new();
        assert(strings_view(r@) =~= Seq::<Seq<char>>::empty());
        return Ok(r);
    }
    if imports_server_only(&module.ast) {
        return Err(Violation::ServerOnlyImport);
    }
    if module.inside_server_dir {
        return Err(Violation::ServerDirectory);
    }
    Ok(private_env_reads(&module.ast))
}

/// A server bundle reports a client-only import (RUV1009) but never stops on it.
pub open spec fn ssr_flags_client_only(m: BoundaryModuleView) -> bool {
    !m.is_external && has_marker_import(m.facts, "client-only"@)
}

pub fn check_ssr_module(module: &BoundaryModule) -> (r: bool)
    ensures
        r == ssr_flags_client_only(module@),
{
    !module.is_external && imports_marker(&module.ast, "client-only")
}

/// A non-fatal finding, with the index of the module it concerns.
#[derive(Debug, Clone, PartialEq, Eq)]
pub enum Finding {
    /// RUV1008: `process.env.<name>` read in browser code.
    PrivateEnvRead { module: usize, name: String },
    /// RUV1009: a client-only import in a server bundle.
    ClientOnlyImport { module: usize },
}

pub ghost enum FindingView {
    PrivateEnvRead { module: nat, name: Seq<char> },
    ClientOnlyImport { module: nat },
}

impl View for Finding {
    type V = FindingView;

    open spec fn view(&self) -> FindingView {
        match self {
            Finding::PrivateEnvRead { module, name } => FindingView::PrivateEnvRead {
                module: *module as nat,
                name: name@,
            },
            Finding::ClientOnlyImport { module } => FindingView::ClientOnlyImport {
                module: *module as nat,
            },
        }
    }
}

/// The findings for the reads of module `i`.
pub open spec fn read_findings(i: nat, reads: Seq<Seq<char>>) -> Seq<FindingView> {
    reads.map_values(|name: Seq<char>| FindingView::PrivateEnvRead { module: i, name })
}

/// The findings of the first `n` modules, in module order.
pub open spec fn findings_upto(modules: Seq<BoundaryModuleView>, server: bool, n: nat) -> Seq<
    FindingView,
>
    decreases n,
{
    if n == 0 {
        Seq::empty()
    } else {
        let i = (n - 1) as nat;
        let before = findings_upto(modules, server, i);
        if server {
            if ssr_flags_client_only(modules[i as int]) {
                before.push(FindingView::ClientOnlyImport { module: i })
            } else {
                before
            }
        } else {
            match client_verdict(modules[i as int]) {
                Ok(reads) => before + read_findings(i, reads),
                Err(_) => before,
            }
        }
    }
}

/// The first violation among the first `n` modules of a client bundle, with
/// its module's index.
pub open spec fn first_violation_upto(modules: Seq<BoundaryModuleView>, server: bool, n: nat) -> Option<
    (nat, Violation),
>
    decreases n,
{
    if n == 0 || server {
        None
    } else {
        let i = (n - 1) as nat;
        match first_violation_upto(modules, server, i) {
            Some(found) => Some(found),
            None => match client_verdict(modules[i as int]) {
                Err(v) => Some((i, v)),
                Ok(_) => None,
            },
        }
    }
}

pub open spec fn modules_view(modules: Seq<BoundaryModule>) -> Seq<BoundaryModuleView> {
    modules.map_values(|m: BoundaryModule| m@)
}

pub open spec fn findings_view(findings: Seq<Finding>) -> Seq<FindingView> {
    findings.map_values(|f: Finding| f@)
}

/// A client bundle fails exactly when one of its modules is forbidden there,
/// and the failure named is that of the first such module; a server bundle
/// never fails.
pub proof fn law_a_bundle_fails_exactly_on_its_first_forbidden_module(
    modules: Seq<BoundaryModuleView>,
    server: bool,
    n: nat,
)
    requires
        n <= modules.len(),
    ensures
        server ==> first_violation_upto(modules, server, n) is None,
        !server ==> (first_violation_upto(modules, server, n) is Some <==> exists|i: int|
            0 <= i < n && (#[trigger] client_verdict(modules[i])) is Err),
        first_violation_upto(modules, server, n) matches Some(found) ==> found.0 < n
            && client_verdict(modules[found.0 as int]) == Err::<Seq<Seq<char>>, Violation>(found.1)
            && forall|j: int| 0 <= j < found.0 ==> (#[trigger] client_verdict(modules[j])) is Ok,
    decreases n,
{
    if n > 0 && !server {
        law_a_bundle_fails_exactly_on_its_first_forbidden_module(modules, server, (n - 1) as nat);
        if first_violation_upto(modules, server, (n - 1) as nat) is None {
            assert forall|j: int| 0 <= j < n - 1 implies (#[trigger] client_verdict(modules[j])) is Ok by {
                if client_verdict(modules[j]) is Err {
                    assert(exists|i: int| 0 <= i < n - 1 && (#[trigger] client_verdict(modules[i])) is Err);
                }
            }
        }
    }
}

/// Every private environment read of a client module that passes is
/// reported, also in a module after the bundle's first failure.
pub proof fn law_every_passing_module_reports_its_reads(
    modules: Seq<BoundaryModuleView>,
    n: nat,
    i: int,
    k: int,
)
    requires
        n <= modules.len(),
        0 <= i < n,
        client_verdict(modules[i]) is Ok,
        0 <= k < client_verdict(modules[i])->Ok_0.len(),
    ensures
        findings_upto(modules, false, n).contains(
            FindingView::PrivateEnvRead { module: i as nat, name: client_verdict(modules[i])->Ok_0[k] },
        ),
    decreases n,
{
    let reads = client_verdict(modules[i])->Ok_0;
    let f = FindingView::PrivateEnvRead { module: i as nat, name: reads[k] };
    if i == n - 1 {
        let before = findings_upto(modules, false, (n - 1) as nat);
        assert(findings_upto(modules, false, n) == before + read_findings(i as nat, reads));
        assert((before + read_findings(i as nat, reads))[before.len() + k] == f);
    } else {
        law_every_passing_module_reports_its_reads(modules, (n - 1) as nat, i, k);
        let before = findings_upto(modules, false, (n - 1) as nat);
        let idx = choose|x: int| 0 <= x < before.len() && before[x] == f;
        match client_verdict(modules[n - 1]) {
            Ok(r) => {
                assert((before + read_findings((n - 1) as nat, r))[idx] == f);
            },
            Err(_) => {},
        }
    }
}

/// Checks every module of a bundle. A server bundle (SSR or edge) is held to
/// the client-only rule alone; a client bundle to the other three. Scanning
/// goes on past the first violation, so one build reports every finding, and
/// the violation returned is the first in module order.
pub fn check(modules: &[BoundaryModule], server_target: bool) -> (r: (
    Vec<Finding>,
    Option<(usize, Violation)>,
))
    ensures
        findings_view(r.0@) == findings_upto(
            modules_view(modules@),
            server_target,
            modules@.len() as nat,
        ),
        match r.1 {
            Some((i, v)) => first_violation_upto(
                modules_view(modules@),
                server_target,
                modules@.len() as nat,
            ) == Some((i as nat, v)),
            None => first_violation_upto(
                modules_view(modules@),
                server_target,
                modules@.len() as nat,
            ) is None,
        },
{
    let ghost ms = modules_view(modules@);
    let mut findings: Vec<Finding> = Vec::new();
    let mut first: Option<(usize, Violation)> = None;
    let mut i: usize = 0;
    while i < modules.len()
        invariant
            i <= modules.len(),
            ms == modules_view(modules@),
            findings_view(findings@) == findings_upto(ms, server_target, i as nat),
            match first {
                Some((k, v)) => first_violation_upto(ms, server_target, i as nat) == Some(
                    (k as nat, v),
                ),
                None => first_violation_upto(ms, server_target, i as nat) is None,
            },
        decreases modules.len() - i,
    {
        let module = &modules[i];
        assert(ms[i as int] == module@);
        let ghost before = findings@;
        if server_target {
            if check_ssr_module(module) {
                findings.push(Finding::ClientOnlyImport { module: i });
                assert(findings_view(findings@) =~= findings_view(before).push(
                    FindingView::ClientOnlyImport { module: i as nat },
                ));
            }
        } else {
            match check_client_module(module) {
                Ok(reads) => {
                    let mut j: usize = 0;
                    while j < reads.len()
                        invariant
                            j <= reads.len(),
                            findings_view(findings@) == findings_view(before) + read_findings(
                                i as nat,
                                strings_view(reads@).subrange(0, j as int),
                            ),
                        decreases reads.len() - j,
                    {
                        let ghost mid = findings@;
                        findings.push(Finding::PrivateEnvRead { module: i, name: reads[j].clone() });
                        assert(strings_view(reads@).subrange(0, j + 1) =~= strings_view(
                            reads@,
                        ).subrange(0, j as int).push(reads@[j as int]@));
                        assert(findings_view(findings@) =~= findings_view(mid).push(
                            FindingView::PrivateEnvRead { module: i as nat, name: reads@[j as int]@ },
                        ));
                        assert(read_findings(i as nat, strings_view(reads@).subrange(0, j + 1))
                            =~= read_findings(
                            i as nat,
                            strings_view(reads@).subrange(0, j as int),
                        ).push(FindingView::PrivateEnvRead { module: i as nat, name: reads@[j as int]@ }));
                        j += 1;
                    }
                    assert(strings_view(reads@).subrange(0, reads.len() as int) =~= strings_view(
                        reads@,
                    ));
                },
                Err(v) => {
                    if first.is_none() {
                        first = Some((i, v));
                    }
                },
            }
        }
        i += 1;
    }
    (findings, first)
}

// ─── The project-level `server/` directory ───────────────────────────────────

/// One component a path segment contributes: nothing for an empty segment,
/// nor for `.` except at the start of a relative path.
pub open spec fn piece(seg: Seq<char>, at_start: bool) -> Seq<Seq<char>> {
    if seg.len() == 0 || (!at_start && seg == seq!['.']) {
        Seq::empty()
    } else {
        seq![seg]
    }
}

/// `Path::components` by the rules of a Unix path, each as text: `/` for
/// the root, `.` for a leading current directory, `..` for a parent, and
/// names; empty and inner `.` segments are skipped.
pub open spec fn components(s: Seq<char>) -> Seq<Seq<char>>
    decreases s.len(),
{
    let k = crate::static_assets::last_index_of(s, '/', s.len() as int);
    let seg = s.subrange(k + 1, s.len() as int);
    if k < 0 {
        piece(seg, true)
    } else {
        proof {
            crate::static_assets::lemma_last_index_of(s, '/', s.len() as int);
        }
        (if k == 0 {
            seq![seq!['/']]
        } else {
            components(s.subrange(0, k))
        }) + piece(seg, false)
    }
}

proof fn lemma_components_step(v: Seq<char>, start: int, i: int)
    requires
        0 <= start <= i <= v.len(),
        start == 0 || v[start - 1] == '/',
        forall|k: int| start <= k < i ==> v[k] != '/',
    ensures
        components(v.subrange(0, i)) == (if start == 0 {
            Seq::<Seq<char>>::empty()
        } else if start == 1 {
            seq![seq!['/']]
        } else {
            components(v.subrange(0, start - 1))
        }) + piece(v.subrange(start, i), start == 0),
{
    let s = v.subrange(0, i);
    crate::static_assets::lemma_last_index_of(s, '/', s.len() as int);
    let k = crate::static_assets::last_index_of(s, '/', s.len() as int);
    if k >= 0 {
        assert(s[k] == '/');
        if k < start - 1 {
            assert(s[start - 1] == '/');
        }
        assert(k == start - 1);
        assert(s.subrange(0, k) =~= v.subrange(0, start - 1));
    } else {
        if start > 0 {
            assert(s[start - 1] == '/');
        }
    }
    assert(s.subrange(k + 1, s.len() as int) =~= v.subrange(start, i));
}

fn push_piece(out: &mut Vec<Vec<char>>, v: &Vec<char>, start: usize, end: usize, at_start: bool)
    requires
        start <= end <= v.len(),
    ensures
        final(out)@.map_values(|c: Vec<char>| c@) == old(out)@.map_values(|c: Vec<char>| c@) + piece(
            v@.subrange(start as int, end as int),
            at_start,
        ),
{
    let len = end - start;
    let ghost before = out@.map_values(|c: Vec<char>| c@);
    if len == 0 || (!at_start && len == 1 && v[start] == '.') {
        proof {
            if len == 1 {
                assert(v@.subrange(start as int, end as int) =~= seq!['.']);
            }
        }
        assert(out@.map_values(|c: Vec<char>| c@) =~= before + piece(v@.subrange(start as int, end as int), at_start));
        return;
    }
    proof {
        if len == 1 {
            assert(v@.subrange(start as int, end as int)[0] == v@[start as int]);
        }
    }
    let seg = crate::text::sub_chars(v, start, end);
    out.push(seg);
    assert(out@.map_values(|c: Vec<char>| c@) =~= before + piece(v@.subrange(start as int, end as int), at_start));
}

/// The components of the path `path`.
pub fn path_components(path: &str) -> (r: Vec<Vec<char>>)
    ensures
        r@.map_values(|c: Vec<char>| c@) == components(path@),
{
    let v = str_chars(path);
    let mut out: Vec<Vec<char>> = Vec::new();
    let mut start: usize = 0;
    let mut i: usize = 0;
    assert(out@.map_values(|c: Vec<char>| c@) =~= Seq::<Seq<char>>::empty());
    while i < v.len()
        invariant
            start <= i <= v.len(),
            v@ == path@,
            start == 0 || v@[start - 1] == '/',
            forall|k: int| start <= k < i ==> v@[k] != '/',
            out@.map_values(|c: Vec<char>| c@) == (if start == 0 {
                Seq::<Seq<char>>::empty()
            } else if start == 1 {
                seq![seq!['/']]
            } else {
                components(v@.subrange(0, start - 1))
            }),
        decreases v.len() - i,
    {
        if v[i] == '/' {
            proof {
                lemma_components_step(v@, start as int, i as int);
            }
            if i == 0 {
                let mut root: Vec<char> = Vec::new();
                root.push('/');
                assert(start == 0);
                assert(out@.map_values(|c: Vec<char>| c@).len() == 0);
                assert(out@.len() == 0);
                out.push(root);
                assert(out@.map_values(|c: Vec<char>| c@) =~= seq![seq!['/']]);
            } else {
                push_piece(&mut out, &v, start, i, start == 0);
            }
            start = i + 1;
        }
        i += 1;
    }
    proof {
        lemma_components_step(v@, start as int, i as int);
        assert(v@.subrange(0, i as int) =~= v@);
    }
    push_piece(&mut out, &v, start, v.len(), start == 0);
    out
}

/// `path`, taken relative to `root` by whole components, starts with the
/// directory `server`.
pub open spec fn inside_server_dir(path: Seq<char>, root: Seq<char>) -> bool {
    let p = components(path);
    let r = components(root);
    p.len() > r.len() && p.subrange(0, r.len() as int) == r && p[r.len() as int] == "server"@
}

/// Whether the file `path` lies in the project-level `server/` directory of
/// the project at `root`; a `server` directory deeper in the tree does not
/// count.
pub fn is_inside_server_dir(path: &str, project_root: &str) -> (r: bool)
    ensures
        r == inside_server_dir(path@, project_root@),
{
    let p = path_components(path);
    let r = path_components(project_root);
    let ghost pv = p@.map_values(|c: Vec<char>| c@);
    let ghost rv = r@.map_values(|c: Vec<char>| c@);
    if p.len() <= r.len() {
        return false;
    }
    let mut i: usize = 0;
    while i < r.len()
        invariant
            i <= r.len() < p.len(),
            pv == p@.map_values(|c: Vec<char>| c@),
            rv == r@.map_values(|c: Vec<char>| c@),
            pv == components(path@),
            rv == components(project_root@),
            forall|k: int| 0 <= k < i ==> pv[k] == rv[k],
        decreases r.len() - i,
    {
        assert(pv[i as int] == p@[i as int]@);
        assert(rv[i as int] == r@[i as int]@);
        if !chars_eq(p[i].as_slice(), r[i].as_slice()) {
            assert(pv.subrange(0, rv.len() as int)[i as int] != rv[i as int]);
            return false;
        }
        i += 1;
    }
    assert(pv.subrange(0, rv.len() as int) =~= rv);
    let server = str_chars("server");
    assert(pv[rv.len() as int] == p@[r.len() as int]@);
    chars_eq(p[r.len()].as_slice(), server.as_slice())
}

} // verus!
