//! Version comparison for `ruvyxa doctor`.
//!
//! Reading the tool versions and `package.json` is the caller's business; what
//! a declared dependency range means, and whether it drifts from the running
//! CLI, is decided here.

use vstd::prelude::*;

use crate::text::{
    ascii_digit, chars_eq, eq_ignore_ascii_case, eq_ignore_case, has_prefix, is_ascii_digit,
    parse_u64, parse_unsigned, push_chars, push_str, starts_with, str_chars, string_from_chars,
    sub_chars, trim, trim_chars,
};

verus! {

broadcast use vstd::string::group_string_axioms;

/// Index of the first ASCII digit of `s` at or after `i`, or its length.
pub open spec fn first_digit(s: Seq<char>, i: int) -> int
    decreases s.len() - i,
{
    if 0 <= i < s.len() && !is_ascii_digit(s[i]) {
        first_digit(s, i + 1)
    } else {
        i
    }
}

/// Index just past the run of ASCII digits of `s` that starts at `i`.
pub open spec fn digit_run_end(s: Seq<char>, i: int) -> int
    decreases s.len() - i,
{
    if 0 <= i < s.len() && is_ascii_digit(s[i]) {
        digit_run_end(s, i + 1)
    } else {
        i
    }
}

pub proof fn lemma_digit_scan_bounds(s: Seq<char>, i: int)
    requires
        0 <= i <= s.len(),
    ensures
        i <= first_digit(s, i) <= s.len(),
        i <= digit_run_end(s, i) <= s.len(),
    decreases s.len() - i,
{
    if i < s.len() {
        lemma_digit_scan_bounds(s, i + 1);
    }
}

/// The major version of a dependency range: the first run of digits in it,
/// whatever precedes it (`^19.0.0` is 19, `~18.3.1` is 18), or `None` when it
/// has no digits or the run does not fit a `u64`.
pub open spec fn major_of(s: Seq<char>) -> Option<nat> {
    let i = first_digit(s, 0);
    parse_unsigned(s.subrange(i, digit_run_end(s, i)), u64::MAX as nat)
}

pub fn major_version(version: &str) -> (r: Option<u64>)
    ensures
        match r {
            Some(v) => major_of(version@) == Some(v as nat),
            None => major_of(version@) is None,
        },
{
    let s = str_chars(version);
    let mut i: usize = 0;
    while i < s.len() && !ascii_digit(s[i])
        invariant
            i <= s.len(),
            first_digit(s@, 0) == first_digit(s@, i as int),
        decreases s.len() - i,
    {
        i += 1;
    }
    let mut j = i;
    while j < s.len() && ascii_digit(s[j])
        invariant
            i <= j <= s.len(),
            digit_run_end(s@, i as int) == digit_run_end(s@, j as int),
        decreases s.len() - j,
    {
        j += 1;
    }
    let digits = sub_chars(&s, i, j);
    proof {
        assert(s@ == version@);
    }
    parse_u64(digits.as_slice())
}

/// The characters `trim_start_matches(['^', '~', '=', 'v', ' '])` removes.
pub open spec fn is_range_operator(c: char) -> bool {
    c == '^' || c == '~' || c == '=' || c == 'v' || c == ' '
}

pub open spec fn skip_range_operators(s: Seq<char>, i: int) -> int
    decreases s.len() - i,
{
    if 0 <= i < s.len() && is_range_operator(s[i]) {
        skip_range_operators(s, i + 1)
    } else {
        i
    }
}

pub proof fn lemma_skip_range_operators_bounds(s: Seq<char>, i: int)
    requires
        0 <= i <= s.len(),
    ensures
        i <= skip_range_operators(s, i) <= s.len(),
    decreases s.len() - i,
{
    if i < s.len() && is_range_operator(s[i]) {
        lemma_skip_range_operators_bounds(s, i + 1);
    }
}

/// The version a dependency range declares, without its range operators.
pub open spec fn declared_version(s: Seq<char>) -> Seq<char> {
    s.subrange(skip_range_operators(s, 0), s.len() as int)
}

/// The drift report for the npm package's declared version against the CLI's.
pub open spec fn version_match_text(package: Option<Seq<char>>, cli: Seq<char>) -> Seq<char> {
    match package {
        None => "missing"@,
        Some(p) => if starts_with(p, "workspace:"@) || starts_with(p, "link:"@) || starts_with(
            p,
            "file:"@,
        ) {
            "ok ("@ + p + ")"@
        } else {
            let d = declared_version(p);
            if d == "*"@ || d.len() == 0 || eq_ignore_case(d, "latest"@) {
                "ok (unpinned, cli "@ + cli + ")"@
            } else if d == cli {
                "ok ("@ + cli + ")"@
            } else if major_of(d) is Some && major_of(d) == major_of(cli) {
                "ok (package "@ + d + ", cli "@ + cli + ")"@
            } else {
                "drift: package "@ + d + ", cli "@ + cli
            }
        },
    }
}

pub open spec fn opt_str_view(v: Option<&str>) -> Option<Seq<char>> {
    match v {
        Some(s) => Some(s@),
        None => None,
    }
}

/// Compare the npm `ruvyxa` dependency against the CLI binary running the
/// check. A workspace, link, or file protocol resolves to the checkout itself,
/// so there is no published version to compare and nothing to warn about.
pub fn cli_version_match(package_version: Option<&str>, cli_version: &str) -> (r: String)
    ensures
        r@ == version_match_text(opt_str_view(package_version), cli_version@),
{
    let package_version = match package_version {
        None => {
            return "missing".to_string();
        },
        Some(p) => p,
    };
    let p = str_chars(package_version);
    let cli = str_chars(cli_version);
    let mut out: Vec<char> = Vec::new();
    if has_prefix(p.as_slice(), str_chars("workspace:").as_slice()) || has_prefix(
        p.as_slice(),
        str_chars("link:").as_slice(),
    ) || has_prefix(p.as_slice(), str_chars("file:").as_slice()) {
        push_str(&mut out, "ok (");
        push_chars(&mut out, &p);
        push_str(&mut out, ")");
        assert(out@ =~= version_match_text(opt_str_view(Some(package_version)), cli_version@));
        return string_from_chars(out.as_slice());
    }
    let mut i: usize = 0;
    while i < p.len() && (p[i] == '^' || p[i] == '~' || p[i] == '=' || p[i] == 'v' || p[i] == ' ')
        invariant
            i <= p.len(),
            skip_range_operators(p@, 0) == skip_range_operators(p@, i as int),
        decreases p.len() - i,
    {
        i += 1;
    }
    let d = sub_chars(&p, i, p.len());
    assert(d@ == declared_version(p@));
    if chars_eq(d.as_slice(), str_chars("*").as_slice()) || d.len() == 0 || eq_ignore_ascii_case(
        d.as_slice(),
        str_chars("latest").as_slice(),
    ) {
        push_str(&mut out, "ok (unpinned, cli ");
        push_chars(&mut out, &cli);
        push_str(&mut out, ")");
    } else if chars_eq(d.as_slice(), cli.as_slice()) {
        push_str(&mut out, "ok (");
        push_chars(&mut out, &cli);
        push_str(&mut out, ")");
    } else {
        let d_text = string_from_chars(d.as_slice());
        let left = major_version(d_text.as_str());
        let right = major_version(cli_version);
        let same = match (left, right) {
            (Some(a), Some(b)) => a == b,
            _ => false,
        };
        if same {
            push_str(&mut out, "ok (package ");
            push_chars(&mut out, &d);
            push_str(&mut out, ", cli ");
            push_chars(&mut out, &cli);
            push_str(&mut out, ")");
        } else {
            push_str(&mut out, "drift: package ");
            push_chars(&mut out, &d);
            push_str(&mut out, ", cli ");
            push_chars(&mut out, &cli);
        }
    }
    assert(out@ =~= version_match_text(opt_str_view(Some(package_version)), cli_version@));
    string_from_chars(out.as_slice())
}

/// The package manager a project uses, by the first lockfile found above
/// it: pnpm, then npm, then Yarn, then Bun (either of its two lockfiles).
pub open spec fn package_manager_for(pnpm: bool, npm: bool, yarn: bool, bun: bool, bun_binary: bool) -> Seq<char> {
    if pnpm {
        "pnpm"@
    } else if npm {
        "npm"@
    } else if yarn {
        "yarn"@
    } else if bun || bun_binary {
        "bun"@
    } else {
        "unknown"@
    }
}

/// `found` answered `b` when asked about a file of this name.
pub open spec fn found_answer<F: Fn(&str) -> bool>(found: &F, name: Seq<char>, b: bool) -> bool {
    exists|s: &str| #[trigger] found.ensures((s,), b) && s@ == name
}

/// The project's package manager. `found` says whether a file of the given
/// name lies in the project directory or one above it; lockfiles are asked
/// about in order, and no further once one is found.
pub fn detect_package_manager(found: impl Fn(&str) -> bool) -> (r: String)
    requires
        forall|name: &str| found.requires((name,)),
    ensures
        exists|pnpm: bool, npm: bool, yarn: bool, bun: bool, bun_binary: bool|
            #![trigger package_manager_for(pnpm, npm, yarn, bun, bun_binary)]
            {
                &&& r@ == package_manager_for(pnpm, npm, yarn, bun, bun_binary)
                &&& found_answer(&found, "pnpm-lock.yaml"@, pnpm)
                &&& !pnpm ==> found_answer(&found, "package-lock.json"@, npm)
                &&& !pnpm && !npm ==> found_answer(&found, "yarn.lock"@, yarn)
                &&& !pnpm && !npm && !yarn ==> found_answer(&found, "bun.lock"@, bun)
                &&& !pnpm && !npm && !yarn && !bun ==> found_answer(&found, "bun.lockb"@, bun_binary)
            },
{
    let pnpm = found("pnpm-lock.yaml");
    assert(found_answer(&found, "pnpm-lock.yaml"@, pnpm));
    if pnpm {
        assert(package_manager_for(true, false, false, false, false) == "pnpm"@);
        return "pnpm".to_string();
    }
    let npm = found("package-lock.json");
    assert(found_answer(&found, "package-lock.json"@, npm));
    if npm {
        assert(package_manager_for(false, true, false, false, false) == "npm"@);
        return "npm".to_string();
    }
    let yarn = found("yarn.lock");
    assert(found_answer(&found, "yarn.lock"@, yarn));
    if yarn {
        assert(package_manager_for(false, false, true, false, false) == "yarn"@);
        return "yarn".to_string();
    }
    let bun = found("bun.lock");
    assert(found_answer(&found, "bun.lock"@, bun));
    if bun {
        assert(package_manager_for(false, false, false, true, false) == "bun"@);
        return "bun".to_string();
    }
    let bun_binary = found("bun.lockb");
    assert(found_answer(&found, "bun.lockb"@, bun_binary));
    if bun_binary {
        assert(package_manager_for(false, false, false, false, true) == "bun"@);
        return "bun".to_string();
    }
    assert(package_manager_for(false, false, false, false, false) == "unknown"@);
    "unknown".to_string()
}

/// What a `--version` probe of a tool reports: its trimmed output when it
/// ran and succeeded, else `missing`.
pub fn probed_version(succeeded: bool, stdout: &str) -> (r: String)
    ensures
        r@ == (if succeeded {
            trim(stdout@)
        } else {
            "missing"@
        }),
{
    if succeeded {
        string_from_chars(trim_chars(&str_chars(stdout)).as_slice())
    } else {
        "missing".to_string()
    }
}

} // verus!
