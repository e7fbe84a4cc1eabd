//! How much of this machine a build is allowed to use.
//!
//! Build concurrency used to be sized from the core count alone. That reads as
//! "use the machine", but memory, not cores, is what runs out: every extra
//! concurrent route bundle holds its own parser arenas and module graph, and
//! every extra prerender worker is a whole JavaScript runtime process.
//!
//! So concurrency is sized by whichever of cores and free memory runs out
//! first. When free memory cannot be determined the core count is used
//! unchanged — an unknown budget must not silently serialize a build. Reading
//! the free memory is the caller's business; the budgets take its answer.

use vstd::prelude::*;

use crate::text::{
    first_word, first_word_of, has_prefix, lemma_token_end_bounds, parse_u64, parse_unsigned,
    starts_with, str_chars, sub_chars,
};

verus! {

/// Memory one concurrent route bundle is assumed to need: about 6.5MB per
/// worker was measured, rounded up, because being wrong in this direction only
/// costs parallelism.
pub const BUNDLE_WORKER_MEMORY_BYTES: u64 = 12582912;

/// Memory one prerender worker is assumed to need: a whole JavaScript runtime
/// process with the route's module graph loaded.
pub const PRERENDER_WORKER_MEMORY_BYTES: u64 = 100663296;

/// Memory reserved for everything that is not a worker, subtracted before any
/// worker budget is computed so a nearly-full machine is told to run one
/// worker rather than a negative number.
pub const BASELINE_MEMORY_BYTES: u64 = 268435456;

/// How many workers `available` bytes of free memory hold at `per_worker`
/// bytes each, after the baseline: never fewer than one, because refusing to
/// run when memory is tight would turn a slow build into no build.
pub open spec fn memory_budget(available: Option<u64>, per_worker: nat) -> Option<nat> {
    match available {
        None => None,
        Some(a) => {
            let usable: nat = if a > BASELINE_MEMORY_BYTES {
                (a - BASELINE_MEMORY_BYTES) as nat
            } else {
                0
            };
            let q = usable / per_worker;
            let fitted = if q > usize::MAX {
                usize::MAX as nat
            } else {
                q
            };
            Some(if fitted < 1 {
                1
            } else {
                fitted
            })
        },
    }
}

/// The concurrency granted for a request of `cpu` workers.
pub open spec fn worker_budget(cpu: nat, available: Option<u64>, per_worker: nat) -> nat {
    let capped = match memory_budget(available, per_worker) {
        Some(m) => if cpu < m {
            cpu
        } else {
            m
        },
        None => cpu,
    };
    if capped < 1 {
        1
    } else {
        capped
    }
}

/// The largest number of workers `available` memory can hold at
/// `per_worker_bytes` each, or `None` when memory is unknown.
pub fn memory_worker_budget(available: Option<u64>, per_worker_bytes: u64) -> (r: Option<usize>)
    requires
        per_worker_bytes > 0,
    ensures
        match r {
            Some(n) => memory_budget(available, per_worker_bytes as nat) == Some(n as nat),
            None => available is None,
        },
{
    let a = match available {
        Some(a) => a,
        None => return None,
    };
    let usable: u64 = if a > BASELINE_MEMORY_BYTES {
        a - BASELINE_MEMORY_BYTES
    } else {
        0
    };
    let q = usable / per_worker_bytes;
    let fitted: usize = if q > usize::MAX as u64 {
        usize::MAX
    } else {
        q as usize
    };
    Some(if fitted < 1 {
        1
    } else {
        fitted
    })
}

fn budget(cpu_budget: usize, memory: Option<usize>) -> (r: usize)
    ensures
        r == (match memory {
            Some(m) => if cpu_budget < m {
                if cpu_budget < 1 {
                    1
                } else {
                    cpu_budget
                }
            } else if m < 1 {
                1
            } else {
                m
            },
            None => if cpu_budget < 1 {
                1
            } else {
                cpu_budget
            },
        }),
{
    let capped = match memory {
        Some(m) => if cpu_budget < m {
            cpu_budget
        } else {
            m
        },
        None => cpu_budget,
    };
    if capped < 1 {
        1
    } else {
        capped
    }
}

/// Concurrency for route bundling, bounded by cores and by the free memory
/// reported as `available` bytes (`None` when it could not be read).
pub fn bundle_worker_budget(cpu_budget: usize, available: Option<u64>) -> (r: usize)
    ensures
        r == worker_budget(cpu_budget as nat, available, BUNDLE_WORKER_MEMORY_BYTES as nat),
{
    budget(cpu_budget, memory_worker_budget(available, BUNDLE_WORKER_MEMORY_BYTES))
}

/// Concurrency for prerendering, bounded by cores and by the free memory
/// reported as `available` bytes (`None` when it could not be read).
pub fn prerender_worker_budget(cpu_budget: usize, available: Option<u64>) -> (r: usize)
    ensures
        r == worker_budget(cpu_budget as nat, available, PRERENDER_WORKER_MEMORY_BYTES as nat),
{
    budget(cpu_budget, memory_worker_budget(available, PRERENDER_WORKER_MEMORY_BYTES))
}

/// A budget is never zero, whatever the machine reports, and memory can only
/// lower the request, never raise it.
pub proof fn law_budget_is_at_least_one_and_at_most_the_request(
    cpu: nat,
    available: Option<u64>,
    per_worker: nat,
)
    requires
        per_worker > 0,
    ensures
        worker_budget(cpu, available, per_worker) >= 1,
        worker_budget(cpu, available, per_worker) <= if cpu < 1 {
            1
        } else {
            cpu
        },
        available is None ==> worker_budget(cpu, available, per_worker) == if cpu < 1 {
            1
        } else {
            cpu
        },
{
}

/// A prerender worker is a whole runtime process, so at the same request and
/// the same free memory it is never granted more concurrency than a bundling
/// worker.
pub proof fn law_prerender_budget_is_at_most_bundle_budget(cpu: nat, available: Option<u64>)
    ensures
        worker_budget(cpu, available, PRERENDER_WORKER_MEMORY_BYTES as nat) <= worker_budget(
            cpu,
            available,
            BUNDLE_WORKER_MEMORY_BYTES as nat,
        ),
{
    if let Some(a) = available {
        let usable: nat = if a > BASELINE_MEMORY_BYTES {
            (a - BASELINE_MEMORY_BYTES) as nat
        } else {
            0
        };
        vstd::arithmetic::div_mod::lemma_div_is_ordered_by_denominator(
            usable as int,
            BUNDLE_WORKER_MEMORY_BYTES as int,
            PRERENDER_WORKER_MEMORY_BYTES as int,
        );
    }
}

// ─── /proc/meminfo ───────────────────────────────────────────────────────────

/// Index of the first line break of `s` at or after `i`, or its length.
pub open spec fn line_end(s: Seq<char>, i: int) -> int
    decreases s.len() - i,
{
    if 0 <= i < s.len() && s[i] != '\n' {
        line_end(s, i + 1)
    } else {
        i
    }
}

pub proof fn lemma_line_end_bounds(s: Seq<char>, i: int)
    requires
        0 <= i <= s.len(),
    ensures
        i <= line_end(s, i) <= s.len(),
        line_end(s, i) < s.len() ==> s[line_end(s, i)] == '\n',
    decreases s.len() - i,
{
    if i < s.len() && s[i] != '\n' {
        lemma_line_end_bounds(s, i + 1);
    }
}

/// The kibibyte figure of the first line, from the line starting at `i` on,
/// that begins with `MemAvailable:`: its first whitespace-separated word read
/// as a `u64`. `None` when no line carries the field or its figure does not
/// read.
pub open spec fn mem_available_from(s: Seq<char>, i: int) -> Option<nat>
    decreases s.len() - i,
    via mem_available_from_decreases
{
    if 0 <= i < s.len() {
        let e = line_end(s, i);
        let line = s.subrange(i, e);
        if starts_with(line, "MemAvailable:"@) {
            parse_unsigned(first_word(line.subrange(13, line.len() as int)), u64::MAX as nat)
        } else if e < s.len() {
            mem_available_from(s, e + 1)
        } else {
            None
        }
    } else {
        None
    }
}

#[via_fn]
proof fn mem_available_from_decreases(s: Seq<char>, i: int) {
    if 0 <= i < s.len() {
        lemma_line_end_bounds(s, i);
    }
}

/// The `MemAvailable` figure of a `/proc/meminfo` text, in kibibytes.
/// `MemAvailable` rather than `MemFree`: the kernel's own estimate of what a
/// new workload can claim without swapping.
pub fn parse_mem_available_kib(meminfo: &str) -> (r: Option<u64>)
    ensures
        match r {
            Some(v) => mem_available_from(meminfo@, 0) == Some(v as nat),
            None => mem_available_from(meminfo@, 0) is None,
        },
{
    let s = str_chars(meminfo);
    let prefix = str_chars("MemAvailable:");
    proof {
        reveal_strlit("MemAvailable:");
    }
    let mut i: usize = 0;
    while i < s.len()
        invariant
            i <= s.len(),
            s@ == meminfo@,
            prefix@ == "MemAvailable:"@,
            prefix@.len() == 13,
            mem_available_from(s@, 0) == mem_available_from(s@, i as int),
        decreases s.len() - i,
    {
        let mut e = i;
        while e < s.len() && s[e] != '\n'
            invariant
                i <= e <= s.len(),
                line_end(s@, i as int) == line_end(s@, e as int),
            decreases s.len() - e,
        {
            e += 1;
        }
        let line = sub_chars(&s, i, e);
        if has_prefix(line.as_slice(), prefix.as_slice()) {
            let rest = sub_chars(&line, 13, line.len());
            let word = first_word_of(&rest);
            return parse_u64(word.as_slice());
        }
        if e == s.len() {
            assert(mem_available_from(s@, e + 1) is None);
            return None;
        }
        i = e + 1;
    }
    None
}

/// The free memory a `/proc/meminfo` text reports, in bytes: the
/// `MemAvailable` figure times 1024, saturating.
pub fn mem_available_bytes(meminfo: &str) -> (r: Option<u64>)
    ensures
        match r {
            Some(v) => exists|k: nat|
                mem_available_from(meminfo@, 0) == Some(k) && v == (if k * 1024 > u64::MAX {
                    u64::MAX as nat
                } else {
                    k * 1024
                }),
            None => mem_available_from(meminfo@, 0) is None,
        },
{
    match parse_mem_available_kib(meminfo) {
        Some(k) => Some(if k > u64::MAX / 1024 {
            u64::MAX
        } else {
            k * 1024
        }),
        None => None,
    }
}

/// What a Darwin machine is taken to have free, from its total physical
/// memory (`sysctl hw.memsize`): half of it, a deliberate underestimate since
/// Darwin has no cheap equivalent of `MemAvailable`; unknown when the total
/// reads as zero.
pub fn darwin_available_bytes(memsize: u64) -> (r: Option<u64>)
    ensures
        r == (if memsize == 0 {
            None
        } else {
            Some((memsize / 2) as u64)
        }),
{
    if memsize == 0 {
        None
    } else {
        Some(memsize / 2)
    }
}

} // verus!
