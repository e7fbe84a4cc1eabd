use ruvyxa::host_resources::{
    bundle_worker_budget, darwin_available_bytes, mem_available_bytes, parse_mem_available_kib,
    prerender_worker_budget,
};

/// Memory figures a machine may report: none, too little for one worker, a
/// small machine, a large one, and more than any machine has.
const AVAILABLE: [Option<u64>; 5] = [
    None,
    Some(0),
    Some(512 * 1024 * 1024),
    Some(64 * 1024 * 1024 * 1024),
    Some(u64::MAX),
];

#[test]
fn reads_mem_available_from_the_kernel_format() {
    let meminfo = "MemTotal:       16316108 kB\nMemFree:         1000 kB\n\
                   MemAvailable:    8158054 kB\nBuffers:          123 kB\n";
    assert_eq!(parse_mem_available_kib(meminfo), Some(8_158_054));
}

#[test]
fn reports_unknown_when_mem_available_is_absent() {
    assert_eq!(parse_mem_available_kib("MemTotal: 16316108 kB\n"), None);
}

#[test]
fn a_budget_is_always_at_least_one_worker() {
    for available in AVAILABLE {
        assert!(bundle_worker_budget(0, available) >= 1);
        assert!(prerender_worker_budget(0, available) >= 1);
        assert!(bundle_worker_budget(64, available) >= 1);
    }
}

#[test]
fn memory_never_raises_the_requested_concurrency() {
    for available in AVAILABLE {
        for requested in [1_usize, 2, 4, 16, 64] {
            assert!(bundle_worker_budget(requested, available) <= requested.max(1));
            assert!(prerender_worker_budget(requested, available) <= requested.max(1));
        }
    }
}

#[test]
fn prerender_workers_are_budgeted_at_least_as_tightly_as_bundle_workers() {
    for available in AVAILABLE {
        assert!(prerender_worker_budget(64, available) <= bundle_worker_budget(64, available));
    }
}

#[test]
fn budgets_follow_the_memory_per_worker() {
    // 1 GiB less the 256 MiB baseline leaves room for 64 bundle workers of
    // 12 MiB and 8 prerender workers of 96 MiB; the request caps both.
    let gib = Some(1024 * 1024 * 1024);
    assert_eq!(bundle_worker_budget(200, gib), 64);
    assert_eq!(prerender_worker_budget(200, gib), 8);
    assert_eq!(prerender_worker_budget(4, gib), 4);
    // Unknown memory leaves the request as it is.
    assert_eq!(bundle_worker_budget(7, None), 7);
    assert_eq!(bundle_worker_budget(0, None), 1);
}

#[test]
fn mem_available_is_reported_in_bytes() {
    assert_eq!(mem_available_bytes("MemAvailable: 2 kB\n"), Some(2048));
    assert_eq!(mem_available_bytes("MemFree: 2 kB\n"), None);
    assert_eq!(mem_available_bytes("MemAvailable: 18446744073709551615 kB\n"), Some(u64::MAX));
    assert_eq!(mem_available_bytes("MemAvailable: lots kB\n"), None);
}

#[test]
fn a_darwin_machine_is_taken_to_have_half_its_memory_free() {
    assert_eq!(darwin_available_bytes(16 * 1024 * 1024 * 1024), Some(8 * 1024 * 1024 * 1024));
    assert_eq!(darwin_available_bytes(0), None);
}
