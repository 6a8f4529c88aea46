use sliced::addr::{Discovered, WorkerAddr};
use sliced::assignments::{SliceAssignments, SliceError, NUM_SLICES};
use sliced::balance::find_best_moves;
use sliced::health::{HealthStatus, HealthStatusInner, SliceUsage, Usage};
use sliced::select::{router_for, slice_of_key, SelectError, SliceSelection};

fn v4(d: u8, port: u16) -> Discovered {
    Discovered::V4(WorkerAddr { a: 127, b: 0, c: 0, d, port })
}

fn waddr(d: u8, port: u16) -> WorkerAddr {
    WorkerAddr { a: 127, b: 0, c: 0, d, port }
}

fn check_invariants(sa: &SliceAssignments) {
    if sa.servers.is_empty() {
        assert!(sa.assignments.is_empty());
    } else {
        assert_eq!(sa.assignments.len(), NUM_SLICES as usize);
    }
    for &owner in &sa.assignments {
        assert!(owner < sa.servers.len());
    }
    for w in sa.servers.windows(2) {
        let k0 = ((((w[0].a as u64) * 256 + w[0].b as u64) * 256 + w[0].c as u64) * 256
            + w[0].d as u64) * 65536 + w[0].port as u64;
        let k1 = ((((w[1].a as u64) * 256 + w[1].b as u64) * 256 + w[1].c as u64) * 256
            + w[1].d as u64) * 65536 + w[1].port as u64;
        assert!(k0 < k1, "servers not strictly ascending");
    }
}

#[test]
fn test_cold_start_single_worker() {
    let sa = SliceAssignments::new(vec![v4(1, 8080)]).expect("build failed");
    check_invariants(&sa);
    assert_eq!(sa.servers, vec![waddr(1, 8080)]);
    assert_eq!(sa.assignments, vec![0; NUM_SLICES as usize]);

    let selection = router_for(&sa);
    let backend = selection.select(b"any user key").expect("no upstream");
    assert_eq!(backend.addr, waddr(1, 8080));
}

#[test]
fn test_scale_out() {
    let mut sa = SliceAssignments::new(vec![v4(1, 8080)]).expect("build failed");
    sa.update(vec![v4(1, 8080), v4(1, 8081), v4(1, 8082), v4(1, 8083)])
        .expect("update failed");
    check_invariants(&sa);
    assert_eq!(
        sa.servers,
        vec![waddr(1, 8080), waddr(1, 8081), waddr(1, 8082), waddr(1, 8083)]
    );
    // 8080 survived the change, so every slice keeps its owner
    for s in 0..NUM_SLICES as usize {
        assert_eq!(sa.servers[sa.assignments[s]], waddr(1, 8080));
    }
}

#[test]
fn test_scale_in_orphan_reassignment() {
    let sa0 = SliceAssignments::new(vec![v4(1, 8080), v4(1, 8081), v4(1, 8082), v4(1, 8083)])
        .expect("build failed");
    check_invariants(&sa0);
    let owners_before: Vec<WorkerAddr> =
        (0..NUM_SLICES as usize).map(|s| sa0.servers[sa0.assignments[s]]).collect();

    let mut sa = sa0.duplicate();
    sa.update(vec![v4(1, 8080), v4(1, 8081), v4(1, 8082)]).expect("update failed");
    check_invariants(&sa);
    assert_eq!(sa.servers, vec![waddr(1, 8080), waddr(1, 8081), waddr(1, 8082)]);

    for s in 0..NUM_SLICES as usize {
        let before = owners_before[s];
        let after = sa.servers[sa.assignments[s]];
        if before == waddr(1, 8083) {
            assert!(sa.servers.contains(&after), "orphan not reassigned");
        } else {
            assert_eq!(after, before, "surviving owner was moved");
        }
    }
}

#[test]
fn test_build_deterministic() {
    // the same set, in another order and with a duplicate entry
    let a = SliceAssignments::new(vec![v4(1, 8080), v4(1, 8081), v4(1, 8082)]).unwrap();
    let b = SliceAssignments::new(vec![v4(1, 8082), v4(1, 8080), v4(1, 8081), v4(1, 8080)])
        .unwrap();
    assert_eq!(a.servers, b.servers);
    assert_eq!(a.assignments, b.assignments);
}

#[test]
fn test_no_eligible_workers() {
    let r = SliceAssignments::new(vec![Discovered::Other]);
    assert_eq!(r.unwrap_err(), SliceError::NoEligibleWorkers);

    let mut sa = SliceAssignments::new(vec![v4(1, 8080)]).unwrap();
    let r = sa.update(vec![Discovered::Other, Discovered::Other]);
    assert_eq!(r.unwrap_err(), SliceError::NoEligibleWorkers);
    // the assignment is untouched
    assert_eq!(sa.servers, vec![waddr(1, 8080)]);
}

#[test]
fn test_empty_discovery_builds_empty() {
    let sa = SliceAssignments::new(Vec::new()).expect("empty build failed");
    assert!(sa.servers.is_empty());
    assert!(sa.assignments.is_empty());
}

#[test]
fn test_routing_fidelity() {
    let sa = SliceAssignments::new(vec![v4(1, 8080), v4(1, 8081), v4(1, 8082)]).unwrap();
    let selection = router_for(&sa);
    for key in [&b"alice"[..], b"bob", b"carol", b""] {
        let slice = slice_of_key(key);
        let expected = sa.servers[sa.assignments[slice as usize]];
        let got = selection.select(key).expect("no upstream");
        assert_eq!(got.addr, expected);
    }
}

#[test]
fn test_to_backends_slice_sets() {
    let sa = SliceAssignments::new(vec![v4(1, 8080), v4(1, 8081)]).unwrap();
    let backends = sa.to_backends();
    assert_eq!(backends.len(), 2);
    let mut seen = vec![false; NUM_SLICES as usize];
    for (i, b) in backends.iter().enumerate() {
        assert_eq!(b.addr, sa.servers[i]);
        assert!(b.health.inner.is_healthy);
        assert!(b.health.inner.usage.is_none());
        for &s in &b.slices {
            assert_eq!(sa.assignments[s as usize], i);
            assert!(!seen[s as usize], "slice owned twice");
            seen[s as usize] = true;
        }
    }
    assert!(seen.iter().all(|&x| x), "some slice unowned");
}

#[test]
fn test_apply_moves_rejects_unknown_server() {
    let mut sa = SliceAssignments::new(vec![v4(1, 8080), v4(1, 8081)]).unwrap();
    let before = sa.duplicate();
    // plan a move toward a server the assignment does not know
    let backends = vec![
        backend_with_usage(waddr(1, 8080), vec![(0, 900)]),
        backend_with_usage(waddr(9, 9999), vec![(1, 100)]),
    ];
    let moves = find_best_moves(&backends);
    assert_eq!(moves.len(), 1);
    let r = sa.move_load(&backends);
    assert_eq!(r.unwrap_err(), SliceError::UnknownServer);
    assert_eq!(sa.servers, before.servers);
    assert_eq!(sa.assignments, before.assignments);
}

#[test]
fn test_move_load_applies_plan() {
    let mut sa = SliceAssignments::new(vec![v4(1, 8001), v4(1, 8002)]).unwrap();
    let backends = vec![
        backend_with_usage(waddr(1, 8001), vec![(0, 400), (1, 500)]),
        backend_with_usage(waddr(1, 8002), vec![(2, 150), (3, 150)]),
    ];
    let moves = sa.move_load(&backends).expect("plan rejected");
    assert_eq!(moves.len(), 1);
    assert_eq!(moves[0].slice_id, 1);
    // slice 1 now belongs to 8002
    assert_eq!(sa.servers[sa.assignments[1]], waddr(1, 8002));
}

fn backend_with_usage(
    a: WorkerAddr,
    slice_loads: Vec<(u16, u32)>,
) -> sliced::health::Backend {
    let mut slices: Vec<(u16, SliceUsage)> = Vec::new();
    for (slice_id, load) in slice_loads {
        slices.push((slice_id, SliceUsage { load }));
    }
    sliced::health::Backend {
        addr: a,
        slices: Vec::new(),
        health: HealthStatus {
            inner: HealthStatusInner {
                is_healthy: true,
                last_check: 0,
                usage: Some(Usage { slices }),
            },
        },
    }
}

#[test]
fn test_select_errors() {
    // an empty backend set has no upstream at all
    let empty = SliceSelection::build(Vec::new());
    assert_eq!(empty.select(b"k").unwrap_err(), SelectError::NoUpstream);

    // a backend set that covers no slice leaves every key unassigned
    let bare = SliceSelection::build(vec![sliced::health::Backend {
        addr: waddr(1, 8080),
        slices: Vec::new(),
        health: HealthStatus::new(),
    }]);
    assert_eq!(bare.select(b"k").unwrap_err(), SelectError::SliceUnassigned);
}

#[test]
fn test_slice_of_key_in_range() {
    for key in [&b""[..], b"a", b"user-42", b"\x00\x01"] {
        assert!(slice_of_key(key) < NUM_SLICES);
    }
}
