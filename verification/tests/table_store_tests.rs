use sliced::addr::{Discovered, WorkerAddr};
use sliced::assignments::{SliceAssignments, SliceError};
use sliced::balance::{Imbalance, Move};
use sliced::discovery::plan_update;
use sliced::health::{record_probe, set_health, HealthCheckPolicy, HealthStatus, SliceUsage, Usage};
use sliced::parse::parse_addr;
use sliced::store::record_to_json;
use sliced::table::AssignmentTable;

fn v4(d: u8, port: u16) -> Discovered {
    Discovered::V4(WorkerAddr { a: 127, b: 0, c: 0, d, port })
}

fn waddr(d: u8, port: u16) -> WorkerAddr {
    WorkerAddr { a: 127, b: 0, c: 0, d, port }
}

#[test]
fn test_db() {
    let mut db = AssignmentTable::init();

    let (read_assignments, version) = db.get();
    println!("{:?}", read_assignments);
    assert_eq!(version, 0);
    assert!(read_assignments.servers.is_empty());

    let servers = vec![v4(1, 8080), v4(1, 8081), v4(1, 8082), v4(1, 8083)];
    let assignments = SliceAssignments::new(servers).expect("build failed");
    let expected = assignments.duplicate();
    let timestamp = 0;
    let (write_success, new_timestamp) = db.cas(assignments, timestamp, 1111);
    assert!(write_success, "Initial write should succeed");

    let (read_assignments, timestamp) = db.get();
    println!("{:?}", read_assignments.assignments);
    assert_eq!(read_assignments.servers, expected.servers);
    assert_eq!(read_assignments.assignments, expected.assignments);
    assert!(timestamp > 0, "Timestamp should be set");

    let servers = vec![v4(1, 8080), v4(1, 8081), v4(1, 8082)];
    let assignments = SliceAssignments::new(servers).expect("build failed");
    let (write_success, _) = db.cas(assignments, new_timestamp, 2222);
    assert!(write_success, "Initial write should succeed");

    let (read_assignments, _) = db.get();
    println!("{:?}", read_assignments.assignments);
}

#[test]
fn test_cas_race() {
    let mut table = AssignmentTable::init();
    let (_, v0) = table.get();

    let sa_a = SliceAssignments::new(vec![v4(1, 8080)]).unwrap();
    let sa_a_copy = sa_a.duplicate();
    let sa_b = SliceAssignments::new(vec![v4(1, 8080), v4(1, 8081)]).unwrap();

    // replica A commits first
    let (a_ok, v1) = table.cas(sa_a, v0, 5000);
    assert!(a_ok);
    assert!(v1 > v0);

    // replica B raced with the same starting version and loses: it gets its
    // own read version back, unchanged
    let (b_ok, v_b) = table.cas(sa_b, v0, 5001);
    assert!(!b_ok);
    assert_eq!(v_b, v0);

    // B re-reads and adopts A's assignment
    let (current, v) = table.get();
    assert_eq!(v, v1);
    assert_eq!(current.servers, sa_a_copy.servers);
    assert_eq!(current.assignments, sa_a_copy.assignments);
}

#[test]
fn test_cas_version_bumps_past_stale_clock() {
    let mut table = AssignmentTable::init();
    let sa = SliceAssignments::new(vec![v4(1, 8080)]).unwrap();
    let (ok, v1) = table.cas(sa, 0, 100);
    assert!(ok);
    assert_eq!(v1, 100);
    // a clock that went backwards still yields a strictly larger version
    let sa2 = SliceAssignments::new(vec![v4(1, 8080)]).unwrap();
    let (ok2, v2) = table.cas(sa2, v1, 50);
    assert!(ok2);
    assert_eq!(v2, 101);
}

#[test]
fn test_plan_update_builds_then_reworks() {
    let empty = SliceAssignments::empty();
    let built = plan_update(&empty, vec![v4(1, 8080)]).expect("cold build failed");
    assert_eq!(built.servers, vec![waddr(1, 8080)]);

    let reworked = plan_update(&built, vec![v4(1, 8080), v4(1, 8081)]).expect("rework failed");
    assert_eq!(reworked.servers, vec![waddr(1, 8080), waddr(1, 8081)]);
    // the input assignment is untouched
    assert_eq!(built.servers, vec![waddr(1, 8080)]);

    let refused = plan_update(&built, vec![Discovered::Other]);
    assert_eq!(refused.unwrap_err(), SliceError::NoEligibleWorkers);
}

#[test]
fn test_record_serialization() {
    let empty = SliceAssignments::empty();
    assert_eq!(
        record_to_json(&empty),
        b"{\"servers\":[],\"assignments\":[]}".to_vec()
    );

    let sa = SliceAssignments::from_parts(
        vec![waddr(1, 8080), waddr(1, 8081)],
        {
            let mut a = vec![0usize; 100];
            a[7] = 1;
            a
        },
    )
    .expect("valid parts refused");
    let json = record_to_json(&sa);
    let text = String::from_utf8(json).unwrap();
    assert!(text.starts_with("{\"servers\":[\"127.0.0.1:8080\",\"127.0.0.1:8081\"],\"assignments\":[0,0,0,0,0,0,0,1,"));
    assert!(text.ends_with("]}"));
}

#[test]
fn test_record_is_valid_json() {
    let sa = SliceAssignments::new(vec![v4(1, 8080), v4(1, 8081)]).unwrap();
    let bytes = record_to_json(&sa);
    let v: serde_json::Value = serde_json::from_slice(&bytes).expect("record is not JSON");
    let servers = v["servers"].as_array().unwrap();
    assert_eq!(servers.len(), 2);
    assert_eq!(servers[0], "127.0.0.1:8080");
    assert_eq!(servers[1], "127.0.0.1:8081");
    let assignments = v["assignments"].as_array().unwrap();
    assert_eq!(assignments.len(), 100);
    for (s, owner) in assignments.iter().enumerate() {
        assert_eq!(owner.as_u64().unwrap() as usize, sa.assignments[s]);
    }
}

#[test]
fn test_from_parts_validation() {
    // out-of-range owner
    let r = SliceAssignments::from_parts(vec![waddr(1, 8080)], vec![1usize; 100]);
    assert_eq!(r.unwrap_err(), SliceError::InvalidRecord);
    // wrong length
    let r = SliceAssignments::from_parts(vec![waddr(1, 8080)], vec![0usize; 99]);
    assert_eq!(r.unwrap_err(), SliceError::InvalidRecord);
    // unsorted servers
    let r = SliceAssignments::from_parts(
        vec![waddr(1, 8081), waddr(1, 8080)],
        vec![0usize; 100],
    );
    assert_eq!(r.unwrap_err(), SliceError::InvalidRecord);
    // the empty record
    let r = SliceAssignments::from_parts(Vec::new(), Vec::new());
    assert!(r.is_ok());
}

#[test]
fn test_apply_moves_rejects_bad_slice() {
    let mut sa = SliceAssignments::new(vec![v4(1, 8080), v4(1, 8081)]).unwrap();
    let mv = Move {
        slice_id: 200,
        from_server: waddr(1, 8080),
        to_server: waddr(1, 8081),
        imbalance_before: Imbalance { max_load: 1, mean_load: 1 },
        imbalance_after: Imbalance { max_load: 1, mean_load: 1 },
    };
    let r = sa.apply_moves(&vec![mv]);
    assert_eq!(r.unwrap_err(), SliceError::InvalidSlice);
}

#[test]
fn test_record_probe() {
    let mut h = HealthStatus::new();
    let usage = Usage { slices: vec![(3, SliceUsage { load: 42 })] };

    // an unhealthy probe still stores fresh telemetry and reports the status
    let r = record_probe(&mut h, 503, Some(usage), 10);
    assert_eq!(r.unwrap_err(), 503);
    assert!(!h.inner.is_healthy);
    assert_eq!(h.inner.last_check, 10);
    assert_eq!(h.inner.usage.as_ref().unwrap().slices[0].1.load, 42);

    // a healthy probe without a parsed body keeps the old sample
    let r = record_probe(&mut h, 200, None, 20);
    assert!(r.is_ok());
    assert!(h.inner.is_healthy);
    assert_eq!(h.inner.last_check, 20);
    assert_eq!(h.inner.usage.as_ref().unwrap().slices[0].1.load, 42);
}

#[test]
fn test_set_health_and_threshold() {
    let mut h = HealthStatus::new();
    assert!(h.inner.is_healthy);
    set_health(&mut h, false, None, 7);
    assert!(!h.inner.is_healthy);
    assert_eq!(h.inner.last_check, 7);
    assert!(h.inner.usage.is_none());

    let policy = HealthCheckPolicy::new();
    assert_eq!(policy.health_threshold(true), 1);
    assert_eq!(policy.health_threshold(false), 1);
}

#[test]
fn test_parse_addr() {
    assert_eq!(
        parse_addr(b"127.0.0.1:8080"),
        Some(Discovered::V4(waddr(1, 8080)))
    );
    assert_eq!(
        parse_addr(b"10.20.30.40:65535"),
        Some(Discovered::V4(WorkerAddr { a: 10, b: 20, c: 30, d: 40, port: 65535 }))
    );
    // a non-IPv4 host with a valid port is discovered but not eligible
    assert_eq!(parse_addr(b"[2001:db8::1]:443"), Some(Discovered::Other));
    assert_eq!(parse_addr(b"worker.example:80"), Some(Discovered::Other));
    // malformed entries are dropped
    assert_eq!(parse_addr(b"127.0.0.1"), None);
    assert_eq!(parse_addr(b"127.0.0.1:"), None);
    assert_eq!(parse_addr(b"127.0.0.1:99999"), None);
    assert_eq!(parse_addr(b"127.0.0.1:08"), None);
    assert_eq!(parse_addr(b":8080"), None);
    assert_eq!(parse_addr(b""), None);
    // a host with a leading-zero octet is not canonical IPv4
    assert_eq!(parse_addr(b"127.00.0.1:80"), Some(Discovered::Other));
    // octet out of range
    assert_eq!(parse_addr(b"256.0.0.1:80"), Some(Discovered::Other));
}

#[test]
fn test_usage_from_pairs_sorts() {
    let usage = Usage::from_pairs(vec![(9, 30), (2, 10), (5, 20)]);
    assert_eq!(
        usage.slices,
        vec![
            (2, SliceUsage { load: 10 }),
            (5, SliceUsage { load: 20 }),
            (9, SliceUsage { load: 30 }),
        ]
    );
}
