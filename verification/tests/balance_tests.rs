use sliced::addr::WorkerAddr;
use sliced::balance::{calculate_imbalance, collect_server_stats, find_best_moves, ServerStat};
use sliced::health::{Backend, HealthStatus, HealthStatusInner, SliceUsage, Usage};

fn addr(d: u8, port: u16) -> WorkerAddr {
    WorkerAddr { a: 127, b: 0, c: 0, d, port }
}

fn create_test_backend(a: WorkerAddr, slice_loads: Vec<(u16, u32)>) -> Backend {
    let mut slices: Vec<(u16, SliceUsage)> = Vec::new();
    for (slice_id, load) in slice_loads {
        slices.push((slice_id, SliceUsage { load }));
    }
    Backend {
        addr: a,
        slices: Vec::new(),
        health: HealthStatus {
            inner: HealthStatusInner {
                is_healthy: true,
                last_check: 0,
                usage: Some(Usage { slices }),
            },
        },
    }
}

fn stat_for<'s>(stats: &'s [ServerStat], a: &WorkerAddr) -> &'s ServerStat {
    stats.iter().find(|st| st.addr == *a).expect("server missing from stats")
}

fn slice_load(st: &ServerStat, id: u16) -> u32 {
    st.slices
        .iter()
        .find(|(s, _)| *s == id)
        .expect("slice missing from stats")
        .1
        .load
}

#[test]
fn test_collect_server_stats() {
    let backends = vec![
        create_test_backend(addr(1, 8001), vec![(0, 100), (1, 200)]),
        create_test_backend(addr(1, 8002), vec![(2, 50), (3, 150)]),
    ];

    let stats = collect_server_stats(&backends);

    assert_eq!(stats.len(), 2);
    let s1 = stat_for(&stats, &addr(1, 8001));
    let s2 = stat_for(&stats, &addr(1, 8002));
    assert_eq!(s1.total, 300);
    assert_eq!(s2.total, 200);

    assert_eq!(slice_load(s1, 0), 100);
    assert_eq!(slice_load(s1, 1), 200);
    assert_eq!(slice_load(s2, 2), 50);
    assert_eq!(slice_load(s2, 3), 150);
}

#[test]
fn test_find_best_moves() {
    let backends = vec![
        create_test_backend(addr(1, 8001), vec![(0, 400), (1, 500)]),
        create_test_backend(addr(1, 8002), vec![(2, 150), (3, 150)]),
    ];

    let moves = find_best_moves(&backends);

    assert!(!moves.is_empty());
    let first_move = &moves[0];

    assert_eq!(first_move.slice_id, 1);
    assert_eq!(first_move.from_server, addr(1, 8001));
    assert_eq!(first_move.to_server, addr(1, 8002));
    assert!(first_move.benefit_positive());
}

#[test]
fn test_calculate_imbalance() {
    let servers: Vec<u32> = vec![1000, 500, 500];

    let imb = calculate_imbalance(&servers);
    let imbalance = imb.max_load as f32 / imb.mean_load as f32;

    assert!((imbalance - 1.5).abs() < 0.1);
}

#[test]
fn test_no_moves_when_balanced() {
    let backends = vec![
        create_test_backend(addr(1, 8001), vec![(0, 100), (1, 100)]),
        create_test_backend(addr(1, 8002), vec![(2, 100), (3, 100)]),
        create_test_backend(addr(1, 8003), vec![(4, 100), (5, 100)]),
    ];

    let moves = find_best_moves(&backends);
    println!("moves: {:?}", moves);
    assert!(moves.is_empty());
}

#[test]
fn test_moves_are_bounded() {
    // four hot servers and four idle ones: the cycle still proposes at most
    // three moves, all between servers of the input set
    let mut backends = Vec::new();
    for d in 1..=4u8 {
        backends.push(create_test_backend(addr(d, 9000), vec![(d as u16, 1000)]));
    }
    for d in 5..=8u8 {
        backends.push(create_test_backend(addr(d, 9000), vec![(d as u16, 0)]));
    }
    let moves = find_best_moves(&backends);
    assert_eq!(moves.len(), 3);
    for mv in &moves {
        assert!(backends.iter().any(|b| b.addr == mv.from_server));
        assert!(backends.iter().any(|b| b.addr == mv.to_server));
        assert_ne!(mv.from_server, mv.to_server);
    }
}

#[test]
fn test_unsampled_backends_are_ignored() {
    let mut sampled = create_test_backend(addr(1, 8001), vec![(0, 100)]);
    sampled.health.inner.usage = Some(Usage { slices: vec![(0, SliceUsage { load: 100 })] });
    let unsampled = Backend {
        addr: addr(1, 8002),
        slices: Vec::new(),
        health: HealthStatus::new(),
    };
    let stats = collect_server_stats(&vec![sampled, unsampled]);
    assert_eq!(stats.len(), 1);
    assert_eq!(stats[0].addr, addr(1, 8001));
}
