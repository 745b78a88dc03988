use rand::SeedableRng;
use wire_core::sim::Delivery;
use wire_core::{Direction, SimResult, Simulation};

/// Runs a simulation on a wire that loses nothing and delays every frame by
/// `delay_ns`, smoothing round-trip samples in integer arithmetic.
fn run_clean(seed: u64, data_size: usize, max_ticks: u64, delay_ns: u64) -> SimResult {
    let mut sim = Simulation::new(data_size, max_ticks);
    loop {
        if !sim.start_tick() {
            break;
        }
        loop {
            match sim.deliver_next() {
                Delivery::Idle => break,
                Delivery::Malformed => panic!("malformed frame on the wire"),
                Delivery::Delivered { direction, sample } => {
                    if let Some((tuple, s)) = sample {
                        let diff = if s.rtt > s.srtt { s.rtt - s.srtt } else { s.srtt - s.rtt };
                        let rttvar = (s.rttvar * 3 + diff) / 4;
                        let srtt = (s.srtt * 7 + s.rtt) / 8;
                        sim.apply_rtt(direction, tuple, srtt, rttvar);
                    }
                }
            }
        }
        assert!(!sim.endpoints_would_overflow());
        let now = sim.now;
        for (frame, direction) in sim.run_endpoints() {
            sim.schedule(frame, direction, now + delay_ns);
        }
        if sim.finished() {
            break;
        }
    }
    sim.result(seed)
}

#[test]
fn clean_wire_echoes_all_data_and_closes() {
    let r = run_clean(7, 5000, 10_000, 2_000_000);
    assert_eq!(r.seed, 7);
    assert_eq!(r.bytes_sent, 5000);
    assert_eq!(r.bytes_received, 5000);
    assert!(r.data_match);
    assert!(r.connection_closed);
    assert!(r.ticks < 10_000);
}

#[test]
fn small_transfer_on_fast_wire() {
    let r = run_clean(1, 10, 1_000, 100_000);
    assert_eq!(r.bytes_sent, 10);
    assert_eq!(r.bytes_received, 10);
    assert!(r.data_match);
    assert!(r.connection_closed);
}

#[test]
fn run_out_of_ticks_reports_partial_result() {
    let r = run_clean(3, 5000, 2, 2_000_000);
    assert_eq!(r.ticks, 3);
    assert_eq!(r.bytes_sent, 5000);
    assert_eq!(r.bytes_received, 0);
    assert!(!r.data_match);
    // The SYN never reached A, so A has no connection.
    assert!(r.connection_closed);
}

#[test]
fn new_simulation_has_sent_a_syn() {
    let sim = Simulation::new(100, 50);
    assert_eq!(sim.test_data.len(), 100);
    assert_eq!(sim.test_data[0], 0);
    assert_eq!(sim.test_data[99], 99);
    assert_eq!(sim.stack_b.tx_queue.len(), 1);
    assert_eq!(sim.tuple_b.local_port, 40000);
    assert_eq!(sim.tuple_b.remote_port, 8080);
    assert!(sim.wire.is_empty());
    assert_eq!(sim.ticks, 0);
    assert_eq!(sim.now, 0);
}

#[test]
fn test_data_wraps_every_256_bytes() {
    let sim = Simulation::new(600, 1);
    assert_eq!(sim.test_data[255], 255);
    assert_eq!(sim.test_data[256], 0);
    assert_eq!(sim.test_data[599], (599 % 256) as u8);
}

#[test]
fn wire_keeps_arrival_order_and_ties_in_sending_order() {
    let mut sim = Simulation::new(0, 10);
    sim.schedule(vec![1], Direction::AtoB, 500);
    sim.schedule(vec![2], Direction::BtoA, 100);
    sim.schedule(vec![3], Direction::AtoB, 500);
    sim.schedule(vec![4], Direction::AtoB, 300);
    let order: Vec<u8> = sim.wire.iter().map(|p| p.data[0]).collect();
    assert_eq!(order, vec![2, 4, 1, 3]);
    let times: Vec<u64> = sim.wire.iter().map(|p| p.deliver_at).collect();
    assert_eq!(times, vec![100, 300, 500, 500]);
}

#[test]
fn clock_moves_to_next_arrival_when_sooner() {
    let mut sim = Simulation::new(0, 10);
    sim.schedule(vec![0u8; 10], Direction::AtoB, 400_000);
    assert!(sim.start_tick());
    assert_eq!(sim.ticks, 1);
    assert_eq!(sim.now, 400_000);
    assert!(matches!(sim.deliver_next(), Delivery::Delivered { direction: Direction::AtoB, .. }));
    assert!(sim.wire.is_empty());
    assert!(sim.start_tick());
    assert_eq!(sim.now, 1_400_000);
    assert!(matches!(sim.deliver_next(), Delivery::Idle));
}

#[test]
fn packet_not_yet_due_stays_on_wire() {
    let mut sim = Simulation::new(0, 10);
    sim.schedule(vec![0u8; 10], Direction::BtoA, 5_000_000);
    assert!(sim.start_tick());
    assert_eq!(sim.now, 1_000_000);
    assert!(matches!(sim.deliver_next(), Delivery::Idle));
    assert_eq!(sim.wire.len(), 1);
}

#[test]
fn out_of_ticks_stops() {
    let mut sim = Simulation::new(0, 1);
    assert!(sim.start_tick());
    assert!(!sim.start_tick());
    assert_eq!(sim.ticks, 2);
}

#[test]
fn result_of_fresh_run() {
    let sim = Simulation::new(10, 5);
    let r = sim.result(42);
    assert_eq!(
        r,
        SimResult {
            seed: 42,
            bytes_sent: 10,
            bytes_received: 0,
            data_match: false,
            connection_closed: true,
            ticks: 0
        }
    );
    assert!(!sim.finished());
}

#[test]
fn transmit_with_empty_delay_range_uses_the_minimum() {
    let mut rng = rand::rngs::SmallRng::seed_from_u64(1);
    let mut sim = Simulation::new(0, 10);
    let at = sim.transmit(&mut rng, vec![9], Direction::AtoB, 5_000, 5_000);
    assert_eq!(at, 5_000);
    let at = sim.transmit(&mut rng, vec![8], Direction::BtoA, 7_000, 1_000);
    assert_eq!(at, 7_000);
    assert_eq!(sim.wire.len(), 2);
    assert_eq!(sim.wire[0].deliver_at, 5_000);
    assert_eq!(sim.wire[1].deliver_at, 7_000);
}

#[test]
fn transmit_draws_delays_within_the_range() {
    let mut rng = rand::rngs::SmallRng::seed_from_u64(42);
    let mut sim = Simulation::new(0, 10);
    let mut seen = std::collections::HashSet::new();
    for i in 0..50u8 {
        let at = sim.transmit(&mut rng, vec![i], Direction::AtoB, 10_000, 1_000_000);
        assert!((10_000..=1_000_000).contains(&at));
        seen.insert(at);
    }
    assert!(seen.len() > 1);
    let times: Vec<u64> = sim.wire.iter().map(|p| p.deliver_at).collect();
    let mut sorted = times.clone();
    sorted.sort();
    assert_eq!(times, sorted);
}

#[test]
fn duplicates_arrive_whole_microseconds_later() {
    let mut rng = rand::rngs::SmallRng::seed_from_u64(3);
    let mut sim = Simulation::new(0, 10);
    let mut seen = std::collections::HashSet::new();
    for i in 0..50u8 {
        let at = sim.transmit_duplicate(&mut rng, vec![i], Direction::BtoA, 1_000_000);
        assert!(at >= 1_000_000 && at <= 1_099_000);
        assert_eq!((at - 1_000_000) % 1_000, 0);
        seen.insert(at);
    }
    assert!(seen.len() > 1);
}

#[test]
fn frame_shorter_than_its_header_is_reported_malformed() {
    let mut sim = Simulation::new(0, 10);
    let mut frame = vec![0x02, 0, 0, 0, 0, 0x02, 0x02, 0, 0, 0, 0, 0x01, 0x08, 0x00];
    frame.extend_from_slice(&[0x4f, 0, 0, 40, 0, 0, 0, 0, 64, 6, 0, 0, 10, 0, 0, 1, 10, 0, 0, 2]);
    assert_eq!(frame.len(), 34);
    sim.schedule(frame, Direction::AtoB, 0);
    assert!(sim.start_tick());
    assert!(matches!(sim.deliver_next(), Delivery::Malformed));
    assert!(sim.wire.is_empty());
}

#[test]
fn longest_run_keeps_the_clock_in_range() {
    let limit = wire_core::sim::max_ticks_limit();
    assert_eq!(limit, 18_446_744_071_708);
    assert!((limit + 1) * 1_000_000 <= u64::MAX - 2_000_000_000);
    let mut sim = Simulation::new(0, limit);
    assert!(sim.start_tick());
    assert_eq!(sim.max_ticks, limit);
}
