use a2a_signal_chain::clock::now_ms;
use a2a_signal_chain::clock::timestamp_of;
use a2a_signal_chain::deadband::byte_diff;
use a2a_signal_chain::deadband::measure;
use a2a_signal_chain::deadband::within_deadband;
use a2a_signal_chain::double::is_below;
use a2a_signal_chain::double::ratio_of_counts;
use a2a_signal_chain::DeadbandConfig;
use a2a_signal_chain::FilterFn;
use a2a_signal_chain::Port;
use a2a_signal_chain::Signal;
use a2a_signal_chain::SignalType;
use a2a_signal_chain::TransformFn;

fn tick(payload: &[u8]) -> Signal {
    Signal::stamped("a", "b", SignalType::Tick, 0, 1).with_payload(payload.to_vec())
}

#[test]
fn comparison_is_that_of_doubles() {
    let values = [
        0.0,
        -0.0,
        1.0,
        -1.0,
        0.1,
        -0.1,
        f64::MIN_POSITIVE,
        f64::from_bits(1),
        -f64::from_bits(1),
        f64::MAX,
        f64::MIN,
        f64::INFINITY,
        f64::NEG_INFINITY,
        f64::NAN,
        -f64::NAN,
        f64::EPSILON,
    ];
    for a in values {
        for b in values {
            assert_eq!(is_below(a.to_bits(), b.to_bits()), a < b, "{a} {b}");
        }
    }
}

#[test]
fn ratio_is_that_of_doubles() {
    let counts = [
        1u64,
        2,
        3,
        5,
        7,
        10,
        255,
        1000003,
        (1 << 53) - 1,
        1 << 53,
        (1 << 53) + 1,
        (1 << 53) + 3,
        (1 << 54) + 2,
        (1 << 54) + 6,
        (1 << 63) + 1025,
        u64::MAX - 1024,
        u64::MAX - 1,
        u64::MAX,
    ];
    for num in counts {
        for den in counts {
            if num <= den {
                let expected = num as f64 / den as f64;
                assert_eq!(ratio_of_counts(num, den), expected.to_bits(), "{num} / {den}");
            }
        }
    }
    assert_eq!(ratio_of_counts(0, 3), 0);
    assert_eq!(ratio_of_counts(1, 3), 0x3FD5_5555_5555_5555);
    assert_eq!(ratio_of_counts(2, 3), 0x3FE5_5555_5555_5555);
}

#[test]
fn ratio_of_small_counts() {
    for den in 1..200u64 {
        for num in 0..=den {
            assert_eq!(ratio_of_counts(num, den), (num as f64 / den as f64).to_bits());
        }
    }
}

#[test]
fn byte_difference_is_a_fraction() {
    assert_eq!(byte_diff(&vec![], &vec![]), 0);
    assert_eq!(byte_diff(&vec![1, 2, 3], &vec![1, 2, 3]), 0);
    assert_eq!(byte_diff(&vec![1, 2, 3], &vec![9, 9, 9]), 1.0f64.to_bits());
    assert_eq!(byte_diff(&vec![1, 2, 3, 4], &vec![1, 2, 3]), 0.25f64.to_bits());
    assert_eq!(byte_diff(&vec![1, 2, 3], &vec![1, 2, 4]), (1.0f64 / 3.0).to_bits());
    // Missing bytes count as zero.
    assert_eq!(byte_diff(&vec![1, 0, 0], &vec![1]), 0);
    assert_eq!(byte_diff(&vec![], &vec![0, 5]), 0.5f64.to_bits());
}

#[test]
fn byte_difference_is_symmetric() {
    let payloads: [Vec<u8>; 4] = [vec![], vec![1], vec![1, 0, 2], vec![0, 1, 2, 3, 4]];
    for a in &payloads {
        for b in &payloads {
            assert_eq!(byte_diff(a, b), byte_diff(b, a));
        }
    }
}

#[test]
fn deadband_without_tolerance_suppresses_nothing() {
    for tolerance in [0.0, -0.0, -1.0, f64::NEG_INFINITY, f64::NAN] {
        for use_embedding in [false, true] {
            let config = DeadbandConfig { tolerance: tolerance.to_bits(), use_embedding };
            assert!(!within_deadband(&config, Some(&tick(&[1])), &tick(&[1]), 0));
        }
    }
    let default = DeadbandConfig::default();
    assert_eq!((default.tolerance, default.use_embedding), (0, false));
}

#[test]
fn deadband_never_suppresses_the_first_signal() {
    let config = DeadbandConfig { tolerance: f64::INFINITY.to_bits(), use_embedding: false };
    assert!(!within_deadband(&config, None, &tick(&[1]), 0));
    assert!(within_deadband(&config, Some(&tick(&[2])), &tick(&[1]), 0));
}

#[test]
fn deadband_tolerance_is_exclusive() {
    let config = DeadbandConfig { tolerance: 0.5f64.to_bits(), use_embedding: false };
    assert!(!within_deadband(&config, Some(&tick(&[1, 2])), &tick(&[1, 3]), 0));
    assert!(within_deadband(&config, Some(&tick(&[1, 2, 3])), &tick(&[1, 2, 4]), 0));
}

#[test]
fn distance_is_asked_only_where_it_matters() {
    let asked = |_: &Vec<u64>, _: &Vec<u64>| -> u64 { 42 };
    let s = tick(&[]).with_embedding(vec![1]);
    let bare = tick(&[]);
    let on = DeadbandConfig { tolerance: 1.0f64.to_bits(), use_embedding: true };
    let off = DeadbandConfig { tolerance: 0.0f64.to_bits(), use_embedding: true };
    assert_eq!(measure(&on, Some(&s), &s, &asked), 42);
    assert_eq!(measure(&on, None, &s, &asked), 0);
    assert_eq!(measure(&off, Some(&s), &s, &asked), 0);
    assert_eq!(measure(&on, Some(&s), &bare, &asked), 0);
    assert_eq!(measure(&on, Some(&bare), &s, &asked), 0);
    let not_a_number = f64::NAN.to_bits();
    assert!(!within_deadband(&on, Some(&s), &s, not_a_number));
    // A missing embedding is no distance away.
    assert!(within_deadband(&on, Some(&s), &bare, not_a_number));
    assert!(within_deadband(&on, Some(&bare), &s, not_a_number));
}

#[test]
fn timestamp_of_a_reading() {
    assert_eq!(timestamp_of(None), 0);
    assert_eq!(timestamp_of(Some(1234)), 1234);
    assert_eq!(timestamp_of(Some((1u128 << 64) + 5)), 5);
}

#[test]
fn clock_shows_the_time() {
    let before = std::time::SystemTime::now()
        .duration_since(std::time::UNIX_EPOCH)
        .unwrap()
        .as_millis() as u64;
    let now = now_ms();
    assert!(now >= before && now - before < 20_000);
}

#[test]
fn refused_signal_leaves_the_port_alone() {
    let mut port = Port::<FilterFn, TransformFn>::new("p");
    port.filters.push(|s: &Signal| s.priority >= 5);
    port.filters.push(|s: &Signal| s.payload.is_empty());
    assert!(!port.push_outbound(tick(&[1])));
    assert!(!port.push_inbound(tick(&[1])));
    assert!(port.outbound.is_empty() && port.inbound.is_empty());
    assert!(port.push_outbound(tick(&[])));
    assert_eq!((port.outbound.len(), port.inbound.len()), (1, 0));
    assert_eq!(port.room, "p");
}

#[test]
fn transforms_apply_in_order() {
    let mut port = Port::<FilterFn, TransformFn>::new("p");
    port.transforms.push(|s: &Signal| s.clone().with_payload(vec![s.payload[0] + 1]));
    port.transforms.push(|s: &Signal| s.clone().with_payload(vec![s.payload[0] * 2]));
    assert!(port.push_outbound(tick(&[3])));
    assert!(port.push_inbound(tick(&[10])));
    assert_eq!(port.outbound[0].payload, vec![8]);
    assert_eq!(port.inbound[0].payload, vec![22]);
}

#[test]
fn larger_tolerance_suppresses_at_least_as_much() {
    let tolerances = [-1.0, 0.0, 0.1, 0.25, 0.5, 0.75, 1.0, 2.0, f64::INFINITY];
    for payload in [[1u8, 2, 3, 4], [1, 2, 3, 9], [1, 2, 9, 9], [9, 9, 9, 9]] {
        let mut suppressed = false;
        for tolerance in tolerances {
            let config = DeadbandConfig { tolerance: tolerance.to_bits(), use_embedding: false };
            let now = within_deadband(&config, Some(&tick(&[1, 2, 3, 4])), &tick(&payload), 0);
            assert!(now || !suppressed);
            suppressed = now;
        }
        assert!(suppressed);
    }
}
