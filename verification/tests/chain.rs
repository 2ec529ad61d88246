use a2a_signal_chain::apply_deadband;
use a2a_signal_chain::DeadbandConfig;
use a2a_signal_chain::FilterFn;
use a2a_signal_chain::IdCounter;
use a2a_signal_chain::Port;
use a2a_signal_chain::RoutingAlgorithm;
use a2a_signal_chain::Signal;
use a2a_signal_chain::SignalChain;
use a2a_signal_chain::SignalType;
use a2a_signal_chain::TransformFn;

/// Cosine distance of two embeddings, given and returned as bit patterns.
fn distance(a: &Vec<u64>, b: &Vec<u64>) -> u64 {
    let (mut dot, mut na, mut nb) = (0.0f64, 0.0f64, 0.0f64);
    for (x, y) in a.iter().zip(b.iter()) {
        let (x, y) = (f64::from_bits(*x), f64::from_bits(*y));
        dot += x * y;
        na += x * x;
        nb += y * y;
    }
    let denom = na.sqrt() * nb.sqrt();
    if denom == 0.0 {
        0.0f64.to_bits()
    } else {
        (1.0 - dot / denom).to_bits()
    }
}

fn bits(values: &[f64]) -> Vec<u64> {
    values.iter().map(|v| v.to_bits()).collect()
}

fn show(value: u64) -> String {
    format!("{}", f64::from_bits(value))
}

fn parse(text: &str) -> Option<u64> {
    text.parse::<f64>().ok().map(|v| v.to_bits())
}

fn signal(source: &str, target: &str, signal_type: SignalType) -> Signal {
    Signal::new(source, target, signal_type, &mut IdCounter::new())
}

#[test]
fn test_register_room() {
    let mut chain = SignalChain::new();
    assert!(chain.register_room("planner"));
    assert!(!chain.register_room("planner")); // duplicate
    assert!(chain.register_room("executor"));
    assert_eq!(chain.stats().rooms_registered, 2);
}

#[test]
fn test_add_route() {
    let mut chain = SignalChain::new();
    chain.register_room("a");
    chain.register_room("b");
    assert!(chain.add_route("a", "b", RoutingAlgorithm::Direct));
    assert!(!chain.add_route("a", "b", RoutingAlgorithm::Direct)); // duplicate
    assert!(!chain.add_route("a", "c", RoutingAlgorithm::Direct)); // c not registered
    assert_eq!(chain.stats().routes_active, 1);
}

#[test]
fn test_send_receive() {
    let mut chain = SignalChain::new();
    chain.register_room("source");
    chain.register_room("sink");
    chain.add_route("source", "sink", RoutingAlgorithm::Direct);

    let sig = signal("source", "sink", SignalType::Tick).with_payload(vec![1, 2, 3]);
    chain.send(sig, distance).unwrap();

    let received = chain.receive("sink");
    assert_eq!(received.len(), 1);
    assert_eq!(received[0].payload, vec![1, 2, 3]);
    assert_eq!(received[0].signal_type, SignalType::Tick);
}

#[test]
fn test_send_no_route() {
    let mut chain = SignalChain::new();
    chain.register_room("lonely");
    let sig = signal("lonely", "nowhere", SignalType::Murmur);
    assert!(chain.send(sig, distance).is_err());
}

#[test]
fn test_send_unregistered_source() {
    let mut chain = SignalChain::new();
    let sig = signal("ghost", "anyone", SignalType::Surprise);
    assert_eq!(chain.send(sig, distance), Err("source room not registered"));
}

#[test]
fn test_deadband_suppresses() {
    let config = DeadbandConfig {
        tolerance: 0.5f64.to_bits(),
        use_embedding: false,
    };
    let s1 = signal("a", "b", SignalType::Tick).with_payload(vec![1, 2, 3]);
    let s2 = signal("a", "b", SignalType::Tick).with_payload(vec![1, 2, 3]);
    // Same payload → diff = 0 < 0.5 → suppressed
    assert!(apply_deadband(&config, Some(&s1), &s2, distance));
}

#[test]
fn test_deadband_allows_change() {
    let config = DeadbandConfig {
        tolerance: 0.1f64.to_bits(),
        use_embedding: false,
    };
    let s1 = signal("a", "b", SignalType::Tick).with_payload(vec![1, 2, 3]);
    let s2 = signal("a", "b", SignalType::Tick).with_payload(vec![9, 9, 9]);
    // All bytes differ → diff = 1.0 > 0.1 → not suppressed
    assert!(!apply_deadband(&config, Some(&s1), &s2, distance));
}

#[test]
fn test_deadband_embedding() {
    let config = DeadbandConfig {
        tolerance: 0.01f64.to_bits(),
        use_embedding: true,
    };
    let s1 = signal("a", "b", SignalType::Tick).with_embedding(bits(&[1.0, 0.0, 0.0]));
    let s2 = signal("a", "b", SignalType::Tick).with_embedding(bits(&[1.0, 0.0, 0.0]));
    // Same embedding → distance 0 < 0.01 → suppressed
    assert!(apply_deadband(&config, Some(&s1), &s2, distance));

    let s3 = signal("a", "b", SignalType::Tick).with_embedding(bits(&[0.0, 1.0, 0.0]));
    // Orthogonal → distance 1.0 > 0.01 → allowed
    assert!(!apply_deadband(&config, Some(&s1), &s3, distance));
}

#[test]
fn test_correlated_routing() {
    let mut chain = SignalChain::new();
    chain.register_room("sensor");
    chain.register_room("analyzer");
    chain.add_route("sensor", "analyzer", RoutingAlgorithm::Correlated { threshold: 7 });

    // Low priority → dropped
    let low = signal("sensor", "analyzer", SignalType::Murmur).with_priority(3);
    chain.send(low, distance).unwrap();
    assert!(chain.receive("analyzer").is_empty());

    // High priority → delivered
    let high = signal("sensor", "analyzer", SignalType::Prediction).with_priority(8);
    chain.send(high, distance).unwrap();
    let received = chain.receive("analyzer");
    assert_eq!(received.len(), 1);
}

#[test]
fn test_on_change_routing() {
    let mut chain = SignalChain::new();
    chain.register_room("producer");
    chain.register_room("consumer");
    chain.add_route("producer", "consumer", RoutingAlgorithm::OnChange);

    let s1 = signal("producer", "consumer", SignalType::Tick).with_payload(vec![42]);
    chain.send(s1, distance).unwrap();
    assert_eq!(chain.receive("consumer").len(), 1);

    // Same payload → OnChange drops
    let s2 = signal("producer", "consumer", SignalType::Tick).with_payload(vec![42]);
    chain.send(s2, distance).unwrap();
    assert!(chain.receive("consumer").is_empty());

    // Different payload → delivered
    let s3 = signal("producer", "consumer", SignalType::Tick).with_payload(vec![99]);
    chain.send(s3, distance).unwrap();
    assert_eq!(chain.receive("consumer").len(), 1);
}

#[test]
fn test_broadcast() {
    let mut chain = SignalChain::new();
    chain.register_room("hub");
    chain.register_room("room_a");
    chain.register_room("room_b");
    chain.register_room("room_c");

    let sig = signal("hub", "", SignalType::VibeShift);
    let count = chain.broadcast(sig);
    assert_eq!(count, 3);

    assert_eq!(chain.receive("room_a").len(), 1);
    assert_eq!(chain.receive("room_b").len(), 1);
    assert_eq!(chain.receive("room_c").len(), 1);
}

#[test]
fn test_find_path() {
    let mut chain = SignalChain::new();
    chain.register_room("a");
    chain.register_room("b");
    chain.register_room("c");
    chain.add_route("a", "b", RoutingAlgorithm::Direct);
    chain.add_route("b", "c", RoutingAlgorithm::Direct);

    let path = chain.find_path("a", "c").unwrap();
    assert_eq!(path, vec!["a", "b", "c"]);

    assert!(chain.find_path("c", "a").is_none());
}

#[test]
fn test_find_path_no_path() {
    let mut chain = SignalChain::new();
    chain.register_room("x");
    chain.register_room("y");
    // No route from x to y
    assert!(chain.find_path("x", "y").is_none());
}

#[test]
fn test_to_a2a_from_a2a_roundtrip() {
    let original = signal("room_a", "room_b", SignalType::Prediction)
        .with_payload(vec![0xDE, 0xAD, 0xBE, 0xEF])
        .with_embedding(bits(&[0.1, 0.5, 0.9]))
        .with_priority(7);

    let bytes = SignalChain::to_a2a(&original, show);
    let restored = SignalChain::from_a2a(&bytes, parse).unwrap();

    assert_eq!(restored.id, original.id);
    assert_eq!(restored.source, "room_a");
    assert_eq!(restored.target, "room_b");
    assert_eq!(restored.signal_type, SignalType::Prediction);
    assert_eq!(restored.priority, 7);
    assert_eq!(restored.payload, vec![0xDE, 0xAD, 0xBE, 0xEF]);
    assert_eq!(restored.embedding, bits(&[0.1, 0.5, 0.9]));
}

#[test]
fn test_stats() {
    let mut chain = SignalChain::new();
    chain.register_room("src");
    chain.register_room("dst");
    chain.add_route("src", "dst", RoutingAlgorithm::Direct);

    let sig = signal("src", "dst", SignalType::EnergyUpdate);
    chain.send(sig, distance).unwrap();
    chain.receive("dst");

    let stats = chain.stats();
    assert_eq!(stats.rooms_registered, 2);
    assert_eq!(stats.routes_active, 1);
    assert_eq!(stats.signals_sent, 1);
    assert_eq!(stats.signals_received, 1);
}

#[test]
fn test_detect_storm() {
    let mut chain = SignalChain::new();
    chain.register_room("target");
    chain.register_room("src");
    chain.add_route("src", "target", RoutingAlgorithm::Direct);

    // Send many signals with the same payload
    for _ in 0..5 {
        let sig = signal("src", "target", SignalType::Tick).with_payload(vec![42]);
        chain.send(sig, distance).unwrap();
    }
    // Don't drain — leave them in inbound for storm detection

    let storm = chain.detect_storm(5);
    assert!(storm.is_some());
    let (room, count) = storm.unwrap();
    assert_eq!(room, "target");
    assert_eq!(count, 5);
}

#[test]
fn test_sampled_routing() {
    let mut chain = SignalChain::new();
    chain.register_room("fast");
    chain.register_room("slow");
    // 1 second interval
    chain.add_route("fast", "slow", RoutingAlgorithm::Sampled { interval_ms: 1000 });

    let sig = signal("fast", "slow", SignalType::Tick);
    chain.send(sig, distance).unwrap();
    assert_eq!(chain.receive("slow").len(), 1);

    // Second send within the interval → dropped by sampling
    let sig2 = signal("fast", "slow", SignalType::Tick);
    chain.send(sig2, distance).unwrap();
    assert!(chain.receive("slow").is_empty());
}

#[test]
fn test_port_filters() {
    let mut port = Port::<FilterFn, TransformFn>::new("filtered");
    port.filters.push(|s: &Signal| s.priority >= 5);

    let high = signal("x", "filtered", SignalType::Tick).with_priority(8);
    let low = signal("x", "filtered", SignalType::Tick).with_priority(2);

    assert!(port.push_inbound(high));
    assert!(!port.push_inbound(low));
    assert_eq!(port.inbound.len(), 1);
}

#[test]
fn test_port_transforms() {
    let mut port = Port::<FilterFn, TransformFn>::new("transformed");
    port.transforms.push(|s: &Signal| {
        let mut s = s.clone();
        s.payload.extend_from_slice(b"_transformed");
        s
    });

    let sig = signal("x", "transformed", SignalType::Murmur).with_payload(b"hello".to_vec());
    port.push_inbound(sig);
    let received = port.inbound.pop_front().unwrap();
    assert_eq!(received.payload, b"hello_transformed".to_vec());
}

#[test]
fn test_all_signal_types() {
    let types = [
        SignalType::Tick,
        SignalType::Murmur,
        SignalType::Prediction,
        SignalType::Surprise,
        SignalType::GcReport,
        SignalType::VibeShift,
        SignalType::LoRATrigger,
        SignalType::BalanceAlert,
        SignalType::CorrelationUpdate,
        SignalType::EnergyUpdate,
    ];
    let mut chain = SignalChain::new();
    chain.register_room("from");
    chain.register_room("to");
    chain.add_route("from", "to", RoutingAlgorithm::Direct);

    for st in &types {
        let sig = signal("from", "to", st.clone());
        chain.send(sig, distance).unwrap();
    }

    let received = chain.receive("to");
    assert_eq!(received.len(), 10);
}
