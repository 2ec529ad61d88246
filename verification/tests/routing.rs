use a2a_signal_chain::DeadbandConfig;
use a2a_signal_chain::IdCounter;
use a2a_signal_chain::Route;
use a2a_signal_chain::RoutingAlgorithm;
use a2a_signal_chain::Signal;
use a2a_signal_chain::SignalChain;
use a2a_signal_chain::SignalType;

fn nothing(_: &Vec<u64>, _: &Vec<u64>) -> u64 {
    0
}

fn tick(source: &str, payload: &[u8]) -> Signal {
    Signal::stamped(source, "anywhere", SignalType::Tick, 7, 1).with_payload(payload.to_vec())
}

fn chain_of(rooms: &[&str]) -> SignalChain {
    let mut chain = SignalChain::new();
    for room in rooms {
        assert!(chain.register_room(room));
    }
    chain
}

fn payloads(signals: Vec<Signal>) -> Vec<Vec<u8>> {
    signals.into_iter().map(|s| s.payload).collect()
}

#[test]
fn new_chain_is_empty() {
    let mut chain = SignalChain::default();
    let stats = *chain.stats();
    assert_eq!(stats.signals_sent, 0);
    assert_eq!(stats.signals_received, 0);
    assert_eq!(stats.signals_dropped, 0);
    assert_eq!(stats.deadband_suppressions, 0);
    assert_eq!(stats.rooms_registered, 0);
    assert_eq!(stats.routes_active, 0);
    assert!(chain.receive("nowhere").is_empty());
    assert!(chain.detect_storm(0).is_none());
}

#[test]
fn registration_keeps_what_waits() {
    let mut chain = chain_of(&["a", "b"]);
    assert_eq!(chain.broadcast(tick("a", &[1])), 1);
    assert!(chain.register_room("c"));
    assert!(!chain.register_room("b"));
    assert_eq!(payloads(chain.receive("b")), vec![vec![1]]);
    assert!(chain.receive("c").is_empty());
}

#[test]
fn routes_have_a_direction() {
    let mut chain = chain_of(&["a", "b"]);
    assert!(chain.add_route("a", "b", RoutingAlgorithm::Direct));
    assert!(chain.add_route("b", "a", RoutingAlgorithm::Direct));
    assert!(!chain.add_route("a", "b", RoutingAlgorithm::OnChange));
    assert!(!chain.add_route("c", "a", RoutingAlgorithm::Direct));
    assert!(chain.add_route("a", "a", RoutingAlgorithm::Direct));
    assert_eq!(chain.stats().routes_active, 3);
}

#[test]
fn signal_goes_to_every_room_that_a_route_leads_to() {
    let mut chain = chain_of(&["a", "b", "c", "d"]);
    chain.add_route("a", "b", RoutingAlgorithm::Direct);
    chain.add_route("c", "d", RoutingAlgorithm::Direct);
    chain.add_route("a", "c", RoutingAlgorithm::Buffered);
    chain.send(tick("a", &[9]), nothing).unwrap();
    let received = chain.receive("b");
    assert_eq!(received.len(), 1);
    // The signal arrives as it was sent, whatever room it names as its target.
    assert_eq!(received[0].source, "a");
    assert_eq!(received[0].target, "anywhere");
    assert_eq!(received[0].timestamp, 7);
    assert_eq!(received[0].id, 1);
    assert_eq!(payloads(chain.receive("c")), vec![vec![9]]);
    assert!(chain.receive("d").is_empty());
    assert!(chain.receive("a").is_empty());
}

#[test]
fn first_in_is_first_out() {
    let mut chain = chain_of(&["a", "b"]);
    chain.add_route("a", "b", RoutingAlgorithm::Buffered);
    for n in 0..4u8 {
        chain.send(tick("a", &[n]), nothing).unwrap();
    }
    assert_eq!(payloads(chain.receive("b")), vec![vec![0], vec![1], vec![2], vec![3]]);
    assert!(chain.receive("b").is_empty());
    assert_eq!(chain.stats().signals_received, 4);
}

#[test]
fn every_route_is_counted_once() {
    let mut chain = chain_of(&["a", "b", "c", "d"]).with_deadband(DeadbandConfig {
        tolerance: 0.5f64.to_bits(),
        use_embedding: false,
    });
    chain.add_route("a", "b", RoutingAlgorithm::Direct);
    chain.add_route("a", "c", RoutingAlgorithm::Correlated { threshold: 6 });
    chain.add_route("a", "d", RoutingAlgorithm::OnChange);
    chain.add_route("b", "c", RoutingAlgorithm::Direct);
    chain.send(tick("a", &[1, 2, 3, 4]), nothing).unwrap();
    assert_eq!(chain.stats().signals_sent, 2);
    assert_eq!(chain.stats().signals_dropped, 1);
    assert_eq!(chain.stats().deadband_suppressions, 0);
    // A quarter of the payload differs: the routes that delivered the first one suppress this one.
    chain.send(tick("a", &[1, 2, 3, 5]), nothing).unwrap();
    assert_eq!(chain.stats().signals_sent, 2);
    assert_eq!(chain.stats().signals_dropped, 2);
    assert_eq!(chain.stats().deadband_suppressions, 2);
}

#[test]
fn what_is_sent_is_received_or_waits() {
    let mut chain = chain_of(&["a", "b", "c"]);
    chain.add_route("a", "b", RoutingAlgorithm::Direct);
    chain.send(tick("a", &[1]), nothing).unwrap();
    chain.broadcast(tick("b", &[2]));
    assert_eq!(chain.stats().signals_sent, 3);
    let mut received = chain.receive("b").len();
    assert_eq!(chain.stats().signals_received, received as u64);
    received += chain.receive("a").len() + chain.receive("c").len();
    assert_eq!(received, 3);
    assert_eq!(chain.stats().signals_received, chain.stats().signals_sent);
}

#[test]
fn refused_signals() {
    let mut chain = chain_of(&["a", "b"]);
    chain.add_route("a", "b", RoutingAlgorithm::Direct);
    assert_eq!(chain.send(tick("x", &[1]), nothing), Err("source room not registered"));
    assert_eq!(chain.stats().signals_dropped, 0);
    assert_eq!(chain.send(tick("b", &[1]), nothing), Err("no matching route"));
    assert_eq!(chain.stats().signals_dropped, 1);
    assert!(chain.receive("a").is_empty());
    assert!(chain.receive("b").is_empty());
}

#[test]
fn sampled_route_at_given_times() {
    let mut chain = chain_of(&["a", "b"]);
    chain.add_route("a", "b", RoutingAlgorithm::Sampled { interval_ms: 100 });
    let mut delivered: Vec<bool> = Vec::new();
    for now in [99, 100, 150, 199, 200, 150, 299, 300] {
        chain.send_at(tick("a", &[1]), now, &vec![0]).unwrap();
        delivered.push(chain.receive("b").len() == 1);
    }
    assert_eq!(delivered, vec![false, true, false, false, true, false, false, true]);
}

#[test]
fn sampled_route_without_interval_delivers_always() {
    let mut chain = chain_of(&["a", "b"]);
    chain.add_route("a", "b", RoutingAlgorithm::Sampled { interval_ms: 0 });
    for now in [10, 10, 5] {
        chain.send_at(tick("a", &[1]), now, &vec![0]).unwrap();
    }
    assert_eq!(chain.receive("b").len(), 3);
}

#[test]
fn correlated_route_delivers_from_the_threshold_on() {
    let route = Route::new("a", "b", RoutingAlgorithm::Correlated { threshold: 7 });
    assert!(!route.should_deliver(&tick("a", &[]).with_priority(6), 0));
    assert!(route.should_deliver(&tick("a", &[]).with_priority(7), 0));
    assert!(route.should_deliver(&tick("a", &[]).with_priority(255), 0));
}

#[test]
fn on_change_route_compares_with_the_last_delivery() {
    let mut route = Route::new("a", "b", RoutingAlgorithm::OnChange);
    assert!(route.should_deliver(&tick("a", &[]), 0));
    route.record(&tick("a", &[]), 12);
    assert_eq!(route.last_payload, Some(vec![]));
    assert_eq!(route.last_sent, 12);
    assert!(!route.should_deliver(&tick("a", &[]), 0));
    assert!(route.should_deliver(&tick("a", &[0]), 0));
    let copy = route.clone();
    assert_eq!((copy.from, copy.to, copy.last_sent), ("a".to_string(), "b".to_string(), 12));
}

#[test]
fn on_change_route_delivers_an_earlier_payload_again() {
    let mut chain = chain_of(&["a", "b"]);
    chain.add_route("a", "b", RoutingAlgorithm::OnChange);
    for n in [1u8, 1, 2, 1, 1] {
        chain.send(tick("a", &[n]), nothing).unwrap();
    }
    assert_eq!(payloads(chain.receive("b")), vec![vec![1], vec![2], vec![1]]);
    assert_eq!(chain.stats().signals_dropped, 2);
}

#[test]
fn adaptive_route_delivers_however_many_rooms_there_are() {
    let mut chain = chain_of(&["a", "b", "c", "d", "e", "f", "g", "h", "i"]);
    chain.add_route("a", "b", RoutingAlgorithm::Adaptive);
    chain.send(tick("a", &[1]), nothing).unwrap();
    assert_eq!(chain.receive("b").len(), 1);
    assert!(chain.register_room("j"));
    assert_eq!(chain.stats().rooms_registered, 10);
    assert_eq!(chain.send(tick("a", &[1]), nothing), Ok(()));
    assert_eq!(chain.receive("b").len(), 1);
    assert_eq!(chain.stats().signals_sent, 2);
    assert_eq!(chain.stats().signals_dropped, 0);
}

#[test]
fn deadband_is_kept_per_route() {
    let mut chain = chain_of(&["a", "b", "c"]).with_deadband(DeadbandConfig {
        tolerance: 1.0f64.to_bits(),
        use_embedding: false,
    });
    chain.add_route("a", "b", RoutingAlgorithm::Direct);
    chain.send(tick("a", &[1, 1]), nothing).unwrap();
    chain.add_route("a", "c", RoutingAlgorithm::Direct);
    chain.send(tick("a", &[1, 2]), nothing).unwrap();
    assert_eq!(payloads(chain.receive("b")), vec![vec![1, 1]]);
    assert_eq!(payloads(chain.receive("c")), vec![vec![1, 2]]);
    // Everything differs from what was delivered last: a difference of one is not below one.
    chain.send(tick("a", &[2, 3]), nothing).unwrap();
    assert_eq!(payloads(chain.receive("b")), vec![vec![2, 3]]);
    assert_eq!(payloads(chain.receive("c")), vec![vec![2, 3]]);
    assert_eq!(chain.stats().deadband_suppressions, 1);
}

#[test]
fn embedding_deadband_asks_for_the_distance() {
    let mut chain = chain_of(&["a", "b"]).with_deadband(DeadbandConfig {
        tolerance: 0.25f64.to_bits(),
        use_embedding: true,
    });
    chain.add_route("a", "b", RoutingAlgorithm::Direct);
    let first = tick("a", &[1]).with_embedding(vec![10]);
    chain.send(first, nothing).unwrap();
    let by_first = |p: &Vec<u64>, q: &Vec<u64>| {
        assert_eq!(*p, vec![10]);
        (q[0] as f64 / 100.0).to_bits()
    };
    chain.send(tick("a", &[2]).with_embedding(vec![24]), by_first).unwrap();
    assert_eq!(chain.stats().deadband_suppressions, 1);
    chain.send(tick("a", &[3]).with_embedding(vec![25]), by_first).unwrap();
    assert_eq!(payloads(chain.receive("b")), vec![vec![1], vec![3]]);
}

#[test]
fn broadcast_addresses_each_room() {
    let mut chain = chain_of(&["hub", "x", "y"]);
    assert_eq!(chain.broadcast(tick("hub", &[4])), 2);
    let x = chain.receive("x");
    assert_eq!((x.len(), x[0].target.as_str(), x[0].source.as_str()), (1, "x", "hub"));
    assert_eq!(chain.receive("y")[0].target, "y");
    assert!(chain.receive("hub").is_empty());
    // A source that is no room reaches all of them.
    assert_eq!(chain.broadcast(tick("outside", &[5])), 3);
    assert_eq!(chain.stats().signals_sent, 5);
}

#[test]
fn broadcast_leaves_routes_alone() {
    let mut chain = chain_of(&["a", "b", "c"]).with_deadband(DeadbandConfig {
        tolerance: 0.5f64.to_bits(),
        use_embedding: false,
    });
    chain.add_route("a", "b", RoutingAlgorithm::OnChange);
    chain.add_route("a", "c", RoutingAlgorithm::Sampled { interval_ms: 100 });
    let first = tick("a", &[1, 2]);
    chain.send_at(first, 1000, &vec![0, 0]).unwrap();
    let before = *chain.stats();
    assert_eq!(chain.broadcast(tick("a", &[8, 9])), 2);
    let after = *chain.stats();
    assert_eq!(after.signals_sent, before.signals_sent + 2);
    assert_eq!(after.signals_received, before.signals_received);
    assert_eq!(after.signals_dropped, before.signals_dropped);
    assert_eq!(after.deadband_suppressions, before.deadband_suppressions);
    assert_eq!(after.rooms_registered, before.rooms_registered);
    assert_eq!(after.routes_active, before.routes_active);
    // The routes still compare with what was sent, not with what was broadcast.
    chain.send_at(tick("a", &[1, 2]), 1200, &vec![0, 0]).unwrap();
    assert_eq!(chain.stats().deadband_suppressions, 2);
    chain.send_at(tick("a", &[8, 9]), 1050, &vec![0, 0]).unwrap();
    assert_eq!(payloads(chain.receive("b")), vec![vec![1, 2], vec![8, 9], vec![8, 9]]);
    assert_eq!(payloads(chain.receive("c")), vec![vec![1, 2], vec![8, 9]]);
}

#[test]
fn sampled_deliveries_are_an_interval_apart() {
    let mut chain = chain_of(&["a", "b"]);
    chain.add_route("a", "b", RoutingAlgorithm::Sampled { interval_ms: 70 });
    let mut deliveries: Vec<u64> = Vec::new();
    let mut now = 500;
    for n in 0..200u64 {
        now += n * n % 23;
        match n % 7 {
            3 => {
                chain.broadcast(tick("b", &[1]));
            }
            5 => {
                chain.register_room(&format!("room {n}"));
                chain.add_route("a", &format!("room {n}"), RoutingAlgorithm::Direct);
            }
            _ => {
                let distances = vec![0; chain.stats().routes_active];
                chain.send_at(tick("a", &[2]), now, &distances).unwrap();
                if !chain.receive("b").is_empty() {
                    deliveries.push(now);
                }
            }
        }
    }
    assert!(deliveries.len() > 10);
    for pair in deliveries.windows(2) {
        assert!(pair[1] - pair[0] >= 70);
    }
}

#[test]
fn receive_gives_what_came_since_the_last_time() {
    let mut chain = chain_of(&["a", "b", "c"]);
    chain.add_route("a", "b", RoutingAlgorithm::Direct);
    chain.send(tick("a", &[1]), nothing).unwrap();
    chain.broadcast(tick("c", &[2]));
    chain.receive("a");
    chain.send(tick("a", &[3]), nothing).unwrap();
    assert_eq!(payloads(chain.receive("b")), vec![vec![1], vec![2], vec![3]]);
    chain.send(tick("a", &[4]), nothing).unwrap();
    assert_eq!(payloads(chain.receive("b")), vec![vec![4]]);
}

#[test]
fn counters_of_a_young_chain_have_room() {
    let mut chain = chain_of(&["a", "b"]);
    chain.add_route("a", "b", RoutingAlgorithm::Direct);
    for source in ["a", "b", "nowhere"] {
        assert!(chain.can_send(source));
        assert!(chain.can_broadcast(source));
    }
}

#[test]
fn path_is_the_shortest_and_then_the_first() {
    let mut chain = chain_of(&["a", "b", "c", "d", "e"]);
    chain.add_route("a", "b", RoutingAlgorithm::Direct);
    chain.add_route("b", "c", RoutingAlgorithm::Direct);
    chain.add_route("c", "e", RoutingAlgorithm::Direct);
    chain.add_route("a", "d", RoutingAlgorithm::Direct);
    chain.add_route("d", "e", RoutingAlgorithm::Direct);
    chain.add_route("b", "e", RoutingAlgorithm::Direct);
    chain.add_route("e", "a", RoutingAlgorithm::Direct);
    assert_eq!(chain.find_path("a", "e").unwrap(), vec!["a", "b", "e"]);
    assert_eq!(chain.find_path("d", "c").unwrap(), vec!["d", "e", "a", "b", "c"]);
    assert!(chain.find_path("a", "z").is_none());
}

#[test]
fn path_to_itself_is_the_room() {
    let mut chain = chain_of(&["a", "b"]);
    chain.add_route("a", "a", RoutingAlgorithm::Direct);
    assert_eq!(chain.find_path("a", "a").unwrap(), vec!["a"]);
    assert_eq!(chain.find_path("nowhere", "nowhere").unwrap(), vec!["nowhere"]);
    assert!(chain.find_path("a", "b").is_none());
}

#[test]
fn storm_needs_the_threshold() {
    let mut chain = chain_of(&["a", "b"]);
    chain.add_route("a", "b", RoutingAlgorithm::Direct);
    for n in [1u8, 2, 1, 3, 1, 2] {
        chain.send(tick("a", &[n]), nothing).unwrap();
    }
    assert_eq!(chain.detect_storm(3), Some(("b", 3)));
    assert_eq!(chain.detect_storm(0), Some(("b", 3)));
    assert_eq!(chain.detect_storm(4), None);
    chain.receive("b");
    assert_eq!(chain.detect_storm(0), None);
}

#[test]
fn ids_count_up() {
    let mut ids = IdCounter::new();
    let first = Signal::new("a", "b", SignalType::Tick, &mut ids);
    let second = Signal::new("a", "b", SignalType::Tick, &mut ids);
    assert_eq!((first.id, second.id, ids.next_id()), (1, 2, 3));
    assert_eq!(ids.last, 3);
}

#[test]
fn new_signal_is_blank() {
    // The clock is read: the year 2020 lies behind us.
    let s = Signal::new("from", "to", SignalType::GcReport, &mut IdCounter::new());
    assert_eq!((s.source.as_str(), s.target.as_str()), ("from", "to"));
    assert_eq!(s.signal_type, SignalType::GcReport);
    assert!(s.payload.is_empty() && s.embedding.is_empty());
    assert_eq!(s.priority, 5);
    assert!(s.timestamp > 1_577_836_800_000);
    let t = s.with_payload(vec![1]).with_embedding(vec![2]).with_priority(3);
    assert_eq!((t.payload, t.embedding, t.priority, t.id), (vec![1], vec![2], 3, 1));
}
