use chat_relay::broadcast::{broadcast_message, FanOut};
use chat_relay::identity::ClientIdentity;
use chat_relay::registry::ConnectionRegistry;

fn id(address: &str) -> ClientIdentity {
    ClientIdentity::new(address)
}

fn texts(identities: &[ClientIdentity]) -> Vec<String> {
    identities.iter().map(|i| i.as_str().to_string()).collect()
}

fn registry_of(addresses: &[&str]) -> ConnectionRegistry<Vec<String>> {
    let mut registry = ConnectionRegistry::new();
    for a in addresses {
        registry.register(id(a), Vec::new());
    }
    registry
}

/// Writes the line to every target's inbox, but for those named in `broken`,
/// whose write fails.
fn carry_out(fan_out: &mut FanOut, registry: &mut ConnectionRegistry<Vec<String>>, broken: &[&str]) {
    while let Some(target) = fan_out.next_target().cloned() {
        let delivered = match registry.handle_mut(&target) {
            Some(inbox) if !broken.contains(&target.as_str()) => {
                inbox.push(fan_out.line().to_string());
                true
            }
            _ => false,
        };
        fan_out.record(delivered);
    }
}

#[test]
fn broadcast_plans_the_line_and_the_other_clients() {
    let registry = registry_of(&["a:1", "b:2", "c:3"]);
    let fan_out = broadcast_message(&id("b:2"), "b:2", "hello", &registry);
    assert_eq!(fan_out.line(), "b:2: hello\n");
    assert_eq!(fan_out.recipient_count(), 2);
    assert!(!fan_out.is_done());
    assert_eq!(fan_out.next_target(), Some(&id("a:1")));
    assert!(fan_out.delivered().is_empty());
    assert!(fan_out.failed().is_empty());
}

#[test]
fn broadcast_reaches_exactly_the_other_clients() {
    for others in 0..6usize {
        let mut addresses = vec!["sender:1".to_string()];
        for k in 0..others {
            addresses.push(format!("peer:{k}"));
        }
        let names: Vec<&str> = addresses.iter().map(|a| a.as_str()).collect();
        let mut registry = registry_of(&names);
        let mut fan_out = broadcast_message(&id("sender:1"), "sender:1", "hi", &registry);
        assert_eq!(fan_out.recipient_count(), others);
        carry_out(&mut fan_out, &mut registry, &[]);
        assert!(fan_out.is_done());
        assert_eq!(texts(&fan_out.delivered()), addresses[1..].to_vec());
        assert_eq!(registry.handle(&id("sender:1")), Some(&Vec::new()));
        for peer in &addresses[1..] {
            assert_eq!(registry.handle(&id(peer)), Some(&vec!["sender:1: hi\n".to_string()]));
        }
    }
}

#[test]
fn broadcast_from_the_sole_client_has_no_recipient() {
    let mut registry = registry_of(&["a:1"]);
    let mut fan_out = broadcast_message(&id("a:1"), "a:1", "anyone?", &registry);
    assert_eq!(fan_out.recipient_count(), 0);
    assert!(fan_out.is_done());
    assert_eq!(fan_out.next_target(), None);
    carry_out(&mut fan_out, &mut registry, &[]);
    assert!(fan_out.delivered().is_empty());
    assert!(fan_out.failed().is_empty());
    assert_eq!(registry.handle(&id("a:1")), Some(&Vec::new()));
}

#[test]
fn broadcast_into_an_empty_registry_has_no_recipient() {
    let registry: ConnectionRegistry<Vec<String>> = ConnectionRegistry::new();
    let fan_out = broadcast_message(&id("a:1"), "[SYSTEM]", "a:1 ayrıldı.", &registry);
    assert_eq!(fan_out.line(), "[SYSTEM]: a:1 ayrıldı.\n");
    assert_eq!(fan_out.recipient_count(), 0);
    assert!(fan_out.is_done());
}

#[test]
fn broadcast_for_a_client_that_has_left_reaches_everyone() {
    let mut registry = registry_of(&["a:1", "b:2", "c:3"]);
    registry.deregister(&id("a:1"));
    let mut fan_out = broadcast_message(&id("a:1"), "[SYSTEM]", "a:1 ayrıldı.", &registry);
    assert_eq!(fan_out.recipient_count(), 2);
    carry_out(&mut fan_out, &mut registry, &[]);
    assert_eq!(texts(&fan_out.delivered()), vec!["b:2", "c:3"]);
}

#[test]
fn failed_write_does_not_stop_the_fan_out() {
    let mut registry = registry_of(&["a:1", "b:2", "c:3", "d:4", "e:5"]);
    let mut fan_out = broadcast_message(&id("a:1"), "a:1", "hi", &registry);
    carry_out(&mut fan_out, &mut registry, &["c:3"]);
    assert!(fan_out.is_done());
    assert_eq!(texts(&fan_out.delivered()), vec!["b:2", "d:4", "e:5"]);
    assert_eq!(texts(&fan_out.failed()), vec!["c:3"]);
    for peer in ["b:2", "d:4", "e:5"] {
        assert_eq!(registry.handle(&id(peer)), Some(&vec!["a:1: hi\n".to_string()]));
    }
    assert_eq!(registry.handle(&id("c:3")), Some(&Vec::new()));
}

#[test]
fn failed_write_leaves_the_target_registered() {
    let mut registry = registry_of(&["a:1", "b:2", "c:3"]);
    let mut fan_out = broadcast_message(&id("a:1"), "a:1", "hi", &registry);
    carry_out(&mut fan_out, &mut registry, &["b:2"]);
    assert_eq!(registry.len(), 3);
    assert!(registry.contains(&id("b:2")));
    let mut again = broadcast_message(&id("a:1"), "a:1", "still there?", &registry);
    assert_eq!(again.recipient_count(), 2);
    carry_out(&mut again, &mut registry, &[]);
    assert_eq!(registry.handle(&id("b:2")), Some(&vec!["a:1: still there?\n".to_string()]));
}

#[test]
fn every_write_may_fail_and_the_fan_out_still_ends() {
    let mut registry = registry_of(&["a:1", "b:2", "c:3"]);
    let mut fan_out = broadcast_message(&id("a:1"), "a:1", "hi", &registry);
    carry_out(&mut fan_out, &mut registry, &["b:2", "c:3"]);
    assert!(fan_out.is_done());
    assert!(fan_out.delivered().is_empty());
    assert_eq!(texts(&fan_out.failed()), vec!["b:2", "c:3"]);
}

#[test]
fn record_moves_to_the_next_target_whatever_the_outcome() {
    let registry = registry_of(&["a:1", "b:2", "c:3", "d:4"]);
    let mut fan_out = broadcast_message(&id("d:4"), "d:4", "hi", &registry);
    assert_eq!(fan_out.next_target(), Some(&id("a:1")));
    fan_out.record(false);
    assert_eq!(fan_out.next_target(), Some(&id("b:2")));
    fan_out.record(true);
    assert_eq!(fan_out.next_target(), Some(&id("c:3")));
    assert!(!fan_out.is_done());
    assert_eq!(texts(&fan_out.delivered()), vec!["b:2"]);
    assert_eq!(texts(&fan_out.failed()), vec!["a:1"]);
    fan_out.record(false);
    assert_eq!(fan_out.next_target(), None);
    assert!(fan_out.is_done());
}

#[test]
fn record_after_the_last_target_changes_nothing() {
    let registry = registry_of(&["a:1", "b:2"]);
    let mut fan_out = broadcast_message(&id("a:1"), "a:1", "hi", &registry);
    fan_out.record(true);
    fan_out.record(true);
    fan_out.record(false);
    assert!(fan_out.is_done());
    assert_eq!(texts(&fan_out.delivered()), vec!["b:2"]);
    assert!(fan_out.failed().is_empty());
    assert_eq!(fan_out.recipient_count(), 1);
}
