use chat_relay::identity::ClientIdentity;
use chat_relay::registry::ConnectionRegistry;

fn id(address: &str) -> ClientIdentity {
    ClientIdentity::new(address)
}

fn texts(identities: &[ClientIdentity]) -> Vec<String> {
    identities.iter().map(|i| i.as_str().to_string()).collect()
}

#[test]
fn identity_keeps_its_address() {
    let a = id("10.16.4.22:40000");
    assert_eq!(a.as_str(), "10.16.4.22:40000");
    assert_eq!(a.clone(), a);
    assert_ne!(a, id("10.16.4.22:40001"));
    assert_eq!(a, id("10.16.4.22:40000"));
}

#[test]
fn registry_starts_empty() {
    let registry: ConnectionRegistry<u32> = ConnectionRegistry::new();
    assert_eq!(registry.len(), 0);
    assert!(registry.is_empty());
    assert!(registry.identities().is_empty());
    assert!(!registry.contains(&id("a:1")));
    assert!(registry.handle(&id("a:1")).is_none());
}

#[test]
fn register_inserts_the_handle() {
    let mut registry = ConnectionRegistry::new();
    assert_eq!(registry.register(id("a:1"), 7u32), None);
    assert_eq!(registry.len(), 1);
    assert!(!registry.is_empty());
    assert!(registry.contains(&id("a:1")));
    assert_eq!(registry.handle(&id("a:1")), Some(&7));
    assert!(!registry.contains(&id("a:2")));
}

#[test]
fn register_replaces_a_handle_under_the_same_identity() {
    let mut registry = ConnectionRegistry::new();
    registry.register(id("a:1"), 1u32);
    registry.register(id("b:2"), 2u32);
    assert_eq!(registry.register(id("a:1"), 3u32), Some(1));
    assert_eq!(registry.len(), 2);
    assert_eq!(registry.handle(&id("a:1")), Some(&3));
    assert_eq!(registry.handle(&id("b:2")), Some(&2));
    assert_eq!(texts(&registry.identities()), vec!["a:1", "b:2"]);
}

#[test]
fn registry_holds_every_registered_identity_once() {
    let mut registry = ConnectionRegistry::new();
    let mut expected = Vec::new();
    for n in 0..100u32 {
        let address = format!("10.0.0.{}:{}", n % 7, 50000 + n);
        assert_eq!(registry.register(id(&address), n), None);
        expected.push(address);
    }
    assert_eq!(registry.len(), 100);
    assert_eq!(texts(&registry.identities()), expected);
    for (n, address) in expected.iter().enumerate() {
        assert_eq!(registry.handle(&id(address)), Some(&(n as u32)));
    }
}

#[test]
fn registry_key_set_does_not_depend_on_the_order_of_registration() {
    let addresses = ["c:3", "a:1", "d:4", "b:2"];
    let mut forward = ConnectionRegistry::new();
    for a in addresses.iter() {
        forward.register(id(a), 0u8);
    }
    let mut backward = ConnectionRegistry::new();
    for a in addresses.iter().rev() {
        backward.register(id(a), 0u8);
    }
    let mut one = texts(&forward.identities());
    let mut other = texts(&backward.identities());
    one.sort();
    other.sort();
    assert_eq!(one, vec!["a:1", "b:2", "c:3", "d:4"]);
    assert_eq!(one, other);
}

#[test]
fn deregister_removes_the_entry_and_hands_the_handle_back() {
    let mut registry = ConnectionRegistry::new();
    registry.register(id("a:1"), 1u32);
    registry.register(id("b:2"), 2u32);
    registry.register(id("c:3"), 3u32);
    assert_eq!(registry.deregister(&id("b:2")), Some(2));
    assert_eq!(registry.len(), 2);
    assert!(!registry.contains(&id("b:2")));
    assert_eq!(texts(&registry.identities()), vec!["a:1", "c:3"]);
    assert_eq!(registry.handle(&id("a:1")), Some(&1));
    assert_eq!(registry.handle(&id("c:3")), Some(&3));
}

#[test]
fn deregister_of_an_absent_identity_changes_nothing() {
    let mut registry = ConnectionRegistry::new();
    assert_eq!(registry.deregister(&id("a:1")), None);
    assert!(registry.is_empty());
    registry.register(id("a:1"), 1u32);
    assert_eq!(registry.deregister(&id("z:9")), None);
    assert_eq!(registry.len(), 1);
    assert_eq!(registry.handle(&id("a:1")), Some(&1));
}

#[test]
fn deregister_twice_is_the_same_as_once() {
    let mut once = ConnectionRegistry::new();
    let mut twice = ConnectionRegistry::new();
    for registry in [&mut once, &mut twice] {
        registry.register(id("a:1"), 1u32);
        registry.register(id("b:2"), 2u32);
        registry.register(id("c:3"), 3u32);
    }
    assert_eq!(once.deregister(&id("b:2")), Some(2));
    assert_eq!(twice.deregister(&id("b:2")), Some(2));
    assert_eq!(twice.deregister(&id("b:2")), None);
    assert_eq!(texts(&once.identities()), texts(&twice.identities()));
    assert_eq!(once.len(), twice.len());
    for address in ["a:1", "b:2", "c:3"] {
        assert_eq!(once.handle(&id(address)), twice.handle(&id(address)));
    }
}

#[test]
fn identity_can_be_registered_again_after_it_was_removed() {
    let mut registry = ConnectionRegistry::new();
    registry.register(id("a:1"), 1u32);
    registry.register(id("b:2"), 2u32);
    registry.deregister(&id("a:1"));
    assert_eq!(registry.register(id("a:1"), 9u32), None);
    assert_eq!(texts(&registry.identities()), vec!["b:2", "a:1"]);
    assert_eq!(registry.handle(&id("a:1")), Some(&9));
}

#[test]
fn handle_mut_writes_through_to_the_registry() {
    let mut registry: ConnectionRegistry<Vec<u8>> = ConnectionRegistry::new();
    registry.register(id("a:1"), Vec::new());
    registry.register(id("b:2"), Vec::new());
    registry.handle_mut(&id("b:2")).unwrap().extend_from_slice(b"hi\n");
    assert_eq!(registry.handle(&id("b:2")), Some(&b"hi\n".to_vec()));
    assert_eq!(registry.handle(&id("a:1")), Some(&Vec::new()));
    assert!(registry.handle_mut(&id("c:3")).is_none());
    assert_eq!(registry.len(), 2);
}

#[test]
fn recipients_are_all_but_the_excluded_identity() {
    let mut registry = ConnectionRegistry::new();
    for a in ["a:1", "b:2", "c:3", "d:4"] {
        registry.register(id(a), 0u8);
    }
    assert_eq!(texts(&registry.recipients(&id("a:1"))), vec!["b:2", "c:3", "d:4"]);
    assert_eq!(texts(&registry.recipients(&id("c:3"))), vec!["a:1", "b:2", "d:4"]);
    assert_eq!(texts(&registry.recipients(&id("d:4"))), vec!["a:1", "b:2", "c:3"]);
}

#[test]
fn recipients_of_an_unregistered_identity_are_everyone() {
    let mut registry = ConnectionRegistry::new();
    for a in ["a:1", "b:2"] {
        registry.register(id(a), 0u8);
    }
    assert_eq!(texts(&registry.recipients(&id("z:9"))), vec!["a:1", "b:2"]);
    let empty: ConnectionRegistry<u8> = ConnectionRegistry::new();
    assert!(empty.recipients(&id("z:9")).is_empty());
}

#[test]
fn for_each_except_visits_every_entry_but_the_excluded_one() {
    let mut registry: ConnectionRegistry<Vec<String>> = ConnectionRegistry::new();
    for a in ["a:1", "b:2", "c:3"] {
        registry.register(id(a), Vec::new());
    }
    registry.for_each_except(&id("b:2"), |identity: &ClientIdentity, inbox: &mut Vec<String>| {
        inbox.push(format!("to {}", identity.as_str()));
    });
    assert_eq!(registry.handle(&id("a:1")), Some(&vec!["to a:1".to_string()]));
    assert_eq!(registry.handle(&id("b:2")), Some(&Vec::new()));
    assert_eq!(registry.handle(&id("c:3")), Some(&vec!["to c:3".to_string()]));
    assert_eq!(texts(&registry.identities()), vec!["a:1", "b:2", "c:3"]);
}

#[test]
fn for_each_except_visits_in_registration_order() {
    let mut registry: ConnectionRegistry<u8> = ConnectionRegistry::new();
    for a in ["c:3", "a:1", "b:2"] {
        registry.register(id(a), 0);
    }
    let seen = std::cell::RefCell::new(Vec::new());
    registry.for_each_except(&id("z:9"), |identity: &ClientIdentity, handle: &mut u8| {
        seen.borrow_mut().push(identity.as_str().to_string());
        *handle += 1;
    });
    assert_eq!(seen.into_inner(), vec!["c:3", "a:1", "b:2"]);
    for a in ["c:3", "a:1", "b:2"] {
        assert_eq!(registry.handle(&id(a)), Some(&1));
    }
}

#[test]
fn for_each_except_on_a_sole_client_visits_nobody() {
    let mut registry: ConnectionRegistry<u8> = ConnectionRegistry::new();
    registry.register(id("a:1"), 0);
    let calls = std::cell::Cell::new(0u32);
    registry.for_each_except(&id("a:1"), |_: &ClientIdentity, _: &mut u8| {
        calls.set(calls.get() + 1);
    });
    assert_eq!(calls.get(), 0);
    assert_eq!(registry.handle(&id("a:1")), Some(&0));
}
