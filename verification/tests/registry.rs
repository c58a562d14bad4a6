use echanger::event::Event;
use echanger::registry::{close_requests, Delivery, Ids, Msg, Registry, Wake};
use std::sync::mpsc::{channel, Receiver};

fn event(id: &str, repeat: u32, name: &str, device: &str) -> Event {
    Event {
        id: String::from(id),
        repeat,
        name: String::from(name),
        device: String::from(device),
    }
}

fn subscribe(registry: &mut Registry, id: u32) -> Receiver<String> {
    let (tx, rx) = channel();
    registry.apply(Msg::Init(id, tx));
    rx
}

fn sorted(mut report: Vec<Delivery>) -> Vec<Delivery> {
    report.sort_by_key(|d| d.id);
    report
}

fn closed_ids(requests: &[Msg]) -> Vec<u32> {
    let mut ids = Vec::new();
    for msg in requests {
        match msg {
            Msg::Close(id) => ids.push(*id),
            Msg::Init(id, _) => panic!("unexpected Init({})", id),
        }
    }
    ids
}

#[test]
fn severed_subscriber_is_closed_and_the_others_are_served() {
    let mut registry = Registry::new();
    let first = subscribe(&mut registry, 1);
    let second = subscribe(&mut registry, 2);
    let third = subscribe(&mut registry, 3);
    assert_eq!(registry.len(), 3);

    let report = registry.broadcast(&event("a", 0, "K", "D"));
    assert_eq!(
        sorted(report.clone()),
        vec![
            Delivery { id: 1, delivered: true },
            Delivery { id: 2, delivered: true },
            Delivery { id: 3, delivered: true }
        ]
    );
    assert!(close_requests(&report).is_empty());
    assert_eq!(first.try_recv(), Ok(String::from("a 0 K D")));
    assert_eq!(second.try_recv(), Ok(String::from("a 0 K D")));
    assert_eq!(third.try_recv(), Ok(String::from("a 0 K D")));

    drop(second);
    let report = registry.broadcast(&event("b", 0, "L_HOLD", "D"));
    assert_eq!(
        sorted(report.clone()),
        vec![
            Delivery { id: 1, delivered: true },
            Delivery { id: 2, delivered: false },
            Delivery { id: 3, delivered: true }
        ]
    );
    assert_eq!(first.try_recv(), Ok(String::from("b 0 L_HOLD D")));
    assert_eq!(third.try_recv(), Ok(String::from("b 0 L_HOLD D")));
    assert!(first.try_recv().is_err());
    assert!(third.try_recv().is_err());

    let requests = close_requests(&report);
    assert_eq!(closed_ids(&requests), vec![2]);
    for msg in requests {
        registry.apply(msg);
    }
    assert_eq!(registry.len(), 2);
    assert!(registry.contains(1));
    assert!(!registry.contains(2));
    assert!(registry.contains(3));

    let report = registry.broadcast(&event("c", 0, "M", "D"));
    assert_eq!(
        sorted(report),
        vec![
            Delivery { id: 1, delivered: true },
            Delivery { id: 3, delivered: true }
        ]
    );
}

#[test]
fn empty_registry_reaches_nobody() {
    let registry = Registry::new();
    assert_eq!(registry.len(), 0);
    assert!(!registry.contains(1));
    assert!(registry.broadcast(&event("a", 0, "K", "D")).is_empty());
}

#[test]
fn queue_keeps_the_order_of_events() {
    let mut registry = Registry::new();
    let rx = subscribe(&mut registry, 9);
    registry.broadcast(&event("a", 0, "K", "D"));
    registry.broadcast(&event("a", 0, "K_HOLD", "D"));
    registry.broadcast(&event("b", 0x1f, "L", "D"));
    assert_eq!(rx.try_recv(), Ok(String::from("a 0 K D")));
    assert_eq!(rx.try_recv(), Ok(String::from("a 0 K_HOLD D")));
    assert_eq!(rx.try_recv(), Ok(String::from("b 1f L D")));
    assert!(rx.try_recv().is_err());
}

#[test]
fn init_with_a_known_id_replaces_the_queue() {
    let mut registry = Registry::new();
    let old = subscribe(&mut registry, 4);
    let new = subscribe(&mut registry, 4);
    assert_eq!(registry.len(), 1);
    let report = registry.broadcast(&event("a", 0, "K", "D"));
    assert_eq!(report, vec![Delivery { id: 4, delivered: true }]);
    assert!(old.try_recv().is_err());
    assert_eq!(new.try_recv(), Ok(String::from("a 0 K D")));
}

#[test]
fn close_of_a_stranger_changes_nothing() {
    let mut registry = Registry::new();
    let rx = subscribe(&mut registry, 1);
    registry.apply(Msg::Close(2));
    assert_eq!(registry.len(), 1);
    assert!(registry.contains(1));
    registry.apply(Msg::Close(1));
    assert_eq!(registry.len(), 0);
    assert!(!registry.contains(1));
    registry.apply(Msg::Close(1));
    assert_eq!(registry.len(), 0);
    assert!(rx.try_recv().is_err());
}

#[test]
fn close_requests_name_the_failures_in_order() {
    let report = vec![
        Delivery { id: 5, delivered: false },
        Delivery { id: 1, delivered: true },
        Delivery { id: 9, delivered: false },
        Delivery { id: 2, delivered: false },
        Delivery { id: 7, delivered: true },
    ];
    assert_eq!(closed_ids(&close_requests(&report)), vec![5, 9, 2]);
    assert!(close_requests(&Vec::new()).is_empty());
}

#[test]
fn ids_start_at_one_and_grow() {
    let mut ids = Ids::new();
    assert_eq!(ids.next_id(), Some(1));
    assert_eq!(ids.next_id(), Some(2));
    assert_eq!(ids.next_id(), Some(3));
    let mut last = 3;
    for _ in 0..1000 {
        let id = ids.next_id().unwrap();
        assert!(id > last);
        last = id;
    }
}

#[test]
fn turn_hands_an_event_out_and_asks_to_close_the_severed() {
    let mut registry = Registry::new();
    let first = subscribe(&mut registry, 1);
    let second = subscribe(&mut registry, 2);
    let third = subscribe(&mut registry, 3);
    drop(second);

    let turn = registry.turn(Wake::Event(event("a", 0, "K", "D")));
    assert!(turn.running);
    assert_eq!(
        sorted(turn.report),
        vec![
            Delivery { id: 1, delivered: true },
            Delivery { id: 2, delivered: false },
            Delivery { id: 3, delivered: true }
        ]
    );
    assert_eq!(closed_ids(&turn.requests), vec![2]);
    assert_eq!(registry.len(), 3);
    assert_eq!(first.try_recv(), Ok(String::from("a 0 K D")));
    assert_eq!(third.try_recv(), Ok(String::from("a 0 K D")));

    for request in turn.requests {
        let turn = registry.turn(Wake::Change(request));
        assert!(turn.running);
        assert!(turn.report.is_empty());
        assert!(turn.requests.is_empty());
    }
    assert_eq!(registry.len(), 2);
    assert!(!registry.contains(2));

    let turn = registry.turn(Wake::Event(event("a", 0, "K_HOLD", "D")));
    assert_eq!(
        sorted(turn.report),
        vec![
            Delivery { id: 1, delivered: true },
            Delivery { id: 3, delivered: true }
        ]
    );
    assert!(turn.requests.is_empty());
    assert_eq!(first.try_recv(), Ok(String::from("a 0 K_HOLD D")));
    assert_eq!(third.try_recv(), Ok(String::from("a 0 K_HOLD D")));
}

#[test]
fn turn_carries_a_change_out() {
    let mut registry = Registry::new();
    let (tx, rx) = channel();
    let turn = registry.turn(Wake::Change(Msg::Init(7, tx)));
    assert!(turn.running);
    assert!(turn.report.is_empty());
    assert!(turn.requests.is_empty());
    assert!(registry.contains(7));
    registry.turn(Wake::Event(event("a", 1, "K", "D")));
    assert_eq!(rx.try_recv(), Ok(String::from("a 1 K D")));
    let turn = registry.turn(Wake::Change(Msg::Close(7)));
    assert!(turn.running);
    assert_eq!(registry.len(), 0);
}

#[test]
fn turn_ends_the_loop_on_stop_and_on_a_lost_channel() {
    let mut registry = Registry::new();
    let rx = subscribe(&mut registry, 1);
    for wake in [Wake::Stop, Wake::Closed] {
        let turn = registry.turn(wake);
        assert!(!turn.running);
        assert!(turn.report.is_empty());
        assert!(turn.requests.is_empty());
        assert_eq!(registry.len(), 1);
        assert!(registry.contains(1));
    }
    assert!(rx.try_recv().is_err());
}
