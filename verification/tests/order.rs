use transport_server::{ConnectionId, Error, Events, Monitor};

#[derive(Clone, Debug)]
struct Fault;

impl std::fmt::Display for Fault {
    fn fmt(&self, f: &mut std::fmt::Formatter<'_>) -> std::fmt::Result {
        f.write_str("fault")
    }
}

impl std::error::Error for Fault {}

impl Error for Fault {}

type Event = Events<Fault>;

fn id(n: u128) -> ConnectionId {
    ConnectionId::from_u128(n)
}

fn full_life() -> Vec<Event> {
    vec![
        Event::Ready,
        Event::Connected(id(1)),
        Event::Received(id(1), b"hello".to_vec()),
        Event::Error(Some(id(1)), String::from("slow")),
        Event::ConnectionError(Some(id(1)), Fault),
        Event::Disconnected(id(1)),
        Event::Shutdown,
    ]
}

#[test]
fn a_full_life_is_well_ordered() {
    assert!(Monitor::check(&full_life()));
}

#[test]
fn no_events_are_well_ordered() {
    assert!(Monitor::check(&Vec::<Event>::new()));
}

#[test]
fn every_beginning_of_a_full_life_is_well_ordered() {
    let all = full_life();
    for n in 0..=all.len() {
        assert!(Monitor::check(&all[..n].to_vec()));
    }
}

#[test]
fn each_connection_has_one_connected_then_traffic_then_one_disconnected() {
    let trace = vec![
        Event::Ready,
        Event::Connected(id(1)),
        Event::Connected(id(2)),
        Event::Received(id(2), vec![1]),
        Event::Received(id(1), vec![2]),
        Event::Disconnected(id(1)),
        Event::Received(id(2), vec![3]),
        Event::Disconnected(id(2)),
    ];
    assert!(Monitor::check(&trace));
    for who in [id(1), id(2)] {
        let story: Vec<&Event> = trace
            .iter()
            .filter(|event| event.connection() == Some(who))
            .collect();
        assert!(matches!(story.first(), Some(Event::Connected(first)) if *first == who));
        assert!(matches!(story.last(), Some(Event::Disconnected(last)) if *last == who));
        for event in &story[1..story.len() - 1] {
            assert!(matches!(event, Event::Received(..)));
        }
    }
    let nobody: Vec<&Event> = trace
        .iter()
        .filter(|event| event.connection() == Some(id(3)))
        .collect();
    assert!(nobody.is_empty());
}

#[test]
fn connected_comes_once_per_identifier() {
    let twice = vec![Event::Ready, Event::Connected(id(1)), Event::Connected(id(1))];
    assert!(!Monitor::check(&twice));
    let again = vec![
        Event::Ready,
        Event::Connected(id(1)),
        Event::Disconnected(id(1)),
        Event::Connected(id(1)),
    ];
    assert!(!Monitor::check(&again));
}

#[test]
fn connected_comes_before_anything_else_on_the_connection() {
    assert!(!Monitor::check(&vec![Event::Ready, Event::Received(id(1), vec![0])]));
    assert!(!Monitor::check(&vec![Event::Ready, Event::Disconnected(id(1))]));
    assert!(!Monitor::check(&vec![
        Event::Ready,
        Event::Error(Some(id(1)), String::from("early")),
    ]));
    assert!(!Monitor::check(&vec![Event::Ready, Event::ConnectionError(Some(id(1)), Fault)]));
}

#[test]
fn nothing_bears_an_identifier_after_its_disconnected() {
    let life = vec![Event::Ready, Event::Connected(id(1)), Event::Disconnected(id(1))];
    assert!(Monitor::check(&life));
    let late: Vec<Event> = vec![
        Event::Received(id(1), vec![9]),
        Event::Error(Some(id(1)), String::from("late")),
        Event::ConnectionError(Some(id(1)), Fault),
        Event::Disconnected(id(1)),
        Event::Connected(id(1)),
    ];
    for event in late {
        let mut trace = life.clone();
        trace.push(event);
        assert!(!Monitor::check(&trace));
    }
    let mut other = life.clone();
    other.push(Event::Connected(id(2)));
    other.push(Event::Received(id(2), vec![9]));
    assert!(Monitor::check(&other));
}

#[test]
fn shutdown_is_the_last_event() {
    let after: Vec<Event> = vec![
        Event::Ready,
        Event::Shutdown,
        Event::Connected(id(1)),
        Event::Error(None, String::from("late")),
        Event::ConnectionError(None, Fault),
        Event::ServerError(Fault),
    ];
    for event in after {
        assert!(!Monitor::check(&vec![Event::Ready, Event::Shutdown, event]));
    }
    assert!(Monitor::check(&vec![Event::Ready, Event::Shutdown]));
    assert!(Monitor::check(&vec![Event::Shutdown]));
}

#[test]
fn shutdown_comes_at_most_once() {
    assert!(!Monitor::check(&vec![Event::Ready, Event::Shutdown, Event::Shutdown]));
    assert!(!Monitor::check(&vec![Event::Shutdown, Event::Shutdown]));
}

#[test]
fn ready_comes_before_every_connection() {
    assert!(!Monitor::check(&vec![Event::Connected(id(1))]));
    assert!(!Monitor::check(&vec![Event::Connected(id(1)), Event::Ready]));
    assert!(!Monitor::check(&vec![Event::Ready, Event::Connected(id(1)), Event::Ready]));
    assert!(!Monitor::check(&vec![
        Event::Ready,
        Event::Connected(id(1)),
        Event::Disconnected(id(1)),
        Event::Ready,
    ]));
    assert!(Monitor::check(&vec![Event::Ready, Event::Connected(id(1))]));
}

#[test]
fn events_without_an_identifier_may_come_before_ready() {
    assert!(Monitor::check(&vec![
        Event::ServerError(Fault),
        Event::Error(None, String::from("bind retried")),
        Event::ConnectionError(None, Fault),
        Event::Ready,
        Event::ServerError(Fault),
        Event::ConnectionError(None, Fault),
    ]));
}

#[test]
fn shutdown_waits_until_every_peer_has_disconnected() {
    assert!(!Monitor::check(&vec![Event::Ready, Event::Connected(id(1)), Event::Shutdown]));
    assert!(!Monitor::check(&vec![
        Event::Ready,
        Event::Connected(id(1)),
        Event::Connected(id(2)),
        Event::Disconnected(id(1)),
        Event::Shutdown,
    ]));
    assert!(Monitor::check(&vec![
        Event::Ready,
        Event::Connected(id(1)),
        Event::Connected(id(2)),
        Event::Disconnected(id(2)),
        Event::Disconnected(id(1)),
        Event::Shutdown,
    ]));
}

#[test]
fn a_finished_run_ends_with_shutdown() {
    assert!(Monitor::check_finished(&full_life()));
    assert!(Monitor::check_finished(&vec![Event::Shutdown]));
    assert!(Monitor::check_finished(&vec![Event::ServerError(Fault), Event::Shutdown]));
    assert!(!Monitor::check_finished(&Vec::<Event>::new()));
    assert!(!Monitor::check_finished(&vec![Event::Ready]));
    let mut unfinished = full_life();
    unfinished.pop();
    assert!(Monitor::check(&unfinished));
    assert!(!Monitor::check_finished(&unfinished));
    assert!(!Monitor::check_finished(&vec![
        Event::Ready,
        Event::Connected(id(1)),
        Event::Shutdown,
    ]));
    assert!(!Monitor::check_finished(&vec![Event::Shutdown, Event::Shutdown]));
}

#[test]
fn every_connection_of_a_finished_run_is_complete() {
    let trace = vec![
        Event::Ready,
        Event::Connected(id(1)),
        Event::Connected(id(2)),
        Event::Error(Some(id(2)), String::from("slow")),
        Event::Disconnected(id(2)),
        Event::ConnectionError(Some(id(1)), Fault),
        Event::Disconnected(id(1)),
        Event::Shutdown,
    ];
    assert!(Monitor::check_finished(&trace));
    for who in [id(1), id(2)] {
        let story: Vec<&Event> = trace
            .iter()
            .filter(|event| event.connection() == Some(who))
            .collect();
        assert_eq!(story.len(), 3);
        assert!(matches!(story[0], Event::Connected(first) if *first == who));
        assert!(matches!(story[1], Event::Error(..) | Event::ConnectionError(..)));
        assert!(matches!(story[2], Event::Disconnected(last) if *last == who));
    }
}

#[test]
fn a_new_monitor_has_seen_nothing() {
    let monitor = Monitor::new();
    assert!(!monitor.is_ready());
    assert!(!monitor.is_stopped());
    assert!(monitor.peers().is_empty());
    assert!(!monitor.is_open(id(1)));
    assert!(!monitor.knows(id(1)));
}

#[test]
fn the_monitor_follows_connections() {
    let mut monitor = Monitor::new();
    assert!(monitor.observe(&Event::Ready));
    assert!(monitor.is_ready());
    assert!(monitor.observe(&Event::Connected(id(1))));
    assert!(monitor.observe(&Event::Connected(id(2))));
    assert!(monitor.observe(&Event::Connected(id(3))));
    assert_eq!(monitor.peers(), &vec![id(1), id(2), id(3)]);
    assert!(monitor.observe(&Event::Disconnected(id(2))));
    assert_eq!(monitor.peers(), &vec![id(1), id(3)]);
    assert!(monitor.is_open(id(1)));
    assert!(!monitor.is_open(id(2)));
    assert!(monitor.knows(id(2)));
    assert!(!monitor.knows(id(4)));
    assert!(!monitor.admits(&Event::Shutdown));
    assert!(!monitor.observe(&Event::Shutdown));
    assert!(!monitor.is_stopped());
    assert!(monitor.observe(&Event::Disconnected(id(3))));
    assert!(monitor.observe(&Event::Disconnected(id(1))));
    assert!(monitor.peers().is_empty());
    assert!(monitor.observe(&Event::Shutdown));
    assert!(monitor.is_stopped());
}

#[test]
fn a_refused_event_leaves_the_monitor_as_it_was() {
    let mut monitor = Monitor::new();
    assert!(monitor.observe(&Event::Ready));
    assert!(monitor.observe(&Event::Connected(id(1))));
    assert!(!monitor.admits(&Event::Connected(id(1))));
    assert!(!monitor.observe(&Event::Connected(id(1))));
    assert!(!monitor.observe(&Event::Disconnected(id(2))));
    assert!(!monitor.observe(&Event::Ready));
    assert_eq!(monitor.peers(), &vec![id(1)]);
    assert!(monitor.is_ready());
    assert!(!monitor.is_stopped());
    assert!(!monitor.knows(id(2)));
    assert!(monitor.admits(&Event::Received(id(1), vec![1, 2, 3])));
    assert!(monitor.observe(&Event::Received(id(1), vec![1, 2, 3])));
    assert_eq!(monitor.peers(), &vec![id(1)]);
}

#[test]
fn admits_judges_without_taking() {
    let monitor = Monitor::new();
    assert!(monitor.admits(&Event::Ready));
    assert!(monitor.admits(&Event::Shutdown));
    assert!(monitor.admits(&Event::ServerError(Fault)));
    assert!(!monitor.admits(&Event::Connected(id(1))));
    assert!(!monitor.is_ready());
}
