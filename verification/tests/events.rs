use ecs::event::{EventReceiver, EventSender, EventSystem};
use ecs::shooter::{BoundAxis, BoundCollide, DisplayTextEvent, Lifespan};

#[derive(Eq, PartialEq)]
struct MyEvent(String);

fn send_via<E, S: EventSender<E>>(system: &mut S, event: E) {
    system.send(event);
}

fn read_via<E, S: EventReceiver<E>>(system: &mut S) -> Vec<E> {
    system.read()
}

#[test]
fn common_test_add_event() {
    let mut system = EventSystem::default();
    let event = MyEvent("a".to_string());

    system.send(event);

    let read_events: Vec<MyEvent> = system.read();
    assert_eq!(read_events.len(), 1);
    assert_eq!(read_events.first().unwrap().0, "a".to_string());
}

#[test]
fn common_test_add_event2() {
    let mut system = EventSystem::default();
    let event = MyEvent("a".to_string());
    let event2 = MyEvent("b".to_string());

    system.send(event);
    system.send(event2);

    let read_events: Vec<MyEvent> = system.read();
    assert_eq!(read_events.len(), 2);
    assert_eq!(read_events[0].0, "a".to_string());
    assert_eq!(read_events[1].0, "b".to_string());
}

#[test]
fn event_test_add_event() {
    let mut system = EventSystem::default();
    let event = MyEvent("a".to_string());

    system.send(event);

    let read_events: Vec<MyEvent> = system.read();
    assert_eq!(read_events.len(), 1);
    assert_eq!(read_events.first().unwrap().0, "a".to_string());
}

#[test]
fn event_test_add_event2() {
    let mut system = EventSystem::default();
    let event = MyEvent("a".to_string());
    let event2 = MyEvent("b".to_string());

    system.send(event);
    system.send(event2);

    let read_events: Vec<MyEvent> = system.read();
    assert_eq!(read_events.len(), 2);
    assert_eq!(read_events[0].0, "a".to_string());
    assert_eq!(read_events[1].0, "b".to_string());
}

#[test]
fn read_empties_the_queue() {
    let mut system: EventSystem<MyEvent> = EventSystem::new();
    system.send(MyEvent("a".to_string()));
    assert_eq!(system.read().len(), 1);
    assert_eq!(system.read().len(), 0);
}

#[test]
fn trait_object_round_trip() {
    let mut system: EventSystem<BoundCollide> = EventSystem::new();
    send_via(&mut system, BoundCollide(4, BoundAxis::X));
    send_via(&mut system, BoundCollide(9, BoundAxis::Y));

    let events = read_via(&mut system);
    assert_eq!(events.len(), 2);
    assert_eq!(events[0], BoundCollide(4, BoundAxis::X));
    assert_eq!(events[1], BoundCollide(9, BoundAxis::Y));
}

#[test]
fn display_text_events_keep_their_fields() {
    let mut system: EventSystem<DisplayTextEvent> = EventSystem::new();
    system.send(DisplayTextEvent { text: "hit".to_string(), dur_ms: 1500 });

    let events = system.read();
    assert_eq!(events.len(), 1);
    assert_eq!(events[0].text, "hit");
    assert_eq!(events[0].dur_ms, 1500);
}

#[test]
fn lifespan_tick_saturates_at_zero() {
    let mut span = Lifespan { time_left_ms: 100, total_time_ms: 100 };
    assert!(!span.tick(40));
    assert_eq!(span.time_left_ms, 60);
    assert!(span.tick(60));
    assert_eq!(span.time_left_ms, 0);

    let mut short = Lifespan { time_left_ms: 10, total_time_ms: 100 };
    assert!(short.tick(25));
    assert_eq!(short.time_left_ms, 0);
    assert_eq!(short.total_time_ms, 100);
}
