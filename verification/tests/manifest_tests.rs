use std::any::TypeId;

use command_replay::manifest::{EntityBuilder, EventBuilder, Manifest};

#[derive(Debug, PartialEq)]
enum DemoEvent {
    Ping(u8),
    Pong(u8),
}

#[derive(Debug, PartialEq)]
struct DemoEntity {
    level: u8,
}

struct PingMarker;
struct PongMarker;

enum DemoEventBuilder {
    Ping,
    Pong,
}

impl EventBuilder<DemoEvent> for DemoEventBuilder {
    fn build(&self, in_bytes: &[u8]) -> DemoEvent {
        let first = if in_bytes.is_empty() { 0 } else { in_bytes[0] };
        match self {
            DemoEventBuilder::Ping => DemoEvent::Ping(first),
            DemoEventBuilder::Pong => DemoEvent::Pong(first),
        }
    }

    fn get_type_id(&self) -> TypeId {
        match self {
            DemoEventBuilder::Ping => TypeId::of::<PingMarker>(),
            DemoEventBuilder::Pong => TypeId::of::<PongMarker>(),
        }
    }
}

struct DemoEntityBuilder;

impl EntityBuilder<DemoEntity> for DemoEntityBuilder {
    fn build(&self, in_bytes: &[u8]) -> DemoEntity {
        DemoEntity { level: if in_bytes.is_empty() { 0 } else { in_bytes[0] } }
    }

    fn get_type_id(&self) -> TypeId {
        TypeId::of::<DemoEntity>()
    }
}

#[test]
fn events_get_sequential_ids() {
    let mut m: Manifest<DemoEvent, DemoEntity, DemoEventBuilder, DemoEntityBuilder> =
        Manifest::new();
    m.register_event(DemoEventBuilder::Ping);
    m.register_event(DemoEventBuilder::Pong);
    assert_eq!(m.get_event_gaia_id(&TypeId::of::<PingMarker>()), 0);
    assert_eq!(m.get_event_gaia_id(&TypeId::of::<PongMarker>()), 1);
}

#[test]
fn create_event_uses_the_registered_builder() {
    let mut m: Manifest<DemoEvent, DemoEntity, DemoEventBuilder, DemoEntityBuilder> =
        Manifest::new();
    m.register_event(DemoEventBuilder::Ping);
    m.register_event(DemoEventBuilder::Pong);
    assert_eq!(m.create_event(0, &[7]), Some(DemoEvent::Ping(7)));
    assert_eq!(m.create_event(1, &[9]), Some(DemoEvent::Pong(9)));
    assert_eq!(m.create_event(2, &[1]), None);
}

#[test]
fn entities_register_and_build() {
    let mut m: Manifest<DemoEvent, DemoEntity, DemoEventBuilder, DemoEntityBuilder> =
        Manifest::new();
    m.register_entity(DemoEntityBuilder);
    assert_eq!(m.get_entity_gaia_id(&TypeId::of::<DemoEntity>()), 0);
    assert_eq!(m.create_entity(0, &[3]), Some(DemoEntity { level: 3 }));
    assert_eq!(m.create_entity(1, &[3]), None);
}

#[test]
fn reregistering_a_type_maps_it_to_the_new_id() {
    let mut m: Manifest<DemoEvent, DemoEntity, DemoEventBuilder, DemoEntityBuilder> =
        Manifest::new();
    m.register_event(DemoEventBuilder::Ping);
    m.register_event(DemoEventBuilder::Ping);
    assert_eq!(m.get_event_gaia_id(&TypeId::of::<PingMarker>()), 1);
    assert_eq!(m.create_event(0, &[4]), Some(DemoEvent::Ping(4)));
    assert_eq!(m.create_event(1, &[4]), Some(DemoEvent::Ping(4)));
}
