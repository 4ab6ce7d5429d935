use audio_router::error::Error;
use audio_router::routing_director::{BusNumbering, RoutingDirector};

#[test]
fn buses_are_numbered_in_order_and_disabled() {
    let mut director = RoutingDirector::new(512);
    let mut numbering = BusNumbering::new();
    assert_eq!(director.add_audio_bus(&mut numbering, Ok(())).unwrap(), "bus_0");
    assert_eq!(director.add_audio_bus(&mut numbering, Ok(())).unwrap(), "bus_1");
    assert_eq!(director.add_audio_bus(&mut numbering, Ok(())).unwrap(), "bus_2");
    assert_eq!(director.bus_count(), 3);
    assert!(director.audio_buses().iter().all(|b| !b.is_enabled()));
    assert!(director.audio_buses().iter().all(|b| b.buffer_length() == 512));
    assert_eq!(director.routing_targets(), Vec::<usize>::new());
}

#[test]
fn enable_audio_bus_by_id() {
    let mut director = RoutingDirector::new(64);
    let mut numbering = BusNumbering::new();
    director.add_audio_bus(&mut numbering, Ok(())).unwrap();
    director.add_audio_bus(&mut numbering, Ok(())).unwrap();
    assert!(director.enable_audio_bus("bus_1").is_ok());
    assert!(director.audio_buses()[1].is_enabled());
    assert!(!director.audio_buses()[0].is_enabled());
    assert_eq!(director.routing_targets(), vec![1]);
    assert!(director.disable_audio_bus("bus_1").is_ok());
    assert_eq!(director.routing_targets(), Vec::<usize>::new());
}

#[test]
fn unknown_bus_id_is_an_error() {
    let mut director = RoutingDirector::new(64);
    let mut numbering = BusNumbering::new();
    director.add_audio_bus(&mut numbering, Ok(())).unwrap();
    let err = director.enable_audio_bus("bus_9").unwrap_err();
    assert_eq!(err.message, "AudioBus bus_9 not found");
    let err = director.disable_audio_bus("").unwrap_err();
    assert_eq!(err.message, "AudioBus  not found");
    assert!(!director.audio_buses()[0].is_enabled());
}

#[test]
fn routing_targets_are_the_enabled_buses_in_order() {
    let mut director = RoutingDirector::new(8);
    let mut numbering = BusNumbering::new();
    for _ in 0..4 {
        director.add_audio_bus(&mut numbering, Ok(())).unwrap();
    }
    director.enable_audio_bus("bus_3").unwrap();
    director.enable_audio_bus("bus_0").unwrap();
    director.enable_audio_bus("bus_2").unwrap();
    assert_eq!(director.routing_targets(), vec![0, 2, 3]);
    assert_eq!(director.bus_index("bus_2"), Some(2));
    assert_eq!(director.bus_index("bus_4"), None);
}

#[test]
fn bus_ids_wrap_after_256_buses() {
    let mut director = RoutingDirector::new(8);
    let mut numbering = BusNumbering::new();
    let mut last = String::new();
    for _ in 0..257 {
        last = director.add_audio_bus(&mut numbering, Ok(())).unwrap();
    }
    assert_eq!(last, "bus_0");
    assert_eq!(director.bus_index("bus_0"), Some(0));
}

#[test]
fn apply_control_on_missing_bus_is_refused() {
    let mut director = RoutingDirector::new(8);
    let mut numbering = BusNumbering::new();
    director.add_audio_bus(&mut numbering, Ok(())).unwrap();
    assert!(!director.apply_control(5, 0, "mix", 1));
    assert!(!director.apply_control(0, 0, "mix", 1));
    assert!(director.has_room_for(10));
    assert!(director.has_room_for(u64::MAX));
}

#[test]
fn first_256_bus_ids_are_distinct() {
    let mut director = RoutingDirector::new(8);
    let mut numbering = BusNumbering::new();
    let mut ids = Vec::new();
    for _ in 0..256 {
        ids.push(director.add_audio_bus(&mut numbering, Ok(())).unwrap());
    }
    let mut sorted = ids.clone();
    sorted.sort();
    sorted.dedup();
    assert_eq!(sorted.len(), 256);
}

#[test]
fn a_failed_bus_creation_uses_up_its_number() {
    let mut director = RoutingDirector::new(8);
    let mut numbering = BusNumbering::new();
    assert_eq!(director.add_audio_bus(&mut numbering, Ok(())).unwrap(), "bus_0");
    let err = director.add_audio_bus(&mut numbering, Err(Error::new("output not found"))).unwrap_err();
    assert_eq!(err.message, "output not found");
    assert_eq!(director.bus_count(), 1);
    assert_eq!(director.add_audio_bus(&mut numbering, Ok(())).unwrap(), "bus_2");
    assert_eq!(director.bus_count(), 2);
    assert_eq!(director.bus_index("bus_1"), None);
    assert_eq!(director.bus_index("bus_2"), Some(1));
    assert!(director.enable_audio_bus("bus_1").is_err());
    assert!(director.enable_audio_bus("bus_2").is_ok());
    assert_eq!(director.routing_targets(), vec![1]);
}

#[test]
fn failed_creations_count_towards_the_wrap() {
    let mut director = RoutingDirector::new(8);
    let mut numbering = BusNumbering::new();
    for _ in 0..255 {
        assert!(director.add_audio_bus(&mut numbering, Err(Error::new("busy"))).is_err());
    }
    assert_eq!(director.add_audio_bus(&mut numbering, Ok(())).unwrap(), "bus_255");
    assert_eq!(director.add_audio_bus(&mut numbering, Ok(())).unwrap(), "bus_0");
    assert_eq!(director.bus_count(), 2);
}

#[test]
fn routers_sharing_a_numbering_continue_each_others_numbers() {
    let mut numbering = BusNumbering::new();
    let mut first = RoutingDirector::new(8);
    let mut second = RoutingDirector::new(8);
    assert_eq!(first.add_audio_bus(&mut numbering, Ok(())).unwrap(), "bus_0");
    assert_eq!(second.add_audio_bus(&mut numbering, Ok(())).unwrap(), "bus_1");
    assert!(second.add_audio_bus(&mut numbering, Err(Error::new("no output"))).is_err());
    assert_eq!(first.add_audio_bus(&mut numbering, Ok(())).unwrap(), "bus_3");
    assert_eq!(first.bus_index("bus_3"), Some(1));
    assert_eq!(second.bus_index("bus_1"), Some(0));
    assert_eq!(second.bus_count(), 1);
}
