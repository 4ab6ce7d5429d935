use audio_router::error::Error;
use audio_router::text::{numbered_name, push_decimal};

#[test]
fn numbered_names_use_decimal_numbers() {
    assert_eq!(numbered_name("bus_", 0), "bus_0");
    assert_eq!(numbered_name("bus_", 7), "bus_7");
    assert_eq!(numbered_name("bus_", 42), "bus_42");
    assert_eq!(numbered_name("rotary_", 100), "rotary_100");
    assert_eq!(numbered_name("laser_", 255), "laser_255");
}

#[test]
fn push_decimal_appends() {
    let mut s = String::from("n=");
    push_decimal(&mut s, 9);
    push_decimal(&mut s, 10);
    assert_eq!(s, "n=910");
}

#[test]
fn error_keeps_its_message() {
    let e = Error::new("Index out of bounds");
    assert_eq!(e.message, "Index out of bounds");
}
