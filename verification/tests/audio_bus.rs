use audio_router::audio_bus::{AudioBus, EffectBuffer, SlotTable};
use audio_router::audio_effects::{DelayEffect, Effect, GainEffect};

#[test]
fn new_bus_has_numbered_id_and_empty_chain() {
    let bus = AudioBus::new(3, false, 512);
    assert_eq!(bus.id(), "bus_3");
    assert!(!bus.is_enabled());
    assert!(bus.effects().is_empty());
    assert_eq!(bus.buffer_length(), 512);
    assert!(bus.has_id("bus_3"));
    assert!(!bus.has_id("bus_30"));
}

#[test]
fn enable_and_disable_bus() {
    let mut bus = AudioBus::new(0, false, 16);
    bus.enable();
    assert!(bus.is_enabled());
    bus.disable();
    assert!(!bus.is_enabled());
}

#[test]
fn effects_get_fresh_slots() {
    let mut bus = AudioBus::new(0, true, 16);
    let a = bus.add_effect(Effect::Gain(GainEffect::new(0, 0)));
    let b = bus.add_effect(Effect::Delay(DelayEffect::new(0, 0)));
    assert_eq!((a, b), (0, 1));
    bus.clear_effects();
    assert!(bus.effects().is_empty());
    let c = bus.add_effect(Effect::Gain(GainEffect::new(0, 0)));
    assert_eq!(c, 2);
    assert_eq!(bus.slots(), &vec![2u64]);
}

#[test]
fn apply_control_reaches_only_the_bound_effect() {
    let mut bus = AudioBus::new(0, true, 16);
    let first = bus.add_effect(Effect::Gain(GainEffect::new(0, 0)));
    let second = bus.add_effect(Effect::Gain(GainEffect::new(0, 0)));
    assert!(bus.apply_control(second, "gain", 500));
    assert_eq!(bus.effects()[1].control_value("gain").unwrap(), 500);
    assert_eq!(bus.effects()[0].control_value("gain").unwrap(), 0);
    assert!(!bus.apply_control(first, "delay", 1));
    bus.remove_effect(0);
    assert!(!bus.apply_control(first, "gain", 9));
    assert!(bus.apply_control(second, "mix", 9));
    assert_eq!(bus.effects()[0].control_value("mix").unwrap(), 9);
}

#[test]
fn stale_control_after_clear_changes_nothing() {
    let mut bus = AudioBus::new(0, true, 16);
    let slot = bus.add_effect(Effect::Gain(GainEffect::new(0, 0)));
    bus.clear_effects();
    bus.add_effect(Effect::Gain(GainEffect::new(0, 0)));
    assert!(!bus.apply_control(slot, "gain", 7));
    assert_eq!(bus.effects()[0].control_value("gain").unwrap(), 0);
}

#[test]
fn for_effect_replaces_the_effect_at_index() {
    let mut bus = AudioBus::new(0, true, 16);
    bus.add_effect(Effect::Gain(GainEffect::new(0, 0)));
    let r = bus.for_effect(0, |mut e: Effect| {
        let ok = e.set_value("gain", 77).is_ok();
        (e, ok)
    });
    assert_eq!(r.ok(), Some(true));
    assert_eq!(bus.effects()[0].control_value("gain").unwrap(), 77);
    let missing = bus.for_effect(4, |e: Effect| (e, ()));
    assert_eq!(missing.unwrap_err().message, "Index out of bounds");
}

#[test]
fn effect_buffer_hands_out_full_chunks() {
    let mut buffer = EffectBuffer::new(3);
    let mut chunks = Vec::new();
    for sample in 1..=7 {
        if let Some(chunk) = buffer.push(sample) {
            chunks.push(chunk);
        }
    }
    assert_eq!(chunks, vec![vec![1, 2, 3], vec![4, 5, 6]]);
    assert_eq!(buffer.pending_len(), 1);
}

#[test]
fn effect_buffer_of_length_zero_hands_out_every_sample() {
    let mut buffer = EffectBuffer::new(0);
    assert_eq!(buffer.push(5u8), Some(vec![5]));
    assert_eq!(buffer.push(6u8), Some(vec![6]));
    assert_eq!(buffer.pending_len(), 0);
}

#[test]
fn auxiliary_port_names() {
    let (port, id) = audio_router::audio_bus::auxiliary_port("Input", 0);
    assert_eq!(port, "Auxiliary_0");
    assert_eq!(id, "Input:Auxiliary_0");
    let (port, id) = audio_router::audio_bus::auxiliary_port("Output", 11);
    assert_eq!(port, "Auxiliary_11");
    assert_eq!(id, "Output:Auxiliary_11");
}

#[test]
fn slot_table_hands_back_the_value_of_a_slot_once() {
    let mut table: SlotTable<&str> = SlotTable::new();
    table.insert(3, "reverb node");
    table.insert(5, "gain node");
    assert_eq!(table.len(), 2);
    assert_eq!(table.take(5), Some("gain node"));
    assert_eq!(table.take(5), None);
    assert_eq!(table.take(9), None);
    assert_eq!(table.len(), 1);
    table.insert(5, "new gain node");
    assert_eq!(table.take(5), Some("new gain node"));
    assert_eq!(table.take(3), Some("reverb node"));
    assert_eq!(table.len(), 0);
}

#[test]
fn slot_table_drops_entries_of_slots_that_left_the_chain() {
    let mut table: SlotTable<u32> = SlotTable::new();
    for slot in 0..6u64 {
        table.insert(slot, slot as u32 * 10);
    }
    table.retain_slots(&vec![4, 1, 7]);
    assert_eq!(table.len(), 2);
    assert_eq!(table.take(0), None);
    assert_eq!(table.take(2), None);
    assert_eq!(table.take(1), Some(10));
    assert_eq!(table.take(4), Some(40));
    table.insert(8, 80);
    table.retain_slots(&vec![]);
    assert_eq!(table.len(), 0);
}
