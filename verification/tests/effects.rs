use audio_router::audio_effects::{
    DelayEffect, Effect, EffectType, GainEffect, LowPassFilterEffect, ReverbEffect,
};

#[test]
fn gain_effect_new_keeps_its_settings() {
    let g = GainEffect::new(100, 32767);
    assert_eq!(g.mix(), 100);
    assert_eq!(g.gain(), 32767);
    assert_eq!(g.get_type(), "gain");
}

#[test]
fn gain_effect_set_value_by_key() {
    let mut g = GainEffect::new(0, 0);
    assert!(g.set_value("gain", 65535).is_ok());
    assert_eq!(g.gain(), 65535);
    assert_eq!(g.mix(), 0);
    assert!(g.set_value("mix", 12).is_ok());
    assert_eq!(g.mix(), 12);
    let err = g.set_value("frequency", 3).unwrap_err();
    assert_eq!(err.message, "Unknown parameter");
    assert_eq!(g.mix(), 12);
    assert_eq!(g.gain(), 65535);
}

#[test]
fn gain_effect_control_values() {
    let g = GainEffect::new(5, 6);
    assert_eq!(g.control_value("mix").unwrap(), 5);
    assert_eq!(g.control_value("gain").unwrap(), 6);
    assert_eq!(g.control_value("q_factor").unwrap_err().message, "Parameter not found");
}

#[test]
fn low_pass_filter_live_parameters() {
    let mut f = LowPassFilterEffect::new(1, 3273, 32767);
    assert_eq!(f.frequency(), 3273);
    assert_eq!(f.q_factor(), 32767);
    assert!(f.set_value("frequency", 10).is_ok());
    assert!(f.set_value("q_factor", 11).is_ok());
    assert!(f.set_value("mix", 12).is_ok());
    assert_eq!((f.mix(), f.frequency(), f.q_factor()), (12, 10, 11));
    assert_eq!(f.set_value("gain", 1).unwrap_err().message, "Unknown parameter");
    assert_eq!(f.get_type(), "low_pass_filter");
}

#[test]
fn reverb_only_mix_is_live() {
    let mut r = ReverbEffect::new(1, 2, 3, 4);
    assert_eq!((r.mix(), r.room_size(), r.reverb_decay(), r.dampening()), (1, 2, 3, 4));
    assert_eq!(r.set_value("room_size", 9).unwrap_err().message, "Unknown parameter");
    assert_eq!(r.control_value("decay").unwrap_err().message, "Parameter not found");
    assert!(r.set_value("mix", 9).is_ok());
    assert_eq!(r.control_value("mix").unwrap(), 9);
    assert_eq!(r.room_size(), 2);
    assert_eq!(r.get_type(), "reverb");
}

#[test]
fn delay_only_mix_is_live() {
    let mut d = DelayEffect::new(1, 16137);
    assert_eq!(d.delay(), 16137);
    assert!(d.set_value("delay", 1).is_err());
    assert!(d.set_value("mix", 2).is_ok());
    assert_eq!(d.mix(), 2);
    assert_eq!(d.get_type(), "delay");
}

#[test]
fn effect_dispatches_to_its_kind() {
    let mut e = Effect::Gain(GainEffect::new(1, 2));
    assert_eq!(e.kind(), EffectType::Gain);
    assert!(e.has_control("gain"));
    assert!(!e.has_control("delay"));
    assert!(e.set_value("gain", 40).is_ok());
    assert_eq!(e.control_value("gain").unwrap(), 40);
    assert_eq!(e.get_type(), "gain");
    let d = Effect::Delay(DelayEffect::new(3, 4));
    assert_eq!(d.kind(), EffectType::Delay);
    assert!(!d.has_control("delay"));
    assert_eq!(d.get_type(), "delay");
}
