use audio_router::control_input::{LaserInput, RotaryEncoder, RotaryInput, TofRead};

#[test]
fn rotary_encoder_steps_on_falling_clock_edges() {
    let mut enc = RotaryEncoder::new(true);
    assert_eq!(enc.value(), 32767);
    let cc = enc.step(false, true).expect("falling edge");
    assert_eq!(cc.control_id, "encoder_1");
    assert_eq!(cc.value, 33023);
    assert!(cc.enabled);
    assert!(enc.step(false, true).is_none());
    assert!(enc.step(true, false).is_none());
    let cc = enc.step(false, false).expect("falling edge");
    assert_eq!(cc.value, 32767);
    assert_eq!(enc.value(), 32767);
}

#[test]
fn rotary_encoder_saturates() {
    let mut enc = RotaryEncoder::new(true);
    for _ in 0..200 {
        enc.step(false, true);
        enc.step(true, true);
    }
    assert_eq!(enc.value(), u16::MAX);
    for _ in 0..300 {
        enc.step(false, false);
        enc.step(true, false);
    }
    assert_eq!(enc.value(), 0);
}

#[test]
fn rotary_input_ids() {
    assert_eq!(RotaryInput::numbered(0).id(), "rotary_0");
    assert_eq!(RotaryInput::numbered(12).id(), "rotary_12");
    assert_eq!(RotaryInput::GPIO_CLK, 14);
    assert_eq!(RotaryInput::GPIO_DT, 15);
}

#[test]
fn laser_readings_scale_to_whole_ranges() {
    assert_eq!(LaserInput::parse_to_cc_value(50), 0);
    assert_eq!(LaserInput::parse_to_cc_value(299), 0);
    assert_eq!(LaserInput::parse_to_cc_value(300), 65535);
    assert_eq!(LaserInput::parse_to_cc_value(549), 65535);
    assert!(LaserInput::has_cc_value(50));
    assert!(!LaserInput::has_cc_value(49));
    assert!(!LaserInput::has_cc_value(550));
}

#[test]
fn laser_channel_changes() {
    let cc = LaserInput::channel_change(2, 310);
    assert_eq!(cc.control_id, "laser_2");
    assert_eq!(cc.value, 65535);
    assert_eq!(LaserInput::channel_change(0, 60).value, 0);
    assert_eq!(LaserInput::combine_tof_readouts(100, 51), 125);
    assert_eq!(LaserInput::light_sensor_selector(0), (false, false));
    assert_eq!(LaserInput::light_sensor_selector(1), (false, true));
    assert_eq!(LaserInput::light_sensor_selector(2), (true, false));
    assert_eq!(LaserInput::numbered(1).id(), "laser_1");
}

#[test]
fn a_run_of_polls_sends_one_value_per_falling_edge() {
    // (clock high, data high) per poll; the clock starts low.
    let polls = [
        (false, true),
        (true, true),
        (false, true),  // falls: up
        (false, false),
        (true, false),
        (true, true),
        (false, false), // falls: down
        (true, true),
        (false, true),  // falls: up
        (false, true),
    ];
    let mut enc = RotaryEncoder::new(false);
    let mut sent = Vec::new();
    let mut at = Vec::new();
    for (i, (clk, dt)) in polls.iter().enumerate() {
        if let Some(cc) = enc.step(*clk, *dt) {
            assert_eq!(cc.control_id, "encoder_1");
            sent.push(cc.value);
            at.push(i);
        }
    }
    assert_eq!(at, vec![2, 6, 8]);
    assert_eq!(sent, vec![33023, 32767, 33023]);
    assert_eq!(enc.value(), 33023);
}

#[test]
fn laser_readout_is_zero_without_two_distances() {
    assert_eq!(LaserInput::readout(TofRead::Distance(100), TofRead::Distance(60)), 130);
    assert_eq!(LaserInput::readout(TofRead::Distance(100), TofRead::NotReady), 0);
    assert_eq!(LaserInput::readout(TofRead::Failed, TofRead::Distance(60)), 0);
    assert_eq!(LaserInput::readout(TofRead::NotReady, TofRead::Failed), 0);
    assert!(LaserInput::reads_second(TofRead::Distance(0)));
    assert!(!LaserInput::reads_second(TofRead::NotReady));
    assert!(!LaserInput::reads_second(TofRead::Failed));
    assert!(LaserInput::is_logged(TofRead::Failed));
    assert!(!LaserInput::is_logged(TofRead::NotReady));
    assert!(!LaserInput::is_logged(TofRead::Distance(7)));
}

#[test]
fn laser_channel_sends_only_when_interrupted() {
    assert!(LaserInput::channel_event(1, true, 0).is_none());
    let cc = LaserInput::channel_event(1, false, 120).expect("interrupted barrier");
    assert_eq!(cc.control_id, "laser_1");
    assert_eq!(cc.value, 0);
    assert!(cc.enabled);
    let cc = LaserInput::channel_event(2, false, 420).expect("interrupted barrier");
    assert_eq!(cc.control_id, "laser_2");
    assert_eq!(cc.value, u16::MAX);
}
