use audio_router::audio_bus::AudioBus;
use audio_router::audio_effects::EffectType;
use audio_router::routing_director::{BusNumbering, RoutingDirector};
use audio_router::vcsgp::{
    apply_message, build_effect, get_parameter, has_room_for_message, update_bus, AudioBusDto,
    ConfigEvent, Dto, EffectDto, EffectParameterDto,
};

fn param(key: &str, value: u16, input: &str) -> EffectParameterDto {
    EffectParameterDto { key: key.to_string(), value, input_control_id: input.to_string() }
}

fn gain_dto(mix: u16, gain: u16, input: &str) -> EffectDto {
    EffectDto { effect_type: EffectType::Gain, mix, parameters: vec![param("gain", gain, input)] }
}

fn failed_messages(events: &[ConfigEvent]) -> Vec<String> {
    events
        .iter()
        .filter_map(|e| match e {
            ConfigEvent::Failed { message } => Some(message.clone()),
            _ => None,
        })
        .collect()
}

#[test]
fn get_parameter_takes_the_first_match() {
    let params = vec![param("gain", 1, ""), param("mix", 2, ""), param("gain", 3, "")];
    assert_eq!(get_parameter("gain", &params), Some(1));
    assert_eq!(get_parameter("mix", &params), Some(2));
    assert_eq!(get_parameter("delay", &params), None);
}

#[test]
fn build_effect_reports_missing_parameters() {
    let lp = EffectDto {
        effect_type: EffectType::LowPassFilter,
        mix: 0,
        parameters: vec![param("frequency", 1, "")],
    };
    assert_eq!(build_effect(&lp).unwrap_err().message, "q_factor parameter not found");
    let reverb = EffectDto {
        effect_type: EffectType::Reverb,
        mix: 0,
        parameters: vec![param("room_size", 1, ""), param("dampening", 1, "")],
    };
    assert_eq!(build_effect(&reverb).unwrap_err().message, "decay parameter not found");
    let delay = EffectDto { effect_type: EffectType::Delay, mix: 0, parameters: vec![] };
    assert_eq!(build_effect(&delay).unwrap_err().message, "delay parameter not found");
    let gain = EffectDto { effect_type: EffectType::Gain, mix: 0, parameters: vec![] };
    assert_eq!(build_effect(&gain).unwrap_err().message, "gain parameter not found");
    let ok = build_effect(&gain_dto(3, 4, "")).unwrap();
    assert_eq!(ok.control_value("gain").unwrap(), 4);
    assert_eq!(ok.control_value("mix").unwrap(), 3);
}

#[test]
fn update_bus_rebuilds_the_chain_and_binds_controls() {
    let ids = vec!["rotary_0".to_string(), "laser_0".to_string()];
    let dto = AudioBusDto {
        id: "bus_0".to_string(),
        enabled: true,
        effects: vec![
            gain_dto(1, 2, "laser_0"),
            EffectDto { effect_type: EffectType::Delay, mix: 5, parameters: vec![] },
            EffectDto {
                effect_type: EffectType::Reverb,
                mix: 7,
                parameters: vec![
                    param("room_size", 1, "rotary_0"),
                    param("decay", 2, "rotary_0"),
                    param("dampening", 3, "nobody"),
                    param("mix", 4, "nobody"),
                ],
            },
        ],
    };
    let mut bus = AudioBus::new(0, false, 8);
    let events = update_bus(&mut bus, 0, &dto, &ids);
    assert!(bus.is_enabled());
    assert_eq!(bus.effects().len(), 2);
    assert_eq!(bus.slots(), &vec![0u64, 1]);
    match &events[0] {
        ConfigEvent::Bound { bus_index, control_input, slot, key } => {
            assert_eq!((*bus_index, *control_input, *slot, key.as_str()), (0, 1, 0, "gain"));
        }
        _ => panic!("expected a binding"),
    }
    assert_eq!(
        failed_messages(&events),
        vec![
            "delay parameter not found".to_string(),
            "Parameter not found".to_string(),
            "Parameter not found".to_string(),
            "Parameter not found".to_string(),
            "control input with id [nobody] not found".to_string(),
        ]
    );
}

#[test]
fn apply_message_reports_unknown_buses() {
    let mut director = RoutingDirector::new(8);
    let mut numbering = BusNumbering::new();
    director.add_audio_bus(&mut numbering, Ok(())).unwrap();
    let dto = Dto {
        audio_buses: vec![AudioBusDto { id: "bus_7".to_string(), enabled: true, effects: vec![] }],
    };
    assert!(has_room_for_message(&director, &dto));
    let events = apply_message(&mut director, &dto, &vec![]);
    assert_eq!(failed_messages(&events), vec!["bus_7 does not exist".to_string()]);
    assert!(!director.audio_buses()[0].is_enabled());
}

#[test]
fn apply_message_updates_named_buses_only() {
    let mut director = RoutingDirector::new(8);
    let mut numbering = BusNumbering::new();
    director.add_audio_bus(&mut numbering, Ok(())).unwrap();
    director.add_audio_bus(&mut numbering, Ok(())).unwrap();
    let ids = vec!["rotary_0".to_string()];
    let dto = Dto {
        audio_buses: vec![AudioBusDto {
            id: "bus_1".to_string(),
            enabled: true,
            effects: vec![gain_dto(10, 20, "rotary_0")],
        }],
    };
    let events = apply_message(&mut director, &dto, &ids);
    assert_eq!(events.len(), 1);
    match &events[0] {
        ConfigEvent::Bound { bus_index, control_input, slot, key } => {
            assert_eq!((*bus_index, *control_input, *slot, key.as_str()), (1, 0, 0, "gain"));
        }
        _ => panic!("expected a binding"),
    }
    assert!(director.audio_buses()[1].is_enabled());
    assert!(!director.audio_buses()[0].is_enabled());
    assert!(director.audio_buses()[0].effects().is_empty());
    assert_eq!(director.audio_buses()[1].effects()[0].control_value("gain").unwrap(), 20);
    assert!(director.apply_control(1, 0, "gain", 99));
    assert!(!director.has_room_for(u64::MAX));
    assert!(director.has_room_for(u64::MAX - 1));
    assert_eq!(director.audio_buses()[1].effects()[0].control_value("gain").unwrap(), 99);
}

#[test]
fn applying_a_message_twice_gives_the_same_configuration() {
    let mut director = RoutingDirector::new(8);
    let mut numbering = BusNumbering::new();
    director.add_audio_bus(&mut numbering, Ok(())).unwrap();
    let dto = Dto {
        audio_buses: vec![AudioBusDto {
            id: "bus_0".to_string(),
            enabled: true,
            effects: vec![gain_dto(1, 2, "x"), gain_dto(3, 4, "x")],
        }],
    };
    apply_message(&mut director, &dto, &vec![]);
    let once: Vec<u16> = director.audio_buses()[0].effects().iter().map(|e| e.control_value("gain").unwrap()).collect();
    apply_message(&mut director, &dto, &vec![]);
    let twice: Vec<u16> = director.audio_buses()[0].effects().iter().map(|e| e.control_value("gain").unwrap()).collect();
    assert_eq!(once, twice);
    assert_eq!(once, vec![2, 4]);
    assert!(director.audio_buses()[0].is_enabled());
    // the chain was rebuilt: the effects have fresh slots
    assert_eq!(director.audio_buses()[0].slots(), &vec![2u64, 3]);
    // controls bound by the first message no longer reach the new chain
    assert!(!director.apply_control(0, 0, "gain", 1));
}
