//! The VCSGP configuration messages and what applying one does to a bus:
//! the bus is enabled or disabled, its effect chain is rebuilt from the
//! effects the message lists, and each listed parameter is bound to the
//! control input the message names for it.
use vstd::prelude::*;

use crate::audio_bus::{AudioBus, BusView};
use crate::routing_director::{bus_ids, RoutingDirector};
use crate::audio_effects::{
    is_live_key, lemma_new_settings, parameter_not_found_message, DelayEffect, Effect, EffectType, GainEffect,
    LowPassFilterEffect, ReverbEffect,
};
use crate::error::Error;
use crate::text::{
    first_index_of, is_first_index, lemma_first_index_absent, lemma_first_index_found, lemma_first_index_of, str_eq,
};

verus! {

/// One parameter of an effect in a message: its value, and the id of the
/// control input that drives it.
#[derive(Debug)]
pub struct EffectParameterDto {
    pub key: String,
    pub value: u16,
    pub input_control_id: String,
}

/// One effect of a bus in a message.
#[derive(Debug)]
pub struct EffectDto {
    pub effect_type: EffectType,
    pub mix: u16,
    pub parameters: Vec<EffectParameterDto>,
}

/// The wanted state of one bus in a message.
#[derive(Debug)]
pub struct AudioBusDto {
    pub id: String,
    pub enabled: bool,
    pub effects: Vec<EffectDto>,
}

/// A configuration message.
#[derive(Debug)]
pub struct Dto {
    pub audio_buses: Vec<AudioBusDto>,
}

pub struct ParameterView {
    pub key: Seq<char>,
    pub value: u16,
    pub input_control_id: Seq<char>,
}

pub struct EffectDtoView {
    pub effect_type: EffectType,
    pub mix: u16,
    pub parameters: Seq<ParameterView>,
}

pub struct BusDtoView {
    pub id: Seq<char>,
    pub enabled: bool,
    pub effects: Seq<EffectDtoView>,
}

impl View for EffectParameterDto {
    type V = ParameterView;

    open spec fn view(&self) -> ParameterView {
        ParameterView { key: self.key@, value: self.value, input_control_id: self.input_control_id@ }
    }
}

impl View for EffectDto {
    type V = EffectDtoView;

    open spec fn view(&self) -> EffectDtoView {
        EffectDtoView {
            effect_type: self.effect_type,
            mix: self.mix,
            parameters: self.parameters@.map_values(|p: EffectParameterDto| p@),
        }
    }
}

impl View for AudioBusDto {
    type V = BusDtoView;

    open spec fn view(&self) -> BusDtoView {
        BusDtoView {
            id: self.id@,
            enabled: self.enabled,
            effects: self.effects@.map_values(|e: EffectDto| e@),
        }
    }
}

impl View for Dto {
    type V = Seq<BusDtoView>;

    open spec fn view(&self) -> Seq<BusDtoView> {
        self.audio_buses@.map_values(|b: AudioBusDto| b@)
    }
}

/// What applying a message did, in the order it happened.
pub enum EventView {
    /// Parameter `key` of the effect in slot `slot` of bus `bus_index` is now
    /// driven by control input number `control_input`.
    Bound { bus_index: usize, control_input: usize, slot: u64, key: Seq<char> },
    /// Something in the message could not be applied, for the reason given.
    Failed { message: Seq<char> },
}

/// What applying a message did, in the order it happened.
#[derive(Debug)]
pub enum ConfigEvent {
    /// Parameter `key` of the effect in slot `slot` of bus `bus_index` is now
    /// driven by control input number `control_input`.
    Bound { bus_index: usize, control_input: usize, slot: u64, key: String },
    /// Something in the message could not be applied, for the reason given.
    Failed { message: String },
}

impl View for ConfigEvent {
    type V = EventView;

    open spec fn view(&self) -> EventView {
        match self {
            ConfigEvent::Bound { bus_index, control_input, slot, key } => EventView::Bound {
                bus_index: *bus_index,
                control_input: *control_input,
                slot: *slot,
                key: key@,
            },
            ConfigEvent::Failed { message } => EventView::Failed { message: message@ },
        }
    }
}

/// The views of a list of events.
pub open spec fn event_views(events: Seq<ConfigEvent>) -> Seq<EventView> {
    events.map_values(|e: ConfigEvent| e@)
}

/// The views of a list of ids.
pub open spec fn id_views(ids: Seq<String>) -> Seq<Seq<char>> {
    ids.map_values(|s: String| s@)
}

/// The value of the first parameter named `key`.
pub open spec fn spec_get_parameter(key: Seq<char>, parameters: Seq<ParameterView>) -> Option<u16> {
    match first_index_of(parameters.map_values(|p: ParameterView| p.key), key) {
        Some(i) => Some(parameters[i].value),
        None => None,
    }
}

/// The effect a message lists, or why it cannot be built: the parameters it
/// is created with must be given.
pub open spec fn spec_build_effect(e: EffectDtoView) -> Result<Effect, Seq<char>> {
    match e.effect_type {
        EffectType::Gain => match spec_get_parameter("gain"@, e.parameters) {
            None => Err("gain parameter not found"@),
            Some(gain) => Ok(Effect::Gain(GainEffect::spec_new(e.mix, gain))),
        },
        EffectType::LowPassFilter => match spec_get_parameter("frequency"@, e.parameters) {
            None => Err("frequency parameter not found"@),
            Some(frequency) => match spec_get_parameter("q_factor"@, e.parameters) {
                None => Err("q_factor parameter not found"@),
                Some(q_factor) => Ok(
                    Effect::LowPassFilter(LowPassFilterEffect::spec_new(e.mix, frequency, q_factor)),
                ),
            },
        },
        EffectType::Reverb => match spec_get_parameter("room_size"@, e.parameters) {
            None => Err("room_size parameter not found"@),
            Some(room_size) => match spec_get_parameter("decay"@, e.parameters) {
                None => Err("decay parameter not found"@),
                Some(decay) => match spec_get_parameter("dampening"@, e.parameters) {
                    None => Err("dampening parameter not found"@),
                    Some(dampening) => Ok(
                        Effect::Reverb(ReverbEffect::spec_new(e.mix, room_size, decay, dampening)),
                    ),
                },
            },
        },
        EffectType::Delay => match spec_get_parameter("delay"@, e.parameters) {
            None => Err("delay parameter not found"@),
            Some(delay) => Ok(Effect::Delay(DelayEffect::spec_new(e.mix, delay))),
        },
    }
}

/// The message for a control input id that names no control input.
pub open spec fn control_input_not_found_message(id: Seq<char>) -> Seq<char> {
    "control input with id ["@ + id + "] not found"@
}

/// What binding parameter `p` of `effect` (in slot `slot` of bus
/// `bus_index`) does: a live parameter is bound to the first control input
/// with the given id.
pub open spec fn param_event(
    bus_index: usize,
    effect: Effect,
    slot: u64,
    p: ParameterView,
    ids: Seq<Seq<char>>,
) -> EventView {
    if !is_live_key(effect.spec_kind(), p.key) {
        EventView::Failed { message: parameter_not_found_message() }
    } else {
        match first_index_of(ids, p.input_control_id) {
            None => EventView::Failed { message: control_input_not_found_message(p.input_control_id) },
            Some(c) => EventView::Bound { bus_index, control_input: c as usize, slot, key: p.key },
        }
    }
}

/// The events of binding the parameters `params`, in order.
pub open spec fn param_events(
    bus_index: usize,
    effect: Effect,
    slot: u64,
    params: Seq<ParameterView>,
    ids: Seq<Seq<char>>,
) -> Seq<EventView>
    decreases params.len(),
{
    if params.len() == 0 {
        Seq::empty()
    } else {
        param_events(bus_index, effect, slot, params.drop_last(), ids).push(
            param_event(bus_index, effect, slot, params.last(), ids),
        )
    }
}

/// The chain, its slot numbers and the events of building the effects
/// `effects` in order, on a bus whose next slot number is `next_slot`:
/// effects that cannot be built are left out.
pub open spec fn update_effects(
    bus_index: usize,
    next_slot: u64,
    effects: Seq<EffectDtoView>,
    ids: Seq<Seq<char>>,
) -> (Seq<Effect>, Seq<u64>, Seq<EventView>)
    decreases effects.len(),
{
    if effects.len() == 0 {
        (Seq::empty(), Seq::empty(), Seq::empty())
    } else {
        let (chain, slots, events) = update_effects(bus_index, next_slot, effects.drop_last(), ids);
        let e = effects.last();
        match spec_build_effect(e) {
            Err(m) => (chain, slots, events.push(EventView::Failed { message: m })),
            Ok(effect) => {
                let slot = (next_slot + chain.len()) as u64;
                (
                    chain.push(effect),
                    slots.push(slot),
                    events + param_events(bus_index, effect, slot, e.parameters, ids),
                )
            },
        }
    }
}

/// The bus, and the events, after applying the wanted state `d` to bus `b`
/// (number `bus_index`), with control inputs `ids`.
pub open spec fn spec_update_bus(b: BusView, bus_index: usize, d: BusDtoView, ids: Seq<Seq<char>>) -> (
    BusView,
    Seq<EventView>,
) {
    let (chain, slots, events) = update_effects(bus_index, b.next_slot, d.effects, ids);
    (
        BusView {
            id: b.id,
            enabled: d.enabled,
            effects: chain,
            slots,
            next_slot: (b.next_slot + chain.len()) as u64,
            buffer_length: b.buffer_length,
        },
        events,
    )
}

/// The chain built from `effects` has at most one effect per listed effect.
pub proof fn lemma_update_effects_len(
    bus_index: usize,
    next_slot: u64,
    effects: Seq<EffectDtoView>,
    ids: Seq<Seq<char>>,
)
    ensures
        update_effects(bus_index, next_slot, effects, ids).0.len() <= effects.len(),
        update_effects(bus_index, next_slot, effects, ids).1.len() == update_effects(
            bus_index,
            next_slot,
            effects,
            ids,
        ).0.len(),
    decreases effects.len(),
{
    if effects.len() > 0 {
        lemma_update_effects_len(bus_index, next_slot, effects.drop_last(), ids);
    }
}

/// A binding event reaches bus `b`: the effect in its slot is in the chain
/// and has the bound parameter as a live parameter, and the control input
/// it names exists.
pub open spec fn binding_reaches(b: BusView, e: EventView, control_input_count: nat) -> bool {
    e is Bound ==> {
        &&& e->control_input < control_input_count
        &&& exists|i: int|
            0 <= i < b.slots.len() && #[trigger] b.slots[i] == e->slot && is_live_key(
                b.effects[i].spec_kind(),
                e->key,
            )
    }
}

/// Every binding made while binding the parameters of `effect` names slot
/// `slot`, bus `bus_index`, a live parameter of `effect` and an existing
/// control input.
pub proof fn lemma_param_events_bound(
    bus_index: usize,
    effect: Effect,
    slot: u64,
    params: Seq<ParameterView>,
    ids: Seq<Seq<char>>,
)
    requires
        ids.len() <= usize::MAX,
    ensures
        forall|k: int|
            0 <= k < param_events(bus_index, effect, slot, params, ids).len() && (#[trigger] param_events(
                bus_index,
                effect,
                slot,
                params,
                ids,
            )[k]) is Bound ==> {
                let e = param_events(bus_index, effect, slot, params, ids)[k];
                &&& e->slot == slot
                &&& e->bus_index == bus_index
                &&& is_live_key(effect.spec_kind(), e->key)
                &&& e->control_input < ids.len()
            },
    decreases params.len(),
{
    if params.len() > 0 {
        lemma_param_events_bound(bus_index, effect, slot, params.drop_last(), ids);
        let p = params.last();
        if is_live_key(effect.spec_kind(), p.key) {
            match first_index_of(ids, p.input_control_id) {
                Some(c) => {
                    let j = choose|j: int| is_first_index(ids, p.input_control_id, j);
                    assert(is_first_index(ids, p.input_control_id, j));
                },
                None => {},
            }
        }
    }
}

/// Every binding made while building a chain reaches that chain.
pub proof fn lemma_update_effects_bound(
    bus_index: usize,
    next_slot: u64,
    effects: Seq<EffectDtoView>,
    ids: Seq<Seq<char>>,
)
    requires
        ids.len() <= usize::MAX,
    ensures
        ({
            let (chain, slots, events) = update_effects(bus_index, next_slot, effects, ids);
            &&& slots.len() == chain.len()
            &&& forall|k: int|
                0 <= k < events.len() ==> binding_reaches(
                    BusView {
                        id: Seq::empty(),
                        enabled: false,
                        effects: chain,
                        slots,
                        next_slot: 0,
                        buffer_length: 0,
                    },
                    #[trigger] events[k],
                    ids.len(),
                )
        }),
    decreases effects.len(),
{
    if effects.len() > 0 {
        lemma_update_effects_bound(bus_index, next_slot, effects.drop_last(), ids);
        lemma_update_effects_len(bus_index, next_slot, effects.drop_last(), ids);
        let (chain, slots, events) = update_effects(bus_index, next_slot, effects.drop_last(), ids);
        let e = effects.last();
        let old_b = BusView { id: Seq::empty(), enabled: false, effects: chain, slots, next_slot: 0, buffer_length: 0 };
        match spec_build_effect(e) {
            Err(m) => {
                let evs = events.push(EventView::Failed { message: m });
                assert forall|k: int| 0 <= k < evs.len() implies binding_reaches(old_b, #[trigger] evs[k], ids.len()) by {
                    if k < events.len() {
                        assert(evs[k] == events[k]);
                    }
                }
            },
            Ok(effect) => {
                let slot = (next_slot + chain.len()) as u64;
                let new_b = BusView {
                    id: Seq::empty(),
                    enabled: false,
                    effects: chain.push(effect),
                    slots: slots.push(slot),
                    next_slot: 0,
                    buffer_length: 0,
                };
                let pe = param_events(bus_index, effect, slot, e.parameters, ids);
                lemma_param_events_bound(bus_index, effect, slot, e.parameters, ids);
                let evs = events + pe;
                assert forall|k: int| 0 <= k < evs.len() implies binding_reaches(new_b, #[trigger] evs[k], ids.len()) by {
                    if k < events.len() {
                        assert(evs[k] == events[k]);
                        assert(binding_reaches(old_b, events[k], ids.len()));
                        if events[k] is Bound {
                            let i = choose|i: int|
                                0 <= i < old_b.slots.len() && #[trigger] old_b.slots[i] == events[k]->slot
                                    && is_live_key(old_b.effects[i].spec_kind(), events[k]->key);
                            assert(new_b.slots[i] == old_b.slots[i]);
                            assert(new_b.effects[i] == old_b.effects[i]);
                        }
                    } else {
                        assert(evs[k] == pe[k - events.len()]);
                        if evs[k] is Bound {
                            let i = chain.len() as int;
                            assert(new_b.slots[i] == slot);
                            assert(new_b.effects[i] == effect);
                        }
                    }
                }
            },
        }
    }
}

/// A control input bound to a parameter by applying a wanted bus state
/// reaches the rebuilt chain: the effect in the bound slot is in the chain,
/// has the bound parameter as a live parameter, and the bound control input
/// exists.
pub proof fn lemma_bindings_reach_rebuilt_chain(b: BusView, bus_index: usize, d: BusDtoView, ids: Seq<Seq<char>>)
    requires
        ids.len() <= usize::MAX,
    ensures
        forall|k: int|
            0 <= k < spec_update_bus(b, bus_index, d, ids).1.len() ==> binding_reaches(
                spec_update_bus(b, bus_index, d, ids).0,
                #[trigger] spec_update_bus(b, bus_index, d, ids).1[k],
                ids.len(),
            ),
{
    lemma_update_effects_bound(bus_index, b.next_slot, d.effects, ids);
    let (chain, slots, events) = update_effects(bus_index, b.next_slot, d.effects, ids);
    let nb = spec_update_bus(b, bus_index, d, ids).0;
    let blank = BusView { id: Seq::empty(), enabled: false, effects: chain, slots, next_slot: 0, buffer_length: 0 };
    assert forall|k: int| 0 <= k < events.len() implies binding_reaches(nb, #[trigger] events[k], ids.len()) by {
        assert(binding_reaches(blank, events[k], ids.len()));
        if events[k] is Bound {
            let i = choose|i: int|
                0 <= i < blank.slots.len() && #[trigger] blank.slots[i] == events[k]->slot && is_live_key(
                    blank.effects[i].spec_kind(),
                    events[k]->key,
                );
            assert(nb.slots[i] == blank.slots[i]);
        }
    }
}

/// `chain` holds, in order, one effect per entry of `effects` that can be
/// built, and no other: its `k`-th effect is entry `pos[k]` built, the
/// positions increase, and every entry that can be built has one. The
/// effects take consecutive slot numbers from `first_slot` on.
pub open spec fn chain_built_from(
    chain: Seq<Effect>,
    slots: Seq<u64>,
    first_slot: int,
    effects: Seq<EffectDtoView>,
    pos: Seq<int>,
) -> bool {
    &&& pos.len() == chain.len()
    &&& slots.len() == chain.len()
    &&& forall|k: int|
        0 <= k < pos.len() ==> {
            &&& 0 <= #[trigger] pos[k] < effects.len()
            &&& spec_build_effect(effects[pos[k]]) == Ok::<Effect, Seq<char>>(chain[k])
            &&& slots[k] == first_slot + k
        }
    &&& forall|a: int, b: int| 0 <= a < b < pos.len() ==> pos[a] < pos[b]
    &&& forall|j: int| 0 <= j < effects.len() && (#[trigger] spec_build_effect(effects[j])) is Ok ==> pos.contains(j)
}

/// How many events building the entries `effects` gives: one for each
/// entry that cannot be built, one for each listed parameter of each entry
/// that can.
pub open spec fn build_event_count(effects: Seq<EffectDtoView>) -> nat
    decreases effects.len(),
{
    if effects.len() == 0 {
        0
    } else {
        build_event_count(effects.drop_last()) + if spec_build_effect(effects.last()) is Ok {
            effects.last().parameters.len()
        } else {
            1
        }
    }
}

/// Every entry of `effects` that cannot be built is reported among
/// `events`, with the reason.
pub open spec fn failures_reported(effects: Seq<EffectDtoView>, events: Seq<EventView>) -> bool {
    forall|j: int|
        0 <= j < effects.len() && (#[trigger] spec_build_effect(effects[j])) is Err ==> events.contains(
            EventView::Failed { message: spec_build_effect(effects[j])->Err_0 },
        )
}

/// Parameter `q` of the entry built into chain position `k` is what binding
/// event `ev` binds: the event names bus `bus_index`, that effect's slot, the
/// parameter's name (a live parameter of the effect), and the first control
/// input whose id is the one the parameter names.
pub open spec fn binds_parameter(
    ev: EventView,
    bus_index: usize,
    chain: Seq<Effect>,
    slots: Seq<u64>,
    effects: Seq<EffectDtoView>,
    pos: Seq<int>,
    ids: Seq<Seq<char>>,
    k: int,
    q: int,
) -> bool {
    &&& 0 <= k < chain.len()
    &&& 0 <= q < effects[pos[k]].parameters.len()
    &&& ev->bus_index == bus_index
    &&& ev->slot == slots[k]
    &&& ev->key == effects[pos[k]].parameters[q].key
    &&& is_live_key(chain[k].spec_kind(), ev->key)
    &&& is_first_index(ids, effects[pos[k]].parameters[q].input_control_id, ev->control_input as int)
}

/// Every binding among `events` binds a parameter the message lists for an
/// effect of the chain, as [`binds_parameter`] says.
pub open spec fn bindings_follow_message(
    events: Seq<EventView>,
    bus_index: usize,
    chain: Seq<Effect>,
    slots: Seq<u64>,
    effects: Seq<EffectDtoView>,
    pos: Seq<int>,
    ids: Seq<Seq<char>>,
) -> bool {
    forall|m: int|
        0 <= m < events.len() && (#[trigger] events[m]) is Bound ==> exists|k: int, q: int|
            binds_parameter(events[m], bus_index, chain, slots, effects, pos, ids, k, q)
}

/// Building the chain from `effects`: the chain holds one effect per entry
/// that can be built, in order, in consecutive new slots; every entry that
/// cannot be built is reported; every binding binds a listed parameter to
/// the control input it names.
pub proof fn lemma_update_effects(
    bus_index: usize,
    next_slot: u64,
    effects: Seq<EffectDtoView>,
    ids: Seq<Seq<char>>,
) -> (pos: Seq<int>)
    requires
        ids.len() <= usize::MAX,
        next_slot + effects.len() <= u64::MAX,
    ensures
        ({
            let r = update_effects(bus_index, next_slot, effects, ids);
            &&& chain_built_from(r.0, r.1, next_slot as int, effects, pos)
            &&& r.2.len() == build_event_count(effects)
            &&& failures_reported(effects, r.2)
            &&& bindings_follow_message(r.2, bus_index, r.0, r.1, effects, pos, ids)
        }),
    decreases effects.len(),
{
    if effects.len() == 0 {
        Seq::empty()
    } else {
        let prefix = effects.drop_last();
        let pos0 = lemma_update_effects(bus_index, next_slot, prefix, ids);
        lemma_update_effects_len(bus_index, next_slot, prefix, ids);
        let (chain0, slots0, events0) = update_effects(bus_index, next_slot, prefix, ids);
        let r = update_effects(bus_index, next_slot, effects, ids);
        let n = effects.len() - 1;
        let e = effects.last();
        assert forall|j: int| 0 <= j < n implies effects[j] == prefix[j] by {}
        match spec_build_effect(e) {
            Err(msg) => {
                let pos = pos0;
                assert(r.0 == chain0 && r.1 == slots0 && r.2 == events0.push(EventView::Failed { message: msg }));
                assert forall|k: int| 0 <= k < pos.len() implies {
                    &&& 0 <= #[trigger] pos[k] < effects.len()
                    &&& spec_build_effect(effects[pos[k]]) == Ok::<Effect, Seq<char>>(r.0[k])
                    &&& r.1[k] == next_slot + k
                } by {
                    assert(effects[pos0[k]] == prefix[pos0[k]]);
                }
                assert forall|j: int| 0 <= j < effects.len() && (#[trigger] spec_build_effect(effects[j])) is Ok implies pos.contains(
                    j,
                ) by {
                    assert(j != n);
                    assert(effects[j] == prefix[j]);
                }
                assert forall|j: int|
                    0 <= j < effects.len() && (#[trigger] spec_build_effect(effects[j])) is Err implies r.2.contains(
                    EventView::Failed { message: spec_build_effect(effects[j])->Err_0 },
                ) by {
                    if j == n {
                        assert(r.2[events0.len() as int] == EventView::Failed { message: msg });
                    } else {
                        assert(effects[j] == prefix[j]);
                        let m = choose|m: int|
                            0 <= m < events0.len() && events0[m] == EventView::Failed {
                                message: spec_build_effect(prefix[j])->Err_0,
                            };
                        assert(r.2[m] == events0[m]);
                    }
                }
                assert forall|m: int| 0 <= m < r.2.len() && (#[trigger] r.2[m]) is Bound implies exists|k: int, q: int|
                    binds_parameter(r.2[m], bus_index, r.0, r.1, effects, pos, ids, k, q) by {
                    assert(r.2[m] == events0[m]);
                    let (k, q) = choose|k: int, q: int|
                        binds_parameter(events0[m], bus_index, chain0, slots0, prefix, pos0, ids, k, q);
                    assert(effects[pos[k]] == prefix[pos[k]]);
                    assert(binds_parameter(r.2[m], bus_index, r.0, r.1, effects, pos, ids, k, q));
                }
                pos
            },
            Ok(x) => {
                let pos = pos0.push(n);
                let slot = (next_slot + chain0.len()) as u64;
                let pe = param_events(bus_index, x, slot, e.parameters, ids);
                lemma_param_events(bus_index, x, slot, e.parameters, ids);
                assert(r.0 == chain0.push(x) && r.1 == slots0.push(slot) && r.2 == events0 + pe);
                assert(slot == next_slot + chain0.len());
                assert forall|k: int| 0 <= k < pos.len() implies {
                    &&& 0 <= #[trigger] pos[k] < effects.len()
                    &&& spec_build_effect(effects[pos[k]]) == Ok::<Effect, Seq<char>>(r.0[k])
                    &&& r.1[k] == next_slot + k
                } by {
                    if k < pos0.len() {
                        assert(pos[k] == pos0[k]);
                        assert(effects[pos0[k]] == prefix[pos0[k]]);
                    }
                }
                assert forall|a: int, b: int| 0 <= a < b < pos.len() implies pos[a] < pos[b] by {
                    assert(pos[a] == pos0[a]);
                    if b < pos0.len() {
                        assert(pos[b] == pos0[b]);
                    }
                }
                assert forall|j: int| 0 <= j < effects.len() && (#[trigger] spec_build_effect(effects[j])) is Ok implies pos.contains(
                    j,
                ) by {
                    if j == n {
                        assert(pos[pos0.len() as int] == n);
                    } else {
                        assert(effects[j] == prefix[j]);
                        let k = choose|k: int| 0 <= k < pos0.len() && pos0[k] == j;
                        assert(pos[k] == j);
                    }
                }
                assert forall|j: int|
                    0 <= j < effects.len() && (#[trigger] spec_build_effect(effects[j])) is Err implies r.2.contains(
                    EventView::Failed { message: spec_build_effect(effects[j])->Err_0 },
                ) by {
                    assert(j != n);
                    assert(effects[j] == prefix[j]);
                    let m = choose|m: int|
                        0 <= m < events0.len() && events0[m] == EventView::Failed {
                            message: spec_build_effect(prefix[j])->Err_0,
                        };
                    assert(r.2[m] == events0[m]);
                }
                assert forall|m: int| 0 <= m < r.2.len() && (#[trigger] r.2[m]) is Bound implies exists|k: int, q: int|
                    binds_parameter(r.2[m], bus_index, r.0, r.1, effects, pos, ids, k, q) by {
                    if m < events0.len() {
                        assert(r.2[m] == events0[m]);
                        let (k, q) = choose|k: int, q: int|
                            binds_parameter(events0[m], bus_index, chain0, slots0, prefix, pos0, ids, k, q);
                        assert(pos[k] == pos0[k]);
                        assert(effects[pos[k]] == prefix[pos[k]]);
                        assert(binds_parameter(r.2[m], bus_index, r.0, r.1, effects, pos, ids, k, q));
                    } else {
                        let q = m - events0.len();
                        let k = chain0.len() as int;
                        assert(r.2[m] == pe[q]);
                        assert(pos[k] == n);
                        assert(binds_parameter(r.2[m], bus_index, r.0, r.1, effects, pos, ids, k, q));
                    }
                }
                pos
            },
        }
    }
}

/// Applying a wanted bus state: the bus keeps its id and buffer length, is
/// enabled as wanted, and its chain is rebuilt from the listed entries that
/// can be built, one effect per such entry, in order, in new consecutive
/// slots; every entry that cannot be built is reported, and every binding
/// binds a listed parameter of a rebuilt effect to the first control input
/// with the id the parameter names.
pub proof fn lemma_update_bus(b: BusView, bus_index: usize, d: BusDtoView, ids: Seq<Seq<char>>) -> (pos: Seq<int>)
    requires
        ids.len() <= usize::MAX,
        b.next_slot + d.effects.len() <= u64::MAX,
    ensures
        ({
            let (nb, events) = spec_update_bus(b, bus_index, d, ids);
            &&& nb.id == b.id
            &&& nb.enabled == d.enabled
            &&& nb.buffer_length == b.buffer_length
            &&& nb.next_slot == b.next_slot + nb.effects.len()
            &&& chain_built_from(nb.effects, nb.slots, b.next_slot as int, d.effects, pos)
            &&& events.len() == build_event_count(d.effects)
            &&& failures_reported(d.effects, events)
            &&& bindings_follow_message(events, bus_index, nb.effects, nb.slots, d.effects, pos, ids)
        }),
{
    lemma_update_effects_len(bus_index, b.next_slot, d.effects, ids);
    lemma_update_effects(bus_index, b.next_slot, d.effects, ids)
}

/// The value of parameter `key` is that of the first listed parameter named
/// `key`; there is none exactly when no listed parameter has that name.
pub proof fn lemma_get_parameter(key: Seq<char>, parameters: Seq<ParameterView>)
    ensures
        spec_get_parameter(key, parameters) is None <==> forall|i: int|
            0 <= i < parameters.len() ==> (#[trigger] parameters[i]).key != key,
        spec_get_parameter(key, parameters) matches Some(v) ==> exists|i: int|
            0 <= i < parameters.len() && (#[trigger] parameters[i]).key == key && parameters[i].value == v && forall|
                j: int,
            |
                0 <= j < i ==> parameters[j].key != key,
{
    let keys = parameters.map_values(|p: ParameterView| p.key);
    lemma_first_index_of(keys, key);
    assert forall|i: int| 0 <= i < parameters.len() implies keys[i] == (#[trigger] parameters[i]).key by {}
    if let Some(i) = first_index_of(keys, key) {
        assert(is_first_index(keys, key, i));
        assert(parameters[i].key == key);
    }
}

/// The parameter an entry that cannot be built lacks: the first, in the
/// order its kind is created with, that the entry does not list.
pub open spec fn missing_parameter(e: EffectDtoView) -> Seq<char> {
    let p = e.parameters;
    match e.effect_type {
        EffectType::Gain => "gain"@,
        EffectType::LowPassFilter => if spec_get_parameter("frequency"@, p) is None {
            "frequency"@
        } else {
            "q_factor"@
        },
        EffectType::Reverb => if spec_get_parameter("room_size"@, p) is None {
            "room_size"@
        } else if spec_get_parameter("decay"@, p) is None {
            "decay"@
        } else {
            "dampening"@
        },
        EffectType::Delay => "delay"@,
    }
}

/// An entry can be built exactly when every parameter its kind is created
/// with is listed. The effect built has the entry's kind and mix, and each
/// of its other settings is the value of the entry's first parameter of
/// that name.
pub proof fn lemma_build_effect(e: EffectDtoView)
    ensures
        (spec_build_effect(e) is Ok) <==> match e.effect_type {
            EffectType::Gain => spec_get_parameter("gain"@, e.parameters) is Some,
            EffectType::LowPassFilter => spec_get_parameter("frequency"@, e.parameters) is Some
                && spec_get_parameter("q_factor"@, e.parameters) is Some,
            EffectType::Reverb => spec_get_parameter("room_size"@, e.parameters) is Some
                && spec_get_parameter("decay"@, e.parameters) is Some
                && spec_get_parameter("dampening"@, e.parameters) is Some,
            EffectType::Delay => spec_get_parameter("delay"@, e.parameters) is Some,
        },
        spec_build_effect(e) matches Err(m) ==> m == missing_parameter(e) + " parameter not found"@,
        spec_build_effect(e) matches Ok(x) ==> {
            &&& x.spec_kind() == e.effect_type
            &&& x.spec_setting("mix"@) == Some(e.mix)
            &&& forall|k: Seq<char>|
                k != "mix"@ && (#[trigger] x.spec_setting(k)) is Some ==> x.spec_setting(k) == spec_get_parameter(
                    k,
                    e.parameters,
                )
        },
{
    let p = e.parameters;
    let tail = " parameter not found"@;
    reveal_strlit(" parameter not found");
    reveal_strlit("gain");
    reveal_strlit("gain parameter not found");
    reveal_strlit("frequency");
    reveal_strlit("frequency parameter not found");
    reveal_strlit("q_factor");
    reveal_strlit("q_factor parameter not found");
    reveal_strlit("room_size");
    reveal_strlit("room_size parameter not found");
    reveal_strlit("decay");
    reveal_strlit("decay parameter not found");
    reveal_strlit("dampening");
    reveal_strlit("dampening parameter not found");
    reveal_strlit("delay");
    reveal_strlit("delay parameter not found");
    assert("gain parameter not found"@ =~= "gain"@ + tail);
    assert("frequency parameter not found"@ =~= "frequency"@ + tail);
    assert("q_factor parameter not found"@ =~= "q_factor"@ + tail);
    assert("room_size parameter not found"@ =~= "room_size"@ + tail);
    assert("decay parameter not found"@ =~= "decay"@ + tail);
    assert("dampening parameter not found"@ =~= "dampening"@ + tail);
    assert("delay parameter not found"@ =~= "delay"@ + tail);
    match e.effect_type {
        EffectType::Gain => {
            if let Some(g) = spec_get_parameter("gain"@, p) {
                lemma_new_settings(e.mix, g, 0, 0);
            }
        },
        EffectType::LowPassFilter => {
            if let (Some(f), Some(q)) = (spec_get_parameter("frequency"@, p), spec_get_parameter("q_factor"@, p)) {
                lemma_new_settings(e.mix, f, q, 0);
            }
        },
        EffectType::Reverb => {
            if let (Some(r), Some(d), Some(m)) = (
                spec_get_parameter("room_size"@, p),
                spec_get_parameter("decay"@, p),
                spec_get_parameter("dampening"@, p),
            ) {
                lemma_new_settings(e.mix, r, d, m);
            }
        },
        EffectType::Delay => {
            if let Some(d) = spec_get_parameter("delay"@, p) {
                lemma_new_settings(e.mix, d, 0, 0);
            }
        },
    }
}

/// Binding the parameters `params` gives one event per parameter, in
/// order. A parameter is bound exactly when it is a live parameter of the
/// effect and some control input has the id it names; it is then bound,
/// in the effect's slot, to the first control input with that id.
pub proof fn lemma_param_events(
    bus_index: usize,
    effect: Effect,
    slot: u64,
    params: Seq<ParameterView>,
    ids: Seq<Seq<char>>,
)
    requires
        ids.len() <= usize::MAX,
    ensures
        param_events(bus_index, effect, slot, params, ids).len() == params.len(),
        forall|k: int|
            0 <= k < params.len() ==> {
                let ev = #[trigger] param_events(bus_index, effect, slot, params, ids)[k];
                &&& (ev is Bound <==> is_live_key(effect.spec_kind(), params[k].key) && exists|c: int|
                    0 <= c < ids.len() && ids[c] == params[k].input_control_id)
                &&& ev is Bound ==> {
                    &&& ev->bus_index == bus_index
                    &&& ev->slot == slot
                    &&& ev->key == params[k].key
                    &&& is_first_index(ids, params[k].input_control_id, ev->control_input as int)
                }
                &&& ev is Failed ==> ev->message == if is_live_key(effect.spec_kind(), params[k].key) {
                    control_input_not_found_message(params[k].input_control_id)
                } else {
                    parameter_not_found_message()
                }
            },
    decreases params.len(),
{
    if params.len() > 0 {
        let prefix = params.drop_last();
        lemma_param_events(bus_index, effect, slot, prefix, ids);
        let evs = param_events(bus_index, effect, slot, params, ids);
        let evs0 = param_events(bus_index, effect, slot, prefix, ids);
        let n = params.len() - 1;
        let p = params.last();
        lemma_first_index_of(ids, p.input_control_id);
        assert forall|k: int| 0 <= k < params.len() implies {
            let ev = #[trigger] param_events(bus_index, effect, slot, params, ids)[k];
            &&& (ev is Bound <==> is_live_key(effect.spec_kind(), params[k].key) && exists|c: int|
                0 <= c < ids.len() && ids[c] == params[k].input_control_id)
            &&& ev is Bound ==> {
                &&& ev->bus_index == bus_index
                &&& ev->slot == slot
                &&& ev->key == params[k].key
                &&& is_first_index(ids, params[k].input_control_id, ev->control_input as int)
            }
            &&& ev is Failed ==> ev->message == if is_live_key(effect.spec_kind(), params[k].key) {
                control_input_not_found_message(params[k].input_control_id)
            } else {
                parameter_not_found_message()
            }
        } by {
            if k < n {
                assert(evs[k] == evs0[k]);
                assert(params[k] == prefix[k]);
            } else {
                assert(evs[k] == param_event(bus_index, effect, slot, p, ids));
                if let Some(c) = first_index_of(ids, p.input_control_id) {
                    assert(is_first_index(ids, p.input_control_id, c));
                }
            }
        }
    }
}

/// The value of the first parameter named `key`.
pub fn get_parameter(key: &str, parameters: &Vec<EffectParameterDto>) -> (res: Option<u16>)
    ensures
        res == spec_get_parameter(key@, parameters@.map_values(|p: EffectParameterDto| p@)),
{
    let ghost params = parameters@.map_values(|p: EffectParameterDto| p@);
    let ghost keys = params.map_values(|p: ParameterView| p.key);
    let n = parameters.len();
    for i in 0..n
        invariant
            n == parameters@.len(),
            params == parameters@.map_values(|p: EffectParameterDto| p@),
            keys == params.map_values(|p: ParameterView| p.key),
            forall|j: int| 0 <= j < i ==> keys[j] != key@,
    {
        if str_eq(parameters[i].key.as_str(), key) {
            proof {
                assert(keys[i as int] == key@);
                lemma_first_index_found(keys, key@, i as int);
            }
            return Some(parameters[i].value);
        }
    }
    proof {
        lemma_first_index_absent(keys, key@);
    }
    None
}

/// Builds the effect `dto` lists.
pub fn build_effect(dto: &EffectDto) -> (res: Result<Effect, Error>)
    ensures
        match res {
            Ok(e) => spec_build_effect(dto@) == Ok::<Effect, Seq<char>>(e),
            Err(e) => spec_build_effect(dto@) == Err::<Effect, Seq<char>>(e.message@),
        },
{
    match dto.effect_type {
        EffectType::Gain => {
            let gain = match get_parameter("gain", &dto.parameters) {
                Some(gain) => gain,
                None => { return Err(Error::new("gain parameter not found")) },
            };
            Ok(Effect::Gain(GainEffect::new(dto.mix, gain)))
        },
        EffectType::LowPassFilter => {
            let frequency = match get_parameter("frequency", &dto.parameters) {
                Some(frequency) => frequency,
                None => { return Err(Error::new("frequency parameter not found")) },
            };
            let q_factor = match get_parameter("q_factor", &dto.parameters) {
                Some(q_factor) => q_factor,
                None => { return Err(Error::new("q_factor parameter not found")) },
            };
            Ok(Effect::LowPassFilter(LowPassFilterEffect::new(dto.mix, frequency, q_factor)))
        },
        EffectType::Reverb => {
            let room_size = match get_parameter("room_size", &dto.parameters) {
                Some(room_size) => room_size,
                None => { return Err(Error::new("room_size parameter not found")) },
            };
            let reverb_decay = match get_parameter("decay", &dto.parameters) {
                Some(reverb_decay) => reverb_decay,
                None => { return Err(Error::new("decay parameter not found")) },
            };
            let dampening = match get_parameter("dampening", &dto.parameters) {
                Some(dampening) => dampening,
                None => { return Err(Error::new("dampening parameter not found")) },
            };
            Ok(Effect::Reverb(ReverbEffect::new(dto.mix, room_size, reverb_decay, dampening)))
        },
        EffectType::Delay => {
            let delay = match get_parameter("delay", &dto.parameters) {
                Some(delay) => delay,
                None => { return Err(Error::new("delay parameter not found")) },
            };
            Ok(Effect::Delay(DelayEffect::new(dto.mix, delay)))
        },
    }
}

/// The position of the first control input with id `id`.
pub fn find_control_input(control_input_ids: &Vec<String>, id: &str) -> (res: Option<usize>)
    ensures
        match res {
            Some(i) => first_index_of(id_views(control_input_ids@), id@) == Some(i as int),
            None => first_index_of(id_views(control_input_ids@), id@) is None,
        },
{
    let ghost ids = id_views(control_input_ids@);
    let n = control_input_ids.len();
    for i in 0..n
        invariant
            n == control_input_ids@.len(),
            ids == id_views(control_input_ids@),
            forall|j: int| 0 <= j < i ==> ids[j] != id@,
    {
        if str_eq(control_input_ids[i].as_str(), id) {
            proof {
                assert(ids[i as int] == id@);
                lemma_first_index_found(ids, id@, i as int);
            }
            return Some(i);
        }
    }
    proof {
        lemma_first_index_absent(ids, id@);
    }
    None
}

/// Binds the parameters `parameters` of `effect` (in slot `slot` of bus
/// `bus_index`), appending what happened to `events`.
fn bind_parameters(
    bus_index: usize,
    effect: &Effect,
    slot: u64,
    parameters: &Vec<EffectParameterDto>,
    control_input_ids: &Vec<String>,
    events: &mut Vec<ConfigEvent>,
)
    ensures
        event_views(final(events)@) == event_views(old(events)@) + param_events(
            bus_index,
            *effect,
            slot,
            parameters@.map_values(|p: EffectParameterDto| p@),
            id_views(control_input_ids@),
        ),
{
    let ghost params = parameters@.map_values(|p: EffectParameterDto| p@);
    let ghost ids = id_views(control_input_ids@);
    let ghost start = event_views(events@);
    let n = parameters.len();
    for i in 0..n
        invariant
            n == parameters@.len(),
            params == parameters@.map_values(|p: EffectParameterDto| p@),
            ids == id_views(control_input_ids@),
            event_views(events@) == start + param_events(bus_index, *effect, slot, params.take(i as int), ids),
    {
        let p = &parameters[i];
        let ghost before = events@;
        let event = if !effect.has_control(p.key.as_str()) {
            ConfigEvent::Failed { message: "Parameter not found".to_owned() }
        } else {
            match find_control_input(control_input_ids, p.input_control_id.as_str()) {
                None => {
                    let mut message = "control input with id [".to_owned();
                    message.append(p.input_control_id.as_str());
                    message.append("] not found");
                    ConfigEvent::Failed { message }
                },
                Some(c) => ConfigEvent::Bound {
                    bus_index,
                    control_input: c,
                    slot,
                    key: p.key.clone(),
                },
            }
        };
        assert(event@ == param_event(bus_index, *effect, slot, params[i as int], ids));
        events.push(event);
        proof {
            assert(params.take(i + 1).drop_last() =~= params.take(i as int));
            assert(event_views(events@) =~= event_views(before).push(event@));
        }
    }
    assert(params.take(n as int) =~= params);
}

/// Applies the wanted state `dto` to `audio_bus` (bus number `bus_index`):
/// the bus is enabled or disabled as wanted, its chain is emptied and then
/// filled with the listed effects that can be built, in order, and each
/// listed live parameter is bound to the first control input (among
/// `control_input_ids`) with the id the message gives for it. The events
/// say what was bound and what could not be applied, in order.
pub fn update_bus(
    audio_bus: &mut AudioBus,
    bus_index: usize,
    dto: &AudioBusDto,
    control_input_ids: &Vec<String>,
) -> (events: Vec<ConfigEvent>)
    requires
        old(audio_bus).wf(),
        old(audio_bus).spec_next_slot() + dto.effects@.len() <= u64::MAX,
    ensures
        final(audio_bus).wf(),
        (final(audio_bus).view(), event_views(events@)) == spec_update_bus(
            old(audio_bus).view(),
            bus_index,
            dto@,
            id_views(control_input_ids@),
        ),
{
    if dto.enabled {
        audio_bus.enable();
    } else {
        audio_bus.disable();
    }
    audio_bus.clear_effects();
    let ghost start = old(audio_bus).view();
    let ghost effects = dto@.effects;
    let ghost ids = id_views(control_input_ids@);
    let mut events: Vec<ConfigEvent> = Vec::new();
    let n = dto.effects.len();
    for i in 0..n
        invariant
            n == dto.effects@.len(),
            effects == dto@.effects,
            ids == id_views(control_input_ids@),
            start.next_slot + n <= u64::MAX,
            audio_bus.wf(),
            audio_bus.spec_id() == start.id,
            audio_bus.spec_enabled() == dto.enabled,
            audio_bus.spec_buffer_length() == start.buffer_length,
            ({
                let r = update_effects(bus_index, start.next_slot, effects.take(i as int), ids);
                &&& audio_bus.spec_effects() == r.0
                &&& audio_bus.spec_slots() == r.1
                &&& audio_bus.spec_next_slot() == start.next_slot + r.0.len()
                &&& event_views(events@) == r.2
            }),
    {
        proof {
            lemma_update_effects_len(bus_index, start.next_slot, effects.take(i as int), ids);
            assert(effects.take(i + 1).drop_last() =~= effects.take(i as int));
        }
        let effect_dto = &dto.effects[i];
        match build_effect(effect_dto) {
            Err(e) => {
                let ghost before = events@;
                events.push(ConfigEvent::Failed { message: e.message });
                proof {
                    assert(event_views(events@) =~= event_views(before).push(
                        EventView::Failed { message: e.message@ },
                    ));
                }
            },
            Ok(effect) => {
                let slot = audio_bus.next_slot();
                bind_parameters(bus_index, &effect, slot, &effect_dto.parameters, control_input_ids, &mut events);
                audio_bus.add_effect(effect);
            },
        }
    }
    proof {
        assert(effects.take(n as int) =~= effects);
    }
    events
}

/// The message for a bus id that names no bus.
pub open spec fn bus_missing_message(id: Seq<char>) -> Seq<char> {
    id + " does not exist"@
}

/// The buses, and the events, after applying the wanted bus states `dtos`
/// one after the other: each goes to the first bus with its id.
pub open spec fn spec_apply_message(views: Seq<BusView>, dtos: Seq<BusDtoView>, ids: Seq<Seq<char>>) -> (
    Seq<BusView>,
    Seq<EventView>,
)
    decreases dtos.len(),
{
    if dtos.len() == 0 {
        (views, Seq::empty())
    } else {
        let (vs, evs) = spec_apply_message(views, dtos.drop_last(), ids);
        let d = dtos.last();
        match first_index_of(bus_ids(vs), d.id) {
            None => (vs, evs.push(EventView::Failed { message: bus_missing_message(d.id) })),
            Some(i) => {
                let (b, e) = spec_update_bus(vs[i], i as usize, d, ids);
                (vs.update(i, b), evs + e)
            },
        }
    }
}

/// The number of effects a message lists, over all its buses.
pub open spec fn message_effect_count(dtos: Seq<BusDtoView>) -> nat
    decreases dtos.len(),
{
    if dtos.len() == 0 {
        0
    } else {
        message_effect_count(dtos.drop_last()) + dtos.last().effects.len()
    }
}

/// Counting the effects of a message prefix by prefix.
pub proof fn lemma_message_effect_count_prefix(dtos: Seq<BusDtoView>, i: int)
    requires
        0 <= i < dtos.len(),
    ensures
        message_effect_count(dtos.take(i + 1)) == message_effect_count(dtos.take(i)) + dtos[i].effects.len(),
        message_effect_count(dtos.take(i + 1)) <= message_effect_count(dtos),
    decreases dtos.len(),
{
    assert(dtos.take(i + 1).drop_last() =~= dtos.take(i));
    if i + 1 < dtos.len() {
        lemma_message_effect_count_prefix(dtos.drop_last(), i);
        assert(dtos.drop_last().take(i + 1) =~= dtos.take(i + 1));
        assert(dtos.drop_last().take(i) =~= dtos.take(i));
    } else {
        assert(dtos.take(i + 1) =~= dtos);
    }
}

/// Whether every bus of `director` has room for the effects `dto` lists.
pub fn has_room_for_message(director: &RoutingDirector, dto: &Dto) -> (res: bool)
    ensures
        res == forall|i: int|
            0 <= i < director.view().len() ==> (#[trigger] director.view()[i]).next_slot + message_effect_count(dto@)
                <= u64::MAX,
{
    let ghost dtos = dto@;
    let n = dto.audio_buses.len();
    let mut count: u64 = 0;
    for i in 0..n
        invariant
            n == dto.audio_buses@.len(),
            dtos == dto@,
            count == message_effect_count(dtos.take(i as int)),
    {
        proof {
            lemma_message_effect_count_prefix(dtos, i as int);
        }
        let len = dto.audio_buses[i].effects.len();
        if len as u128 + count as u128 > u64::MAX as u128 {
            proof {
                assert(message_effect_count(dtos) > u64::MAX);
                if director.view().len() > 0 {
                    assert(!(director.view()[0].next_slot + message_effect_count(dtos) <= u64::MAX));
                }
            }
            return director.bus_count() == 0;
        }
        count = count + len as u64;
    }
    proof {
        assert(dtos.take(n as int) =~= dtos);
    }
    director.has_room_for(count)
}

/// Applies a configuration message: each wanted bus state goes to the first
/// bus with its id (as [`update_bus`] describes); a wanted state for an id
/// no bus has changes nothing and is reported.
pub fn apply_message(director: &mut RoutingDirector, dto: &Dto, control_input_ids: &Vec<String>) -> (events: Vec<ConfigEvent>)
    requires
        old(director).wf(),
        forall|i: int|
            0 <= i < old(director).view().len() ==> (#[trigger] old(director).view()[i]).next_slot
                + message_effect_count(dto@) <= u64::MAX,
    ensures
        final(director).wf(),
        final(director).keeps_numbering(old(director)),
        (final(director).view(), event_views(events@)) == spec_apply_message(
            old(director).view(),
            dto@,
            id_views(control_input_ids@),
        ),
{
    let ghost dtos = dto@;
    let ghost ids = id_views(control_input_ids@);
    let ghost start = old(director).view();
    let mut events: Vec<ConfigEvent> = Vec::new();
    let n = dto.audio_buses.len();
    for i in 0..n
        invariant
            n == dto.audio_buses@.len(),
            dtos == dto@,
            ids == id_views(control_input_ids@),
            director.wf(),
            director.keeps_numbering(old(director)),
            director.view().len() == start.len(),
            forall|j: int|
                0 <= j < start.len() ==> (#[trigger] director.view()[j]).next_slot <= start[j].next_slot
                    + message_effect_count(dtos.take(i as int)),
            forall|j: int|
                0 <= j < start.len() ==> start[j].next_slot + message_effect_count(dtos) <= u64::MAX,
            (director.view(), event_views(events@)) == spec_apply_message(start, dtos.take(i as int), ids),
    {
        proof {
            lemma_message_effect_count_prefix(dtos, i as int);
            assert(dtos.take(i + 1).drop_last() =~= dtos.take(i as int));
        }
        let bus_dto = &dto.audio_buses[i];
        let ghost before_view = director.view();
        let ghost before_events = events@;
        match director.bus_index(bus_dto.id.as_str()) {
            None => {
                let mut message = bus_dto.id.clone();
                message.append(" does not exist");
                events.push(ConfigEvent::Failed { message });
                proof {
                    assert(event_views(events@) =~= event_views(before_events).push(
                        EventView::Failed { message: bus_missing_message(bus_dto.id@) },
                    ));
                }
            },
            Some(b) => {
                proof {
                    assert(director.view()[b as int].next_slot + bus_dto.effects@.len() <= u64::MAX);
                    lemma_update_effects_len(b, director.view()[b as int].next_slot, bus_dto@.effects, ids);
                }
                let mut bus_events = director.update_bus(b, bus_dto, control_input_ids);
                let ghost added = bus_events@;
                events.append(&mut bus_events);
                proof {
                    assert(event_views(events@) =~= event_views(before_events) + event_views(added));
                    assert forall|j: int| 0 <= j < start.len() implies (#[trigger] director.view()[j]).next_slot
                        <= start[j].next_slot + message_effect_count(dtos.take(i + 1)) by {
                        if j != b {
                            assert(director.view()[j] == before_view[j]);
                        }
                    }
                }
            },
        }
    }
    proof {
        assert(dtos.take(n as int) =~= dtos);
    }
    events
}

/// Some wanted bus state of `dtos` goes to bus number `j` (the first bus
/// whose id it names).
pub open spec fn hits(ids: Seq<Seq<char>>, dtos: Seq<BusDtoView>, j: int) -> bool {
    exists|k: int| 0 <= k < dtos.len() && first_index_of(ids, #[trigger] dtos[k].id) == Some(j)
}

/// The effects a bus ends up with do not depend on its slot numbers.
pub proof fn lemma_chain_independent_of_slots(
    bus_index: usize,
    s1: u64,
    s2: u64,
    effects: Seq<EffectDtoView>,
    ids: Seq<Seq<char>>,
)
    ensures
        update_effects(bus_index, s1, effects, ids).0 == update_effects(bus_index, s2, effects, ids).0,
    decreases effects.len(),
{
    if effects.len() > 0 {
        lemma_chain_independent_of_slots(bus_index, s1, s2, effects.drop_last(), ids);
    }
}

/// Applying a message keeps the number of buses and their ids.
pub proof fn lemma_apply_keeps_ids(views: Seq<BusView>, dtos: Seq<BusDtoView>, ids: Seq<Seq<char>>)
    ensures
        spec_apply_message(views, dtos, ids).0.len() == views.len(),
        bus_ids(spec_apply_message(views, dtos, ids).0) == bus_ids(views),
    decreases dtos.len(),
{
    if dtos.len() > 0 {
        lemma_apply_keeps_ids(views, dtos.drop_last(), ids);
        let (vs, evs) = spec_apply_message(views, dtos.drop_last(), ids);
        let d = dtos.last();
        match first_index_of(bus_ids(vs), d.id) {
            None => {},
            Some(i) => {
                let (b, e) = spec_update_bus(vs[i], i as usize, d, ids);
                assert(bus_ids(vs.update(i, b)) =~= bus_ids(vs));
            },
        }
    }
}

/// Bus number `j` of two bus lists with the same ids ends up alike: if the
/// message reaches it, it ends up enabled or disabled, and with an effect
/// chain, as the message says, whatever it was before; otherwise it stays
/// as it was.
pub proof fn lemma_apply_config_at(v1: Seq<BusView>, v2: Seq<BusView>, dtos: Seq<BusDtoView>, ids: Seq<Seq<char>>, j: int)
    requires
        v1.len() == v2.len(),
        bus_ids(v1) == bus_ids(v2),
        0 <= j < v1.len(),
    ensures
        hits(bus_ids(v1), dtos, j) ==> {
            &&& spec_apply_message(v1, dtos, ids).0[j].enabled == spec_apply_message(v2, dtos, ids).0[j].enabled
            &&& spec_apply_message(v1, dtos, ids).0[j].effects == spec_apply_message(v2, dtos, ids).0[j].effects
        },
        !hits(bus_ids(v1), dtos, j) ==> {
            &&& spec_apply_message(v1, dtos, ids).0[j] == v1[j]
            &&& spec_apply_message(v2, dtos, ids).0[j] == v2[j]
        },
    decreases dtos.len(),
{
    let names = bus_ids(v1);
    if dtos.len() == 0 {
        assert(!hits(names, dtos, j));
    } else {
        let m = dtos.drop_last();
        let d = dtos.last();
        lemma_apply_config_at(v1, v2, m, ids, j);
        lemma_apply_keeps_ids(v1, m, ids);
        lemma_apply_keeps_ids(v2, m, ids);
        let vs1 = spec_apply_message(v1, m, ids).0;
        let vs2 = spec_apply_message(v2, m, ids).0;
        assert(bus_ids(vs1) == names);
        assert(bus_ids(vs2) == names);
        if first_index_of(names, d.id) != Some(j) {
            if hits(names, dtos, j) {
                let k = choose|k: int| 0 <= k < dtos.len() && first_index_of(names, #[trigger] dtos[k].id) == Some(j);
                if k == dtos.len() - 1 {
                    assert(dtos[k] == d);
                } else {
                    assert(m[k] == dtos[k]);
                }
            }
            if hits(names, m, j) {
                let k = choose|k: int| 0 <= k < m.len() && first_index_of(names, #[trigger] m[k].id) == Some(j);
                assert(dtos[k] == m[k]);
            }
            assert(hits(names, dtos, j) == hits(names, m, j));
            match first_index_of(names, d.id) {
                None => {
                    assert(spec_apply_message(v1, dtos, ids).0 == vs1);
                    assert(spec_apply_message(v2, dtos, ids).0 == vs2);
                },
                Some(i) => {
                    let b1 = spec_update_bus(vs1[i], i as usize, d, ids).0;
                    let b2 = spec_update_bus(vs2[i], i as usize, d, ids).0;
                    assert(spec_apply_message(v1, dtos, ids).0 == vs1.update(i, b1));
                    assert(spec_apply_message(v2, dtos, ids).0 == vs2.update(i, b2));
                    assert(spec_apply_message(v1, dtos, ids).0[j] == vs1[j]);
                    assert(spec_apply_message(v2, dtos, ids).0[j] == vs2[j]);
                },
            }
        } else {
            let i = j;
            let b1 = spec_update_bus(vs1[i], i as usize, d, ids).0;
            let b2 = spec_update_bus(vs2[i], i as usize, d, ids).0;
            assert(spec_apply_message(v1, dtos, ids).0 == vs1.update(i, b1));
            assert(spec_apply_message(v2, dtos, ids).0 == vs2.update(i, b2));
            assert(dtos[dtos.len() - 1] == d);
            assert(hits(names, dtos, i));
            lemma_chain_independent_of_slots(i as usize, vs1[i].next_slot, vs2[i].next_slot, d.effects, ids);
        }
    }
}

/// Applying the same message twice leaves every bus with the same id,
/// enabled state and effect chain as applying it once.
pub proof fn lemma_apply_message_idempotent(views: Seq<BusView>, dtos: Seq<BusDtoView>, ids: Seq<Seq<char>>)
    ensures
        ({
            let once = spec_apply_message(views, dtos, ids).0;
            let twice = spec_apply_message(once, dtos, ids).0;
            &&& twice.len() == once.len()
            &&& forall|j: int|
                0 <= j < once.len() ==> {
                    &&& (#[trigger] twice[j]).id == once[j].id
                    &&& twice[j].enabled == once[j].enabled
                    &&& twice[j].effects == once[j].effects
                }
        }),
{
    let once = spec_apply_message(views, dtos, ids).0;
    let twice = spec_apply_message(once, dtos, ids).0;
    lemma_apply_keeps_ids(views, dtos, ids);
    lemma_apply_keeps_ids(once, dtos, ids);
    assert forall|j: int| 0 <= j < once.len() implies {
        &&& (#[trigger] twice[j]).id == once[j].id
        &&& twice[j].enabled == once[j].enabled
        &&& twice[j].effects == once[j].effects
    } by {
        assert(bus_ids(twice)[j] == bus_ids(once)[j]);
        lemma_apply_config_at(once, views, dtos, ids, j);
        lemma_apply_config_at(views, views, dtos, ids, j);
    }
}

/// A bus that no wanted state of the message reaches stays exactly as it was.
pub proof fn lemma_apply_message_untouched(views: Seq<BusView>, dtos: Seq<BusDtoView>, ids: Seq<Seq<char>>, j: int)
    requires
        0 <= j < views.len(),
        forall|k: int| 0 <= k < dtos.len() ==> first_index_of(bus_ids(views), #[trigger] dtos[k].id) != Some(j),
    ensures
        spec_apply_message(views, dtos, ids).0[j] == views[j],
{
    if hits(bus_ids(views), dtos, j) {
        let k = choose|k: int| 0 <= k < dtos.len() && first_index_of(bus_ids(views), #[trigger] dtos[k].id) == Some(j);
        assert(first_index_of(bus_ids(views), dtos[k].id) != Some(j));
    }
    lemma_apply_config_at(views, views, dtos, ids, j);
}

} // verus!
