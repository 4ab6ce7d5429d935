//! The settings of the audio effects a bus can run, and the names under which
//! their parameters are set and driven by control inputs.
//!
//! Every effect has a `mix` parameter (the share of the processed signal).
//! Parameters that can be changed while the effect runs ("live" parameters)
//! are set with `set_value` and read with `control_value`; the others are
//! fixed when the effect is created.
use vstd::prelude::*;

use crate::error::Error;
use crate::text::str_eq;

verus! {

/// The kinds of effects.
#[derive(Debug, Clone, Copy, PartialEq, Eq, Structural)]
pub enum EffectType {
    Gain,
    LowPassFilter,
    Reverb,
    Delay,
}

/// Whether `key` names a live parameter of effects of kind `kind`.
pub open spec fn is_live_key(kind: EffectType, key: Seq<char>) -> bool {
    match kind {
        EffectType::Gain => key == "mix"@ || key == "gain"@,
        EffectType::LowPassFilter => key == "mix"@ || key == "frequency"@ || key == "q_factor"@,
        EffectType::Reverb => key == "mix"@,
        EffectType::Delay => key == "mix"@,
    }
}

/// The message of an effect that is asked to set a parameter it has not.
pub open spec fn unknown_parameter_message() -> Seq<char> {
    "Unknown parameter"@
}

/// The message of an effect that is asked for a parameter it does not expose.
pub open spec fn parameter_not_found_message() -> Seq<char> {
    "Parameter not found"@
}

/// The parameter names are pairwise distinct.
pub proof fn lemma_parameter_names_distinct()
    ensures
        "mix"@ != "gain"@,
        "mix"@ != "frequency"@,
        "mix"@ != "q_factor"@,
        "frequency"@ != "q_factor"@,
        "mix"@ != "room_size"@,
        "mix"@ != "decay"@,
        "mix"@ != "dampening"@,
        "room_size"@ != "decay"@,
        "room_size"@ != "dampening"@,
        "decay"@ != "dampening"@,
        "mix"@ != "delay"@,
{
    reveal_strlit("mix");
    reveal_strlit("gain");
    reveal_strlit("frequency");
    reveal_strlit("q_factor");
    reveal_strlit("room_size");
    reveal_strlit("decay");
    reveal_strlit("dampening");
    reveal_strlit("delay");
    assert("mix"@[0] != "gain"@[0]);
    assert("mix"@[0] != "frequency"@[0]);
    assert("mix"@[0] != "q_factor"@[0]);
    assert("frequency"@[0] != "q_factor"@[0]);
    assert("mix"@[0] != "room_size"@[0]);
    assert("mix"@[0] != "decay"@[0]);
    assert("mix"@[0] != "dampening"@[0]);
    assert("room_size"@[0] != "decay"@[0]);
    assert("room_size"@[0] != "dampening"@[0]);
    assert("decay"@[1] != "dampening"@[1]);
    assert("mix"@[0] != "delay"@[0]);
}

/// Settings of a gain stage (-6 dB at 0, 0 dB at the middle, +18 dB at the top).
#[derive(Debug, Clone, Copy)]
pub struct GainEffect {
    mix: u16,
    gain_value: u16,
}

impl GainEffect {
    /// The value of parameter `key`, if the effect has it.
    pub closed spec fn spec_setting(&self, key: Seq<char>) -> Option<u16> {
        if key == "mix"@ {
            Some(self.mix)
        } else if key == "gain"@ {
            Some(self.gain_value)
        } else {
            None
        }
    }

    /// The settings a new gain effect has.
    pub closed spec fn spec_new(mix: u16, gain: u16) -> Self {
        GainEffect { mix, gain_value: gain }
    }

    /// The settings after setting live parameter `key` to `value`.
    pub closed spec fn spec_with_value(self, key: Seq<char>, value: u16) -> Self {
        if key == "mix"@ {
            GainEffect { mix: value, ..self }
        } else if key == "gain"@ {
            GainEffect { gain_value: value, ..self }
        } else {
            self
        }
    }

    pub fn new(mix: u16, gain: u16) -> (res: Self)
        ensures
            res == Self::spec_new(mix, gain),
            res.spec_setting("mix"@) == Some(mix),
            res.spec_setting("gain"@) == Some(gain),
            forall|k: Seq<char>| k != "mix"@ && k != "gain"@ ==> res.spec_setting(k) is None,
    {
        proof {
            lemma_parameter_names_distinct();
        }
        GainEffect { mix, gain_value: gain }
    }

    pub fn mix(&self) -> (res: u16)
        ensures
            Some(res) == self.spec_setting("mix"@),
    {
        self.mix
    }

    pub fn gain(&self) -> (res: u16)
        ensures
            Some(res) == self.spec_setting("gain"@),
    {
        proof {
            lemma_parameter_names_distinct();
        }
        self.gain_value
    }

    /// Sets live parameter `key` to `value`.
    pub fn set_value(&mut self, key: &str, value: u16) -> (res: Result<(), Error>)
        ensures
            res is Ok <==> is_live_key(EffectType::Gain, key@),
            res is Ok ==> *final(self) == old(self).spec_with_value(key@, value),
            res is Ok ==> final(self).spec_setting(key@) == Some(value) && forall|k: Seq<char>|
                k != key@ ==> final(self).spec_setting(k) == old(self).spec_setting(k),
            res matches Err(e) ==> e.message@ == unknown_parameter_message() && *final(self)
                == *old(self),
    {
        proof {
            lemma_parameter_names_distinct();
        }
        if str_eq(key, "mix") {
            self.mix = value;
            Ok(())
        } else if str_eq(key, "gain") {
            proof {
                reveal_strlit("mix");
                reveal_strlit("gain");
            }
            self.gain_value = value;
            Ok(())
        } else {
            Err(Error::new("Unknown parameter"))
        }
    }

    /// The value of live parameter `key`.
    pub fn control_value(&self, key: &str) -> (res: Result<u16, Error>)
        ensures
            res is Ok <==> is_live_key(EffectType::Gain, key@),
            res matches Ok(v) ==> Some(v) == self.spec_setting(key@),
            res matches Err(e) ==> e.message@ == parameter_not_found_message(),
    {
        if str_eq(key, "mix") {
            Ok(self.mix)
        } else if str_eq(key, "gain") {
            proof {
                reveal_strlit("mix");
                reveal_strlit("gain");
            }
            Ok(self.gain_value)
        } else {
            Err(Error::new("Parameter not found"))
        }
    }

    pub fn get_type(&self) -> (res: &'static str)
        ensures
            res@ == "gain"@,
    {
        "gain"
    }
}

/// Settings of a resonant low-pass filter: cutoff frequency (20 Hz to 20 kHz)
/// and quality factor (0.3 to 10, 0.707 at the middle).
#[derive(Debug, Clone, Copy)]
pub struct LowPassFilterEffect {
    mix: u16,
    frequency: u16,
    q_factor: u16,
}

impl LowPassFilterEffect {
    /// The value of parameter `key`, if the effect has it.
    pub closed spec fn spec_setting(&self, key: Seq<char>) -> Option<u16> {
        if key == "mix"@ {
            Some(self.mix)
        } else if key == "frequency"@ {
            Some(self.frequency)
        } else if key == "q_factor"@ {
            Some(self.q_factor)
        } else {
            None
        }
    }

    /// The settings a new low-pass filter has.
    pub closed spec fn spec_new(mix: u16, frequency: u16, q_factor: u16) -> Self {
        LowPassFilterEffect { mix, frequency, q_factor }
    }

    /// The settings after setting live parameter `key` to `value`.
    pub closed spec fn spec_with_value(self, key: Seq<char>, value: u16) -> Self {
        if key == "mix"@ {
            LowPassFilterEffect { mix: value, ..self }
        } else if key == "frequency"@ {
            LowPassFilterEffect { frequency: value, ..self }
        } else if key == "q_factor"@ {
            LowPassFilterEffect { q_factor: value, ..self }
        } else {
            self
        }
    }

    pub fn new(mix: u16, frequency: u16, q_factor: u16) -> (res: Self)
        ensures
            res == Self::spec_new(mix, frequency, q_factor),
            res.spec_setting("mix"@) == Some(mix),
            res.spec_setting("frequency"@) == Some(frequency),
            res.spec_setting("q_factor"@) == Some(q_factor),
            forall|k: Seq<char>|
                k != "mix"@ && k != "frequency"@ && k != "q_factor"@ ==> res.spec_setting(k) is None,
    {
        proof {
            lemma_parameter_names_distinct();
        }
        LowPassFilterEffect { mix, frequency, q_factor }
    }

    pub fn mix(&self) -> (res: u16)
        ensures
            Some(res) == self.spec_setting("mix"@),
    {
        self.mix
    }

    pub fn frequency(&self) -> (res: u16)
        ensures
            Some(res) == self.spec_setting("frequency"@),
    {
        proof {
            lemma_parameter_names_distinct();
        }
        self.frequency
    }

    pub fn q_factor(&self) -> (res: u16)
        ensures
            Some(res) == self.spec_setting("q_factor"@),
    {
        proof {
            lemma_parameter_names_distinct();
        }
        self.q_factor
    }

    /// Sets live parameter `key` to `value`.
    pub fn set_value(&mut self, key: &str, value: u16) -> (res: Result<(), Error>)
        ensures
            res is Ok <==> is_live_key(EffectType::LowPassFilter, key@),
            res is Ok ==> *final(self) == old(self).spec_with_value(key@, value),
            res is Ok ==> final(self).spec_setting(key@) == Some(value) && forall|k: Seq<char>|
                k != key@ ==> final(self).spec_setting(k) == old(self).spec_setting(k),
            res matches Err(e) ==> e.message@ == unknown_parameter_message() && *final(self)
                == *old(self),
    {
        proof {
            lemma_parameter_names_distinct();
        }
        if str_eq(key, "mix") {
            self.mix = value;
            Ok(())
        } else if str_eq(key, "frequency") {
            self.frequency = value;
            Ok(())
        } else if str_eq(key, "q_factor") {
            self.q_factor = value;
            Ok(())
        } else {
            Err(Error::new("Unknown parameter"))
        }
    }

    /// The value of live parameter `key`.
    pub fn control_value(&self, key: &str) -> (res: Result<u16, Error>)
        ensures
            res is Ok <==> is_live_key(EffectType::LowPassFilter, key@),
            res matches Ok(v) ==> Some(v) == self.spec_setting(key@),
            res matches Err(e) ==> e.message@ == parameter_not_found_message(),
    {
        proof {
            lemma_parameter_names_distinct();
        }
        if str_eq(key, "mix") {
            Ok(self.mix)
        } else if str_eq(key, "frequency") {
            Ok(self.frequency)
        } else if str_eq(key, "q_factor") {
            Ok(self.q_factor)
        } else {
            Err(Error::new("Parameter not found"))
        }
    }

    pub fn get_type(&self) -> (res: &'static str)
        ensures
            res@ == "low_pass_filter"@,
    {
        "low_pass_filter"
    }
}

/// Settings of a stereo reverb: room size (10 to 30 m), decay time
/// (0.01 to 20 s) and dampening (0 to 1). Only the mix is live.
#[derive(Debug, Clone, Copy)]
pub struct ReverbEffect {
    mix: u16,
    room_size: u16,
    reverb_decay: u16,
    dampening: u16,
}

impl ReverbEffect {
    /// The value of parameter `key`, if the effect has it.
    pub closed spec fn spec_setting(&self, key: Seq<char>) -> Option<u16> {
        if key == "mix"@ {
            Some(self.mix)
        } else if key == "room_size"@ {
            Some(self.room_size)
        } else if key == "decay"@ {
            Some(self.reverb_decay)
        } else if key == "dampening"@ {
            Some(self.dampening)
        } else {
            None
        }
    }

    /// The settings a new reverb has.
    pub closed spec fn spec_new(mix: u16, room_size: u16, reverb_decay: u16, dampening: u16) -> Self {
        ReverbEffect { mix, room_size, reverb_decay, dampening }
    }

    /// The settings after setting live parameter `key` to `value`.
    pub closed spec fn spec_with_value(self, key: Seq<char>, value: u16) -> Self {
        if key == "mix"@ {
            ReverbEffect { mix: value, ..self }
        } else {
            self
        }
    }

    pub fn new(mix: u16, room_size: u16, reverb_decay: u16, dampening: u16) -> (res: Self)
        ensures
            res == Self::spec_new(mix, room_size, reverb_decay, dampening),
            res.spec_setting("mix"@) == Some(mix),
            res.spec_setting("room_size"@) == Some(room_size),
            res.spec_setting("decay"@) == Some(reverb_decay),
            res.spec_setting("dampening"@) == Some(dampening),
            forall|k: Seq<char>|
                k != "mix"@ && k != "room_size"@ && k != "decay"@ && k != "dampening"@
                    ==> res.spec_setting(k) is None,
    {
        proof {
            lemma_parameter_names_distinct();
        }
        ReverbEffect { mix, room_size, reverb_decay, dampening }
    }

    pub fn mix(&self) -> (res: u16)
        ensures
            Some(res) == self.spec_setting("mix"@),
    {
        self.mix
    }

    pub fn room_size(&self) -> (res: u16)
        ensures
            Some(res) == self.spec_setting("room_size"@),
    {
        proof {
            lemma_parameter_names_distinct();
        }
        self.room_size
    }

    pub fn reverb_decay(&self) -> (res: u16)
        ensures
            Some(res) == self.spec_setting("decay"@),
    {
        proof {
            lemma_parameter_names_distinct();
        }
        self.reverb_decay
    }

    pub fn dampening(&self) -> (res: u16)
        ensures
            Some(res) == self.spec_setting("dampening"@),
    {
        proof {
            lemma_parameter_names_distinct();
        }
        self.dampening
    }

    /// Sets live parameter `key` to `value`.
    pub fn set_value(&mut self, key: &str, value: u16) -> (res: Result<(), Error>)
        ensures
            res is Ok <==> is_live_key(EffectType::Reverb, key@),
            res is Ok ==> *final(self) == old(self).spec_with_value(key@, value),
            res is Ok ==> final(self).spec_setting(key@) == Some(value) && forall|k: Seq<char>|
                k != key@ ==> final(self).spec_setting(k) == old(self).spec_setting(k),
            res matches Err(e) ==> e.message@ == unknown_parameter_message() && *final(self)
                == *old(self),
    {
        proof {
            lemma_parameter_names_distinct();
        }
        if str_eq(key, "mix") {
            self.mix = value;
            Ok(())
        } else {
            Err(Error::new("Unknown parameter"))
        }
    }

    /// The value of live parameter `key`.
    pub fn control_value(&self, key: &str) -> (res: Result<u16, Error>)
        ensures
            res is Ok <==> is_live_key(EffectType::Reverb, key@),
            res matches Ok(v) ==> Some(v) == self.spec_setting(key@),
            res matches Err(e) ==> e.message@ == parameter_not_found_message(),
    {
        if str_eq(key, "mix") {
            Ok(self.mix)
        } else {
            Err(Error::new("Parameter not found"))
        }
    }

    pub fn get_type(&self) -> (res: &'static str)
        ensures
            res@ == "reverb"@,
    {
        "reverb"
    }
}

/// Settings of a delay line: delay time (0.01 to 2 s). Only the mix is live.
#[derive(Debug, Clone, Copy)]
pub struct DelayEffect {
    mix: u16,
    delay: u16,
}

impl DelayEffect {
    /// The value of parameter `key`, if the effect has it.
    pub closed spec fn spec_setting(&self, key: Seq<char>) -> Option<u16> {
        if key == "mix"@ {
            Some(self.mix)
        } else if key == "delay"@ {
            Some(self.delay)
        } else {
            None
        }
    }

    /// The settings a new delay has.
    pub closed spec fn spec_new(mix: u16, delay_value: u16) -> Self {
        DelayEffect { mix, delay: delay_value }
    }

    /// The settings after setting live parameter `key` to `value`.
    pub closed spec fn spec_with_value(self, key: Seq<char>, value: u16) -> Self {
        if key == "mix"@ {
            DelayEffect { mix: value, ..self }
        } else {
            self
        }
    }

    pub fn new(mix: u16, delay_value: u16) -> (res: Self)
        ensures
            res == Self::spec_new(mix, delay_value),
            res.spec_setting("mix"@) == Some(mix),
            res.spec_setting("delay"@) == Some(delay_value),
            forall|k: Seq<char>| k != "mix"@ && k != "delay"@ ==> res.spec_setting(k) is None,
    {
        proof {
            lemma_parameter_names_distinct();
        }
        DelayEffect { mix, delay: delay_value }
    }

    pub fn mix(&self) -> (res: u16)
        ensures
            Some(res) == self.spec_setting("mix"@),
    {
        self.mix
    }

    pub fn delay(&self) -> (res: u16)
        ensures
            Some(res) == self.spec_setting("delay"@),
    {
        proof {
            lemma_parameter_names_distinct();
        }
        self.delay
    }

    /// Sets live parameter `key` to `value`.
    pub fn set_value(&mut self, key: &str, value: u16) -> (res: Result<(), Error>)
        ensures
            res is Ok <==> is_live_key(EffectType::Delay, key@),
            res is Ok ==> *final(self) == old(self).spec_with_value(key@, value),
            res is Ok ==> final(self).spec_setting(key@) == Some(value) && forall|k: Seq<char>|
                k != key@ ==> final(self).spec_setting(k) == old(self).spec_setting(k),
            res matches Err(e) ==> e.message@ == unknown_parameter_message() && *final(self)
                == *old(self),
    {
        proof {
            lemma_parameter_names_distinct();
        }
        if str_eq(key, "mix") {
            self.mix = value;
            Ok(())
        } else {
            Err(Error::new("Unknown parameter"))
        }
    }

    /// The value of live parameter `key`.
    pub fn control_value(&self, key: &str) -> (res: Result<u16, Error>)
        ensures
            res is Ok <==> is_live_key(EffectType::Delay, key@),
            res matches Ok(v) ==> Some(v) == self.spec_setting(key@),
            res matches Err(e) ==> e.message@ == parameter_not_found_message(),
    {
        if str_eq(key, "mix") {
            Ok(self.mix)
        } else {
            Err(Error::new("Parameter not found"))
        }
    }

    pub fn get_type(&self) -> (res: &'static str)
        ensures
            res@ == "delay"@,
    {
        "delay"
    }
}

/// An effect of any kind.
#[derive(Debug, Clone, Copy)]
pub enum Effect {
    Gain(GainEffect),
    LowPassFilter(LowPassFilterEffect),
    Reverb(ReverbEffect),
    Delay(DelayEffect),
}

impl Effect {
    /// The kind of the effect.
    pub open spec fn spec_kind(self) -> EffectType {
        match self {
            Effect::Gain(_) => EffectType::Gain,
            Effect::LowPassFilter(_) => EffectType::LowPassFilter,
            Effect::Reverb(_) => EffectType::Reverb,
            Effect::Delay(_) => EffectType::Delay,
        }
    }

    /// The value of parameter `key`, if the effect has it.
    pub open spec fn spec_setting(self, key: Seq<char>) -> Option<u16> {
        match self {
            Effect::Gain(e) => e.spec_setting(key),
            Effect::LowPassFilter(e) => e.spec_setting(key),
            Effect::Reverb(e) => e.spec_setting(key),
            Effect::Delay(e) => e.spec_setting(key),
        }
    }

    /// The value of live parameter `key`, if the effect has it.
    pub open spec fn spec_control(self, key: Seq<char>) -> Option<u16> {
        if is_live_key(self.spec_kind(), key) {
            self.spec_setting(key)
        } else {
            None
        }
    }

    /// The effect after setting live parameter `key` to `value`.
    pub open spec fn spec_with_value(self, key: Seq<char>, value: u16) -> Effect {
        match self {
            Effect::Gain(e) => Effect::Gain(e.spec_with_value(key, value)),
            Effect::LowPassFilter(e) => Effect::LowPassFilter(e.spec_with_value(key, value)),
            Effect::Reverb(e) => Effect::Reverb(e.spec_with_value(key, value)),
            Effect::Delay(e) => Effect::Delay(e.spec_with_value(key, value)),
        }
    }

    pub fn kind(&self) -> (res: EffectType)
        ensures
            res == self.spec_kind(),
    {
        match self {
            Effect::Gain(_) => EffectType::Gain,
            Effect::LowPassFilter(_) => EffectType::LowPassFilter,
            Effect::Reverb(_) => EffectType::Reverb,
            Effect::Delay(_) => EffectType::Delay,
        }
    }

    /// Sets live parameter `key` to `value`; the kind and the other
    /// parameters stay.
    pub fn set_value(&mut self, key: &str, value: u16) -> (res: Result<(), Error>)
        ensures
            res is Ok <==> is_live_key(old(self).spec_kind(), key@),
            final(self).spec_kind() == old(self).spec_kind(),
            res is Ok ==> *final(self) == old(self).spec_with_value(key@, value),
            res is Ok ==> final(self).spec_setting(key@) == Some(value) && forall|k: Seq<char>|
                k != key@ ==> final(self).spec_setting(k) == old(self).spec_setting(k),
            res matches Err(e) ==> e.message@ == unknown_parameter_message() && *final(self)
                == *old(self),
    {
        match self {
            Effect::Gain(e) => e.set_value(key, value),
            Effect::LowPassFilter(e) => e.set_value(key, value),
            Effect::Reverb(e) => e.set_value(key, value),
            Effect::Delay(e) => e.set_value(key, value),
        }
    }

    /// The value of live parameter `key`.
    pub fn control_value(&self, key: &str) -> (res: Result<u16, Error>)
        ensures
            res is Ok <==> is_live_key(self.spec_kind(), key@),
            res matches Ok(v) ==> Some(v) == self.spec_control(key@),
            res matches Err(e) ==> e.message@ == parameter_not_found_message(),
    {
        match self {
            Effect::Gain(e) => e.control_value(key),
            Effect::LowPassFilter(e) => e.control_value(key),
            Effect::Reverb(e) => e.control_value(key),
            Effect::Delay(e) => e.control_value(key),
        }
    }

    /// Whether `key` names a live parameter of this effect.
    pub fn has_control(&self, key: &str) -> (res: bool)
        ensures
            res == is_live_key(self.spec_kind(), key@),
    {
        self.control_value(key).is_ok()
    }

    /// The name of the effect's kind.
    pub fn get_type(&self) -> (res: &'static str)
        ensures
            self.spec_kind() == EffectType::Gain ==> res@ == "gain"@,
            self.spec_kind() == EffectType::LowPassFilter ==> res@ == "low_pass_filter"@,
            self.spec_kind() == EffectType::Reverb ==> res@ == "reverb"@,
            self.spec_kind() == EffectType::Delay ==> res@ == "delay"@,
    {
        match self {
            Effect::Gain(e) => e.get_type(),
            Effect::LowPassFilter(e) => e.get_type(),
            Effect::Reverb(e) => e.get_type(),
            Effect::Delay(e) => e.get_type(),
        }
    }
}

/// A new effect of each kind has its mix, the values it is created with
/// under their names, and no other setting.
pub proof fn lemma_new_settings(mix: u16, a: u16, b: u16, c: u16)
    ensures
        ({
            let g = Effect::Gain(GainEffect::spec_new(mix, a));
            &&& g.spec_setting("mix"@) == Some(mix)
            &&& g.spec_setting("gain"@) == Some(a)
            &&& forall|k: Seq<char>| k != "mix"@ && k != "gain"@ ==> (#[trigger] g.spec_setting(k)) is None
        }),
        ({
            let f = Effect::LowPassFilter(LowPassFilterEffect::spec_new(mix, a, b));
            &&& f.spec_setting("mix"@) == Some(mix)
            &&& f.spec_setting("frequency"@) == Some(a)
            &&& f.spec_setting("q_factor"@) == Some(b)
            &&& forall|k: Seq<char>|
                k != "mix"@ && k != "frequency"@ && k != "q_factor"@ ==> (#[trigger] f.spec_setting(k)) is None
        }),
        ({
            let r = Effect::Reverb(ReverbEffect::spec_new(mix, a, b, c));
            &&& r.spec_setting("mix"@) == Some(mix)
            &&& r.spec_setting("room_size"@) == Some(a)
            &&& r.spec_setting("decay"@) == Some(b)
            &&& r.spec_setting("dampening"@) == Some(c)
            &&& forall|k: Seq<char>|
                k != "mix"@ && k != "room_size"@ && k != "decay"@ && k != "dampening"@ ==> (#[trigger] r.spec_setting(
                    k,
                )) is None
        }),
        ({
            let d = Effect::Delay(DelayEffect::spec_new(mix, a));
            &&& d.spec_setting("mix"@) == Some(mix)
            &&& d.spec_setting("delay"@) == Some(a)
            &&& forall|k: Seq<char>| k != "mix"@ && k != "delay"@ ==> (#[trigger] d.spec_setting(k)) is None
        }),
{
    lemma_parameter_names_distinct();
}

/// Setting a live parameter changes that parameter to the value set and
/// leaves the kind and every other parameter as they were.
pub proof fn lemma_with_value(e: Effect, key: Seq<char>, value: u16)
    requires
        is_live_key(e.spec_kind(), key),
    ensures
        e.spec_with_value(key, value).spec_kind() == e.spec_kind(),
        e.spec_with_value(key, value).spec_setting(key) == Some(value),
        forall|k: Seq<char>| k != key ==> e.spec_with_value(key, value).spec_setting(k) == e.spec_setting(k),
{
    lemma_parameter_names_distinct();
}

/// A live parameter reads back the value it was last set to: after a
/// successful `set_value(key, v)`, `control_value(key)` is `v`.
pub proof fn lemma_set_then_control(before: Effect, after: Effect, key: Seq<char>, value: u16)
    requires
        is_live_key(before.spec_kind(), key),
        after.spec_kind() == before.spec_kind(),
        after.spec_setting(key) == Some(value),
    ensures
        after.spec_control(key) == Some(value),
{
}

} // verus!
