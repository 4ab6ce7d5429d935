//! Audio buses: the effect chain a bus runs, whether it is enabled, and the
//! chunking of incoming samples before they pass through the chain.
use vstd::prelude::*;

use crate::audio_effects::{is_live_key, lemma_with_value, Effect};
use crate::error::Error;
use crate::text::{decimal, numbered_name, str_eq};

verus! {

/// The effect `after` is `before` with live parameter `key` set to `value`.
pub open spec fn is_set(before: Effect, after: Effect, key: Seq<char>, value: u16) -> bool {
    &&& is_live_key(before.spec_kind(), key)
    &&& after.spec_kind() == before.spec_kind()
    &&& after.spec_setting(key) == Some(value)
    &&& forall|k: Seq<char>| k != key ==> after.spec_setting(k) == before.spec_setting(k)
}

/// The position of the effect in slot `slot`, if the chain has one.
pub open spec fn slot_position(slots: Seq<u64>, slot: u64) -> Option<int> {
    if exists|i: int| 0 <= i < slots.len() && slots[i] == slot {
        Some(choose|i: int| 0 <= i < slots.len() && slots[i] == slot)
    } else {
        None
    }
}

/// The bus after setting live parameter `key` of the effect in slot `slot`
/// to `value`, and whether the chain has such an effect with such a
/// parameter.
pub open spec fn spec_apply_control(b: BusView, slot: u64, key: Seq<char>, value: u16) -> (BusView, bool) {
    match slot_position(b.slots, slot) {
        Some(i) => if is_live_key(b.effects[i].spec_kind(), key) {
            (BusView { effects: b.effects.update(i, b.effects[i].spec_with_value(key, value)), ..b }, true)
        } else {
            (b, false)
        },
        None => (b, false),
    }
}

/// Slot numbers increase along the chain.
pub open spec fn slots_increasing(slots: Seq<u64>) -> bool {
    forall|i: int, j: int| 0 <= i < j < slots.len() ==> slots[i] < slots[j]
}

/// What a bus is, as the contracts see it.
pub struct BusView {
    pub id: Seq<char>,
    pub enabled: bool,
    pub effects: Seq<Effect>,
    pub slots: Seq<u64>,
    pub next_slot: u64,
    pub buffer_length: usize,
}

/// One audio bus: its id (`bus_<n>`), whether it processes audio, and its
/// chain of effects. Each effect added to the bus gets a slot number that is
/// never reused on this bus, so a control bound to an effect keeps reaching
/// that effect, and only it, for as long as it stays in the chain.
pub struct AudioBus {
    bus_id: String,
    enabled: bool,
    effects: Vec<Effect>,
    slots: Vec<u64>,
    next_slot: u64,
    buffer_length: usize,
}

impl AudioBus {
    pub closed spec fn spec_id(&self) -> Seq<char> {
        self.bus_id@
    }

    pub open spec fn view(&self) -> BusView {
        BusView {
            id: self.spec_id(),
            enabled: self.spec_enabled(),
            effects: self.spec_effects(),
            slots: self.spec_slots(),
            next_slot: self.spec_next_slot(),
            buffer_length: self.spec_buffer_length(),
        }
    }

    pub closed spec fn spec_enabled(&self) -> bool {
        self.enabled
    }

    /// The effect chain, in processing order.
    pub closed spec fn spec_effects(&self) -> Seq<Effect> {
        self.effects@
    }

    /// The slot numbers of the effects in the chain.
    pub closed spec fn spec_slots(&self) -> Seq<u64> {
        self.slots@
    }

    /// The slot number the next added effect gets.
    pub closed spec fn spec_next_slot(&self) -> u64 {
        self.next_slot
    }

    /// The number of samples the bus processes at once.
    pub closed spec fn spec_buffer_length(&self) -> usize {
        self.buffer_length
    }

    /// The chain and its slot numbers agree in length, and slot numbers
    /// increase along the chain and lie below the next slot number.
    pub closed spec fn wf(&self) -> bool {
        &&& self.slots@.len() == self.effects@.len()
        &&& slots_increasing(self.slots@)
        &&& forall|i: int| 0 <= i < self.slots@.len() ==> self.slots@[i] < self.next_slot
    }

    /// A well-formed bus has as many slot numbers as effects, increasing
    /// along the chain.
    pub proof fn lemma_wf_view(&self)
        requires
            self.wf(),
        ensures
            self.view().slots.len() == self.view().effects.len(),
            slots_increasing(self.view().slots),
            forall|i: int| 0 <= i < self.view().slots.len() ==> self.view().slots[i] < self.view().next_slot,
    {
    }

    /// A bus numbered `bus_number`, named `bus_<bus_number>`, with an empty chain.
    pub fn new(bus_number: u8, enabled: bool, buffer_length: usize) -> (res: Self)
        ensures
            res.wf(),
            res.spec_id() == "bus_"@ + decimal(bus_number as nat),
            res.spec_enabled() == enabled,
            res.spec_effects() == Seq::<Effect>::empty(),
            res.spec_slots() == Seq::<u64>::empty(),
            res.spec_next_slot() == 0,
            res.spec_buffer_length() == buffer_length,
    {
        AudioBus {
            bus_id: numbered_name("bus_", bus_number),
            enabled,
            effects: Vec::new(),
            slots: Vec::new(),
            next_slot: 0,
            buffer_length,
        }
    }

    /// The slot number the next added effect gets.
    pub fn next_slot(&self) -> (res: u64)
        ensures
            res == self.spec_next_slot(),
    {
        self.next_slot
    }

    /// Whether the bus has room for another effect slot.
    pub fn can_add_effect(&self) -> (res: bool)
        ensures
            res == (self.spec_next_slot() < u64::MAX),
    {
        self.next_slot < u64::MAX
    }

    /// Appends `effect` to the chain and returns its slot number.
    pub fn add_effect(&mut self, effect: Effect) -> (slot: u64)
        requires
            old(self).wf(),
            old(self).spec_next_slot() < u64::MAX,
        ensures
            final(self).wf(),
            slot == old(self).spec_next_slot(),
            final(self).spec_effects() == old(self).spec_effects().push(effect),
            final(self).spec_slots() == old(self).spec_slots().push(slot),
            final(self).spec_next_slot() == old(self).spec_next_slot() + 1,
            final(self).spec_id() == old(self).spec_id(),
            final(self).spec_enabled() == old(self).spec_enabled(),
            final(self).spec_buffer_length() == old(self).spec_buffer_length(),
    {
        let slot = self.next_slot;
        self.effects.push(effect);
        self.slots.push(slot);
        self.next_slot = slot + 1;
        slot
    }

    /// The effect chain.
    pub fn effects(&self) -> (res: &Vec<Effect>)
        ensures
            res@ == self.spec_effects(),
    {
        &self.effects
    }

    /// The slot numbers of the effects in the chain.
    pub fn slots(&self) -> (res: &Vec<u64>)
        ensures
            res@ == self.spec_slots(),
    {
        &self.slots
    }

    /// Removes the effect at `index` from the chain.
    pub fn remove_effect(&mut self, index: usize)
        requires
            old(self).wf(),
            index < old(self).spec_effects().len(),
        ensures
            final(self).wf(),
            final(self).spec_effects() == old(self).spec_effects().remove(index as int),
            final(self).spec_slots() == old(self).spec_slots().remove(index as int),
            final(self).spec_next_slot() == old(self).spec_next_slot(),
            final(self).spec_id() == old(self).spec_id(),
            final(self).spec_enabled() == old(self).spec_enabled(),
            final(self).spec_buffer_length() == old(self).spec_buffer_length(),
    {
        self.effects.remove(index);
        self.slots.remove(index);
        assert forall|i: int, j: int| 0 <= i < j < self.slots@.len() implies self.slots@[i]
            < self.slots@[j] by {
            if i >= index {
                assert(self.slots@[i] == old(self).spec_slots()[i + 1]);
            }
            if j >= index {
                assert(self.slots@[j] == old(self).spec_slots()[j + 1]);
            }
        }
        assert forall|i: int| 0 <= i < self.slots@.len() implies self.slots@[i]
            < self.next_slot by {
            if i >= index {
                assert(self.slots@[i] == old(self).spec_slots()[i + 1]);
            }
        }
    }

    /// Empties the chain. Slot numbers of removed effects are not reused.
    pub fn clear_effects(&mut self)
        requires
            old(self).wf(),
        ensures
            final(self).wf(),
            final(self).spec_effects() == Seq::<Effect>::empty(),
            final(self).spec_slots() == Seq::<u64>::empty(),
            final(self).spec_next_slot() == old(self).spec_next_slot(),
            final(self).spec_id() == old(self).spec_id(),
            final(self).spec_enabled() == old(self).spec_enabled(),
            final(self).spec_buffer_length() == old(self).spec_buffer_length(),
    {
        self.effects.clear();
        self.slots.clear();
    }

    /// Sets live parameter `key` of the effect in slot `slot` to `value`.
    /// Returns whether an effect in the chain has that slot and that live
    /// parameter; otherwise the bus stays as it was.
    pub fn apply_control(&mut self, slot: u64, key: &str, value: u16) -> (res: bool)
        requires
            old(self).wf(),
        ensures
            final(self).wf(),
            (final(self).view(), res) == spec_apply_control(old(self).view(), slot, key@, value),
    {
        let n = self.slots.len();
        let mut i: usize = 0;
        while i < n
            invariant
                n == self.slots@.len(),
                *self == *old(self),
                old(self).wf(),
                i <= n,
                forall|j: int| 0 <= j < i ==> self.slots@[j] != slot,
            decreases n - i,
        {
            if self.slots[i] == slot {
                proof {
                    let p = choose|p: int| 0 <= p < self.slots@.len() && self.slots@[p] == slot;
                    assert(0 <= p < self.slots@.len() && self.slots@[p] == slot);
                    if p < i as int {
                    } else if p > i as int {
                        assert(self.slots@[i as int] < self.slots@[p]);
                    }
                    assert(slot_position(old(self).view().slots, slot) == Some(i as int));
                }
                let ghost old_e = old(self).spec_effects()[i as int];
                let r = self.effects[i].set_value(key, value);
                proof {
                    if r is Ok {
                        assert(self.effects@ =~= old(self).spec_effects().update(
                            i as int,
                            old_e.spec_with_value(key@, value),
                        ));
                        assert(self.view() == spec_apply_control(old(self).view(), slot, key@, value).0);
                    } else {
                        assert(self.effects@ =~= old(self).spec_effects());
                        assert(self.view() == old(self).view());
                    }
                }
                assert forall|a: int, b: int| 0 <= a < b < self.slots@.len() implies self.slots@[a]
                    < self.slots@[b] by {
                    assert(old(self).spec_slots()[a] < old(self).spec_slots()[b]);
                }
                return r.is_ok();
            }
            i = i + 1;
        }
        false
    }

    /// Hands the effect at `index` to `f` and puts back the effect `f`
    /// returns in its place (its slot stays). Fails if the chain has no
    /// effect at `index`.
    pub fn for_effect<F, R>(&mut self, index: usize, f: F) -> (res: Result<R, Error>)
        where
            F: FnOnce(Effect) -> (Effect, R),
        requires
            old(self).wf(),
            forall|e: Effect| f.requires((e,)),
        ensures
            final(self).wf(),
            res is Ok <==> index < old(self).spec_effects().len(),
            res matches Ok(r) ==> {
                &&& f.ensures(
                    (old(self).spec_effects()[index as int],),
                    (final(self).spec_effects()[index as int], r),
                )
                &&& final(self).view() == (BusView {
                    effects: old(self).spec_effects().update(
                        index as int,
                        final(self).spec_effects()[index as int],
                    ),
                    ..old(self).view()
                })
            },
            res matches Err(e) ==> e.message@ == "Index out of bounds"@ && final(self).view() == old(
                self,
            ).view(),
    {
        if index < self.effects.len() {
            let current = self.effects[index];
            let (updated, r) = f(current);
            self.effects.set(index, updated);
            proof {
                assert(self.view() == (BusView {
                    effects: old(self).spec_effects().update(index as int, updated),
                    ..old(self).view()
                }));
            }
            Ok(r)
        } else {
            Err(Error::new("Index out of bounds"))
        }
    }

    /// Starts processing incoming audio.
    pub fn enable(&mut self)
        ensures
            final(self).spec_enabled(),
            final(self).spec_id() == old(self).spec_id(),
            final(self).spec_effects() == old(self).spec_effects(),
            final(self).spec_slots() == old(self).spec_slots(),
            final(self).spec_next_slot() == old(self).spec_next_slot(),
            final(self).spec_buffer_length() == old(self).spec_buffer_length(),
            old(self).wf() ==> final(self).wf(),
    {
        self.enabled = true;
    }

    /// Stops processing incoming audio.
    pub fn disable(&mut self)
        ensures
            !final(self).spec_enabled(),
            final(self).spec_id() == old(self).spec_id(),
            final(self).spec_effects() == old(self).spec_effects(),
            final(self).spec_slots() == old(self).spec_slots(),
            final(self).spec_next_slot() == old(self).spec_next_slot(),
            final(self).spec_buffer_length() == old(self).spec_buffer_length(),
            old(self).wf() ==> final(self).wf(),
    {
        self.enabled = false;
    }

    /// Whether the bus processes incoming audio.
    pub fn is_enabled(&self) -> (res: bool)
        ensures
            res == self.spec_enabled(),
    {
        self.enabled
    }

    /// The id of the bus.
    pub fn id(&self) -> (res: &str)
        ensures
            res@ == self.spec_id(),
    {
        self.bus_id.as_str()
    }

    /// Whether the bus has id `id`.
    pub fn has_id(&self, id: &str) -> (res: bool)
        ensures
            res == (self.spec_id() == id@),
    {
        str_eq(self.bus_id.as_str(), id)
    }

    /// The number of samples the bus processes at once.
    pub fn buffer_length(&self) -> (res: usize)
        ensures
            res == self.spec_buffer_length(),
    {
        self.buffer_length
    }
}

/// The name of auxiliary port number `number` of a JACK client
/// (`Auxiliary_<number>`) and the id of the stream on it
/// (`<client_name>:Auxiliary_<number>`).
pub fn auxiliary_port(client_name: &str, number: u8) -> (res: (String, String))
    ensures
        res.0@ == "Auxiliary_"@ + decimal(number as nat),
        res.1@ == client_name@ + ":"@ + res.0@,
{
    let port_name = numbered_name("Auxiliary_", number);
    let mut stream_id = client_name.to_owned();
    stream_id.append(":");
    stream_id.append(port_name.as_str());
    (port_name, stream_id)
}

/// A control change bound to slot `slot` reaches the effect in that slot and
/// no other: applying it sets that effect's live parameter `key` to `value`,
/// keeps that effect's kind and other parameters, and leaves every other
/// effect, the slots and the rest of the bus as they were.
pub proof fn lemma_control_reaches_bound_effect(b: BusView, slot: u64, key: Seq<char>, value: u16, i: int)
    requires
        b.slots.len() == b.effects.len(),
        slots_increasing(b.slots),
        0 <= i < b.slots.len(),
        b.slots[i] == slot,
        is_live_key(b.effects[i].spec_kind(), key),
    ensures
        spec_apply_control(b, slot, key, value).1,
        is_set(b.effects[i], spec_apply_control(b, slot, key, value).0.effects[i], key, value),
        forall|j: int|
            0 <= j < b.effects.len() && j != i ==> spec_apply_control(b, slot, key, value).0.effects[j]
                == b.effects[j],
        spec_apply_control(b, slot, key, value).0.effects.len() == b.effects.len(),
        spec_apply_control(b, slot, key, value).0.slots == b.slots,
        spec_apply_control(b, slot, key, value).0.id == b.id,
        spec_apply_control(b, slot, key, value).0.enabled == b.enabled,
{
    let p = choose|p: int| 0 <= p < b.slots.len() && b.slots[p] == slot;
    assert(0 <= p < b.slots.len() && b.slots[p] == slot);
    if p < i {
        assert(b.slots[p] < b.slots[i]);
    } else if p > i {
        assert(b.slots[i] < b.slots[p]);
    }
    lemma_with_value(b.effects[i], key, value);
}

/// A control change bound to a slot the chain no longer has changes nothing.
pub proof fn lemma_stale_control_changes_nothing(b: BusView, slot: u64, key: Seq<char>, value: u16)
    requires
        forall|i: int| 0 <= i < b.slots.len() ==> b.slots[i] != slot,
    ensures
        spec_apply_control(b, slot, key, value) == (b, false),
{
}

/// One step of chunking: `sample` joins the pending samples; once they reach
/// the chunk length they are handed out together and none stay pending.
pub open spec fn chunk_step<T>(buffer_length: usize, pending: Seq<T>, sample: T) -> (Option<Seq<T>>, Seq<T>) {
    let s = pending.push(sample);
    if s.len() >= buffer_length {
        (Some(s), Seq::empty())
    } else {
        (None, s)
    }
}

/// The chunks handed out, and the samples left pending, when `samples`
/// arrive one by one at a buffer holding `pending`.
pub open spec fn chunk_run<T>(buffer_length: usize, pending: Seq<T>, samples: Seq<T>) -> (Seq<Seq<T>>, Seq<T>)
    decreases samples.len(),
{
    if samples.len() == 0 {
        (Seq::empty(), pending)
    } else {
        let (chunks, rest) = chunk_run(buffer_length, pending, samples.drop_last());
        let (out, next) = chunk_step(buffer_length, rest, samples.last());
        match out {
            Some(c) => (chunks.push(c), next),
            None => (chunks, next),
        }
    }
}

/// The samples of `chunks`, one chunk after the other.
pub open spec fn concat_all<T>(chunks: Seq<Seq<T>>) -> Seq<T>
    decreases chunks.len(),
{
    if chunks.len() == 0 {
        Seq::empty()
    } else {
        concat_all(chunks.drop_last()) + chunks.last()
    }
}

/// The buffer in front of a bus's effect chain: it gathers incoming samples
/// and hands them out in chunks of the bus's buffer length.
pub struct EffectBuffer<T> {
    pending: Vec<T>,
    buffer_length: usize,
}

impl<T> EffectBuffer<T> {
    /// The samples gathered since the last chunk was handed out.
    pub closed spec fn spec_pending(&self) -> Seq<T> {
        self.pending@
    }

    pub closed spec fn spec_buffer_length(&self) -> usize {
        self.buffer_length
    }

    /// An empty buffer that hands out chunks of `buffer_length` samples.
    pub fn new(buffer_length: usize) -> (res: Self)
        ensures
            res.spec_pending() == Seq::<T>::empty(),
            res.spec_buffer_length() == buffer_length,
    {
        EffectBuffer { pending: Vec::new(), buffer_length }
    }

    /// Adds `sample`; returns the gathered samples once they reach the
    /// buffer length.
    pub fn push(&mut self, sample: T) -> (res: Option<Vec<T>>)
        ensures
            final(self).spec_buffer_length() == old(self).spec_buffer_length(),
            (match res {
                Some(c) => Some(c@),
                None => None,
            }, final(self).spec_pending()) == chunk_step(
                old(self).spec_buffer_length(),
                old(self).spec_pending(),
                sample,
            ),
    {
        self.pending.push(sample);
        if self.pending.len() >= self.buffer_length {
            let mut chunk: Vec<T> = Vec::new();
            std::mem::swap(&mut chunk, &mut self.pending);
            Some(chunk)
        } else {
            None
        }
    }

    /// The number of samples gathered since the last chunk.
    pub fn pending_len(&self) -> (res: usize)
        ensures
            res == self.spec_pending().len(),
    {
        self.pending.len()
    }
}

/// Chunking loses, duplicates and reorders no sample: the chunks handed out,
/// followed by the samples still pending, are the samples that were pending
/// at the start followed by all samples that arrived.
pub proof fn lemma_chunking_preserves_stream<T>(buffer_length: usize, pending: Seq<T>, samples: Seq<T>)
    ensures
        concat_all(chunk_run(buffer_length, pending, samples).0) + chunk_run(buffer_length, pending, samples).1
            == pending + samples,
    decreases samples.len(),
{
    if samples.len() > 0 {
        let prefix = samples.drop_last();
        lemma_chunking_preserves_stream(buffer_length, pending, prefix);
        let (chunks, rest) = chunk_run(buffer_length, pending, prefix);
        let s = rest.push(samples.last());
        let x = samples.last();
        assert(samples =~= prefix.push(x));
        assert(concat_all(chunks) + s =~= (concat_all(chunks) + rest).push(x));
        assert((pending + prefix).push(x) =~= pending + samples);
        if s.len() >= buffer_length {
            assert(chunks.push(s).drop_last() =~= chunks);
            assert(concat_all(chunks.push(s)) == concat_all(chunks) + s);
            assert(concat_all(chunks) + s + Seq::<T>::empty() =~= concat_all(chunks) + s);
        }
    }
}

/// Every chunk handed out has exactly the buffer length (or one sample when
/// the buffer length is 0), as long as fewer samples than that were pending
/// at the start; and fewer than that stay pending.
pub proof fn lemma_chunks_have_buffer_length<T>(buffer_length: usize, pending: Seq<T>, samples: Seq<T>)
    requires
        pending.len() < if buffer_length == 0 { 1 } else { buffer_length as int },
    ensures
        forall|i: int|
            0 <= i < chunk_run(buffer_length, pending, samples).0.len() ==> #[trigger] chunk_run(
                buffer_length,
                pending,
                samples,
            ).0[i].len() == if buffer_length == 0 { 1 } else { buffer_length as int },
        chunk_run(buffer_length, pending, samples).1.len() < if buffer_length == 0 { 1 } else { buffer_length as int },
    decreases samples.len(),
{
    if samples.len() > 0 {
        let prefix = samples.drop_last();
        lemma_chunks_have_buffer_length(buffer_length, pending, prefix);
        let (chunks, rest) = chunk_run(buffer_length, pending, prefix);
        let s = rest.push(samples.last());
        if s.len() >= buffer_length {
            assert forall|i: int| 0 <= i < chunks.push(s).len() implies #[trigger] chunks.push(s)[i].len()
                == if buffer_length == 0 { 1 } else { buffer_length as int } by {
                if i < chunks.len() {
                    assert(chunks.push(s)[i] == chunks[i]);
                }
            }
        }
    }
}

/// The entries of `entries` whose slot is in `slots`, in their order.
pub open spec fn kept_entries<T>(entries: Seq<(u64, T)>, slots: Seq<u64>) -> Seq<(u64, T)>
    decreases entries.len(),
{
    if entries.len() == 0 {
        Seq::empty()
    } else {
        let rest = kept_entries(entries.subrange(1, entries.len() as int), slots);
        if slots.contains(entries[0].0) {
            seq![entries[0]] + rest
        } else {
            rest
        }
    }
}

/// The position of the first entry of `entries` for slot `slot`, if any.
pub open spec fn first_entry_for<T>(entries: Seq<(u64, T)>, slot: u64) -> Option<int> {
    if exists|i: int| 0 <= i < entries.len() && entries[i].0 == slot {
        Some(
            choose|i: int|
                0 <= i < entries.len() && entries[i].0 == slot && forall|j: int|
                    0 <= j < i ==> entries[j].0 != slot,
        )
    } else {
        None
    }
}

/// Whether an entry's slot is among `slots`.
pub open spec fn listed_slot<T>(slots: Seq<u64>) -> spec_fn((u64, T)) -> bool {
    |e: (u64, T)| slots.contains(e.0)
}

/// Retaining `slots` keeps exactly the entries whose slot is among `slots`,
/// each of them, in their order.
pub proof fn lemma_kept_entries_filter<T>(entries: Seq<(u64, T)>, slots: Seq<u64>)
    ensures
        kept_entries(entries, slots) == entries.filter(listed_slot::<T>(slots)),
        forall|i: int|
            0 <= i < entries.len() && slots.contains(entries[i].0) ==> kept_entries(entries, slots).contains(
                #[trigger] entries[i],
            ),
    decreases entries.len(),
{
    assert forall|i: int| 0 <= i < entries.len() && slots.contains(entries[i].0) implies entries.filter(
        listed_slot::<T>(slots),
    ).contains(#[trigger] entries[i]) by {
        entries.lemma_filter_contains(listed_slot::<T>(slots), i);
    }
    if entries.len() > 0 {
        let tail = entries.subrange(1, entries.len() as int);
        let head = seq![entries[0]];
        lemma_kept_entries_filter(tail, slots);
        assert(entries =~= head + tail);
        Seq::filter_distributes_over_add(head, tail, listed_slot::<T>(slots));
        reveal_with_fuel(Seq::filter, 2);
        assert(head.drop_last() =~= Seq::<(u64, T)>::empty());
        if slots.contains(entries[0].0) {
            assert(head.filter(listed_slot::<T>(slots)) =~= head);
        } else {
            assert(head.filter(listed_slot::<T>(slots)) =~= Seq::<(u64, T)>::empty());
            assert(Seq::<(u64, T)>::empty() + tail.filter(listed_slot::<T>(slots)) =~= tail.filter(
                listed_slot::<T>(slots),
            ));
        }
    }
}

/// `first_entry_for` is the position of the first entry for `slot`, and
/// nothing exactly when no entry is for `slot`.
pub proof fn lemma_first_entry_for<T>(entries: Seq<(u64, T)>, slot: u64)
    ensures
        first_entry_for(entries, slot) is None <==> forall|i: int| 0 <= i < entries.len() ==> entries[i].0 != slot,
        first_entry_for(entries, slot) matches Some(i) ==> {
            &&& 0 <= i < entries.len()
            &&& entries[i].0 == slot
            &&& forall|j: int| 0 <= j < i ==> entries[j].0 != slot
        },
{
    if exists|i: int| 0 <= i < entries.len() && entries[i].0 == slot {
        let i = choose|i: int| 0 <= i < entries.len() && entries[i].0 == slot;
        lemma_first_entry_exists(entries, slot, i);
    }
}

/// An entry for `slot` at `i` means there is a first entry for `slot`.
proof fn lemma_first_entry_exists<T>(entries: Seq<(u64, T)>, slot: u64, i: int)
    requires
        0 <= i < entries.len(),
        entries[i].0 == slot,
    ensures
        exists|k: int|
            0 <= k < entries.len() && entries[k].0 == slot && forall|j: int| 0 <= j < k ==> entries[j].0 != slot,
    decreases i,
{
    if exists|k: int| 0 <= k < i && entries[k].0 == slot {
        let k = choose|k: int| 0 <= k < i && entries[k].0 == slot;
        lemma_first_entry_exists(entries, slot, k);
    } else {
        assert(forall|j: int| 0 <= j < i ==> entries[j].0 != slot);
    }
}

/// What `kept_entries` keeps has its slot in `slots` and is an entry of the
/// original sequence.
pub proof fn lemma_kept_entries<T>(entries: Seq<(u64, T)>, slots: Seq<u64>)
    ensures
        forall|i: int|
            0 <= i < kept_entries(entries, slots).len() ==> slots.contains(
                (#[trigger] kept_entries(entries, slots)[i]).0,
            ) && entries.contains(kept_entries(entries, slots)[i]),
        kept_entries(entries, slots).len() <= entries.len(),
    decreases entries.len(),
{
    if entries.len() > 0 {
        let tail = entries.subrange(1, entries.len() as int);
        lemma_kept_entries(tail, slots);
        let k = kept_entries(entries, slots);
        let r = kept_entries(tail, slots);
        assert forall|i: int| 0 <= i < k.len() implies slots.contains((#[trigger] k[i]).0) && entries.contains(k[i]) by {
            if slots.contains(entries[0].0) {
                if i == 0 {
                    assert(entries[0] == k[0]);
                } else {
                    assert(k[i] == r[i - 1]);
                    let m = choose|m: int| 0 <= m < tail.len() && tail[m] == r[i - 1];
                    assert(entries[m + 1] == k[i]);
                }
            } else {
                let m = choose|m: int| 0 <= m < tail.len() && tail[m] == r[i];
                assert(entries[m + 1] == k[i]);
            }
        }
    }
}

/// Whether `slots` holds `slot`.
fn holds_slot(slots: &Vec<u64>, slot: u64) -> (res: bool)
    ensures
        res == slots@.contains(slot),
{
    let n = slots.len();
    for i in 0..n
        invariant
            n == slots@.len(),
            forall|j: int| 0 <= j < i ==> slots@[j] != slot,
    {
        if slots[i] == slot {
            assert(slots@[i as int] == slot);
            return true;
        }
    }
    false
}

/// Values kept under the slot numbers of the effects they serve, such as
/// the nodes that process a bus's effects. Entries of slots that leave the
/// chain can be dropped, so a value serves one effect and only it.
pub struct SlotTable<T> {
    entries: Vec<(u64, T)>,
}

impl<T> SlotTable<T> {
    /// The entries: slot numbers with their values, in order.
    pub closed spec fn view(&self) -> Seq<(u64, T)> {
        self.entries@
    }

    /// A table without entries.
    pub fn new() -> (res: Self)
        ensures
            res.view() == Seq::<(u64, T)>::empty(),
    {
        SlotTable { entries: Vec::new() }
    }

    /// Drops the entries whose slot is not in `slots`; the others stay, in
    /// their order.
    pub fn retain_slots(&mut self, slots: &Vec<u64>)
        ensures
            final(self).view() == kept_entries(old(self).view(), slots@),
            final(self).view() == old(self).view().filter(listed_slot::<T>(slots@)),
            forall|i: int| 0 <= i < final(self).view().len() ==> slots@.contains(#[trigger] final(self).view()[i].0),
    {
        let mut rest: Vec<(u64, T)> = Vec::new();
        std::mem::swap(&mut rest, &mut self.entries);
        let ghost all = rest@;
        while rest.len() > 0
            invariant
                self.entries@ + kept_entries(rest@, slots@) == kept_entries(all, slots@),
            decreases rest@.len(),
        {
            let ghost before = rest@;
            let entry = rest.remove(0);
            assert(rest@ =~= before.subrange(1, before.len() as int));
            if holds_slot(slots, entry.0) {
                let ghost e = self.entries@;
                self.entries.push(entry);
                assert(e + kept_entries(before, slots@) =~= self.entries@ + kept_entries(rest@, slots@));
            }
        }
        assert(self.entries@ + kept_entries(rest@, slots@) =~= self.entries@);
        proof {
            lemma_kept_entries(all, slots@);
            lemma_kept_entries_filter(all, slots@);
        }
    }

    /// Takes the value of the first entry for `slot` out of the table.
    pub fn take(&mut self, slot: u64) -> (res: Option<T>)
        ensures
            match first_entry_for(old(self).view(), slot) {
                Some(i) => res == Some(old(self).view()[i].1) && final(self).view() == old(self).view().remove(i),
                None => res is None && final(self).view() == old(self).view(),
            },
    {
        let n = self.entries.len();
        for i in 0..n
            invariant
                n == self.entries@.len(),
                *self == *old(self),
                forall|j: int| 0 <= j < i ==> self.entries@[j].0 != slot,
        {
            if self.entries[i].0 == slot {
                proof {
                    let p = choose|p: int|
                        0 <= p < self.entries@.len() && self.entries@[p].0 == slot && forall|j: int|
                            0 <= j < p ==> self.entries@[j].0 != slot;
                    assert(self.entries@[i as int].0 == slot);
                    if p < i {
                    } else if p > i {
                        assert(self.entries@[i as int].0 != slot);
                    }
                    assert(first_entry_for(old(self).view(), slot) == Some(i as int));
                }
                let entry = self.entries.remove(i);
                return Some(entry.1);
            }
        }
        None
    }

    /// The number of entries.
    pub fn len(&self) -> (res: usize)
        ensures
            res == self.view().len(),
    {
        self.entries.len()
    }

    /// Adds an entry for `slot` with `value` after the others.
    pub fn insert(&mut self, slot: u64, value: T)
        ensures
            final(self).view() == old(self).view().push((slot, value)),
    {
        self.entries.push((slot, value));
    }
}

} // verus!
