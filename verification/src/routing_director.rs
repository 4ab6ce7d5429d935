//! The routing director: the registry of audio buses, which of them receive
//! the incoming audio, and the entry points that change a bus by its id or
//! its number.
use vstd::prelude::*;

use crate::audio_bus::{slots_increasing, spec_apply_control, AudioBus, BusView};
use crate::error::Error;
use crate::text::{decimal, first_index_of, lemma_decimal_injective, lemma_first_index_absent, lemma_first_index_found};
use crate::vcsgp::{event_views, id_views, spec_update_bus, update_bus, AudioBusDto, ConfigEvent};

verus! {

/// The views of a list of buses.
pub open spec fn bus_views(buses: Seq<AudioBus>) -> Seq<BusView> {
    buses.map_values(|b: AudioBus| b.view())
}

/// The ids of a list of buses.
pub open spec fn bus_ids(views: Seq<BusView>) -> Seq<Seq<char>> {
    views.map_values(|b: BusView| b.id)
}

/// The id of the bus created as number `n` (counting from 0): `bus_<n>`,
/// with the number taken modulo 256.
pub open spec fn bus_name(n: int) -> Seq<char> {
    "bus_"@ + decimal((n % 256) as nat)
}

/// A freshly added bus: disabled, with an empty chain.
pub open spec fn new_bus_view(n: int, buffer_length: usize) -> BusView {
    BusView {
        id: bus_name(n),
        enabled: false,
        effects: Seq::empty(),
        slots: Seq::empty(),
        next_slot: 0,
        buffer_length,
    }
}

/// The message for a bus id that names no bus.
pub open spec fn bus_not_found_message(id: Seq<char>) -> Seq<char> {
    "AudioBus "@ + id + " not found"@
}

/// The positions of the enabled buses, in increasing order.
pub open spec fn enabled_indices(views: Seq<BusView>) -> Seq<usize>
    decreases views.len(),
{
    if views.len() == 0 {
        Seq::empty()
    } else {
        let p = enabled_indices(views.drop_last());
        if views.last().enabled {
            p.push((views.len() - 1) as usize)
        } else {
            p
        }
    }
}

/// The numbers given to buses as they are created. Every attempt to create
/// a bus takes the next number (counting from 0, modulo 256), whether or
/// not the bus could be created. One numbering serves every router of a
/// program, so buses are numbered across routers in the order they are
/// created.
pub struct BusNumbering {
    next: u8,
    attempts: Ghost<nat>,
}

impl BusNumbering {
    /// How many numbers were taken so far.
    pub closed spec fn spec_attempts(&self) -> nat {
        self.attempts@
    }

    /// The next number is the count of numbers taken, modulo 256.
    #[verifier::type_invariant]
    spec fn counts_attempts(&self) -> bool {
        self.next as int == self.attempts@ % 256
    }

    /// A numbering that gives 0 first.
    pub fn new() -> (res: Self)
        ensures
            res.spec_attempts() == 0,
    {
        BusNumbering { next: 0, attempts: Ghost(0) }
    }

    /// Takes the next number.
    fn take(&mut self) -> (number: u8)
        ensures
            number as int == old(self).spec_attempts() % 256,
            final(self).spec_attempts() == old(self).spec_attempts() + 1,
    {
        proof {
            use_type_invariant(&*self);
        }
        let number = self.next;
        let ghost taken = self.attempts@;
        *self = BusNumbering { next: number.wrapping_add(1), attempts: Ghost(taken + 1) };
        number
    }
}

/// The buses of a router, in the order they were added; a bus whose number
/// is `n` has id `bus_<n>`.
pub struct RoutingDirector {
    audio_buses: Vec<AudioBus>,
    buffer_length: usize,
    serials: Ghost<Seq<nat>>,
}

impl RoutingDirector {
    pub closed spec fn spec_buses(&self) -> Seq<AudioBus> {
        self.audio_buses@
    }

    /// The buses, in the order they were added.
    pub open spec fn view(&self) -> Seq<BusView> {
        bus_views(self.spec_buses())
    }

    /// The number of samples each bus processes at once.
    pub closed spec fn spec_buffer_length(&self) -> usize {
        self.buffer_length
    }

    /// For each bus, how many numbers its numbering had given before the
    /// attempt that created it.
    pub closed spec fn spec_serials(&self) -> Seq<nat> {
        self.serials@
    }

    /// `self` has the buses' numbers and the buffer length of `before`.
    pub open spec fn keeps_numbering(&self, before: &Self) -> bool {
        &&& self.spec_buffer_length() == before.spec_buffer_length()
        &&& self.spec_serials() == before.spec_serials()
    }

    /// Every bus was numbered by `numbering`: later buses by later
    /// attempts, all of them before its current count.
    pub open spec fn numbered_by(&self, numbering: &BusNumbering) -> bool {
        &&& forall|i: int, j: int|
            0 <= i < j < self.spec_serials().len() ==> self.spec_serials()[i] < self.spec_serials()[j]
        &&& forall|i: int| 0 <= i < self.spec_serials().len() ==> #[trigger] self.spec_serials()[i] < numbering.spec_attempts()
    }

    /// Bus number `i` is well formed, has the id of its number and the
    /// router's buffer length.
    closed spec fn bus_fits(&self, i: int) -> bool {
        &&& self.audio_buses@[i].wf()
        &&& self.audio_buses@[i].spec_id() == bus_name(self.serials@[i] as int)
        &&& self.audio_buses@[i].spec_buffer_length() == self.buffer_length
    }

    /// Every bus fits.
    pub closed spec fn wf(&self) -> bool {
        &&& self.serials@.len() == self.audio_buses@.len()
        &&& forall|i: int| 0 <= i < self.audio_buses@.len() ==> #[trigger] self.bus_fits(i)
    }

    /// Facts every well-formed router's buses have.
    pub proof fn lemma_wf_view(&self)
        requires
            self.wf(),
        ensures
            self.spec_serials().len() == self.view().len(),
            forall|i: int|
                0 <= i < self.view().len() ==> (#[trigger] self.view()[i]).id == bus_name(self.spec_serials()[i] as int),
            forall|i: int|
                0 <= i < self.view().len() ==> (#[trigger] self.view()[i]).buffer_length
                    == self.spec_buffer_length(),
            forall|i: int|
                0 <= i < self.view().len() ==> (#[trigger] self.view()[i]).slots.len() == self.view()[i].effects.len(),
            forall|i: int| 0 <= i < self.view().len() ==> slots_increasing(#[trigger] self.view()[i].slots),
            forall|i: int, k: int|
                0 <= i < self.view().len() && 0 <= k < self.view()[i].slots.len() ==> (#[trigger] self.view()[i].slots[k])
                    < self.view()[i].next_slot,
    {
        assert forall|i: int| 0 <= i < self.view().len() implies {
            &&& (#[trigger] self.view()[i]).slots.len() == self.view()[i].effects.len()
            &&& slots_increasing(self.view()[i].slots)
            &&& forall|k: int| 0 <= k < self.view()[i].slots.len() ==> self.view()[i].slots[k] < self.view()[i].next_slot
            &&& self.view()[i].id == bus_name(self.spec_serials()[i] as int)
            &&& self.view()[i].buffer_length == self.spec_buffer_length()
        } by {
            assert(self.bus_fits(i));
            self.audio_buses@[i].lemma_wf_view();
        }
    }

    /// Replacing one bus by a well-formed bus with the same id and buffer
    /// length keeps the router well formed.
    proof fn lemma_replace_keeps_wf(before: Self, after: Self, i: int)
        requires
            before.wf(),
            0 <= i < before.audio_buses@.len(),
            after.audio_buses@ == before.audio_buses@.update(i, after.audio_buses@[i]),
            after.audio_buses@[i].wf(),
            after.audio_buses@[i].spec_id() == before.audio_buses@[i].spec_id(),
            after.audio_buses@[i].spec_buffer_length() == before.audio_buses@[i].spec_buffer_length(),
            after.buffer_length == before.buffer_length,
            after.serials == before.serials,
        ensures
            after.wf(),
    {
        assert forall|j: int| 0 <= j < after.audio_buses@.len() implies #[trigger] after.bus_fits(j) by {
            assert(before.bus_fits(j));
        }
    }

    /// A router without buses, whose buses process `buffer_length` samples
    /// at once.
    pub fn new(buffer_length: usize) -> (res: Self)
        ensures
            res.wf(),
            res.view() == Seq::<BusView>::empty(),
            res.spec_buffer_length() == buffer_length,
            res.spec_serials() == Seq::<nat>::empty(),
    {
        let res = RoutingDirector { audio_buses: Vec::new(), buffer_length, serials: Ghost(Seq::empty()) };
        assert(res.view() =~= Seq::<BusView>::empty());
        res
    }

    /// Takes the next bus number of `numbering` and, where the bus's output
    /// could be opened (`output` is `Ok`), adds a disabled bus with that
    /// number and an empty chain and returns its id. Where it could not,
    /// the number stays used and `output`'s error is returned.
    pub fn add_audio_bus(&mut self, numbering: &mut BusNumbering, output: Result<(), Error>) -> (res: Result<
        String,
        Error,
    >)
        requires
            old(self).wf(),
        ensures
            final(self).wf(),
            final(self).spec_buffer_length() == old(self).spec_buffer_length(),
            final(numbering).spec_attempts() == old(numbering).spec_attempts() + 1,
            old(self).numbered_by(old(numbering)) ==> final(self).numbered_by(final(numbering)),
            match output {
                Ok(_) => {
                    &&& res matches Ok(id) && id@ == bus_name(old(numbering).spec_attempts() as int)
                    &&& final(self).view() == old(self).view().push(
                        new_bus_view(old(numbering).spec_attempts() as int, old(self).spec_buffer_length()),
                    )
                    &&& final(self).spec_serials() == old(self).spec_serials().push(old(numbering).spec_attempts())
                },
                Err(e) => {
                    &&& res == Err::<String, Error>(e)
                    &&& final(self).view() == old(self).view()
                    &&& final(self).spec_serials() == old(self).spec_serials()
                },
            },
    {
        let ghost serial = numbering.spec_attempts();
        let number = numbering.take();
        if let Err(e) = output {
            return Err(e);
        }
        let bus = AudioBus::new(number, false, self.buffer_length);
        let id = bus.id().to_owned();
        self.audio_buses.push(bus);
        self.serials = Ghost(self.serials@.push(serial));
        proof {
            assert forall|j: int| 0 <= j < self.audio_buses@.len() implies #[trigger] self.bus_fits(j) by {
                if j < old(self).spec_buses().len() {
                    assert(old(self).bus_fits(j));
                }
            }
            if old(self).numbered_by(old(numbering)) {
                assert forall|i: int| 0 <= i < self.serials@.len() implies #[trigger] self.serials@[i]
                    < numbering.spec_attempts() by {
                    if i < old(self).spec_serials().len() {
                        assert(old(self).spec_serials()[i] < serial);
                    }
                }
                assert forall|a: int, b: int| 0 <= a < b < self.serials@.len() implies self.serials@[a]
                    < self.serials@[b] by {
                    if b == self.serials@.len() - 1 {
                        assert(old(self).spec_serials()[a] < serial);
                    }
                }
            }
            assert(bus_views(self.audio_buses@) =~= bus_views(old(self).spec_buses()).push(bus.view()));
            assert(bus.view().effects =~= Seq::<crate::audio_effects::Effect>::empty());
            assert(bus.view().slots =~= Seq::<u64>::empty());
        }
        Ok(id)
    }

    /// The number of buses.
    pub fn bus_count(&self) -> (res: usize)
        ensures
            res == self.view().len(),
    {
        self.audio_buses.len()
    }

    /// The buses, in the order they were added.
    pub fn audio_buses(&self) -> (res: &Vec<AudioBus>)
        ensures
            bus_views(res@) == self.view(),
    {
        &self.audio_buses
    }

    /// The number of the first bus with id `id`.
    pub fn bus_index(&self, id: &str) -> (res: Option<usize>)
        ensures
            match res {
                Some(i) => first_index_of(bus_ids(self.view()), id@) == Some(i as int),
                None => first_index_of(bus_ids(self.view()), id@) is None,
            },
    {
        let ghost ids = bus_ids(self.view());
        let n = self.audio_buses.len();
        for i in 0..n
            invariant
                n == self.audio_buses@.len(),
                ids == bus_ids(self.view()),
                forall|j: int| 0 <= j < i ==> ids[j] != id@,
        {
            if self.audio_buses[i].has_id(id) {
                proof {
                    assert(ids[i as int] == id@);
                    lemma_first_index_found(ids, id@, i as int);
                }
                return Some(i);
            }
        }
        proof {
            lemma_first_index_absent(ids, id@);
        }
        None
    }

    /// Enables the first bus with id `id`; fails if there is none.
    pub fn enable_audio_bus(&mut self, id: &str) -> (res: Result<(), Error>)
        requires
            old(self).wf(),
        ensures
            final(self).wf(),
            final(self).keeps_numbering(old(self)),
            match first_index_of(bus_ids(old(self).view()), id@) {
                Some(i) => res is Ok && final(self).view() == old(self).view().update(
                    i,
                    (BusView { enabled: true, ..old(self).view()[i] }),
                ),
                None => res matches Err(e) && e.message@ == bus_not_found_message(id@)
                    && final(self).view() == old(self).view(),
            },
    {
        match self.bus_index(id) {
            Some(i) => {
                proof {
                    assert(old(self).bus_fits(i as int));
                }
                self.audio_buses[i].enable();
                proof {
                    assert(bus_views(self.audio_buses@) =~= old(self).view().update(
                        i as int,
                        (BusView { enabled: true, ..old(self).view()[i as int] }),
                    ));
                    Self::lemma_replace_keeps_wf(*old(self), *self, i as int);
                }
                Ok(())
            },
            None => {
                let mut message = "AudioBus ".to_owned();
                message.append(id);
                message.append(" not found");
                Err(Error { message })
            },
        }
    }

    /// Disables the first bus with id `id`; fails if there is none.
    pub fn disable_audio_bus(&mut self, id: &str) -> (res: Result<(), Error>)
        requires
            old(self).wf(),
        ensures
            final(self).wf(),
            final(self).keeps_numbering(old(self)),
            match first_index_of(bus_ids(old(self).view()), id@) {
                Some(i) => res is Ok && final(self).view() == old(self).view().update(
                    i,
                    (BusView { enabled: false, ..old(self).view()[i] }),
                ),
                None => res matches Err(e) && e.message@ == bus_not_found_message(id@)
                    && final(self).view() == old(self).view(),
            },
    {
        match self.bus_index(id) {
            Some(i) => {
                proof {
                    assert(old(self).bus_fits(i as int));
                }
                self.audio_buses[i].disable();
                proof {
                    assert(bus_views(self.audio_buses@) =~= old(self).view().update(
                        i as int,
                        (BusView { enabled: false, ..old(self).view()[i as int] }),
                    ));
                    Self::lemma_replace_keeps_wf(*old(self), *self, i as int);
                }
                Ok(())
            },
            None => {
                let mut message = "AudioBus ".to_owned();
                message.append(id);
                message.append(" not found");
                Err(Error { message })
            },
        }
    }

    /// The numbers of the buses that receive incoming audio: the enabled
    /// ones, in increasing order.
    pub fn routing_targets(&self) -> (res: Vec<usize>)
        ensures
            res@ == enabled_indices(self.view()),
    {
        let ghost views = self.view();
        let mut res: Vec<usize> = Vec::new();
        let n = self.audio_buses.len();
        for i in 0..n
            invariant
                n == self.audio_buses@.len(),
                views == self.view(),
                res@ == enabled_indices(views.take(i as int)),
        {
            proof {
                assert(views.take(i + 1).drop_last() =~= views.take(i as int));
            }
            if self.audio_buses[i].is_enabled() {
                res.push(i);
            }
        }
        assert(views.take(n as int) =~= views);
        res
    }

    /// Sets live parameter `key` of the effect in slot `slot` of bus number
    /// `bus_index` to `value`. Returns whether that bus exists and has such
    /// an effect with such a parameter; otherwise nothing changes.
    pub fn apply_control(&mut self, bus_index: usize, slot: u64, key: &str, value: u16) -> (res: bool)
        requires
            old(self).wf(),
        ensures
            final(self).wf(),
            final(self).keeps_numbering(old(self)),
            bus_index < old(self).view().len() ==> {
                &&& res == spec_apply_control(old(self).view()[bus_index as int], slot, key@, value).1
                &&& final(self).view() == old(self).view().update(
                    bus_index as int,
                    spec_apply_control(old(self).view()[bus_index as int], slot, key@, value).0,
                )
            },
            bus_index >= old(self).view().len() ==> !res && final(self).view() == old(self).view(),
    {
        if bus_index >= self.audio_buses.len() {
            return false;
        }
        proof {
            assert(old(self).bus_fits(bus_index as int));
        }
        let res = self.audio_buses[bus_index].apply_control(slot, key, value);
        proof {
            assert(bus_views(self.audio_buses@) =~= old(self).view().update(
                bus_index as int,
                spec_apply_control(old(self).view()[bus_index as int], slot, key@, value).0,
            ));
            Self::lemma_replace_keeps_wf(*old(self), *self, bus_index as int);
        }
        res
    }

    /// Whether every bus has room for `count` more effects.
    pub fn has_room_for(&self, count: u64) -> (res: bool)
        ensures
            res == forall|i: int|
                0 <= i < self.view().len() ==> (#[trigger] self.view()[i]).next_slot + count <= u64::MAX,
    {
        let n = self.audio_buses.len();
        for i in 0..n
            invariant
                n == self.audio_buses@.len(),
                forall|j: int| 0 <= j < i ==> (#[trigger] self.view()[j]).next_slot + count <= u64::MAX,
        {
            let next = self.audio_buses[i].next_slot();
            if next as u128 + count as u128 > u64::MAX as u128 {
                assert(self.view()[i as int].next_slot + count > u64::MAX);
                return false;
            }
        }
        true
    }

    /// Applies the wanted state `dto` to bus number `bus_index`, as
    /// [`update_bus`] does.
    pub fn update_bus(
        &mut self,
        bus_index: usize,
        dto: &AudioBusDto,
        control_input_ids: &Vec<String>,
    ) -> (events: Vec<ConfigEvent>)
        requires
            old(self).wf(),
            bus_index < old(self).view().len(),
            old(self).view()[bus_index as int].next_slot + dto.effects@.len() <= u64::MAX,
        ensures
            final(self).wf(),
            final(self).keeps_numbering(old(self)),
            ({
                let r = spec_update_bus(old(self).view()[bus_index as int], bus_index, dto@, id_views(control_input_ids@));
                &&& final(self).view() == old(self).view().update(bus_index as int, r.0)
                &&& event_views(events@) == r.1
            }),
    {
        proof {
            assert(old(self).bus_fits(bus_index as int));
        }
        let events = update_bus(&mut self.audio_buses[bus_index], bus_index, dto, control_input_ids);
        proof {
            let r = spec_update_bus(old(self).view()[bus_index as int], bus_index, dto@, id_views(control_input_ids@));
            assert(bus_views(self.audio_buses@) =~= old(self).view().update(bus_index as int, r.0));
            Self::lemma_replace_keeps_wf(*old(self), *self, bus_index as int);
        }
        events
    }
}

/// The routing targets are exactly the enabled buses, each once, in
/// increasing order: a bus receives the incoming audio if and only if it is
/// enabled.
pub proof fn lemma_routing_targets(views: Seq<BusView>)
    requires
        views.len() <= usize::MAX,
    ensures
        forall|k: int|
            0 <= k < enabled_indices(views).len() ==> {
                &&& (#[trigger] enabled_indices(views)[k]) < views.len()
                &&& views[enabled_indices(views)[k] as int].enabled
            },
        forall|i: int| 0 <= i < views.len() && (#[trigger] views[i]).enabled ==> enabled_indices(views).contains(i as usize),
        forall|a: int, b: int|
            0 <= a < b < enabled_indices(views).len() ==> enabled_indices(views)[a] < enabled_indices(views)[b],
    decreases views.len(),
{
    if views.len() > 0 {
        let prefix = views.drop_last();
        lemma_routing_targets(prefix);
        let p = enabled_indices(prefix);
        let last = (views.len() - 1) as usize;
        assert forall|i: int| 0 <= i < views.len() && (#[trigger] views[i]).enabled implies enabled_indices(views).contains(
            i as usize,
        ) by {
            if i < views.len() - 1 {
                assert(prefix[i] == views[i]);
                let k = choose|k: int| 0 <= k < p.len() && p[k] == i as usize;
                if views.last().enabled {
                    assert(p.push(last)[k] == i as usize);
                }
            } else {
                assert(enabled_indices(views) == p.push(last));
                assert(enabled_indices(views)[p.len() as int] == last);
            }
        }
        let e = enabled_indices(views);
        if views.last().enabled {
            assert(e == p.push(last));
        } else {
            assert(e == p);
        }
        assert forall|k: int| 0 <= k < e.len() implies {
            &&& (#[trigger] enabled_indices(views)[k]) < views.len()
            &&& views[enabled_indices(views)[k] as int].enabled
        } by {
            if k < p.len() {
                assert(e[k] == p[k]);
                assert(prefix[p[k] as int] == views[p[k] as int]);
            } else {
                assert(e[k] == last);
            }
        }
        assert forall|a: int, b: int| 0 <= a < b < e.len() implies e[a] < e[b] by {
            if b < p.len() {
                assert(e[a] == p[a]);
                assert(e[b] == p[b]);
            } else {
                assert(e[a] == p[a]);
                assert(p[a] < prefix.len());
            }
        }
    }
}

/// Enabling a bus makes it a routing target, disabling it takes it out, and
/// no other bus's membership changes.
pub proof fn lemma_enable_disable_routing(views: Seq<BusView>, i: int, on: bool)
    requires
        views.len() <= usize::MAX,
        0 <= i < views.len(),
    ensures
        ({
            let after = views.update(i, (BusView { enabled: on, ..views[i] }));
            &&& enabled_indices(after).contains(i as usize) == on
            &&& forall|j: int|
                0 <= j < views.len() && j != i ==> #[trigger] enabled_indices(after).contains(j as usize)
                    == enabled_indices(views).contains(j as usize)
        }),
{
    let after = views.update(i, (BusView { enabled: on, ..views[i] }));
    lemma_routing_targets(views);
    lemma_routing_targets(after);
    assert(after[i].enabled == on);
    if !on {
        if enabled_indices(after).contains(i as usize) {
            let k = choose|k: int| 0 <= k < enabled_indices(after).len() && enabled_indices(after)[k] == i as usize;
            assert(after[enabled_indices(after)[k] as int].enabled);
        }
    }
    assert forall|j: int| 0 <= j < views.len() && j != i implies #[trigger] enabled_indices(after).contains(j as usize)
        == enabled_indices(views).contains(j as usize) by {
        assert(after[j] == views[j]);
        if enabled_indices(after).contains(j as usize) {
            let k = choose|k: int| 0 <= k < enabled_indices(after).len() && enabled_indices(after)[k] == j as usize;
            assert(after[enabled_indices(after)[k] as int].enabled);
        }
        if enabled_indices(views).contains(j as usize) {
            let k = choose|k: int| 0 <= k < enabled_indices(views).len() && enabled_indices(views)[k] == j as usize;
            assert(views[enabled_indices(views)[k] as int].enabled);
        }
    }
}

/// As long as the numbering that numbered a router's buses has given at
/// most 256 numbers, the buses have distinct ids (numbers are taken modulo
/// 256).
pub proof fn lemma_bus_ids_distinct(director: &RoutingDirector, numbering: &BusNumbering)
    requires
        director.wf(),
        director.numbered_by(numbering),
        numbering.spec_attempts() <= 256,
    ensures
        forall|i: int, j: int|
            0 <= i < j < director.view().len() ==> (#[trigger] director.view()[i]).id != (#[trigger] director.view()[j]).id,
{
    director.lemma_wf_view();
    let serials = director.spec_serials();
    assert forall|i: int, j: int| 0 <= i < j < director.view().len() implies (#[trigger] director.view()[i]).id
        != (#[trigger] director.view()[j]).id by {
        let p = "bus_"@;
        let a = decimal((serials[i] as int % 256) as nat);
        let b = decimal((serials[j] as int % 256) as nat);
        assert(serials[i] < serials[j] < 256);
        if director.view()[i].id == director.view()[j].id {
            assert((p + a).skip(p.len() as int) =~= a);
            assert((p + b).skip(p.len() as int) =~= b);
            lemma_decimal_injective((serials[i] as int % 256) as nat, (serials[j] as int % 256) as nat);
        }
    }
}

} // verus!
