//! Control inputs (rotary encoders, laser distance sensors) and the observer
//! registry through which they drive effect parameters.
use std::sync::Arc;
use vstd::prelude::*;

use crate::text::{decimal, numbered_name};

verus! {

/// A change of a control value, sent by a control input to its observers.
#[derive(Debug, Clone)]
pub struct ControlChange {
    pub control_id: String,
    pub value: u16,
    pub enabled: bool,
}

/// Something that reacts to the control changes of a control input.
pub trait ControlInputObserver: Send + Sync {
    fn update(&self, cc: &ControlChange);
}

/// Keeps only the elements of `s` whose mark in `keep` is `true`, in order.
pub open spec fn select<T>(s: Seq<T>, keep: Seq<bool>) -> Seq<T>
    recommends
        s.len() == keep.len(),
    decreases s.len(),
{
    if s.len() == 0 || keep.len() == 0 {
        Seq::empty()
    } else if keep.last() {
        select(s.drop_last(), keep.drop_last()).push(s.last())
    } else {
        select(s.drop_last(), keep.drop_last())
    }
}

/// Whether two handles share one allocation (`Arc::ptr_eq`).
/// Handles that share an allocation point to the same observer; which
/// distinct handles share one depends on addresses and is left unsaid.
#[verifier::external_body]
fn same_allocation<O>(a: &Arc<O>, b: &Arc<O>) -> (res: bool)
    ensures
        res ==> *a == *b,
{
    Arc::ptr_eq(a, b)
}

/// The observers of one control input, notified in registration order.
pub struct ObservableControlInput<O: ControlInputObserver> {
    observers: Vec<Arc<O>>,
}

impl<O: ControlInputObserver> ObservableControlInput<O> {
    /// The registered observers, in registration order.
    pub closed spec fn observers(&self) -> Seq<Arc<O>> {
        self.observers@
    }

    /// A registry without observers.
    pub fn new() -> (res: Self)
        ensures
            res.observers() == Seq::<Arc<O>>::empty(),
    {
        Self { observers: Vec::new() }
    }

    /// The number of registered observers.
    pub fn len(&self) -> (res: usize)
        ensures
            res == self.observers().len(),
    {
        self.observers.len()
    }

    /// Hands `cc` to every registered observer, once each, in registration
    /// order, whatever the change holds. The result records the calls of
    /// `update` made, in the order they were made: each observer called,
    /// with the change it was handed.
    pub fn notify(&self, cc: &ControlChange) -> (delivered: Ghost<Seq<(Arc<O>, ControlChange)>>)
        ensures
            delivered@ == self.observers().map_values(|o: Arc<O>| (o, *cc)),
    {
        let ghost mut calls: Seq<(Arc<O>, ControlChange)> = Seq::empty();
        let n = self.observers.len();
        for i in 0..n
            invariant
                n == self.observers@.len(),
                calls == self.observers@.take(i as int).map_values(|o: Arc<O>| (o, *cc)),
        {
            self.observers[i].update(cc);
            proof {
                calls = calls.push((self.observers@[i as int], *cc));
                assert(self.observers@.take(i + 1).map_values(|o: Arc<O>| (o, *cc)) =~= calls);
            }
        }
        assert(self.observers@.take(n as int) =~= self.observers@);
        Ghost(calls)
    }

    /// Adds `observer` after the registered ones.
    pub fn register(&mut self, observer: Arc<O>)
        ensures
            final(self).observers() == old(self).observers().push(observer),
    {
        self.observers.push(observer);
    }

    /// Keeps the observers whose mark in `keep` is `true`, in order.
    pub fn retain_observers(&mut self, keep: &Vec<bool>)
        requires
            keep@.len() == old(self).observers().len(),
        ensures
            final(self).observers() == select(old(self).observers(), keep@),
    {
        let ghost old_observers = self.observers@;
        let mut kept: Vec<Arc<O>> = Vec::new();
        let mut rest: Vec<Arc<O>> = Vec::new();
        std::mem::swap(&mut rest, &mut self.observers);
        let n = rest.len();
        let mut i: usize = 0;
        while i < n
            invariant
                n == rest@.len(),
                rest@ == old_observers,
                keep@.len() == n,
                i <= n,
                kept@ == select(old_observers.take(i as int), keep@.take(i as int)),
            decreases n - i,
        {
            assert(old_observers.take(i + 1).drop_last() =~= old_observers.take(i as int));
            assert(keep@.take(i + 1).drop_last() =~= keep@.take(i as int));
            if keep[i] {
                kept.push(rest[i].clone());
            }
            i = i + 1;
        }
        assert(old_observers.take(n as int) =~= old_observers);
        assert(keep@.take(n as int) =~= keep@);
        self.observers = kept;
    }

    /// Removes every registration of `observer` (handles that share its
    /// allocation); the other observers stay, in order.
    pub fn unregister(&mut self, observer: Arc<O>)
        ensures
            exists|keep: Seq<bool>|
                {
                    &&& keep.len() == old(self).observers().len()
                    &&& final(self).observers() == select(old(self).observers(), keep)
                    &&& forall|i: int|
                        0 <= i < keep.len() && !keep[i] ==> *old(self).observers()[i] == *observer
                },
    {
        let n = self.observers.len();
        let mut keep: Vec<bool> = Vec::new();
        for i in 0..n
            invariant
                n == self.observers@.len(),
                keep@.len() == i,
                forall|j: int| 0 <= j < i && !keep@[j] ==> *self.observers@[j] == *observer,
        {
            let same = same_allocation(&self.observers[i], &observer);
            keep.push(!same);
        }
        let ghost mask = keep@;
        self.retain_observers(&keep);
        assert(mask.len() == old(self).observers().len());
    }
}

/// The encoder value after a falling clock edge: one step up when the data
/// line is high, one step down otherwise, saturating at the ends of `u16`.
pub open spec fn rotary_next_value(value: u16, dt_high: bool) -> u16 {
    if dt_high {
        if value + RotaryEncoder::STEP > u16::MAX { u16::MAX } else { (value + RotaryEncoder::STEP) as u16 }
    } else {
        if value < RotaryEncoder::STEP { 0 } else { (value - RotaryEncoder::STEP) as u16 }
    }
}

/// One poll of an encoder whose value is `value` and whose clock was last
/// seen at `last_clk_high`, reading the clock at `clk_high` and the data
/// line at `dt_high`: the new value, the clock level to remember, and the
/// value sent when the clock fell.
pub open spec fn rotary_poll(value: u16, last_clk_high: bool, clk_high: bool, dt_high: bool) -> (u16, bool, Option<u16>) {
    if last_clk_high && !clk_high {
        let v = rotary_next_value(value, dt_high);
        (v, clk_high, Some(v))
    } else {
        (value, clk_high, None)
    }
}

/// A run of polls: the value, the remembered clock level and the values
/// sent, in order, after the (clock, data) readings `polls`.
pub open spec fn rotary_run(value: u16, last_clk_high: bool, polls: Seq<(bool, bool)>) -> (u16, bool, Seq<u16>)
    decreases polls.len(),
{
    if polls.len() == 0 {
        (value, last_clk_high, Seq::empty())
    } else {
        let (v, clk, sent) = rotary_run(value, last_clk_high, polls.drop_last());
        let (v2, clk2, out) = rotary_poll(v, clk, polls.last().0, polls.last().1);
        match out {
            Some(x) => (v2, clk2, sent.push(x)),
            None => (v2, clk2, sent),
        }
    }
}

/// The clock level before poll `i` of `polls`.
pub open spec fn clock_before(last_clk_high: bool, polls: Seq<(bool, bool)>, i: int) -> bool {
    if i == 0 { last_clk_high } else { polls[i - 1].0 }
}

/// The positions of the polls at which the clock falls, in order.
pub open spec fn falling_edges(last_clk_high: bool, polls: Seq<(bool, bool)>) -> Seq<int>
    decreases polls.len(),
{
    if polls.len() == 0 {
        Seq::empty()
    } else {
        let e = falling_edges(last_clk_high, polls.drop_last());
        let i = polls.len() - 1;
        if clock_before(last_clk_high, polls, i) && !polls[i].0 {
            e.push(i)
        } else {
            e
        }
    }
}

/// The falling edges lie inside the run, in increasing order.
proof fn lemma_falling_edges(last_clk_high: bool, polls: Seq<(bool, bool)>)
    ensures
        forall|k: int|
            0 <= k < falling_edges(last_clk_high, polls).len() ==> 0 <= #[trigger] falling_edges(
                last_clk_high,
                polls,
            )[k] < polls.len(),
        forall|a: int, b: int|
            0 <= a < b < falling_edges(last_clk_high, polls).len() ==> falling_edges(last_clk_high, polls)[a]
                < falling_edges(last_clk_high, polls)[b],
    decreases polls.len(),
{
    if polls.len() > 0 {
        let prefix = polls.drop_last();
        lemma_falling_edges(last_clk_high, prefix);
        let n = polls.len() - 1;
        let e0 = falling_edges(last_clk_high, prefix);
        let edges = falling_edges(last_clk_high, polls);
        if clock_before(last_clk_high, polls, n) && !polls[n].0 {
            assert(edges == e0.push(n));
            assert forall|a: int, b: int| 0 <= a < b < edges.len() implies edges[a] < edges[b] by {
                assert(edges[a] == e0[a]);
                if b < e0.len() {
                    assert(edges[b] == e0[b]);
                }
            }
            assert forall|k: int| 0 <= k < edges.len() implies 0 <= #[trigger] edges[k] < polls.len() by {
                if k < e0.len() {
                    assert(edges[k] == e0[k]);
                }
            }
        } else {
            assert(edges == e0);
        }
    }
}

/// Poll `i` is a falling edge exactly when its clock reads low after
/// reading high.
proof fn lemma_edge_at(last_clk_high: bool, polls: Seq<(bool, bool)>, i: int)
    requires
        0 <= i < polls.len(),
    ensures
        falling_edges(last_clk_high, polls).contains(i) <==> clock_before(last_clk_high, polls, i) && !polls[i].0,
    decreases polls.len(),
{
    let prefix = polls.drop_last();
    let n = polls.len() - 1;
    let e0 = falling_edges(last_clk_high, prefix);
    let edges = falling_edges(last_clk_high, polls);
    lemma_falling_edges(last_clk_high, prefix);
    let fell = clock_before(last_clk_high, polls, n) && !polls[n].0;
    if fell {
        assert(edges == e0.push(n));
    } else {
        assert(edges == e0);
    }
    if i < n {
        lemma_edge_at(last_clk_high, prefix, i);
        assert(prefix[i] == polls[i]);
        assert(clock_before(last_clk_high, polls, i) == clock_before(last_clk_high, prefix, i));
        if edges.contains(i) {
            let k = choose|k: int| 0 <= k < edges.len() && edges[k] == i;
            if k < e0.len() {
                assert(e0[k] == i);
            }
        }
        if e0.contains(i) {
            let k = choose|k: int| 0 <= k < e0.len() && e0[k] == i;
            assert(edges[k] == i);
        }
    } else {
        if edges.contains(i) {
            let k = choose|k: int| 0 <= k < edges.len() && edges[k] == i;
            if k < e0.len() {
                assert(e0[k] < prefix.len());
            }
        }
        if fell {
            assert(edges[e0.len() as int] == i);
        }
    }
}

/// The value sent before the `k`-th one: the starting value for the first.
pub open spec fn value_before(value: u16, sent: Seq<u16>, k: int) -> u16 {
    if k == 0 { value } else { sent[k - 1] }
}

/// What a run of polls sends, value by value, and where it ends.
proof fn lemma_rotary_sent(value: u16, last_clk_high: bool, polls: Seq<(bool, bool)>)
    ensures
        rotary_run(value, last_clk_high, polls).2.len() == falling_edges(last_clk_high, polls).len(),
        forall|k: int|
            0 <= k < falling_edges(last_clk_high, polls).len() ==> rotary_run(value, last_clk_high, polls).2[k]
                == rotary_next_value(
                value_before(value, rotary_run(value, last_clk_high, polls).2, k),
                polls[#[trigger] falling_edges(last_clk_high, polls)[k]].1,
            ),
        rotary_run(value, last_clk_high, polls).0 == if rotary_run(value, last_clk_high, polls).2.len() == 0 {
            value
        } else {
            rotary_run(value, last_clk_high, polls).2.last()
        },
        rotary_run(value, last_clk_high, polls).1 == if polls.len() == 0 {
            last_clk_high
        } else {
            polls.last().0
        },
    decreases polls.len(),
{
    if polls.len() > 0 {
        let prefix = polls.drop_last();
        lemma_rotary_sent(value, last_clk_high, prefix);
        lemma_falling_edges(last_clk_high, prefix);
        let sent0 = rotary_run(value, last_clk_high, prefix).2;
        let sent = rotary_run(value, last_clk_high, polls).2;
        let e0 = falling_edges(last_clk_high, prefix);
        let edges = falling_edges(last_clk_high, polls);
        let n = polls.len() - 1;
        let r0 = rotary_run(value, last_clk_high, prefix);
        assert(clock_before(last_clk_high, polls, n) == r0.1);
        if r0.1 && !polls[n].0 {
            assert(edges == e0.push(n));
            assert(sent == sent0.push(rotary_next_value(r0.0, polls[n].1)));
        } else {
            assert(edges == e0);
            assert(sent == sent0);
        }
        assert forall|k: int| 0 <= k < edges.len() implies sent[k] == rotary_next_value(
            value_before(value, sent, k),
            polls[#[trigger] edges[k]].1,
        ) by {
            if k < e0.len() {
                assert(edges[k] == e0[k]);
                assert(sent[k] == sent0[k]);
                assert(value_before(value, sent, k) == value_before(value, sent0, k));
                assert(polls[e0[k]] == prefix[e0[k]]);
            }
        }
    }
}

/// Over a run of polls, the encoder sends one value per falling clock edge
/// and at no other poll: the `k`-th value is sent at the `k`-th falling
/// edge and is the previous value (the starting value for the first) moved
/// one step up when the data line reads high there, one step down
/// otherwise. The encoder ends at the last value sent (or where it
/// started), remembering the clock level of the last poll.
pub proof fn lemma_rotary_run(value: u16, last_clk_high: bool, polls: Seq<(bool, bool)>)
    ensures
        ({
            let run = rotary_run(value, last_clk_high, polls);
            let edges = falling_edges(last_clk_high, polls);
            &&& run.2.len() == edges.len()
            &&& forall|i: int|
                0 <= i < polls.len() ==> (edges.contains(i) <==> clock_before(last_clk_high, polls, i)
                    && !(#[trigger] polls[i]).0)
            &&& forall|a: int, b: int| 0 <= a < b < edges.len() ==> edges[a] < edges[b]
            &&& forall|k: int|
                0 <= k < edges.len() ==> 0 <= #[trigger] edges[k] < polls.len() && run.2[k] == rotary_next_value(
                    value_before(value, run.2, k),
                    polls[edges[k]].1,
                )
            &&& run.0 == if run.2.len() == 0 { value } else { run.2.last() }
            &&& run.1 == if polls.len() == 0 { last_clk_high } else { polls.last().0 }
        }),
{
    lemma_falling_edges(last_clk_high, polls);
    lemma_rotary_sent(value, last_clk_high, polls);
    let run = rotary_run(value, last_clk_high, polls);
    let edges = falling_edges(last_clk_high, polls);
    assert forall|i: int| 0 <= i < polls.len() implies (edges.contains(i) <==> clock_before(
        last_clk_high,
        polls,
        i,
    ) && !(#[trigger] polls[i]).0) by {
        lemma_edge_at(last_clk_high, polls, i);
    }
    assert forall|k: int| 0 <= k < edges.len() implies 0 <= #[trigger] edges[k] < polls.len() && run.2[k]
        == rotary_next_value(value_before(value, run.2, k), polls[edges[k]].1) by {
        assert(run.2[k] == rotary_next_value(value_before(value, run.2, k), polls[edges[k]].1));
    }
}

/// The decoding state of a quadrature rotary encoder: the current value and
/// the clock level seen at the previous poll.
pub struct RotaryEncoder {
    value: u16,
    last_clk_high: bool,
}

impl RotaryEncoder {
    /// The amount by which one detent moves the value.
    pub const STEP: u16 = 256;

    /// The value an encoder starts at: the middle of the `u16` range.
    pub const START_VALUE: u16 = 32767;

    pub closed spec fn spec_value(&self) -> u16 {
        self.value
    }

    pub closed spec fn spec_last_clk_high(&self) -> bool {
        self.last_clk_high
    }

    /// An encoder at the middle of its range whose clock was last seen at `clk_high`.
    pub fn new(clk_high: bool) -> (res: Self)
        ensures
            res.spec_value() == Self::START_VALUE,
            res.spec_last_clk_high() == clk_high,
    {
        RotaryEncoder { value: Self::START_VALUE, last_clk_high: clk_high }
    }

    /// The current encoder value.
    pub fn value(&self) -> (res: u16)
        ensures
            res == self.spec_value(),
    {
        self.value
    }

    /// Processes one poll of the clock and data lines. On a falling clock edge
    /// the value moves one step and the change of control `encoder_1` is
    /// returned; otherwise nothing changes but the remembered clock level.
    pub fn step(&mut self, clk_high: bool, dt_high: bool) -> (res: Option<ControlChange>)
        ensures
            final(self).spec_last_clk_high() == clk_high,
            old(self).spec_last_clk_high() && !clk_high ==> {
                &&& final(self).spec_value() == rotary_next_value(old(self).spec_value(), dt_high)
                &&& res matches Some(cc) && cc.control_id@ == "encoder_1"@ && cc.value
                    == final(self).spec_value() && cc.enabled
            },
            !(old(self).spec_last_clk_high() && !clk_high) ==> {
                &&& final(self).spec_value() == old(self).spec_value()
                &&& res is None
            },
            (final(self).spec_value(), final(self).spec_last_clk_high(), match res {
                Some(cc) => Some(cc.value),
                None => None,
            }) == rotary_poll(old(self).spec_value(), old(self).spec_last_clk_high(), clk_high, dt_high),
    {
        let falling = self.last_clk_high && !clk_high;
        self.last_clk_high = clk_high;
        if falling {
            if dt_high {
                self.value = self.value.saturating_add(Self::STEP);
            } else {
                self.value = self.value.saturating_sub(Self::STEP);
            }
            Some(ControlChange { control_id: "encoder_1".to_owned(), value: self.value, enabled: true })
        } else {
            None
        }
    }
}

/// A rotary encoder wired to two GPIO lines.
pub struct RotaryInput {
    rotary_id: String,
}

impl RotaryInput {
    /// BCM number of the clock line.
    pub const GPIO_CLK: u8 = 14;

    /// BCM number of the data line.
    pub const GPIO_DT: u8 = 15;

    pub closed spec fn spec_id(&self) -> Seq<char> {
        self.rotary_id@
    }

    /// The rotary input with sequence number `number`, named `rotary_<number>`.
    pub fn numbered(number: u8) -> (res: Self)
        ensures
            res.spec_id() == "rotary_"@ + decimal(number as nat),
    {
        RotaryInput { rotary_id: numbered_name("rotary_", number) }
    }

    /// The id of this control input.
    pub fn id(&self) -> (res: String)
        ensures
            res@ == self.spec_id(),
    {
        self.rotary_id.clone()
    }
}

/// The control value of a distance reading: readings from the minimal
/// distance up to the maximal one give 0, readings from there on up to
/// 550 give the top value (the integer scaling keeps whole ranges only).
pub open spec fn laser_cc_value(value: u16) -> u16 {
    if value < LaserInput::TOF_MAX_DISTANCE { 0 } else { u16::MAX }
}

/// The outcome of reading one laser distance sensor.
#[derive(Clone, Copy, Debug, PartialEq, Eq, Structural)]
pub enum TofRead {
    /// A distance, in millimetres.
    Distance(u16),
    /// The sensor has no new measurement yet.
    NotReady,
    /// The read failed.
    Failed,
}

/// The readout of the two sensors: the first distance plus half the
/// second, or 0 when either sensor gave no distance.
pub open spec fn tof_readout(first: TofRead, second: TofRead) -> int {
    match (first, second) {
        (TofRead::Distance(a), TofRead::Distance(b)) => a + b / 2,
        _ => 0,
    }
}

/// A pair of laser distance sensors triggered by three light barriers.
pub struct LaserInput {
    laser_id: String,
}

impl LaserInput {
    pub const TOF_X_SHUT_1: u8 = 8;
    pub const TOF_X_SHUT_2: u8 = 7;
    pub const TOF_MIN_DISTANCE: u16 = 50;
    pub const TOF_MAX_DISTANCE: u16 = 300;
    pub const PHOTOSENSOR_READ_PIN: u8 = 10;
    pub const PHOTOSENSOR_MUX_S0_PIN: u8 = 11;
    pub const PHOTOSENSOR_MUX_S1_PIN: u8 = 9;

    pub closed spec fn spec_id(&self) -> Seq<char> {
        self.laser_id@
    }

    /// The laser input with sequence number `number`, named `laser_<number>`.
    pub fn numbered(number: u8) -> (res: Self)
        ensures
            res.spec_id() == "laser_"@ + decimal(number as nat),
    {
        LaserInput { laser_id: numbered_name("laser_", number) }
    }

    /// The id of this control input.
    pub fn id(&self) -> (res: String)
        ensures
            res@ == self.spec_id(),
    {
        self.laser_id.clone()
    }

    /// Scales a distance reading to a control value. Readings below the
    /// minimal distance, or so far that the scaled value leaves `u16`,
    /// have no control value.
    pub fn parse_to_cc_value(value: u16) -> (res: u16)
        requires
            Self::TOF_MIN_DISTANCE <= value,
            (value - Self::TOF_MIN_DISTANCE) / ((Self::TOF_MAX_DISTANCE - Self::TOF_MIN_DISTANCE) as int) <= 1,
        ensures
            res == laser_cc_value(value),
    {
        let normalized = (value - Self::TOF_MIN_DISTANCE) / (Self::TOF_MAX_DISTANCE - Self::TOF_MIN_DISTANCE);
        assert(normalized == (value - 50) / 250);
        assert(normalized == 0 || normalized == 1);
        assert(normalized == 0 <==> value < 300);
        assert(normalized * 65535 == if normalized == 0 { 0int } else { 65535int }) by (nonlinear_arith)
            requires
                normalized == 0 || normalized == 1,
        ;
        normalized * (u16::MAX - u16::MIN) + u16::MIN
    }

    /// Whether a distance reading has a control value.
    pub fn has_cc_value(value: u16) -> (res: bool)
        ensures
            res == (Self::TOF_MIN_DISTANCE <= value && (value - Self::TOF_MIN_DISTANCE) / ((
            Self::TOF_MAX_DISTANCE - Self::TOF_MIN_DISTANCE) as int) <= 1),
    {
        Self::TOF_MIN_DISTANCE <= value && (value - Self::TOF_MIN_DISTANCE) / (Self::TOF_MAX_DISTANCE
            - Self::TOF_MIN_DISTANCE) <= 1
    }

    /// Combines the readings of the two distance sensors: the first plus
    /// half of the second.
    pub fn combine_tof_readouts(res_1: u16, res_2: u16) -> (res: u16)
        requires
            res_1 + res_2 / 2 <= u16::MAX,
        ensures
            res == res_1 + res_2 / 2,
    {
        res_1 + res_2 / 2
    }

    /// Whether a sensor read goes to the error log: only failed reads do.
    pub fn is_logged(read: TofRead) -> (res: bool)
        ensures
            res == (read is Failed),
    {
        match read {
            TofRead::Failed => true,
            _ => false,
        }
    }

    /// Whether the second sensor is read after the first gave `first`: only
    /// when the first gave a distance, since otherwise the readout is 0.
    pub fn reads_second(first: TofRead) -> (res: bool)
        ensures
            res == (first is Distance),
    {
        match first {
            TofRead::Distance(_) => true,
            _ => false,
        }
    }

    /// The readout of the two sensors (see [`tof_readout`]).
    pub fn readout(first: TofRead, second: TofRead) -> (res: u16)
        requires
            tof_readout(first, second) <= u16::MAX,
        ensures
            res == tof_readout(first, second),
    {
        match (first, second) {
            (TofRead::Distance(a), TofRead::Distance(b)) => Self::combine_tof_readouts(a, b),
            _ => 0,
        }
    }

    /// What light barrier `channel` sends when it reads `barrier_high` and
    /// the sensors read `readout`: nothing while the barrier reads high; the
    /// change of control `laser_<channel>` when it is interrupted (reads
    /// low).
    pub fn channel_event(channel: u8, barrier_high: bool, readout: u16) -> (res: Option<ControlChange>)
        requires
            channel < 3,
            !barrier_high ==> Self::TOF_MIN_DISTANCE <= readout && (readout - Self::TOF_MIN_DISTANCE) / ((
            Self::TOF_MAX_DISTANCE - Self::TOF_MIN_DISTANCE) as int) <= 1,
        ensures
            barrier_high ==> res is None,
            !barrier_high ==> (res matches Some(cc) && cc.control_id@ == "laser_"@ + decimal(channel as nat)
                && cc.value == laser_cc_value(readout) && cc.enabled),
    {
        if barrier_high {
            None
        } else {
            Some(Self::channel_change(channel, readout))
        }
    }

    /// The levels of the multiplexer select lines (S0, S1) that route light
    /// barrier `index` to the read pin.
    pub fn light_sensor_selector(index: u8) -> (res: (bool, bool))
        requires
            index < 3,
        ensures
            index == 0 ==> res == (false, false),
            index == 1 ==> res == (false, true),
            index == 2 ==> res == (true, false),
    {
        if index == 0 {
            (false, false)
        } else if index == 1 {
            (false, true)
        } else {
            (true, false)
        }
    }

    /// The control change sent when light barrier `channel` is interrupted
    /// and the sensors read `readout`: control `laser_<channel>` takes the
    /// scaled reading.
    pub fn channel_change(channel: u8, readout: u16) -> (res: ControlChange)
        requires
            channel < 3,
            Self::TOF_MIN_DISTANCE <= readout,
            (readout - Self::TOF_MIN_DISTANCE) / ((Self::TOF_MAX_DISTANCE - Self::TOF_MIN_DISTANCE) as int) <= 1,
        ensures
            res.control_id@ == "laser_"@ + decimal(channel as nat),
            res.value == laser_cc_value(readout),
            res.enabled,
    {
        ControlChange {
            control_id: numbered_name("laser_", channel),
            value: Self::parse_to_cc_value(readout),
            enabled: true,
        }
    }
}

} // verus!
