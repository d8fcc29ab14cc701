use vstd::prelude::*;
use crate::arith::div_trunc;
use vstd::arithmetic::div_mod::{lemma_fundamental_div_mod, lemma_fundamental_div_mod_converse, lemma_small_mod, lemma_add_mod_noop_right, lemma_sub_mod_noop_right, lemma_mod_bound};
use vstd::arithmetic::mul::lemma_mul_is_commutative;
use crate::state::{carried_ok, stepped, writer_push, default_mods, plays, writer_advance, writer_phrase, writer_start, writer_stop, writer_target, loop_len_ok, Event, Levels, Modded, Mods, Onset, OnsetEvent, OnsetInput, PhraseInput, PhraseModel, PhraseReader, RecordInput, Snap, WriterModel, WriterState};

verus! {

/// The inputs a `StateHandler` holds until they are passed on.
pub struct BufferModel {
    /// The onset input of each layer that is being passed.
    pub onsets: Seq<Option<OnsetInput>>,
    /// An input that came in while a hold or loop was still being passed.
    pub onsets_next: Seq<Option<OnsetInput>>,
    pub phrases: Seq<Option<PhraseInput>>,
    pub record: Option<RecordInput>,
}

/// The sizes a `StateHandler` was made with.
pub struct Dims {
    pub bank_count: nat,
    pub layer_count: nat,
    pub kit_count: nat,
    pub kit_len: nat,
    pub phrase_count: nat,
    pub phrase_len: nat,
}

/// The contents of a `StateHandler` as values.
pub struct HandlerModel {
    pub dims: Dims,
    pub layer: u8,
    pub kits: Seq<Option<Seq<Option<Onset>>>>,
    pub kit_indices: Seq<Seq<u8>>,
    pub phrases: Seq<Option<PhraseModel>>,
    pub writer: WriterModel,
    pub phrase_snap_start: Snap,
    pub phrase_snap_len: Snap,
    pub buffer: BufferModel,
    pub active_onsets: Seq<OnsetEvent<Modded<Onset>>>,
    pub active_phrases: Seq<Option<PhraseReader>>,
    pub ramp_snap: Snap,
    pub ramp_ticks: Seq<u32>,
    pub levels: Seq<Seq<Levels>>,
    pub reverse: bool,
    pub pass_input: bool,
    pub ticks_per_input: u32,
    pub ticks_per_beat: u32,
    pub ticks_per_step: u32,
    pub steps_per_meas: u32,
}

/// What a `StateHandler` sends on: the timing and, per layer, the input being passed
/// and the event to play.
pub struct MessageModel {
    pub ticks_per_beat: u32,
    pub ticks_per_meas: u32,
    pub inputs: Seq<Option<OnsetInput>>,
    pub events: Seq<Event>,
}

pub open spec fn onset_input_wf(i: Option<OnsetInput>, kit_len: nat) -> bool {
    match i {
        Some(OnsetInput::Hold { index }) => index < kit_len,
        Some(OnsetInput::Loop { index, len }) => index < kit_len && loop_len_ok(len),
        _ => true,
    }
}

pub open spec fn phrase_input_wf(i: Option<PhraseInput>, phrase_count: nat) -> bool {
    i matches Some(PhraseInput::Hold { index }) ==> index < phrase_count
}

pub open spec fn active_wf(e: OnsetEvent<Modded<Onset>>, kit_len: nat) -> bool {
    match e {
        OnsetEvent::Stop => true,
        OnsetEvent::Hold { index, .. } => index < kit_len,
        OnsetEvent::Loop { index, len, tick, .. } => index < kit_len && loop_len_ok(len) && 0 <= tick < len,
    }
}

pub open spec fn phrase_wf(p: PhraseModel, phrase_len: nat) -> bool {
    &&& p.events.len() == phrase_len
    &&& p.start < phrase_len
    &&& 0 < p.len <= i32::MAX
    &&& forall|i: int| 0 <= i < p.events.len() ==> #[trigger] carried_ok(p.events[i])
}

pub open spec fn writer_wf(w: WriterModel, d: Dims) -> bool {
    &&& 0 < d.phrase_len <= i32::MAX
    &&& w.store_mask.len() <= d.phrase_count
    &&& w.store_mask.len() > 0 ==> w.store_index < w.store_mask.len()
    &&& w.queue.len() <= d.phrase_len
    &&& w.write_at < d.phrase_len
    &&& w.queue.len() < d.phrase_len ==> w.write_at == w.queue.len()
    &&& forall|i: int| 0 <= i < w.queue.len() ==> #[trigger] carried_ok(w.queue[i])
    &&& w.state matches WriterState::Recording { start, .. } ==> start < d.phrase_len
}

pub open spec fn dims_wf(d: Dims) -> bool {
    &&& 0 < d.bank_count <= 0x10000
    &&& 0 < d.layer_count <= 256
    &&& 0 < d.kit_count
    &&& 0 < d.kit_len <= 256
    &&& 0 < d.phrase_count
    &&& 0 < d.phrase_len <= i32::MAX
}

impl HandlerModel {
    /// The shape and ranges every operation keeps.
    pub open spec fn wf(self) -> bool {
        let d = self.dims;
        let l = d.layer_count;
        &&& dims_wf(d)
        &&& self.layer < l
        &&& self.kits.len() == d.kit_count
        &&& forall|k: int| 0 <= k < self.kits.len() ==> (#[trigger] self.kits[k] matches Some(o) ==> o.len() == d.kit_len)
        &&& self.kit_indices.len() == l
        &&& forall|i: int| 0 <= i < l ==> (#[trigger] self.kit_indices[i]).len() == d.bank_count
        &&& self.phrases.len() == d.phrase_count
        &&& forall|i: int| 0 <= i < self.phrases.len() ==> (#[trigger] self.phrases[i] matches Some(p) ==> phrase_wf(p, d.phrase_len))
        &&& writer_wf(self.writer, d)
        &&& self.buffer.onsets.len() == l
        &&& self.buffer.onsets_next.len() == l
        &&& self.buffer.phrases.len() == l
        &&& self.active_onsets.len() == l
        &&& forall|i: int| 0 <= i < l ==> active_wf(#[trigger] self.active_onsets[i], d.kit_len)
        &&& self.active_phrases.len() == l
        &&& forall|i: int| 0 <= i < l ==> (#[trigger] self.active_phrases[i] matches Some(r) ==> {
            &&& r.index < d.phrase_count
            &&& self.phrases[r.index as int] is Some
            &&& r.tick < i32::MAX
        })
        &&& self.ramp_ticks.len() == l
        &&& self.levels.len() == l
        &&& forall|i: int| 0 <= i < l ==> (#[trigger] self.levels[i]).len() == d.kit_len
        &&& 0 < self.ticks_per_input <= i32::MAX
        &&& 0 < self.ticks_per_step <= i32::MAX
        &&& 0 < self.steps_per_meas
        &&& self.ticks_per_step * self.steps_per_meas <= u32::MAX
    }

    /// The kit that key `index` selects on layer `l`: the layer's kit index of the key's bank.
    pub open spec fn kit_slot(self, l: int, index: u8) -> u8 {
        self.kit_indices[l][((index as nat) * self.dims.bank_count / self.dims.kit_len) as int]
    }

    /// An onset input can be passed to layer `l`: a key has levels and selects a kit that
    /// exists, and a loop has a usable length.
    pub open spec fn passable(self, l: int, i: Option<OnsetInput>) -> bool {
        &&& onset_input_wf(i, self.dims.kit_len)
        &&& match i {
            Some(OnsetInput::Hold { index }) => self.kit_slot(l, index) < self.dims.kit_count,
            Some(OnsetInput::Loop { index, .. }) => self.kit_slot(l, index) < self.dims.kit_count,
            _ => true,
        }
    }

    /// Every layer's phrase input names a phrase slot, and its onset input, once the phrase
    /// input was passed, can be passed.
    pub open spec fn pass_inputs_ok(self) -> bool {
        &&& forall|l: int| 0 <= l < self.dims.layer_count ==> phrase_input_wf(#[trigger] self.buffer.phrases[l], self.dims.phrase_count)
        &&& forall|l: int| 0 <= l < self.dims.layer_count ==> #[trigger] self.passable(l, self.pass_phrase(l).1)
    }

    /// The onset that key `index` selects on layer `l`, through the layer's kit index of
    /// the key's bank.
    pub open spec fn kit_onset(self, l: int, index: u8) -> Option<Onset> {
        let slot = self.kit_slot(l, index);
        match self.kits[slot as int] {
            Some(k) => k[index as int],
            None => None,
        }
    }

    /// The modifiers an onset at key `index` of layer `l` starts with.
    pub open spec fn onset_mods(self, l: int, index: u8) -> Mods {
        let lv = self.levels[l][index as int];
        Mods { pan: lv.pan, gain: lv.gain, speed: lv.speed, reverse: self.reverse }
    }

    /// The event a layer plays after `input` was passed to it.
    ///
    /// A hold keeps the tick of a loop of the same key; a loop keeps the tick, wrapped
    /// into its length, of a hold or loop of the same key. Keys without an onset stop.
    pub open spec fn pass_onset(self, l: int, input: OnsetInput, active: OnsetEvent<Modded<Onset>>) -> OnsetEvent<Modded<Onset>> {
        match input {
            OnsetInput::Stop => OnsetEvent::Stop,
            OnsetInput::Hold { index } => match self.kit_onset(l, index) {
                Some(o) => OnsetEvent::Hold {
                    tick: match active {
                        OnsetEvent::Loop { tick, index: i, .. } => if i == index { tick } else { 0 },
                        _ => 0,
                    },
                    onset: Modded { inner: o, mods: self.onset_mods(l, index) },
                    index,
                },
                None => OnsetEvent::Stop,
            },
            OnsetInput::Loop { index, len } => match self.kit_onset(l, index) {
                Some(o) => OnsetEvent::Loop {
                    tick: match active {
                        OnsetEvent::Hold { tick, index: i, .. } => if i == index { ((tick as int) % (len as int)) as i32 } else { 0 },
                        OnsetEvent::Loop { tick, index: i, .. } => if i == index { ((tick as int) % (len as int)) as i32 } else { 0 },
                        OnsetEvent::Stop => 0,
                    },
                    onset: Modded { inner: o, mods: self.onset_mods(l, index) },
                    index,
                    len,
                },
                None => OnsetEvent::Stop,
            },
        }
    }

    /// The reader and the onset input of layer `l` after its phrase input was passed.
    ///
    /// A phrase stop ends the reader and, on a silent layer, asks to stop the onset too;
    /// a phrase hold starts a reader when the phrase exists, and ends it otherwise.
    pub open spec fn pass_phrase(self, l: int) -> (Option<PhraseReader>, Option<OnsetInput>) {
        match self.buffer.phrases[l] {
            None => (self.active_phrases[l], self.buffer.onsets[l]),
            Some(PhraseInput::Stop) => (
                None,
                if self.active_onsets[l] is Stop { Some(OnsetInput::Stop) } else { self.buffer.onsets[l] },
            ),
            Some(PhraseInput::Hold { index }) => (
                if self.phrases[index as int] is Some { Some(PhraseReader { index, tick: 0 }) } else { None },
                self.buffer.onsets[l],
            ),
        }
    }

    /// Every layer after its buffered phrase and onset inputs were passed.
    pub open spec fn pass_inputs(self) -> HandlerModel {
        let l = self.dims.layer_count;
        HandlerModel {
            active_phrases: Seq::new(l, |i: int| self.pass_phrase(i).0),
            buffer: BufferModel {
                onsets: Seq::new(l, |i: int| self.pass_phrase(i).1),
                phrases: Seq::new(l, |i: int| None),
                ..self.buffer
            },
            active_onsets: Seq::new(l, |i: int| match self.pass_phrase(i).1 {
                Some(input) => self.pass_onset(i, input, self.active_onsets[i]),
                None => self.active_onsets[i],
            }),
            ..self
        }
    }
}



pub open spec fn in_i32(x: int) -> bool {
    i32::MIN <= x <= i32::MAX
}

/// `true` when the event at `i`, counted cyclically, starts or holds an onset.
pub open spec fn playing_at(events: Seq<Event>, n: nat, i: int) -> bool {
    plays(events[i % (n as int)])
}

/// How many of the `k` events at `from`, `from + dir`, ... play.
pub open spec fn count_playing(events: Seq<Event>, n: nat, from: int, dir: int, k: nat) -> nat
    decreases k,
{
    if k == 0 {
        0
    } else {
        count_playing(events, n, from, dir, (k - 1) as nat) + if playing_at(events, n, from + dir * (k - 1)) { 1nat } else { 0nat }
    }
}

/// `j` steps from `from` lies the `target`-th playing event.
pub open spec fn is_nth_playing(events: Seq<Event>, n: nat, from: int, dir: int, target: nat, j: nat) -> bool {
    count_playing(events, n, from, dir, j) + 1 == target && playing_at(events, n, from + dir * j)
}

/// The steps from `from` to the `target`-th playing event.
pub open spec fn nth_playing(events: Seq<Event>, n: nat, from: int, dir: int, target: nat) -> nat {
    choose|j: nat| is_nth_playing(events, n, from, dir, target, j)
}

/// `true` when some event of the phrase plays.
pub open spec fn has_playing(events: Seq<Event>) -> bool {
    exists|i: int| 0 <= i < events.len() && #[trigger] plays(events[i])
}

/// The index that `s_index(t)` computes while syncing to a phrase: the event `t` ticks
/// before the reader's tick, inside the phrase's window.
pub open spec fn sync_index(p: PhraseModel, ptick: int, n: nat, t: int) -> int {
    (p.start + (ptick - t) % (p.len as int)) % (n as int)
}

/// The step the onset offset takes when the phrase offset moves on to `pto`.
pub open spec fn sync_delta(p: PhraseModel, ptick: int, n: nat, pto: int) -> int {
    if p.events[sync_index(p, ptick, n, pto)].mods.reverse { -1 } else { 1 }
}

/// The phrase and onset offsets after `k` steps of the sync scan.
pub open spec fn sync_offsets(p: PhraseModel, ptick: int, n: nat, k: nat) -> (int, int)
    decreases k,
{
    if k == 0 {
        (0, 0)
    } else {
        let (a, b) = sync_offsets(p, ptick, n, (k - 1) as nat);
        (a + 1, b + sync_delta(p, ptick, n, a + 1))
    }
}

/// The sync scan goes on from these offsets: the onset offset is inside the phrase and
/// the event at the phrase offset is silent.
pub open spec fn sync_goes_on(p: PhraseModel, ptick: int, n: nat, st: (int, int)) -> bool {
    st.1 < p.len && !plays(p.events[sync_index(p, ptick, n, st.0)])
}

/// `t` can be turned into an index without overflowing.
pub open spec fn sync_index_ok(p: PhraseModel, ptick: int, t: int) -> bool {
    &&& in_i32(ptick - t)
    &&& in_i32(p.start + (ptick - t) % (p.len as int))
}

/// The sync scan stops after `k` steps, with every number on its way in range.
pub open spec fn sync_stops_at(p: PhraseModel, ptick: int, n: nat, k: nat) -> bool {
    &&& k < i32::MAX
    &&& !sync_goes_on(p, ptick, n, sync_offsets(p, ptick, n, k))
    &&& forall|j: nat| j < k ==> sync_goes_on(p, ptick, n, #[trigger] sync_offsets(p, ptick, n, j))
    &&& forall|j: nat| j <= k ==> sync_index_ok(p, ptick, (#[trigger] sync_offsets(p, ptick, n, j)).0)
    &&& sync_index_ok(p, ptick, sync_offsets(p, ptick, n, k).1)
}

/// The step at which the sync scan stops.
pub open spec fn sync_stop(p: PhraseModel, ptick: int, n: nat) -> nat {
    choose|k: nat| sync_stop_candidate(p, ptick, n, k)
}

pub open spec fn sync_stop_candidate(p: PhraseModel, ptick: int, n: nat, k: nat) -> bool {
    sync_stops_at(p, ptick, n, k)
}

/// An event moved on by `offset` ticks.
pub open spec fn shifted(e: Option<OnsetEvent<Onset>>, offset: int) -> Option<OnsetEvent<Onset>> {
    match e {
        Some(OnsetEvent::Hold { tick, onset, index }) => Some(OnsetEvent::Hold { tick: (tick + offset) as i32, onset, index }),
        Some(OnsetEvent::Loop { tick, onset, index, len }) => Some(
            OnsetEvent::Loop { tick: ((tick + offset) % (len as int)) as i32, onset, index, len },
        ),
        other => other,
    }
}

/// Shifting `e` by `offset` stays in range.
pub open spec fn shift_ok(e: Option<OnsetEvent<Onset>>, offset: int) -> bool {
    match e {
        Some(OnsetEvent::Hold { tick, .. }) => in_i32(tick + offset),
        Some(OnsetEvent::Loop { tick, len, .. }) => in_i32(tick + offset) && loop_len_ok(len),
        _ => true,
    }
}

/// The event that a layer stopping onto its phrase outputs: from the reader's tick the
/// scan walks back to the event that sounds there, and that event, moved on to the
/// reader's tick, plays with the modifiers of the reader's tick.
pub open spec fn synced_event(p: PhraseModel, ptick: int, n: nat) -> Event {
    let (_, oto) = sync_offsets(p, ptick, n, sync_stop(p, ptick, n));
    Modded {
        inner: shifted(p.events[sync_index(p, ptick, n, oto)].inner, oto),
        mods: p.events[(p.start + ptick) % (n as int)].mods,
    }
}

/// Syncing to the phrase stops, with everything in range.
pub open spec fn sync_ok(p: PhraseModel, ptick: int, n: nat) -> bool {
    &&& exists|k: nat| #[trigger] sync_stop_candidate(p, ptick, n, k)
    &&& {
        let (_, oto) = sync_offsets(p, ptick, n, sync_stop(p, ptick, n));
        shift_ok(p.events[sync_index(p, ptick, n, oto)].inner, oto)
    }
}

impl HandlerModel {
    /// The event playing `active` outputs when an input is being passed.
    pub open spec fn active_event(self, l: int) -> Event {
        match self.active_onsets[l] {
            OnsetEvent::Stop => Modded { inner: Some(OnsetEvent::Stop), mods: self.held_mods(l) },
            OnsetEvent::Hold { tick, onset, index } => Modded {
                inner: Some(OnsetEvent::Hold { tick, onset: onset.inner, index }),
                mods: onset.mods,
            },
            OnsetEvent::Loop { tick, onset, index, len } => Modded {
                inner: Some(OnsetEvent::Loop { tick, onset: onset.inner, index, len }),
                mods: onset.mods,
            },
        }
    }

    /// The modifiers of the onset a layer plays, or the defaults.
    pub open spec fn held_mods(self, l: int) -> Mods {
        match self.active_onsets[l] {
            OnsetEvent::Hold { onset, .. } => onset.mods,
            OnsetEvent::Loop { onset, .. } => onset.mods,
            OnsetEvent::Stop => default_mods(),
        }
    }

    /// The event layer `l` outputs.
    ///
    /// A layer stopping its onset while a phrase runs syncs to the phrase; a silent layer
    /// with a phrase plays the phrase's event at the reader; a layer passing an input
    /// plays its onset; otherwise the layer outputs nothing new.
    pub open spec fn layer_event(self, l: int) -> Event {
        let n = self.dims.phrase_len;
        match self.active_phrases[l] {
            Some(r) => {
                let p = self.phrases[r.index as int]->Some_0;
                if self.buffer.onsets[l] == Some(OnsetInput::Stop) {
                    synced_event(p, r.tick as int, n)
                } else if self.active_onsets[l] is Stop {
                    p.events[(p.start + r.tick) % (n as int)]
                } else if self.buffer.onsets[l] is Some {
                    self.active_event(l)
                } else {
                    Modded { inner: None, mods: self.held_mods(l) }
                }
            },
            None => if self.buffer.onsets[l] is Some {
                self.active_event(l)
            } else {
                Modded { inner: None, mods: self.held_mods(l) }
            },
        }
    }

    /// `layer_event(l)` stays in range.
    pub open spec fn layer_event_ok(self, l: int) -> bool {
        match self.active_phrases[l] {
            Some(r) => self.buffer.onsets[l] == Some(OnsetInput::Stop) ==> sync_ok(
                self.phrases[r.index as int]->Some_0,
                r.tick as int,
                self.dims.phrase_len,
            ),
            None => true,
        }
    }

    /// The message the handler sends in its current state.
    pub open spec fn net(self) -> MessageModel {
        MessageModel {
            ticks_per_beat: self.ticks_per_beat,
            ticks_per_meas: (self.ticks_per_step * self.steps_per_meas) as u32,
            inputs: self.buffer.onsets,
            events: Seq::new(self.dims.layer_count, |l: int| self.layer_event(l)),
        }
    }

    pub open spec fn net_ok(self) -> bool {
        forall|l: int| 0 <= l < self.dims.layer_count ==> #[trigger] self.layer_event_ok(l)
    }

    /// The phrase the current layer reads, if any.
    pub open spec fn layer_phrase(self) -> Option<(u8, PhraseModel)> {
        match self.active_phrases[self.layer as int] {
            Some(r) => Some((r.index, self.phrases[r.index as int]->Some_0)),
            None => None,
        }
    }

    pub open spec fn with_phrase(self, index: u8, p: PhraseModel) -> HandlerModel {
        HandlerModel { phrases: self.phrases.update(index as int, Some(p)), ..self }
    }

    /// The start of the current layer's phrase after moving it by `delta`: by steps when
    /// snapping micro, and by playing events when snapping macro.
    pub open spec fn moved_start(self, p: PhraseModel, delta: i32) -> int {
        let n = self.dims.phrase_len as int;
        match self.phrase_snap_start {
            Snap::Micro => {
                let scale = self.ticks_per_step as int;
                (div_trunc(p.start + delta * scale, scale) * scale) % n
            },
            Snap::Macro => if delta == 0 {
                p.start as int
            } else if delta < 0 {
                let j = nth_playing(p.events, self.dims.phrase_len, p.start - 2, -1, (-delta) as nat);
                (p.start - j - 2) % n
            } else {
                let j = nth_playing(p.events, self.dims.phrase_len, p.start + 1, 1, delta as nat);
                (p.start + j + 1) % n
            },
        }
    }

    pub open spec fn mod_phrase_start(self, delta: i32) -> HandlerModel {
        match self.layer_phrase() {
            None => self,
            Some((index, p)) => self.with_phrase(index, PhraseModel { start: self.moved_start(p, delta) as u32, ..p }),
        }
    }

    /// Moving the start stops and stays in range.
    pub open spec fn mod_start_ok(self, delta: i32) -> bool {
        match self.layer_phrase() {
            None => true,
            Some((index, p)) => match self.phrase_snap_start {
                Snap::Micro => {
                    let scale = self.ticks_per_step as int;
                    &&& in_i32(delta * scale)
                    &&& in_i32(p.start + delta * scale)
                    &&& in_i32(div_trunc(p.start + delta * scale, scale) * scale)
                },
                Snap::Macro => delta != 0 ==> {
                    &&& has_playing(p.events)
                    &&& delta < 0 ==> {
                        let j = nth_playing(p.events, self.dims.phrase_len, p.start - 2, -1, (-delta) as nat);
                        j <= i32::MAX && in_i32(p.start - j - 2)
                    }
                    &&& delta > 0 ==> {
                        let j = nth_playing(p.events, self.dims.phrase_len, p.start + 1, 1, delta as nat);
                        p.start + j + 1 <= u32::MAX
                    }
                },
            },
        }
    }

    /// The tick count one length unit of the current layer's phrase spans.
    pub open spec fn len_scale(self) -> int {
        match self.phrase_snap_len {
            Snap::Micro => self.ticks_per_step as int,
            Snap::Macro => self.ticks_per_step * self.steps_per_meas,
        }
    }

    /// The length of `p` after changing it by `delta` units, at least one unit.
    pub open spec fn moved_len(self, p: PhraseModel, delta: i32) -> int {
        let scale = self.len_scale();
        let q = div_trunc(p.len + delta * scale, scale);
        (if q > 1 { q } else { 1 }) * scale
    }

    pub open spec fn mod_phrase_len(self, delta: i32) -> HandlerModel {
        match self.layer_phrase() {
            None => self,
            Some((index, p)) => self.with_phrase(index, PhraseModel { len: self.moved_len(p, delta) as u32, ..p }),
        }
    }

    pub open spec fn mod_len_ok(self, delta: i32) -> bool {
        match self.layer_phrase() {
            None => true,
            Some((index, p)) => {
                let scale = self.len_scale();
                &&& in_i32(scale)
                &&& in_i32(delta * scale)
                &&& in_i32(p.len + delta * scale)
                &&& in_i32(self.moved_len(p, delta))
            },
        }
    }

    /// The handler after a recording stop: a long enough recording is stored to the next
    /// phrase of the mask, which the current layer then holds, snapped into place.
    pub open spec fn store_recording(self) -> HandlerModel {
        let w = writer_stop(self.writer);
        match writer_phrase(self.writer, self.ticks_per_input, self.dims.phrase_len) {
            None => HandlerModel { writer: w, ..self },
            Some(p) => match writer_target(w) {
                None => HandlerModel { writer: writer_advance(w), ..self },
                Some(t) => {
                    let m3 = HandlerModel {
                        writer: writer_advance(w),
                        phrases: self.phrases.update(t as int, Some(p)),
                        buffer: BufferModel {
                            phrases: self.buffer.phrases.update(self.layer as int, Some(PhraseInput::Hold { index: t })),
                            ..self.buffer
                        },
                        ..self
                    };
                    let m4 = m3.pass_inputs();
                    let m5 = m4.mod_phrase_start(if m4.phrase_snap_start == Snap::Macro { 1 } else { 0 });
                    m5.mod_phrase_len(0)
                },
            },
        }
    }

    /// `store_recording` stops and stays in range.
    pub open spec fn store_ok(self) -> bool {
        let w = writer_stop(self.writer);
        match writer_phrase(self.writer, self.ticks_per_input, self.dims.phrase_len) {
            None => true,
            Some(p) => match writer_target(w) {
                None => true,
                Some(t) => {
                    let m3 = HandlerModel {
                        writer: writer_advance(w),
                        phrases: self.phrases.update(t as int, Some(p)),
                        buffer: BufferModel {
                            phrases: self.buffer.phrases.update(self.layer as int, Some(PhraseInput::Hold { index: t })),
                            ..self.buffer
                        },
                        ..self
                    };
                    let m4 = m3.pass_inputs();
                    let d = if m4.phrase_snap_start == Snap::Macro { 1i32 } else { 0i32 };
                    &&& t < self.dims.phrase_count
                    &&& m3.pass_inputs_ok()
                    &&& m4.mod_start_ok(d)
                    &&& m4.mod_phrase_start(d).mod_len_ok(0)
                },
            },
        }
    }

    /// The handler after its buffered inputs were passed, when passing is open.
    pub open spec fn try_pass(self) -> HandlerModel {
        if !self.pass_input {
            self
        } else {
            let m1 = self.pass_inputs();
            let m2 = HandlerModel { buffer: BufferModel { record: None, ..m1.buffer }, ..m1 };
            match self.buffer.record {
                None => m2,
                Some(RecordInput::Start) => HandlerModel { writer: writer_start(m2.writer, self.dims.phrase_len), ..m2 },
                Some(RecordInput::Stop) => m2.store_recording(),
            }
        }
    }

    pub open spec fn try_pass_ok(self) -> bool {
        &&& self.pass_input ==> self.pass_inputs_ok()
        &&& self.pass_input && self.buffer.record == Some(RecordInput::Stop) ==> {
            let m1 = self.pass_inputs();
            HandlerModel { buffer: BufferModel { record: None, ..m1.buffer }, ..m1 }.store_ok()
        }
    }

    /// Passing and then outputting stays in range.
    pub open spec fn pass_net_ok(self) -> bool {
        self.try_pass_ok() && self.try_pass().net_ok()
    }
}


/// `e` with its direction set to `reverse`.
pub open spec fn with_reverse(e: OnsetEvent<Modded<Onset>>, reverse: bool) -> OnsetEvent<Modded<Onset>> {
    match e {
        OnsetEvent::Stop => OnsetEvent::Stop,
        OnsetEvent::Hold { tick, onset, index } => OnsetEvent::Hold {
            tick,
            onset: Modded { inner: onset.inner, mods: Mods { reverse, ..onset.mods } },
            index,
        },
        OnsetEvent::Loop { tick, onset, index, len } => OnsetEvent::Loop {
            tick,
            onset: Modded { inner: onset.inner, mods: Mods { reverse, ..onset.mods } },
            index,
            len,
        },
    }
}

/// `e` moved on by one tick in its direction; loops wrap.
pub open spec fn step_active(e: OnsetEvent<Modded<Onset>>) -> OnsetEvent<Modded<Onset>> {
    match e {
        OnsetEvent::Stop => OnsetEvent::Stop,
        OnsetEvent::Hold { tick, onset, index } => OnsetEvent::Hold {
            tick: stepped(tick, onset.mods.reverse) as i32,
            onset,
            index,
        },
        OnsetEvent::Loop { tick, onset, index, len } => OnsetEvent::Loop {
            tick: (stepped(tick, onset.mods.reverse) % (len as int)) as i32,
            onset,
            index,
            len,
        },
    }
}

/// Stepping `e` stays in range.
pub open spec fn step_ok(e: OnsetEvent<Modded<Onset>>) -> bool {
    e matches OnsetEvent::Hold { tick, onset, .. } ==> in_i32(stepped(tick, onset.mods.reverse))
}

/// The ramps of a layer playing `e` advance: on every tick when snapping micro, and at
/// the start of the onset or the end of the loop when snapping macro.
pub open spec fn ramp_due(snap: Snap, e: OnsetEvent<Modded<Onset>>) -> bool {
    match snap {
        Snap::Micro => true,
        Snap::Macro => match e {
            OnsetEvent::Stop => false,
            OnsetEvent::Hold { tick, .. } => tick == 0,
            OnsetEvent::Loop { tick, len, .. } => (tick + 1) % (len as int) == 0,
        },
    }
}

/// `e` playing with the levels of its key.
pub open spec fn relevel(e: OnsetEvent<Modded<Onset>>, levels: Seq<Levels>) -> OnsetEvent<Modded<Onset>> {
    match e {
        OnsetEvent::Stop => OnsetEvent::Stop,
        OnsetEvent::Hold { tick, onset, index } => {
            let lv = levels[index as int];
            OnsetEvent::Hold {
                tick,
                onset: Modded { inner: onset.inner, mods: Mods { pan: lv.pan, gain: lv.gain, speed: lv.speed, ..onset.mods } },
                index,
            }
        },
        OnsetEvent::Loop { tick, onset, index, len } => {
            let lv = levels[index as int];
            OnsetEvent::Loop {
                tick,
                onset: Modded { inner: onset.inner, mods: Mods { pan: lv.pan, gain: lv.gain, speed: lv.speed, ..onset.mods } },
                index,
                len,
            }
        },
    }
}

impl HandlerModel {
    /// Whether tick `msg_tick` of the signal side opens passing: the tick before each
    /// input tick does.
    pub open spec fn passes_at(self, msg_tick: i32) -> bool {
        (msg_tick + 1) % ((self.ticks_per_input as i32) as int) == 0
    }

    /// After passing closes, inputs that the signal side received are consumed: the input
    /// that waited behind them moves up, and the current layer takes the direction.
    pub open spec fn consumed(self, inputs: Seq<Option<OnsetInput>>) -> HandlerModel {
        let l = self.dims.layer_count;
        HandlerModel {
            buffer: BufferModel {
                onsets: Seq::new(l, |i: int| if self.buffer.onsets[i] == inputs[i] {
                    self.buffer.onsets_next[i]
                } else {
                    self.buffer.onsets[i]
                }),
                onsets_next: Seq::new(l, |i: int| if self.buffer.onsets[i] == inputs[i] {
                    None
                } else {
                    self.buffer.onsets_next[i]
                }),
                ..self.buffer
            },
            active_onsets: self.active_onsets.update(
                self.layer as int,
                with_reverse(self.active_onsets[self.layer as int], self.reverse),
            ),
            ..self
        }
    }

    /// The handler before tick `msg_tick` with inputs `inputs` at the signal side has
    /// its ramps advanced.
    pub open spec fn begin_tick(self, msg_tick: i32, inputs: Seq<Option<OnsetInput>>) -> HandlerModel {
        let l = self.dims.layer_count;
        let pass = self.passes_at(msg_tick);
        let m1 = self.tick_base(msg_tick, inputs);
        let onsets = Seq::new(l, |i: int| step_active(m1.active_onsets[i]));
        HandlerModel {
            pass_input: pass,
            active_onsets: onsets,
            ramp_ticks: Seq::new(l, |i: int| if ramp_due(self.ramp_snap, onsets[i]) { 0u32 } else { (m1.ramp_ticks[i] + 1) as u32 }),
            ..m1
        }
    }

    /// For each layer whose ramps advance on tick `msg_tick`, the ticks they advance by.
    pub open spec fn ramp_steps(self, msg_tick: i32, inputs: Seq<Option<OnsetInput>>) -> Seq<Option<u32>> {
        let l = self.dims.layer_count;
        let m1 = self.tick_base(msg_tick, inputs);
        Seq::new(l, |i: int| if ramp_due(self.ramp_snap, step_active(m1.active_onsets[i])) {
            Some((m1.ramp_ticks[i] + 1) as u32)
        } else {
            None
        })
    }

    pub open spec fn begin_tick_ok(self, msg_tick: i32, inputs: Seq<Option<OnsetInput>>) -> bool {
        let l = self.dims.layer_count;
        &&& msg_tick < i32::MAX
        &&& inputs.len() == l
        &&& forall|i: int| 0 <= i < l ==> step_ok(#[trigger] self.tick_base(msg_tick, inputs).active_onsets[i])
        &&& forall|i: int| 0 <= i < l ==> #[trigger] self.tick_base(msg_tick, inputs).ramp_ticks[i] < u32::MAX
    }

    /// The handler once the inputs of a closing pass were consumed.
    pub open spec fn tick_base(self, msg_tick: i32, inputs: Seq<Option<OnsetInput>>) -> HandlerModel {
        if !self.passes_at(msg_tick) && self.pass_input { self.consumed(inputs) } else { self }
    }

    /// Every active onset playing with the levels of its layer and key.
    pub open spec fn with_levels(self, levels: Seq<Seq<Levels>>) -> HandlerModel {
        HandlerModel {
            levels,
            active_onsets: Seq::new(self.dims.layer_count, |i: int| relevel(self.active_onsets[i], levels[i])),
            ..self
        }
    }

    /// Every phrase reader one tick on, wrapping at its phrase's length.
    pub open spec fn advance_readers(self) -> HandlerModel {
        HandlerModel {
            active_phrases: Seq::new(self.dims.layer_count, |i: int| match self.active_phrases[i] {
                Some(r) => match self.phrases[r.index as int] {
                    Some(p) => Some(PhraseReader { index: r.index, tick: ((r.tick + 1) % (p.len as int)) as u32 }),
                    None => Some(r),
                },
                None => None,
            }),
            ..self
        }
    }

    /// The handler and its message after the rest of a tick: levels set, inputs passed,
    /// readers moved on, and the current layer's event recorded.
    pub open spec fn finish_tick(self, levels: Seq<Seq<Levels>>) -> (HandlerModel, MessageModel) {
        let m3 = self.with_levels(levels).try_pass().advance_readers();
        let msg = m3.net();
        (HandlerModel { writer: writer_push(m3.writer, msg.events[self.layer as int], self.dims.phrase_len), ..m3 }, msg)
    }

    pub open spec fn levels_wf(self, levels: Seq<Seq<Levels>>) -> bool {
        &&& levels.len() == self.dims.layer_count
        &&& forall|i: int| 0 <= i < levels.len() ==> (#[trigger] levels[i]).len() == self.dims.kit_len
    }

    pub open spec fn finish_tick_ok(self, levels: Seq<Seq<Levels>>) -> bool {
        let m1 = self.with_levels(levels);
        let m3 = m1.try_pass().advance_readers();
        &&& self.levels_wf(levels)
        &&& m1.try_pass_ok()
        &&& m3.net_ok()
        &&& m3.writer.state matches WriterState::Recording { len, .. } ==> len < u32::MAX
    }
}


impl HandlerModel {
    pub proof fn lemma_pass_inputs_wf(self)
        requires
            self.wf(),
            self.pass_inputs_ok(),
        ensures
            self.pass_inputs().wf(),
    {
        let m = self.pass_inputs();
        let d = self.dims;
        assert forall|i: int| 0 <= i < d.layer_count implies active_wf(#[trigger] m.active_onsets[i], d.kit_len) by {
            match self.pass_phrase(i).1 {
                Some(input) => {
                    assert(self.passable(i, self.pass_phrase(i).1));
                    assert(onset_input_wf(Some(input), d.kit_len));
                    match input {
                        OnsetInput::Loop { index, len } => {
                            match self.active_onsets[i] {
                                OnsetEvent::Hold { tick, .. } => {},
                                OnsetEvent::Loop { tick, .. } => {},
                                OnsetEvent::Stop => {},
                            }
                        },
                        _ => {},
                    }
                },
                None => {},
            }
        }
        assert forall|i: int| 0 <= i < d.layer_count implies (#[trigger] m.active_phrases[i] matches Some(r) ==> {
            &&& r.index < d.phrase_count
            &&& m.phrases[r.index as int] is Some
            &&& r.tick < i32::MAX
        }) by {
            assert(phrase_input_wf(self.buffer.phrases[i], d.phrase_count));
        }
    }
}


/// One step from `x` lands on the neighbouring residue.
pub proof fn lemma_mod_step(x: int, n: int, dir: int)
    requires
        n > 0,
        dir == 1 || dir == -1,
    ensures
        (x + dir) % n == if dir == 1 {
            if x % n + 1 == n { 0 } else { x % n + 1 }
        } else {
            if x % n == 0 { n - 1 } else { x % n - 1 }
        },
{
    lemma_fundamental_div_mod(x, n);
    let q = x / n;
    let r = x % n;
    lemma_mul_is_commutative(n, q);
    assert((q + 1) * n == q * n + n && (q - 1) * n == q * n - n) by (nonlinear_arith);
    if 0 <= r + dir < n {
        lemma_fundamental_div_mod_converse(x + dir, n, q, r + dir);
    } else if r + dir == n {
        lemma_fundamental_div_mod_converse(x + dir, n, q + 1, 0);
    } else {
        lemma_fundamental_div_mod_converse(x + dir, n, q - 1, n - 1);
    }
}

/// Any `n` consecutive steps visit every residue.
pub proof fn lemma_window(from: int, dir: int, last: int, n: int, t: int) -> (k: int)
    requires
        n > 0,
        dir == 1 || dir == -1,
        0 <= t < n,
    ensures
        last <= k < last + n,
        (from + dir * k) % n == t,
{
    lemma_small_mod(t as nat, n as nat);
    if dir == 1 {
        let k = last + (t - from - last) % n;
        lemma_mod_bound(t - from - last, n);
        lemma_add_mod_noop_right(from + last, t - from - last, n);
        assert(from + dir * k == from + last + (t - from - last) % n);
        k
    } else {
        let k = last + (from - last - t) % n;
        lemma_mod_bound(from - last - t, n);
        lemma_sub_mod_noop_right(from - last, from - last - t, n);
        assert(from + dir * k == from - last - (from - last - t) % n);
        k
    }
}

pub proof fn lemma_count_monotone(events: Seq<Event>, n: nat, from: int, dir: int, a: nat, b: nat)
    requires
        a <= b,
    ensures
        count_playing(events, n, from, dir, a) <= count_playing(events, n, from, dir, b),
    decreases b,
{
    if a < b {
        lemma_count_monotone(events, n, from, dir, a, (b - 1) as nat);
    }
}

/// Every `n` steps from `from` pass at least one more playing event.
pub proof fn lemma_count_grows(events: Seq<Event>, n: nat, from: int, dir: int, t: nat)
    requires
        n == events.len(),
        n > 0,
        dir == 1 || dir == -1,
        has_playing(events),
    ensures
        count_playing(events, n, from, dir, t * n) >= t,
    decreases t,
{
    if t > 0 {
        let a = ((t - 1) * n) as nat;
        lemma_count_grows(events, n, from, dir, (t - 1) as nat);
        let i = choose|i: int| 0 <= i < events.len() && #[trigger] plays(events[i]);
        let k = lemma_window(from, dir, a as int, n as int, i);
        assert(playing_at(events, n, from + dir * k));
        lemma_count_monotone(events, n, from, dir, a, k as nat);
        assert(count_playing(events, n, from, dir, (k + 1) as nat) == count_playing(events, n, from, dir, k as nat) + 1);
        assert(t * n == a + n) by (nonlinear_arith)
            requires
                a == (t - 1) * n,
                t > 0;
        lemma_count_monotone(events, n, from, dir, (k + 1) as nat, t * n);
    }
}

/// A count of `target` or more within `k` steps has its `target`-th playing event there.
pub proof fn lemma_nth_within(events: Seq<Event>, n: nat, from: int, dir: int, target: nat, k: nat)
    requires
        target >= 1,
        count_playing(events, n, from, dir, k) >= target,
    ensures
        exists|j: nat| j < k && #[trigger] is_nth_playing(events, n, from, dir, target, j),
    decreases k,
{
    if k > 0 {
        let c = count_playing(events, n, from, dir, (k - 1) as nat);
        if c >= target {
            lemma_nth_within(events, n, from, dir, target, (k - 1) as nat);
            let j = choose|j: nat| j < k - 1 && #[trigger] is_nth_playing(events, n, from, dir, target, j);
            assert(is_nth_playing(events, n, from, dir, target, j));
        } else {
            assert(is_nth_playing(events, n, from, dir, target, (k - 1) as nat));
        }
    }
}

/// With some event playing, the `target`-th playing event is somewhere ahead.
pub proof fn lemma_nth_exists(events: Seq<Event>, n: nat, from: int, dir: int, target: nat)
    requires
        n == events.len(),
        n > 0,
        dir == 1 || dir == -1,
        has_playing(events),
        target >= 1,
    ensures
        is_nth_playing(events, n, from, dir, target, nth_playing(events, n, from, dir, target)),
{
    lemma_count_grows(events, n, from, dir, target);
    lemma_nth_within(events, n, from, dir, target, target * n);
}

/// At most one step lands on the `target`-th playing event.
pub proof fn lemma_nth_unique(events: Seq<Event>, n: nat, from: int, dir: int, target: nat, j1: nat, j2: nat)
    requires
        is_nth_playing(events, n, from, dir, target, j1),
        is_nth_playing(events, n, from, dir, target, j2),
    ensures
        j1 == j2,
{
    if j1 < j2 {
        lemma_count_monotone(events, n, from, dir, j1 + 1, j2);
    } else if j2 < j1 {
        lemma_count_monotone(events, n, from, dir, j2 + 1, j1);
    }
}


/// The phrase offset counts the steps; the onset offset moves by at most one per step.
pub proof fn lemma_sync_offsets_bounds(p: PhraseModel, ptick: int, n: nat, k: nat)
    ensures
        sync_offsets(p, ptick, n, k).0 == k,
        -(k as int) <= sync_offsets(p, ptick, n, k).1 <= k,
    decreases k,
{
    if k > 0 {
        lemma_sync_offsets_bounds(p, ptick, n, (k - 1) as nat);
    }
}


impl HandlerModel {
    /// The handler with `input` buffered for the current layer.
    ///
    /// A stop while an unsliced onset plays is dropped; a stop or hold arriving while a
    /// hold or loop is still being passed waits behind it; anything else is passed next.
    pub open spec fn buffered_onset(self, input: OnsetInput) -> HandlerModel {
        let l = self.layer as int;
        let unsliced = match self.active_onsets[l] {
            OnsetEvent::Hold { onset, .. } => onset.inner.onset_start is None,
            OnsetEvent::Loop { onset, .. } => onset.inner.onset_start is None,
            OnsetEvent::Stop => false,
        };
        if input is Stop && unsliced {
            self
        } else if !(input is Loop) && (self.buffer.onsets[l] matches Some(OnsetInput::Hold { .. })
            || self.buffer.onsets[l] matches Some(OnsetInput::Loop { .. })) {
            HandlerModel { buffer: BufferModel { onsets_next: self.buffer.onsets_next.update(l, Some(input)), ..self.buffer }, ..self }
        } else {
            HandlerModel { buffer: BufferModel { onsets: self.buffer.onsets.update(l, Some(input)), ..self.buffer }, ..self }
        }
    }

    /// The handler with `input` buffered as the current layer's phrase input.
    pub open spec fn buffered_phrase(self, input: PhraseInput) -> HandlerModel {
        HandlerModel {
            buffer: BufferModel { phrases: self.buffer.phrases.update(self.layer as int, Some(input)), ..self.buffer },
            ..self
        }
    }

    /// The handler with `input` buffered as the record input.
    pub open spec fn buffered_record(self, input: RecordInput) -> HandlerModel {
        HandlerModel { buffer: BufferModel { record: Some(input), ..self.buffer }, ..self }
    }

    pub open spec fn with_reverse(self, reverse: bool) -> HandlerModel {
        HandlerModel { reverse, ..self }
    }

    /// The handler with new timing.
    pub open spec fn with_timing(self, ticks_per_input: u32, ticks_per_beat: u32, ticks_per_step: u32, steps_per_meas: u32) -> HandlerModel {
        HandlerModel { ticks_per_input, ticks_per_beat, ticks_per_step, steps_per_meas, ..self }
    }
}

pub open spec fn max_u32(a: u32, b: u32) -> u32 {
    if a >= b { a } else { b }
}

/// `s` is in ascending order.
pub open spec fn ascending(s: Seq<u8>) -> bool {
    forall|i: int, j: int| 0 <= i <= j < s.len() ==> s[i] <= s[j]
}


impl HandlerModel {
    /// Every event of the handler's message carries usable loop lengths.
    pub proof fn lemma_net_carried(self, l: int)
        requires
            self.wf(),
            0 <= l < self.dims.layer_count,
        ensures
            carried_ok(self.net().events[l]),
    {
        assert(active_wf(self.active_onsets[l], self.dims.kit_len));
        match self.active_phrases[l] {
            Some(r) => {
                let p = self.phrases[r.index as int]->Some_0;
                assert(phrase_wf(p, self.dims.phrase_len));
                let n = self.dims.phrase_len;
                vstd::arithmetic::div_mod::lemma_mod_bound(p.start + r.tick, n as int);
                let (_, oto) = sync_offsets(p, r.tick as int, n, sync_stop(p, r.tick as int, n));
                vstd::arithmetic::div_mod::lemma_mod_bound(p.start + (r.tick - oto) % (p.len as int), n as int);
                assert(carried_ok(p.events[sync_index(p, r.tick as int, n, oto)]));
            },
            None => {},
        }
    }
}

} // verus!







