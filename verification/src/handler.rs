use vstd::prelude::*;
use crate::model::{step_ok, max_u32, ascending, sync_index, sync_index_ok, sync_ok, synced_event, sync_stop, sync_stops_at, sync_offsets, sync_goes_on, lemma_sync_offsets_bounds, has_playing, nth_playing, is_nth_playing, count_playing, playing_at, lemma_nth_unique, lemma_window, lemma_mod_step, BufferModel, Dims, HandlerModel, MessageModel, onset_input_wf, phrase_input_wf, active_wf, phrase_wf, writer_wf, dims_wf};
use crate::arith::{div_trunc, div_trunc_i32, rem_euclid_i32, rem_euclid_i64};
use crate::state::{
    clone_event, default_event, Event, Kit, Levels, Modded, Mods, Onset, OnsetEvent, OnsetInput,
    Phrase, PhraseInput, PhraseModel, PhraseReader, PhraseWriter, RecordInput, Snap, WriterState, default_mods, plays,
};

verus! {

/// `true` when the event starts or holds an onset.
pub fn event_plays(e: &Event) -> (r: bool)
    ensures
        r == plays(*e),
{
    match &e.inner {
        Some(OnsetEvent::Hold { .. }) | Some(OnsetEvent::Loop { .. }) => true,
        _ => false,
    }
}

/// The steps from `from` (at index `first`), going forward or back around `events`,
/// to the `target`-th playing event.
fn find_nth_playing(events: &Vec<Event>, first: usize, forward: bool, target: u32, Ghost(from): Ghost<int>) -> (j: u64)
    requires
        0 < events@.len() <= i32::MAX,
        has_playing(events@),
        target >= 1,
        first == from % (events@.len() as int),
    ensures
        j == nth_playing(events@, events@.len(), from, if forward { 1int } else { -1int }, target as nat),
{
    let n = events.len();
    let ghost dir: int = if forward { 1 } else { -1 };
    let ghost nn = n as nat;
    let mut j: u64 = 0;
    let mut found: u32 = 0;
    let mut idx: usize = first;
    let ghost mut last: int = 0;
    proof {
        vstd::arithmetic::div_mod::lemma_mod_bound(from, n as int);
    }
    loop
        invariant
            n == events@.len(),
            nn == n,
            0 < n <= i32::MAX,
            has_playing(events@),
            dir == if forward { 1int } else { -1int },
            found < target,
            count_playing(events@, nn, from, dir, j as nat) == found,
            idx == (from + dir * j) % (n as int),
            idx < n,
            0 <= last <= j,
            j - last < n,
            last <= found * n,
            forall|k: int| last <= k < j ==> !#[trigger] playing_at(events@, nn, from + dir * k),
        decreases target * n - j,
    {
        proof {
            assert(j < target * n) by (nonlinear_arith)
                requires
                    j < last + n,
                    last <= found * n,
                    found + 1 <= target,
                    n > 0;
            assert(playing_at(events@, nn, from + dir * j) == plays(events@[idx as int]));
        }
        if event_plays(&events[idx]) {
            found = found + 1;
            if found == target {
                proof {
                    assert(is_nth_playing(events@, nn, from, dir, target as nat, j as nat));
                    let c = choose|c: nat| is_nth_playing(events@, nn, from, dir, target as nat, c);
                    lemma_nth_unique(events@, nn, from, dir, target as nat, j as nat, c);
                }
                return j;
            }
            proof {
                assert(j + 1 <= found * n) by (nonlinear_arith)
                    requires
                        j < last + n,
                        last <= (found - 1) * n;
                last = j + 1;
            }
        } else {
            proof {
                if j + 1 - last == n {
                    let t = choose|t: int| 0 <= t < events@.len() && #[trigger] plays(events@[t]);
                    let k = lemma_window(from, dir, last, n as int, t);
                    assert(playing_at(events@, nn, from + dir * k));
                    assert(false);
                }
            }
        }
        proof {
            lemma_mod_step(from + dir * j, n as int, dir);
            assert(from + dir * (j + 1) == from + dir * j + dir) by (nonlinear_arith);
            assert(target * n <= 0xffff_ffff * 0x7fff_ffff) by (nonlinear_arith)
                requires
                    target <= 0xffff_ffff,
                    n <= 0x7fff_ffff;
        }
        j = j + 1;
        idx = if forward {
            if idx + 1 == n { 0 } else { idx + 1 }
        } else {
            if idx == 0 { n - 1 } else { idx - 1 }
        };
    }
}

/// `true` when both inputs are the same.
pub fn same_input(a: Option<OnsetInput>, b: Option<OnsetInput>) -> (r: bool)
    ensures
        r == (a == b),
{
    match (a, b) {
        (None, None) => true,
        (Some(OnsetInput::Stop), Some(OnsetInput::Stop)) => true,
        (Some(OnsetInput::Hold { index: i }), Some(OnsetInput::Hold { index: j })) => i == j,
        (Some(OnsetInput::Loop { index: i, len: m }), Some(OnsetInput::Loop { index: j, len: n })) => i == j && m == n,
        _ => false,
    }
}

/// `mask` in ascending order.
fn sorted_mask(mask: &[u8]) -> (r: Vec<u8>)
    ensures
        ascending(r@),
        r@.to_multiset() == mask@.to_multiset(),
        r@.len() == mask@.len(),
{
    broadcast use vstd::seq_lib::group_to_multiset_ensures;
    let mut r: Vec<u8> = Vec::new();
    assert(mask@.subrange(0, 0) =~= Seq::<u8>::empty());
    assert(r@ =~= Seq::<u8>::empty());
    let mut i: usize = 0;
    while i < mask.len()
        invariant
            i <= mask@.len(),
            ascending(r@),
            r@.to_multiset() == mask@.subrange(0, i as int).to_multiset(),
            r@.len() == i,
        decreases mask@.len() - i,
    {
        let x = mask[i];
        let mut k: usize = 0;
        while k < r.len() && r[k] <= x
            invariant
                k <= r@.len(),
                forall|j: int| 0 <= j < k ==> r@[j] <= x,
            decreases r@.len() - k,
        {
            k = k + 1;
        }
        let ghost before = r@;
        r.insert(k, x);
        proof {
            assert(r@ == before.subrange(0, k as int).push(x) + before.subrange(k as int, before.len() as int));
            assert forall|a: int, b: int| 0 <= a <= b < r@.len() implies r@[a] <= r@[b] by {
                if b < k {
                } else if b == k {
                    if a < k {
                        assert(before[a] <= x);
                    }
                } else {
                    if a < k {
                        assert(before[a] <= before[b - 1]);
                    } else if a == k {
                        assert(before[b - 1] >= before[k as int]);
                        assert(k < before.len() ==> before[k as int] > x);
                    } else {
                    }
                }
            }
            assert(mask@.subrange(0, i + 1) =~= mask@.subrange(0, i as int).push(x));
            vstd::seq_lib::lemma_multiset_commutative(before.subrange(0, k as int).push(x), before.subrange(k as int, before.len() as int));
            vstd::seq_lib::lemma_multiset_commutative(before.subrange(0, k as int), before.subrange(k as int, before.len() as int));
            assert(before =~= before.subrange(0, k as int) + before.subrange(k as int, before.len() as int));
            let a = before.subrange(0, k as int);
            let b = before.subrange(k as int, before.len() as int);
            a.to_multiset_ensures();
            mask@.subrange(0, i as int).to_multiset_ensures();
            assert(a.push(x).to_multiset() =~= a.to_multiset().insert(x));
            assert(mask@.subrange(0, i as int).push(x).to_multiset() =~= mask@.subrange(0, i as int).to_multiset().insert(x));
            assert(r@.to_multiset() =~= a.to_multiset().insert(x).add(b.to_multiset()));
            assert(before.to_multiset() =~= a.to_multiset().add(b.to_multiset()));
            assert(r@.to_multiset() =~= before.to_multiset().insert(x));
        }
        i = i + 1;
    }
    assert(mask@.subrange(0, mask@.len() as int) =~= mask@);
    r
}

/// The index `t` ticks before the reader's tick `ptick`, inside the phrase's window.
fn sync_index_exec<const PHRASE_LEN: usize>(p: &Phrase<PHRASE_LEN>, ptick: i32, t: i32) -> (r: usize)
    requires
        phrase_wf(p@, PHRASE_LEN as nat),
        0 < PHRASE_LEN <= i32::MAX,
        sync_index_ok(p@, ptick as int, t as int),
    ensures
        r == sync_index(p@, ptick as int, PHRASE_LEN as nat, t as int),
        r < PHRASE_LEN,
{
    let back = rem_euclid_i32(ptick - t, p.len as i32);
    let r = rem_euclid_i32(p.start as i32 + back, PHRASE_LEN as i32);
    r as usize
}

/// The event a layer stopping onto phrase `p` with its reader at `ptick` outputs.
fn synced<const PHRASE_LEN: usize>(p: &Phrase<PHRASE_LEN>, ptick: u32) -> (r: Event)
    requires
        phrase_wf(p@, PHRASE_LEN as nat),
        0 < PHRASE_LEN <= i32::MAX,
        ptick < i32::MAX,
        sync_ok(p@, ptick as int, PHRASE_LEN as nat),
    ensures
        r == synced_event(p@, ptick as int, PHRASE_LEN as nat),
{
    let ghost pm = p@;
    let ghost nn = PHRASE_LEN as nat;
    let ghost pt = ptick as int;
    let ghost kw = sync_stop(pm, pt, nn);
    assert(sync_stops_at(pm, pt, nn, kw));
    let len = p.len as i32;
    let ptick_i = ptick as i32;
    let mut pto: i32 = 0;
    let mut oto: i32 = 0;
    let ghost mut k: nat = 0;
    proof {
        assert(sync_index_ok(pm, pt, sync_offsets(pm, pt, nn, 0).0));
    }
    while oto < len && !event_plays(&p.events[sync_index_exec(p, ptick_i, pto)])
        invariant
            pm == p@,
            phrase_wf(pm, nn),
            nn == PHRASE_LEN,
            0 < PHRASE_LEN <= i32::MAX,
            pt == ptick_i,
            len == pm.len,
            sync_stops_at(pm, pt, nn, kw),
            k <= kw,
            (pto as int, oto as int) == sync_offsets(pm, pt, nn, k),
        decreases kw - k,
    {
        proof {
            assert(sync_goes_on(pm, pt, nn, sync_offsets(pm, pt, nn, k)));
            lemma_sync_offsets_bounds(pm, pt, nn, k);
            lemma_sync_offsets_bounds(pm, pt, nn, k + 1);
            assert(sync_index_ok(pm, pt, sync_offsets(pm, pt, nn, k + 1).0));
        }
        pto = pto + 1;
        let step: i32 = if p.events[sync_index_exec(p, ptick_i, pto)].mods.reverse { -1 } else { 1 };
        oto = oto + step;
        proof {
            k = k + 1;
        }
    }
    proof {
        if k < kw {
            assert(sync_goes_on(pm, pt, nn, sync_offsets(pm, pt, nn, k)));
        }
        assert(k == kw);
    }
    let at = sync_index_exec(p, ptick_i, oto);
    let e = clone_event(&p.events[at]);
    let inner = match e.inner {
        Some(OnsetEvent::Hold { tick, onset, index }) => Some(OnsetEvent::Hold { tick: tick + oto, onset, index }),
        Some(OnsetEvent::Loop { tick, onset, index, len }) => Some(
            OnsetEvent::Loop { tick: rem_euclid_i32(tick + oto, len as i32), onset, index, len },
        ),
        other => other,
    };
    let here = (p.start + ptick) as usize % PHRASE_LEN;
    Modded { inner, mods: p.events[here].mods }
}

/// Whether `t` turns into an index of phrase `p` read at `ptick` without overflowing.
fn sync_index_fits<const PHRASE_LEN: usize>(p: &Phrase<PHRASE_LEN>, ptick: u32, t: i64) -> (b: bool)
    requires
        phrase_wf(p@, PHRASE_LEN as nat),
        ptick < i32::MAX,
        -0x8000_0000 <= t <= 0x8000_0000,
    ensures
        b == sync_index_ok(p@, ptick as int, t as int),
{
    let back: i64 = ptick as i64 - t;
    if back < -0x8000_0000 || back > 0x7fff_ffff {
        return false;
    }
    let r = rem_euclid_i64(back, p.len as i64);
    p.start as i64 + r <= 0x7fff_ffff
}

/// Whether a layer stopping onto phrase `p` with its reader at `ptick` can sync: the scan
/// back to the event that sounds there stops, with every number on its way in range.
fn sync_fits<const PHRASE_LEN: usize>(p: &Phrase<PHRASE_LEN>, ptick: u32) -> (b: bool)
    requires
        phrase_wf(p@, PHRASE_LEN as nat),
        0 < PHRASE_LEN <= i32::MAX,
        ptick < i32::MAX,
    ensures
        b == sync_ok(p@, ptick as int, PHRASE_LEN as nat),
{
    let ghost pm = p@;
    let ghost nn = PHRASE_LEN as nat;
    let ghost pt = ptick as int;
    let len = p.len as i64;
    let mut pto: i64 = 0;
    let mut oto: i64 = 0;
    let mut k: u32 = 0;
    loop
        invariant_except_break
            pm == p@,
            phrase_wf(pm, nn),
            nn == PHRASE_LEN,
            0 < PHRASE_LEN <= i32::MAX,
            pt == ptick,
            ptick < i32::MAX,
            len == pm.len,
            k < i32::MAX,
            (pto as int, oto as int) == sync_offsets(pm, pt, nn, k as nat),
            forall|j: nat| j < k ==> sync_goes_on(pm, pt, nn, #[trigger] sync_offsets(pm, pt, nn, j)),
            forall|j: nat| j < k ==> sync_index_ok(pm, pt, (#[trigger] sync_offsets(pm, pt, nn, j)).0),
        ensures
            k < i32::MAX,
            (pto as int, oto as int) == sync_offsets(pm, pt, nn, k as nat),
            !sync_goes_on(pm, pt, nn, sync_offsets(pm, pt, nn, k as nat)),
            forall|j: nat| j < k ==> sync_goes_on(pm, pt, nn, #[trigger] sync_offsets(pm, pt, nn, j)),
            forall|j: nat| j <= k ==> sync_index_ok(pm, pt, (#[trigger] sync_offsets(pm, pt, nn, j)).0),
        decreases 0x7fff_ffff - k,
    {
        proof {
            lemma_sync_offsets_bounds(pm, pt, nn, k as nat);
        }
        if !sync_index_fits(p, ptick, pto) {
            proof {
                assert forall|c: nat| !#[trigger] crate::model::sync_stop_candidate(pm, pt, nn, c) by {
                    if crate::model::sync_stop_candidate(pm, pt, nn, c) {
                        if c < k {
                            assert(sync_goes_on(pm, pt, nn, sync_offsets(pm, pt, nn, c)));
                        } else {
                            assert(sync_index_ok(pm, pt, sync_offsets(pm, pt, nn, k as nat).0));
                        }
                    }
                }
            }
            return false;
        }
        let at = sync_index_exec(p, ptick as i32, pto as i32);
        if oto >= len || event_plays(&p.events[at]) {
            break;
        }
        if k == 0x7fff_fffe {
            proof {
                assert forall|c: nat| !#[trigger] crate::model::sync_stop_candidate(pm, pt, nn, c) by {
                    if crate::model::sync_stop_candidate(pm, pt, nn, c) {
                        assert(c <= k);
                        assert(sync_goes_on(pm, pt, nn, sync_offsets(pm, pt, nn, c)));
                    }
                }
            }
            return false;
        }
        pto = pto + 1;
        proof {
            lemma_sync_offsets_bounds(pm, pt, nn, (k + 1) as nat);
        }
        if !sync_index_fits(p, ptick, pto) {
            proof {
                assert forall|c: nat| !#[trigger] crate::model::sync_stop_candidate(pm, pt, nn, c) by {
                    if crate::model::sync_stop_candidate(pm, pt, nn, c) {
                        if c <= k {
                            assert(sync_goes_on(pm, pt, nn, sync_offsets(pm, pt, nn, c)));
                        } else {
                            assert(sync_index_ok(pm, pt, sync_offsets(pm, pt, nn, (k + 1) as nat).0));
                        }
                    }
                }
            }
            return false;
        }
        let step: i64 = if p.events[sync_index_exec(p, ptick as i32, pto as i32)].mods.reverse { -1 } else { 1 };
        oto = oto + step;
        k = k + 1;
    }
    proof {
        lemma_sync_offsets_bounds(pm, pt, nn, k as nat);
    }
    if !sync_index_fits(p, ptick, oto) {
        proof {
            assert forall|c: nat| !#[trigger] crate::model::sync_stop_candidate(pm, pt, nn, c) by {
                if crate::model::sync_stop_candidate(pm, pt, nn, c) {
                    if c < k {
                        assert(sync_goes_on(pm, pt, nn, sync_offsets(pm, pt, nn, c)));
                    } else if c > k {
                        assert(sync_goes_on(pm, pt, nn, sync_offsets(pm, pt, nn, k as nat)));
                    }
                }
            }
        }
        return false;
    }
    proof {
        assert(crate::model::sync_stop_candidate(pm, pt, nn, k as nat));
        let c = sync_stop(pm, pt, nn);
        assert(crate::model::sync_stop_candidate(pm, pt, nn, c));
        if c < k {
            assert(sync_goes_on(pm, pt, nn, sync_offsets(pm, pt, nn, c)));
        } else if c > k {
            assert(sync_goes_on(pm, pt, nn, sync_offsets(pm, pt, nn, k as nat)));
        }
        assert(c == k);
    }
    let at = sync_index_exec(p, ptick as i32, oto as i32);
    match &p.events[at].inner {
        Some(OnsetEvent::Hold { tick, .. }) => {
            let t: i64 = *tick as i64 + oto;
            -0x8000_0000 <= t && t <= 0x7fff_ffff
        },
        Some(OnsetEvent::Loop { tick, len, .. }) => {
            let t: i64 = *tick as i64 + oto;
            -0x8000_0000 <= t && t <= 0x7fff_ffff && 0 < *len && *len <= 0x7fff_ffff
        },
        _ => true,
    }
}

/// Inputs waiting to be passed to the layers.
pub struct Buffer {
    pub onsets: Vec<Option<OnsetInput>>,
    pub onsets_next: Vec<Option<OnsetInput>>,
    pub phrases: Vec<Option<PhraseInput>>,
    pub record: Option<RecordInput>,
}

impl View for Buffer {
    type V = BufferModel;

    open spec fn view(&self) -> BufferModel {
        BufferModel {
            onsets: self.onsets@,
            onsets_next: self.onsets_next@,
            phrases: self.phrases@,
            record: self.record,
        }
    }
}

/// What the handler sends to the signal side.
pub struct Message<const LAYER_COUNT: usize> {
    pub ticks_per_beat: u32,
    pub ticks_per_meas: u32,
    pub inputs: Vec<Option<OnsetInput>>,
    pub events: Vec<Event>,
}

impl<const LAYER_COUNT: usize> View for Message<LAYER_COUNT> {
    type V = MessageModel;

    open spec fn view(&self) -> MessageModel {
        MessageModel {
            ticks_per_beat: self.ticks_per_beat,
            ticks_per_meas: self.ticks_per_meas,
            inputs: self.inputs@,
            events: self.events@,
        }
    }
}

impl<const LAYER_COUNT: usize> Message<LAYER_COUNT> {
    /// One tick per beat and measure, no inputs, and empty events.
    pub fn new() -> (m: Self)
        ensures
            m.ticks_per_beat == 1,
            m.ticks_per_meas == 1,
            m.inputs@ == Seq::new(LAYER_COUNT as nat, |i: int| None::<OnsetInput>),
            m.events@ == Seq::new(LAYER_COUNT as nat, |i: int| crate::state::empty_event()),
    {
        let mut inputs: Vec<Option<OnsetInput>> = Vec::new();
        let mut events: Vec<Event> = Vec::new();
        let mut i: usize = 0;
        while i < LAYER_COUNT
            invariant
                i <= LAYER_COUNT,
                inputs@ == Seq::new(i as nat, |j: int| None::<OnsetInput>),
                events@ == Seq::new(i as nat, |j: int| crate::state::empty_event()),
            decreases LAYER_COUNT - i,
        {
            inputs.push(None);
            events.push(default_event());
            i = i + 1;
        }
        Message { ticks_per_beat: 1, ticks_per_meas: 1, inputs, events }
    }
}

/// The sequencer: which onsets and phrases each layer plays, and the inputs on their way.
pub struct StateHandler<
    const BANK_COUNT: usize,
    const LAYER_COUNT: usize,
    const KIT_COUNT: usize,
    const KIT_LEN: usize,
    const PHRASE_COUNT: usize,
    const PHRASE_LEN: usize,
> {
    pub layer: u8,
    pub kits: Vec<Option<Kit<KIT_LEN>>>,
    pub kit_indices: Vec<Vec<u8>>,
    pub phrases: Vec<Option<Phrase<PHRASE_LEN>>>,
    pub phrase_writer: PhraseWriter<PHRASE_COUNT, PHRASE_LEN>,
    pub phrase_snap_start: Snap,
    pub phrase_snap_len: Snap,
    pub buffer: Buffer,
    pub active_onsets: Vec<OnsetEvent<Modded<Onset>>>,
    pub active_phrases: Vec<Option<PhraseReader>>,
    pub ramp_snap: Snap,
    /// Ticks since each layer's ramps last advanced.
    pub ramp_ticks: Vec<u32>,
    /// The levels an onset of each layer and key plays with, as the host computed them.
    pub levels: Vec<Vec<Levels>>,
    pub reverse: bool,
    pub pass_input: bool,
    pub ticks_per_input: u32,
    pub ticks_per_beat: u32,
    /// akin to time signature denominator
    pub ticks_per_step: u32,
    /// akin to time signature numerator
    pub steps_per_meas: u32,
}

pub open spec fn kit_view<const KIT_LEN: usize>(k: Option<Kit<KIT_LEN>>) -> Option<Seq<Option<Onset>>> {
    match k {
        Some(k) => Some(k.onsets@),
        None => None,
    }
}

pub open spec fn phrase_view<const PHRASE_LEN: usize>(p: Option<Phrase<PHRASE_LEN>>) -> Option<PhraseModel> {
    match p {
        Some(p) => Some(p@),
        None => None,
    }
}

pub open spec fn vec_view<T>(v: Vec<T>) -> Seq<T> {
    v@
}

impl<
    const BANK_COUNT: usize,
    const LAYER_COUNT: usize,
    const KIT_COUNT: usize,
    const KIT_LEN: usize,
    const PHRASE_COUNT: usize,
    const PHRASE_LEN: usize,
> View for StateHandler<BANK_COUNT, LAYER_COUNT, KIT_COUNT, KIT_LEN, PHRASE_COUNT, PHRASE_LEN> {
    type V = HandlerModel;

    open spec fn view(&self) -> HandlerModel {
        HandlerModel {
            dims: Dims {
                bank_count: BANK_COUNT as nat,
                layer_count: LAYER_COUNT as nat,
                kit_count: KIT_COUNT as nat,
                kit_len: KIT_LEN as nat,
                phrase_count: PHRASE_COUNT as nat,
                phrase_len: PHRASE_LEN as nat,
            },
            layer: self.layer,
            kits: self.kits@.map_values(|k: Option<Kit<KIT_LEN>>| kit_view(k)),
            kit_indices: self.kit_indices@.map_values(|v: Vec<u8>| vec_view(v)),
            phrases: self.phrases@.map_values(|p: Option<Phrase<PHRASE_LEN>>| phrase_view(p)),
            writer: self.phrase_writer@,
            phrase_snap_start: self.phrase_snap_start,
            phrase_snap_len: self.phrase_snap_len,
            buffer: self.buffer@,
            active_onsets: self.active_onsets@,
            active_phrases: self.active_phrases@,
            ramp_snap: self.ramp_snap,
            ramp_ticks: self.ramp_ticks@,
            levels: self.levels@.map_values(|v: Vec<Levels>| vec_view(v)),
            reverse: self.reverse,
            pass_input: self.pass_input,
            ticks_per_input: self.ticks_per_input,
            ticks_per_beat: self.ticks_per_beat,
            ticks_per_step: self.ticks_per_step,
            steps_per_meas: self.steps_per_meas,
        }
    }
}

impl<
    const BANK_COUNT: usize,
    const LAYER_COUNT: usize,
    const KIT_COUNT: usize,
    const KIT_LEN: usize,
    const PHRASE_COUNT: usize,
    const PHRASE_LEN: usize,
> StateHandler<BANK_COUNT, LAYER_COUNT, KIT_COUNT, KIT_LEN, PHRASE_COUNT, PHRASE_LEN> {
    /// The shape and ranges every operation keeps.
    pub open spec fn wf(&self) -> bool {
        self@.wf()
    }

    /// A handler with no kits, phrases or inputs, every layer silent.
    pub fn new(
        phrase_snap_start: Snap,
        phrase_snap_len: Snap,
        ramp_snap: Snap,
        ticks_per_input: u32,
        ticks_per_beat: u32,
        ticks_per_step: u32,
        steps_per_meas: u32,
        levels: Vec<Vec<Levels>>,
    ) -> (h: Self)
        requires
            dims_wf(Dims {
                bank_count: BANK_COUNT as nat,
                layer_count: LAYER_COUNT as nat,
                kit_count: KIT_COUNT as nat,
                kit_len: KIT_LEN as nat,
                phrase_count: PHRASE_COUNT as nat,
                phrase_len: PHRASE_LEN as nat,
            }),
            0 < ticks_per_input <= i32::MAX,
            0 < ticks_per_step <= i32::MAX,
            0 < steps_per_meas,
            ticks_per_step * steps_per_meas <= u32::MAX,
            levels@.len() == LAYER_COUNT,
            forall|i: int| 0 <= i < LAYER_COUNT ==> (#[trigger] levels@[i])@.len() == KIT_LEN,
        ensures
            h.wf(),
            h.layer == 0,
            h@.kits == Seq::new(KIT_COUNT as nat, |i: int| None::<Seq<Option<Onset>>>),
            h@.kit_indices == Seq::new(LAYER_COUNT as nat, |i: int| Seq::new(BANK_COUNT as nat, |b: int| 0u8)),
            h@.phrases == Seq::new(PHRASE_COUNT as nat, |i: int| None::<PhraseModel>),
            h@.writer.store_mask == Seq::new(PHRASE_COUNT as nat % 256, |i: int| i as u8),
            h@.writer.store_index == 0,
            h@.writer.queue.len() == 0,
            h@.writer.write_at == 0,
            h@.writer.state is Idle,
            h.phrase_snap_start == phrase_snap_start,
            h.phrase_snap_len == phrase_snap_len,
            h@.buffer.onsets == Seq::new(LAYER_COUNT as nat, |i: int| None::<OnsetInput>),
            h@.buffer.onsets_next == Seq::new(LAYER_COUNT as nat, |i: int| None::<OnsetInput>),
            h@.buffer.phrases == Seq::new(LAYER_COUNT as nat, |i: int| None::<PhraseInput>),
            h@.buffer.record is None,
            h@.active_onsets == Seq::new(LAYER_COUNT as nat, |i: int| OnsetEvent::<Modded<Onset>>::Stop),
            h@.active_phrases == Seq::new(LAYER_COUNT as nat, |i: int| None::<PhraseReader>),
            h.ramp_snap == ramp_snap,
            h@.ramp_ticks == Seq::new(LAYER_COUNT as nat, |i: int| 0u32),
            h@.levels == levels@.map_values(|v: Vec<Levels>| v@),
            !h.reverse,
            !h.pass_input,
            h.ticks_per_input == ticks_per_input,
            h.ticks_per_beat == ticks_per_beat,
            h.ticks_per_step == ticks_per_step,
            h.steps_per_meas == steps_per_meas,
    {
        let mut kits: Vec<Option<Kit<KIT_LEN>>> = Vec::new();
        let mut i: usize = 0;
        while i < KIT_COUNT
            invariant
                i <= KIT_COUNT,
                kits@.len() == i,
                forall|j: int| 0 <= j < i ==> #[trigger] kits@[j] is None,
            decreases KIT_COUNT - i,
        {
            kits.push(None);
            i = i + 1;
        }
        let mut phrases: Vec<Option<Phrase<PHRASE_LEN>>> = Vec::new();
        let mut i: usize = 0;
        while i < PHRASE_COUNT
            invariant
                i <= PHRASE_COUNT,
                phrases@.len() == i,
                forall|j: int| 0 <= j < i ==> #[trigger] phrases@[j] is None,
            decreases PHRASE_COUNT - i,
        {
            phrases.push(None);
            i = i + 1;
        }
        let mut kit_indices: Vec<Vec<u8>> = Vec::new();
        let mut onsets: Vec<Option<OnsetInput>> = Vec::new();
        let mut onsets_next: Vec<Option<OnsetInput>> = Vec::new();
        let mut phrase_inputs: Vec<Option<PhraseInput>> = Vec::new();
        let mut active_onsets: Vec<OnsetEvent<Modded<Onset>>> = Vec::new();
        let mut active_phrases: Vec<Option<PhraseReader>> = Vec::new();
        let mut ramp_ticks: Vec<u32> = Vec::new();
        let mut l: usize = 0;
        while l < LAYER_COUNT
            invariant
                l <= LAYER_COUNT,
                kit_indices@.len() == l,
                forall|j: int| 0 <= j < l ==> (#[trigger] kit_indices@[j])@ == Seq::new(BANK_COUNT as nat, |b: int| 0u8),
                onsets@ == Seq::new(l as nat, |j: int| None::<OnsetInput>),
                onsets_next@ == Seq::new(l as nat, |j: int| None::<OnsetInput>),
                phrase_inputs@ == Seq::new(l as nat, |j: int| None::<PhraseInput>),
                active_onsets@ == Seq::new(l as nat, |j: int| OnsetEvent::<Modded<Onset>>::Stop),
                active_phrases@ == Seq::new(l as nat, |j: int| None::<PhraseReader>),
                ramp_ticks@ == Seq::new(l as nat, |j: int| 0u32),
            decreases LAYER_COUNT - l,
        {
            let mut banks: Vec<u8> = Vec::new();
            let mut b: usize = 0;
            while b < BANK_COUNT
                invariant
                    b <= BANK_COUNT,
                    banks@ == Seq::new(b as nat, |k: int| 0u8),
                decreases BANK_COUNT - b,
            {
                banks.push(0);
                b = b + 1;
            }
            kit_indices.push(banks);
            onsets.push(None);
            onsets_next.push(None);
            phrase_inputs.push(None);
            active_onsets.push(OnsetEvent::Stop);
            active_phrases.push(None);
            ramp_ticks.push(0);
            l = l + 1;
        }
        let phrase_writer: PhraseWriter<PHRASE_COUNT, PHRASE_LEN> = PhraseWriter::new();
        let h = StateHandler {
            layer: 0,
            kits,
            kit_indices,
            phrases,
            phrase_writer,
            phrase_snap_start,
            phrase_snap_len,
            buffer: Buffer { onsets, onsets_next, phrases: phrase_inputs, record: None },
            active_onsets,
            active_phrases,
            ramp_snap,
            ramp_ticks,
            levels,
            reverse: false,
            pass_input: false,
            ticks_per_input,
            ticks_per_beat,
            ticks_per_step,
            steps_per_meas,
        };
        proof {
            assert(h@.kits =~= Seq::new(KIT_COUNT as nat, |i: int| None::<Seq<Option<Onset>>>));
            assert(h@.kit_indices =~= Seq::new(LAYER_COUNT as nat, |i: int| Seq::new(BANK_COUNT as nat, |b: int| 0u8)));
            assert(h@.phrases =~= Seq::new(PHRASE_COUNT as nat, |i: int| None::<PhraseModel>));
            assert(h@.writer.store_mask =~= Seq::new(PHRASE_COUNT as nat % 256, |i: int| i as u8));
            assert(h@.levels =~= levels@.map_values(|v: Vec<Levels>| v@));
        }
        h
    }

    /// The onset that key `index` selects on layer `l`.
    fn kit_onset(&self, l: usize, index: u8) -> (r: Option<Onset>)
        requires
            self.wf(),
            l < LAYER_COUNT,
            index < KIT_LEN,
            self@.kit_slot(l as int, index) < KIT_COUNT,
        ensures
            r == self@.kit_onset(l as int, index),
    {
        proof {
            assert((index as nat) * (BANK_COUNT as nat) / (KIT_LEN as nat) < BANK_COUNT) by (nonlinear_arith)
                requires
                    index < KIT_LEN,
                    0 < BANK_COUNT;
            assert(self@.kit_indices[l as int] == self.kit_indices@[l as int]@);
            assert((index as nat) * (BANK_COUNT as nat) <= 255 * 0x10000) by (nonlinear_arith)
                requires
                    index <= 255,
                    BANK_COUNT <= 0x10000;
        }
        let slot = self.kit_indices[l][index as usize * BANK_COUNT / KIT_LEN];
        assert(self@.kits[slot as int] == kit_view(self.kits@[slot as int]));
        match &self.kits[slot as usize] {
            Some(k) => match &k.onsets[index as usize] {
                Some(o) => Some(o.clone()),
                None => None,
            },
            None => None,
        }
    }

    /// The event layer `l` plays after `input` was passed to it.
    fn pass_onset(&self, l: usize, input: OnsetInput) -> (r: OnsetEvent<Modded<Onset>>)
        requires
            self.wf(),
            l < LAYER_COUNT,
            self@.passable(l as int, Some(input)),
        ensures
            r == self@.pass_onset(l as int, input, self@.active_onsets[l as int]),
    {
        match input {
            OnsetInput::Stop => OnsetEvent::Stop,
            OnsetInput::Hold { index } => match self.kit_onset(l, index) {
                Some(o) => {
                    let tick = match &self.active_onsets[l] {
                        OnsetEvent::Loop { tick, index: i, .. } => if *i == index { *tick } else { 0 },
                        _ => 0,
                    };
                    let lv = self.levels[l][index as usize];
                    proof {
                        assert(self@.levels[l as int] == self.levels@[l as int]@);
                    }
                    let mods = Mods { pan: lv.pan, gain: lv.gain, speed: lv.speed, reverse: self.reverse };
                    OnsetEvent::Hold { tick, onset: Modded { inner: o, mods }, index }
                },
                None => OnsetEvent::Stop,
            },
            OnsetInput::Loop { index, len } => match self.kit_onset(l, index) {
                Some(o) => {
                    let tick = match &self.active_onsets[l] {
                        OnsetEvent::Hold { tick, index: i, .. } => if *i == index { rem_euclid_i32(*tick, len as i32) } else { 0 },
                        OnsetEvent::Loop { tick, index: i, .. } => if *i == index { rem_euclid_i32(*tick, len as i32) } else { 0 },
                        OnsetEvent::Stop => 0,
                    };
                    let lv = self.levels[l][index as usize];
                    proof {
                        assert(self@.levels[l as int] == self.levels@[l as int]@);
                    }
                    let mods = Mods { pan: lv.pan, gain: lv.gain, speed: lv.speed, reverse: self.reverse };
                    OnsetEvent::Loop { tick, onset: Modded { inner: o, mods }, index, len }
                },
                None => OnsetEvent::Stop,
            },
        }
    }

    /// Passes every layer's buffered phrase and onset inputs.
    fn pass_inputs(&mut self)
        requires
            old(self).wf(),
            old(self)@.pass_inputs_ok(),
        ensures
            final(self)@ == old(self)@.pass_inputs(),
            final(self).wf(),
    {
        let ghost orig = self@;
        proof {
            orig.lemma_pass_inputs_wf();
        }
        let mut l: usize = 0;
        while l < LAYER_COUNT
            invariant
                orig == old(self)@,
                orig.wf(),
                orig.pass_inputs_ok(),
                orig.pass_inputs().wf(),
                l <= LAYER_COUNT,
                self@ == (HandlerModel {
                    active_phrases: self@.active_phrases,
                    buffer: BufferModel { onsets: self@.buffer.onsets, phrases: self@.buffer.phrases, ..orig.buffer },
                    active_onsets: self@.active_onsets,
                    ..orig
                }),
                self@.active_phrases.len() == LAYER_COUNT,
                self@.buffer.onsets.len() == LAYER_COUNT,
                self@.buffer.phrases.len() == LAYER_COUNT,
                self@.active_onsets.len() == LAYER_COUNT,
                forall|j: int| 0 <= j < l ==> #[trigger] self@.active_phrases[j] == orig.pass_inputs().active_phrases[j],
                forall|j: int| 0 <= j < l ==> #[trigger] self@.buffer.onsets[j] == orig.pass_inputs().buffer.onsets[j],
                forall|j: int| 0 <= j < l ==> #[trigger] self@.buffer.phrases[j] == orig.pass_inputs().buffer.phrases[j],
                forall|j: int| 0 <= j < l ==> #[trigger] self@.active_onsets[j] == orig.pass_inputs().active_onsets[j],
                forall|j: int| l <= j < LAYER_COUNT ==> #[trigger] self@.active_phrases[j] == orig.active_phrases[j],
                forall|j: int| l <= j < LAYER_COUNT ==> #[trigger] self@.buffer.onsets[j] == orig.buffer.onsets[j],
                forall|j: int| l <= j < LAYER_COUNT ==> #[trigger] self@.buffer.phrases[j] == orig.buffer.phrases[j],
                forall|j: int| l <= j < LAYER_COUNT ==> #[trigger] self@.active_onsets[j] == orig.active_onsets[j],
            decreases LAYER_COUNT - l,
        {
            let input_phrase = self.buffer.phrases[l];
            self.buffer.phrases.set(l, None);
            match input_phrase {
                None => {},
                Some(PhraseInput::Stop) => {
                    self.active_phrases.set(l, None);
                    if let OnsetEvent::Stop = self.active_onsets[l] {
                        self.buffer.onsets.set(l, Some(OnsetInput::Stop));
                    }
                },
                Some(PhraseInput::Hold { index }) => {
                    let exists = self.phrases[index as usize].is_some();
                    assert(orig.phrases[index as int] == phrase_view(self.phrases@[index as int]));
                    if exists {
                        self.active_phrases.set(l, Some(PhraseReader::start(index)));
                    } else {
                        self.active_phrases.set(l, None);
                    }
                },
            }
            if let Some(input) = self.buffer.onsets[l] {
                assert(self@.kits == orig.kits && self@.kit_indices == orig.kit_indices && self@.levels == orig.levels);
                assert(orig.passable(l as int, orig.pass_phrase(l as int).1));
                let next = self.pass_onset(l, input);
                self.active_onsets.set(l, next);
            }
            proof {
                let spec = orig.pass_inputs();
                assert(self@.active_phrases[l as int] == spec.active_phrases[l as int]);
            }
            l = l + 1;
        }
        proof {
            let spec = orig.pass_inputs();
            assert(self@.active_phrases =~= spec.active_phrases);
            assert(self@.buffer.onsets =~= spec.buffer.onsets);
            assert(self@.buffer.phrases =~= spec.buffer.phrases);
            assert(self@.active_onsets =~= spec.active_onsets);
        }
    }

    /// The event layer `l` outputs.
    fn layer_event(&self, l: usize) -> (r: Event)
        requires
            self.wf(),
            l < LAYER_COUNT,
            self@.layer_event_ok(l as int),
        ensures
            r == self@.layer_event(l as int),
    {
        let held = match &self.active_onsets[l] {
            OnsetEvent::Hold { onset, .. } | OnsetEvent::Loop { onset, .. } => onset.mods,
            OnsetEvent::Stop => Mods::new(),
        };
        let input_is_stop = match self.buffer.onsets[l] {
            Some(OnsetInput::Stop) => true,
            _ => false,
        };
        if let Some(reader) = self.active_phrases[l] {
            proof {
                assert(self@.phrases[reader.index as int] == phrase_view(self.phrases@[reader.index as int]));
            }
            if let Some(phrase) = &self.phrases[reader.index as usize] {
                if input_is_stop {
                    return synced(phrase, reader.tick);
                } else if let OnsetEvent::Stop = self.active_onsets[l] {
                    let here = (phrase.start + reader.tick) as usize % PHRASE_LEN;
                    return clone_event(&phrase.events[here]);
                }
            }
        }
        if self.buffer.onsets[l].is_some() {
            match &self.active_onsets[l] {
                OnsetEvent::Stop => Modded { inner: Some(OnsetEvent::Stop), mods: held },
                OnsetEvent::Hold { tick, onset, index } => Modded {
                    inner: Some(OnsetEvent::Hold { tick: *tick, onset: onset.inner.clone(), index: *index }),
                    mods: onset.mods,
                },
                OnsetEvent::Loop { tick, onset, index, len } => Modded {
                    inner: Some(OnsetEvent::Loop { tick: *tick, onset: onset.inner.clone(), index: *index, len: *len }),
                    mods: onset.mods,
                },
            }
        } else {
            Modded { inner: None, mods: held }
        }
    }

    /// The message the handler sends in its current state.
    fn net(&self) -> (msg: Message<LAYER_COUNT>)
        requires
            self.wf(),
            self@.net_ok(),
        ensures
            msg@ == self@.net(),
    {
        let mut inputs: Vec<Option<OnsetInput>> = Vec::new();
        let mut events: Vec<Event> = Vec::new();
        let mut l: usize = 0;
        while l < LAYER_COUNT
            invariant
                self.wf(),
                self@.net_ok(),
                l <= LAYER_COUNT,
                inputs@ == self@.buffer.onsets.subrange(0, l as int),
                events@ == self@.net().events.subrange(0, l as int),
            decreases LAYER_COUNT - l,
        {
            inputs.push(self.buffer.onsets[l]);
            assert(self@.layer_event_ok(l as int));
            let e = self.layer_event(l);
            events.push(e);
            proof {
                assert(inputs@ =~= self@.buffer.onsets.subrange(0, l + 1));
                assert(events@ =~= self@.net().events.subrange(0, l + 1));
            }
            l = l + 1;
        }
        proof {
            assert(inputs@ =~= self@.buffer.onsets);
            assert(events@ =~= self@.net().events);
        }
        Message {
            ticks_per_beat: self.ticks_per_beat,
            ticks_per_meas: self.ticks_per_step * self.steps_per_meas,
            inputs,
            events,
        }
    }

    /// Passes what passing lets through and returns the message of the new state.
    pub fn pass_net(&mut self) -> (msg: Message<LAYER_COUNT>)
        requires
            old(self).wf(),
            old(self)@.pass_net_ok(),
        ensures
            final(self).wf(),
            final(self)@ == old(self)@.try_pass(),
            msg@ == old(self)@.try_pass().net(),
    {
        self.try_pass();
        self.net()
    }

    /// Buffers an onset input for the current layer, then passes and outputs.
    pub fn push_onset(&mut self, input: OnsetInput) -> (msg: Message<LAYER_COUNT>)
        requires
            old(self).wf(),
            old(self)@.buffered_onset(input).pass_net_ok(),
        ensures
            final(self).wf(),
            final(self)@ == old(self)@.buffered_onset(input).try_pass(),
            msg@ == old(self)@.buffered_onset(input).try_pass().net(),
    {
        self.buffer_onset(input);
        self.pass_net()
    }

    /// `push_onset`, checking its ranges on the way: `None`, with the handler part way,
    /// when passing would leave a range or a layer's sync would not stop.
    pub fn push_onset_checked(&mut self, input: OnsetInput) -> (msg: Option<Message<LAYER_COUNT>>)
        requires
            old(self).wf(),
        ensures
            final(self).wf(),
            msg is Some <==> old(self)@.buffered_onset(input).pass_net_ok(),
            msg matches Some(m) ==> final(self)@ == old(self)@.buffered_onset(input).try_pass()
                && m@ == old(self)@.buffered_onset(input).try_pass().net(),
    {
        self.buffer_onset(input);
        self.pass_net_checked()
    }

    /// Buffers an onset input for the current layer.
    fn buffer_onset(&mut self, input: OnsetInput)
        requires
            old(self).wf(),
        ensures
            final(self).wf(),
            final(self)@ == old(self)@.buffered_onset(input),
    {
        let l = self.layer as usize;
        let ghost m = self@;
        let unsliced = match &self.active_onsets[l] {
            OnsetEvent::Hold { onset, .. } | OnsetEvent::Loop { onset, .. } => onset.inner.onset_start.is_none(),
            OnsetEvent::Stop => false,
        };
        let is_stop = match input {
            OnsetInput::Stop => true,
            _ => false,
        };
        let is_loop = match input {
            OnsetInput::Loop { .. } => true,
            _ => false,
        };
        if is_stop && unsliced {
            return;
        }
        let passing = match self.buffer.onsets[l] {
            Some(OnsetInput::Hold { .. }) | Some(OnsetInput::Loop { .. }) => true,
            _ => false,
        };
        if !is_loop && passing {
            // buffer rapid Stop or Hold event to next tick so the input doesn't seem to disappear
            self.buffer.onsets_next.set(l, Some(input));
        } else {
            self.buffer.onsets.set(l, Some(input));
        }
        proof {
            assert(self@ == m.buffered_onset(input));
            assert(self@.wf());
        }
    }

    /// Buffers a phrase input for the current layer, then passes and outputs.
    pub fn push_phrase(&mut self, input: PhraseInput) -> (msg: Message<LAYER_COUNT>)
        requires
            old(self).wf(),
            old(self)@.buffered_phrase(input).pass_net_ok(),
        ensures
            final(self).wf(),
            final(self)@ == old(self)@.buffered_phrase(input).try_pass(),
            msg@ == old(self)@.buffered_phrase(input).try_pass().net(),
    {
        let ghost m = self@;
        self.buffer.phrases.set(self.layer as usize, Some(input));
        proof {
            assert(self@ == m.buffered_phrase(input));
            assert(self@.wf());
        }
        self.pass_net()
    }

    /// `push_phrase`, checking its ranges on the way: `None`, with the handler part way,
    /// when passing would leave a range or a layer's sync would not stop.
    pub fn push_phrase_checked(&mut self, input: PhraseInput) -> (msg: Option<Message<LAYER_COUNT>>)
        requires
            old(self).wf(),
        ensures
            final(self).wf(),
            msg is Some <==> old(self)@.buffered_phrase(input).pass_net_ok(),
            msg matches Some(m) ==> final(self)@ == old(self)@.buffered_phrase(input).try_pass()
                && m@ == old(self)@.buffered_phrase(input).try_pass().net(),
    {
        let ghost m = self@;
        self.buffer.phrases.set(self.layer as usize, Some(input));
        proof {
            assert(self@ == m.buffered_phrase(input));
            assert(self@.wf());
        }
        self.pass_net_checked()
    }

    /// `push_record`, checking its ranges on the way: `None`, with the handler part way,
    /// when passing would leave a range or a layer's sync would not stop.
    pub fn push_record_checked(&mut self, input: RecordInput) -> (msg: Option<Message<LAYER_COUNT>>)
        requires
            old(self).wf(),
        ensures
            final(self).wf(),
            msg is Some <==> old(self)@.buffered_record(input).pass_net_ok(),
            msg matches Some(m) ==> final(self)@ == old(self)@.buffered_record(input).try_pass()
                && m@ == old(self)@.buffered_record(input).try_pass().net(),
    {
        let ghost m = self@;
        self.buffer.record = Some(input);
        proof {
            assert(self@ == m.buffered_record(input));
        }
        self.pass_net_checked()
    }

    /// Buffers a record input, then passes and outputs.
    pub fn push_record(&mut self, input: RecordInput) -> (msg: Message<LAYER_COUNT>)
        requires
            old(self).wf(),
            old(self)@.buffered_record(input).pass_net_ok(),
        ensures
            final(self).wf(),
            final(self)@ == old(self)@.buffered_record(input).try_pass(),
            msg@ == old(self)@.buffered_record(input).try_pass().net(),
    {
        let ghost m = self@;
        self.buffer.record = Some(input);
        proof {
            assert(self@ == m.buffered_record(input));
        }
        self.pass_net()
    }

    /// Sets the direction new onsets play in, then passes and outputs.
    pub fn push_reverse(&mut self, value: bool) -> (msg: Message<LAYER_COUNT>)
        requires
            old(self).wf(),
            old(self)@.with_reverse(value).pass_net_ok(),
        ensures
            final(self).wf(),
            final(self)@ == old(self)@.with_reverse(value).try_pass(),
            msg@ == old(self)@.with_reverse(value).try_pass().net(),
    {
        let ghost m = self@;
        self.reverse = value;
        proof {
            assert(self@ == m.with_reverse(value));
        }
        self.pass_net()
    }

    /// Sets the ticks per beat, at least one, then passes and outputs.
    pub fn set_ticks_per_beat(&mut self, value: u32) -> (msg: Message<LAYER_COUNT>)
        requires
            old(self).wf(),
            old(self)@.with_timing(old(self).ticks_per_input, max_u32(value, 1), old(self).ticks_per_step, old(self).steps_per_meas).pass_net_ok(),
        ensures
            final(self).wf(),
            final(self)@ == old(self)@.with_timing(old(self).ticks_per_input, max_u32(value, 1), old(self).ticks_per_step, old(self).steps_per_meas).try_pass(),
            msg@ == old(self)@.with_timing(old(self).ticks_per_input, max_u32(value, 1), old(self).ticks_per_step, old(self).steps_per_meas).try_pass().net(),
    {
        let ghost m = self@;
        self.ticks_per_beat = if value >= 1 { value } else { 1 };
        proof {
            assert(self@ == m.with_timing(m.ticks_per_input, max_u32(value, 1), m.ticks_per_step, m.steps_per_meas));
        }
        self.pass_net()
    }

    /// Sets the timing and passes and outputs, checking the ranges on the way: `None`, with
    /// the handler as it was when the timing does not fit and part way otherwise, when the
    /// handler cannot take the timing or passing would leave a range or a layer's sync would
    /// not stop.
    fn retime_checked(&mut self, ticks_per_input: u32, ticks_per_beat: u32, ticks_per_step: u32, steps_per_meas: u32) -> (msg: Option<Message<LAYER_COUNT>>)
        requires
            old(self).wf(),
        ensures
            final(self).wf(),
            msg is Some <==> old(self)@.with_timing(ticks_per_input, ticks_per_beat, ticks_per_step, steps_per_meas).wf()
                && old(self)@.with_timing(ticks_per_input, ticks_per_beat, ticks_per_step, steps_per_meas).pass_net_ok(),
            msg matches Some(m) ==> final(self)@ == old(self)@.with_timing(ticks_per_input, ticks_per_beat, ticks_per_step, steps_per_meas).try_pass()
                && m@ == old(self)@.with_timing(ticks_per_input, ticks_per_beat, ticks_per_step, steps_per_meas).try_pass().net(),
    {
        let ghost m = self@;
        assert(ticks_per_step * steps_per_meas <= 0xffff_ffff * 0xffff_ffff) by (nonlinear_arith)
            requires
                ticks_per_step <= 0xffff_ffff,
                steps_per_meas <= 0xffff_ffff;
        if ticks_per_input == 0 || ticks_per_input > 0x7fff_ffff || ticks_per_step == 0 || ticks_per_step > 0x7fff_ffff
            || steps_per_meas == 0 || ticks_per_step as u64 * steps_per_meas as u64 > 0xffff_ffff {
            return None;
        }
        self.ticks_per_input = ticks_per_input;
        self.ticks_per_beat = ticks_per_beat;
        self.ticks_per_step = ticks_per_step;
        self.steps_per_meas = steps_per_meas;
        proof {
            assert(self@ == m.with_timing(ticks_per_input, ticks_per_beat, ticks_per_step, steps_per_meas));
        }
        self.pass_net_checked()
    }

    /// `set_ticks_per_beat`, checking its ranges on the way.
    pub fn set_ticks_per_beat_checked(&mut self, value: u32) -> (msg: Option<Message<LAYER_COUNT>>)
        requires
            old(self).wf(),
        ensures
            final(self).wf(),
            msg is Some <==> old(self)@.with_timing(old(self).ticks_per_input, max_u32(value, 1), old(self).ticks_per_step, old(self).steps_per_meas).pass_net_ok(),
            msg matches Some(m) ==> final(self)@ == old(self)@.with_timing(old(self).ticks_per_input, max_u32(value, 1), old(self).ticks_per_step, old(self).steps_per_meas).try_pass()
                && m@ == old(self)@.with_timing(old(self).ticks_per_input, max_u32(value, 1), old(self).ticks_per_step, old(self).steps_per_meas).try_pass().net(),
    {
        let beat = if value >= 1 { value } else { 1 };
        self.retime_checked(self.ticks_per_input, beat, self.ticks_per_step, self.steps_per_meas)
    }

    /// `set_ticks_per_input`, checking its ranges on the way.
    pub fn set_ticks_per_input_checked(&mut self, value: u32) -> (msg: Option<Message<LAYER_COUNT>>)
        requires
            old(self).wf(),
        ensures
            final(self).wf(),
            msg is Some <==> old(self)@.with_timing(max_u32(value, 1), old(self).ticks_per_beat, max_u32(old(self).ticks_per_step, max_u32(value, 1)), old(self).steps_per_meas).wf()
                && old(self)@.with_timing(max_u32(value, 1), old(self).ticks_per_beat, max_u32(old(self).ticks_per_step, max_u32(value, 1)), old(self).steps_per_meas).pass_net_ok(),
            msg matches Some(m) ==> final(self)@ == old(self)@.with_timing(max_u32(value, 1), old(self).ticks_per_beat, max_u32(old(self).ticks_per_step, max_u32(value, 1)), old(self).steps_per_meas).try_pass()
                && m@ == old(self)@.with_timing(max_u32(value, 1), old(self).ticks_per_beat, max_u32(old(self).ticks_per_step, max_u32(value, 1)), old(self).steps_per_meas).try_pass().net(),
    {
        let input = if value >= 1 { value } else { 1 };
        let step = if self.ticks_per_step >= input { self.ticks_per_step } else { input };
        self.retime_checked(input, self.ticks_per_beat, step, self.steps_per_meas)
    }

    /// `set_ticks_per_step`, checking its ranges on the way.
    pub fn set_ticks_per_step_checked(&mut self, value: u32) -> (msg: Option<Message<LAYER_COUNT>>)
        requires
            old(self).wf(),
        ensures
            final(self).wf(),
            msg is Some <==> old(self)@.with_timing(old(self).ticks_per_input, old(self).ticks_per_beat, max_u32(value, old(self).ticks_per_input), old(self).steps_per_meas).wf()
                && old(self)@.with_timing(old(self).ticks_per_input, old(self).ticks_per_beat, max_u32(value, old(self).ticks_per_input), old(self).steps_per_meas).pass_net_ok(),
            msg matches Some(m) ==> final(self)@ == old(self)@.with_timing(old(self).ticks_per_input, old(self).ticks_per_beat, max_u32(value, old(self).ticks_per_input), old(self).steps_per_meas).try_pass()
                && m@ == old(self)@.with_timing(old(self).ticks_per_input, old(self).ticks_per_beat, max_u32(value, old(self).ticks_per_input), old(self).steps_per_meas).try_pass().net(),
    {
        let step = if value >= self.ticks_per_input { value } else { self.ticks_per_input };
        self.retime_checked(self.ticks_per_input, self.ticks_per_beat, step, self.steps_per_meas)
    }

    /// `set_steps_per_meas`, checking its ranges on the way.
    pub fn set_steps_per_meas_checked(&mut self, value: u32) -> (msg: Option<Message<LAYER_COUNT>>)
        requires
            old(self).wf(),
        ensures
            final(self).wf(),
            msg is Some <==> old(self)@.with_timing(old(self).ticks_per_input, old(self).ticks_per_beat, old(self).ticks_per_step, max_u32(value, 1)).wf()
                && old(self)@.with_timing(old(self).ticks_per_input, old(self).ticks_per_beat, old(self).ticks_per_step, max_u32(value, 1)).pass_net_ok(),
            msg matches Some(m) ==> final(self)@ == old(self)@.with_timing(old(self).ticks_per_input, old(self).ticks_per_beat, old(self).ticks_per_step, max_u32(value, 1)).try_pass()
                && m@ == old(self)@.with_timing(old(self).ticks_per_input, old(self).ticks_per_beat, old(self).ticks_per_step, max_u32(value, 1)).try_pass().net(),
    {
        let meas = if value >= 1 { value } else { 1 };
        self.retime_checked(self.ticks_per_input, self.ticks_per_beat, self.ticks_per_step, meas)
    }

    /// Sets the ticks per input, at least one, and raises the ticks per step to it; then
    /// passes and outputs.
    pub fn set_ticks_per_input(&mut self, value: u32) -> (msg: Message<LAYER_COUNT>)
        requires
            old(self).wf(),
            old(self)@.with_timing(max_u32(value, 1), old(self).ticks_per_beat, max_u32(old(self).ticks_per_step, max_u32(value, 1)), old(self).steps_per_meas).wf(),
            old(self)@.with_timing(max_u32(value, 1), old(self).ticks_per_beat, max_u32(old(self).ticks_per_step, max_u32(value, 1)), old(self).steps_per_meas).pass_net_ok(),
        ensures
            final(self).wf(),
            final(self)@ == old(self)@.with_timing(max_u32(value, 1), old(self).ticks_per_beat, max_u32(old(self).ticks_per_step, max_u32(value, 1)), old(self).steps_per_meas).try_pass(),
            msg@ == old(self)@.with_timing(max_u32(value, 1), old(self).ticks_per_beat, max_u32(old(self).ticks_per_step, max_u32(value, 1)), old(self).steps_per_meas).try_pass().net(),
            final(self).ticks_per_input == max_u32(value, 1),
            final(self).ticks_per_step == max_u32(old(self).ticks_per_step, max_u32(value, 1)),
            final(self).ticks_per_step >= final(self).ticks_per_input,
            final(self).steps_per_meas == old(self).steps_per_meas,
            msg.ticks_per_meas == final(self).ticks_per_step * final(self).steps_per_meas,
    {
        let ghost m = self@;
        self.ticks_per_input = if value >= 1 { value } else { 1 };
        self.ticks_per_step = if self.ticks_per_step >= self.ticks_per_input { self.ticks_per_step } else { self.ticks_per_input };
        proof {
            assert(self@ == m.with_timing(max_u32(value, 1), m.ticks_per_beat, max_u32(m.ticks_per_step, max_u32(value, 1)), m.steps_per_meas));
        }
        self.pass_net()
    }

    /// Sets the ticks per step, at least the ticks per input, then passes and outputs.
    pub fn set_ticks_per_step(&mut self, value: u32) -> (msg: Message<LAYER_COUNT>)
        requires
            old(self).wf(),
            old(self)@.with_timing(old(self).ticks_per_input, old(self).ticks_per_beat, max_u32(value, old(self).ticks_per_input), old(self).steps_per_meas).wf(),
            old(self)@.with_timing(old(self).ticks_per_input, old(self).ticks_per_beat, max_u32(value, old(self).ticks_per_input), old(self).steps_per_meas).pass_net_ok(),
        ensures
            final(self).wf(),
            final(self)@ == old(self)@.with_timing(old(self).ticks_per_input, old(self).ticks_per_beat, max_u32(value, old(self).ticks_per_input), old(self).steps_per_meas).try_pass(),
            msg@ == old(self)@.with_timing(old(self).ticks_per_input, old(self).ticks_per_beat, max_u32(value, old(self).ticks_per_input), old(self).steps_per_meas).try_pass().net(),
    {
        let ghost m = self@;
        self.ticks_per_step = if value >= self.ticks_per_input { value } else { self.ticks_per_input };
        proof {
            assert(self@ == m.with_timing(m.ticks_per_input, m.ticks_per_beat, max_u32(value, m.ticks_per_input), m.steps_per_meas));
        }
        self.pass_net()
    }

    /// Sets the steps per measure, at least one, then passes and outputs.
    pub fn set_steps_per_meas(&mut self, value: u32) -> (msg: Message<LAYER_COUNT>)
        requires
            old(self).wf(),
            old(self)@.with_timing(old(self).ticks_per_input, old(self).ticks_per_beat, old(self).ticks_per_step, max_u32(value, 1)).wf(),
            old(self)@.with_timing(old(self).ticks_per_input, old(self).ticks_per_beat, old(self).ticks_per_step, max_u32(value, 1)).pass_net_ok(),
        ensures
            final(self).wf(),
            final(self)@ == old(self)@.with_timing(old(self).ticks_per_input, old(self).ticks_per_beat, old(self).ticks_per_step, max_u32(value, 1)).try_pass(),
            msg@ == old(self)@.with_timing(old(self).ticks_per_input, old(self).ticks_per_beat, old(self).ticks_per_step, max_u32(value, 1)).try_pass().net(),
    {
        let ghost m = self@;
        self.steps_per_meas = if value >= 1 { value } else { 1 };
        proof {
            assert(self@ == m.with_timing(m.ticks_per_input, m.ticks_per_beat, m.ticks_per_step, max_u32(value, 1)));
        }
        self.pass_net()
    }

    /// Sets the phrases that recordings are stored to, in ascending order, starting over
    /// from the first.
    pub fn set_record_mask(&mut self, mask: &[u8])
        requires
            old(self).wf(),
            mask@.len() <= PHRASE_COUNT,
        ensures
            final(self).wf(),
            final(self)@ == (HandlerModel {
                writer: crate::state::WriterModel { store_mask: final(self)@.writer.store_mask, store_index: 0, ..old(self)@.writer },
                ..old(self)@
            }),
            ascending(final(self)@.writer.store_mask),
            final(self)@.writer.store_mask.to_multiset() == mask@.to_multiset(),
    {
        let sorted = sorted_mask(mask);
        self.phrase_writer.store_mask = sorted;
        self.phrase_writer.store_index = 0;
    }

    /// Begins the tick that the signal side reports: opens passing on the tick before an
    /// input tick, consumes the inputs the signal side received once passing closes,
    /// moves every active onset on by a tick, and returns, for each layer whose ramps
    /// advance now, the ticks they advance by.
    pub fn tick(&mut self, message: crate::signal::Message<LAYER_COUNT>) -> (steps: Vec<Option<u32>>)
        requires
            old(self).wf(),
            old(self)@.begin_tick_ok(message.tick, message.inputs@),
        ensures
            final(self).wf(),
            final(self)@ == old(self)@.begin_tick(message.tick, message.inputs@),
            steps@ == old(self)@.ramp_steps(message.tick, message.inputs@),
    {
        let ghost m = self@;
        let pass = rem_euclid_i32(message.tick + 1, self.ticks_per_input as i32) == 0;
        if !pass && self.pass_input {
            let mut l: usize = 0;
            while l < LAYER_COUNT
                invariant
                    m == old(self)@,
                    m.wf(),
                    message.inputs@.len() == LAYER_COUNT,
                    l <= LAYER_COUNT,
                    self@ == (HandlerModel {
                        buffer: BufferModel { onsets: self@.buffer.onsets, onsets_next: self@.buffer.onsets_next, ..m.buffer },
                        ..m
                    }),
                    self@.buffer.onsets.len() == LAYER_COUNT,
                    self@.buffer.onsets_next.len() == LAYER_COUNT,
                    forall|j: int| 0 <= j < l ==> #[trigger] self@.buffer.onsets[j] == m.consumed(message.inputs@).buffer.onsets[j],
                    forall|j: int| 0 <= j < l ==> #[trigger] self@.buffer.onsets_next[j] == m.consumed(message.inputs@).buffer.onsets_next[j],
                    forall|j: int| l <= j < LAYER_COUNT ==> #[trigger] self@.buffer.onsets[j] == m.buffer.onsets[j],
                    forall|j: int| l <= j < LAYER_COUNT ==> #[trigger] self@.buffer.onsets_next[j] == m.buffer.onsets_next[j],
                decreases LAYER_COUNT - l,
            {
                // only consume current input when input has been received by SignalHandler
                if same_input(self.buffer.onsets[l], message.inputs[l]) {
                    let next = self.buffer.onsets_next[l];
                    self.buffer.onsets.set(l, next);
                    self.buffer.onsets_next.set(l, None);
                }
                l = l + 1;
            }
            let cur = self.layer as usize;
            let mut slot: OnsetEvent<Modded<Onset>> = OnsetEvent::Stop;
            std::mem::swap(&mut slot, &mut self.active_onsets[cur]);
            let flipped = match slot {
                OnsetEvent::Stop => OnsetEvent::Stop,
                OnsetEvent::Hold { tick, onset, index } => OnsetEvent::Hold {
                    tick,
                    onset: Modded { inner: onset.inner, mods: Mods { reverse: self.reverse, ..onset.mods } },
                    index,
                },
                OnsetEvent::Loop { tick, onset, index, len } => OnsetEvent::Loop {
                    tick,
                    onset: Modded { inner: onset.inner, mods: Mods { reverse: self.reverse, ..onset.mods } },
                    index,
                    len,
                },
            };
            self.active_onsets.set(cur, flipped);
            proof {
                let c = m.consumed(message.inputs@);
                assert(self@.buffer.onsets =~= c.buffer.onsets);
                assert(self@.buffer.onsets_next =~= c.buffer.onsets_next);
                assert(self@.active_onsets =~= c.active_onsets);
                assert(self@ == c);
            }
        }
        self.pass_input = pass;
        let ghost m1 = m.tick_base(message.tick, message.inputs@);
        assert(self@ == (HandlerModel { pass_input: pass, ..m1 }));
        let mut steps: Vec<Option<u32>> = Vec::new();
        let mut l: usize = 0;
        while l < LAYER_COUNT
            invariant
                m == old(self)@,
                m.wf(),
                l <= LAYER_COUNT,
                pass == m.passes_at(message.tick),
                m1 == m.tick_base(message.tick, message.inputs@),
                m.begin_tick_ok(message.tick, message.inputs@),
                self@ == (HandlerModel { pass_input: pass, active_onsets: self@.active_onsets, ramp_ticks: self@.ramp_ticks, ..m1 }),
                self@.active_onsets.len() == LAYER_COUNT,
                self@.ramp_ticks.len() == LAYER_COUNT,
                m1.active_onsets.len() == LAYER_COUNT,
                m1.ramp_ticks.len() == LAYER_COUNT,
                steps@.len() == l,
                forall|j: int| 0 <= j < l ==> #[trigger] self@.active_onsets[j] == m.begin_tick(message.tick, message.inputs@).active_onsets[j],
                forall|j: int| 0 <= j < l ==> #[trigger] self@.ramp_ticks[j] == m.begin_tick(message.tick, message.inputs@).ramp_ticks[j],
                forall|j: int| 0 <= j < l ==> #[trigger] steps@[j] == m.ramp_steps(message.tick, message.inputs@)[j],
                forall|j: int| l <= j < LAYER_COUNT ==> #[trigger] self@.active_onsets[j] == m1.active_onsets[j],
                forall|j: int| l <= j < LAYER_COUNT ==> #[trigger] self@.ramp_ticks[j] == m1.ramp_ticks[j],
            decreases LAYER_COUNT - l,
        {
            proof {
                assert(step_ok(m1.active_onsets[l as int]));
                assert(m1.ramp_ticks[l as int] < u32::MAX);
            }
            let mut slot: OnsetEvent<Modded<Onset>> = OnsetEvent::Stop;
            std::mem::swap(&mut slot, &mut self.active_onsets[l]);
            let next = match slot {
                OnsetEvent::Stop => OnsetEvent::Stop,
                OnsetEvent::Hold { tick, onset, index } => {
                    let t = if onset.mods.reverse { tick - 1 } else { tick + 1 };
                    OnsetEvent::Hold { tick: t, onset, index }
                },
                OnsetEvent::Loop { tick, onset, index, len } => {
                    let t = if onset.mods.reverse { tick - 1 } else { tick + 1 };
                    OnsetEvent::Loop { tick: rem_euclid_i32(t, len as i32), onset, index, len }
                },
            };
            // ramps advance every tick when snapping micro, and at onset boundaries when snapping macro
            let due = match self.ramp_snap {
                Snap::Micro => true,
                Snap::Macro => match &next {
                    OnsetEvent::Stop => false,
                    OnsetEvent::Hold { tick, .. } => *tick == 0,
                    OnsetEvent::Loop { tick, len, .. } => rem_euclid_i32(*tick + 1, *len as i32) == 0,
                },
            };
            self.active_onsets.set(l, next);
            let ticks = self.ramp_ticks[l] + 1;
            if due {
                self.ramp_ticks.set(l, 0);
                steps.push(Some(ticks));
            } else {
                self.ramp_ticks.set(l, ticks);
                steps.push(None);
            }
            l = l + 1;
        }
        proof {
            let spec = m.begin_tick(message.tick, message.inputs@);
            assert(self@.active_onsets =~= spec.active_onsets);
            assert(self@.ramp_ticks =~= spec.ramp_ticks);
            assert(steps@ =~= m.ramp_steps(message.tick, message.inputs@));
            assert(self@ == spec);
        }
        steps
    }

    /// Finishes a tick once the host advanced its ramps: sets the layers' levels on their
    /// active onsets, passes, moves every phrase reader on, and records the current
    /// layer's event of the message it returns.
    pub fn finish_tick(&mut self, levels: Vec<Vec<Levels>>) -> (msg: Message<LAYER_COUNT>)
        requires
            old(self).wf(),
            old(self)@.finish_tick_ok(levels@.map_values(|v: Vec<Levels>| v@)),
        ensures
            final(self).wf(),
            final(self)@ == old(self)@.finish_tick(levels@.map_values(|v: Vec<Levels>| v@)).0,
            msg@ == old(self)@.finish_tick(levels@.map_values(|v: Vec<Levels>| v@)).1,
            forall|l: int| 0 <= l < LAYER_COUNT ==> (#[trigger] final(self)@.active_phrases[l] matches Some(r)
                ==> r.tick < final(self)@.phrases[r.index as int]->Some_0.len),
    {
        let ghost m = self@;
        let ghost lv = levels@.map_values(|v: Vec<Levels>| v@);
        self.relevel(levels);
        self.try_pass();
        self.advance_readers();
        let ghost m3 = self@;
        let net = self.net();
        let cur = self.layer as usize;
        proof {
            m3.lemma_net_carried(cur as int);
        }
        let e = clone_event(&net.events[cur]);
        self.phrase_writer.push(e);
        proof {
            assert(self@ == m.finish_tick(lv).0);
        }
        net
    }

    /// `finish_tick`, checking its ranges on the way: `None`, with the handler part way,
    /// when the levels do not fit the layers and keys, a step would leave its range, or a
    /// layer's sync would not stop.
    pub fn finish_tick_checked(&mut self, levels: Vec<Vec<Levels>>) -> (msg: Option<Message<LAYER_COUNT>>)
        requires
            old(self).wf(),
        ensures
            final(self).wf(),
            msg is Some <==> old(self)@.finish_tick_ok(levels@.map_values(|v: Vec<Levels>| v@)),
            msg matches Some(m) ==> final(self)@ == old(self)@.finish_tick(levels@.map_values(|v: Vec<Levels>| v@)).0
                && m@ == old(self)@.finish_tick(levels@.map_values(|v: Vec<Levels>| v@)).1,
    {
        let ghost m = self@;
        let ghost lv = levels@.map_values(|v: Vec<Levels>| v@);
        if levels.len() != LAYER_COUNT {
            return None;
        }
        let mut l: usize = 0;
        while l < LAYER_COUNT
            invariant
                l <= LAYER_COUNT,
                levels@.len() == LAYER_COUNT,
                lv == levels@.map_values(|v: Vec<Levels>| v@),
                m == self@,
                self.wf(),
                forall|i: int| 0 <= i < l ==> (#[trigger] lv[i]).len() == KIT_LEN,
            decreases LAYER_COUNT - l,
        {
            assert(lv[l as int] == levels@[l as int]@);
            if levels[l].len() != KIT_LEN {
                assert(!m.levels_wf(lv));
                return None;
            }
            l = l + 1;
        }
        assert(m.levels_wf(lv));
        self.relevel(levels);
        if !self.try_pass_checked() {
            return None;
        }
        self.advance_readers();
        if !self.net_ok() {
            return None;
        }
        let recording_fits = match self.phrase_writer.state {
            WriterState::Recording { len, .. } => len < 0xffff_ffff,
            _ => true,
        };
        if !recording_fits {
            return None;
        }
        let ghost m3 = self@;
        let net = self.net();
        let cur = self.layer as usize;
        proof {
            m3.lemma_net_carried(cur as int);
        }
        let e = clone_event(&net.events[cur]);
        self.phrase_writer.push(e);
        proof {
            assert(self@ == m.finish_tick(lv).0);
        }
        Some(net)
    }

    /// Sets the levels, and every active onset plays with the levels of its layer and key.
    fn relevel(&mut self, levels: Vec<Vec<Levels>>)
        requires
            old(self).wf(),
            old(self)@.levels_wf(levels@.map_values(|v: Vec<Levels>| v@)),
        ensures
            final(self).wf(),
            final(self)@ == old(self)@.with_levels(levels@.map_values(|v: Vec<Levels>| v@)),
    {
        let ghost m = self@;
        let ghost lv = levels@.map_values(|v: Vec<Levels>| v@);
        self.levels = levels;
        proof {
            assert(self@.levels =~= lv);
        }
        let mut l: usize = 0;
        while l < LAYER_COUNT
            invariant
                m == old(self)@,
                m.wf(),
                m.levels_wf(lv),
                l <= LAYER_COUNT,
                self@ == (HandlerModel { levels: lv, active_onsets: self@.active_onsets, ..m }),
                self@.active_onsets.len() == LAYER_COUNT,
                forall|j: int| 0 <= j < l ==> #[trigger] self@.active_onsets[j] == m.with_levels(lv).active_onsets[j],
                forall|j: int| l <= j < LAYER_COUNT ==> #[trigger] self@.active_onsets[j] == m.active_onsets[j],
            decreases LAYER_COUNT - l,
        {
            proof {
                assert(active_wf(m.active_onsets[l as int], KIT_LEN as nat));
                assert(self@.levels[l as int] == self.levels@[l as int]@);
            }
            let mut slot: OnsetEvent<Modded<Onset>> = OnsetEvent::Stop;
            std::mem::swap(&mut slot, &mut self.active_onsets[l]);
            let next = match slot {
                OnsetEvent::Stop => OnsetEvent::Stop,
                OnsetEvent::Hold { tick, onset, index } => {
                    let lv = self.levels[l][index as usize];
                    OnsetEvent::Hold {
                        tick,
                        onset: Modded { inner: onset.inner, mods: Mods { pan: lv.pan, gain: lv.gain, speed: lv.speed, ..onset.mods } },
                        index,
                    }
                },
                OnsetEvent::Loop { tick, onset, index, len } => {
                    let lv = self.levels[l][index as usize];
                    OnsetEvent::Loop {
                        tick,
                        onset: Modded { inner: onset.inner, mods: Mods { pan: lv.pan, gain: lv.gain, speed: lv.speed, ..onset.mods } },
                        index,
                        len,
                    }
                },
            };
            self.active_onsets.set(l, next);
            l = l + 1;
        }
        proof {
            assert(self@.active_onsets =~= m.with_levels(lv).active_onsets);
            assert(self@ == m.with_levels(lv));
            assert(self@.wf());
        }
    }

    /// Moves every phrase reader on by a tick, wrapping at its phrase's length.
    fn advance_readers(&mut self)
        requires
            old(self).wf(),
        ensures
            final(self).wf(),
            final(self)@ == old(self)@.advance_readers(),
            forall|l: int| 0 <= l < LAYER_COUNT ==> (#[trigger] final(self)@.active_phrases[l] matches Some(r)
                ==> r.tick < final(self)@.phrases[r.index as int]->Some_0.len),
    {
        let ghost m2 = self@;
        let mut l: usize = 0;
        while l < LAYER_COUNT
            invariant
                m2 == old(self)@,
                m2.wf(),
                l <= LAYER_COUNT,
                self@ == (HandlerModel { active_phrases: self@.active_phrases, ..m2 }),
                self@.active_phrases.len() == LAYER_COUNT,
                forall|j: int| 0 <= j < l ==> #[trigger] self@.active_phrases[j] == m2.advance_readers().active_phrases[j],
                forall|j: int| l <= j < LAYER_COUNT ==> #[trigger] self@.active_phrases[j] == m2.active_phrases[j],
            decreases LAYER_COUNT - l,
        {
            if let Some(reader) = self.active_phrases[l] {
                proof {
                    assert(m2.phrases[reader.index as int] == phrase_view(self.phrases@[reader.index as int]));
                }
                if let Some(phrase) = &self.phrases[reader.index as usize] {
                    let tick = rem_euclid_i32(reader.tick as i32 + 1, phrase.len as i32) as u32;
                    self.active_phrases.set(l, Some(PhraseReader { index: reader.index, tick }));
                }
            }
            l = l + 1;
        }
        let ghost m3 = m2.advance_readers();
        proof {
            assert(self@.active_phrases =~= m3.active_phrases);
            assert(self@ == m3);
            assert forall|i: int| 0 <= i < LAYER_COUNT implies (#[trigger] m3.active_phrases[i] matches Some(r) ==> {
                &&& r.index < PHRASE_COUNT
                &&& m3.phrases[r.index as int] is Some
                &&& r.tick < i32::MAX
                &&& r.tick < m3.phrases[r.index as int]->Some_0.len
            }) by {
                if let Some(r) = m2.active_phrases[i] {
                    let p = m2.phrases[r.index as int]->Some_0;
                    assert(phrase_wf(p, PHRASE_LEN as nat));
                    vstd::arithmetic::div_mod::lemma_mod_bound(r.tick + 1, p.len as int);
                }
            }
            assert(m3.wf());
        }
    }

    /// Chooses kit `index` for the current layer's `bank`.
    pub fn set_kit_index(&mut self, bank: u8, index: u8)
        requires
            old(self).wf(),
            bank < BANK_COUNT,
        ensures
            final(self).wf(),
            final(self)@ == (HandlerModel {
                kit_indices: old(self)@.kit_indices.update(
                    old(self).layer as int,
                    old(self)@.kit_indices[old(self).layer as int].update(bank as int, index),
                ),
                ..old(self)@
            }),
    {
        let ghost m = self@;
        let l = self.layer as usize;
        proof {
            assert(m.kit_indices[l as int] == self.kit_indices@[l as int]@);
        }
        self.kit_indices[l][bank as usize] = index;
        proof {
            let spec = m.kit_indices.update(l as int, m.kit_indices[l as int].update(bank as int, index));
            assert forall|i: int| 0 <= i < LAYER_COUNT implies #[trigger] self@.kit_indices[i] == spec[i] by {
                if i != l {
                    assert(self@.kit_indices[i] == self.kit_indices@[i]@);
                }
            }
            assert(self@.kit_indices =~= spec);
        }
    }

    /// Sets the levels each layer's onsets start with and take on each tick.
    pub fn set_levels(&mut self, levels: Vec<Vec<Levels>>)
        requires
            old(self).wf(),
            old(self)@.levels_wf(levels@.map_values(|v: Vec<Levels>| v@)),
        ensures
            final(self).wf(),
            final(self)@ == (HandlerModel { levels: levels@.map_values(|v: Vec<Levels>| v@), ..old(self)@ }),
    {
        self.levels = levels;
        proof {
            assert(self@.levels =~= levels@.map_values(|v: Vec<Levels>| v@));
        }
    }

    /// When passing is open, passes the buffered inputs and then the record input: a
    /// start begins recording, a stop stores the recording to the next phrase of the mask
    /// and holds it on the current layer.
    fn try_pass(&mut self)
        requires
            old(self).wf(),
            old(self)@.try_pass_ok(),
        ensures
            final(self).wf(),
            final(self)@ == old(self)@.try_pass(),
    {
        if !self.pass_input {
            return;
        }
        let ghost m = self@;
        self.pass_inputs();
        let record = self.buffer.record;
        self.buffer.record = None;
        let ghost m2 = self@;
        assert(m2 == (HandlerModel { buffer: BufferModel { record: None, ..m.pass_inputs().buffer }, ..m.pass_inputs() }));
        match record {
            None => {},
            Some(RecordInput::Start) => {
                self.phrase_writer.try_start();
                assert(self@ == m.try_pass());
            },
            Some(RecordInput::Stop) => {
                let stored = self.phrase_writer.try_store(self.ticks_per_input);
                if let Some(phrase) = stored {
                    if let Some(store_to) = self.phrase_writer.try_advance() {
                        self.phrases.set(store_to as usize, Some(phrase));
                        self.buffer.phrases.set(self.layer as usize, Some(PhraseInput::Hold { index: store_to }));
                        let ghost m3 = self@;
                        proof {
                            assert(m3.phrases =~= m2.phrases.update(store_to as int, Some(phrase@)));
                            assert forall|i: int| 0 <= i < m3.phrases.len() implies (#[trigger] m3.phrases[i] matches Some(q) ==> phrase_wf(q, PHRASE_LEN as nat)) by {
                                if i != store_to {
                                    assert(m3.phrases[i] == m2.phrases[i]);
                                }
                            }
                            assert(m3.wf());
                        }
                        self.pass_inputs();
                        if let Snap::Macro = self.phrase_snap_start {
                            self.mod_phrase_start(1);
                        } else {
                            self.mod_phrase_start(0);
                        }
                        self.mod_phrase_len(0);
                    }
                }
                assert(self@ == m.try_pass());
            },
        }
    }

    /// should be called before `StateHandler::tick`
    ///
    /// Moves the start of the current layer's phrase: by `delta` steps, rounded toward
    /// zero to whole steps, when snapping micro; to the `delta`-th playing event after
    /// it (or before it, for a negative `delta`) when snapping macro.
    pub fn mod_phrase_start(&mut self, delta: i32)
        requires
            old(self).wf(),
            old(self)@.mod_start_ok(delta),
        ensures
            final(self).wf(),
            final(self)@ == old(self)@.mod_phrase_start(delta),
    {
        if let Some(reader) = self.active_phrases[self.layer as usize] {
            let idx = reader.index as usize;
            let ghost m = self@;
            proof {
                assert(m.active_phrases[self.layer as int] == Some(reader));
            }
            let mut slot: Option<Phrase<PHRASE_LEN>> = None;
            std::mem::swap(&mut slot, &mut self.phrases[idx]);
            assert(m.phrases[idx as int] == phrase_view(slot));
            if let Some(mut phrase) = slot {
                let ghost p = phrase@;
                assert(m.layer_phrase() == Some((reader.index, p)));
                assert(phrase_wf(p, PHRASE_LEN as nat));
                match self.phrase_snap_start {
                    Snap::Micro => {
                        let scale = self.ticks_per_step as i32;
                        let moved = div_trunc_i32(phrase.start as i32 + delta * scale, scale) * scale;
                        phrase.start = rem_euclid_i32(moved, PHRASE_LEN as i32) as u32;
                    },
                    Snap::Macro => {
                        if delta < 0 {
                            let target: u32 = if delta == i32::MIN { 0x8000_0000u32 } else { (-delta) as u32 };
                            let first = rem_euclid_i64(phrase.start as i64 - 2, PHRASE_LEN as i64) as usize;
                            let j = find_nth_playing(&phrase.events, first, false, target, Ghost(p.start - 2));
                            phrase.start = rem_euclid_i32(phrase.start as i32 - j as i32 - 2, PHRASE_LEN as i32) as u32;
                        } else if delta > 0 {
                            let first = if phrase.start as usize + 1 == PHRASE_LEN { 0 } else { phrase.start as usize + 1 };
                            proof {
                                lemma_mod_step(p.start as int, PHRASE_LEN as int, 1);
                                vstd::arithmetic::div_mod::lemma_small_mod(p.start as nat, PHRASE_LEN as nat);
                            }
                            let j = find_nth_playing(&phrase.events, first, true, delta as u32, Ghost(p.start + 1));
                            phrase.start = (phrase.start + j as u32 + 1) % (PHRASE_LEN as u32);
                        }
                    },
                }
                proof {
                    vstd::arithmetic::div_mod::lemma_mod_bound(m.moved_start(p, delta), PHRASE_LEN as int);
                    if m.phrase_snap_start == Snap::Macro && delta == 0 {
                        vstd::arithmetic::div_mod::lemma_small_mod(p.start as nat, PHRASE_LEN as nat);
                    }
                }
                self.phrases.set(idx, Some(phrase));
            }
            proof {
                assert(self@.phrases =~= m.mod_phrase_start(delta).phrases);
                assert(self@ == m.mod_phrase_start(delta));
                assert forall|i: int| 0 <= i < self@.phrases.len() implies (#[trigger] self@.phrases[i] matches Some(q) ==> phrase_wf(q, PHRASE_LEN as nat)) by {
                    if i != idx {
                        assert(self@.phrases[i] == m.phrases[i]);
                    }
                }
            }
        }
    }

    /// should be called before `StateHandler::tick`
    ///
    /// Changes the length of the current layer's phrase by `delta` units (steps, or
    /// measures when snapping macro), keeping at least one unit.
    pub fn mod_phrase_len(&mut self, delta: i32)
        requires
            old(self).wf(),
            old(self)@.mod_len_ok(delta),
        ensures
            final(self).wf(),
            final(self)@ == old(self)@.mod_phrase_len(delta),
    {
        if let Some(reader) = self.active_phrases[self.layer as usize] {
            let idx = reader.index as usize;
            proof {
                let m = self@;
                assert(m.active_phrases[self.layer as int] == Some(reader));
                if self.phrase_snap_len == Snap::Macro {
                    assert(self.steps_per_meas <= self.ticks_per_step * self.steps_per_meas) by (nonlinear_arith)
                        requires
                            self.ticks_per_step >= 1;
                }
            }
            let scale: i32 = match self.phrase_snap_len {
                Snap::Micro => self.ticks_per_step as i32,
                Snap::Macro => self.ticks_per_step as i32 * self.steps_per_meas as i32,
            };
            let ghost m = self@;
            let mut slot: Option<Phrase<PHRASE_LEN>> = None;
            std::mem::swap(&mut slot, &mut self.phrases[idx]);
            assert(m.phrases[idx as int] == phrase_view(slot));
            if let Some(mut phrase) = slot {
                assert(m.layer_phrase() == Some((reader.index, phrase@)));
                assert(phrase_wf(phrase@, PHRASE_LEN as nat));
                let q = div_trunc_i32(phrase.len as i32 + delta * scale, scale);
                let q = if q > 1 { q } else { 1 };
                phrase.len = (q * scale) as u32;
                self.phrases.set(idx, Some(phrase));
            }
            proof {
                assert(self@.phrases =~= m.mod_phrase_len(delta).phrases);
                assert(self@ == m.mod_phrase_len(delta));
                assert forall|i: int| 0 <= i < self@.phrases.len() implies (#[trigger] self@.phrases[i] matches Some(p) ==> phrase_wf(p, PHRASE_LEN as nat)) by {
                    if i != idx {
                        assert(self@.phrases[i] == m.phrases[i]);
                    } else {
                        let p = m.layer_phrase()->Some_0.1;
                        let sc = m.len_scale();
                        assert(sc >= 1) by (nonlinear_arith)
                            requires
                                sc == self.ticks_per_step || sc == self.ticks_per_step * self.steps_per_meas,
                                self.ticks_per_step >= 1,
                                self.steps_per_meas >= 1;
                        let q = div_trunc(p.len + delta * sc, sc);
                        let qq = if q > 1 { q } else { 1 };
                        assert(qq * sc >= sc) by (nonlinear_arith)
                            requires
                                qq >= 1,
                                sc >= 1;
                    }
                }
            }
        }
    }

    /// for display purposes in external impl
    pub fn get_ticks_per_step(&self) -> (r: u32)
        ensures
            r == self.ticks_per_step,
    {
        self.ticks_per_step
    }

    /// for display purposes in external impl
    pub fn get_ticks_per_beat(&self) -> (r: u32)
        ensures
            r == self.ticks_per_beat,
    {
        self.ticks_per_beat
    }

    /// for display purposes in external impl
    pub fn get_record_mask(&self) -> (r: &[u8])
        ensures
            r@ == self.phrase_writer.store_mask@,
    {
        self.phrase_writer.store_mask.as_slice()
    }

    /// for display purposes in external impl
    ///
    /// The tick of the first layer's reader of phrase `index`.
    pub fn get_reader_tick(&self, index: u8) -> (r: Option<u32>)
        ensures
            r matches Some(t) ==> exists|l: int| 0 <= l < self.active_phrases@.len()
                && #[trigger] self.active_phrases@[l] == Some(PhraseReader { index, tick: t })
                && forall|k: int| 0 <= k < l ==> !(#[trigger] self.active_phrases@[k] matches Some(q) && q.index == index),
            r is None ==> forall|k: int| 0 <= k < self.active_phrases@.len() ==> !(#[trigger] self.active_phrases@[k] matches Some(q) && q.index == index),
    {
        let mut l: usize = 0;
        while l < self.active_phrases.len()
            invariant
                l <= self.active_phrases@.len(),
                forall|k: int| 0 <= k < l ==> !(#[trigger] self.active_phrases@[k] matches Some(q) && q.index == index),
            decreases self.active_phrases@.len() - l,
        {
            if let Some(r) = &self.active_phrases[l] {
                if r.index == index {
                    return Some(r.tick);
                }
            }
            l = l + 1;
        }
        None
    }
}


/// `true` when some event of `events` plays.
pub fn any_playing(events: &Vec<Event>) -> (r: bool)
    ensures
        r == has_playing(events@),
{
    let mut i: usize = 0;
    while i < events.len()
        invariant
            i <= events@.len(),
            forall|k: int| 0 <= k < i ==> !plays(#[trigger] events@[k]),
        decreases events@.len() - i,
    {
        if event_plays(&events[i]) {
            return true;
        }
        i = i + 1;
    }
    false
}

impl<
    const BANK_COUNT: usize,
    const LAYER_COUNT: usize,
    const KIT_COUNT: usize,
    const KIT_LEN: usize,
    const PHRASE_COUNT: usize,
    const PHRASE_LEN: usize,
> StateHandler<BANK_COUNT, LAYER_COUNT, KIT_COUNT, KIT_LEN, PHRASE_COUNT, PHRASE_LEN> {
    /// The phrase the current layer reads, if any.
    fn current_phrase(&self) -> (r: Option<&Phrase<PHRASE_LEN>>)
        requires
            self.wf(),
        ensures
            match self@.layer_phrase() {
                None => r is None,
                Some((_, p)) => r matches Some(q) && q@ == p,
            },
    {
        match &self.active_phrases[self.layer as usize] {
            None => None,
            Some(reader) => {
                proof {
                    assert(self@.active_phrases[self.layer as int] == Some(*reader));
                }
                match &self.phrases[reader.index as usize] {
                    Some(p) => Some(p),
                    None => None,
                }
            },
        }
    }

    /// Whether key `index` names a key of the kits and selects a kit that exists on layer `l`.
    fn key_fits(&self, l: usize, index: u8) -> (b: bool)
        requires
            self.wf(),
            l < LAYER_COUNT,
        ensures
            b == (index < KIT_LEN && self@.kit_slot(l as int, index) < KIT_COUNT),
    {
        if index as usize >= KIT_LEN {
            return false;
        }
        proof {
            assert((index as nat) * (BANK_COUNT as nat) / (KIT_LEN as nat) < BANK_COUNT) by (nonlinear_arith)
                requires
                    index < KIT_LEN,
                    0 < BANK_COUNT;
            assert(self@.kit_indices[l as int] == self.kit_indices@[l as int]@);
            assert((index as nat) * (BANK_COUNT as nat) <= 255 * 0x10000) by (nonlinear_arith)
                requires
                    index <= 255,
                    BANK_COUNT <= 0x10000;
        }
        let slot = self.kit_indices[l][index as usize * BANK_COUNT / KIT_LEN];
        (slot as usize) < KIT_COUNT
    }

    /// Whether the buffered inputs can be passed.
    fn pass_inputs_fit(&self) -> (b: bool)
        requires
            self.wf(),
        ensures
            b == self@.pass_inputs_ok(),
    {
        let mut l: usize = 0;
        while l < LAYER_COUNT
            invariant
                l <= LAYER_COUNT,
                self.wf(),
                forall|i: int| 0 <= i < l ==> phrase_input_wf(#[trigger] self@.buffer.phrases[i], PHRASE_COUNT as nat),
                forall|i: int| 0 <= i < l ==> #[trigger] self@.passable(i, self@.pass_phrase(i).1),
            decreases LAYER_COUNT - l,
        {
            let input = match self.buffer.phrases[l] {
                Some(PhraseInput::Hold { index }) => {
                    if index as usize >= PHRASE_COUNT {
                        assert(!phrase_input_wf(self@.buffer.phrases[l as int], PHRASE_COUNT as nat));
                        return false;
                    }
                    self.buffer.onsets[l]
                },
                Some(PhraseInput::Stop) => match self.active_onsets[l] {
                    OnsetEvent::Stop => Some(OnsetInput::Stop),
                    _ => self.buffer.onsets[l],
                },
                None => self.buffer.onsets[l],
            };
            assert(input == self@.pass_phrase(l as int).1);
            let fits = match input {
                Some(OnsetInput::Hold { index }) => self.key_fits(l, index),
                Some(OnsetInput::Loop { index, len }) => 0 < len && len <= 0x7fff_ffff && self.key_fits(l, index),
                _ => true,
            };
            if !fits {
                assert(!self@.passable(l as int, self@.pass_phrase(l as int).1));
                return false;
            }
            l = l + 1;
        }
        true
    }

    /// Whether every layer's event can be computed: a layer stopping onto its phrase syncs.
    pub fn net_ok(&self) -> (b: bool)
        requires
            self.wf(),
        ensures
            b == self@.net_ok(),
    {
        let mut l: usize = 0;
        while l < LAYER_COUNT
            invariant
                l <= LAYER_COUNT,
                self.wf(),
                forall|i: int| 0 <= i < l ==> #[trigger] self@.layer_event_ok(i),
            decreases LAYER_COUNT - l,
        {
            if let Some(reader) = self.active_phrases[l] {
                if let Some(OnsetInput::Stop) = self.buffer.onsets[l] {
                    proof {
                        assert(self@.active_phrases[l as int] == Some(reader));
                        assert(self@.phrases[reader.index as int] == phrase_view(self.phrases@[reader.index as int]));
                    }
                    if let Some(phrase) = &self.phrases[reader.index as usize] {
                        assert(phrase_wf(phrase@, PHRASE_LEN as nat));
                        if !sync_fits(phrase, reader.tick) {
                            assert(!self@.layer_event_ok(l as int));
                            return false;
                        }
                    }
                }
            }
            assert(self@.layer_event_ok(l as int));
            l = l + 1;
        }
        true
    }

    /// Passes what passing lets through, checking each step's ranges on the way; `false`,
    /// with the handler part way, when `try_pass` could not be done.
    fn try_pass_checked(&mut self) -> (ok: bool)
        requires
            old(self).wf(),
        ensures
            final(self).wf(),
            ok == old(self)@.try_pass_ok(),
            ok ==> final(self)@ == old(self)@.try_pass(),
    {
        if !self.pass_input {
            return true;
        }
        if !self.pass_inputs_fit() {
            return false;
        }
        let ghost m = self@;
        self.pass_inputs();
        let record = self.buffer.record;
        self.buffer.record = None;
        let ghost m2 = self@;
        assert(m2 == (HandlerModel { buffer: BufferModel { record: None, ..m.pass_inputs().buffer }, ..m.pass_inputs() }));
        match record {
            None => true,
            Some(RecordInput::Start) => {
                self.phrase_writer.try_start();
                assert(self@ == m.try_pass());
                true
            },
            Some(RecordInput::Stop) => {
                let stored = self.phrase_writer.try_store(self.ticks_per_input);
                if let Some(phrase) = stored {
                    if let Some(store_to) = self.phrase_writer.try_advance() {
                        if store_to as usize >= PHRASE_COUNT {
                            assert(!m2.store_ok());
                            return false;
                        }
                        self.phrases.set(store_to as usize, Some(phrase));
                        self.buffer.phrases.set(self.layer as usize, Some(PhraseInput::Hold { index: store_to }));
                        let ghost m3 = self@;
                        proof {
                            assert(m3.phrases =~= m2.phrases.update(store_to as int, Some(phrase@)));
                            assert forall|i: int| 0 <= i < m3.phrases.len() implies (#[trigger] m3.phrases[i] matches Some(q) ==> phrase_wf(q, PHRASE_LEN as nat)) by {
                                if i != store_to {
                                    assert(m3.phrases[i] == m2.phrases[i]);
                                }
                            }
                            assert(m3.wf());
                        }
                        if !self.pass_inputs_fit() {
                            assert(!m2.store_ok());
                            return false;
                        }
                        self.pass_inputs();
                        let d: i32 = if let Snap::Macro = self.phrase_snap_start { 1 } else { 0 };
                        if !self.mod_start_ok(d) {
                            assert(!m2.store_ok());
                            return false;
                        }
                        self.mod_phrase_start(d);
                        if !self.mod_len_ok(0) {
                            assert(!m2.store_ok());
                            return false;
                        }
                        self.mod_phrase_len(0);
                    }
                }
                assert(self@ == m.try_pass());
                true
            },
        }
    }

    /// Passes what passing lets through and returns the message of the new state, or
    /// `None`, with the handler part way, when a step would leave its range or a layer's
    /// sync would not stop.
    pub fn pass_net_checked(&mut self) -> (msg: Option<Message<LAYER_COUNT>>)
        requires
            old(self).wf(),
        ensures
            final(self).wf(),
            msg is Some <==> old(self)@.pass_net_ok(),
            msg matches Some(m) ==> final(self)@ == old(self)@.try_pass() && m@ == old(self)@.try_pass().net(),
    {
        if !self.try_pass_checked() {
            return None;
        }
        if !self.net_ok() {
            return None;
        }
        Some(self.net())
    }

    /// Whether `tick` can take `message`: its tick is below `i32::MAX`, it carries an input
    /// per layer, and no held onset's tick and no ramp count would leave its range.
    pub fn tick_ok(&self, message: &crate::signal::Message<LAYER_COUNT>) -> (b: bool)
        requires
            self.wf(),
        ensures
            b == self@.begin_tick_ok(message.tick, message.inputs@),
    {
        if message.tick == 0x7fff_ffff || message.inputs.len() != LAYER_COUNT {
            return false;
        }
        let pass = rem_euclid_i32(message.tick + 1, self.ticks_per_input as i32) == 0;
        let consume = !pass && self.pass_input;
        let ghost m = self@;
        let ghost base = m.tick_base(message.tick, message.inputs@);
        let mut l: usize = 0;
        while l < LAYER_COUNT
            invariant
                l <= LAYER_COUNT,
                m == self@,
                m.wf(),
                message.inputs@.len() == LAYER_COUNT,
                base == m.tick_base(message.tick, message.inputs@),
                consume == (!m.passes_at(message.tick) && m.pass_input),
                forall|i: int| 0 <= i < l ==> step_ok(#[trigger] base.active_onsets[i]),
                forall|i: int| 0 <= i < l ==> #[trigger] base.ramp_ticks[i] < u32::MAX,
            decreases LAYER_COUNT - l,
        {
            proof {
                assert(base.ramp_ticks[l as int] == m.ramp_ticks[l as int]);
                if consume && l == self.layer as usize {
                    assert(base.active_onsets[l as int] == crate::model::with_reverse(m.active_onsets[l as int], m.reverse));
                } else {
                    assert(base.active_onsets[l as int] == m.active_onsets[l as int]);
                }
            }
            if self.ramp_ticks[l] == 0xffff_ffff {
                return false;
            }
            if let OnsetEvent::Hold { tick, onset, .. } = &self.active_onsets[l] {
                let reverse = if consume && l == self.layer as usize { self.reverse } else { onset.mods.reverse };
                if (reverse && *tick == i32::MIN) || (!reverse && *tick == 0x7fff_ffff) {
                    return false;
                }
            }
            l = l + 1;
        }
        true
    }

    /// Whether `mod_phrase_len(delta)` keeps its numbers in range.
    pub fn mod_len_ok(&self, delta: i32) -> (b: bool)
        requires
            self.wf(),
        ensures
            b == self@.mod_len_ok(delta),
    {
        let p = match self.current_phrase() {
            None => return true,
            Some(p) => p,
        };
        assert(self.ticks_per_step * self.steps_per_meas >= 1) by (nonlinear_arith)
            requires
                self.ticks_per_step >= 1,
                self.steps_per_meas >= 1;
        let scale: i64 = match self.phrase_snap_len {
            Snap::Micro => self.ticks_per_step as i64,
            Snap::Macro => self.ticks_per_step as i64 * self.steps_per_meas as i64,
        };
        assert(scale == self@.len_scale());
        if scale > 0x7fff_ffff {
            return false;
        }
        assert(-0x8000_0000 * 0x7fff_ffff <= delta * scale <= 0x7fff_ffff * 0x7fff_ffff) by (nonlinear_arith)
            requires
                i32::MIN <= delta <= i32::MAX,
                1 <= scale <= 0x7fff_ffff;
        let ds: i64 = delta as i64 * scale;
        if ds < -0x8000_0000 || ds > 0x7fff_ffff {
            return false;
        }
        let x: i64 = p.len as i64 + ds;
        if x < -0x8000_0000 || x > 0x7fff_ffff {
            return false;
        }
        let q = div_trunc_i32(x as i32, scale as i32);
        let q1: i64 = if q > 1 { q as i64 } else { 1 };
        assert(q1 * scale <= 0x7fff_ffff * 0x7fff_ffff) by (nonlinear_arith)
            requires
                1 <= q1 <= 0x7fff_ffff,
                1 <= scale <= 0x7fff_ffff;
        assert(q1 * scale >= 1) by (nonlinear_arith)
            requires
                1 <= q1,
                1 <= scale;
        let moved: i64 = q1 * scale;
        assert(moved == self@.moved_len(p@, delta));
        moved <= 0x7fff_ffff
    }

    /// Whether `mod_phrase_start(delta)` stops and keeps its numbers in range.
    pub fn mod_start_ok(&self, delta: i32) -> (b: bool)
        requires
            self.wf(),
        ensures
            b == self@.mod_start_ok(delta),
    {
        let p = match self.current_phrase() {
            None => return true,
            Some(p) => p,
        };
        let ghost pm = p@;
        assert(phrase_wf(pm, PHRASE_LEN as nat));
        match self.phrase_snap_start {
            Snap::Micro => {
                let scale: i64 = self.ticks_per_step as i64;
                assert(-0x8000_0000 * 0x7fff_ffff <= delta * scale <= 0x7fff_ffff * 0x7fff_ffff) by (nonlinear_arith)
                    requires
                        i32::MIN <= delta <= i32::MAX,
                        1 <= scale <= 0x7fff_ffff;
                let ds: i64 = delta as i64 * scale;
                if ds < -0x8000_0000 || ds > 0x7fff_ffff {
                    return false;
                }
                let x: i64 = p.start as i64 + ds;
                if x < -0x8000_0000 || x > 0x7fff_ffff {
                    return false;
                }
                let q = div_trunc_i32(x as i32, scale as i32);
                assert(-0x8000_0000 * 0x7fff_ffff <= q * scale <= 0x7fff_ffff * 0x7fff_ffff) by (nonlinear_arith)
                    requires
                        i32::MIN <= q <= i32::MAX,
                        1 <= scale <= 0x7fff_ffff;
                let moved: i64 = q as i64 * scale;
                moved >= -0x8000_0000 && moved <= 0x7fff_ffff
            },
            Snap::Macro => {
                if delta == 0 {
                    return true;
                }
                if !any_playing(&p.events) {
                    return false;
                }
                if delta < 0 {
                    let target: u32 = if delta == i32::MIN { 0x8000_0000u32 } else { (-delta) as u32 };
                    let first = rem_euclid_i64(p.start as i64 - 2, PHRASE_LEN as i64) as usize;
                    let j = find_nth_playing(&p.events, first, false, target, Ghost(pm.start - 2));
                    let x: i128 = p.start as i128 - j as i128 - 2;
                    j <= 0x7fff_ffff && x >= -0x8000_0000
                } else {
                    let first = if p.start as usize + 1 == PHRASE_LEN { 0 } else { p.start as usize + 1 };
                    proof {
                        lemma_mod_step(pm.start as int, PHRASE_LEN as int, 1);
                        vstd::arithmetic::div_mod::lemma_small_mod(pm.start as nat, PHRASE_LEN as nat);
                    }
                    let j = find_nth_playing(&p.events, first, true, delta as u32, Ghost(pm.start + 1));
                    (p.start as u128 + j as u128 + 1) <= 0xffff_ffff
                }
            },
        }
    }
}

} // verus!
