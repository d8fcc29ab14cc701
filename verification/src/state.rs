use vstd::prelude::*;
use crate::arith::rem_euclid_i32;
use crate::fs::{
    added, all_succeed, extends, fails_last, lemma_added_concat, lemma_added_none, lemma_added_push, reads_forward, read_wav_layout,
    wav_layout, Error, FileHandler, FsCall, WavLayout,
};
use crate::signal;
pub use crate::handler::{Message, StateHandler};
use vstd::arithmetic::div_mod::{lemma_small_mod, lemma_mod_self_0};

verus! {

/// How far a ramp or a phrase boundary snaps.
#[derive(Copy, Clone, PartialEq, Eq, Structural, Debug)]
pub enum Snap {
    /// on tick for ramp; on step for phrase
    Micro,
    /// on onset for ramp; on meas for phrase
    Macro,
}

impl Snap {
    /// The name the screen shows for the snap.
    pub fn name(&self) -> (s: &'static str)
        ensures
            s@ == match self {
                Snap::Micro => "micro"@,
                Snap::Macro => "macro"@,
            },
    {
        match self {
            Snap::Micro => "micro",
            Snap::Macro => "macro",
        }
    }
}

/// An onset key pressed, held as a jump, or as a loop of `len` ticks.
#[derive(Copy, Clone, PartialEq, Eq, Structural, Debug)]
pub enum OnsetInput {
    Stop,
    Hold { index: u8 },
    Loop { index: u8, len: u32 },
}

#[derive(Copy, Clone, PartialEq, Eq, Structural, Debug)]
pub enum PhraseInput {
    Stop,
    Hold { index: u8 },
}

#[derive(Copy, Clone, PartialEq, Eq, Structural, Debug)]
pub enum RecordInput {
    Stop,
    Start,
}

/// Playback modifiers of an onset. `pan`, `gain` and `speed` are the bit patterns of
/// IEEE-754 single-precision numbers: the library carries them, the host computes them.
#[derive(Copy, Clone, PartialEq, Eq, Structural, Debug)]
pub struct Mods {
    pub pan: u32,
    pub gain: u32,
    pub speed: u32,
    pub reverse: bool,
}

/// The float levels of a layer that an onset at a given index plays with.
#[derive(Copy, Clone, PartialEq, Eq, Structural, Debug)]
pub struct Levels {
    pub pan: u32,
    pub gain: u32,
    pub speed: u32,
}

/// Bits of 0.5.
pub const HALF_BITS: u32 = 0x3f00_0000u32;

/// Bits of 1.0.
pub const ONE_BITS: u32 = 0x3f80_0000u32;

pub open spec fn default_mods() -> Mods {
    Mods { pan: HALF_BITS, gain: ONE_BITS, speed: ONE_BITS, reverse: false }
}

impl Mods {
    /// Centered, unit gain and speed, forwards.
    pub fn new() -> (m: Mods)
        ensures
            m == default_mods(),
    {
        Mods { pan: HALF_BITS, gain: ONE_BITS, speed: ONE_BITS, reverse: false }
    }
}

/// A value together with the modifiers it plays with.
pub struct Modded<T> {
    pub inner: T,
    pub mods: Mods,
}

/// What a layer plays: nothing, an onset from `tick` on, or a loop of `len` ticks.
pub enum OnsetEvent<O> {
    Stop,
    Hold { tick: i32, onset: O, index: u8 },
    Loop { tick: i32, onset: O, index: u8, len: u32 },
}

/// An onset of a kit: a WAV file, where the onset starts in it, and how many beats it spans.
pub struct Onset {
    pub path: String,
    pub onset_start: Option<u32>,
    pub beat_count: u32,
}

impl Clone for Onset {
    fn clone(&self) -> (res: Self)
        ensures
            res == *self,
    {
        Onset { path: self.path.clone(), onset_start: self.onset_start, beat_count: self.beat_count }
    }
}

/// An event as a message or a phrase carries it.
pub type Event = Modded<Option<OnsetEvent<Onset>>>;

/// A copy of an event.
pub fn clone_event(e: &Event) -> (res: Event)
    ensures
        res == *e,
{
    let inner = match &e.inner {
        None => None,
        Some(OnsetEvent::Stop) => Some(OnsetEvent::Stop),
        Some(OnsetEvent::Hold { tick, onset, index }) => Some(
            OnsetEvent::Hold { tick: *tick, onset: onset.clone(), index: *index },
        ),
        Some(OnsetEvent::Loop { tick, onset, index, len }) => Some(
            OnsetEvent::Loop { tick: *tick, onset: onset.clone(), index: *index, len: *len },
        ),
    };
    Modded { inner, mods: e.mods }
}

/// The empty event: nothing, with default modifiers.
pub fn default_event() -> (res: Event)
    ensures
        res == empty_event(),
{
    Modded { inner: None, mods: Mods::new() }
}

pub open spec fn empty_event() -> Event {
    Modded { inner: None, mods: default_mods() }
}

/// `true` when the event starts or holds an onset.
pub open spec fn plays(e: Event) -> bool {
    e.inner matches Some(OnsetEvent::Hold { .. }) || e.inner matches Some(OnsetEvent::Loop { .. })
}

/// A loop length that the tick arithmetic can divide by.
pub open spec fn loop_len_ok(len: u32) -> bool {
    0 < len <= i32::MAX
}

pub open spec fn event_ok<O>(e: OnsetEvent<O>) -> bool {
    e matches OnsetEvent::Loop { len, tick, .. } ==> loop_len_ok(len) && 0 <= tick < len
}

/// `to` carries usable loop lengths.
pub open spec fn carried_ok(e: Event) -> bool {
    e.inner matches Some(OnsetEvent::Loop { len, .. }) ==> loop_len_ok(len)
}

/// `res` is a possible result of opening `onset` while `replace` plays and `stored` is what
/// the onset's path holds: the file of `replace` reused with the new onset start when the
/// paths agree, and otherwise a fresh file with the WAV layout a scan of `stored` finds, or
/// the error that scan ends in.
pub open spec fn opens_as<F: FileHandler>(
    onset: Onset,
    replace: Option<signal::Onset<F>>,
    stored: Seq<u8>,
    res: Result<signal::Onset<F>, Error<F::Error>>,
) -> bool {
    if replace matches Some(r) && r.path@ == onset.path@ {
        res matches Ok(o) && o == (signal::Onset::<F> { onset_start: onset.onset_start, ..replace.unwrap() })
    } else {
        &&& res matches Ok(o) ==> {
            &&& o.path == onset.path
            &&& o.onset_start == onset.onset_start
            &&& o.beat_count == onset.beat_count
            &&& F::contents(&o.file) == stored
            &&& wav_layout(stored) == Ok::<WavLayout, Error<()>>(
                WavLayout { pcm_start: o.pcm_start, pcm_len: o.pcm_len, sample_rate: o.sample_rate },
            )
        }
        &&& res matches Err(Error::BadFormat) ==> wav_layout(stored) == Err::<WavLayout, Error<()>>(Error::BadFormat)
        &&& res matches Err(Error::DataNotFound) ==> wav_layout(stored) == Err::<WavLayout, Error<()>>(Error::DataNotFound)
    }
}

/// The calls `a` that opening `onset` makes once any file it replaces is closed, and how
/// `res` follows from them: an open of the onset's path, then, unless it failed, the reads
/// and seeks of the WAV scan on the opened handle. A failed call's error is returned, and a
/// returned onset plays the opened handle.
pub open spec fn opened_calls<F: FileHandler>(
    onset: Onset,
    a: Seq<FsCall<F::Error>>,
    res: Result<signal::Onset<F>, Error<F::Error>>,
) -> bool {
    &&& a.len() >= 1
    &&& match a[0] {
        FsCall::Open { path, res: o } => path == onset.path@ && match o {
            Err(e) => a.len() == 1 && res == Err::<signal::Onset<F>, Error<F::Error>>(Error::Other(e)),
            Ok(h) => {
                let rest = a.subrange(1, a.len() as int);
                &&& reads_forward(rest, h)
                &&& res matches Ok(x) ==> F::handle(&x.file) == h && all_succeed(rest)
                &&& res matches Err(Error::Other(e)) ==> fails_last(rest, e)
                &&& res is Err && !(res->Err_0 is Other) ==> all_succeed(rest)
            },
        },
        _ => false,
    }
}

/// The calls, from `before` to `after`, that opening `onset` while `replace` plays makes,
/// and how `res` follows from them: none when the paths agree; otherwise a close of the
/// file of `replace`, if any, whose failure ends the opening with its error, and then the
/// calls of `opened_calls`.
pub open spec fn open_calls<F: FileHandler>(
    onset: Onset,
    replace: Option<signal::Onset<F>>,
    before: Seq<FsCall<F::Error>>,
    after: Seq<FsCall<F::Error>>,
    res: Result<signal::Onset<F>, Error<F::Error>>,
) -> bool {
    if replace matches Some(r) && r.path@ == onset.path@ {
        after == before
    } else {
        let a = added(before, after);
        &&& extends(before, after)
        &&& match replace {
            Some(r) => a.len() >= 1 && match a[0] {
                FsCall::Close { file, res: c } => file == F::handle(&r.file) && match c {
                    Err(e) => a.len() == 1 && res == Err::<signal::Onset<F>, Error<F::Error>>(Error::Other(e)),
                    Ok(_) => opened_calls(onset, a.subrange(1, a.len() as int), res),
                },
                _ => false,
            },
            None => opened_calls(onset, a, res),
        }
    }
}

impl Onset {
    /// Opens the onset for playback, reusing `replace` when it plays the same file and
    /// closing it otherwise; a new file is scanned for its WAV layout.
    pub fn open<F: FileHandler>(self, replace: Option<signal::Onset<F>>, fs: &mut F) -> (res: Result<signal::Onset<F>, Error<F::Error>>)
        ensures
            forall|p: Seq<char>| #[trigger] final(fs).stored(p) == old(fs).stored(p),
            opens_as(self, replace, old(fs).stored(self.path@), res),
            open_calls(self, replace, old(fs).calls(), final(fs).calls(), res),
            replace is Some && replace->Some_0.path@ == self.path@ ==> *final(fs) == *old(fs),
    {
        let ghost c0 = fs.calls();
        let ghost closing: bool = replace is Some;
        proof {
            lemma_added_none(c0);
        }
        if let Some(mut replace) = replace {
            if self.path == replace.path {
                replace.onset_start = self.onset_start;
                return Ok(replace);
            } else {
                let r = fs.close(&replace.file);
                proof {
                    lemma_added_push(c0, c0, fs.calls().last());
                    assert(added(c0, fs.calls())[0] == fs.calls().last());
                }
                match r {
                    Ok(()) => {},
                    Err(e) => return Err(Error::Other(e)),
                }
            }
        }
        let ghost c1 = fs.calls();
        let r = fs.open(self.path.as_str());
        proof {
            lemma_added_push(c0, c1, fs.calls().last());
            assert(fs.calls() == c1.push(fs.calls().last()));
            let a = added(c0, fs.calls());
            if closing {
                assert(a.subrange(1, a.len() as int) =~= seq![fs.calls().last()]);
            } else {
                assert(a =~= seq![fs.calls().last()]);
            }
        }
        let mut file = match r {
            Ok(f) => f,
            Err(e) => return Err(Error::Other(e)),
        };
        let ghost c2 = fs.calls();
        let l = read_wav_layout(fs, &mut file);
        proof {
            lemma_added_concat(c0, c2, fs.calls());
            let a = added(c0, fs.calls());
            let pre = added(c0, c2);
            let rest = added(c2, fs.calls());
            assert(a == pre + rest);
            if closing {
                assert(pre.len() == 2);
                assert(a[0] == pre[0]);
                let a1 = a.subrange(1, a.len() as int);
                assert(a1[0] == pre[1]);
                assert(a1.subrange(1, a1.len() as int) =~= rest);
            } else {
                assert(pre.len() == 1);
                assert(a[0] == pre[0]);
                assert(a.subrange(1, a.len() as int) =~= rest);
            }
        }
        let layout = match l {
            Ok(l) => l,
            Err(e) => return Err(e),
        };
        Ok(signal::Onset {
            path: self.path,
            file,
            pcm_start: layout.pcm_start,
            pcm_len: layout.pcm_len,
            onset_start: self.onset_start,
            beat_count: self.beat_count,
            sample_rate: layout.sample_rate,
        })
    }
}


/// One tick forward (or back, when reversed) from `tick`.
pub open spec fn stepped(tick: i32, reverse: bool) -> int {
    if reverse { tick - 1 } else { tick + 1 }
}

/// The event a playing layer holds after one tick: what `to` carries, or, when it carries
/// nothing, the current event moved on by a tick. `None` marks a file that had to be opened,
/// whose outcome `opens_as` states.
pub open spec fn ticked<F: FileHandler>(
    cur: OnsetEvent<Modded<signal::Onset<F>>>,
    to: Event,
    ticks_per_beat: u32,
) -> Option<OnsetEvent<Modded<signal::Onset<F>>>> {
    match to.inner {
        None => match cur {
            OnsetEvent::Stop => Some(OnsetEvent::Stop),
            OnsetEvent::Hold { tick, onset, index } => {
                let t = stepped(tick, to.mods.reverse);
                if onset.inner.onset_start is None
                    && !(0 <= t < (onset.inner.beat_count * ticks_per_beat) as i32) {
                    Some(OnsetEvent::Stop)
                } else {
                    Some(OnsetEvent::Hold { tick: t as i32, onset: Modded { inner: onset.inner, mods: to.mods }, index })
                }
            },
            OnsetEvent::Loop { tick, onset, index, len } => {
                let t = stepped(tick, to.mods.reverse);
                if !(0 <= t < len) && onset.inner.onset_start is None {
                    Some(OnsetEvent::Stop)
                } else {
                    let t2 = if 0 <= t < len { t } else { t % (len as int) };
                    Some(OnsetEvent::Loop { tick: t2 as i32, onset: Modded { inner: onset.inner, mods: to.mods }, index, len })
                }
            },
        },
        Some(OnsetEvent::Stop) => Some(OnsetEvent::Stop),
        _ => None,
    }
}

/// The onset that `cur` plays, if any.
pub open spec fn playing<F: FileHandler>(cur: OnsetEvent<Modded<signal::Onset<F>>>) -> Option<signal::Onset<F>> {
    match cur {
        OnsetEvent::Stop => None,
        OnsetEvent::Hold { onset, .. } => Some(onset.inner),
        OnsetEvent::Loop { onset, .. } => Some(onset.inner),
    }
}

/// The opened onset of a result, with its error.
pub open spec fn opened_part<F: FileHandler>(
    res: Result<OnsetEvent<Modded<signal::Onset<F>>>, Error<F::Error>>,
) -> Result<signal::Onset<F>, Error<F::Error>> {
    match res {
        Ok(e) => match playing(e) {
            Some(o) => Ok(o),
            None => Err(Error::BadFormat),
        },
        Err(e) => Err(e),
    }
}

/// The calls, from `before` to `after`, that a carried stop makes while `cur` plays, and
/// how `res` follows from them: a close of the playing file, whose error is returned, or
/// none when nothing plays.
pub open spec fn stop_calls<F: FileHandler>(
    cur: OnsetEvent<Modded<signal::Onset<F>>>,
    before: Seq<FsCall<F::Error>>,
    after: Seq<FsCall<F::Error>>,
    res: Result<OnsetEvent<Modded<signal::Onset<F>>>, Error<F::Error>>,
) -> bool {
    match playing(cur) {
        None => after == before && res == Ok::<OnsetEvent<Modded<signal::Onset<F>>>, Error<F::Error>>(OnsetEvent::Stop),
        Some(o) => after == before.push(after.last()) && match after.last() {
            FsCall::Close { file, res: c } => file == F::handle(&o.file) && match c {
                Ok(_) => res == Ok::<OnsetEvent<Modded<signal::Onset<F>>>, Error<F::Error>>(OnsetEvent::Stop),
                Err(e) => res == Err::<OnsetEvent<Modded<signal::Onset<F>>>, Error<F::Error>>(Error::Other(e)),
            },
            _ => false,
        },
    }
}

impl<F: FileHandler> OnsetEvent<Modded<signal::Onset<F>>> {
    /// Moves a playing layer on by one tick towards the event `to` carries.
    ///
    /// With nothing carried, a hold steps its tick and stops past the end of an unsliced
    /// onset; a loop steps and wraps. A carried stop closes the current file. A carried
    /// hold or loop opens its onset, reusing the current file when the path is the same.
    /// The cursor of the returned onset is left for the caller to seek to its tick.
    pub fn tick(self, to: &Event, ticks_per_beat: u32, fs: &mut F) -> (res: Result<Self, Error<F::Error>>)
        requires
            event_ok(self),
            carried_ok(*to),
            to.inner is None ==> (self matches OnsetEvent::Hold { tick, onset, .. } ==> {
                &&& i32::MIN <= stepped(tick, to.mods.reverse) <= i32::MAX
                &&& onset.inner.onset_start is None ==> onset.inner.beat_count * ticks_per_beat <= u32::MAX
            }),
        ensures
            forall|p: Seq<char>| #[trigger] final(fs).stored(p) == old(fs).stored(p),
            to.inner is None ==> *final(fs) == *old(fs),
            to.inner matches Some(OnsetEvent::Stop) ==> stop_calls(self, old(fs).calls(), final(fs).calls(), res),
            to.inner matches Some(OnsetEvent::Stop) ==> (playing(self) is None ==> *final(fs) == *old(fs)),
            res is Ok ==> event_ok(res->Ok_0),
            ticked(self, *to, ticks_per_beat) matches Some(e) ==> (
                to.inner is None ==> res == Ok::<Self, Error<F::Error>>(e)
            ),
            to.inner matches Some(OnsetEvent::Stop) ==> (res is Ok ==> res->Ok_0 is Stop) && (res is Err ==> res->Err_0 is Other),
            to.inner matches Some(OnsetEvent::Hold { tick, onset, index }) ==> {
                let r = opened_part(res);
                &&& res matches Ok(e) ==> e matches OnsetEvent::Hold { tick: t, onset: o, index: i }
                    && t == tick && i == index && o.mods == to.mods
                &&& opens_as(onset, playing(self), old(fs).stored(onset.path@), r)
                &&& open_calls(onset, playing(self), old(fs).calls(), final(fs).calls(), r)
                &&& playing(self) is Some && playing(self)->Some_0.path@ == onset.path@ ==> *final(fs) == *old(fs)
            },
            to.inner matches Some(OnsetEvent::Loop { tick, onset, index, len }) ==> {
                let r = opened_part(res);
                &&& res matches Ok(e) ==> e matches OnsetEvent::Loop { tick: t, onset: o, index: i, len: n }
                    && t == (tick as int) % (len as int) && i == index && n == len && o.mods == to.mods
                &&& opens_as(onset, playing(self), old(fs).stored(onset.path@), r)
                &&& open_calls(onset, playing(self), old(fs).calls(), final(fs).calls(), r)
                &&& playing(self) is Some && playing(self)->Some_0.path@ == onset.path@ ==> *final(fs) == *old(fs)
            },
    {
        match &to.inner {
            None => match self {
                OnsetEvent::Stop => Ok(OnsetEvent::Stop),
                OnsetEvent::Hold { tick, onset, index } => {
                    let t = if to.mods.reverse { tick - 1 } else { tick + 1 };
                    if onset.inner.onset_start.is_none()
                        && !(0 <= t && t < (onset.inner.beat_count * ticks_per_beat) as i32) {
                        return Ok(OnsetEvent::Stop);
                    }
                    Ok(OnsetEvent::Hold { tick: t, onset: Modded { inner: onset.inner, mods: to.mods }, index })
                },
                OnsetEvent::Loop { tick, onset, index, len } => {
                    let mut t = if to.mods.reverse { tick - 1 } else { tick + 1 };
                    if !(0 <= t && t < len as i32) {
                        if onset.inner.onset_start.is_none() {
                            return Ok(OnsetEvent::Stop);
                        }
                        t = rem_euclid_i32(t, len as i32);
                    }
                    Ok(OnsetEvent::Loop { tick: t, onset: Modded { inner: onset.inner, mods: to.mods }, index, len })
                },
            },
            Some(OnsetEvent::Stop) => {
                match self {
                    OnsetEvent::Stop => {},
                    OnsetEvent::Hold { onset, .. } | OnsetEvent::Loop { onset, .. } => {
                        let r = fs.close(&onset.inner.file);
                        match r {
                            Ok(()) => {},
                            Err(e) => return Err(Error::Other(e)),
                        }
                    },
                }
                Ok(OnsetEvent::Stop)
            },
            Some(OnsetEvent::Hold { tick, onset: target, index }) => {
                let o = match self {
                    OnsetEvent::Stop => None,
                    OnsetEvent::Hold { onset, .. } | OnsetEvent::Loop { onset, .. } => Some(onset.inner),
                };
                let opened = target.clone().open(o, fs);
                match opened {
                    Ok(inner) => Ok(OnsetEvent::Hold { tick: *tick, onset: Modded { inner, mods: to.mods }, index: *index }),
                    Err(e) => Err(e),
                }
            },
            Some(OnsetEvent::Loop { tick, onset: target, index, len }) => {
                let t = rem_euclid_i32(*tick, *len as i32);
                let o = match self {
                    OnsetEvent::Stop => None,
                    OnsetEvent::Hold { onset, .. } | OnsetEvent::Loop { onset, .. } => Some(onset.inner),
                };
                let opened = target.clone().open(o, fs);
                match opened {
                    Ok(inner) => Ok(OnsetEvent::Loop { tick: t, onset: Modded { inner, mods: to.mods }, index: *index, len: *len }),
                    Err(e) => Err(e),
                }
            },
        }
    }
}


/// The onsets of a kit, by key.
pub struct Kit<const KIT_LEN: usize> {
    pub onsets: Vec<Option<Onset>>,
}

/// A recorded phrase: `len` ticks of events read cyclically from `start`.
pub struct Phrase<const PHRASE_LEN: usize> {
    pub events: Vec<Event>,
    pub start: u32,
    pub len: u32,
}

impl<const PHRASE_LEN: usize> Phrase<PHRASE_LEN> {
    pub open spec fn wf(&self) -> bool {
        &&& self.events.len() == PHRASE_LEN
        &&& self.start < PHRASE_LEN
        &&& 0 < self.len <= i32::MAX
        &&& forall|i: int| 0 <= i < self.events.len() ==> #[trigger] carried_ok(self.events[i])
    }
}

/// running phrase reading from start..start+len ticks (wrapping) of indexed Phrase
#[derive(Copy, Clone, PartialEq, Eq, Structural, Debug)]
pub struct PhraseReader {
    pub index: u8,
    pub tick: u32,
}

impl PhraseReader {
    /// A reader at the first tick of phrase `index`.
    pub fn start(index: u8) -> (r: Self)
        ensures
            r.index == index,
            r.tick == 0,
    {
        Self { index, tick: 0 }
    }
}

#[derive(Copy, Clone, PartialEq, Eq, Structural, Debug)]
pub enum WriterState {
    Idle,
    Recording { start: u32, len: u32 },
}

/// The contents of a phrase as values.
pub struct PhraseModel {
    pub events: Seq<Event>,
    pub start: u32,
    pub len: u32,
}

/// The contents of a phrase writer as values.
pub struct WriterModel {
    pub store_mask: Seq<u8>,
    pub store_index: usize,
    pub queue: Seq<Event>,
    pub write_at: usize,
    pub state: WriterState,
}

impl<const PHRASE_LEN: usize> View for Phrase<PHRASE_LEN> {
    type V = PhraseModel;

    open spec fn view(&self) -> PhraseModel {
        PhraseModel { events: self.events@, start: self.start, len: self.len }
    }
}

impl<const PHRASE_COUNT: usize, const PHRASE_LEN: usize> View for PhraseWriter<PHRASE_COUNT, PHRASE_LEN> {
    type V = WriterModel;

    open spec fn view(&self) -> WriterModel {
        WriterModel {
            store_mask: self.store_mask@,
            store_index: self.store_index,
            queue: self.queue@,
            write_at: self.write_at,
            state: self.state,
        }
    }
}

/// The writer after `event` was written.
pub open spec fn writer_push(w: WriterModel, event: Event, phrase_len: nat) -> WriterModel {
    WriterModel {
        queue: if w.queue.len() == phrase_len { w.queue.update(w.write_at as int, event) } else { w.queue.push(event) },
        write_at: ((w.write_at + 1) % (phrase_len as int)) as usize,
        state: match w.state {
            WriterState::Idle => WriterState::Idle,
            WriterState::Recording { start, len } => WriterState::Recording { start, len: (len + 1) as u32 },
        },
        ..w
    }
}

/// The slot of the latest event, if any was written.
pub open spec fn recent_index(w: WriterModel, phrase_len: nat) -> Option<int> {
    if w.write_at == 0 {
        if w.queue.len() == phrase_len {
            Some(phrase_len - 1)
        } else {
            None
        }
    } else {
        Some(w.write_at - 1)
    }
}

/// The writer after a recording was asked to start.
pub open spec fn writer_start(w: WriterModel, phrase_len: nat) -> WriterModel {
    match w.state {
        WriterState::Idle => WriterModel {
            state: WriterState::Recording {
                start: (match recent_index(w, phrase_len) {
                    Some(i) => i,
                    None => phrase_len as int,
                } % (phrase_len as int)) as u32,
                len: 0,
            },
            ..w
        },
        _ => w,
    }
}

/// The phrase a recording of more than `min_len` ticks stores: the ring's slots in slot order.
pub open spec fn writer_phrase(w: WriterModel, min_len: u32, phrase_len: nat) -> Option<PhraseModel> {
    match w.state {
        WriterState::Recording { start, len } => if len > min_len {
            Some(PhraseModel {
                events: Seq::new(phrase_len, |i: int| if i < w.queue.len() { w.queue[i] } else { empty_event() }),
                start,
                len: if len < phrase_len { len } else { phrase_len as u32 },
            })
        } else {
            None
        },
        WriterState::Idle => None,
    }
}

/// The writer after a recording was asked to stop.
pub open spec fn writer_stop(w: WriterModel) -> WriterModel {
    WriterModel { state: WriterState::Idle, ..w }
}

/// The writer after the next phrase to store to was taken.
pub open spec fn writer_advance(w: WriterModel) -> WriterModel {
    if w.store_mask.len() == 0 {
        w
    } else {
        WriterModel { store_index: ((w.store_index + 1) % (w.store_mask.len() as int)) as usize, ..w }
    }
}

/// The next phrase to store to.
pub open spec fn writer_target(w: WriterModel) -> Option<u8> {
    if w.store_mask.len() == 0 {
        None
    } else {
        Some(w.store_mask[w.store_index as int])
    }
}

/// Records the events a layer outputs, and stores them as phrases.
///
/// `queue` is a ring of the last `PHRASE_LEN` events: it grows until full, after which
/// `write_at` walks over it, overwriting the oldest.
pub struct PhraseWriter<const PHRASE_COUNT: usize, const PHRASE_LEN: usize> {
    /// indices of `StateHandler`'s Phrases which is overwritten by `Self::store`
    /// defaults to all Phrases
    pub store_mask: Vec<u8>,
    pub store_index: usize,
    pub queue: Vec<Event>,
    pub write_at: usize,
    pub state: WriterState,
}

impl<const PHRASE_COUNT: usize, const PHRASE_LEN: usize> PhraseWriter<PHRASE_COUNT, PHRASE_LEN> {
    pub open spec fn wf(&self) -> bool {
        &&& 0 < PHRASE_LEN <= i32::MAX
        &&& self.store_mask.len() <= PHRASE_COUNT
        &&& self.store_mask.len() > 0 ==> self.store_index < self.store_mask.len()
        &&& self.queue.len() <= PHRASE_LEN
        &&& self.write_at < PHRASE_LEN
        &&& self.queue.len() < PHRASE_LEN ==> self.write_at == self.queue.len()
        &&& forall|i: int| 0 <= i < self.queue.len() ==> #[trigger] carried_ok(self.queue[i])
        &&& self.state matches WriterState::Recording { start, .. } ==> start < PHRASE_LEN
    }

    /// The slot of the latest event, if any was written.
    pub open spec fn spec_recent_index(&self) -> Option<int> {
        if self.write_at == 0 {
            if self.queue.len() == PHRASE_LEN {
                Some(PHRASE_LEN - 1)
            } else {
                None
            }
        } else {
            Some(self.write_at - 1)
        }
    }

    /// A writer that stores to phrases `0..PHRASE_COUNT` in turn.
    pub fn new() -> (w: Self)
        requires
            0 < PHRASE_LEN <= i32::MAX,
        ensures
            w.wf(),
            w.store_mask@.len() == PHRASE_COUNT % 256,
            forall|i: int| 0 <= i < w.store_mask@.len() ==> w.store_mask@[i] == i,
            w.store_index == 0,
            w.queue@.len() == 0,
            w.write_at == 0,
            w.state is Idle,
    {
        let count: u8 = (PHRASE_COUNT % 256) as u8;
        let mut store_mask: Vec<u8> = Vec::new();
        let mut i: u8 = 0;
        while i < count
            invariant
                i <= count,
                count == PHRASE_COUNT % 256,
                store_mask@.len() == i,
                forall|j: int| 0 <= j < i ==> store_mask@[j] == j,
            decreases count - i,
        {
            store_mask.push(i);
            i = i + 1;
        }
        Self { store_mask, store_index: 0, queue: Vec::new(), write_at: 0, state: WriterState::Idle }
    }

    /// Writes the latest event, counting it when recording.
    pub fn push(&mut self, event: Event)
        requires
            old(self).wf(),
            carried_ok(event),
            old(self).state matches WriterState::Recording { len, .. } ==> len < u32::MAX,
        ensures
            final(self).wf(),
            final(self)@ == writer_push(old(self)@, event, PHRASE_LEN as nat),
            final(self).queue@ == if old(self).queue.len() == PHRASE_LEN {
                old(self).queue@.update(old(self).write_at as int, event)
            } else {
                old(self).queue@.push(event)
            },
            final(self).write_at == (old(self).write_at + 1) % (PHRASE_LEN as int),
            final(self).store_mask == old(self).store_mask,
            final(self).store_index == old(self).store_index,
            final(self).state == match old(self).state {
                WriterState::Idle => WriterState::Idle,
                WriterState::Recording { start, len } => WriterState::Recording { start, len: (len + 1) as u32 },
            },
    {
        if self.queue.len() == PHRASE_LEN {
            self.queue.set(self.write_at, event);
        } else {
            self.queue.push(event);
        }
        self.write_at = self.write_at + 1;
        if self.write_at == PHRASE_LEN {
            self.write_at = 0;
        }
        if let WriterState::Recording { start, len } = self.state {
            self.state = WriterState::Recording { start, len: len + 1 };
        }
        proof {
            if old(self).write_at + 1 < PHRASE_LEN {
                lemma_small_mod((old(self).write_at + 1) as nat, PHRASE_LEN as nat);
            } else {
                lemma_mod_self_0(PHRASE_LEN as int);
            }
        }
    }

    /// should be called before input tick
    pub fn try_start(&mut self)
        requires
            old(self).wf(),
        ensures
            final(self).wf(),
            final(self)@ == writer_start(old(self)@, PHRASE_LEN as nat),
            final(self).queue == old(self).queue,
            final(self).write_at == old(self).write_at,
            final(self).store_mask == old(self).store_mask,
            final(self).store_index == old(self).store_index,
            final(self).state == match old(self).state {
                WriterState::Idle => WriterState::Recording {
                    start: (match old(self).spec_recent_index() {
                        Some(i) => i,
                        None => PHRASE_LEN as int,
                    } % (PHRASE_LEN as int)) as u32,
                    len: 0,
                },
                s => s,
            },
    {
        if let WriterState::Idle = self.state {
            let recent = if self.write_at == 0 {
                if self.queue.len() == PHRASE_LEN {
                    PHRASE_LEN - 1
                } else {
                    PHRASE_LEN
                }
            } else {
                self.write_at - 1
            };
            self.state = WriterState::Recording { start: (recent % PHRASE_LEN) as u32, len: 0 };
        }
    }

    /// should be called before input tick
    ///
    /// Ends a recording. One longer than `min_len` ticks becomes a phrase of the ring's
    /// slots, in slot order, with empty events for slots not yet written.
    pub fn try_store(&mut self, min_len: u32) -> (res: Option<Phrase<PHRASE_LEN>>)
        requires
            old(self).wf(),
        ensures
            final(self).wf(),
            final(self)@ == writer_stop(old(self)@),
            res matches Some(p) ==> p.wf() && writer_phrase(old(self)@, min_len, PHRASE_LEN as nat) == Some(p@),
            res is None <==> writer_phrase(old(self)@, min_len, PHRASE_LEN as nat) is None,
            final(self).queue == old(self).queue,
            final(self).write_at == old(self).write_at,
            final(self).store_mask == old(self).store_mask,
            final(self).store_index == old(self).store_index,
            final(self).state is Idle,
            old(self).state matches WriterState::Recording { start, len } ==> (len > min_len ==> (res is Some && {
                    let p = res->Some_0;
                    &&& p.wf()
                    &&& p.start == start
                    &&& p.len == if len < PHRASE_LEN { len as int } else { PHRASE_LEN as int }
                    &&& forall|i: int| 0 <= i < PHRASE_LEN ==> #[trigger] p.events@[i] == if i < old(self).queue.len() {
                        old(self).queue@[i]
                    } else {
                        empty_event()
                    }
                })),
            !(old(self).state matches WriterState::Recording { len, .. } && len > min_len) ==> res is None,
    {
        if let WriterState::Recording { start, len } = self.state {
            if len > min_len {
                let len = if len < PHRASE_LEN as u32 { len } else { PHRASE_LEN as u32 };
                let mut events: Vec<Event> = Vec::new();
                let mut i: usize = 0;
                while i < PHRASE_LEN
                    invariant
                        self.wf(),
                        i <= PHRASE_LEN,
                        events@.len() == i,
                        forall|j: int| 0 <= j < i ==> #[trigger] events@[j] == if j < self.queue.len() {
                            self.queue@[j]
                        } else {
                            empty_event()
                        },
                    decreases PHRASE_LEN - i,
                {
                    if i < self.queue.len() {
                        events.push(clone_event(&self.queue[i]));
                    } else {
                        events.push(default_event());
                    }
                    i = i + 1;
                }
                self.state = WriterState::Idle;
                let phrase = Phrase { events, start, len };
                proof {
                    let spec_events = Seq::new(PHRASE_LEN as nat, |i: int| if i < old(self).queue@.len() { old(self).queue@[i] } else { empty_event() });
                    assert(phrase.events@ =~= spec_events);
                }
                return Some(phrase);
            }
        }
        self.state = WriterState::Idle;
        None
    }

    /// The next phrase to store to, going round the mask.
    pub fn try_advance(&mut self) -> (res: Option<u8>)
        requires
            old(self).wf(),
        ensures
            final(self).wf(),
            final(self)@ == writer_advance(old(self)@),
            res == writer_target(old(self)@),
            final(self).queue == old(self).queue,
            final(self).write_at == old(self).write_at,
            final(self).store_mask == old(self).store_mask,
            final(self).state == old(self).state,
            if old(self).store_mask.len() == 0 {
                res is None && final(self).store_index == old(self).store_index
            } else {
                &&& res == Some(old(self).store_mask@[old(self).store_index as int])
                &&& final(self).store_index == (old(self).store_index + 1) % (old(self).store_mask.len() as int)
            },
    {
        if self.store_mask.len() == 0 {
            return None;
        }
        let ret = Some(self.store_mask[self.store_index]);
        self.store_index = (self.store_index + 1) % self.store_mask.len();
        ret
    }
}

} // verus!


