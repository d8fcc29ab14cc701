use vstd::prelude::*;
use crate::state::{OnsetInput, PhraseInput, Snap};

verus! {

/// Digits typed on the pad, read as a decimal number.
pub struct NumBuffer {
    pub num: u32,
    /// The number was read; the next digit starts a new one.
    pub used: bool,
}

impl NumBuffer {
    /// No digits typed.
    pub fn new() -> (b: Self)
        ensures
            b.num == 0,
            !b.used,
    {
        NumBuffer { num: 0, used: false }
    }

    /// Reads the number; the next digit starts a new one.
    pub fn get_num(&mut self) -> (n: u32)
        ensures
            n == old(self).num,
            final(self).num == old(self).num,
            final(self).used,
    {
        self.used = true;
        self.num
    }

    /// Appends a digit, or starts a new number after one was read.
    pub fn push_num(&mut self, digit: u32)
        requires
            !old(self).used ==> old(self).num * 10 + digit <= u32::MAX,
        ensures
            final(self).num == if old(self).used { digit as int } else { old(self).num * 10 + digit },
            !final(self).used,
    {
        if self.used {
            self.num = digit;
            self.used = false;
        } else {
            self.num = self.num * 10 + digit;
        }
    }

    /// Clears the number.
    pub fn pop_num(&mut self)
        ensures
            final(self).num == 0,
            !final(self).used,
    {
        self.num = 0;
        self.used = false;
    }
}

/// A list with a selected entry.
pub struct Scroll<T> {
    pub list: Vec<T>,
    pub index: usize,
}

impl<T> Scroll<T> {
    /// An empty list.
    pub fn new() -> (s: Self)
        ensures
            s.list@.len() == 0,
            s.index == 0,
    {
        Scroll { list: Vec::new(), index: 0 }
    }

    /// Selects the entry before, stopping at the first.
    pub fn dec(&mut self)
        ensures
            final(self).list == old(self).list,
            final(self).index == if old(self).index == 0 { 0 } else { old(self).index - 1 },
    {
        self.index = if self.index == 0 { 0 } else { self.index - 1 };
    }

    /// Selects the entry after, stopping at the last.
    pub fn inc(&mut self)
        requires
            old(self).index < usize::MAX,
        ensures
            final(self).list == old(self).list,
            final(self).index == {
                let last = if old(self).list@.len() == 0 { 0 } else { old(self).list@.len() - 1 };
                if old(self).index + 1 <= last { old(self).index + 1 } else { last }
            },
    {
        let last = if self.list.len() == 0 { 0 } else { self.list.len() - 1 };
        self.index = if self.index + 1 <= last { self.index + 1 } else { last };
    }
}

/// The bit of key `v` in a loop length, counted from the key after `index` round the
/// `count` keys.
pub open spec fn loop_bit(v: u8, index: u8, count: u8) -> int {
    if v >= index + 1 {
        v - (index + 1)
    } else {
        v + count - 1 - index
    }
}

/// The loop length the held keys after the first spell: one bit per key.
pub open spec fn loop_bits(downs: Seq<u8>, index: u8, count: u8) -> u32
    decreases downs.len(),
{
    if downs.len() <= 1 {
        0
    } else {
        loop_bits(downs.drop_last(), index, count) | (1u32 << (loop_bit(downs.last(), index, count) as u32))
    }
}

/// Every bit of the held keys after the first is computable.
pub open spec fn loop_bits_ok(downs: Seq<u8>, index: u8, count: u8) -> bool {
    &&& index < 255
    &&& forall|i: int| 1 <= i < downs.len() ==> {
        let v = #[trigger] downs[i];
        v < index + 1 ==> (v + count <= 255 && v + count - 1 >= index)
    }
    &&& forall|i: int| 1 <= i < downs.len() ==> 0 <= #[trigger] loop_bit(downs[i], index, count) < 32
}

/// `true` when the loop length of the held keys `downs` can be computed: every key after
/// the first has a bit below 32, counted round `count` keys from the first without leaving
/// the byte range.
pub fn loop_bits_fit(downs: &[u8], count: u8) -> (r: bool)
    ensures
        downs@.len() > 0 ==> r == loop_bits_ok(downs@, downs@[0], count),
        downs@.len() == 0 ==> r,
{
    if downs.len() == 0 {
        return true;
    }
    let index = downs[0];
    if index == 255u8 {
        return false;
    }
    let mut i: usize = 1;
    while i < downs.len()
        invariant
            1 <= i <= downs@.len(),
            index == downs@[0],
            index < 255,
            forall|k: int| 1 <= k < i ==> {
                let v = #[trigger] downs@[k];
                v < index + 1 ==> (v + count <= 255 && v + count - 1 >= index)
            },
            forall|k: int| 1 <= k < i ==> 0 <= #[trigger] loop_bit(downs@[k], index, count) < 32,
        decreases downs@.len() - i,
    {
        let v = downs[i];
        if v >= index + 1 {
            if v - (index + 1) >= 32 {
                assert(loop_bit(downs@[i as int], index, count) >= 32);
                return false;
            }
        } else {
            if v as u16 + count as u16 > 255 || (v as u16 + count as u16) < index as u16 + 1 {
                return false;
            }
            if v + count - 1 - index >= 32 {
                assert(loop_bit(downs@[i as int], index, count) >= 32);
                return false;
            }
        }
        i = i + 1;
    }
    true
}

/// The loop length of the keys held down, with `index` the first.
pub fn binary_offset(downs: &[u8], index: u8, count: u8) -> (r: u32)
    requires
        loop_bits_ok(downs@, index, count),
    ensures
        r == loop_bits(downs@, index, count),
{
    let mut acc: u32 = 0;
    let mut i: usize = 1;
    proof {
        if downs@.len() >= 1 {
            assert(downs@.subrange(0, 1).len() <= 1);
        }
    }
    while i < downs.len()
        invariant
            1 <= i,
            i <= downs@.len() || downs@.len() == 0,
            loop_bits_ok(downs@, index, count),
            acc == loop_bits(downs@.subrange(0, if i <= downs@.len() { i as int } else { 0 }), index, count),
        decreases downs@.len() - i,
    {
        let v = downs[i];
        let bit: u8 = if v >= index + 1 { v - (index + 1) } else { v + count - 1 - index };
        assert(bit == loop_bit(downs@[i as int], index, count));
        assert(0 <= loop_bit(downs@[i as int], index, count) < 32);
        acc = acc | (1u32 << bit);
        proof {
            let s = downs@.subrange(0, i + 1);
            assert(s.drop_last() =~= downs@.subrange(0, i as int));
            assert(s.last() == v);
        }
        i = i + 1;
    }
    proof {
        if downs@.len() > 0 {
            assert(downs@.subrange(0, downs@.len() as int) =~= downs@);
        } else {
            assert(downs@.subrange(0, 0) =~= downs@);
        }
    }
    acc
}

/// The step of a ramp that keys `bits` select: the three bits above the lowest give the
/// size, the lowest the sign.
pub open spec fn level_step(bits: u8) -> int {
    if bits % 2 == 1 {
        -(((bits / 2) % 8) as int)
    } else {
        ((bits / 2) % 8) as int
    }
}

/// The ramp step of `bits`, from -7 to 7.
pub fn level(bits: u8) -> (r: i8)
    ensures
        r == level_step(bits),
{
    let size: i8 = ((bits >> 1u8) as i8) & 7i8;
    proof {
        assert(((bits >> 1u8) as i8) & 7i8 == ((bits / 2) % 8) as i8) by (bit_vector);
        assert(bits & 1u8 == bits % 2) by (bit_vector);
    }
    if bits & 1u8 == 1u8 {
        -size
    } else {
        size
    }
}

/// `bits` with key `index` pressed or released.
pub fn press(bits: u8, index: u8, down: bool) -> (r: u8)
    requires
        index < 8,
    ensures
        down ==> r == bits | (1u8 << index),
        !down ==> r == bits & !(1u8 << index),
{
    if down {
        bits | (1u8 << index)
    } else {
        bits & !(1u8 << index)
    }
}

/// What a pad key does.
#[derive(Copy, Clone, PartialEq, Eq, Structural, Debug)]
pub enum KeyAction {
    Nothing,
    NumLock(bool),
    PushNum(u32),
    PopNum,
    /// Sets the steps per measure to the typed number.
    StepsPerMeas,
    /// Sets the ticks per step to the typed number.
    TicksPerStep,
    /// Sets the ticks per input to the typed number.
    TicksPerInput,
    /// Sets the ticks per beat to the typed number.
    TicksPerBeat,
    PhraseSnapStart(Snap),
    PhraseSnapLen(Snap),
    /// Moves the phrase start by the typed number, backwards when `back`.
    ModPhraseStart { back: bool },
    /// Changes the phrase length by the typed number, shorter when `back`.
    ModPhraseLen { back: bool },
    Record(bool),
    Sustain(bool),
    ToggleLegato,
    Layer(u8),
    RampSnap(Snap),
    Phrase { index: u8, down: bool },
    Onset { index: u8, down: bool },
    SetPitch { index: u8, down: bool },
    RampPitch { index: u8, down: bool },
    SetGain { index: u8, down: bool },
    RampGain { index: u8, down: bool },
    Kit { bank: u8, index: u8 },
}

/// What the pad key at `63 - key` does; with num lock on, the number keys type digits.
pub open spec fn spec_key_action(num_lock: bool, key: u8, down: bool) -> KeyAction {
    let k = 63 - key;
    if num_lock {
        if !down {
            KeyAction::Nothing
        } else if k == 4 {
            KeyAction::NumLock(true)
        } else if k == 5 {
            KeyAction::PushNum(0)
        } else if k == 6 {
            KeyAction::PopNum
        } else if k == 7 {
            KeyAction::StepsPerMeas
        } else if 12 <= k <= 14 {
            KeyAction::PushNum((k - 11) as u32)
        } else if k == 15 {
            KeyAction::TicksPerStep
        } else if 20 <= k <= 22 {
            KeyAction::PushNum((k - 16) as u32)
        } else if k == 23 {
            KeyAction::TicksPerInput
        } else if 28 <= k <= 30 {
            KeyAction::PushNum((k - 21) as u32)
        } else if k == 31 {
            KeyAction::TicksPerBeat
        } else if k == 36 {
            KeyAction::PhraseSnapStart(Snap::Micro)
        } else if k == 37 {
            KeyAction::PhraseSnapStart(Snap::Macro)
        } else if k == 38 {
            KeyAction::PhraseSnapLen(Snap::Micro)
        } else if k == 39 {
            KeyAction::PhraseSnapLen(Snap::Macro)
        } else if k == 44 {
            KeyAction::ModPhraseStart { back: true }
        } else if k == 45 {
            KeyAction::ModPhraseStart { back: false }
        } else if k == 46 {
            KeyAction::ModPhraseLen { back: true }
        } else if k == 47 {
            KeyAction::ModPhraseLen { back: false }
        } else {
            KeyAction::Nothing
        }
    } else if k == 4 {
        KeyAction::NumLock(down)
    } else if k == 10 {
        KeyAction::Record(down)
    } else if k == 11 {
        KeyAction::Sustain(down)
    } else if k == 12 {
        if down { KeyAction::ToggleLegato } else { KeyAction::Nothing }
    } else if k == 13 {
        KeyAction::Layer(if down { 1 } else { 0 })
    } else if k == 14 {
        if down { KeyAction::RampSnap(Snap::Micro) } else { KeyAction::Nothing }
    } else if k == 15 {
        if down { KeyAction::RampSnap(Snap::Macro) } else { KeyAction::Nothing }
    } else if 24 <= k < 32 {
        KeyAction::Phrase { index: (k - 24) as u8, down }
    } else if 32 <= k < 40 {
        KeyAction::Onset { index: (k - 32) as u8, down }
    } else if 40 <= k < 44 {
        KeyAction::SetPitch { index: (k - 40) as u8, down }
    } else if 44 <= k < 48 {
        KeyAction::RampPitch { index: (3 - (k - 44)) as u8, down }
    } else if 48 <= k < 52 {
        KeyAction::SetGain { index: (k - 48) as u8, down }
    } else if 52 <= k < 56 {
        KeyAction::RampGain { index: (3 - (k - 52)) as u8, down }
    } else if 56 <= k < 60 {
        if down { KeyAction::Kit { bank: 0, index: (k - 56) as u8 } } else { KeyAction::Nothing }
    } else if 60 <= k < 64 {
        if down { KeyAction::Kit { bank: 1, index: (k - 60) as u8 } } else { KeyAction::Nothing }
    } else {
        KeyAction::Nothing
    }
}

/// What the pad's MIDI note `key` does when pressed (`down`) or released.
pub fn key_action(num_lock: bool, key: u8, down: bool) -> (r: KeyAction)
    requires
        key <= 63,
    ensures
        r == spec_key_action(num_lock, key, down),
{
    let k = 63 - key;
    if num_lock {
        if !down {
            KeyAction::Nothing
        } else if k == 4 {
            KeyAction::NumLock(true)
        } else if k == 5 {
            KeyAction::PushNum(0)
        } else if k == 6 {
            KeyAction::PopNum
        } else if k == 7 {
            KeyAction::StepsPerMeas
        } else if 12 <= k && k <= 14 {
            KeyAction::PushNum((k - 11) as u32)
        } else if k == 15 {
            KeyAction::TicksPerStep
        } else if 20 <= k && k <= 22 {
            KeyAction::PushNum((k - 16) as u32)
        } else if k == 23 {
            KeyAction::TicksPerInput
        } else if 28 <= k && k <= 30 {
            KeyAction::PushNum((k - 21) as u32)
        } else if k == 31 {
            KeyAction::TicksPerBeat
        } else if k == 36 {
            KeyAction::PhraseSnapStart(Snap::Micro)
        } else if k == 37 {
            KeyAction::PhraseSnapStart(Snap::Macro)
        } else if k == 38 {
            KeyAction::PhraseSnapLen(Snap::Micro)
        } else if k == 39 {
            KeyAction::PhraseSnapLen(Snap::Macro)
        } else if k == 44 {
            KeyAction::ModPhraseStart { back: true }
        } else if k == 45 {
            KeyAction::ModPhraseStart { back: false }
        } else if k == 46 {
            KeyAction::ModPhraseLen { back: true }
        } else if k == 47 {
            KeyAction::ModPhraseLen { back: false }
        } else {
            KeyAction::Nothing
        }
    } else if k == 4 {
        KeyAction::NumLock(down)
    } else if k == 10 {
        KeyAction::Record(down)
    } else if k == 11 {
        KeyAction::Sustain(down)
    } else if k == 12 {
        if down { KeyAction::ToggleLegato } else { KeyAction::Nothing }
    } else if k == 13 {
        KeyAction::Layer(if down { 1 } else { 0 })
    } else if k == 14 {
        if down { KeyAction::RampSnap(Snap::Micro) } else { KeyAction::Nothing }
    } else if k == 15 {
        if down { KeyAction::RampSnap(Snap::Macro) } else { KeyAction::Nothing }
    } else if 24 <= k && k < 32 {
        KeyAction::Phrase { index: k - 24, down }
    } else if 32 <= k && k < 40 {
        KeyAction::Onset { index: k - 32, down }
    } else if 40 <= k && k < 44 {
        KeyAction::SetPitch { index: k - 40, down }
    } else if 44 <= k && k < 48 {
        KeyAction::RampPitch { index: 3 - (k - 44), down }
    } else if 48 <= k && k < 52 {
        KeyAction::SetGain { index: k - 48, down }
    } else if 52 <= k && k < 56 {
        KeyAction::RampGain { index: 3 - (k - 52), down }
    } else if 56 <= k && k < 60 {
        if down { KeyAction::Kit { bank: 0, index: k - 56 } } else { KeyAction::Nothing }
    } else if 60 <= k && k < 64 {
        if down { KeyAction::Kit { bank: 1, index: k - 60 } } else { KeyAction::Nothing }
    } else {
        KeyAction::Nothing
    }
}

/// Keys other than `index`.
pub open spec fn other_than(index: u8) -> spec_fn(u8) -> bool {
    |v: u8| v != index
}

/// The held onset keys after `index` was pressed (`down`) or released: a press adds
/// it, a release removes every occurrence of it.
pub open spec fn spec_downs_after(downs: Seq<u8>, index: u8, down: bool) -> Seq<u8> {
    if down {
        downs.push(index)
    } else {
        downs.filter(other_than(index))
    }
}

/// The onset input that held keys `downs` make: a loop from the first key when several
/// are held, a hold when one is, a stop when none are.
pub open spec fn spec_downs_input(downs: Seq<u8>, count: u8) -> OnsetInput {
    if downs.len() == 0 {
        OnsetInput::Stop
    } else if downs.len() > 1 {
        OnsetInput::Loop { index: downs[0], len: loop_bits(downs, downs[0], count) }
    } else {
        OnsetInput::Hold { index: downs[0] }
    }
}

/// Updates the held onset keys for a press or release of `index`, and returns the input
/// to push: every press, and every release unless legato holds the sound.
pub fn push_onset_key(downs: &mut Vec<u8>, index: u8, down: bool, legato: bool, count: u8) -> (r: Option<OnsetInput>)
    requires
        down ==> loop_bits_ok(old(downs)@.push(index), spec_downs_after(old(downs)@, index, down)[0], count),
        !down ==> (spec_downs_after(old(downs)@, index, down).len() > 0 ==> loop_bits_ok(
            spec_downs_after(old(downs)@, index, down),
            spec_downs_after(old(downs)@, index, down)[0],
            count,
        )),
    ensures
        final(downs)@ == spec_downs_after(old(downs)@, index, down),
        r == if down || !legato { Some(spec_downs_input(final(downs)@, count)) } else { None },
{
    if down {
        downs.push(index);
    } else {
        let ghost old_downs = downs@;
        let mut kept: Vec<u8> = Vec::new();
        let mut i: usize = 0;
        while i < downs.len()
            invariant
                downs@ == old_downs,
                i <= downs@.len(),
                kept@ == downs@.subrange(0, i as int).filter(other_than(index)),
            decreases downs@.len() - i,
        {
            let v = downs[i];
            let ghost before = kept@;
            if v != index {
                kept.push(v);
            }
            proof {
                let s = downs@.subrange(0, i + 1);
                assert(s.drop_last() =~= downs@.subrange(0, i as int));
                assert(s.last() == v);
                assert(other_than(index)(v) == (v != index));
                reveal_with_fuel(Seq::<_>::filter, 1);
                assert(s.filter(other_than(index)) == if v != index { before.push(v) } else { before });
            }
            i = i + 1;
        }
        assert(downs@.subrange(0, downs@.len() as int) =~= downs@);
        *downs = kept;
    }
    if down || !legato {
        if downs.len() == 0 {
            Some(OnsetInput::Stop)
        } else {
            let first = downs[0];
            if downs.len() > 1 {
                let len = binary_offset(downs.as_slice(), first, count);
                Some(OnsetInput::Loop { index: first, len })
            } else {
                Some(OnsetInput::Hold { index: first })
            }
        }
    } else {
        None
    }
}

/// The phrase input a phrase key makes: with a record mask open, a press moves the key
/// to the end of the mask and makes none; otherwise every press holds the phrase and a
/// release stops it unless sustained.
pub fn push_phrase_key(mask: &mut Option<Vec<u8>>, index: u8, down: bool, sustain: bool) -> (r: Option<PhraseInput>)
    ensures
        *old(mask) is Some ==> {
            &&& r is None
            &&& *final(mask) is Some
            &&& (*final(mask))->Some_0@ == if down {
                (*old(mask))->Some_0@.filter(other_than(index)).push(index)
            } else {
                (*old(mask))->Some_0@
            }
        },
        *old(mask) is None ==> {
            &&& *final(mask) is None
            &&& r == if down { Some(PhraseInput::Hold { index }) } else if !sustain { Some(PhraseInput::Stop) } else { None }
        },
{
    match mask {
        Some(m) => {
            if down {
                let ghost old_m = m@;
                let mut kept: Vec<u8> = Vec::new();
                let mut i: usize = 0;
                while i < m.len()
                    invariant
                        m@ == old_m,
                        i <= m@.len(),
                        kept@ == m@.subrange(0, i as int).filter(other_than(index)),
                    decreases m@.len() - i,
                {
                    let v = m[i];
                    let ghost before = kept@;
                    if v != index {
                        kept.push(v);
                    }
                    proof {
                        let s = m@.subrange(0, i + 1);
                        assert(s.drop_last() =~= m@.subrange(0, i as int));
                        assert(s.last() == v);
                        assert(other_than(index)(v) == (v != index));
                        reveal_with_fuel(Seq::<_>::filter, 1);
                        assert(s.filter(other_than(index)) == if v != index { before.push(v) } else { before });
                    }
                    i = i + 1;
                }
                assert(m@.subrange(0, m@.len() as int) =~= m@);
                kept.push(index);
                *m = kept;
            }
            None
        },
        None => {
            if down {
                Some(PhraseInput::Hold { index })
            } else if !sustain {
                Some(PhraseInput::Stop)
            } else {
                None
            }
        },
    }
}

/// The step that tick `tick` falls in.
pub fn throbber_step(tick: i32, ticks_per_step: u32) -> (r: i32)
    requires
        0 < ticks_per_step <= i32::MAX,
    ensures
        r == crate::arith::div_trunc(tick as int, ticks_per_step as int),
{
    crate::arith::div_trunc_i32(tick, ticks_per_step as i32)
}

/// `true` in the first third of each beat.
pub fn throbber_high(tick: i32, ticks_per_beat: u32) -> (r: bool)
    requires
        0 < ticks_per_beat <= i32::MAX,
    ensures
        r == ((tick as int) % (ticks_per_beat as int) < crate::arith::div_trunc(ticks_per_beat as int, 3)),
{
    crate::arith::rem_euclid_i32(tick, ticks_per_beat as i32) < crate::arith::div_trunc_i32(ticks_per_beat as i32, 3)
}

} // verus!
