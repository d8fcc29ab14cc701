use vstd::prelude::*;
use vstd::arithmetic::div_mod::{lemma_fundamental_div_mod, lemma_fundamental_div_mod_converse, lemma_mod_bound, lemma_small_mod};
use vstd::arithmetic::mul::lemma_mul_is_commutative;
use crate::arith::div_trunc;
use crate::dialog::{spec_screen_key, DialogTab, KeyCode, KeyKind, KeyOutcome};
use crate::input::{loop_bit, loop_bits, loop_bits_ok, spec_key_action, KeyAction};
use crate::model::{Dims, HandlerModel, phrase_wf, writer_wf, lemma_nth_exists, nth_playing};
use crate::signal::cursor_after;
use crate::state::{
    recent_index, writer_advance, writer_phrase, writer_push, writer_start, writer_target, Event, Levels, Modded,
    Onset, OnsetEvent, OnsetInput, PhraseInput, PhraseModel, PhraseReader, RecordInput, Snap, WriterModel, WriterState, plays,
};

verus! {

/// The latest slot of the phrase writer's ring holds the event written last.
pub proof fn law_write_then_recent(w: WriterModel, d: Dims, e: Event)
    requires
        writer_wf(w, d),
    ensures
        recent_index(writer_push(w, e, d.phrase_len), d.phrase_len) == Some(w.write_at as int),
        writer_push(w, e, d.phrase_len).queue[w.write_at as int] == e,
{
    let n = d.phrase_len as int;
    if w.write_at + 1 < n {
        lemma_small_mod((w.write_at + 1) as nat, n as nat);
    } else {
        vstd::arithmetic::div_mod::lemma_mod_self_0(n);
    }
}

/// A recording stopped before any tick was written stores no phrase.
pub proof fn law_empty_recording_stores_nothing(w: WriterModel, min_len: u32, phrase_len: nat)
    requires
        w.state is Idle,
    ensures
        writer_phrase(writer_start(w, phrase_len), min_len, phrase_len) is None,
{
}

/// Each tick written while recording lengthens the recording by one.
pub proof fn law_recording_counts_ticks(w: WriterModel, e: Event, phrase_len: nat)
    requires
        w.state matches WriterState::Recording { len, .. } && len < u32::MAX,
    ensures
        writer_push(w, e, phrase_len).state == (match w.state {
            WriterState::Recording { start, len } => WriterState::Recording { start, len: (len + 1) as u32 },
            WriterState::Idle => WriterState::Idle,
        }),
{
}

/// The writer after `k` phrases to store to were taken.
pub open spec fn advanced(w: WriterModel, k: nat) -> WriterModel
    decreases k,
{
    if k == 0 {
        w
    } else {
        writer_advance(advanced(w, (k - 1) as nat))
    }
}

/// Taking phrases to store to goes round the mask: after `k` of them the writer points
/// `k` entries on, and the `k`-th taken is the mask's entry there.
pub proof fn law_store_targets_go_round(w: WriterModel, d: Dims, k: nat)
    requires
        writer_wf(w, d),
        0 < w.store_mask.len() <= usize::MAX,
    ensures
        advanced(w, k).store_index == (w.store_index + k) % (w.store_mask.len() as int),
        advanced(w, k).store_mask == w.store_mask,
        writer_target(advanced(w, k)) == Some(w.store_mask[(w.store_index + k) % (w.store_mask.len() as int)]),
    decreases k,
{
    let len = w.store_mask.len() as int;
    if k == 0 {
        lemma_small_mod(w.store_index as nat, len as nat);
    } else {
        law_store_targets_go_round(w, d, (k - 1) as nat);
        lemma_mod_bound(w.store_index + k - 1, len);
        lemma_mod_bound(w.store_index + k, len);
        vstd::arithmetic::div_mod::lemma_add_mod_noop_right(1, w.store_index + k - 1, len);
        assert(1 + (w.store_index + k - 1) == w.store_index + k);
    }
    lemma_mod_bound(w.store_index + k, w.store_mask.len() as int);
}

/// While passing is closed, nothing is passed.
pub proof fn law_closed_pass_changes_nothing(m: HandlerModel)
    requires
        !m.pass_input,
    ensures
        m.try_pass() == m,
{
}

/// A stop or hold pushed while a hold or loop is still being passed waits behind it,
/// unless a stop meets an unsliced onset, which drops it.
pub proof fn law_input_waits_behind_passing(m: HandlerModel, input: OnsetInput)
    requires
        m.wf(),
        !(input is Loop),
        m.buffer.onsets[m.layer as int] matches Some(OnsetInput::Hold { .. })
            || m.buffer.onsets[m.layer as int] matches Some(OnsetInput::Loop { .. }),
        input is Stop ==> m.active_onsets[m.layer as int] is Stop,
    ensures
        m.buffered_onset(input).buffer.onsets == m.buffer.onsets,
        m.buffered_onset(input).buffer.onsets_next[m.layer as int] == Some(input),
{
}

/// A phrase's new length is a whole number of units, at least one.
pub proof fn law_phrase_len_whole_units(m: HandlerModel, delta: i32)
    requires
        m.wf(),
        m.mod_len_ok(delta),
        m.layer_phrase() is Some,
    ensures
        ({
            let (index, p) = m.layer_phrase()->Some_0;
            let len = m.mod_phrase_len(delta).phrases[index as int]->Some_0.len;
            &&& len as int % m.len_scale() == 0
            &&& len >= m.len_scale()
        }),
{
    let (index, p) = m.layer_phrase()->Some_0;
    let sc = m.len_scale();
    assert(sc >= 1) by (nonlinear_arith)
        requires
            sc == m.ticks_per_step || sc == m.ticks_per_step * m.steps_per_meas,
            m.ticks_per_step >= 1,
            m.steps_per_meas >= 1;
    let q = div_trunc(p.len + delta * sc, sc);
    let qq = if q > 1 { q } else { 1 };
    assert(qq * sc >= sc) by (nonlinear_arith)
        requires
            qq >= 1,
            sc >= 1;
    lemma_mul_is_commutative(qq, sc);
    lemma_fundamental_div_mod_converse(qq * sc, sc, qq, 0);
}

/// A read of the PCM block goes on where the previous one left off: after reading `a`
/// bytes from `start`, a read of `b` more reads the bytes `a` on, and leaves the cursor
/// where one read of `a + b` bytes would.
pub proof fn law_reads_continue(start: int, a: nat, b: nat, len: int)
    requires
        len > 0,
        0 <= start <= len,
    ensures
        forall|i: int| 0 <= i < b ==> #[trigger] ((cursor_after(start, a as int, len) + i) % len) == (start + a + i) % len,
        cursor_after(cursor_after(start, a as int, len), b as int, len) == cursor_after(start, (a + b) as int, len),
{
    let c = cursor_after(start, a as int, len);
    if a > 0 {
        lemma_fundamental_div_mod(start + a - 1, len);
        lemma_mod_bound(start + a - 1, len);
        let q = (start + a - 1) / len;
        lemma_mul_is_commutative(len, q);
        assert forall|i: int| 0 <= i < b implies #[trigger] ((c + i) % len) == (start + a + i) % len by {
            assert(start + a + i == q * len + (c + i));
            vstd::arithmetic::div_mod::lemma_mod_multiples_vanish(q, c + i, len);
            assert((q * len + (c + i)) % len == (c + i) % len) by {
                lemma_mul_is_commutative(q, len);
            }
        }
        if b > 0 {
            assert(start + a + b - 1 == q * len + (c + b - 1));
            vstd::arithmetic::div_mod::lemma_mod_multiples_vanish(q, c + b - 1, len);
            lemma_mul_is_commutative(q, len);
        }
    }
}

/// A loop length has the bit of every held key after the first.
pub proof fn law_loop_bits_hold_every_key(downs: Seq<u8>, index: u8, count: u8, j: int)
    requires
        loop_bits_ok(downs, index, count),
        1 <= j < downs.len(),
    ensures
        loop_bits(downs, index, count) & (1u32 << (loop_bit(downs[j], index, count) as u32)) != 0,
    decreases downs.len(),
{
    let x = loop_bits(downs.drop_last(), index, count);
    let b = loop_bit(downs.last(), index, count) as u32;
    let bj = loop_bit(downs[j], index, count) as u32;
    assert(0 <= loop_bit(downs[downs.len() - 1], index, count) < 32);
    assert(0 <= loop_bit(downs[j], index, count) < 32);
    if j == downs.len() - 1 {
        assert((x | (1u32 << b)) & (1u32 << b) != 0) by (bit_vector)
            requires
                b < 32;
    } else {
        let s = downs.drop_last();
        assert(loop_bits_ok(s, index, count)) by {
            assert forall|i: int| 1 <= i < s.len() implies 0 <= #[trigger] loop_bit(s[i], index, count) < 32 by {
                assert(s[i] == downs[i]);
            }
            assert forall|i: int| 1 <= i < s.len() implies {
                let v = #[trigger] s[i];
                v < index + 1 ==> (v + count <= 255 && v + count - 1 >= index)
            } by {
                assert(s[i] == downs[i]);
            }
        }
        assert(s[j] == downs[j]);
        law_loop_bits_hold_every_key(s, index, count, j);
        assert(x & (1u32 << bj) != 0 ==> (x | (1u32 << b)) & (1u32 << bj) != 0) by (bit_vector)
            requires
                b < 32,
                bj < 32;
    }
}

/// A phrase reader that moved on stays inside its phrase.
pub proof fn law_readers_stay_in_phrase(m: HandlerModel, l: int)
    requires
        m.wf(),
        0 <= l < m.dims.layer_count,
        m.active_phrases[l] is Some,
    ensures
        ({
            let r = m.advance_readers().active_phrases[l]->Some_0;
            r.tick < m.phrases[r.index as int]->Some_0.len
        }),
{
    let r = m.active_phrases[l]->Some_0;
    let p = m.phrases[r.index as int]->Some_0;
    assert(phrase_wf(p, m.dims.phrase_len));
    lemma_mod_bound(r.tick + 1, p.len as int);
}

/// Escape closes the audio dialog when it is open, and quits the program only when it is
/// not; the backtick opens the dialog.
pub proof fn law_escape_closes_dialog_first(tab: DialogTab)
    ensures
        spec_screen_key(true, tab, KeyCode::Esc, KeyKind::Press) == (KeyOutcome { dialog: None, dialog_open: false, quit: false }),
        spec_screen_key(false, tab, KeyCode::Esc, KeyKind::Press) == (KeyOutcome { dialog: None, dialog_open: false, quit: true }),
        spec_screen_key(false, tab, KeyCode::Backtick, KeyKind::Press) == (KeyOutcome { dialog: None, dialog_open: true, quit: false }),
{
}

/// The writer after `es` were written in order.
pub open spec fn written(w: WriterModel, es: Seq<Event>, phrase_len: nat) -> WriterModel
    decreases es.len(),
{
    if es.len() == 0 {
        w
    } else {
        writer_push(written(w, es.drop_last(), phrase_len), es.last(), phrase_len)
    }
}

/// Two slots fewer than a ring's length apart are different slots.
proof fn lemma_slots_differ(a: int, k: int, n: int)
    requires
        0 <= a,
        0 < k < n,
    ensures
        (a + k) % n != a % n,
{
    lemma_fundamental_div_mod(a, n);
    lemma_mod_bound(a, n);
    let q = a / n;
    let r = a % n;
    lemma_mul_is_commutative(n, q);
    assert(a == q * n + r);
    if r + k < n {
        lemma_fundamental_div_mod_converse(a + k, n, q, r + k);
    } else {
        assert(a + k == (q + 1) * n + (r + k - n)) by (nonlinear_arith)
            requires
                a == q * n + r;
        lemma_fundamental_div_mod_converse(a + k, n, q + 1, r + k - n);
    }
}

/// Writing `es` into a ring of `n` slots puts them in the slots from `write_at` on.
proof fn lemma_written_slots(w: WriterModel, es: Seq<Event>, n: nat)
    requires
        0 < n <= i32::MAX,
        w.queue.len() <= n,
        w.write_at < n,
        w.queue.len() < n ==> w.write_at == w.queue.len(),
        es.len() <= n,
    ensures
        ({
            let r = written(w, es, n);
            &&& r.write_at == (w.write_at + es.len()) % (n as int)
            &&& r.queue.len() == if w.queue.len() + es.len() < n { w.queue.len() + es.len() } else { n }
            &&& r.queue.len() < n ==> r.write_at == r.queue.len()
            &&& forall|i: int| 0 <= i < es.len() ==> #[trigger] r.queue[(w.write_at + i) % (n as int)] == es[i]
            &&& (w.state matches WriterState::Recording { start, len } ==> (len + es.len() <= u32::MAX
                ==> r.state == (WriterState::Recording { start, len: (len + es.len()) as u32 })))
            &&& w.state is Idle ==> r.state is Idle
        }),
    decreases es.len(),
{
    let nn = n as int;
    if es.len() == 0 {
        lemma_small_mod(w.write_at as nat, n);
    } else {
        let front = es.drop_last();
        lemma_written_slots(w, front, n);
        let r0 = written(w, front, n);
        let k = front.len() as int;
        let at = r0.write_at as int;
        lemma_mod_bound(w.write_at + k, nn);
        assert(at == (w.write_at + k) % nn);
        vstd::arithmetic::div_mod::lemma_add_mod_noop_right(1, w.write_at + k, nn);
        assert((at + 1) % nn == (w.write_at + k + 1) % nn);
        let r = written(w, es, n);
        assert forall|i: int| 0 <= i < es.len() implies #[trigger] r.queue[(w.write_at + i) % nn] == es[i] by {
            lemma_mod_bound(w.write_at + i, nn);
            if i < k {
                assert(front[i] == es[i]);
                assert(r0.queue[(w.write_at + i) % nn] == es[i]);
                lemma_slots_differ(w.write_at + i, k - i, nn);
                assert((w.write_at + i) % nn != at);
                if r0.queue.len() < nn {
                    assert((w.write_at + i) % nn < r0.queue.len()) by {
                        lemma_small_mod((w.write_at + i) as nat, n);
                    }
                }
            } else {
                assert(i == k);
            }
        }
    }
    if w.queue.len() + es.len() < n {
        lemma_small_mod((w.write_at + es.len()) as nat, n);
    }
}

/// A recording of `es`, stopped once more than `min_len` and at most a ring's length of
/// events were written, stores a phrase of their length that holds them in the slots from
/// where the first was written; the phrase starts one slot before that, or at that slot
/// when nothing had been written before.
pub proof fn law_recording_replays_written_events(w: WriterModel, d: Dims, es: Seq<Event>, min_len: u32)
    requires
        writer_wf(w, d),
        w.state is Idle,
        min_len < es.len() <= d.phrase_len,
    ensures
        ({
            let n = d.phrase_len;
            let p = writer_phrase(written(writer_start(w, n), es, n), min_len, n);
            &&& p is Some
            &&& p->Some_0.len == es.len()
            &&& forall|i: int| 0 <= i < es.len() ==> #[trigger] p->Some_0.events[(w.write_at + i) % (n as int)] == es[i]
            &&& p->Some_0.start == if w.queue.len() == 0 { w.write_at as int } else { (w.write_at + n - 1) % (n as int) }
        }),
{
    let n = d.phrase_len;
    let nn = n as int;
    let s = writer_start(w, n);
    lemma_written_slots(s, es, n);
    let r = written(s, es, n);
    let p = writer_phrase(r, min_len, n)->Some_0;
    assert forall|i: int| 0 <= i < es.len() implies #[trigger] p.events[(w.write_at + i) % nn] == es[i] by {
        lemma_mod_bound(w.write_at + i, nn);
        if w.queue.len() + es.len() < n {
            lemma_small_mod((w.write_at + i) as nat, n);
        }
    }
    if w.write_at == 0 {
        if w.queue.len() > 0 {
            lemma_small_mod((nn - 1) as nat, n);
        } else {
            vstd::arithmetic::div_mod::lemma_mod_self_0(nn);
        }
    } else {
        lemma_fundamental_div_mod_converse(w.write_at + nn - 1, nn, 1, w.write_at - 1);
        lemma_small_mod((w.write_at - 1) as nat, n);
    }
}

/// `true` when `a` and `b` play the same thing: both nothing, holds of the same key, or
/// loops of the same key and length, whatever their ticks and levels.
pub open spec fn same_play(a: OnsetEvent<Modded<Onset>>, b: OnsetEvent<Modded<Onset>>) -> bool {
    match (a, b) {
        (OnsetEvent::Stop, OnsetEvent::Stop) => true,
        (OnsetEvent::Hold { index: i, .. }, OnsetEvent::Hold { index: j, .. }) => i == j,
        (OnsetEvent::Loop { index: i, len: m, .. }, OnsetEvent::Loop { index: j, len: n, .. }) => i == j && m == n,
        _ => false,
    }
}

/// Buffered inputs take effect only on the tick before an input tick: on any other tick
/// every layer goes on playing what it played (only its tick and levels move), every
/// reader keeps its phrase, and the phrases stay as they are.
pub proof fn law_inputs_pass_only_before_input_ticks(
    m: HandlerModel,
    t: i32,
    inputs: Seq<Option<OnsetInput>>,
    levels: Seq<Seq<Levels>>,
)
    requires
        m.wf(),
        inputs.len() == m.dims.layer_count,
        !m.passes_at(t),
    ensures
        ({
            let after = m.begin_tick(t, inputs).finish_tick(levels).0;
            &&& after.phrases == m.phrases
            &&& forall|l: int| 0 <= l < m.dims.layer_count ==> same_play(#[trigger] after.active_onsets[l], m.active_onsets[l])
            &&& forall|l: int| 0 <= l < m.dims.layer_count ==> (#[trigger] after.active_phrases[l] is Some <==> m.active_phrases[l] is Some)
            &&& forall|l: int| 0 <= l < m.dims.layer_count ==> (#[trigger] after.active_phrases[l] matches Some(r)
                ==> r.index == m.active_phrases[l]->Some_0.index)
        }),
{
    let b = m.begin_tick(t, inputs);
    let base = m.tick_base(t, inputs);
    assert(!b.pass_input);
    assert(b.with_levels(levels).try_pass() == b.with_levels(levels));
    let w = b.with_levels(levels);
    assert forall|l: int| 0 <= l < m.dims.layer_count implies same_play(#[trigger] w.active_onsets[l], m.active_onsets[l]) by {
        assert(w.active_onsets[l] == crate::model::relevel(b.active_onsets[l], levels[l]));
        if m.pass_input {
            if l == m.layer as int {
                assert(base.active_onsets[l] == crate::model::with_reverse(m.active_onsets[l], m.reverse));
            } else {
                assert(base.active_onsets[l] == m.active_onsets[l]);
            }
        }
    }
}


/// Releasing one key of a loop holds the looped key on from where the loop was: a hold of
/// key `k` passed to a layer that loops key `k` at tick `t` goes on at tick `t`.
pub proof fn law_hold_goes_on_from_the_loop(m: HandlerModel, k: u8, t: i32)
    requires
        m.wf(),
        m.pass_input,
        m.buffer.record != Some(RecordInput::Stop),
        m.buffer.phrases[m.layer as int] is None,
        m.buffer.onsets[m.layer as int] is None,
        m.active_onsets[m.layer as int] matches OnsetEvent::Loop { tick, index, .. } && tick == t && index == k,
        m.kit_onset(m.layer as int, k) is Some,
    ensures
        m.buffered_onset(OnsetInput::Hold { index: k }).try_pass().active_onsets[m.layer as int]
            matches OnsetEvent::Hold { tick, index, .. } && tick == t && index == k,
{
    let l = m.layer as int;
    let b = m.buffered_onset(OnsetInput::Hold { index: k });
    assert(b.buffer.onsets[l] == Some(OnsetInput::Hold { index: k }));
    assert(b.pass_phrase(l).1 == Some(OnsetInput::Hold { index: k }));
    assert(b.active_onsets[l] == m.active_onsets[l]);
    assert(b.kit_onset(l, k) == m.kit_onset(l, k));
    assert(b.pass_inputs().active_onsets[l] == b.pass_onset(l, OnsetInput::Hold { index: k }, b.active_onsets[l]));
}

/// A silent layer replays its phrase from the phrase's start: with its reader at tick `t`
/// of phrase `p`, it outputs the event `t` slots after the start, around the ring.
pub proof fn law_silent_layer_replays_from_the_start(m: HandlerModel, l: int)
    requires
        m.wf(),
        0 <= l < m.dims.layer_count,
        m.active_phrases[l] is Some,
        m.active_onsets[l] is Stop,
        m.buffer.onsets[l] != Some(OnsetInput::Stop),
    ensures
        ({
            let r = m.active_phrases[l]->Some_0;
            let p = m.phrases[r.index as int]->Some_0;
            m.net().events[l] == p.events[(p.start + r.tick) % (m.dims.phrase_len as int)]
        }),
{
}

/// With num lock on, the pad's number keys are a keypad: the digit in row `r` and column
/// `c` (each `0..3`) sits at pad key `12 + 8r + c` and types `3r + c + 1`, and pad key 5
/// types 0.
pub proof fn law_num_lock_keypad(r: int, c: int)
    requires
        0 <= r < 3,
        0 <= c < 3,
    ensures
        spec_key_action(true, (63 - (12 + 8 * r + c)) as u8, true) == KeyAction::PushNum((3 * r + c + 1) as u32),
        spec_key_action(true, 58u8, true) == KeyAction::PushNum(0),
{
}

/// With micro start snap, moving a phrase's start by `delta` steps puts it on the step grid:
/// at `s` modulo the phrase length, where `s` is a whole number of steps that the old start
/// plus `delta` steps rounds to toward zero.
pub proof fn law_micro_start_snaps_to_steps(m: HandlerModel, delta: i32)
    requires
        m.wf(),
        m.phrase_snap_start == Snap::Micro,
        m.layer_phrase() is Some,
        m.mod_start_ok(delta),
    ensures
        ({
            let (index, p) = m.layer_phrase()->Some_0;
            let step = m.ticks_per_step as int;
            let x = p.start + delta * step;
            exists|s: int| {
                &&& #[trigger] (s % step) == 0
                &&& m.mod_phrase_start(delta).phrases[index as int] == Some(PhraseModel {
                    start: (s % (m.dims.phrase_len as int)) as u32,
                    ..p
                })
                &&& x >= 0 ==> 0 <= x - s < step
                &&& x < 0 ==> 0 <= s - x < step
            }
        }),
{
    let (index, p) = m.layer_phrase()->Some_0;
    let step = m.ticks_per_step as int;
    let x = p.start + delta * step;
    let q = div_trunc(x, step);
    let s = q * step;
    if x >= 0 {
        lemma_fundamental_div_mod(x, step);
        lemma_mul_is_commutative(step, x / step);
        lemma_mod_bound(x, step);
    } else {
        lemma_fundamental_div_mod(-x, step);
        lemma_mul_is_commutative(step, (-x) / step);
        lemma_mod_bound(-x, step);
        assert(s == -(((-x) / step) * step)) by (nonlinear_arith)
            requires
                s == q * step,
                q == -((-x) / step);
    }
    vstd::arithmetic::div_mod::lemma_mod_multiples_basic(q, step);
    lemma_mul_is_commutative(q, step);
    lemma_mod_bound(s, m.dims.phrase_len as int);
    assert(s % step == 0);
}

/// Releasing the phrase key of a layer that plays only its phrase silences it: the reader
/// ends, a stop is buffered for the layer, and the next message stops the layer's sound.
pub proof fn law_phrase_stop_silences_a_phrase_only_layer(m: HandlerModel)
    requires
        m.wf(),
        m.pass_input,
        m.buffer.record != Some(RecordInput::Stop),
        m.active_onsets[m.layer as int] is Stop,
    ensures
        ({
            let after = m.buffered_phrase(PhraseInput::Stop).try_pass();
            &&& after.active_phrases[m.layer as int] is None
            &&& after.buffer.onsets[m.layer as int] == Some(OnsetInput::Stop)
            &&& after.net().events[m.layer as int].inner == Some(OnsetEvent::<Onset>::Stop)
        }),
{
    let l = m.layer as int;
    let b = m.buffered_phrase(PhraseInput::Stop);
    assert(b.pass_phrase(l).1 == Some(OnsetInput::Stop));
    let after = b.try_pass();
    assert(after.active_phrases[l] is None);
    assert(after.active_onsets[l] is Stop);
    assert(after.buffer.onsets[l] == Some(OnsetInput::Stop));
    assert(after.layer_event(l) == after.active_event(l));
}

/// A loop of key `k` over a layer playing key `k` at tick `t` keeps its place: its tick
/// lies inside the loop and differs from `t` by whole loops.
pub proof fn law_loop_keeps_its_place(m: HandlerModel, k: u8, len: u32, t: i32)
    requires
        m.wf(),
        m.pass_input,
        m.buffer.record != Some(RecordInput::Stop),
        m.buffer.phrases[m.layer as int] is None,
        0 < len <= i32::MAX,
        match m.active_onsets[m.layer as int] {
            OnsetEvent::Hold { tick, index, .. } => tick == t && index == k,
            OnsetEvent::Loop { tick, index, .. } => tick == t && index == k,
            OnsetEvent::Stop => false,
        },
        m.kit_onset(m.layer as int, k) is Some,
    ensures
        m.buffered_onset(OnsetInput::Loop { index: k, len }).try_pass().active_onsets[m.layer as int]
            matches OnsetEvent::Loop { tick, index, len: n, .. }
            && index == k && n == len && 0 <= tick < len && (tick - t) % (len as int) == 0,
{
    let l = m.layer as int;
    let b = m.buffered_onset(OnsetInput::Loop { index: k, len });
    assert(b.buffer.onsets[l] == Some(OnsetInput::Loop { index: k, len }));
    assert(b.pass_phrase(l).1 == Some(OnsetInput::Loop { index: k, len }));
    assert(b.active_onsets[l] == m.active_onsets[l]);
    assert(b.kit_onset(l, k) == m.kit_onset(l, k));
    assert(b.pass_inputs().active_onsets[l] == b.pass_onset(l, OnsetInput::Loop { index: k, len }, b.active_onsets[l]));
    let r = (t as int) % (len as int);
    lemma_mod_bound(t as int, len as int);
    lemma_fundamental_div_mod(t as int, len as int);
    let q = (t as int) / (len as int);
    assert(r - t == (-q) * len) by (nonlinear_arith)
        requires
            t == len * q + r;
    vstd::arithmetic::div_mod::lemma_mod_multiples_basic(-q, len as int);
}

/// A key the layer is not playing starts its onset at the beginning: tick 0.
pub proof fn law_other_key_starts_at_the_beginning(m: HandlerModel, input: OnsetInput)
    requires
        m.wf(),
        m.pass_input,
        m.buffer.record != Some(RecordInput::Stop),
        m.buffer.phrases[m.layer as int] is None,
        m.buffer.onsets[m.layer as int] is None,
        input is Hold || input is Loop,
        match input {
            OnsetInput::Hold { index } => m.kit_onset(m.layer as int, index) is Some
                && !(m.active_onsets[m.layer as int] matches OnsetEvent::Loop { index: i, .. } && i == index),
            OnsetInput::Loop { index, .. } => m.kit_onset(m.layer as int, index) is Some && match m.active_onsets[m.layer as int] {
                OnsetEvent::Hold { index: i, .. } => i != index,
                OnsetEvent::Loop { index: i, .. } => i != index,
                OnsetEvent::Stop => true,
            },
            _ => false,
        },
    ensures
        match m.buffered_onset(input).try_pass().active_onsets[m.layer as int] {
            OnsetEvent::Hold { tick, .. } => tick == 0 && input is Hold,
            OnsetEvent::Loop { tick, .. } => tick == 0 && input is Loop,
            OnsetEvent::Stop => false,
        },
{
    let l = m.layer as int;
    let b = m.buffered_onset(input);
    assert(b.buffer.onsets[l] == Some(input));
    assert(b.pass_phrase(l).1 == Some(input));
    assert(b.active_onsets[l] == m.active_onsets[l]);
    assert(b.pass_inputs().active_onsets[l] == b.pass_onset(l, input, b.active_onsets[l]));
    match input {
        OnsetInput::Hold { index } => assert(b.kit_onset(l, index) == m.kit_onset(l, index)),
        OnsetInput::Loop { index, .. } => assert(b.kit_onset(l, index) == m.kit_onset(l, index)),
        _ => {},
    }
}

/// Pressing a phrase key starts a reader at the phrase's first tick when the phrase is
/// stored, and ends the layer's reader when it is not.
pub proof fn law_phrase_key_starts_a_reader(m: HandlerModel, index: u8)
    requires
        m.wf(),
        m.pass_input,
        m.buffer.record != Some(RecordInput::Stop),
        index < m.dims.phrase_count,
    ensures
        m.buffered_phrase(PhraseInput::Hold { index }).try_pass().active_phrases[m.layer as int] == if m.phrases[index as int] is Some {
            Some(PhraseReader { index, tick: 0 })
        } else {
            None
        },
{
    let l = m.layer as int;
    let b = m.buffered_phrase(PhraseInput::Hold { index });
    assert(b.buffer.phrases[l] == Some(PhraseInput::Hold { index }));
    assert(b.pass_inputs().active_phrases[l] == b.pass_phrase(l).0);
}

/// With macro start snap, moving a phrase's start by `delta` playing events lands it on a
/// playing event, leaving the phrase's events and length as they were.
pub proof fn law_macro_start_lands_on_a_playing_event(m: HandlerModel, delta: i32)
    requires
        m.wf(),
        m.phrase_snap_start == Snap::Macro,
        m.layer_phrase() is Some,
        delta != 0,
        m.mod_start_ok(delta),
    ensures
        ({
            let (index, p) = m.layer_phrase()->Some_0;
            m.mod_phrase_start(delta).phrases[index as int] matches Some(q)
                && q.events == p.events && q.len == p.len && plays(p.events[q.start as int])
        }),
{
    let (index, p) = m.layer_phrase()->Some_0;
    let n = m.dims.phrase_len;
    let r = m.active_phrases[m.layer as int]->Some_0;
    assert(phrase_wf(m.phrases[r.index as int]->Some_0, n));
    if delta > 0 {
        lemma_nth_exists(p.events, n, p.start + 1, 1, delta as nat);
        let j = nth_playing(p.events, n, p.start + 1, 1, delta as nat);
        assert(p.start + 1 + 1 * j == p.start + j + 1);
        lemma_mod_bound(p.start + j + 1, n as int);
    } else {
        lemma_nth_exists(p.events, n, p.start - 2, -1, (-delta) as nat);
        let j = nth_playing(p.events, n, p.start - 2, -1, (-delta) as nat);
        assert(p.start - 2 + -1 * j == p.start - j - 2);
        lemma_mod_bound(p.start - j - 2, n as int);
    }
}

/// Changing a phrase's length by `delta` units (steps when snapping micro, measures when
/// snapping macro) keeps it a positive whole number of units: the old length plus `delta`
/// units rounded down to whole units, or one unit when that is less.
pub proof fn law_length_snaps_to_units(m: HandlerModel, delta: i32)
    requires
        m.wf(),
        m.layer_phrase() is Some,
        m.mod_len_ok(delta),
    ensures
        ({
            let (index, p) = m.layer_phrase()->Some_0;
            let unit = if m.phrase_snap_len == Snap::Micro {
                m.ticks_per_step as int
            } else {
                m.ticks_per_step * m.steps_per_meas
            };
            let x = p.len + delta * unit;
            m.mod_phrase_len(delta).phrases[index as int] matches Some(q)
                && q.events == p.events && q.start == p.start
                && (q.len as int) % unit == 0 && q.len >= unit
                && (x >= unit ==> x - unit < q.len <= x)
                && (x < unit ==> q.len == unit)
        }),
{
    let (index, p) = m.layer_phrase()->Some_0;
    let unit = m.len_scale();
    assert(unit >= 1) by (nonlinear_arith)
        requires
            unit == m.ticks_per_step || unit == m.ticks_per_step * m.steps_per_meas,
            m.ticks_per_step >= 1,
            m.steps_per_meas >= 1;
    let x = p.len + delta * unit;
    let d = div_trunc(x, unit);
    let c = if d > 1 { d } else { 1 };
    if x >= 0 {
        lemma_fundamental_div_mod(x, unit);
        lemma_mod_bound(x, unit);
        lemma_mul_is_commutative(unit, x / unit);
        if x >= unit {
            assert(x / unit >= 1) by (nonlinear_arith)
                requires
                    x >= unit,
                    unit >= 1,
                    x == unit * (x / unit) + x % unit,
                    x % unit < unit;
        } else {
            assert(x / unit == 0) by (nonlinear_arith)
                requires
                    0 <= x < unit,
                    x == unit * (x / unit) + x % unit,
                    0 <= x % unit < unit;
        }
    } else {
        lemma_fundamental_div_mod(-x, unit);
        assert((-x) / unit >= 0) by (nonlinear_arith)
            requires
                -x > 0,
                unit >= 1,
                -x == unit * ((-x) / unit) + (-x) % unit,
                0 <= (-x) % unit < unit;
        lemma_mod_bound(-x, unit);
    }
    assert(c >= 1);
    vstd::arithmetic::div_mod::lemma_mod_multiples_basic(c, unit);
    assert(c * unit >= unit) by (nonlinear_arith)
        requires
            c >= 1,
            unit >= 1;
}

} // verus!
