use ttcore::handler::StateHandler;
use ttcore::signal::Message as SignalMessage;
use ttcore::state::{default_event, Kit, Levels, Modded, Mods, Onset, OnsetEvent, OnsetInput, Phrase, PhraseInput, PhraseReader, PhraseWriter, RecordInput, Snap, WriterState};

type Handler = StateHandler<2, 2, 4, 8, 8, 16>;

fn levels() -> Vec<Vec<Levels>> {
    (0..2)
        .map(|l| (0..8).map(|i| Levels { pan: i as u32, gain: 100 + l as u32, speed: 200 }).collect())
        .collect()
}

fn kit() -> Kit<8> {
    Kit {
        onsets: (0..8)
            .map(|i| if i == 5 {
                    None
                } else {
                    // key 1 holds an onset that was never sliced
                    let onset_start = if i == 1 { None } else { Some(i as u32 * 100) };
                    Some(Onset { path: format!("o{}.wav", i), onset_start, beat_count: 4 })
                })
            .collect(),
    }
}

fn handler(snap: Snap) -> Handler {
    let mut h = Handler::new(snap, snap, snap, 4, 16, 16, 7, levels());
    h.kits[0] = Some(kit());
    h
}

fn signal(tick: i32, inputs: Vec<Option<OnsetInput>>) -> SignalMessage<2> {
    SignalMessage { tick, inputs }
}

/// Runs one tick of the signal side with `inputs` received.
fn step(h: &mut Handler, tick: i32, inputs: Vec<Option<OnsetInput>>) -> ttcore::handler::Message<2> {
    let _ = h.tick(signal(tick, inputs));
    h.finish_tick(levels())
}

#[test]
fn new_handler_is_silent() {
    let h = handler(Snap::Micro);
    assert_eq!(h.layer, 0);
    assert!(h.active_onsets.iter().all(|e| matches!(e, OnsetEvent::Stop)));
    assert!(h.active_phrases.iter().all(|p| p.is_none()));
    assert_eq!(h.phrase_writer.store_mask, (0..8).collect::<Vec<u8>>());
    assert_eq!(h.get_ticks_per_beat(), 16);
    assert_eq!(h.get_ticks_per_step(), 16);
    assert_eq!(h.get_record_mask(), &[0, 1, 2, 3, 4, 5, 6, 7]);
}

#[test]
fn closed_pass_only_buffers() {
    let mut h = handler(Snap::Micro);
    let msg = h.push_onset(OnsetInput::Hold { index: 2 });
    assert!(matches!(h.active_onsets[0], OnsetEvent::Stop));
    assert_eq!(h.buffer.onsets[0], Some(OnsetInput::Hold { index: 2 }));
    assert_eq!(msg.inputs[0], Some(OnsetInput::Hold { index: 2 }));
    assert!(matches!(msg.events[0].inner, Some(OnsetEvent::Stop)));
    assert!(msg.events[1].inner.is_none());
    assert_eq!(msg.ticks_per_beat, 16);
    assert_eq!(msg.ticks_per_meas, 16 * 7);
}

#[test]
fn tick_before_input_tick_passes() {
    let mut h = handler(Snap::Micro);
    let _ = h.push_onset(OnsetInput::Hold { index: 2 });
    // (2 + 1) % 4 != 0: still closed
    let msg = step(&mut h, 2, vec![None, None]);
    assert!(!h.pass_input);
    assert!(matches!(msg.events[0].inner, Some(OnsetEvent::Stop)));
    // (3 + 1) % 4 == 0: passing opens
    let msg = step(&mut h, 3, vec![None, None]);
    assert!(h.pass_input);
    match &h.active_onsets[0] {
        OnsetEvent::Hold { tick, onset, index } => {
            assert_eq!(*tick, 0);
            assert_eq!(*index, 2);
            assert_eq!(onset.inner.path, "o2.wav");
            assert_eq!(onset.mods.pan, 2);
            assert_eq!(onset.mods.gain, 100);
            assert!(!onset.mods.reverse);
        }
        _ => panic!("expected a hold"),
    }
    match &msg.events[0].inner {
        Some(OnsetEvent::Hold { tick, index, .. }) => {
            assert_eq!(*tick, 0);
            assert_eq!(*index, 2);
        }
        _ => panic!("expected a hold"),
    }
}

#[test]
fn received_input_is_consumed_after_pass_closes() {
    let mut h = handler(Snap::Micro);
    let _ = h.push_onset(OnsetInput::Hold { index: 2 });
    let _ = step(&mut h, 3, vec![None, None]);
    // a stop arriving while the hold is passed waits behind it
    let _ = h.push_onset(OnsetInput::Stop);
    assert_eq!(h.buffer.onsets[0], Some(OnsetInput::Hold { index: 2 }));
    assert_eq!(h.buffer.onsets_next[0], Some(OnsetInput::Stop));
    // passing closes; the signal side received the hold
    let _ = step(&mut h, 4, vec![Some(OnsetInput::Hold { index: 2 }), None]);
    assert_eq!(h.buffer.onsets[0], Some(OnsetInput::Stop));
    assert_eq!(h.buffer.onsets_next[0], None);
    // the hold moved on by the tick
    assert!(matches!(h.active_onsets[0], OnsetEvent::Hold { tick: 1, .. }));
}

#[test]
fn stop_on_unsliced_onset_is_dropped() {
    let mut h = handler(Snap::Micro);
    let _ = h.push_onset(OnsetInput::Hold { index: 1 });
    let _ = step(&mut h, 3, vec![None, None]);
    let _ = step(&mut h, 4, vec![Some(OnsetInput::Hold { index: 1 }), None]);
    assert_eq!(h.buffer.onsets[0], None);
    let _ = h.push_onset(OnsetInput::Stop);
    assert_eq!(h.buffer.onsets[0], None);
    assert_eq!(h.buffer.onsets_next[0], None);
}

#[test]
fn key_without_onset_stops() {
    let mut h = handler(Snap::Micro);
    let _ = h.push_onset(OnsetInput::Hold { index: 5 });
    let _ = step(&mut h, 3, vec![None, None]);
    assert!(matches!(h.active_onsets[0], OnsetEvent::Stop));
}

#[test]
fn loop_keeps_tick_of_same_key() {
    let mut h = handler(Snap::Micro);
    let _ = h.push_onset(OnsetInput::Hold { index: 3 });
    for t in 3..10 {
        let held = h.buffer.onsets[0];
        let _ = step(&mut h, t, vec![held, None]);
    }
    let tick = match h.active_onsets[0] {
        OnsetEvent::Hold { tick, .. } => tick,
        _ => panic!("expected a hold"),
    };
    assert_eq!(tick, 6);
    let _ = h.push_onset(OnsetInput::Loop { index: 3, len: 4 });
    // at tick 11 passing opens again: the loop keeps the hold's tick, wrapped
    let _ = step(&mut h, 10, vec![None, None]);
    let _ = step(&mut h, 11, vec![None, None]);
    assert!(matches!(h.active_onsets[0], OnsetEvent::Loop { tick: 0, len: 4, index: 3, .. }));
}

#[test]
fn ramps_advance_on_micro_snap_every_tick() {
    let mut h = handler(Snap::Micro);
    let steps = h.tick(signal(0, vec![None, None]));
    assert_eq!(steps, vec![Some(1), Some(1)]);
    assert_eq!(h.ramp_ticks, vec![0, 0]);
}

#[test]
fn ramps_wait_for_onset_on_macro_snap() {
    let mut h = handler(Snap::Macro);
    let steps = h.tick(signal(0, vec![None, None]));
    assert_eq!(steps, vec![None, None]);
    let steps = h.tick(signal(1, vec![None, None]));
    assert_eq!(steps, vec![None, None]);
    assert_eq!(h.ramp_ticks, vec![2, 2]);
}

#[test]
fn recording_stores_phrase_and_holds_it() {
    let mut h = handler(Snap::Micro);
    let _ = h.push_onset(OnsetInput::Hold { index: 2 });
    let _ = h.push_record(RecordInput::Start);
    let mut t = 0;
    while t < 12 {
        let held = h.buffer.onsets[0];
        let _ = step(&mut h, t, vec![held, None]);
        t += 1;
    }
    assert!(matches!(h.phrase_writer.state, WriterState::Recording { .. }));
    let _ = h.push_record(RecordInput::Stop);
    // the record stop is passed on the next open tick
    while !h.pass_input || h.buffer.record.is_some() {
        let held = h.buffer.onsets[0];
        let _ = step(&mut h, t, vec![held, None]);
        t += 1;
    }
    assert!(matches!(h.phrase_writer.state, WriterState::Idle));
    let p = h.phrases[0].as_ref().expect("stored to the first phrase of the mask");
    assert!(p.len > 4);
    assert_eq!(p.len as usize % 16, 0);
    assert_eq!(h.active_phrases[0].map(|r| r.index), Some(0));
    assert_eq!(h.get_reader_tick(0), h.active_phrases[0].map(|r| r.tick));
    assert_eq!(h.get_reader_tick(3), None);
    assert_eq!(h.phrase_writer.store_index, 1);
}

#[test]
fn record_mask_is_sorted_and_restarts() {
    let mut h = handler(Snap::Micro);
    h.set_record_mask(&[5, 1, 3, 1]);
    assert_eq!(h.get_record_mask(), &[1, 1, 3, 5]);
    assert_eq!(h.phrase_writer.store_index, 0);
}

#[test]
fn kit_index_selects_kit_of_bank() {
    let mut h = handler(Snap::Micro);
    h.kits[1] = Some(Kit { onsets: (0..8).map(|_| Some(Onset { path: "k1.wav".to_string(), onset_start: None, beat_count: 1 })).collect() });
    // keys 4..8 are bank 1 (index * 2 / 8)
    h.set_kit_index(1, 1);
    assert_eq!(h.kit_indices[0], vec![0, 1]);
    let _ = h.push_onset(OnsetInput::Hold { index: 6 });
    let _ = step(&mut h, 3, vec![None, None]);
    match &h.active_onsets[0] {
        OnsetEvent::Hold { onset, .. } => assert_eq!(onset.inner.path, "k1.wav"),
        _ => panic!("expected a hold"),
    }
}

#[test]
fn timing_setters_clamp() {
    let mut h = handler(Snap::Micro);
    let msg = h.set_ticks_per_beat(0);
    assert_eq!(msg.ticks_per_beat, 1);
    let _ = h.set_ticks_per_input(0);
    assert_eq!(h.ticks_per_input, 1);
    let _ = h.set_ticks_per_step(0);
    assert_eq!(h.get_ticks_per_step(), 1);
    let _ = h.set_ticks_per_input(8);
    assert_eq!(h.get_ticks_per_step(), 8);
    let msg = h.set_steps_per_meas(0);
    assert_eq!(h.steps_per_meas, 1);
    assert_eq!(msg.ticks_per_meas, 8);
    let _ = h.push_reverse(true);
    assert!(h.reverse);
}

#[test]
fn phrase_hold_of_missing_phrase_reads_nothing() {
    let mut h = handler(Snap::Micro);
    let _ = h.push_phrase(PhraseInput::Hold { index: 4 });
    let _ = step(&mut h, 3, vec![None, None]);
    assert!(h.active_phrases[0].is_none());
}

fn writer_with(events: usize) -> PhraseWriter<8, 4> {
    let mut w = PhraseWriter::<8, 4>::new();
    for i in 0..events {
        w.push(ttcore::state::Modded { inner: Some(OnsetEvent::Stop), mods: ttcore::state::Mods { pan: i as u32, gain: 0, speed: 0, reverse: false } });
    }
    w
}

#[test]
fn writer_ring_overwrites_oldest() {
    let w = writer_with(6);
    assert_eq!(w.queue.len(), 4);
    assert_eq!(w.write_at, 2);
    let pans: Vec<u32> = w.queue.iter().map(|e| e.mods.pan).collect();
    assert_eq!(pans, vec![4, 5, 2, 3]);
}

#[test]
fn writer_latest_slot_holds_last_write() {
    let w = writer_with(5);
    // the slot before write_at holds the last event written
    assert_eq!(w.queue[w.write_at - 1].mods.pan, 4);
}

#[test]
fn writer_recording_counts_and_stores() {
    let mut w = writer_with(2);
    w.try_start();
    assert_eq!(w.state, WriterState::Recording { start: 1, len: 0 });
    for _ in 0..3 {
        w.push(ttcore::state::Modded { inner: None, mods: ttcore::state::Mods::new() });
    }
    assert_eq!(w.state, WriterState::Recording { start: 1, len: 3 });
    let p = w.try_store(2).expect("longer than the minimum");
    assert_eq!(p.start, 1);
    assert_eq!(p.len, 3);
    assert_eq!(p.events.len(), 4);
    assert_eq!(w.state, WriterState::Idle);
}

#[test]
fn writer_short_recording_stores_nothing() {
    let mut w = writer_with(1);
    w.try_start();
    assert!(w.try_store(0).is_none());
    assert_eq!(w.state, WriterState::Idle);
    let mut w = writer_with(1);
    w.try_start();
    w.push(ttcore::state::Modded { inner: None, mods: ttcore::state::Mods::new() });
    assert!(w.try_store(1).is_none());
}

#[test]
fn writer_store_slots_fill_with_empty_events() {
    let mut w = writer_with(1);
    w.try_start();
    w.push(ttcore::state::Modded { inner: None, mods: ttcore::state::Mods::new() });
    let p = w.try_store(0).expect("one tick recorded");
    assert_eq!(p.len, 1);
    assert!(p.events[2].inner.is_none());
    assert_eq!(p.events[2].mods, ttcore::state::Mods::new());
}

#[test]
fn writer_targets_go_round_the_mask() {
    let mut w = PhraseWriter::<3, 4>::new();
    let got: Vec<Option<u8>> = (0..7).map(|_| w.try_advance()).collect();
    assert_eq!(got, vec![Some(0), Some(1), Some(2), Some(0), Some(1), Some(2), Some(0)]);
    let mut empty = PhraseWriter::<3, 4>::new();
    empty.store_mask.clear();
    assert_eq!(empty.try_advance(), None);
}

#[test]
fn default_mods_are_centered_unit_forward() {
    let m = ttcore::state::Mods::new();
    assert_eq!(f32::from_bits(m.pan), 0.5);
    assert_eq!(f32::from_bits(m.gain), 1.0);
    assert_eq!(f32::from_bits(m.speed), 1.0);
    assert!(!m.reverse);
}

#[test]
fn default_message_is_empty() {
    let m = ttcore::handler::Message::<3>::new();
    assert_eq!(m.ticks_per_beat, 1);
    assert_eq!(m.ticks_per_meas, 1);
    assert_eq!(m.inputs, vec![None, None, None]);
    assert!(m.events.iter().all(|e| e.inner.is_none()));
}

fn marked(pan: u32) -> ttcore::state::Event {
    ttcore::state::Modded { inner: Some(OnsetEvent::Stop), mods: ttcore::state::Mods { pan, gain: 0, speed: 0, reverse: false } }
}

#[test]
fn recording_replays_written_events_from_their_slots() {
    // one event before the recording: the phrase starts at its slot
    let mut w = writer_with(1);
    w.try_start();
    for pan in [10, 11, 12] {
        w.push(marked(pan));
    }
    let p = w.try_store(2).expect("three events are more than two");
    assert_eq!(p.len, 3);
    assert_eq!(p.start, 0);
    let pans: Vec<u32> = (0..3).map(|i| p.events[(1 + i) % 4].mods.pan).collect();
    assert_eq!(pans, vec![10, 11, 12]);
    // nothing before the recording: the phrase starts at the first event's slot
    let mut w = writer_with(0);
    w.try_start();
    for pan in [20, 21] {
        w.push(marked(pan));
    }
    let p = w.try_store(1).expect("two events are more than one");
    assert_eq!((p.start, p.len), (0, 2));
    assert_eq!(p.events[0].mods.pan, 20);
    assert_eq!(p.events[1].mods.pan, 21);
}

#[test]
fn record_mask_takes_any_phrase_number() {
    let mut h = handler(Snap::Micro);
    h.set_record_mask(&[9, 200]);
    assert_eq!(h.get_record_mask(), &[9, 200]);
}

#[test]
fn closed_passing_buffers_any_key_and_kit() {
    let mut h = handler(Snap::Micro);
    h.set_kit_index(0, 7);
    assert_eq!(h.kit_indices[0], vec![7, 0]);
    let msg = h.push_onset(OnsetInput::Loop { index: 40, len: u32::MAX });
    assert_eq!(h.buffer.onsets[0], Some(OnsetInput::Loop { index: 40, len: u32::MAX }));
    assert_eq!(msg.inputs[0], Some(OnsetInput::Loop { index: 40, len: u32::MAX }));
    assert!(matches!(h.active_onsets[0], OnsetEvent::Stop));
}

/// A handler whose first layer reads a silent phrase of length 32 starting at 0.
fn reading(snap: Snap) -> Handler {
    let mut h = handler(snap);
    h.phrases[0] = Some(Phrase { events: (0..16).map(|_| default_event()).collect(), start: 0, len: 32 });
    h.active_phrases[0] = Some(PhraseReader { index: 0, tick: 0 });
    h
}

#[test]
fn phrase_edits_are_checked_for_range_before_they_are_made() {
    let h = reading(Snap::Micro);
    assert!(h.mod_len_ok(1));
    assert!(h.mod_len_ok(-100));
    // 16 ticks a step: too many steps for an i32
    assert!(!h.mod_len_ok(i32::MAX / 8));
    assert!(h.mod_start_ok(3));
    assert!(!h.mod_start_ok(200_000_000));
    // without a phrase there is nothing to move
    assert!(handler(Snap::Micro).mod_start_ok(i32::MAX));
    let mut h = reading(Snap::Macro);
    assert!(h.mod_start_ok(0));
    // snapping to playing events in a phrase with none does not stop
    assert!(!h.mod_start_ok(1));
    let onset = Onset { path: "a.wav".to_string(), onset_start: Some(0), beat_count: 1 };
    h.phrases[0].as_mut().unwrap().events[5] =
        Modded { inner: Some(OnsetEvent::Hold { tick: 0, onset, index: 2 }), mods: Mods::new() };
    assert!(h.mod_start_ok(1));
    assert!(h.mod_start_ok(-3));
    h.mod_phrase_start(1);
    assert_eq!(h.phrases[0].as_ref().unwrap().start, 5);
}

#[test]
fn ticks_are_checked_for_range_before_they_are_taken() {
    let mut h = handler(Snap::Micro);
    assert!(h.tick_ok(&signal(0, vec![None, None])));
    assert!(!h.tick_ok(&signal(i32::MAX, vec![None, None])));
    assert!(!h.tick_ok(&signal(0, vec![None])));
    let onset = Modded { inner: Onset { path: "a.wav".to_string(), onset_start: Some(0), beat_count: 1 }, mods: Mods::new() };
    h.active_onsets[1] = OnsetEvent::Hold { tick: i32::MAX, onset, index: 0 };
    assert!(!h.tick_ok(&signal(0, vec![None, None])));
    let mut h = handler(Snap::Micro);
    h.ramp_ticks[0] = u32::MAX;
    assert!(!h.tick_ok(&signal(0, vec![None, None])));
}

#[test]
fn checked_steps_match_the_plain_ones_where_they_fit() {
    let mut a = handler(Snap::Micro);
    let mut b = handler(Snap::Micro);
    let ma = a.push_onset(OnsetInput::Hold { index: 2 });
    let mb = b.push_onset_checked(OnsetInput::Hold { index: 2 }).unwrap();
    assert_eq!(ma.inputs, mb.inputs);
    assert_eq!(b.buffer.onsets, a.buffer.onsets);
    for t in 0..6 {
        let held = a.buffer.onsets[0];
        let _ = a.tick(signal(t, vec![held, None]));
        let _ = b.tick(signal(t, vec![held, None]));
        let ma = a.finish_tick(levels());
        let mb = b.finish_tick_checked(levels()).unwrap();
        assert_eq!(ma.inputs, mb.inputs);
        assert_eq!(ma.ticks_per_meas, mb.ticks_per_meas);
    }
    assert!(matches!(b.active_onsets[0], OnsetEvent::Hold { index: 2, .. }));
    assert!(b.push_phrase_checked(PhraseInput::Stop).is_some());
    assert!(b.push_record_checked(RecordInput::Start).is_some());
    assert!(b.pass_net_checked().is_some());
    assert_eq!(b.set_ticks_per_beat_checked(0).unwrap().ticks_per_beat, 1);
    assert_eq!(b.set_steps_per_meas_checked(3).unwrap().ticks_per_meas, 16 * 3);
    assert!(b.set_ticks_per_input_checked(8).is_some());
    assert!(b.set_ticks_per_step_checked(32).is_some());
}

#[test]
fn checked_steps_refuse_what_would_leave_a_range() {
    let mut h = handler(Snap::Micro);
    // a loop of no length cannot be passed
    h.pass_input = true;
    assert!(h.push_onset_checked(OnsetInput::Loop { index: 2, len: 0 }).is_none());
    let mut h = handler(Snap::Micro);
    // levels for one layer only
    assert!(h.finish_tick_checked(vec![levels()[0].clone()]).is_none());
    let mut h = handler(Snap::Micro);
    // a step too long for the handler's ticks
    assert!(h.set_ticks_per_step_checked(u32::MAX).is_none());
    assert_eq!(h.get_ticks_per_step(), 16);
    // steps per measure whose measure overflows
    assert!(h.set_steps_per_meas_checked(u32::MAX / 8).is_none());
}

#[test]
fn a_layer_stopping_onto_its_phrase_syncs() {
    let mut h = reading(Snap::Micro);
    h.buffer.onsets[0] = Some(OnsetInput::Stop);
    assert!(h.net_ok());
    let msg = h.pass_net_checked().unwrap();
    // the scan walks back over the silent phrase and finds nothing to sound
    assert!(msg.events[0].inner.is_none());
}
