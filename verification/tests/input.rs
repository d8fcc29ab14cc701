use ttcore::arith::{div_trunc_i32, rem_euclid_i32, rem_euclid_i64};
use ttcore::input::{
    binary_offset, key_action, level, loop_bits_fit, press, push_onset_key, push_phrase_key, throbber_high, throbber_step, KeyAction,
    NumBuffer, Scroll,
};
use ttcore::state::{OnsetInput, PhraseInput, Snap};

#[test]
fn num_buffer_reads_typed_digits() {
    let mut b = NumBuffer::new();
    assert_eq!(b.num, 0);
    b.push_num(1);
    b.push_num(2);
    assert_eq!(b.get_num(), 12);
    assert!(b.used);
    // once read, the next digit starts a new number
    b.push_num(3);
    assert_eq!(b.get_num(), 3);
    b.push_num(4);
    b.pop_num();
    assert_eq!(b.num, 0);
    assert!(!b.used);
    b.push_num(5);
    assert_eq!(b.get_num(), 5);
}

#[test]
fn scroll_stops_at_both_ends() {
    let mut s: Scroll<&str> = Scroll::new();
    s.inc();
    assert_eq!(s.index, 0);
    s.list = vec!["a", "b", "c"];
    s.dec();
    assert_eq!(s.index, 0);
    s.inc();
    s.inc();
    assert_eq!(s.index, 2);
    s.inc();
    assert_eq!(s.index, 2);
    s.dec();
    assert_eq!(s.index, 1);
}

#[test]
fn loop_length_counts_from_the_key_after_the_first() {
    assert_eq!(binary_offset(&[2, 3, 5], 2, 8), 0b101);
    // a key before the first wraps round the keys
    assert_eq!(binary_offset(&[5, 1], 5, 8), 0b1000);
    assert_eq!(binary_offset(&[4], 4, 8), 0);
}

#[test]
fn loop_length_has_a_bit_for_every_held_key() {
    let downs = [0u8, 1, 2, 3, 4, 5, 6, 7];
    let len = binary_offset(&downs, 0, 8);
    assert_eq!(len, 0b111_1111);
    for &v in &downs[1..] {
        assert_ne!(len & (1 << (v - 1)), 0);
    }
}

#[test]
fn level_reads_sign_and_size() {
    assert_eq!(level(0b0000_0101), -2);
    assert_eq!(level(0b0000_1110), 7);
    assert_eq!(level(0b1111_1111), -7);
    assert_eq!(level(0b1000_0000), 0);
    assert_eq!(level(0), 0);
}

#[test]
fn press_sets_and_release_clears_the_bit() {
    assert_eq!(press(0, 3, true), 8);
    assert_eq!(press(0xff, 0, false), 0xfe);
    assert_eq!(press(8, 3, true), 8);
    assert_eq!(press(0, 7, false), 0);
}

#[test]
fn pad_keys_without_num_lock() {
    assert_eq!(key_action(false, 63 - 32, true), KeyAction::Onset { index: 0, down: true });
    assert_eq!(key_action(false, 63 - 39, false), KeyAction::Onset { index: 7, down: false });
    assert_eq!(key_action(false, 63 - 24, true), KeyAction::Phrase { index: 0, down: true });
    assert_eq!(key_action(false, 63 - 10, true), KeyAction::Record(true));
    assert_eq!(key_action(false, 63 - 11, false), KeyAction::Sustain(false));
    assert_eq!(key_action(false, 63 - 12, true), KeyAction::ToggleLegato);
    assert_eq!(key_action(false, 63 - 12, false), KeyAction::Nothing);
    assert_eq!(key_action(false, 63 - 13, false), KeyAction::Layer(0));
    assert_eq!(key_action(false, 63 - 14, true), KeyAction::RampSnap(Snap::Micro));
    assert_eq!(key_action(false, 63 - 44, true), KeyAction::RampPitch { index: 3, down: true });
    assert_eq!(key_action(false, 63 - 55, true), KeyAction::RampGain { index: 0, down: true });
    assert_eq!(key_action(false, 63 - 41, true), KeyAction::SetPitch { index: 1, down: true });
    assert_eq!(key_action(false, 63 - 50, false), KeyAction::SetGain { index: 2, down: false });
    assert_eq!(key_action(false, 63 - 56, true), KeyAction::Kit { bank: 0, index: 0 });
    assert_eq!(key_action(false, 63 - 63, true), KeyAction::Kit { bank: 1, index: 3 });
    assert_eq!(key_action(false, 63 - 63, false), KeyAction::Nothing);
    assert_eq!(key_action(false, 63 - 4, true), KeyAction::NumLock(true));
    assert_eq!(key_action(false, 63 - 0, true), KeyAction::Nothing);
}

#[test]
fn pad_keys_with_num_lock() {
    assert_eq!(key_action(true, 63 - 5, true), KeyAction::PushNum(0));
    assert_eq!(key_action(true, 63 - 12, true), KeyAction::PushNum(1));
    assert_eq!(key_action(true, 63 - 14, true), KeyAction::PushNum(3));
    assert_eq!(key_action(true, 63 - 20, true), KeyAction::PushNum(4));
    assert_eq!(key_action(true, 63 - 22, true), KeyAction::PushNum(6));
    assert_eq!(key_action(true, 63 - 28, true), KeyAction::PushNum(7));
    assert_eq!(key_action(true, 63 - 30, true), KeyAction::PushNum(9));
    assert_eq!(key_action(true, 63 - 30, false), KeyAction::Nothing);
    assert_eq!(key_action(true, 63 - 6, true), KeyAction::PopNum);
    assert_eq!(key_action(true, 63 - 7, true), KeyAction::StepsPerMeas);
    assert_eq!(key_action(true, 63 - 15, true), KeyAction::TicksPerStep);
    assert_eq!(key_action(true, 63 - 23, true), KeyAction::TicksPerInput);
    assert_eq!(key_action(true, 63 - 31, true), KeyAction::TicksPerBeat);
    assert_eq!(key_action(true, 63 - 37, true), KeyAction::PhraseSnapStart(Snap::Macro));
    assert_eq!(key_action(true, 63 - 38, true), KeyAction::PhraseSnapLen(Snap::Micro));
    assert_eq!(key_action(true, 63 - 44, true), KeyAction::ModPhraseStart { back: true });
    assert_eq!(key_action(true, 63 - 47, true), KeyAction::ModPhraseLen { back: false });
    assert_eq!(key_action(true, 63 - 4, true), KeyAction::NumLock(true));
    assert_eq!(key_action(true, 63 - 4, false), KeyAction::Nothing);
    assert_eq!(key_action(true, 63 - 32, true), KeyAction::Nothing);
}

#[test]
fn onset_keys_make_holds_loops_and_stops() {
    let mut downs = Vec::new();
    assert_eq!(push_onset_key(&mut downs, 2, true, false, 8), Some(OnsetInput::Hold { index: 2 }));
    assert_eq!(push_onset_key(&mut downs, 4, true, false, 8), Some(OnsetInput::Loop { index: 2, len: 0b10 }));
    assert_eq!(downs, vec![2, 4]);
    assert_eq!(push_onset_key(&mut downs, 2, false, false, 8), Some(OnsetInput::Hold { index: 4 }));
    assert_eq!(downs, vec![4]);
    // legato holds the sound on release
    assert_eq!(push_onset_key(&mut downs, 4, false, true, 8), None);
    assert!(downs.is_empty());
    assert_eq!(push_onset_key(&mut downs, 4, false, false, 8), Some(OnsetInput::Stop));
}

#[test]
fn release_removes_every_press_of_the_key() {
    let mut downs = vec![3, 1, 3, 5];
    assert_eq!(push_onset_key(&mut downs, 3, false, false, 8), Some(OnsetInput::Loop { index: 1, len: 0b1000 }));
    assert_eq!(downs, vec![1, 5]);
}

#[test]
fn phrase_keys_hold_and_stop() {
    let mut mask: Option<Vec<u8>> = None;
    assert_eq!(push_phrase_key(&mut mask, 3, true, false), Some(PhraseInput::Hold { index: 3 }));
    assert_eq!(push_phrase_key(&mut mask, 3, false, false), Some(PhraseInput::Stop));
    assert_eq!(push_phrase_key(&mut mask, 3, false, true), None);
    assert!(mask.is_none());
}

#[test]
fn phrase_keys_reorder_an_open_record_mask() {
    let mut mask = Some(vec![1, 2, 3]);
    assert_eq!(push_phrase_key(&mut mask, 2, true, false), None);
    assert_eq!(mask, Some(vec![1, 3, 2]));
    assert_eq!(push_phrase_key(&mut mask, 6, true, false), None);
    assert_eq!(mask, Some(vec![1, 3, 2, 6]));
    assert_eq!(push_phrase_key(&mut mask, 1, false, false), None);
    assert_eq!(mask, Some(vec![1, 3, 2, 6]));
}

#[test]
fn throbber_follows_steps_and_beats() {
    assert_eq!(throbber_step(9, 4), 2);
    assert_eq!(throbber_step(-5, 4), -1);
    assert!(throbber_high(1, 6));
    assert!(!throbber_high(2, 6));
    assert!(!throbber_high(-1, 6));
    assert!(throbber_high(-6, 6));
}

#[test]
fn euclidean_remainders_are_never_negative() {
    assert_eq!(rem_euclid_i32(-1, 4), 3);
    assert_eq!(rem_euclid_i32(7, 4), 3);
    assert_eq!(rem_euclid_i32(i32::MIN, 3), i32::MIN.rem_euclid(3));
    assert_eq!(rem_euclid_i64(-9, 4), 3);
    assert_eq!(rem_euclid_i64(i64::MIN, 7), i64::MIN.rem_euclid(7));
}

#[test]
fn division_rounds_toward_zero() {
    assert_eq!(div_trunc_i32(-7, 2), -3);
    assert_eq!(div_trunc_i32(7, 2), 3);
    assert_eq!(div_trunc_i32(i32::MIN, 1), i32::MIN);
}

#[test]
fn loop_bits_fit_only_when_every_bit_is_computable() {
    assert!(loop_bits_fit(&[], 2));
    assert!(loop_bits_fit(&[3], 2));
    assert!(loop_bits_fit(&[2, 4, 7], 8));
    // a key before the first wraps round `count` keys, which must reach back to it
    assert!(loop_bits_fit(&[5, 1], 8));
    assert!(!loop_bits_fit(&[5, 1], 2));
    // bits from 32 on do not fit a loop length
    assert!(!loop_bits_fit(&[0, 40], 8));
    assert!(!loop_bits_fit(&[255, 0], 8));
    assert!(!loop_bits_fit(&[10, 250], 8));
}

#[test]
fn snaps_are_named_for_the_screen() {
    assert_eq!(Snap::Micro.name(), "micro");
    assert_eq!(Snap::Macro.name(), "macro");
}
