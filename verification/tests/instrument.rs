use ttcore::dialog::{dialog_key, screen_key, DialogMove, DialogReturn, DialogTab, KeyCode, KeyKind, KeyOutcome};
use ttcore::state::Onset;
use ttcore::xrni::{decode_flac, parse_unsigned, scan_events, scan_instrument, slice_onsets, Awaiting, FlacError, InstrumentScan, ScanError, XmlEvent};

fn start(name: &str) -> XmlEvent {
    XmlEvent::Start(name.as_bytes().to_vec())
}

fn end(name: &str) -> XmlEvent {
    XmlEvent::End(name.as_bytes().to_vec())
}

fn text(t: &str) -> XmlEvent {
    XmlEvent::Text(t.to_string())
}

/// Feeds events until the scan asks to stop; returns how many were taken.
fn feed(scan: &mut InstrumentScan, events: Vec<XmlEvent>) -> Result<usize, ScanError> {
    let mut n = 0;
    for e in events {
        n += 1;
        if !scan.step(&e)? {
            break;
        }
    }
    Ok(n)
}

#[test]
fn numbers_read_as_the_standard_library_reads_them() {
    assert_eq!(parse_unsigned(b"12", 100), Some(12));
    assert_eq!(parse_unsigned(b"+7", 100), Some(7));
    assert_eq!(parse_unsigned(b"007", 100), Some(7));
    assert_eq!(parse_unsigned(b"", 100), None);
    assert_eq!(parse_unsigned(b"+", 100), None);
    assert_eq!(parse_unsigned(b"-1", 100), None);
    assert_eq!(parse_unsigned(b"1 2", 100), None);
    assert_eq!(parse_unsigned(b"101", 100), None);
    assert_eq!(parse_unsigned(b"65535", u16::MAX as u64), Some(65535));
    assert_eq!(parse_unsigned(b"65536", u16::MAX as u64), None);
    assert_eq!(parse_unsigned(b"18446744073709551615", u64::MAX), Some(u64::MAX));
    assert_eq!(parse_unsigned(b"18446744073709551616", u64::MAX), None);
    for s in ["0", "42", "+42", "65535", "65536", "x", "", "+", "-3", "4x"] {
        assert_eq!(parse_unsigned(s.as_bytes(), u16::MAX as u64), s.parse::<u16>().ok().map(u64::from), "{}", s);
    }
}

#[test]
fn scan_reads_the_last_sample_and_its_slices() {
    let mut scan = InstrumentScan::new();
    let events = vec![
        start("Instrument"),
        start("Samples"),
        start("Sample"),
        start("Name"),
        text("first"),
        end("Name"),
        end("Sample"),
        start("Sample"),
        start("Name"),
        text("Cold Sweat"),
        end("Name"),
        start("BeatSyncLines"),
        text("16"),
        end("BeatSyncLines"),
        start("SliceMarkers"),
        start("SliceMarker"),
        start("SamplePosition"),
        text("0"),
        end("SamplePosition"),
        end("SliceMarker"),
        start("SliceMarker"),
        start("SamplePosition"),
        text("22050"),
        end("SamplePosition"),
        end("SliceMarker"),
        end("SliceMarkers"),
        start("Never"),
    ];
    let total = events.len();
    let taken = feed(&mut scan, events).unwrap();
    assert_eq!(taken, total - 1);
    assert_eq!(scan.sample_index, 2);
    assert_eq!(scan.sample_name, "Cold Sweat");
    assert_eq!(scan.beat_sync_lines, 16);
    assert_eq!(scan.sample_positions, vec![0, 22050]);
    assert_eq!(scan.awaiting, Awaiting::Nothing);
}

#[test]
fn name_outside_a_sample_is_not_read() {
    let mut scan = InstrumentScan::new();
    feed(&mut scan, vec![start("Sample"), end("Sample"), start("Name"), text("other"), end("Name")]).unwrap();
    assert_eq!(scan.sample_name, "");
    // ending the name counts as being inside a sample again
    assert!(scan.in_sample);
}

#[test]
fn event_after_an_element_start_is_taken_even_when_not_text() {
    let mut scan = InstrumentScan::new();
    feed(&mut scan, vec![start("BeatSyncLines"), end("Samples"), text("9")]).unwrap();
    // the end of the samples was passed over as the awaited text; the text after is ignored
    assert_eq!(scan.beat_sync_lines, 0);
    assert!(scan.step(&end("Samples")).unwrap() == false);
}

#[test]
fn scan_stops_at_end_of_samples_and_of_file() {
    let mut scan = InstrumentScan::new();
    assert_eq!(scan.step(&end("Samples")), Ok(false));
    assert_eq!(scan.step(&XmlEvent::Eof), Ok(false));
    assert_eq!(scan.step(&XmlEvent::Other), Ok(true));
}

#[test]
fn bad_numbers_fail_the_scan() {
    let mut scan = InstrumentScan::new();
    assert_eq!(scan.step(&start("BeatSyncLines")), Ok(true));
    assert_eq!(scan.step(&text("70000")), Err(ScanError::BadNumber));
    assert_eq!(scan.step(&start("SamplePosition")), Ok(true));
    assert_eq!(scan.step(&text("-1")), Err(ScanError::BadNumber));
    assert!(scan.sample_positions.is_empty());
}

#[test]
fn slices_become_onsets_of_the_sample() {
    let onsets = slice_onsets(&"onsets/breaks/a.wav".to_string(), &[0, 300, (1u64 << 32) + 5], 4);
    assert_eq!(onsets.len(), 3);
    let expect = |start: u32| Onset { path: "onsets/breaks/a.wav".to_string(), onset_start: Some(start), beat_count: 4 };
    for (o, s) in onsets.iter().zip([0u32, 300, 5]) {
        let o = o.as_ref().unwrap();
        let e = expect(s);
        assert_eq!(o.path, e.path);
        assert_eq!(o.onset_start, e.onset_start);
        assert_eq!(o.beat_count, e.beat_count);
    }
}

#[test]
fn dialog_scrolls_and_turns_pages() {
    assert_eq!(dialog_key(DialogTab::Hosts, KeyCode::Down, KeyKind::Repeat), (DialogReturn::Consumed, Some(DialogMove::HostsDown)));
    assert_eq!(dialog_key(DialogTab::Hosts, KeyCode::Right, KeyKind::Press), (DialogReturn::Consumed, Some(DialogMove::ToDevices)));
    assert_eq!(dialog_key(DialogTab::Hosts, KeyCode::Left, KeyKind::Press), (DialogReturn::Continue, None));
    assert_eq!(dialog_key(DialogTab::Devices, KeyCode::Up, KeyKind::Press), (DialogReturn::Consumed, Some(DialogMove::DevicesUp)));
    assert_eq!(dialog_key(DialogTab::Devices, KeyCode::Right, KeyKind::Press), (DialogReturn::Consumed, Some(DialogMove::ToFarewell)));
    assert_eq!(dialog_key(DialogTab::Farewell, KeyCode::Left, KeyKind::Press), (DialogReturn::Consumed, Some(DialogMove::ToDevices)));
    assert_eq!(dialog_key(DialogTab::Farewell, KeyCode::Up, KeyKind::Press), (DialogReturn::Continue, None));
    assert_eq!(dialog_key(DialogTab::Devices, KeyCode::Up, KeyKind::Release), (DialogReturn::Continue, None));
    assert_eq!(dialog_key(DialogTab::Devices, KeyCode::Esc, KeyKind::Press), (DialogReturn::Escape, None));
    assert_eq!(dialog_key(DialogTab::Devices, KeyCode::Esc, KeyKind::Repeat), (DialogReturn::Continue, None));
}

#[test]
fn escape_closes_the_dialog_before_quitting() {
    assert_eq!(screen_key(true, DialogTab::Hosts, KeyCode::Esc, KeyKind::Press), KeyOutcome { dialog: None, dialog_open: false, quit: false });
    assert_eq!(screen_key(false, DialogTab::Hosts, KeyCode::Esc, KeyKind::Press), KeyOutcome { dialog: None, dialog_open: false, quit: true });
    assert_eq!(screen_key(false, DialogTab::Hosts, KeyCode::Backtick, KeyKind::Press), KeyOutcome { dialog: None, dialog_open: true, quit: false });
    assert_eq!(screen_key(true, DialogTab::Hosts, KeyCode::Down, KeyKind::Press), KeyOutcome { dialog: Some(DialogMove::HostsDown), dialog_open: true, quit: false });
    // a key the dialog leaves still reaches the screen
    assert_eq!(screen_key(true, DialogTab::Farewell, KeyCode::Backtick, KeyKind::Press), KeyOutcome { dialog: None, dialog_open: true, quit: false });
    assert_eq!(screen_key(false, DialogTab::Hosts, KeyCode::Esc, KeyKind::Release), KeyOutcome { dialog: None, dialog_open: false, quit: false });
}

#[test]
fn instrument_text_is_read_and_scanned() {
    let xml = b"<?xml version=\"1.0\"?>\n<Instrument>\n  <Samples>\n    <Sample>\n      <Name> Amen </Name>\n      <BeatSyncLines>4</BeatSyncLines>\n      <SliceMarkers>\n        <SliceMarker><SamplePosition>7</SamplePosition></SliceMarker>\n        <SliceMarker><SamplePosition>900</SamplePosition></SliceMarker>\n      </SliceMarkers>\n    </Sample>\n  </Samples>\n  <Broken";
    let scan = scan_instrument(xml).unwrap().unwrap();
    assert_eq!(scan.sample_index, 1);
    // text is trimmed by the reader
    assert_eq!(scan.sample_name, "Amen");
    assert_eq!(scan.beat_sync_lines, 4);
    assert_eq!(scan.sample_positions, vec![7, 900]);
}

#[test]
fn malformed_instrument_text_fails_where_the_scan_reads_it() {
    let xml = b"<Instrument><Samples><Sample><Name>x</Nme></Sample></Samples></Instrument>";
    assert_eq!(scan_instrument(xml).unwrap().err(), Some(ScanError::BadXml));
    let xml = b"<Instrument><Samples><Sample><BeatSyncLines>4x</BeatSyncLines>";
    assert_eq!(scan_instrument(xml).unwrap().err(), Some(ScanError::BadNumber));
}

#[test]
fn events_that_end_without_a_stop_leave_the_scan_as_it_is() {
    let scan = scan_events(&[start("Sample"), start("Name"), text("n")], false).unwrap();
    assert_eq!(scan.sample_name, "n");
    assert_eq!(scan.sample_index, 1);
    assert_eq!(scan_events(&[start("Sample")], true).err(), Some(ScanError::BadXml));
    // a stop before the failure of the reader is a success
    assert!(scan_events(&[end("Samples")], true).is_ok());
}

/// A FLAC stream of one block of `samples`, 16 bits, mono, stored verbatim.
fn flac_of(samples: &[i16], bits: u8) -> Vec<u8> {
    let n = samples.len() as u32;
    let mut out = b"fLaC".to_vec();
    // STREAMINFO, last metadata block, 34 bytes
    out.extend_from_slice(&[0x80, 0, 0, 34]);
    out.extend_from_slice(&(n as u16).to_be_bytes());
    out.extend_from_slice(&(n as u16).to_be_bytes());
    out.extend_from_slice(&[0, 0, 0, 0, 0, 0]);
    // sample rate 44100 (20 bits), channels - 1 (3 bits), bits - 1 (5 bits), total samples (36 bits)
    let rate: u64 = 44100;
    let packed: u64 = (rate << 44) | (0u64 << 41) | (((bits - 1) as u64) << 36) | n as u64;
    out.extend_from_slice(&packed.to_be_bytes());
    out.extend_from_slice(&[0u8; 16]);
    // frame header
    let mut frame = vec![0xFF, 0xF8];
    // block size from end of header (16 bits), sample rate from streaminfo
    frame.push(0x70);
    // mono, 16 bits per sample
    frame.push(0x08);
    // frame number 0
    frame.push(0x00);
    frame.extend_from_slice(&((n - 1) as u16).to_be_bytes());
    frame.push(crc8(&frame));
    // verbatim subframe
    frame.push(0x02);
    for s in samples {
        frame.extend_from_slice(&s.to_be_bytes());
    }
    let crc = crc16(&frame);
    frame.extend_from_slice(&crc.to_be_bytes());
    out.extend_from_slice(&frame);
    out
}

fn crc8(data: &[u8]) -> u8 {
    let mut crc: u8 = 0;
    for &b in data {
        crc ^= b;
        for _ in 0..8 {
            crc = if crc & 0x80 != 0 { (crc << 1) ^ 0x07 } else { crc << 1 };
        }
    }
    crc
}

fn crc16(data: &[u8]) -> u16 {
    let mut crc: u16 = 0;
    for &b in data {
        crc ^= (b as u16) << 8;
        for _ in 0..8 {
            crc = if crc & 0x8000 != 0 { (crc << 1) ^ 0x8005 } else { crc << 1 };
        }
    }
    crc
}

#[test]
fn flac_samples_come_out_as_sixteen_bit_mono() {
    let samples = [0i16, 1, -1, 1000, -32768, 32767, 12, 13, 14, 15, 16, 17, 18, 19, 20, 21];
    let (rate, out) = decode_flac(&flac_of(&samples, 16)).unwrap();
    assert_eq!(rate, 44100);
    assert_eq!(out, samples.to_vec());
}

#[test]
fn flac_that_is_not_sixteen_bits_or_does_not_decode_is_refused() {
    assert_eq!(decode_flac(b"not a flac stream").err(), Some(FlacError::Decode));
    let samples = [1i16; 16];
    assert_eq!(decode_flac(&flac_of(&samples, 24)).err(), Some(FlacError::NotSixteenBits));
    let mut broken = flac_of(&samples, 16);
    let last = broken.len() - 1;
    broken[last] ^= 0xFF;
    assert_eq!(decode_flac(&broken).err(), Some(FlacError::Decode));
}
