use std::collections::HashMap;
use ttcore::fs::{read_wav_layout, Error, FileHandler, ReadExactError, SeekFrom};

struct MemFile {
    data: Vec<u8>,
    cursor: u64,
}

#[derive(Default)]
struct MemFs {
    files: HashMap<String, Vec<u8>>,
    closed: usize,
    chunk: usize,
}

impl FileHandler for MemFs {
    type Error = String;
    type File = MemFile;

    fn open(&mut self, path: &str) -> Result<MemFile, String> {
        match self.files.get(path) {
            Some(d) => Ok(MemFile { data: d.clone(), cursor: 0 }),
            None => Err(format!("no file {}", path)),
        }
    }

    fn try_clone(&mut self, file: &MemFile) -> Result<MemFile, String> {
        Ok(MemFile { data: file.data.clone(), cursor: file.cursor })
    }

    fn close(&mut self, _file: &MemFile) -> Result<(), String> {
        self.closed += 1;
        Ok(())
    }

    fn read(&mut self, file: &mut MemFile, buf: &mut [u8]) -> Result<usize, String> {
        let pos = file.cursor as usize;
        if pos >= file.data.len() {
            return Ok(0);
        }
        let mut n = (file.data.len() - pos).min(buf.len());
        if self.chunk > 0 {
            n = n.min(self.chunk);
        }
        buf[..n].copy_from_slice(&file.data[pos..pos + n]);
        file.cursor += n as u64;
        Ok(n)
    }

    fn seek(&mut self, file: &mut MemFile, pos: SeekFrom) -> Result<u64, String> {
        let target: i128 = match pos {
            SeekFrom::Start(s) => s as i128,
            SeekFrom::End(d) => file.data.len() as i128 + d as i128,
            SeekFrom::Current(d) => file.cursor as i128 + d as i128,
        };
        if target < 0 || target > u64::MAX as i128 {
            return Err("bad seek".to_string());
        }
        file.cursor = target as u64;
        Ok(file.cursor)
    }
}

fn chunk(tag: &[u8; 4], body: &[u8]) -> Vec<u8> {
    let mut v = tag.to_vec();
    v.extend_from_slice(&(body.len() as u32).to_le_bytes());
    v.extend_from_slice(body);
    v
}

fn fmt_body(format: u16, channels: u16, rate: u32, bits: u16) -> Vec<u8> {
    let mut v = Vec::new();
    v.extend_from_slice(&format.to_le_bytes());
    v.extend_from_slice(&channels.to_le_bytes());
    v.extend_from_slice(&rate.to_le_bytes());
    v.extend_from_slice(&(rate * 2).to_le_bytes());
    v.extend_from_slice(&2u16.to_le_bytes());
    v.extend_from_slice(&bits.to_le_bytes());
    v
}

fn wav(rate: u32, samples: &[u8]) -> Vec<u8> {
    let mut v = b"RIFF".to_vec();
    v.extend_from_slice(&0u32.to_le_bytes());
    v.extend_from_slice(b"WAVE");
    v.extend(chunk(b"fmt ", &fmt_body(1, 1, rate, 16)));
    v.extend(chunk(b"LIST", b"abcd"));
    v.extend(chunk(b"data", samples));
    v
}

#[test]
fn wav_layout_of_plain_file() {
    let mut fs = MemFs::default();
    let data = wav(48000, &[1, 2, 3, 4]);
    fs.files.insert("a.wav".to_string(), data);
    let mut f = fs.open("a.wav").unwrap();
    let l = read_wav_layout(&mut fs, &mut f).ok().unwrap();
    assert_eq!(l.sample_rate, 48000);
    // 12 (RIFF) + 24 (fmt) + 12 (LIST) + 8 (data header)
    assert_eq!(l.pcm_start, 56);
    assert_eq!(l.pcm_len, 4);
}

#[test]
fn wav_layout_with_short_reads() {
    let mut fs = MemFs { chunk: 3, ..Default::default() };
    fs.files.insert("a.wav".to_string(), wav(22050, &[9; 10]));
    let mut f = fs.open("a.wav").unwrap();
    let l = read_wav_layout(&mut fs, &mut f).ok().unwrap();
    assert_eq!(l.sample_rate, 22050);
    assert_eq!(l.pcm_len, 10);
}

#[test]
fn wav_not_wave_is_bad_format() {
    let mut fs = MemFs::default();
    let mut data = wav(48000, &[1, 2]);
    data[8..12].copy_from_slice(b"AVI ");
    fs.files.insert("a.wav".to_string(), data);
    let mut f = fs.open("a.wav").unwrap();
    assert!(matches!(read_wav_layout(&mut fs, &mut f), Err(Error::BadFormat)));
}

#[test]
fn wav_stereo_is_bad_format() {
    let mut fs = MemFs::default();
    let mut v = b"RIFF".to_vec();
    v.extend_from_slice(&0u32.to_le_bytes());
    v.extend_from_slice(b"WAVE");
    v.extend(chunk(b"fmt ", &fmt_body(1, 2, 48000, 16)));
    v.extend(chunk(b"data", &[0; 4]));
    fs.files.insert("a.wav".to_string(), v);
    let mut f = fs.open("a.wav").unwrap();
    assert!(matches!(read_wav_layout(&mut fs, &mut f), Err(Error::BadFormat)));
}

#[test]
fn wav_fmt_of_wrong_size_is_bad_format() {
    let mut fs = MemFs::default();
    let mut v = b"RIFF".to_vec();
    v.extend_from_slice(&0u32.to_le_bytes());
    v.extend_from_slice(b"WAVE");
    let mut body = fmt_body(1, 1, 48000, 16);
    body.extend_from_slice(&[0, 0]);
    v.extend(chunk(b"fmt ", &body));
    fs.files.insert("a.wav".to_string(), v);
    let mut f = fs.open("a.wav").unwrap();
    assert!(matches!(read_wav_layout(&mut fs, &mut f), Err(Error::BadFormat)));
}

#[test]
fn wav_without_data_is_data_not_found() {
    let mut fs = MemFs::default();
    let mut v = b"RIFF".to_vec();
    v.extend_from_slice(&0u32.to_le_bytes());
    v.extend_from_slice(b"WAVE");
    v.extend(chunk(b"fmt ", &fmt_body(1, 1, 48000, 16)));
    fs.files.insert("a.wav".to_string(), v);
    let mut f = fs.open("a.wav").unwrap();
    assert!(matches!(read_wav_layout(&mut fs, &mut f), Err(Error::DataNotFound)));
}

#[test]
fn read_exact_fills_and_reports_eof() {
    let mut fs = MemFs { chunk: 2, ..Default::default() };
    fs.files.insert("x".to_string(), vec![1, 2, 3, 4, 5]);
    let mut f = fs.open("x").unwrap();
    let mut buf = [0u8; 4];
    assert!(fs.read_exact(&mut f, &mut buf).is_ok());
    assert_eq!(buf, [1, 2, 3, 4]);
    let mut buf = [0u8; 4];
    assert!(matches!(fs.read_exact(&mut f, &mut buf), Err(ReadExactError::UnexpectedEof)));
    assert_eq!(fs.stream_position(&mut f).unwrap(), 5);
}

fn opened(fs: &mut MemFs, samples: &[u8]) -> ttcore::signal::Onset<MemFs> {
    fs.files.insert("s.wav".to_string(), wav(48000, samples));
    let onset = ttcore::state::Onset { path: "s.wav".to_string(), onset_start: Some(3), beat_count: 2 };
    onset.open(None, fs).ok().unwrap()
}

#[test]
fn open_reads_layout_and_keeps_fields() {
    let mut fs = MemFs::default();
    let o = opened(&mut fs, &[1, 2, 3, 4, 5, 6]);
    assert_eq!(o.path, "s.wav");
    assert_eq!(o.onset_start, Some(3));
    assert_eq!(o.beat_count, 2);
    assert_eq!(o.pcm_start, 56);
    assert_eq!(o.pcm_len, 6);
    assert_eq!(o.sample_rate, 48000);
}

#[test]
fn open_same_path_reuses_handle() {
    let mut fs = MemFs::default();
    let mut o = opened(&mut fs, &[1, 2, 3, 4]);
    o.seek(2, &mut fs).ok().unwrap();
    let again = ttcore::state::Onset { path: "s.wav".to_string(), onset_start: None, beat_count: 9 };
    let r = again.open(Some(o), &mut fs).ok().unwrap();
    assert_eq!(r.onset_start, None);
    // the handle, its cursor and the other fields are kept
    assert_eq!(r.beat_count, 2);
    assert_eq!(r.file.cursor, 58);
    assert_eq!(fs.closed, 0);
}

#[test]
fn open_other_path_closes_old_handle() {
    let mut fs = MemFs::default();
    let o = opened(&mut fs, &[1, 2, 3, 4]);
    fs.files.insert("t.wav".to_string(), wav(44100, &[7, 7]));
    let other = ttcore::state::Onset { path: "t.wav".to_string(), onset_start: None, beat_count: 1 };
    let r = other.open(Some(o), &mut fs).ok().unwrap();
    assert_eq!(fs.closed, 1);
    assert_eq!(r.sample_rate, 44100);
    assert_eq!(r.pcm_len, 2);
}

#[test]
fn open_missing_file_is_other_error() {
    let mut fs = MemFs::default();
    let onset = ttcore::state::Onset { path: "none.wav".to_string(), onset_start: None, beat_count: 1 };
    assert!(matches!(onset.open(None, &mut fs), Err(Error::Other(_))));
}

#[test]
fn seek_wraps_into_block() {
    let mut fs = MemFs::default();
    let mut o = opened(&mut fs, &[1, 2, 3, 4, 5, 6]);
    o.seek(-1, &mut fs).ok().unwrap();
    assert_eq!(o.pos(&mut fs).ok().unwrap(), 5);
    o.seek(13, &mut fs).ok().unwrap();
    assert_eq!(o.pos(&mut fs).ok().unwrap(), 1);
}

#[test]
fn read_loops_over_block() {
    let mut fs = MemFs { chunk: 4, ..Default::default() };
    let mut o = opened(&mut fs, &[1, 2, 3, 4, 5]);
    o.seek(3, &mut fs).ok().unwrap();
    let mut buf = [0u8; 9];
    o.read(&mut buf, &mut fs).ok().unwrap();
    assert_eq!(buf, [4, 5, 1, 2, 3, 4, 5, 1, 2]);
    assert_eq!(o.pos(&mut fs).ok().unwrap(), 2);
}

#[test]
fn reads_continue_where_they_left_off() {
    let mut fs = MemFs::default();
    let mut a = opened(&mut fs, &[10, 20, 30]);
    let mut first = [0u8; 2];
    let mut second = [0u8; 3];
    a.read(&mut first, &mut fs).ok().unwrap();
    a.read(&mut second, &mut fs).ok().unwrap();
    let mut b = opened(&mut fs, &[10, 20, 30]);
    let mut whole = [0u8; 5];
    b.read(&mut whole, &mut fs).ok().unwrap();
    assert_eq!([first[0], first[1], second[0], second[1], second[2]], whole);
    assert_eq!(a.pos(&mut fs).ok().unwrap(), b.pos(&mut fs).ok().unwrap());
}

#[test]
fn read_at_end_of_block_stays_until_more_is_read() {
    let mut fs = MemFs::default();
    let mut o = opened(&mut fs, &[1, 2, 3]);
    let mut buf = [0u8; 3];
    o.read(&mut buf, &mut fs).ok().unwrap();
    assert_eq!(o.pos(&mut fs).ok().unwrap(), 3);
    let mut none = [0u8; 0];
    o.read(&mut none, &mut fs).ok().unwrap();
    assert_eq!(o.pos(&mut fs).ok().unwrap(), 3);
}

fn modded(inner: Option<ttcore::state::OnsetEvent<ttcore::state::Onset>>, reverse: bool) -> ttcore::state::Event {
    let mut mods = ttcore::state::Mods::new();
    mods.reverse = reverse;
    ttcore::state::Modded { inner, mods }
}

type Playing = ttcore::state::OnsetEvent<ttcore::state::Modded<ttcore::signal::Onset<MemFs>>>;

fn playing_hold(fs: &mut MemFs, tick: i32, onset_start: Option<u32>) -> Playing {
    let mut o = opened(fs, &[0; 8]);
    o.onset_start = onset_start;
    ttcore::state::OnsetEvent::Hold { tick, onset: ttcore::state::Modded { inner: o, mods: ttcore::state::Mods::new() }, index: 2 }
}

#[test]
fn event_tick_steps_hold() {
    let mut fs = MemFs::default();
    let e = playing_hold(&mut fs, 3, Some(0));
    match e.tick(&modded(None, false), 4, &mut fs).ok().unwrap() {
        ttcore::state::OnsetEvent::Hold { tick, index, .. } => {
            assert_eq!(tick, 4);
            assert_eq!(index, 2);
        }
        _ => panic!("expected a hold"),
    }
    let e = playing_hold(&mut fs, 3, Some(0));
    match e.tick(&modded(None, true), 4, &mut fs).ok().unwrap() {
        ttcore::state::OnsetEvent::Hold { tick, onset, .. } => {
            assert_eq!(tick, 2);
            assert!(onset.mods.reverse);
        }
        _ => panic!("expected a hold"),
    }
}

#[test]
fn event_tick_stops_unsliced_hold_past_its_beats() {
    let mut fs = MemFs::default();
    // beat_count 2 * 4 ticks per beat: ticks 0..8
    let e = playing_hold(&mut fs, 7, None);
    assert!(matches!(e.tick(&modded(None, false), 4, &mut fs).ok().unwrap(), ttcore::state::OnsetEvent::Stop));
    let e = playing_hold(&mut fs, 6, None);
    assert!(matches!(e.tick(&modded(None, false), 4, &mut fs).ok().unwrap(), ttcore::state::OnsetEvent::Hold { tick: 7, .. }));
}

#[test]
fn event_tick_wraps_sliced_loop() {
    let mut fs = MemFs::default();
    let o = opened(&mut fs, &[0; 8]);
    let e: Playing = ttcore::state::OnsetEvent::Loop { tick: 0, onset: ttcore::state::Modded { inner: o, mods: ttcore::state::Mods::new() }, index: 1, len: 5 };
    match e.tick(&modded(None, true), 4, &mut fs).ok().unwrap() {
        ttcore::state::OnsetEvent::Loop { tick, len, .. } => {
            assert_eq!(tick, 4);
            assert_eq!(len, 5);
        }
        _ => panic!("expected a loop"),
    }
}

#[test]
fn event_tick_carried_stop_closes() {
    let mut fs = MemFs::default();
    let e = playing_hold(&mut fs, 1, Some(0));
    let r = e.tick(&modded(Some(ttcore::state::OnsetEvent::Stop), false), 4, &mut fs).ok().unwrap();
    assert!(matches!(r, ttcore::state::OnsetEvent::Stop));
    assert_eq!(fs.closed, 1);
}

#[test]
fn event_tick_carried_loop_opens_and_wraps_tick() {
    let mut fs = MemFs::default();
    fs.files.insert("u.wav".to_string(), wav(8000, &[5; 6]));
    let target = ttcore::state::Onset { path: "u.wav".to_string(), onset_start: Some(1), beat_count: 1 };
    let to = modded(Some(ttcore::state::OnsetEvent::Loop { tick: -1, onset: target, index: 4, len: 3 }), false);
    let stopped: Playing = ttcore::state::OnsetEvent::Stop;
    let r = stopped.tick(&to, 4, &mut fs).ok().unwrap();
    match r {
        ttcore::state::OnsetEvent::Loop { tick, onset, index, len } => {
            assert_eq!(tick, 2);
            assert_eq!(index, 4);
            assert_eq!(len, 3);
            assert_eq!(onset.inner.sample_rate, 8000);
            assert_eq!(onset.inner.pcm_len, 6);
        }
        _ => panic!("expected a loop"),
    }
}
