use ttcore::fs::{read_wav_layout, FileHandler, ReadExactError, SeekFrom};
use ttcore::memory::{MemoryError, MemoryFiles};

fn wav(rate: u32, samples: &[u8]) -> Vec<u8> {
    let mut v = b"RIFF".to_vec();
    v.extend_from_slice(&0u32.to_le_bytes());
    v.extend_from_slice(b"WAVE");
    v.extend_from_slice(b"fmt ");
    v.extend_from_slice(&16u32.to_le_bytes());
    v.extend_from_slice(&1u16.to_le_bytes());
    v.extend_from_slice(&1u16.to_le_bytes());
    v.extend_from_slice(&rate.to_le_bytes());
    v.extend_from_slice(&(rate * 2).to_le_bytes());
    v.extend_from_slice(&2u16.to_le_bytes());
    v.extend_from_slice(&16u16.to_le_bytes());
    v.extend_from_slice(b"data");
    v.extend_from_slice(&(samples.len() as u32).to_le_bytes());
    v.extend_from_slice(samples);
    v
}

#[test]
fn memory_files_read_and_seek() {
    let mut fs = MemoryFiles::new();
    fs.add("a", vec![1, 2, 3, 4, 5]);
    let mut f = fs.open("a").ok().unwrap();
    let mut buf = [0u8; 3];
    assert_eq!(fs.read(&mut f, &mut buf).ok(), Some(3));
    assert_eq!(buf, [1, 2, 3]);
    assert_eq!(fs.read(&mut f, &mut buf).ok(), Some(2));
    assert_eq!(&buf[..2], &[4, 5]);
    assert_eq!(fs.read(&mut f, &mut buf).ok(), Some(0));
    assert_eq!(fs.seek(&mut f, SeekFrom::End(-4)).ok(), Some(1));
    assert_eq!(fs.stream_position(&mut f).ok(), Some(1));
    assert_eq!(fs.seek(&mut f, SeekFrom::Current(-2)).err(), Some(MemoryError::BadSeek));
    assert_eq!(fs.seek(&mut f, SeekFrom::Start(10)).ok(), Some(10));
    assert_eq!(fs.read(&mut f, &mut buf).ok(), Some(0));
    assert!(fs.close(&f).is_ok());
}

#[test]
fn memory_files_later_file_hides_earlier_and_missing_is_not_found() {
    let mut fs = MemoryFiles::new();
    fs.add("a", vec![1]);
    fs.add("a", vec![7, 8]);
    let mut f = fs.open("a").ok().unwrap();
    let mut g = fs.try_clone(&f).ok().unwrap();
    let mut buf = [0u8; 2];
    assert!(fs.read_exact(&mut f, &mut buf).is_ok());
    assert_eq!(buf, [7, 8]);
    assert!(matches!(fs.read_exact(&mut f, &mut buf), Err(ReadExactError::UnexpectedEof)));
    // the clone has a cursor of its own
    assert!(fs.read_exact(&mut g, &mut buf).is_ok());
    assert_eq!(buf, [7, 8]);
    assert_eq!(fs.open("b").err(), Some(MemoryError::NotFound));
}

#[test]
fn memory_files_serve_the_wav_scan() {
    let mut fs = MemoryFiles::new();
    fs.add("s.wav", wav(44100, &[1, 2, 3, 4, 5, 6]));
    let mut f = fs.open("s.wav").ok().unwrap();
    let l = read_wav_layout(&mut fs, &mut f).ok().unwrap();
    assert_eq!(l.sample_rate, 44100);
    assert_eq!(l.pcm_start, 44);
    assert_eq!(l.pcm_len, 6);
}
