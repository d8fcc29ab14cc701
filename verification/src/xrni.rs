use vstd::prelude::*;
use vstd::utf8::encode_utf8;
use crate::state::Onset;
use quick_xml::events::Event;

verus! {

/// `true` for the ASCII digits `0` to `9`.
pub open spec fn is_digit(b: u8) -> bool {
    48 <= b <= 57
}

/// The number that the decimal digits `s` spell.
pub open spec fn digits_value(s: Seq<u8>) -> nat
    decreases s.len(),
{
    if s.len() == 0 {
        0
    } else {
        digits_value(s.drop_last()) * 10 + (s.last() - 48) as nat
    }
}

/// The digits of an unsigned number: the text after an optional leading `+`.
pub open spec fn unsigned_digits(s: Seq<u8>) -> Seq<u8> {
    if s.len() > 0 && s[0] == 43 {
        s.drop_first()
    } else {
        s
    }
}

/// The unsigned number the text `s` spells, if it is one no greater than `max`: an
/// optional `+` and then one or more decimal digits, as the standard library reads it.
pub open spec fn parsed_unsigned(s: Seq<u8>, max: nat) -> Option<nat> {
    let d = unsigned_digits(s);
    if d.len() > 0 && (forall|i: int| 0 <= i < d.len() ==> #[trigger] is_digit(d[i])) && digits_value(d) <= max {
        Some(digits_value(d))
    } else {
        None
    }
}

/// More digits never make a smaller number.
proof fn lemma_digits_grow(s: Seq<u8>, j: int)
    requires
        0 <= j <= s.len(),
        forall|i: int| 0 <= i < s.len() ==> #[trigger] is_digit(s[i]),
    ensures
        digits_value(s.subrange(0, j)) <= digits_value(s),
    decreases s.len(),
{
    if j < s.len() {
        let t = s.drop_last();
        assert forall|i: int| 0 <= i < t.len() implies #[trigger] is_digit(t[i]) by {
            assert(t[i] == s[i]);
        }
        lemma_digits_grow(t, j);
        assert(t.subrange(0, j) =~= s.subrange(0, j));
    } else {
        assert(s.subrange(0, j) =~= s);
    }
}

/// Reads an unsigned decimal number no greater than `max` from `bytes`.
pub fn parse_unsigned(bytes: &[u8], max: u64) -> (r: Option<u64>)
    ensures
        r == match parsed_unsigned(bytes@, max as nat) {
            Some(v) => Some(v as u64),
            None => None::<u64>,
        },
{
    let len = bytes.len();
    let start: usize = if len > 0 && bytes[0] == 43u8 { 1 } else { 0 };
    let ghost d = unsigned_digits(bytes@);
    proof {
        assert(d =~= bytes@.subrange(start as int, len as int));
    }
    if start == len {
        return None;
    }
    let mut acc: u64 = 0;
    let mut i: usize = start;
    while i < len
        invariant
            start <= i <= len,
            len == bytes@.len(),
            d == bytes@.subrange(start as int, len as int),
            d == unsigned_digits(bytes@),
            forall|k: int| start <= k < i ==> #[trigger] is_digit(bytes@[k]),
            acc == digits_value(bytes@.subrange(start as int, i as int)),
            acc <= max,
        decreases len - i,
    {
        let b = bytes[i];
        if b < 48u8 || b > 57u8 {
            proof {
                assert(d[i - start] == b);
                assert(!is_digit(d[i - start]));
            }
            return None;
        }
        let next: u128 = acc as u128 * 10 + (b - 48u8) as u128;
        proof {
            let s = bytes@.subrange(start as int, i + 1);
            assert(s.drop_last() =~= bytes@.subrange(start as int, i as int));
            assert(s.last() == b);
            assert(next == digits_value(s));
        }
        if next > max as u128 {
            proof {
                if forall|k: int| 0 <= k < d.len() ==> #[trigger] is_digit(d[k]) {
                    lemma_digits_grow(d, i + 1 - start);
                    assert(d.subrange(0, i + 1 - start) =~= bytes@.subrange(start as int, i + 1));
                }
            }
            return None;
        }
        acc = next as u64;
        i = i + 1;
    }
    proof {
        assert(bytes@.subrange(start as int, i as int) =~= d);
        assert forall|k: int| 0 <= k < d.len() implies #[trigger] is_digit(d[k]) by {
            assert(d[k] == bytes@[start + k]);
        }
    }
    Some(acc)
}

/// An event of an instrument description as the XML reader reports it: element names as
/// raw bytes, text decoded.
pub enum XmlEvent {
    Start(Vec<u8>),
    End(Vec<u8>),
    Text(String),
    Eof,
    Other,
}

/// An event of an instrument description, by value.
pub enum EventModel {
    Start(Seq<u8>),
    End(Seq<u8>),
    Text(Seq<char>),
    Eof,
    Other,
}

impl View for XmlEvent {
    type V = EventModel;

    open spec fn view(&self) -> EventModel {
        match self {
            XmlEvent::Start(n) => EventModel::Start(n@),
            XmlEvent::End(n) => EventModel::End(n@),
            XmlEvent::Text(t) => EventModel::Text(t@),
            XmlEvent::Eof => EventModel::Eof,
            XmlEvent::Other => EventModel::Other,
        }
    }
}

/// The text that the element just begun asks to be read next.
#[derive(Copy, Clone, PartialEq, Eq, Structural, Debug)]
pub enum Awaiting {
    Nothing,
    Name,
    BeatSyncLines,
    SamplePosition,
}

/// A number in the description that is not one.
#[derive(Copy, Clone, PartialEq, Eq, Structural, Debug)]
pub enum ScanError {
    BadNumber,
    /// The description is not well-formed XML where the scan reads it.
    BadXml,
}

/// What a scan of an instrument description has found so far: the number of samples, and
/// the name, beat length and slice positions of the last one.
pub struct InstrumentScan {
    /// Inside a `Sample` element; a scan starts as if it were.
    pub in_sample: bool,
    pub awaiting: Awaiting,
    /// Number of `Sample` elements begun.
    pub sample_index: i32,
    pub sample_name: String,
    pub beat_sync_lines: u16,
    pub sample_positions: Vec<u64>,
}

/// A scan, by value.
pub struct ScanModel {
    pub in_sample: bool,
    pub awaiting: Awaiting,
    pub sample_index: i32,
    pub sample_name: Seq<char>,
    pub beat_sync_lines: u16,
    pub sample_positions: Seq<u64>,
}

impl View for InstrumentScan {
    type V = ScanModel;

    open spec fn view(&self) -> ScanModel {
        ScanModel {
            in_sample: self.in_sample,
            awaiting: self.awaiting,
            sample_index: self.sample_index,
            sample_name: self.sample_name@,
            beat_sync_lines: self.beat_sync_lines,
            sample_positions: self.sample_positions@,
        }
    }
}

pub open spec fn sample_tag() -> Seq<u8> {
    seq![83u8, 97u8, 109u8, 112u8, 108u8, 101u8]
}

pub open spec fn samples_tag() -> Seq<u8> {
    seq![83u8, 97u8, 109u8, 112u8, 108u8, 101u8, 115u8]
}

pub open spec fn name_tag() -> Seq<u8> {
    seq![78u8, 97u8, 109u8, 101u8]
}

pub open spec fn beat_sync_lines_tag() -> Seq<u8> {
    seq![66u8, 101u8, 97u8, 116u8, 83u8, 121u8, 110u8, 99u8, 76u8, 105u8, 110u8, 101u8, 115u8]
}

pub open spec fn sample_position_tag() -> Seq<u8> {
    seq![83u8, 97u8, 109u8, 112u8, 108u8, 101u8, 80u8, 111u8, 115u8, 105u8, 116u8, 105u8, 111u8, 110u8]
}

pub open spec fn slice_markers_tag() -> Seq<u8> {
    seq![83u8, 108u8, 105u8, 99u8, 101u8, 77u8, 97u8, 114u8, 107u8, 101u8, 114u8, 115u8]
}

/// The scan after the text awaited was read as `t`.
pub open spec fn read_awaited(s: ScanModel, t: Seq<char>) -> (ScanModel, Result<bool, ScanError>) {
    let s1 = ScanModel { awaiting: Awaiting::Nothing, ..s };
    match s.awaiting {
        Awaiting::Name => (ScanModel { sample_name: t, ..s1 }, Ok(true)),
        Awaiting::BeatSyncLines => match parsed_unsigned(encode_utf8(t), u16::MAX as nat) {
            Some(v) => (ScanModel { beat_sync_lines: v as u16, ..s1 }, Ok(true)),
            None => (s1, Err(ScanError::BadNumber)),
        },
        Awaiting::SamplePosition => match parsed_unsigned(encode_utf8(t), u64::MAX as nat) {
            Some(v) => (ScanModel { sample_positions: s.sample_positions.push(v as u64), ..s1 }, Ok(true)),
            None => (s1, Err(ScanError::BadNumber)),
        },
        Awaiting::Nothing => (s1, Ok(true)),
    }
}

/// The scan after event `e`, and whether to go on: `Ok(false)` once the samples or the
/// slice markers end, or the description does.
///
/// The event after the start of a `Name` inside a sample, a `BeatSyncLines` or a
/// `SamplePosition` is taken as that element's text when it is text, and passed over
/// otherwise. A `Sample` begins a sample; ending one leaves it, and ending a `Name` or a
/// `SamplePosition` counts as being inside one again.
pub open spec fn scan_step(s: ScanModel, e: EventModel) -> (ScanModel, Result<bool, ScanError>) {
    if s.awaiting != Awaiting::Nothing {
        match e {
            EventModel::Text(t) => read_awaited(s, t),
            _ => (ScanModel { awaiting: Awaiting::Nothing, ..s }, Ok(true)),
        }
    } else {
        match e {
            EventModel::Start(n) => if n == sample_tag() {
                (ScanModel { sample_index: (s.sample_index + 1) as i32, in_sample: true, ..s }, Ok(true))
            } else if n == name_tag() && s.in_sample {
                (ScanModel { awaiting: Awaiting::Name, ..s }, Ok(true))
            } else if n == beat_sync_lines_tag() {
                (ScanModel { awaiting: Awaiting::BeatSyncLines, ..s }, Ok(true))
            } else if n == sample_position_tag() {
                (ScanModel { awaiting: Awaiting::SamplePosition, ..s }, Ok(true))
            } else {
                (s, Ok(true))
            },
            EventModel::End(n) => if n == samples_tag() || n == slice_markers_tag() {
                (s, Ok(false))
            } else if n == sample_tag() {
                (ScanModel { in_sample: false, ..s }, Ok(true))
            } else if n == name_tag() || n == sample_position_tag() {
                (ScanModel { in_sample: true, ..s }, Ok(true))
            } else {
                (s, Ok(true))
            },
            EventModel::Eof => (s, Ok(false)),
            _ => (s, Ok(true)),
        }
    }
}

/// Counting one more sample stays in range.
pub open spec fn scan_step_ok(s: ScanModel, e: EventModel) -> bool {
    s.awaiting == Awaiting::Nothing ==> (e matches EventModel::Start(n) ==> (n == sample_tag() ==> s.sample_index < i32::MAX))
}

/// `true` when `a` and `b` hold the same bytes.
fn same_bytes(a: &[u8], b: &[u8]) -> (r: bool)
    ensures
        r == (a@ == b@),
{
    if a.len() != b.len() {
        return false;
    }
    let mut i: usize = 0;
    while i < a.len()
        invariant
            a@.len() == b@.len(),
            i <= a@.len(),
            forall|k: int| 0 <= k < i ==> a@[k] == b@[k],
        decreases a@.len() - i,
    {
        if a[i] != b[i] {
            return false;
        }
        i = i + 1;
    }
    assert(a@ =~= b@);
    true
}

impl InstrumentScan {
    /// A scan of nothing yet.
    pub fn new() -> (s: Self)
        ensures
            s@ == fresh_scan(),
    {
        InstrumentScan {
            in_sample: true,
            awaiting: Awaiting::Nothing,
            sample_index: 0,
            sample_name: String::new(),
            beat_sync_lines: 0,
            sample_positions: Vec::new(),
        }
    }

    /// Takes in the next event of the description; returns whether to read on.
    pub fn step(&mut self, e: &XmlEvent) -> (r: Result<bool, ScanError>)
        requires
            scan_step_ok(old(self)@, e@),
        ensures
            final(self)@ == scan_step(old(self)@, e@).0,
            r == scan_step(old(self)@, e@).1,
    {
        if self.awaiting != Awaiting::Nothing {
            let awaiting = self.awaiting;
            self.awaiting = Awaiting::Nothing;
            if let XmlEvent::Text(t) = e {
                match awaiting {
                    Awaiting::Name => {
                        self.sample_name = t.clone();
                    },
                    Awaiting::BeatSyncLines => {
                        match parse_unsigned(t.as_str().as_bytes(), 0xffff) {
                            Some(v) => {
                                self.beat_sync_lines = v as u16;
                            },
                            None => {
                                return Err(ScanError::BadNumber);
                            },
                        }
                    },
                    Awaiting::SamplePosition => {
                        match parse_unsigned(t.as_str().as_bytes(), 0xffff_ffff_ffff_ffff) {
                            Some(v) => {
                                self.sample_positions.push(v);
                            },
                            None => {
                                return Err(ScanError::BadNumber);
                            },
                        }
                    },
                    Awaiting::Nothing => {},
                }
            }
            return Ok(true);
        }
        match e {
            XmlEvent::Start(n) => {
                let s: [u8; 6] = [83, 97, 109, 112, 108, 101];
                let nm: [u8; 4] = [78, 97, 109, 101];
                let b: [u8; 13] = [66, 101, 97, 116, 83, 121, 110, 99, 76, 105, 110, 101, 115];
                let p: [u8; 14] = [83, 97, 109, 112, 108, 101, 80, 111, 115, 105, 116, 105, 111, 110];
                if same_bytes(n.as_slice(), s.as_slice()) {
                    assert(s@ == sample_tag());
                    self.sample_index = self.sample_index + 1;
                    self.in_sample = true;
                } else if same_bytes(n.as_slice(), nm.as_slice()) && self.in_sample {
                    assert(nm@ == name_tag());
                    self.awaiting = Awaiting::Name;
                } else if same_bytes(n.as_slice(), b.as_slice()) {
                    assert(b@ == beat_sync_lines_tag());
                    self.awaiting = Awaiting::BeatSyncLines;
                } else if same_bytes(n.as_slice(), p.as_slice()) {
                    assert(p@ == sample_position_tag());
                    self.awaiting = Awaiting::SamplePosition;
                }
                proof {
                    assert(s@ == sample_tag());
                    assert(nm@ == name_tag());
                    assert(b@ == beat_sync_lines_tag());
                    assert(p@ == sample_position_tag());
                }
                Ok(true)
            },
            XmlEvent::End(n) => {
                let ss: [u8; 7] = [83, 97, 109, 112, 108, 101, 115];
                let m: [u8; 12] = [83, 108, 105, 99, 101, 77, 97, 114, 107, 101, 114, 115];
                let s: [u8; 6] = [83, 97, 109, 112, 108, 101];
                let nm: [u8; 4] = [78, 97, 109, 101];
                let p: [u8; 14] = [83, 97, 109, 112, 108, 101, 80, 111, 115, 105, 116, 105, 111, 110];
                proof {
                    assert(ss@ == samples_tag());
                    assert(m@ == slice_markers_tag());
                    assert(s@ == sample_tag());
                    assert(nm@ == name_tag());
                    assert(p@ == sample_position_tag());
                }
                if same_bytes(n.as_slice(), ss.as_slice()) || same_bytes(n.as_slice(), m.as_slice()) {
                    Ok(false)
                } else if same_bytes(n.as_slice(), s.as_slice()) {
                    self.in_sample = false;
                    Ok(true)
                } else if same_bytes(n.as_slice(), nm.as_slice()) || same_bytes(n.as_slice(), p.as_slice()) {
                    self.in_sample = true;
                    Ok(true)
                } else {
                    Ok(true)
                }
            },
            XmlEvent::Eof => Ok(false),
            _ => Ok(true),
        }
    }
}

/// The onsets that start at each slice position of the sample at `path`, each `beat_count`
/// beats long; a position is taken modulo 2^32.
pub fn slice_onsets(path: &String, positions: &[u64], beat_count: u16) -> (r: Vec<Option<Onset>>)
    ensures
        r@.len() == positions@.len(),
        forall|i: int| 0 <= i < positions@.len() ==> #[trigger] r@[i] == Some(Onset {
            path: *path,
            onset_start: Some(positions@[i] as u32),
            beat_count: beat_count as u32,
        }),
{
    let mut r: Vec<Option<Onset>> = Vec::new();
    let mut i: usize = 0;
    while i < positions.len()
        invariant
            i <= positions@.len(),
            r@.len() == i,
            forall|k: int| 0 <= k < i ==> #[trigger] r@[k] == Some(Onset {
                path: *path,
                onset_start: Some(positions@[k] as u32),
                beat_count: beat_count as u32,
            }),
        decreases positions@.len() - i,
    {
        r.push(Some(Onset { path: path.clone(), onset_start: Some(positions[i] as u32), beat_count: beat_count as u32 }));
        i = i + 1;
    }
    r
}


/// The events a quick-xml reader reports for the XML text `xml`, with text trimmed: every
/// event up to and including the end of the text, or, when the reader fails first, the
/// events before the failure and `true`.
pub uninterp spec fn spec_xml_events(xml: Seq<u8>) -> (Seq<EventModel>, bool);

/// Reads the events of `xml` with `quick_xml::Reader::read_event`, text trimmed, until the
/// end of the text or the reader's first error. The contract claims only that the result is
/// a function of the bytes, named `spec_xml_events`.
#[verifier::external_body]
fn xml_events(xml: &[u8]) -> (r: (Vec<XmlEvent>, bool))
    ensures
        (r.0@.map_values(|e: XmlEvent| e@), r.1) == spec_xml_events(xml@),
{
    let mut reader = quick_xml::Reader::from_reader(xml);
    reader.config_mut().trim_text(true);
    let mut events = Vec::new();
    loop {
        let event = match reader.read_event() {
            Ok(Event::Start(e)) => XmlEvent::Start(e.name().into_inner().as_bytes().to_vec()),
            Ok(Event::End(e)) => XmlEvent::End(e.name().into_inner().as_bytes().to_vec()),
            Ok(Event::Text(t)) => XmlEvent::Text(t.xml10_content().into_owned()),
            Ok(Event::Eof) => { events.push(XmlEvent::Eof); return (events, false); },
            Ok(_) => XmlEvent::Other,
            Err(_) => return (events, true),
        };
        events.push(event);
    }
}

/// The scan of a fresh scan over `events`: it steps through them until a step asks to stop
/// or fails; run out of events, it fails when the reader had failed after them.
pub open spec fn scan_fold(s: ScanModel, events: Seq<EventModel>, failed: bool) -> (ScanModel, Result<(), ScanError>)
    decreases events.len(),
{
    if events.len() == 0 {
        (s, if failed { Err(ScanError::BadXml) } else { Ok(()) })
    } else {
        let (s1, r) = scan_step(s, events[0]);
        match r {
            Err(e) => (s1, Err(e)),
            Ok(false) => (s1, Ok(())),
            Ok(true) => scan_fold(s1, events.drop_first(), failed),
        }
    }
}

/// A scan that has read nothing.
pub open spec fn fresh_scan() -> ScanModel {
    ScanModel {
        in_sample: true,
        awaiting: Awaiting::Nothing,
        sample_index: 0,
        sample_name: Seq::empty(),
        beat_sync_lines: 0,
        sample_positions: Seq::empty(),
    }
}

/// What scanning `events` gives: the scan, or the error it ended in.
pub open spec fn scanned(events: Seq<EventModel>, failed: bool, r: Result<InstrumentScan, ScanError>) -> bool {
    match scan_fold(fresh_scan(), events, failed) {
        (m, Ok(())) => r matches Ok(x) && x@ == m,
        (_, Err(e)) => r == Err::<InstrumentScan, ScanError>(e),
    }
}

/// Scans the events of an instrument description; `failed` tells that the reader failed
/// after the last of them.
pub fn scan_events(events: &[XmlEvent], failed: bool) -> (r: Result<InstrumentScan, ScanError>)
    requires
        events@.len() < i32::MAX,
    ensures
        scanned(events@.map_values(|e: XmlEvent| e@), failed, r),
{
    let ghost evs = events@.map_values(|e: XmlEvent| e@);
    let mut scan = InstrumentScan::new();
    let mut i: usize = 0;
    assert(evs.subrange(0, evs.len() as int) =~= evs);
    while i < events.len()
        invariant
            i <= events@.len(),
            events@.len() < i32::MAX,
            evs == events@.map_values(|e: XmlEvent| e@),
            0 <= scan.sample_index <= i,
            scan_fold(fresh_scan(), evs, failed) == scan_fold(scan@, evs.subrange(i as int, evs.len() as int), failed),
        decreases events@.len() - i,
    {
        let ghost rest = evs.subrange(i as int, evs.len() as int);
        proof {
            assert(rest[0] == events@[i as int]@);
            assert(rest.drop_first() =~= evs.subrange(i + 1, evs.len() as int));
        }
        let r = scan.step(&events[i]);
        match r {
            Err(e) => return Err(e),
            Ok(false) => return Ok(scan),
            Ok(true) => {},
        }
        i = i + 1;
    }
    proof {
        assert(evs.subrange(i as int, evs.len() as int) =~= Seq::<EventModel>::empty());
    }
    if failed {
        Err(ScanError::BadXml)
    } else {
        Ok(scan)
    }
}

/// Scans the instrument description `xml`; `None` when it holds `i32::MAX` events or more,
/// too many samples for the scan to count.
pub fn scan_instrument(xml: &[u8]) -> (r: Option<Result<InstrumentScan, ScanError>>)
    ensures
        r is None <==> spec_xml_events(xml@).0.len() >= i32::MAX,
        r matches Some(x) ==> scanned(spec_xml_events(xml@).0, spec_xml_events(xml@).1, x),
{
    let (events, failed) = xml_events(xml);
    if events.len() >= 0x7fff_ffff {
        return None;
    }
    Some(scan_events(events.as_slice(), failed))
}

/// What decoding the FLAC stream `flac` with claxon gives: nothing when its header does
/// not decode; otherwise its sample rate and bits per sample, and the samples of its first
/// channel, or nothing when a frame does not decode.
pub uninterp spec fn spec_flac_stream(flac: Seq<u8>) -> Option<(u32, u32, Option<Seq<i32>>)>;

/// Decodes `flac` with `claxon::FlacReader`: the stream info, then every block's first
/// channel. The contract claims only that the result is a function of the bytes, named
/// `spec_flac_stream`.
#[verifier::external_body]
fn flac_stream(flac: &[u8]) -> (r: Option<(u32, u32, Option<Vec<i32>>)>)
    ensures
        r matches Some((rate, bits, s)) ==> spec_flac_stream(flac@) == Some((rate, bits, match s {
            Some(v) => Some(v@),
            None => None::<Seq<i32>>,
        })),
        r is None ==> spec_flac_stream(flac@) is None,
{
    let mut reader = match claxon::FlacReader::new(flac) { Ok(r) => r, Err(_) => return None };
    let info = reader.streaminfo();
    let (mut samples, mut frames, mut block) = (Vec::new(), reader.blocks(), claxon::Block::empty());
    loop {
        match frames.read_next_or_eof(block.into_buffer()) {
            Ok(Some(b)) => { for i in 0..b.duration() { samples.push(b.sample(0, i)); } block = b; },
            Ok(None) => return Some((info.sample_rate, info.bits_per_sample, Some(samples))),
            Err(_) => return Some((info.sample_rate, info.bits_per_sample, None)),
        }
    }
}

/// Why a sample does not convert.
#[derive(Copy, Clone, PartialEq, Eq, Structural, Debug)]
pub enum FlacError {
    /// The stream does not decode.
    Decode,
    /// The samples are not 16 bits wide.
    NotSixteenBits,
}

/// The 16-bit mono sample a decoded stream gives: its rate and its first channel, each
/// sample taken modulo 2^16.
pub open spec fn mono16(stream: Option<(u32, u32, Option<Seq<i32>>)>) -> Result<(u32, Seq<i16>), FlacError> {
    match stream {
        None => Err(FlacError::Decode),
        Some((rate, bits, s)) => if bits != 16 {
            Err(FlacError::NotSixteenBits)
        } else {
            match s {
                None => Err(FlacError::Decode),
                Some(s) => Ok((rate, s.map_values(|x: i32| x as i16))),
            }
        },
    }
}

/// Decodes the FLAC stream `flac` into a 16-bit mono sample: its rate and the samples of
/// its first channel.
pub fn decode_flac(flac: &[u8]) -> (r: Result<(u32, Vec<i16>), FlacError>)
    ensures
        match mono16(spec_flac_stream(flac@)) {
            Ok((rate, s)) => r matches Ok((q, v)) && q == rate && v@ == s,
            Err(e) => r == Err::<(u32, Vec<i16>), FlacError>(e),
        },
{
    let (rate, bits, stream) = match flac_stream(flac) {
        None => return Err(FlacError::Decode),
        Some(x) => x,
    };
    if bits != 16 {
        return Err(FlacError::NotSixteenBits);
    }
    let wide = match stream {
        None => return Err(FlacError::Decode),
        Some(w) => w,
    };
    let mut out: Vec<i16> = Vec::new();
    let mut i: usize = 0;
    while i < wide.len()
        invariant
            i <= wide@.len(),
            out@ =~= wide@.subrange(0, i as int).map_values(|x: i32| x as i16),
        decreases wide@.len() - i,
    {
        out.push(wide[i] as i16);
        i = i + 1;
    }
    assert(wide@.subrange(0, wide@.len() as int) =~= wide@);
    Ok((rate, out))
}

} // verus!
