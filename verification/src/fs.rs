use vstd::prelude::*;
use vstd::bytes::{spec_u16_from_le_bytes, spec_u32_from_le_bytes, u16_from_le_bytes, u32_from_le_bytes};
use vstd::slice::slice_subrange;

verus! {

/// Where a seek is measured from.
pub enum SeekFrom {
    Start(u64),
    End(i64),
    Current(i64),
}

/// Failure of `FileHandler::read_exact`.
pub enum ReadExactError<E> {
    /// The file ended before the buffer was full.
    UnexpectedEof,
    Other(E),
}

/// Failure while opening or reading a sample file.
pub enum Error<E> {
    BadFormat,
    DataNotFound,
    Other(E),
}

/// A call made to a file handler: the handle it went to, what it was given, and what it
/// gave back. Handles are numbered by `FileHandler::handle`.
pub enum FsCall<E> {
    Open { path: Seq<char>, res: Result<int, E> },
    Clone { file: int, res: Result<int, E> },
    Close { file: int, res: Result<(), E> },
    /// A read of `len` bytes asked for with the cursor at `at`.
    Read { file: int, at: int, len: nat, res: Result<usize, E> },
    Seek { file: int, pos: SeekFrom, res: Result<u64, E> },
}

/// The error a call gave back, if it failed.
pub open spec fn call_error<E>(c: FsCall<E>) -> Option<E> {
    match c {
        FsCall::Open { res, .. } => match res { Ok(_) => None, Err(e) => Some(e) },
        FsCall::Clone { res, .. } => match res { Ok(_) => None, Err(e) => Some(e) },
        FsCall::Close { res, .. } => match res { Ok(_) => None, Err(e) => Some(e) },
        FsCall::Read { res, .. } => match res { Ok(_) => None, Err(e) => Some(e) },
        FsCall::Seek { res, .. } => match res { Ok(_) => None, Err(e) => Some(e) },
    }
}

/// `after` is `before` with more calls made.
pub open spec fn extends<E>(before: Seq<FsCall<E>>, after: Seq<FsCall<E>>) -> bool {
    before.len() <= after.len() && after.subrange(0, before.len() as int) == before
}

/// The calls made after `before`.
pub open spec fn added<E>(before: Seq<FsCall<E>>, after: Seq<FsCall<E>>) -> Seq<FsCall<E>> {
    after.subrange(before.len() as int, after.len() as int)
}

/// Every call of `calls` reads or seeks handle `h`, and every read lies in `lo..hi`.
pub open spec fn reads_and_seeks<E>(calls: Seq<FsCall<E>>, h: int, lo: int, hi: int) -> bool {
    forall|i: int| 0 <= i < calls.len() ==> match #[trigger] calls[i] {
        FsCall::Read { file, at, len, .. } => file == h && lo <= at && at + len <= hi,
        FsCall::Seek { file, .. } => file == h,
        _ => false,
    }
}

/// Every call of `calls` reads handle `h`, within `lo..hi`.
pub open spec fn reads_within<E>(calls: Seq<FsCall<E>>, h: int, lo: int, hi: int) -> bool {
    forall|i: int| 0 <= i < calls.len() ==> match #[trigger] calls[i] {
        FsCall::Read { file, at, len, .. } => file == h && lo <= at && at + len <= hi,
        _ => false,
    }
}

/// Every call of `calls` reads handle `h`, or moves its cursor forward from where it is.
pub open spec fn reads_forward<E>(calls: Seq<FsCall<E>>, h: int) -> bool {
    forall|i: int| 0 <= i < calls.len() ==> match #[trigger] calls[i] {
        FsCall::Read { file, .. } => file == h,
        FsCall::Seek { file, pos, .. } => file == h && match pos {
            SeekFrom::Current(d) => d >= 0,
            _ => false,
        },
        _ => false,
    }
}

/// No call of `calls` failed.
pub open spec fn all_succeed<E>(calls: Seq<FsCall<E>>) -> bool {
    forall|i: int| 0 <= i < calls.len() ==> #[trigger] call_error(calls[i]) is None
}

/// The last call of `calls` failed with `e`, and none before it failed.
pub open spec fn fails_last<E>(calls: Seq<FsCall<E>>, e: E) -> bool {
    &&& calls.len() > 0
    &&& call_error(calls.last()) == Some(e)
    &&& all_succeed(calls.drop_last())
}

/// One more call extends the calls made after `before` by that call.
pub proof fn lemma_added_push<E>(before: Seq<FsCall<E>>, after: Seq<FsCall<E>>, c: FsCall<E>)
    requires
        extends(before, after),
    ensures
        extends(before, after.push(c)),
        added(before, after.push(c)) == added(before, after).push(c),
        added(before, after.push(c)).drop_last() == added(before, after),
{
    assert(after.push(c).subrange(0, before.len() as int) =~= after.subrange(0, before.len() as int));
    assert(added(before, after.push(c)) =~= added(before, after).push(c));
    assert(added(before, after.push(c)).drop_last() =~= added(before, after));
}

/// No calls were made after `before`.
pub proof fn lemma_added_none<E>(before: Seq<FsCall<E>>)
    ensures
        extends(before, before),
        added(before, before).len() == 0,
{
    assert(before.subrange(0, before.len() as int) =~= before);
}

/// Calls made in two rounds are the calls of the first round, then of the second.
pub proof fn lemma_added_concat<E>(a: Seq<FsCall<E>>, b: Seq<FsCall<E>>, c: Seq<FsCall<E>>)
    requires
        extends(a, b),
        extends(b, c),
    ensures
        extends(a, c),
        added(a, c) == added(a, b) + added(b, c),
{
    assert(c.subrange(0, a.len() as int) =~= b.subrange(0, a.len() as int));
    assert(added(a, c) =~= added(a, b) + added(b, c));
}

/// Reads within bounds are reads.
pub proof fn lemma_reads_forward<E>(calls: Seq<FsCall<E>>, h: int, lo: int, hi: int)
    requires
        reads_within(calls, h, lo, hi),
    ensures
        reads_forward(calls, h),
{
    assert forall|i: int| 0 <= i < calls.len() implies match #[trigger] calls[i] {
        FsCall::Read { file, .. } => file == h,
        FsCall::Seek { file, pos, .. } => file == h && match pos {
            SeekFrom::Current(d) => d >= 0,
            _ => false,
        },
        _ => false,
    } by {
        let c = calls[i];
    }
}

/// Calls made in two rounds, the first without failure, are the calls of both rounds.
pub proof fn lemma_added_then<E>(a: Seq<FsCall<E>>, b: Seq<FsCall<E>>, c: Seq<FsCall<E>>, h: int)
    requires
        extends(a, b),
        extends(b, c),
        reads_forward(added(a, b), h),
        all_succeed(added(a, b)),
        reads_forward(added(b, c), h),
    ensures
        extends(a, c),
        added(a, c) == added(a, b) + added(b, c),
        reads_forward(added(a, c), h),
        all_succeed(added(b, c)) ==> all_succeed(added(a, c)),
        forall|e: E| #[trigger] fails_last(added(b, c), e) ==> fails_last(added(a, c), e),
{
    assert(c.subrange(0, a.len() as int) =~= b.subrange(0, a.len() as int));
    assert(added(a, c) =~= added(a, b) + added(b, c));
    let x = added(a, b);
    let y = added(b, c);
    assert forall|i: int| 0 <= i < (x + y).len() implies match #[trigger] (x + y)[i] {
        FsCall::Read { file, .. } => file == h,
        FsCall::Seek { file, pos, .. } => file == h && match pos {
            SeekFrom::Current(d) => d >= 0,
            _ => false,
        },
        _ => false,
    } by {
        if i < x.len() {
            assert((x + y)[i] == x[i]);
        } else {
            assert((x + y)[i] == y[i - x.len()]);
        }
    }
    if all_succeed(y) {
        assert forall|i: int| 0 <= i < (x + y).len() implies #[trigger] call_error((x + y)[i]) is None by {
            if i < x.len() {
                assert((x + y)[i] == x[i]);
            } else {
                assert((x + y)[i] == y[i - x.len()]);
            }
        }
    }
    assert forall|e: E| #[trigger] fails_last(y, e) implies fails_last(x + y, e) by {
        assert((x + y).last() == y.last());
        assert((x + y).drop_last() =~= x + y.drop_last());
        let z = y.drop_last();
        assert forall|i: int| 0 <= i < (x + z).len() implies #[trigger] call_error((x + z)[i]) is None by {
            if i < x.len() {
                assert((x + z)[i] == x[i]);
            } else {
                assert((x + z)[i] == z[i - x.len()]);
            }
        }
    }
}

/// Access to sample files, implemented by each platform.
///
/// A file is modelled by the bytes it holds and a cursor into them, and the handler by the
/// bytes stored under each path and the calls made to it. An implementation verified with
/// the library, such as `MemoryFiles`, defines these model functions for itself; one in
/// plain Rust cannot, and keeps the bodies below, which model no platform. The library's
/// proofs, generic over the handler, never see those bodies, only what the methods state.
pub trait FileHandler {
    type Error;
    type File;

    /// Every call made to the handler so far, oldest first.
    closed spec fn calls(&self) -> Seq<FsCall<Self::Error>> {
        Seq::empty()
    }

    /// The handle a file value is; reading and seeking keep it.
    closed spec fn handle(file: &Self::File) -> int {
        0
    }

    /// The bytes of the file.
    closed spec fn contents(file: &Self::File) -> Seq<u8> {
        Seq::empty()
    }

    /// The cursor of the file, counted in bytes from its start.
    closed spec fn cursor(file: &Self::File) -> int {
        0
    }

    /// The bytes stored under `path`.
    closed spec fn stored(&self, path: Seq<char>) -> Seq<u8> {
        Seq::empty()
    }

    /// Opens the file stored under `path`, with its cursor at the start.
    fn open(&mut self, path: &str) -> (res: Result<Self::File, Self::Error>)
        ensures
            forall|p: Seq<char>| #[trigger] final(self).stored(p) == old(self).stored(p),
            res matches Ok(file) ==> Self::cursor(&file) == 0 && Self::contents(&file) == old(self).stored(path@),
            final(self).calls() == old(self).calls().push(FsCall::Open {
                path: path@,
                res: match res { Ok(f) => Ok(Self::handle(&f)), Err(e) => Err(e) },
            }),
    ;

    /// Clones a file handle.
    fn try_clone(&mut self, file: &Self::File) -> (res: Result<Self::File, Self::Error>)
        ensures
            forall|p: Seq<char>| #[trigger] final(self).stored(p) == old(self).stored(p),
            res matches Ok(f) ==> Self::contents(&f) == Self::contents(file),
            final(self).calls() == old(self).calls().push(FsCall::Clone {
                file: Self::handle(file),
                res: match res { Ok(f) => Ok(Self::handle(&f)), Err(e) => Err(e) },
            }),
    ;

    /// Closes a file.
    fn close(&mut self, file: &Self::File) -> (res: Result<(), Self::Error>)
        ensures
            forall|p: Seq<char>| #[trigger] final(self).stored(p) == old(self).stored(p),
            final(self).calls() == old(self).calls().push(FsCall::Close { file: Self::handle(file), res }),
    ;

    /// Reads some bytes from the cursor into the start of `buf`, returning how many were read.
    ///
    /// A read into a non-empty buffer while bytes are left reads at least one byte;
    /// at the end of the file it reads none.
    fn read(&mut self, file: &mut Self::File, buf: &mut [u8]) -> (res: Result<usize, Self::Error>)
        ensures
            forall|p: Seq<char>| #[trigger] final(self).stored(p) == old(self).stored(p),
            Self::contents(final(file)) == Self::contents(old(file)),
            Self::handle(final(file)) == Self::handle(old(file)),
            final(self).calls() == old(self).calls().push(FsCall::Read {
                file: Self::handle(old(file)),
                at: Self::cursor(old(file)),
                len: old(buf)@.len(),
                res,
            }),
            final(buf)@.len() == old(buf)@.len(),
            res matches Ok(n) ==> {
                let pos = Self::cursor(old(file));
                let data = Self::contents(old(file));
                &&& n <= old(buf)@.len()
                &&& Self::cursor(final(file)) == pos + n
                &&& n > 0 ==> pos + n <= data.len()
                &&& n > 0 ==> final(buf)@.subrange(0, n as int) == data.subrange(pos, pos + n)
                &&& (old(buf)@.len() > 0 && 0 <= pos < data.len()) ==> n > 0
            },
    ;

    /// Moves the cursor, returning its new place.
    fn seek(&mut self, file: &mut Self::File, pos: SeekFrom) -> (res: Result<u64, Self::Error>)
        ensures
            forall|p: Seq<char>| #[trigger] final(self).stored(p) == old(self).stored(p),
            Self::contents(final(file)) == Self::contents(old(file)),
            Self::handle(final(file)) == Self::handle(old(file)),
            final(self).calls() == old(self).calls().push(FsCall::Seek { file: Self::handle(old(file)), pos, res }),
            res matches Ok(p) ==> {
                &&& Self::cursor(final(file)) == p
                &&& match pos {
                    SeekFrom::Start(s) => p == s,
                    SeekFrom::End(d) => p == Self::contents(old(file)).len() + d,
                    SeekFrom::Current(d) => p == Self::cursor(old(file)) + d,
                }
            },
    ;

    /// Fills `buf` from the cursor.
    fn read_exact(&mut self, file: &mut Self::File, buf: &mut [u8]) -> (res: Result<(), ReadExactError<Self::Error>>)
        requires
            Self::cursor(old(file)) >= 0,
        ensures
            forall|p: Seq<char>| #[trigger] final(self).stored(p) == old(self).stored(p),
            Self::contents(final(file)) == Self::contents(old(file)),
            final(buf)@.len() == old(buf)@.len(),
            res is Ok ==> {
                let pos = Self::cursor(old(file));
                &&& old(buf)@.len() > 0 ==> pos + old(buf)@.len() <= Self::contents(old(file)).len()
                &&& old(buf)@.len() > 0 ==> final(buf)@ == Self::contents(old(file)).subrange(pos, pos + old(buf)@.len())
                &&& Self::cursor(final(file)) == pos + old(buf)@.len()
            },
            res matches Err(ReadExactError::UnexpectedEof) ==>
                Self::cursor(old(file)) + old(buf)@.len() > Self::contents(old(file)).len(),
            Self::handle(final(file)) == Self::handle(old(file)),
            extends(old(self).calls(), final(self).calls()),
            reads_within(
                added(old(self).calls(), final(self).calls()),
                Self::handle(old(file)),
                Self::cursor(old(file)),
                Self::cursor(old(file)) + old(buf)@.len(),
            ),
            !(res matches Err(ReadExactError::Other(_))) ==> all_succeed(added(old(self).calls(), final(self).calls())),
            res matches Err(ReadExactError::Other(e)) ==> fails_last(added(old(self).calls(), final(self).calls()), e),
    {
        let ghost data = Self::contents(file);
        let ghost start = Self::cursor(file);
        let ghost h = Self::handle(file);
        let ghost before = self.calls();
        proof {
            lemma_added_none(before);
        }
        let total = buf.len();
        let mut filled: usize = 0;
        while filled < total
            invariant
                filled <= total,
                total == buf@.len(),
                total == old(buf)@.len(),
                data == Self::contents(old(file)),
                start == Self::cursor(old(file)),
                start >= 0,
                Self::contents(file) == data,
                forall|p: Seq<char>| #[trigger] self.stored(p) == old(self).stored(p),
                Self::cursor(file) == start + filled,
                filled > 0 ==> start + filled <= data.len(),
                filled > 0 ==> buf@.subrange(0, filled as int) == data.subrange(start, start + filled),
                Self::handle(file) == h,
                h == Self::handle(old(file)),
                before == old(self).calls(),
                extends(before, self.calls()),
                reads_within(added(before, self.calls()), h, start, start + total),
                all_succeed(added(before, self.calls())),
            decreases total - filled,
        {
            let ghost buf_before = buf@;
            let ghost calls_before = self.calls();
            let (head, rest) = buf.split_at_mut(filled);
            let r = self.read(file, rest);
            assert(buf@ == buf_before.subrange(0, filled as int) + final(rest)@);
            proof {
                lemma_added_push(before, calls_before, self.calls().last());
                assert(self.calls() == calls_before.push(self.calls().last()));
            }
            let n = match r {
                Ok(n) => n,
                Err(e) => return Err(ReadExactError::Other(e)),
            };
            if n == 0 {
                return Err(ReadExactError::UnexpectedEof);
            }
            assert(final(rest)@.subrange(0, n as int) == data.subrange(start + filled, start + filled + n));
            assert(buf@.subrange(0, filled + n) =~= buf@.subrange(0, filled as int) + final(rest)@.subrange(0, n as int));
            assert(buf@.subrange(0, filled + n) =~= data.subrange(start, start + filled + n));
            filled = filled + n;
        }
        assert(buf@ =~= buf@.subrange(0, total as int));
        Ok(())
    }

    /// The cursor, counted from the start of the file.
    fn stream_position(&mut self, file: &mut Self::File) -> (res: Result<u64, Self::Error>)
        ensures
            forall|p: Seq<char>| #[trigger] final(self).stored(p) == old(self).stored(p),
            Self::contents(final(file)) == Self::contents(old(file)),
            res matches Ok(p) ==> p == Self::cursor(old(file)) && Self::cursor(final(file)) == p,
            Self::handle(final(file)) == Self::handle(old(file)),
            final(self).calls() == old(self).calls().push(FsCall::Seek {
                file: Self::handle(old(file)),
                pos: SeekFrom::Current(0),
                res,
            }),
    {
        self.seek(file, SeekFrom::Current(0))
    }
}


/// Where the PCM samples of a WAV file lie, and at what rate they play.
pub struct WavLayout {
    /// Offset of the first sample byte from the start of the file.
    pub pcm_start: u32,
    /// Number of sample bytes.
    pub pcm_len: u32,
    pub sample_rate: u32,
}

/// `true` when the four bytes of `data` at `pos` are `tag`.
pub open spec fn tag_at(data: Seq<u8>, pos: int, tag: Seq<u8>) -> bool {
    data.subrange(pos, pos + 4) == tag
}

pub open spec fn le_u32_at(data: Seq<u8>, pos: int) -> u32 {
    spec_u32_from_le_bytes(data.subrange(pos, pos + 4))
}

pub open spec fn le_u16_at(data: Seq<u8>, pos: int) -> u16 {
    spec_u16_from_le_bytes(data.subrange(pos, pos + 2))
}

pub open spec fn riff_tag() -> Seq<u8> {
    seq![82u8, 73u8, 70u8, 70u8]
}

pub open spec fn wave_tag() -> Seq<u8> {
    seq![87u8, 65u8, 86u8, 69u8]
}

pub open spec fn fmt_tag() -> Seq<u8> {
    seq![102u8, 109u8, 116u8, 32u8]
}

pub open spec fn data_tag() -> Seq<u8> {
    seq![100u8, 97u8, 116u8, 97u8]
}

/// Bytes left to scan from `pos`, plus one while `pos` lies within the data.
pub open spec fn scan_measure(len: nat, pos: int) -> nat {
    if 0 <= pos <= len {
        (len - pos + 1) as nat
    } else {
        0
    }
}

/// The chunk scan of a WAV file from the chunk header at `pos`, after `found` of the
/// three essential chunks (`RIFF`, `fmt `, `data`) were seen and `acc` was gathered.
///
/// Each chunk header is eight bytes: a tag and a little-endian size. A `RIFF` header is
/// followed by the tag `WAVE`; a `fmt ` chunk must hold 16 bytes of mono 16-bit integer PCM;
/// a `data` header marks the start of the samples; other chunks are skipped by their size.
pub open spec fn wav_scan(data: Seq<u8>, pos: int, found: nat, acc: WavLayout) -> Result<WavLayout, Error<()>>
    decreases scan_measure(data.len(), pos),
{
    if found >= 3 {
        Ok(acc)
    } else if pos < 0 || pos + 8 > data.len() {
        Err(Error::DataNotFound)
    } else {
        let size = le_u32_at(data, pos + 4);
        if tag_at(data, pos, riff_tag()) {
            if pos + 12 > data.len() {
                Err(Error::DataNotFound)
            } else if !tag_at(data, pos + 8, wave_tag()) {
                Err(Error::BadFormat)
            } else {
                wav_scan(data, pos + 12, found + 1, acc)
            }
        } else if tag_at(data, pos, fmt_tag()) {
            if size != 16 {
                Err(Error::BadFormat)
            } else if pos + 24 > data.len() {
                Err(Error::DataNotFound)
            } else if le_u16_at(data, pos + 8) != 1 || le_u16_at(data, pos + 10) != 1
                || le_u16_at(data, pos + 22) != 16 {
                Err(Error::BadFormat)
            } else {
                wav_scan(data, pos + 24, found + 1, WavLayout { sample_rate: le_u32_at(data, pos + 12), ..acc })
            }
        } else if tag_at(data, pos, data_tag()) {
            wav_scan(data, pos + 8, found + 1, WavLayout { pcm_start: (pos + 8) as u32, pcm_len: size, ..acc })
        } else {
            wav_scan(data, pos + 8 + size, found, acc)
        }
    }
}

/// The layout that a scan of the whole file finds.
pub open spec fn wav_layout(data: Seq<u8>) -> Result<WavLayout, Error<()>> {
    wav_scan(data, 0, 0, WavLayout { pcm_start: 0, pcm_len: 0, sample_rate: 0 })
}

/// `true` when the four bytes of `buf` at `at` spell `t0 t1 t2 t3`.
fn has_tag(buf: &Vec<u8>, at: usize, t0: u8, t1: u8, t2: u8, t3: u8) -> (res: bool)
    requires
        at + 4 <= buf.len(),
    ensures
        res == (buf@.subrange(at as int, at + 4) == seq![t0, t1, t2, t3]),
{
    let res = buf[at] == t0 && buf[at + 1] == t1 && buf[at + 2] == t2 && buf[at + 3] == t3;
    if res {
        assert(buf@.subrange(at as int, at + 4) =~= seq![t0, t1, t2, t3]);
    } else {
        proof {
            if buf@.subrange(at as int, at + 4) == seq![t0, t1, t2, t3] {
                assert(buf@.subrange(at as int, at + 4)[0] == t0);
                assert(buf@.subrange(at as int, at + 4)[1] == t1);
                assert(buf@.subrange(at as int, at + 4)[2] == t2);
                assert(buf@.subrange(at as int, at + 4)[3] == t3);
            }
        }
    }
    res
}

fn read_u32(buf: &Vec<u8>, at: usize) -> (res: u32)
    requires
        at + 4 <= buf.len(),
    ensures
        res == spec_u32_from_le_bytes(buf@.subrange(at as int, at + 4)),
{
    u32_from_le_bytes(slice_subrange(buf.as_slice(), at, at + 4))
}

fn read_u16(buf: &Vec<u8>, at: usize) -> (res: u16)
    requires
        at + 2 <= buf.len(),
    ensures
        res == spec_u16_from_le_bytes(buf@.subrange(at as int, at + 2)),
{
    u16_from_le_bytes(slice_subrange(buf.as_slice(), at, at + 2))
}

/// Maps a failed exact read: an early end of file means the chunk sought is missing.
fn read_exact_error<E>(e: ReadExactError<E>) -> (res: Error<E>)
    ensures
        e is UnexpectedEof ==> res is DataNotFound,
        e matches ReadExactError::Other(x) ==> res == Error::Other(x),
{
    match e {
        ReadExactError::UnexpectedEof => Error::DataNotFound,
        ReadExactError::Other(e) => Error::Other(e),
    }
}

/// Scans a freshly opened WAV file for its essential chunks, leaving the cursor at the
/// end of the last of them.
pub fn read_wav_layout<F: FileHandler>(fs: &mut F, file: &mut F::File) -> (res: Result<WavLayout, Error<F::Error>>)
    requires
        F::cursor(old(file)) == 0,
    ensures
        forall|p: Seq<char>| #[trigger] final(fs).stored(p) == old(fs).stored(p),
        F::contents(final(file)) == F::contents(old(file)),
        res matches Ok(l) ==> wav_layout(F::contents(old(file))) == Ok::<WavLayout, Error<()>>(l),
        res matches Err(Error::BadFormat) ==> wav_layout(F::contents(old(file))) == Err::<WavLayout, Error<()>>(Error::BadFormat),
        res matches Err(Error::DataNotFound) ==> wav_layout(F::contents(old(file))) == Err::<WavLayout, Error<()>>(Error::DataNotFound),
        F::handle(final(file)) == F::handle(old(file)),
        extends(old(fs).calls(), final(fs).calls()),
        reads_forward(added(old(fs).calls(), final(fs).calls()), F::handle(old(file))),
        !(res matches Err(Error::Other(_))) ==> all_succeed(added(old(fs).calls(), final(fs).calls())),
        res matches Err(Error::Other(e)) ==> fails_last(added(old(fs).calls(), final(fs).calls()), e),
{
    let ghost data = F::contents(file);
    let ghost h = F::handle(file);
    let ghost before = fs.calls();
    proof {
        lemma_added_none(before);
    }
    let mut acc = WavLayout { pcm_start: 0, pcm_len: 0, sample_rate: 0 };
    let mut found: u8 = 0;
    while found < 3
        invariant
            found <= 3,
            F::contents(file) == data,
            data == F::contents(old(file)),
            forall|p: Seq<char>| #[trigger] fs.stored(p) == old(fs).stored(p),
            F::cursor(file) >= 0,
            wav_scan(data, F::cursor(file), found as nat, acc) == wav_layout(data),
            h == F::handle(old(file)),
            F::handle(file) == h,
            before == old(fs).calls(),
            extends(before, fs.calls()),
            reads_forward(added(before, fs.calls()), h),
            all_succeed(added(before, fs.calls())),
        decreases scan_measure(data.len(), F::cursor(file)),
    {
        let ghost pos = F::cursor(file);
        let ghost mid = fs.calls();
        let mut header: Vec<u8> = vec![0u8; 8];
        let r = fs.read_exact(file, header.as_mut_slice());
        proof {
            lemma_reads_forward(added(mid, fs.calls()), h, pos, pos + 8);
            lemma_added_then(before, mid, fs.calls(), h);
        }
        match r {
            Ok(()) => {},
            Err(e) => {
                let err = read_exact_error(e);
                return Err(err);
            },
        }
        assert(header@.subrange(4, 8) =~= data.subrange(pos + 4, pos + 8));
        assert(header@.subrange(0, 4) =~= data.subrange(pos, pos + 4));
        let size = read_u32(&header, 4);
        if has_tag(&header, 0, 82, 73, 70, 70) {
            let mut tag: Vec<u8> = vec![0u8; 4];
            let ghost mid2 = fs.calls();
            let ghost p2 = F::cursor(file);
            let r = fs.read_exact(file, tag.as_mut_slice());
            proof {
                lemma_reads_forward(added(mid2, fs.calls()), h, p2, p2 + 4);
                lemma_added_then(before, mid2, fs.calls(), h);
            }
            match r {
                Ok(()) => {},
                Err(e) => {
                    let err = read_exact_error(e);
                    return Err(err);
                },
            }
            assert(tag@.subrange(0, 4) =~= tag@);
            if !has_tag(&tag, 0, 87, 65, 86, 69) {
                return Err(Error::BadFormat);
            }
            found = found + 1;
        } else if has_tag(&header, 0, 102, 109, 116, 32) {
            if size != 16 {
                return Err(Error::BadFormat);
            }
            let mut chunk: Vec<u8> = vec![0u8; 16];
            let ghost mid2 = fs.calls();
            let ghost p2 = F::cursor(file);
            let r = fs.read_exact(file, chunk.as_mut_slice());
            proof {
                lemma_reads_forward(added(mid2, fs.calls()), h, p2, p2 + 16);
                lemma_added_then(before, mid2, fs.calls(), h);
            }
            match r {
                Ok(()) => {},
                Err(e) => {
                    let err = read_exact_error(e);
                    return Err(err);
                },
            }
            assert(chunk@.subrange(0, 2) =~= data.subrange(pos + 8, pos + 10));
            assert(chunk@.subrange(2, 4) =~= data.subrange(pos + 10, pos + 12));
            assert(chunk@.subrange(4, 8) =~= data.subrange(pos + 12, pos + 16));
            assert(chunk@.subrange(14, 16) =~= data.subrange(pos + 22, pos + 24));
            if read_u16(&chunk, 0) != 1 || read_u16(&chunk, 2) != 1 {
                return Err(Error::BadFormat);
            }
            let sample_rate = read_u32(&chunk, 4);
            if read_u16(&chunk, 14) != 16 {
                return Err(Error::BadFormat);
            }
            acc = WavLayout { sample_rate, ..acc };
            found = found + 1;
        } else if has_tag(&header, 0, 100, 97, 116, 97) {
            let ghost mid2 = fs.calls();
            let r = fs.stream_position(file);
            proof {
                lemma_added_push(before, mid2, fs.calls().last());
                assert(fs.calls() == mid2.push(fs.calls().last()));
            }
            let start = match r {
                Ok(p) => p,
                Err(e) => return Err(Error::Other(e)),
            };
            acc = WavLayout { pcm_start: start as u32, pcm_len: size, ..acc };
            found = found + 1;
        } else {
            let ghost mid2 = fs.calls();
            let r = fs.seek(file, SeekFrom::Current(size as i64));
            proof {
                lemma_added_push(before, mid2, fs.calls().last());
                assert(fs.calls() == mid2.push(fs.calls().last()));
            }
            match r {
                Ok(_) => {},
                Err(e) => return Err(Error::Other(e)),
            }
        }
    }
    Ok(acc)
}

} // verus!

