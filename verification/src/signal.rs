use vstd::prelude::*;
use crate::arith::rem_euclid_i64;
use vstd::arithmetic::div_mod::{lemma_fundamental_div_mod, lemma_fundamental_div_mod_converse};
use vstd::arithmetic::mul::lemma_mul_is_commutative;
use crate::fs::{added, all_succeed, extends, fails_last, lemma_added_none, lemma_added_push, reads_and_seeks, FileHandler, FsCall, SeekFrom};

verus! {

/// What the signal side reports on each tick: its tick and the inputs it received.
pub struct Message<const LAYER_COUNT: usize> {
    pub tick: i32,
    pub inputs: Vec<Option<crate::state::OnsetInput>>,
}

/// An onset opened for playback: a file whose PCM block is played in a loop.
pub struct Onset<F: FileHandler> {
    pub path: String,
    pub file: F::File,
    /// Offset of the PCM block in the file.
    pub pcm_start: u32,
    /// Length of the PCM block in bytes.
    pub pcm_len: u32,
    /// Where the onset starts, if it is a slice of a longer recording.
    pub onset_start: Option<u32>,
    pub beat_count: u32,
    pub sample_rate: u32,
}

/// Where the cursor lies, counted from the start of the block, after `n` bytes were read
/// from `start`: the block is left at its end and only wrapped when more is read.
pub open spec fn cursor_after(start: int, n: int, len: int) -> int {
    if n == 0 {
        start
    } else {
        (start + n - 1) % len + 1
    }
}

impl<F: FileHandler> Onset<F> {
    /// The cursor, counted from the start of the PCM block.
    pub open spec fn spec_pos(&self) -> int {
        F::cursor(&self.file) - self.pcm_start
    }

    /// The PCM byte that lies `i` bytes into the block, counted cyclically.
    pub open spec fn pcm_byte(&self, i: int) -> u8 {
        F::contents(&self.file)[self.pcm_start + i % (self.pcm_len as int)]
    }

    /// `true` when the file holds the whole PCM block.
    pub open spec fn holds_block(&self) -> bool {
        &&& self.pcm_len > 0
        &&& self.pcm_start + self.pcm_len <= F::contents(&self.file).len()
    }

    /// Where the cursor lies in the PCM block.
    pub fn pos(&mut self, fs: &mut F) -> (res: Result<u64, F::Error>)
        requires
            F::cursor(&old(self).file) >= old(self).pcm_start,
        ensures
            forall|p: Seq<char>| #[trigger] final(fs).stored(p) == old(fs).stored(p),
            final(self).path == old(self).path,
            final(self).pcm_start == old(self).pcm_start,
            final(self).pcm_len == old(self).pcm_len,
            final(self).onset_start == old(self).onset_start,
            final(self).beat_count == old(self).beat_count,
            final(self).sample_rate == old(self).sample_rate,
            F::contents(&final(self).file) == F::contents(&old(self).file),
            res matches Ok(p) ==> p == old(self).spec_pos() && F::cursor(&final(self).file) == F::cursor(&old(self).file),
            F::handle(&final(self).file) == F::handle(&old(self).file),
            final(fs).calls() == old(fs).calls().push(FsCall::Seek {
                file: F::handle(&old(self).file),
                pos: SeekFrom::Current(0),
                res: match res {
                    Ok(p) => Ok((p + old(self).pcm_start) as u64),
                    Err(e) => Err(e),
                },
            }),
    {
        match fs.stream_position(&mut self.file) {
            Ok(p) => Ok(p - self.pcm_start as u64),
            Err(e) => Err(e),
        }
    }

    /// Moves the cursor `offset` bytes into the PCM block, wrapping around it.
    pub fn seek(&mut self, offset: i64, fs: &mut F) -> (res: Result<(), F::Error>)
        requires
            old(self).pcm_len > 0,
        ensures
            forall|p: Seq<char>| #[trigger] final(fs).stored(p) == old(fs).stored(p),
            final(self).path == old(self).path,
            final(self).pcm_start == old(self).pcm_start,
            final(self).pcm_len == old(self).pcm_len,
            final(self).onset_start == old(self).onset_start,
            final(self).beat_count == old(self).beat_count,
            final(self).sample_rate == old(self).sample_rate,
            F::contents(&final(self).file) == F::contents(&old(self).file),
            res is Ok ==> final(self).spec_pos() == (offset as int) % (old(self).pcm_len as int),
            F::handle(&final(self).file) == F::handle(&old(self).file),
            final(fs).calls() == old(fs).calls().push(final(fs).calls().last()),
            final(fs).calls().last() matches FsCall::Seek { file, pos, res: r }
                && file == F::handle(&old(self).file)
                && pos == SeekFrom::Start((old(self).pcm_start + (offset as int) % (old(self).pcm_len as int)) as u64)
                && (r is Ok <==> res is Ok)
                && (r matches Err(e) ==> res == Err::<(), F::Error>(e)),
    {
        let r = rem_euclid_i64(offset, self.pcm_len as i64);
        let target = self.pcm_start as u64 + r as u64;
        match fs.seek(&mut self.file, SeekFrom::Start(target)) {
            Ok(_) => Ok(()),
            Err(e) => Err(e),
        }
    }

    /// Fills `bytes` from the PCM block, going on from its start when its end is reached.
    pub fn read(&mut self, bytes: &mut [u8], fs: &mut F) -> (res: Result<(), F::Error>)
        requires
            old(self).holds_block(),
            0 <= old(self).spec_pos() <= old(self).pcm_len,
        ensures
            forall|p: Seq<char>| #[trigger] final(fs).stored(p) == old(fs).stored(p),
            final(self).path == old(self).path,
            final(self).pcm_start == old(self).pcm_start,
            final(self).pcm_len == old(self).pcm_len,
            final(self).onset_start == old(self).onset_start,
            final(self).beat_count == old(self).beat_count,
            final(self).sample_rate == old(self).sample_rate,
            F::contents(&final(self).file) == F::contents(&old(self).file),
            final(bytes)@.len() == old(bytes)@.len(),
            old(bytes)@.len() == 0 ==> res is Ok && *final(self) == *old(self) && *final(fs) == *old(fs),
            F::handle(&final(self).file) == F::handle(&old(self).file),
            extends(old(fs).calls(), final(fs).calls()),
            reads_and_seeks(
                added(old(fs).calls(), final(fs).calls()),
                F::handle(&old(self).file),
                old(self).pcm_start as int,
                old(self).pcm_start + old(self).pcm_len,
            ),
            res is Ok ==> all_succeed(added(old(fs).calls(), final(fs).calls())),
            res matches Err(e) ==> fails_last(added(old(fs).calls(), final(fs).calls()), e),
            res is Ok ==> {
                &&& forall|i: int| 0 <= i < old(bytes)@.len() ==>
                    #[trigger] final(bytes)@[i] == old(self).pcm_byte(old(self).spec_pos() + i)
                &&& final(self).spec_pos() == cursor_after(old(self).spec_pos(), old(bytes)@.len() as int, old(self).pcm_len as int)
            },
    {
        let ghost start = self.spec_pos();
        let ghost orig = *self;
        let total = bytes.len();
        if total == 0 {
            proof {
                lemma_added_none(fs.calls());
            }
            return Ok(());
        }
        let ghost h = F::handle(&self.file);
        let ghost calls0 = fs.calls();
        proof {
            lemma_added_none(calls0);
        }
        let mut filled: usize = 0;
        while filled < total
            invariant
                filled <= total,
                total == bytes@.len(),
                total == old(bytes)@.len(),
                orig == *old(self),
                h == F::handle(&orig.file),
                F::handle(&self.file) == h,
                calls0 == old(fs).calls(),
                extends(calls0, fs.calls()),
                reads_and_seeks(added(calls0, fs.calls()), h, orig.pcm_start as int, orig.pcm_start + orig.pcm_len),
                all_succeed(added(calls0, fs.calls())),
                self.path == orig.path,
                self.pcm_start == orig.pcm_start,
                self.pcm_len == orig.pcm_len,
                self.onset_start == orig.onset_start,
                self.beat_count == orig.beat_count,
                self.sample_rate == orig.sample_rate,
                F::contents(&self.file) == F::contents(&orig.file),
                forall|p: Seq<char>| #[trigger] fs.stored(p) == old(fs).stored(p),
                start == orig.spec_pos(),
                0 <= start <= orig.pcm_len,
                orig.holds_block(),
                0 <= self.spec_pos() <= self.pcm_len,
                self.spec_pos() == cursor_after(start, filled as int, orig.pcm_len as int)
                    || (self.spec_pos() == 0 && cursor_after(start, filled as int, orig.pcm_len as int) == orig.pcm_len
                        && filled < total),
                forall|i: int| 0 <= i < filled ==> #[trigger] bytes@[i] == orig.pcm_byte(start + i),
            decreases total - filled, if self.spec_pos() == self.pcm_len { 1int } else { 0int },
        {
            let ghost c0 = fs.calls();
            let pr = self.pos(fs);
            proof {
                lemma_added_push(calls0, c0, fs.calls().last());
            }
            let pos = match pr {
                Ok(p) => p,
                Err(e) => return Err(e),
            };
            let ghost c1 = fs.calls();
            let left = (self.pcm_len as u64 - pos) as usize;
            let want = if total - filled < left { total - filled } else { left };
            let ghost before = bytes@;
            let (head, rest) = bytes.split_at_mut(filled);
            let (chunk, tail) = rest.split_at_mut(want);
            let r = fs.read(&mut self.file, chunk);
            proof {
                lemma_added_push(calls0, c1, fs.calls().last());
            }
            let ghost c2 = fs.calls();
            assert(bytes@ == before.subrange(0, filled as int) + final(chunk)@ + before.subrange(filled + want, total as int));
            let n = match r {
                Ok(n) => n,
                Err(e) => return Err(e),
            };
            if n == 0 {
                let sr = self.seek(0, fs);
                proof {
                    lemma_added_push(calls0, c2, fs.calls().last());
                }
                match sr {
                    Ok(()) => {},
                    Err(e) => return Err(e),
                }
                assert(forall|i: int| 0 <= i < filled ==> #[trigger] bytes@[i] == before[i]);
            } else {
                proof {
                    assert forall|i: int| 0 <= i < filled + n implies #[trigger] bytes@[i] == orig.pcm_byte(start + i) by {
                        if i < filled {
                            assert(bytes@[i] == before[i]);
                        } else {
                            assert(bytes@[i] == final(chunk)@[i - filled]);
                            assert(final(chunk)@.subrange(0, n as int)[i - filled] == final(chunk)@[i - filled]);
                            lemma_cyclic_index(start, filled as int, i - filled, orig.pcm_len as int, pos as int);
                        }
                    }
                    lemma_cyclic_pos(start, filled as int, n as int, orig.pcm_len as int, pos as int);
                }
                filled = filled + n;
            }
        }
        Ok(())
    }
}

/// The bytes read so far end where the cursor lies, up to whole turns of the block.
proof fn lemma_turns(start: int, filled: int, len: int, pos: int) -> (q: int)
    requires
        len > 0,
        0 <= start <= len,
        filled >= 0,
        pos == cursor_after(start, filled, len) || (pos == 0 && cursor_after(start, filled, len) == len),
    ensures
        start + filled == q * len + pos,
{
    assert(0 * len == 0 && 1 * len == len) by (nonlinear_arith);
    if filled == 0 {
        if pos == start {
            0
        } else {
            1
        }
    } else {
        let m = start + filled - 1;
        lemma_fundamental_div_mod(m, len);
        let q = m / len;
        lemma_mul_is_commutative(len, q);
        assert((q + 1) * len == q * len + len) by (nonlinear_arith);
        if pos == m % len + 1 {
            q
        } else {
            q + 1
        }
    }
}

/// Reading on from the cursor reads the cyclic continuation of the block.
proof fn lemma_cyclic_index(start: int, filled: int, k: int, len: int, pos: int)
    requires
        len > 0,
        0 <= start <= len,
        filled >= 0,
        0 <= k,
        0 <= pos,
        pos + k < len,
        pos == cursor_after(start, filled, len) || (pos == 0 && cursor_after(start, filled, len) == len),
    ensures
        pos + k == (start + filled + k) % len,
{
    let q = lemma_turns(start, filled, len, pos);
    lemma_fundamental_div_mod_converse(start + filled + k, len, q, pos + k);
}

/// Where the cursor lies after `n` more bytes were read.
proof fn lemma_cyclic_pos(start: int, filled: int, n: int, len: int, pos: int)
    requires
        len > 0,
        0 <= start <= len,
        filled >= 0,
        n > 0,
        0 <= pos,
        pos + n <= len,
        pos == cursor_after(start, filled, len) || (pos == 0 && cursor_after(start, filled, len) == len),
    ensures
        pos + n == cursor_after(start, filled + n, len),
{
    let q = lemma_turns(start, filled, len, pos);
    lemma_fundamental_div_mod_converse(start + filled + n - 1, len, q, pos + n - 1);
}

} // verus!
