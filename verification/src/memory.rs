use vstd::prelude::*;
use crate::fs::{FileHandler, FsCall, SeekFrom};

verus! {

/// Why a call to `MemoryFiles` failed.
#[derive(Copy, Clone, PartialEq, Eq, Structural, Debug)]
pub enum MemoryError {
    /// No file is stored under the path.
    NotFound,
    /// The seek would put the cursor before the start of the file or past `u64::MAX`.
    BadSeek,
    /// Every handle has been given out.
    NoHandle,
}

/// A file opened from `MemoryFiles`: its handle, its bytes and its cursor.
pub struct MemoryFile {
    handle: u64,
    data: Vec<u8>,
    cursor: u64,
}

/// Files held in memory under their paths; a file added under a path hides the one added
/// before it under the same path. Handles are numbered from 0 in the order they are
/// given out.
pub struct MemoryFiles {
    files: Vec<(String, Vec<u8>)>,
    next_handle: u64,
    log: Ghost<Seq<FsCall<MemoryError>>>,
}

/// The bytes stored under `path` in `files`: those of the last file added under it, or
/// none.
pub open spec fn stored_in(files: Seq<(String, Vec<u8>)>, path: Seq<char>) -> Seq<u8>
    decreases files.len(),
{
    if files.len() == 0 {
        Seq::empty()
    } else if files.last().0@ == path {
        files.last().1@
    } else {
        stored_in(files.drop_last(), path)
    }
}

/// `base + delta`, when it is a cursor.
fn offset(base: u64, delta: i64) -> (r: Option<u64>)
    ensures
        r matches Some(p) ==> p == base + delta,
        r is None <==> (base + delta < 0 || base + delta > u64::MAX),
{
    let t: i128 = base as i128 + delta as i128;
    if t < 0 || t > 0xffff_ffff_ffff_ffffi128 {
        None
    } else {
        Some(t as u64)
    }
}

impl MemoryFiles {
    /// No files, and no calls made.
    pub fn new() -> (r: Self)
        ensures
            r.calls() == Seq::<FsCall<MemoryError>>::empty(),
            forall|p: Seq<char>| #[trigger] r.stored(p) == Seq::<u8>::empty(),
    {
        MemoryFiles { files: Vec::new(), next_handle: 0, log: Ghost(Seq::empty()) }
    }

    /// Stores `bytes` under `path`, in place of what was stored there.
    pub fn add(&mut self, path: &str, bytes: Vec<u8>)
        ensures
            final(self).calls() == old(self).calls(),
            final(self).stored(path@) == bytes@,
            forall|p: Seq<char>| p != path@ ==> #[trigger] final(self).stored(p) == old(self).stored(p),
    {
        let ghost before = self.files@;
        self.files.push((path.to_owned(), bytes));
        proof {
            assert(self.files@.drop_last() =~= before);
        }
    }
}

impl FileHandler for MemoryFiles {
    type Error = MemoryError;
    type File = MemoryFile;

    closed spec fn calls(&self) -> Seq<FsCall<MemoryError>> {
        self.log@
    }

    closed spec fn handle(file: &MemoryFile) -> int {
        file.handle as int
    }

    closed spec fn contents(file: &MemoryFile) -> Seq<u8> {
        file.data@
    }

    closed spec fn cursor(file: &MemoryFile) -> int {
        file.cursor as int
    }

    closed spec fn stored(&self, path: Seq<char>) -> Seq<u8> {
        stored_in(self.files@, path)
    }

    fn open(&mut self, path: &str) -> (res: Result<MemoryFile, MemoryError>) {
        let wanted = path.to_owned();
        let mut i: usize = self.files.len();
        assert(self.files@.subrange(0, i as int) =~= self.files@);
        while i > 0
            invariant
                i <= self.files@.len(),
                self.files@ == old(self).files@,
                self.log@ == old(self).log@,
                self.next_handle == old(self).next_handle,
                wanted@ == path@,
                stored_in(self.files@, path@) == stored_in(self.files@.subrange(0, i as int), path@),
            decreases i,
        {
            proof {
                let s = self.files@.subrange(0, i as int);
                assert(s.drop_last() =~= self.files@.subrange(0, i - 1));
                assert(s.last() == self.files@[i - 1]);
            }
            if self.files[i - 1].0 == wanted {
                if self.next_handle == 0xffff_ffff_ffff_ffff {
                    self.log = Ghost(self.log@.push(FsCall::Open { path: path@, res: Err(MemoryError::NoHandle) }));
                    return Err(MemoryError::NoHandle);
                }
                let h = self.next_handle;
                self.next_handle = h + 1;
                let data = self.files[i - 1].1.clone();
                assert(data@ =~= self.files@[i - 1].1@);
                self.log = Ghost(self.log@.push(FsCall::Open { path: path@, res: Ok(h as int) }));
                return Ok(MemoryFile { handle: h, data, cursor: 0 });
            }
            i = i - 1;
        }
        assert(self.files@.subrange(0, 0) =~= Seq::<(String, Vec<u8>)>::empty());
        self.log = Ghost(self.log@.push(FsCall::Open { path: path@, res: Err(MemoryError::NotFound) }));
        Err(MemoryError::NotFound)
    }

    fn try_clone(&mut self, file: &MemoryFile) -> (res: Result<MemoryFile, MemoryError>) {
        if self.next_handle == 0xffff_ffff_ffff_ffff {
            self.log = Ghost(self.log@.push(FsCall::Clone { file: file.handle as int, res: Err(MemoryError::NoHandle) }));
            return Err(MemoryError::NoHandle);
        }
        let h = self.next_handle;
        self.next_handle = h + 1;
        let data = file.data.clone();
        assert(data@ =~= file.data@);
        self.log = Ghost(self.log@.push(FsCall::Clone { file: file.handle as int, res: Ok(h as int) }));
        Ok(MemoryFile { handle: h, data, cursor: file.cursor })
    }

    fn close(&mut self, file: &MemoryFile) -> (res: Result<(), MemoryError>) {
        self.log = Ghost(self.log@.push(FsCall::Close { file: file.handle as int, res: Ok(()) }));
        Ok(())
    }

    fn read(&mut self, file: &mut MemoryFile, buf: &mut [u8]) -> (res: Result<usize, MemoryError>) {
        let len = file.data.len();
        let mut n: usize = 0;
        if file.cursor < len as u64 {
            let start = file.cursor as usize;
            let left = len - start;
            let want = if buf.len() < left { buf.len() } else { left };
            while n < want
                invariant
                    n <= want,
                    want <= buf@.len(),
                    start + want <= len,
                    len == file.data@.len(),
                    start == file.cursor,
                    buf@.len() == old(buf)@.len(),
                    forall|k: int| 0 <= k < n ==> buf@[k] == file.data@[start + k],
                decreases want - n,
            {
                buf[n] = file.data[start + n];
                n = n + 1;
            }
            assert(buf@.subrange(0, n as int) =~= file.data@.subrange(start as int, start + n));
            file.cursor = file.cursor + n as u64;
        }
        self.log = Ghost(self.log@.push(FsCall::Read {
            file: file.handle as int,
            at: old(file).cursor as int,
            len: old(buf)@.len(),
            res: Ok(n),
        }));
        Ok(n)
    }

    fn seek(&mut self, file: &mut MemoryFile, pos: SeekFrom) -> (res: Result<u64, MemoryError>) {
        let target = match pos {
            SeekFrom::Start(s) => Some(s),
            SeekFrom::End(d) => offset(file.data.len() as u64, d),
            SeekFrom::Current(d) => offset(file.cursor, d),
        };
        match target {
            Some(p) => {
                file.cursor = p;
                self.log = Ghost(self.log@.push(FsCall::Seek { file: file.handle as int, pos, res: Ok(p) }));
                Ok(p)
            },
            None => {
                self.log = Ghost(self.log@.push(FsCall::Seek { file: file.handle as int, pos, res: Err(MemoryError::BadSeek) }));
                Err(MemoryError::BadSeek)
            },
        }
    }
}

} // verus!
