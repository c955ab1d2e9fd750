//! Fetched bytes, as the execution runtime hands them to `decode`.
//!
//! Scheduling names byte ranges; the runtime reads them (out of this layer's
//! scope) and presents the results as a `FetchedData`: the ranges beside the
//! bytes each one returned. `fetch` is the reference runtime over an
//! in-memory file, used by callers that already hold the whole file.

use vstd::prelude::*;

use crate::errors::ExecutionError;

verus! {

/// Byte ranges beside the bytes each one returned.
#[derive(Debug)]
pub struct FetchedData {
    /// The `(offset, length)` ranges that were read.
    pub ranges: Vec<(u64, u64)>,
    /// The bytes of each range, in the same order.
    pub chunks: Vec<Vec<u8>>,
}

impl FetchedData {
    /// Well-formed fetched data: one chunk per range, each chunk exactly as
    /// long as its range, each range within the address space.
    pub open spec fn wf(&self) -> bool {
        &&& self.ranges@.len() == self.chunks@.len()
        &&& forall|i: int|
            0 <= i < self.ranges@.len() ==> (#[trigger] self.chunks@[i])@.len()
                == self.ranges@[i].1
        &&& forall|i: int|
            0 <= i < self.ranges@.len() ==> (#[trigger] self.ranges@[i]).0 + self.ranges@[i].1
                <= u64::MAX
    }

    /// Whether every chunk holds exactly the file's bytes at its range.
    pub open spec fn agrees_with(&self, file: Seq<u8>) -> bool {
        forall|i: int|
            0 <= i < self.ranges@.len() ==> {
                &&& (#[trigger] self.ranges@[i]).0 + self.ranges@[i].1 <= file.len()
                &&& self.chunks@[i]@ == file.subrange(
                    self.ranges@[i].0 as int,
                    self.ranges@[i].0 + self.ranges@[i].1,
                )
            }
    }

    /// Whether the byte range is inside one of the fetched ranges.
    pub open spec fn covers(&self, offset: u64, length: u64) -> bool {
        exists|i: int|
            0 <= i < self.ranges@.len() && (#[trigger] self.ranges@[i]).0 <= offset && offset
                + length <= self.ranges@[i].0 + self.ranges@[i].1
    }

    /// Whether every range in the sequence is covered.
    pub open spec fn covers_all(&self, ranges: Seq<(u64, u64)>) -> bool {
        forall|j: int|
            0 <= j < ranges.len() ==> self.covers(
                (#[trigger] ranges[j]).0,
                ranges[j].1,
            )
    }

    /// The bytes at a byte range, copied out of whichever fetched range
    /// holds it; an error if no fetched range does.
    pub fn get(&self, offset: u64, length: u64) -> (r: Result<Vec<u8>, ExecutionError>)
        requires
            self.wf(),
        ensures
            r is Ok <==> self.covers(offset, length),
            r is Err ==> r == Err::<Vec<u8>, ExecutionError>(
                ExecutionError::MissingData { offset, length },
            ),
            r matches Ok(b) ==> b@.len() == length && forall|file: Seq<u8>|
                #[trigger] self.agrees_with(file) ==> offset + length <= file.len() && b@
                    == file.subrange(offset as int, offset + length),
    {
        let mut i: usize = 0;
        while i < self.ranges.len()
            invariant
                self.wf(),
                i <= self.ranges@.len(),
                forall|k: int|
                    0 <= k < i as int ==> !((#[trigger] self.ranges@[k]).0 <= offset && offset
                        + length <= self.ranges@[k].0 + self.ranges@[k].1),
            decreases self.ranges@.len() - i,
        {
            let (start, len) = self.ranges[i];
            if start <= offset && length <= len && offset - start <= len - length {
                let chunk = &self.chunks[i];
                let chunk_len: usize = chunk.len();
                proof {
                    assert(chunk@.len() == len);
                    assert(self.covers(offset, length)) by {
                        assert((#[trigger] self.ranges@[i as int]).0 <= offset && offset + length
                            <= self.ranges@[i as int].0 + self.ranges@[i as int].1);
                    }
                }
                let base = (offset - start) as usize;
                let mut out: Vec<u8> = Vec::new();
                let mut j: usize = 0;
                while j < length as usize
                    invariant
                        self.wf(),
                        i < self.ranges@.len(),
                        (start, len) == self.ranges@[i as int],
                        chunk == &self.chunks@[i as int],
                        chunk@.len() == len,
                        chunk_len as nat == chunk@.len(),
                        base == offset - start,
                        start <= offset,
                        offset + length <= start + len,
                        length <= usize::MAX,
                        j <= length,
                        out@.len() == j as nat,
                        forall|k: int|
                            0 <= k < j as int ==> out@[k] == chunk@[base + k],
                    decreases length - j,
                {
                    out.push(chunk[base + j]);
                    j = j + 1;
                }
                proof {
                    assert forall|file: Seq<u8>| #[trigger]
                        self.agrees_with(file) implies offset + length <= file.len() && out@
                        == file.subrange(offset as int, offset + length) by {
                        assert(self.chunks@[i as int]@ == file.subrange(
                            start as int,
                            start + len,
                        ));
                        assert(out@ =~= file.subrange(offset as int, offset + length)) by {
                            assert forall|k: int| 0 <= k < length as int implies out@[k]
                                == file.subrange(offset as int, offset + length)[k] by {
                                assert(out@[k] == chunk@[base + k]);
                                assert(chunk@[base + k] == file.subrange(start as int, start + len)[
                                    base + k
                                ]);
                            }
                        }
                    }
                }
                return Ok(out);
            }
            i = i + 1;
        }
        proof {
            assert(!self.covers(offset, length));
        }
        Err(ExecutionError::MissingData { offset, length })
    }
}

/// Read the requested byte ranges out of an in-memory file: the reference
/// execution runtime for callers that already hold the whole file. Fails if
/// a range reaches past the end of the file.
pub fn fetch(file: &Vec<u8>, ranges: &Vec<(u64, u64)>) -> (r: Result<FetchedData, ExecutionError>)
    ensures
        r matches Ok(fd) ==> {
            &&& fd.wf()
            &&& fd.agrees_with(file@)
            &&& fd.ranges@ == ranges@
            &&& fd.covers_all(ranges@)
        },
        r is Err <==> exists|j: int|
            0 <= j < ranges@.len() && (#[trigger] ranges@[j]).0 + ranges@[j].1 > file@.len(),
{
    let mut chunks: Vec<Vec<u8>> = Vec::new();
    let mut taken: Vec<(u64, u64)> = Vec::new();
    let mut i: usize = 0;
    while i < ranges.len()
        invariant
            i <= ranges@.len(),
            taken@ =~= ranges@.subrange(0, i as int),
            chunks@.len() == i as nat,
            forall|k: int|
                0 <= k < i as int ==> (#[trigger] ranges@[k]).0 + ranges@[k].1 <= file@.len(),
            forall|k: int|
                0 <= k < i as int ==> (#[trigger] chunks@[k])@ == file@.subrange(
                    ranges@[k].0 as int,
                    ranges@[k].0 + ranges@[k].1,
                ),
        decreases ranges@.len() - i,
    {
        let (start, len) = ranges[i];
        let file_len: usize = file.len();
        if start > file_len as u64 || len > file_len as u64 - start {
            return Err(ExecutionError::MissingData { offset: start, length: len });
        }
        let mut chunk: Vec<u8> = Vec::new();
        let mut j: usize = 0;
        while j < len as usize
            invariant
                file_len as nat == file@.len(),
                start + len <= file@.len(),
                file@.len() <= usize::MAX,
                j <= len,
                chunk@.len() == j as nat,
                forall|k: int| 0 <= k < j as int ==> chunk@[k] == file@[start + k],
            decreases len - j,
        {
            chunk.push(file[(start as usize) + j]);
            j = j + 1;
        }
        proof {
            assert(chunk@ =~= file@.subrange(start as int, start + len));
            assert(taken@.push(ranges@[i as int]) =~= ranges@.subrange(0, i + 1));
        }
        chunks.push(chunk);
        taken.push((start, len));
        i = i + 1;
    }
    let fd = FetchedData { ranges: taken, chunks };
    proof {
        assert(fd.ranges@ =~= ranges@);
        assert(fd.wf()) by {
            assert(file.len() == file@.len());
            assert(file@.len() <= usize::MAX as nat);
            assert(forall|k: int|
                0 <= k < fd.ranges@.len() ==> (#[trigger] fd.ranges@[k]).0 + fd.ranges@[k].1
                    <= file@.len());
        }
        assert(fd.agrees_with(file@));
        assert(fd.covers_all(ranges@)) by {
            assert forall|j: int| 0 <= j < ranges@.len() implies fd.covers(
                (#[trigger] ranges@[j]).0,
                ranges@[j].1,
            ) by {
                assert((#[trigger] fd.ranges@[j]).0 <= ranges@[j].0 && ranges@[j].0 + ranges@[j].1
                    <= fd.ranges@[j].0 + fd.ranges@[j].1);
            }
        }
    }
    Ok(fd)
}

} // verus!
