//! The differential copy engine.

use vstd::prelude::*;
use crate::error::Error;
use crate::model::{
    chunk_len_at, differs_at, least, lemma_chunk_exists, lemma_next_start, overlay, pair_count,
    paired_len_at, patched, total_read, total_written, written_at, written_upto,
};

verus! {

/// The running totals of a copy: bytes observed from the input, and bytes
/// actually written to the output.
#[derive(Clone, Copy, Debug, PartialEq, Eq)]
pub struct Counters {
    pub bytes_read: usize,
    pub bytes_written: usize,
}

/// A byte count in whole mebibytes, truncated toward zero.
pub fn whole_mebibytes(bytes: usize) -> (mib: usize)
    ensures
        mib == bytes / 1048576,
{
    bytes / 1048576
}

/// Whether two regions hold the same `n` bytes from offset `pos` on.
fn same_bytes(input: &[u8], output: &[u8], pos: usize, n: usize) -> (same: bool)
    requires
        pos + n <= input@.len(),
        pos + n <= output@.len(),
    ensures
        same == !differs_at(input@, output@, pos as nat, n as nat),
{
    let in_len: usize = input.len();
    let mut i: usize = 0;
    while i < n
        invariant
            i <= n,
            pos + n <= in_len,
            in_len == input@.len(),
            pos + n <= output@.len(),
            forall|p: int| pos <= p < pos + i ==> input@[p] == output@[p],
        decreases n - i,
    {
        if input[pos + i] != output[pos + i] {
            assert(input@[pos + i] != output@[pos + i]);
            return false;
        }
        i += 1;
    }
    true
}

/// Overwrites the `n` bytes of the output from offset `pos` on with the
/// input's.
fn copy_bytes(input: &[u8], output: &mut [u8], pos: usize, n: usize)
    requires
        pos + n <= input@.len(),
        pos + n <= old(output)@.len(),
    ensures
        final(output)@ == patched(input@, old(output)@, pos as nat, n as nat),
{
    let in_len: usize = input.len();
    let mut i: usize = 0;
    assert(output@ =~= patched(input@, old(output)@, pos as nat, 0));
    while i < n
        invariant
            i <= n,
            pos + n <= in_len,
            in_len == input@.len(),
            output@.len() == old(output)@.len(),
            pos + n <= output@.len(),
            output@ == patched(input@, old(output)@, pos as nat, i as nat),
        decreases n - i,
    {
        output[pos + i] = input[pos + i];
        assert(output@ =~= patched(input@, old(output)@, pos as nat, (i + 1) as nat));
        i += 1;
    }
}

/// A differential copy in progress: the chunk size, the index of the next
/// chunk pair, and the totals so far.
pub struct DiffCopy {
    chunk_size: usize,
    index: usize,
    totals: Counters,
}

impl DiffCopy {
    /// The chunk size of this copy.
    pub closed spec fn chunk_size(self) -> nat {
        self.chunk_size as nat
    }

    /// The index of the chunk pair that comes next.
    pub closed spec fn index(self) -> nat {
        self.index as nat
    }

    /// The totals over the chunk pairs done so far.
    pub closed spec fn totals(self) -> Counters {
        self.totals
    }

    /// The start offset of the chunk pair that comes next.
    pub open spec fn offset(self) -> nat {
        self.index() * self.chunk_size()
    }

    /// The chunk size is positive, writes never exceed reads, and no more was
    /// read than the chunks done so far can hold.
    pub open spec fn wf(self) -> bool {
        &&& self.chunk_size() > 0
        &&& self.totals().bytes_written <= self.totals().bytes_read
        &&& self.totals().bytes_read <= self.offset()
    }

    /// Starts a copy with zeroed totals. A chunk size of zero is rejected.
    pub fn new(chunk_size: usize) -> (r: Result<DiffCopy, Error>)
        ensures
            r is Err <==> chunk_size == 0,
            r matches Err(e) ==> e is InvalidConfig,
            r matches Ok(run) ==> {
                &&& run.wf()
                &&& run.chunk_size() == chunk_size
                &&& run.index() == 0
                &&& run.totals() == (Counters { bytes_read: 0, bytes_written: 0 })
            },
    {
        if chunk_size == 0 {
            return Err(Error::zero_chunk_size());
        }
        proof {
            lemma_next_start(chunk_size as nat, 0);
        }
        Ok(DiffCopy { chunk_size, index: 0, totals: Counters { bytes_read: 0, bytes_written: 0 } })
    }

    /// The totals so far.
    pub fn counters(&self) -> (c: Counters)
        requires
            self.wf(),
        ensures
            c == self.totals(),
            c.bytes_written <= c.bytes_read,
    {
        self.totals
    }

    /// Handles the next chunk pair, if there is one: counts the input chunk
    /// in full, compares the pair over the length both chunks have, and
    /// overwrites that much of the output chunk where the two differ.
    /// Returns whether there was a pair left.
    pub fn advance(&mut self, input: &[u8], output: &mut [u8]) -> (stepped: bool)
        requires
            old(self).wf(),
        ensures
            final(self).wf(),
            final(self).chunk_size() == old(self).chunk_size(),
            stepped <==> old(self).index() < pair_count(
                input@.len(),
                old(output)@.len(),
                old(self).chunk_size(),
            ),
            !stepped ==> *final(self) == *old(self) && final(output)@ == old(output)@,
            stepped ==> {
                let chunk = old(self).chunk_size();
                let pos = old(self).offset();
                let n = paired_len_at(input@.len(), old(output)@.len(), chunk, pos);
                &&& final(self).index() == old(self).index() + 1
                &&& final(self).totals().bytes_read == old(self).totals().bytes_read
                    + chunk_len_at(input@.len(), chunk, pos)
                &&& final(self).totals().bytes_written == old(self).totals().bytes_written
                    + written_at(input@, old(output)@, chunk, pos)
                &&& final(output)@ == patched(input@, old(output)@, pos, n)
            },
    {
        let in_len: usize = input.len();
        let out_len: usize = output.len();
        let chunk: usize = self.chunk_size;
        proof {
            lemma_chunk_exists(in_len as nat, chunk as nat, self.index as nat);
            lemma_chunk_exists(out_len as nat, chunk as nat, self.index as nat);
            lemma_next_start(chunk as nat, self.index as nat);
        }
        let pos: usize = match self.index.checked_mul(chunk) {
            Some(pos) => pos,
            None => {
                return false;
            },
        };
        if pos >= in_len || pos >= out_len {
            return false;
        }
        let in_n: usize = if in_len - pos < chunk {
            in_len - pos
        } else {
            chunk
        };
        let out_n: usize = if out_len - pos < chunk {
            out_len - pos
        } else {
            chunk
        };
        let n: usize = if in_n <= out_n {
            in_n
        } else {
            out_n
        };
        let mut written: usize = 0;
        if !same_bytes(input, output, pos, n) {
            copy_bytes(input, output, pos, n);
            written = n;
        } else {
            assert(output@ =~= patched(input@, output@, pos as nat, n as nat));
        }
        self.totals.bytes_read = self.totals.bytes_read + in_n;
        self.totals.bytes_written = self.totals.bytes_written + written;
        self.index = self.index + 1;
        true
    }
}

/// Copies `input` over `output` chunk pair by chunk pair, writing only the
/// pairs that differ, and returns the totals.
///
/// A chunk size of zero is rejected and leaves the output untouched.
/// Otherwise the output ends up holding the input's bytes as far as both
/// regions reach, and its own bytes behind that; every paired input chunk
/// counts in full as read, and every pair that differed counts with its
/// compared length as written.
pub fn copy_diff(input: &[u8], output: &mut [u8], chunk_size: usize) -> (r: Result<
    Counters,
    Error,
>)
    ensures
        r is Err <==> chunk_size == 0,
        r matches Err(e) ==> e is InvalidConfig && final(output)@ == old(output)@,
        r matches Ok(c) ==> {
            &&& final(output)@ == overlay(input@, old(output)@)
            &&& c.bytes_read == total_read(input@.len(), old(output)@.len(), chunk_size as nat)
            &&& c.bytes_written == total_written(input@, old(output)@, chunk_size as nat)
            &&& c.bytes_written <= c.bytes_read
        },
{
    copy_diff_reporting(input, output, chunk_size, |_totals: Counters| {})
}

/// Does what `copy_diff` does, and after each chunk pair hands the running
/// totals to `report`. The totals that `report` sees never show more bytes
/// written than read.
pub fn copy_diff_reporting<F: Fn(Counters)>(
    input: &[u8],
    output: &mut [u8],
    chunk_size: usize,
    report: F,
) -> (r: Result<Counters, Error>)
    requires
        forall|c: Counters| c.bytes_written <= c.bytes_read ==> call_requires(report, (c,)),
    ensures
        r is Err <==> chunk_size == 0,
        r matches Err(e) ==> e is InvalidConfig && final(output)@ == old(output)@,
        r matches Ok(c) ==> {
            &&& final(output)@ == overlay(input@, old(output)@)
            &&& c.bytes_read == total_read(input@.len(), old(output)@.len(), chunk_size as nat)
            &&& c.bytes_written == total_written(input@, old(output)@, chunk_size as nat)
            &&& c.bytes_written <= c.bytes_read
        },
{
    let mut run = match DiffCopy::new(chunk_size) {
        Ok(run) => run,
        Err(e) => {
            return Err(e);
        },
    };
    let ghost chunk = chunk_size as nat;
    let ghost pairs = pair_count(input@.len(), output@.len(), chunk);
    loop
        invariant
            run.wf(),
            run.chunk_size() == chunk,
            chunk > 0,
            output@.len() == old(output)@.len(),
            pairs == pair_count(input@.len(), old(output)@.len(), chunk),
            forall|c: Counters| c.bytes_written <= c.bytes_read ==> call_requires(report, (c,)),
            run.index() <= pairs,
            run.totals().bytes_read == least(input@.len(), run.offset()),
            run.totals().bytes_written == written_upto(
                input@,
                old(output)@,
                chunk,
                run.index(),
            ),
            forall|p: int|
                0 <= p < output@.len() ==> output@[p] == if p < run.offset() && p < input@.len() {
                    input@[p]
                } else {
                    old(output)@[p]
                },
        ensures
            run.index() == pairs,
        decreases pairs - run.index(),
    {
        let ghost before = output@;
        let ghost k = run.index();
        let ghost pos = run.offset();
        proof {
            lemma_chunk_exists(input@.len(), chunk, k);
            lemma_chunk_exists(output@.len(), chunk, k);
            lemma_next_start(chunk, k);
        }
        if !run.advance(input, output) {
            break ;
        }
        proof {
            let n = paired_len_at(input@.len(), before.len(), chunk, pos);
            assert(differs_at(input@, before, pos, n) == differs_at(
                input@,
                old(output)@,
                pos,
                n,
            ));
        }
        report(run.counters());
    }
    proof {
        let k = run.index();
        lemma_chunk_exists(input@.len(), chunk, k);
        lemma_chunk_exists(output@.len(), chunk, k);
        assert(output@ =~= overlay(input@, old(output)@));
    }
    Ok(run.counters())
}

} // verus!
