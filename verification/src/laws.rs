//! What holds of every differential copy, stated over the model that the
//! engine's contracts use.

use vstd::prelude::*;
use crate::model::{
    chunk_count, differs_at, least, lemma_chunk_exists, lemma_next_start, overlay, pair_count,
    paired_len_at, total_read, total_written, written_at, written_upto,
};

verus! {

/// A longer region has at least as many chunks.
pub proof fn lemma_chunk_count_monotone(shorter: nat, longer: nat, chunk: nat)
    requires
        chunk > 0,
        shorter <= longer,
    ensures
        chunk_count(shorter, chunk) <= chunk_count(longer, chunk),
{
    let k = chunk_count(longer, chunk);
    lemma_chunk_exists(longer, chunk, k);
    lemma_chunk_exists(shorter, chunk, k);
}

/// The first `k` chunk pairs write no more bytes than they span, and no more
/// than either region holds.
pub proof fn lemma_written_bounded(input: Seq<u8>, output: Seq<u8>, chunk: nat, k: nat)
    requires
        chunk > 0,
    ensures
        written_upto(input, output, chunk, k) <= k * chunk,
        written_upto(input, output, chunk, k) <= input.len(),
        written_upto(input, output, chunk, k) <= output.len(),
    decreases k,
{
    if k > 0 {
        let j = (k - 1) as nat;
        lemma_written_bounded(input, output, chunk, j);
        lemma_next_start(chunk, j);
    }
}

/// Where the two regions agree wherever both reach, no chunk pair writes.
pub proof fn lemma_agreeing_regions_write_nothing(
    input: Seq<u8>,
    output: Seq<u8>,
    chunk: nat,
    k: nat,
)
    requires
        forall|p: int| 0 <= p < input.len() && p < output.len() ==> input[p] == output[p],
    ensures
        written_upto(input, output, chunk, k) == 0,
    decreases k,
{
    if k > 0 {
        let j = (k - 1) as nat;
        lemma_agreeing_regions_write_nothing(input, output, chunk, j);
        lemma_next_start(chunk, j);
        let pos = (j * chunk) as nat;
        let n = paired_len_at(input.len(), output.len(), chunk, pos);
        assert(!differs_at(input, output, pos, n));
    }
}

/// Two inputs that agree as far as the output reaches, and reach at least as
/// far, make the first `k` chunk pairs write the same number of bytes.
pub proof fn lemma_written_reads_output_span(
    input: Seq<u8>,
    other: Seq<u8>,
    output: Seq<u8>,
    chunk: nat,
    k: nat,
)
    requires
        output.len() <= input.len(),
        output.len() <= other.len(),
        forall|p: int| 0 <= p < output.len() ==> input[p] == other[p],
    ensures
        written_upto(input, output, chunk, k) == written_upto(other, output, chunk, k),
    decreases k,
{
    if k > 0 {
        let j = (k - 1) as nat;
        lemma_written_reads_output_span(input, other, output, chunk, j);
        lemma_next_start(chunk, j);
        let pos = (j * chunk) as nat;
        let n = paired_len_at(input.len(), output.len(), chunk, pos);
        assert(n == paired_len_at(other.len(), output.len(), chunk, pos));
        if differs_at(input, output, pos, n) {
            let p = choose|p: int| pos <= p < pos + n && #[trigger] input[p] != output[p];
            assert(other[p] != output[p]);
        }
        if differs_at(other, output, pos, n) {
            let p = choose|p: int| pos <= p < pos + n && #[trigger] other[p] != output[p];
            assert(input[p] != output[p]);
        }
        assert(written_at(input, output, chunk, pos) == written_at(other, output, chunk, pos));
    }
}

/// A run never writes more bytes than it reads.
pub proof fn law_written_at_most_read(input: Seq<u8>, output: Seq<u8>, chunk: nat)
    requires
        chunk > 0,
    ensures
        total_written(input, output, chunk) <= total_read(input.len(), output.len(), chunk),
{
    lemma_written_bounded(input, output, chunk, pair_count(input.len(), output.len(), chunk));
}

/// Where the output reaches at least as far as the input, a run reads the
/// whole input.
pub proof fn law_input_within_output_is_read_whole(in_len: nat, out_len: nat, chunk: nat)
    requires
        chunk > 0,
        in_len <= out_len,
    ensures
        total_read(in_len, out_len, chunk) == in_len,
{
    lemma_chunk_count_monotone(in_len, out_len, chunk);
    lemma_chunk_exists(in_len, chunk, chunk_count(in_len, chunk));
}

/// A run over two regions that start out byte-identical and of equal length
/// writes nothing and leaves the output as it was.
pub proof fn law_identical_regions_untouched(input: Seq<u8>, output: Seq<u8>, chunk: nat)
    requires
        input == output,
    ensures
        total_written(input, output, chunk) == 0,
        overlay(input, output) == output,
{
    lemma_agreeing_regions_write_nothing(
        input,
        output,
        chunk,
        pair_count(input.len(), output.len(), chunk),
    );
    assert(overlay(input, output) =~= output);
}

/// A run is idempotent: a second run on the same input and the output that
/// the first run left writes nothing and leaves that output as it is.
pub proof fn law_second_run_writes_nothing(input: Seq<u8>, output: Seq<u8>, chunk: nat)
    ensures
        total_written(input, overlay(input, output), chunk) == 0,
        overlay(input, overlay(input, output)) == overlay(input, output),
{
    let after = overlay(input, output);
    lemma_agreeing_regions_write_nothing(
        input,
        after,
        chunk,
        pair_count(input.len(), after.len(), chunk),
    );
    assert(overlay(input, after) =~= after);
}

/// With an output shorter than the input, only the input's bytes as far as
/// the output reaches are compared and copied: any other input that agrees
/// on them gives the same output and the same bytes written, which never
/// exceed the output's length. Every input chunk that has an output chunk
/// beside it still counts in full as read.
pub proof fn law_short_output_bounds_the_copy(
    input: Seq<u8>,
    other: Seq<u8>,
    output: Seq<u8>,
    chunk: nat,
)
    requires
        chunk > 0,
        output.len() < input.len(),
        output.len() <= other.len(),
        forall|p: int| 0 <= p < output.len() ==> input[p] == other[p],
    ensures
        overlay(input, output) == input.take(output.len() as int),
        overlay(input, output) == overlay(other, output),
        total_written(input, output, chunk) == total_written(other, output, chunk),
        total_written(input, output, chunk) <= output.len(),
        total_read(input.len(), output.len(), chunk) == least(
            input.len(),
            chunk_count(output.len(), chunk) * chunk,
        ),
        total_read(input.len(), output.len(), chunk) >= output.len(),
{
    let pairs = chunk_count(output.len(), chunk);
    lemma_chunk_count_monotone(output.len(), input.len(), chunk);
    lemma_chunk_count_monotone(output.len(), other.len(), chunk);
    lemma_written_reads_output_span(input, other, output, chunk, pairs);
    lemma_written_bounded(input, output, chunk, pairs);
    lemma_chunk_exists(output.len(), chunk, pairs);
    assert(overlay(input, output) =~= input.take(output.len() as int));
    assert(overlay(input, output) =~= overlay(other, output));
}

} // verus!
