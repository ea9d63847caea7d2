//! The mathematical model of a differential copy: how two regions split into
//! chunk pairs, what each pair contributes to the totals, and what the output
//! region holds afterwards.

use vstd::prelude::*;

verus! {

/// The smaller of two naturals.
pub open spec fn least(a: nat, b: nat) -> nat {
    if a <= b {
        a
    } else {
        b
    }
}

/// Number of chunks that a region of `len` bytes splits into: every chunk has
/// `chunk` bytes, except that the last one holds the remainder.
pub open spec fn chunk_count(len: nat, chunk: nat) -> nat {
    if len == 0 || chunk == 0 {
        0
    } else {
        ((len - 1) / (chunk as int) + 1) as nat
    }
}

/// Number of chunk pairs: the two chunk sequences are walked in lockstep and
/// the walk stops with the shorter one.
pub open spec fn pair_count(in_len: nat, out_len: nat, chunk: nat) -> nat {
    least(chunk_count(in_len, chunk), chunk_count(out_len, chunk))
}

/// Length of the chunk that starts at offset `pos` of a region of `len`
/// bytes; zero where the region ends before `pos`.
pub open spec fn chunk_len_at(len: nat, chunk: nat, pos: nat) -> nat {
    if pos >= len {
        0
    } else {
        least(chunk, (len - pos) as nat)
    }
}

/// Number of bytes that are compared, and copied on a mismatch, for the chunk
/// pair that starts at offset `pos`.
pub open spec fn paired_len_at(in_len: nat, out_len: nat, chunk: nat, pos: nat) -> nat {
    least(chunk_len_at(in_len, chunk, pos), chunk_len_at(out_len, chunk, pos))
}

/// Whether the two regions differ somewhere in the `n` bytes from `pos` on.
pub open spec fn differs_at(input: Seq<u8>, output: Seq<u8>, pos: nat, n: nat) -> bool {
    exists|p: int| pos <= p < pos + n && #[trigger] input[p] != output[p]
}

/// What the chunk pair at offset `pos` adds to the bytes written: its compared
/// length where the pair differs, nothing where it is equal.
pub open spec fn written_at(input: Seq<u8>, output: Seq<u8>, chunk: nat, pos: nat) -> nat {
    let n = paired_len_at(input.len(), output.len(), chunk, pos);
    if differs_at(input, output, pos, n) {
        n
    } else {
        0
    }
}

/// The output region with the `n` bytes from `pos` on taken from the input.
pub open spec fn patched(input: Seq<u8>, output: Seq<u8>, pos: nat, n: nat) -> Seq<u8> {
    Seq::new(
        output.len(),
        |p: int|
            if pos <= p < pos + n {
                input[p]
            } else {
                output[p]
            },
    )
}

/// Bytes written by the first `k` chunk pairs.
pub open spec fn written_upto(input: Seq<u8>, output: Seq<u8>, chunk: nat, k: nat) -> nat
    decreases k,
{
    if k == 0 {
        0
    } else {
        written_upto(input, output, chunk, (k - 1) as nat) + written_at(
            input,
            output,
            chunk,
            ((k - 1) * chunk) as nat,
        )
    }
}

/// Bytes observed from the input by a whole run: every paired input chunk in
/// full, whether or not the output chunk beside it is shorter.
pub open spec fn total_read(in_len: nat, out_len: nat, chunk: nat) -> nat {
    least(in_len, pair_count(in_len, out_len, chunk) * chunk)
}

/// Bytes written to the output by a whole run.
pub open spec fn total_written(input: Seq<u8>, output: Seq<u8>, chunk: nat) -> nat {
    written_upto(input, output, chunk, pair_count(input.len(), output.len(), chunk))
}

/// The output region after a whole run: the input's bytes as far as both
/// regions reach, and the output's own bytes behind that.
pub open spec fn overlay(input: Seq<u8>, output: Seq<u8>) -> Seq<u8> {
    Seq::new(
        output.len(),
        |p: int|
            if p < input.len() {
                input[p]
            } else {
                output[p]
            },
    )
}

/// A chunk with index `k` exists in a region exactly when its start offset
/// lies inside the region.
pub proof fn lemma_chunk_exists(len: nat, chunk: nat, k: nat)
    requires
        chunk > 0,
    ensures
        k < chunk_count(len, chunk) <==> k * chunk < len,
{
    if len > 0 {
        let x = len - 1;
        let d = chunk as int;
        let q = x / d;
        vstd::arithmetic::div_mod::lemma_fundamental_div_mod(x, d);
        vstd::arithmetic::div_mod::lemma_mod_bound(x, d);
        assert(x == d * q + x % d);
        if (k as int) <= q {
            assert(k * d <= q * d) by (nonlinear_arith)
                requires
                    k <= q,
                    d > 0,
            ;
            assert(q * d == d * q) by (nonlinear_arith);
        } else {
            assert(k * d >= (q + 1) * d) by (nonlinear_arith)
                requires
                    k >= q + 1,
                    d > 0,
            ;
            assert((q + 1) * d == d * q + d) by (nonlinear_arith);
        }
    } else {
        assert(k * chunk >= 0) by (nonlinear_arith);
    }
}

/// The start offset of the chunk after `k` lies one chunk further on.
pub proof fn lemma_next_start(chunk: nat, k: nat)
    ensures
        (k + 1) * chunk == k * chunk + chunk,
        k * chunk >= 0,
{
    assert((k + 1) * chunk == k * chunk + chunk) by (nonlinear_arith);
    assert(k * chunk >= 0) by (nonlinear_arith);
}

} // verus!
