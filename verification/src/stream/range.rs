//! How a file is cut into chunks of at most a given length.
use vstd::arithmetic::div_mod;
use vstd::prelude::*;

verus! {

/// A run of consecutive bytes of a file.
pub struct ChunkRange {
    pub offset: usize,
    pub len: usize,
}

/// The number of chunks of `max_len` bytes that cover `total` bytes.
pub open spec fn chunk_count(total: nat, max_len: nat) -> nat {
    ((total + max_len - 1) / max_len as int) as nat
}

/// Where the `k`-th chunk begins.
pub open spec fn chunk_start(k: nat, max_len: nat) -> nat {
    k * max_len
}

/// The length of the `k`-th chunk: `max_len`, or what is left of the file.
pub open spec fn chunk_len(k: nat, total: nat, max_len: nat) -> nat {
    let left = total - chunk_start(k, max_len);
    if left <= 0 {
        0
    } else if left < max_len {
        left as nat
    } else {
        max_len
    }
}

/// The number of chunks is the number of multiples of `max_len` below `total`.
pub proof fn lemma_chunk_count(total: nat, max_len: nat, k: nat)
    requires
        max_len > 0,
    ensures
        k < chunk_count(total, max_len) <==> chunk_start(k, max_len) < total,
        chunk_count(total, max_len) <= total,
        total > 0 ==> chunk_count(total, max_len) >= 1,
        total == 0 ==> chunk_count(total, max_len) == 0,
{
    let x = total + max_len - 1;
    let q = x / max_len as int;
    let r = x % max_len as int;
    div_mod::lemma_fundamental_div_mod(x, max_len as int);
    assert(0 <= r < max_len);
    assert(x == max_len * q + r);
    assert(q >= 0) by (nonlinear_arith)
        requires
            x == max_len * q + r,
            0 <= r < max_len,
            x >= 0,
    ;
    assert(k < q <==> k * max_len < total) by (nonlinear_arith)
        requires
            total + max_len - 1 == max_len * q + r,
            0 <= r < max_len,
    ;
    assert(q <= total) by (nonlinear_arith)
        requires
            total + max_len - 1 == max_len * q + r,
            0 <= r < max_len,
            q >= 0,
            max_len > 0,
    ;
    assert(total > 0 ==> q >= 1) by (nonlinear_arith)
        requires
            total + max_len - 1 == max_len * q + r,
            0 <= r < max_len,
    ;
    assert(total == 0 ==> q == 0) by (nonlinear_arith)
        requires
            total + max_len - 1 == max_len * q + r,
            0 <= r < max_len,
            q >= 0,
            max_len > 0,
    ;
}

/// The chunks tile the file: each is not empty and not longer than `max_len`, each begins
/// where the one before it ends, the first begins at zero, and the last ends with the file.
pub proof fn law_chunks_tile(total: nat, max_len: nat, k: nat)
    requires
        max_len > 0,
        k < chunk_count(total, max_len),
    ensures
        0 < chunk_len(k, total, max_len) <= max_len,
        chunk_start(0, max_len) == 0,
        k + 1 < chunk_count(total, max_len) ==> chunk_start(k, max_len) + chunk_len(
            k,
            total,
            max_len,
        ) == chunk_start(k + 1, max_len),
        k + 1 == chunk_count(total, max_len) ==> chunk_start(k, max_len) + chunk_len(
            k,
            total,
            max_len,
        ) == total,
        chunk_start(k, max_len) + chunk_len(k, total, max_len) <= total,
{
    lemma_chunk_count(total, max_len, k);
    lemma_chunk_count(total, max_len, k + 1);
    assert((k + 1) * max_len == k * max_len + max_len) by (nonlinear_arith);
}

/// There are as many chunks as it takes to cover the file, and not one more. Every byte of the
/// file belongs to one of them, and to no other.
pub proof fn law_every_byte_belongs_to_one_chunk(total: nat, max_len: nat, at: nat)
    requires
        max_len > 0,
        at < total,
    ensures
        (chunk_count(total, max_len) - 1) * max_len < total <= chunk_count(total, max_len)
            * max_len,
        at / max_len < chunk_count(total, max_len),
        forall|k: nat|
            k < chunk_count(total, max_len) ==> (#[trigger] chunk_start(k, max_len) <= at
                < chunk_start(k, max_len) + chunk_len(k, total, max_len) <==> k == at / max_len),
{
    let count = chunk_count(total, max_len);
    let own = at / max_len;
    lemma_chunk_count(total, max_len, count);
    lemma_chunk_count(total, max_len, (count - 1) as nat);
    lemma_chunk_count(total, max_len, own);
    div_mod::lemma_fundamental_div_mod(at as int, max_len as int);
    assert(max_len * own == own * max_len) by (nonlinear_arith);
    assert forall|k: nat| k < count implies (#[trigger] chunk_start(k, max_len) <= at
        < chunk_start(k, max_len) + chunk_len(k, total, max_len) <==> k == own) by {
        if k < own {
            assert((k + 1) * max_len <= own * max_len) by (nonlinear_arith)
                requires
                    k + 1 <= own,
            ;
            assert((k + 1) * max_len == k * max_len + max_len) by (nonlinear_arith);
        } else if k > own {
            assert(k * max_len >= (own + 1) * max_len) by (nonlinear_arith)
                requires
                    k >= own + 1,
            ;
            assert((own + 1) * max_len == own * max_len + max_len) by (nonlinear_arith);
        }
    }
}

/// A chunk begins after the bytes of the chunks before it, and is as long as a chunk may be or as
/// what is left of the file.
pub proof fn law_chunk_bounds(total: nat, max_len: nat, k: nat)
    requires
        max_len > 0,
    ensures
        chunk_start(k, max_len) == k * max_len,
        k * max_len + max_len <= total ==> chunk_len(k, total, max_len) == max_len,
        k * max_len <= total < k * max_len + max_len ==> chunk_len(k, total, max_len) == total
            - k * max_len,
        total < k * max_len ==> chunk_len(k, total, max_len) == 0,
{
}

/// Counts the chunks of `max_len` bytes that cover `total` bytes.
pub fn count_chunks(total: usize, max_len: usize) -> (count: usize)
    requires
        max_len > 0,
    ensures
        count == chunk_count(total as nat, max_len as nat),
        total > 0 ==> (count - 1) * max_len < total <= count * max_len,
        total == 0 ==> count == 0,
{
    proof {
        if total > 0 {
            law_every_byte_belongs_to_one_chunk(total as nat, max_len as nat, 0);
        }
    }
    let whole: usize = total / max_len;
    let rest: usize = total % max_len;
    proof {
        lemma_chunk_count(total as nat, max_len as nat, whole as nat);
        lemma_chunk_count(total as nat, max_len as nat, (whole + 1) as nat);
        div_mod::lemma_fundamental_div_mod(total as int, max_len as int);
        assert((whole + 1) * max_len == whole * max_len + max_len) by (nonlinear_arith);
        assert(max_len * whole == whole * max_len) by (nonlinear_arith);
        if whole > 0 {
            lemma_chunk_count(total as nat, max_len as nat, (whole - 1) as nat);
            assert((whole - 1) * max_len == whole * max_len - max_len) by (nonlinear_arith);
        }
    }
    if rest > 0 {
        whole + 1
    } else {
        whole
    }
}

} // verus!
