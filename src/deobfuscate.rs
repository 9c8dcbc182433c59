//! The period-4 byte swap that hides the streams.
//!
//! A single left-to-right pass swaps the byte at `i` with the byte at `i + 1`
//! for every `i < len - 1` with `i % 4 == phase`. Two such swaps never touch
//! the same position, so each output byte comes from one fixed input position.

use vstd::prelude::*;

verus! {

/// The input position whose byte lands at `j` after the pass.
pub open spec fn swap_source(len: int, phase: int, j: int) -> int {
    if j % 4 == phase && j + 1 < len {
        j + 1
    } else if j >= 1 && (j - 1) % 4 == phase {
        j - 1
    } else {
        j
    }
}

/// The buffer after the swap pass for `phase`.
pub open spec fn deobfuscated(b: Seq<u8>, phase: int) -> Seq<u8> {
    Seq::new(b.len(), |j: int| b[swap_source(b.len() as int, phase, j)])
}

/// Undoes the byte swap for one phase. The result has the input's length.
pub fn deobfs(buffer: &[u8], offset: usize) -> (r: Vec<u8>)
    ensures
        r@ == deobfuscated(buffer@, offset as int),
        r@.len() == buffer@.len(),
{
    let len = buffer.len();
    let mut out: Vec<u8> = Vec::with_capacity(len);
    let mut k: usize = 0;
    while k < len
        invariant
            k <= len,
            len == buffer@.len(),
            out@ == buffer@.subrange(0, k as int),
        decreases len - k,
    {
        out.push(buffer[k]);
        k = k + 1;
    }
    let mut i: usize = 0;
    while i < len && len - i > 1
        invariant
            len == buffer@.len(),
            out@.len() == len,
            i <= len,
            forall|j: int|
                0 <= j < len ==> #[trigger] out@[j] == if j < i {
                    buffer@[swap_source(len as int, offset as int, j)]
                } else if j == i && j >= 1 && (j - 1) % 4 == offset as int {
                    buffer@[j - 1]
                } else {
                    buffer@[j]
                },
        decreases len - i,
    {
        if i % 4 == offset {
            let a = out[i];
            let b = out[i + 1];
            out.set(i, b);
            out.set(i + 1, a);
        }
        i = i + 1;
    }
    assert(out@ =~= deobfuscated(buffer@, offset as int));
    out
}

/// The pass is its own inverse: running it twice with one phase gives the
/// buffer back.
pub proof fn lemma_deobfuscate_twice(b: Seq<u8>, phase: int)
    ensures
        deobfuscated(deobfuscated(b, phase), phase) == b,
{
    let once = deobfuscated(b, phase);
    let twice = deobfuscated(once, phase);
    assert forall|j: int| 0 <= j < b.len() implies #[trigger] twice[j] == b[j] by {
        let n = b.len() as int;
        let k = swap_source(n, phase, j);
        assert(0 <= k < n);
        assert(swap_source(n, phase, k) == j);
    }
    assert(twice =~= b);
}

} // verus!
