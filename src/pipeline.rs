//! All four phases of one buffer: deobfuscate, extract, order by offset.

use vstd::prelude::*;
use itertools::Itertools;
use crate::deobfuscate::{deobfs, deobfuscated};
use crate::extract::{
    extract_mp3, extracted, frame_chain, lemma_extracted_frame_chains, lemma_extracted_in_order,
    lemma_runs_view_append, runs_view,
};
use crate::header::THRESHOLD;

verus! {

/// Number of phases of the byte swap.
pub const PHASES: usize = 4;

/// The runs found under phases `0..n`, phase by phase.
pub open spec fn runs_of_phases(b: Seq<u8>, n: nat) -> Seq<(Seq<u8>, int)>
    decreases n,
{
    if n == 0 {
        seq![]
    } else {
        runs_of_phases(b, (n - 1) as nat) + extracted(deobfuscated(b, n - 1))
    }
}

/// Every run found by trying phases `0..n` is longer than `THRESHOLD`, is
/// made of whole valid frames, and is the copy, at its offset, of the buffer
/// deobfuscated under one of those phases.
pub proof fn lemma_phase_runs(b: Seq<u8>, n: nat)
    ensures
        forall|i: int|
            0 <= i < runs_of_phases(b, n).len() ==> {
                let (bytes, off) = #[trigger] runs_of_phases(b, n)[i];
                &&& bytes.len() > THRESHOLD
                &&& frame_chain(bytes)
                &&& exists|p: int|
                    0 <= p < n && 0 <= off && off + bytes.len() <= b.len() && bytes
                        == #[trigger] deobfuscated(b, p).subrange(off, off + bytes.len())
            },
    decreases n,
{
    if n > 0 {
        lemma_phase_runs(b, (n - 1) as nat);
        let before = runs_of_phases(b, (n - 1) as nat);
        let d = deobfuscated(b, n - 1);
        let e = extracted(d);
        lemma_extracted_in_order(d);
        lemma_extracted_frame_chains(d);
        let all = runs_of_phases(b, n);
        assert(all == before + e);
        assert forall|i: int| 0 <= i < all.len() implies {
            let (bytes, off) = #[trigger] all[i];
            &&& bytes.len() > THRESHOLD
            &&& frame_chain(bytes)
            &&& exists|p: int|
                0 <= p < n && 0 <= off && off + bytes.len() <= b.len() && bytes
                    == #[trigger] deobfuscated(b, p).subrange(off, off + bytes.len())
        } by {
            if i < before.len() {
                assert(all[i] == before[i]);
            } else {
                let k = i - before.len();
                assert(all[i] == e[k]);
                let (bytes, off) = e[k];
                assert(bytes == deobfuscated(b, n - 1).subrange(off, off + bytes.len()));
            }
        }
    }
}

/// Offsets never decrease along `r`.
pub open spec fn sorted_by_offset(r: Seq<(Vec<u8>, usize)>) -> bool {
    forall|i: int, j: int| 0 <= i < j < r.len() ==> r[i].1 <= r[j].1
}

/// Relies on itertools' `Itertools::sorted_unstable_by_key`: it collects the
/// items into a `Vec` and sorts it with `sort_unstable_by_key`, so the result
/// holds the same items in ascending order of the key (here the offset).
#[verifier::external_body]
fn sort_by_offset(runs: Vec<(Vec<u8>, usize)>) -> (r: Vec<(Vec<u8>, usize)>)
    ensures
        runs_view(r@).to_multiset() == runs_view(runs@).to_multiset(),
        sorted_by_offset(r@),
{
    runs.into_iter().sorted_unstable_by_key(|x| x.1).collect()
}

/// Tries every phase on `buffer` and returns all runs found, ordered by
/// offset. Runs with equal offsets come in no particular order.
pub fn extract_all(buffer: &[u8]) -> (r: Vec<(Vec<u8>, usize)>)
    ensures
        runs_view(r@).to_multiset() == runs_of_phases(buffer@, PHASES as nat).to_multiset(),
        sorted_by_offset(r@),
{
    let mut all: Vec<(Vec<u8>, usize)> = Vec::new();
    let mut phase: usize = 0;
    while phase < PHASES
        invariant
            phase <= PHASES,
            runs_view(all@) == runs_of_phases(buffer@, phase as nat),
        decreases PHASES - phase,
    {
        let mut found = extract_mp3(deobfs(buffer, phase));
        proof {
            lemma_runs_view_append(all@, found@);
        }
        all.append(&mut found);
        phase = phase + 1;
    }
    sort_by_offset(all)
}

} // verus!
