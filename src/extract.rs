//! The frame synchronizer: finds runs of back-to-back valid frames.
//!
//! The scan looks at the four-byte window at `pos`. A rejected header ends
//! the current run and moves the window one byte on. An accepted header whose
//! frame fits in the buffer extends the run by that frame and moves the window
//! to the frame's end. A frame that does not fit, or fewer than four bytes
//! left, ends the scan. Whenever a run ends, on every path, it is reported if
//! it is longer than `THRESHOLD`, with the position of its first byte.

use vstd::prelude::*;
use crate::header::{frame_length, frame_length_of, header_word, lemma_frame_length_bounds, THRESHOLD};

verus! {

/// The header word read at `pos`.
pub open spec fn header_at(s: Seq<u8>, pos: int) -> u32 {
    header_word(s[pos], s[pos + 1], s[pos + 2], s[pos + 3])
}

/// What the run `s[start..end]` contributes when it ends.
pub open spec fn flushed(s: Seq<u8>, start: int, end: int) -> Seq<(Seq<u8>, int)> {
    if end - start > THRESHOLD {
        seq![(s.subrange(start, end), start)]
    } else {
        seq![]
    }
}

/// The runs reported from the window at `pos` on, while the current run is
/// `s[start..pos]`.
pub open spec fn scan(s: Seq<u8>, start: int, pos: int) -> Seq<(Seq<u8>, int)>
    decreases s.len() - pos,
{
    if pos + 4 > s.len() {
        flushed(s, start, pos)
    } else {
        match frame_length_of(header_at(s, pos)) {
            None => flushed(s, start, pos) + scan(s, pos + 1, pos + 1),
            Some(n) => if pos + n > s.len() {
                flushed(s, start, pos)
            } else {
                proof {
                    lemma_frame_length_bounds(header_at(s, pos));
                }
                scan(s, start, pos + n)
            },
        }
    }
}

/// The runs found in a whole buffer, in order, with their offsets.
pub open spec fn extracted(s: Seq<u8>) -> Seq<(Seq<u8>, int)> {
    scan(s, 0, 0)
}

/// Every run in `r` is a copy of `s` at its offset, longer than `THRESHOLD`,
/// at or after `lo`, and the runs come in order without overlapping.
pub open spec fn runs_in_order(s: Seq<u8>, r: Seq<(Seq<u8>, int)>, lo: int) -> bool {
    &&& forall|i: int|
        0 <= i < r.len() ==> {
            let (bytes, off) = #[trigger] r[i];
            &&& lo <= off
            &&& off + bytes.len() <= s.len()
            &&& bytes == s.subrange(off, off + bytes.len())
            &&& bytes.len() > THRESHOLD
        }
    &&& forall|i: int, j: int|
        0 <= i < j < r.len() ==> #[trigger] r[i].1 + r[i].0.len() <= #[trigger] r[j].1
}

/// A window whose first eleven bits are not all ones is never taken as a
/// frame start, whatever bytes follow it: the scan ends the current run there
/// and moves one byte on.
pub proof fn lemma_no_sync_no_frame(s: Seq<u8>, start: int, pos: int)
    requires
        0 <= start <= pos,
        pos + 4 <= s.len(),
        !(s[pos] == 0xFF && s[pos + 1] & 0xE0 == 0xE0),
    ensures
        frame_length_of(header_at(s, pos)) is None,
        scan(s, start, pos) == flushed(s, start, pos) + scan(s, pos + 1, pos + 1),
{
    let (b0, b1, b2, b3) = (s[pos], s[pos + 1], s[pos + 2], s[pos + 3]);
    assert(header_word(b0, b1, b2, b3) & 0xFFE00000u32 == 0xFFE00000u32 ==> (b0 == 0xFF && b1
        & 0xE0 == 0xE0)) by (bit_vector);
}

proof fn lemma_scan_in_order(s: Seq<u8>, start: int, pos: int)
    requires
        0 <= start <= pos <= s.len(),
    ensures
        runs_in_order(s, scan(s, start, pos), start),
    decreases s.len() - pos,
{
    let f = flushed(s, start, pos);
    if pos + 4 > s.len() {
    } else {
        match frame_length_of(header_at(s, pos)) {
            None => {
                lemma_scan_in_order(s, pos + 1, pos + 1);
                let rest = scan(s, pos + 1, pos + 1);
                let all = f + rest;
                assert forall|i: int, j: int| 0 <= i < j < all.len() implies #[trigger] all[i].1
                    + all[i].0.len() <= #[trigger] all[j].1 by {
                    if i >= f.len() {
                        assert(all[i] == rest[i - f.len()]);
                        assert(all[j] == rest[j - f.len()]);
                    } else {
                        assert(all[j] == rest[j - f.len()]);
                    }
                }
                assert forall|i: int| 0 <= i < all.len() implies {
                    let (bytes, off) = #[trigger] all[i];
                    &&& start <= off
                    &&& off + bytes.len() <= s.len()
                    &&& bytes == s.subrange(off, off + bytes.len())
                    &&& bytes.len() > THRESHOLD
                } by {
                    if i >= f.len() {
                        assert(all[i] == rest[i - f.len()]);
                    }
                }
            },
            Some(n) => {
                if pos + n <= s.len() {
                    lemma_frame_length_bounds(header_at(s, pos));
                    lemma_scan_in_order(s, start, pos + n);
                }
            },
        }
    }
}

/// Each reported run is the copy of the buffer at its offset and is longer
/// than `THRESHOLD`; runs come in increasing order of offset and do not
/// overlap.
pub proof fn lemma_extracted_in_order(s: Seq<u8>)
    ensures
        runs_in_order(s, extracted(s), 0),
{
    lemma_scan_in_order(s, 0, 0);
}

/// `b` is made of whole valid frames, back to back.
pub open spec fn frame_chain(b: Seq<u8>) -> bool
    decreases b.len(),
{
    if b.len() == 0 {
        true
    } else if b.len() < 4 {
        false
    } else {
        match frame_length_of(header_at(b, 0)) {
            None => false,
            Some(n) => if n > b.len() {
                false
            } else {
                proof {
                    lemma_frame_length_bounds(header_at(b, 0));
                }
                frame_chain(b.subrange(n, b.len() as int))
            },
        }
    }
}

proof fn lemma_frame_chain_extend(x: Seq<u8>, f: Seq<u8>)
    requires
        frame_chain(x),
        f.len() >= 4,
        frame_length_of(header_at(f, 0)) == Some(f.len() as int),
    ensures
        frame_chain(x + f),
    decreases x.len(),
{
    let y = x + f;
    if x.len() == 0 {
        assert(y =~= f);
        let tail = f.subrange(f.len() as int, f.len() as int);
        assert(tail.len() == 0);
        assert(frame_chain(tail));
    } else {
        let n = frame_length_of(header_at(x, 0))->Some_0;
        lemma_frame_length_bounds(header_at(x, 0));
        assert(header_at(y, 0) == header_at(x, 0));
        let rest = x.subrange(n, x.len() as int);
        lemma_frame_chain_extend(rest, f);
        assert(y.subrange(n, y.len() as int) =~= rest + f);
        assert(frame_chain(y.subrange(n, y.len() as int)));
    }
}

proof fn lemma_scan_frame_chains(s: Seq<u8>, start: int, pos: int)
    requires
        0 <= start <= pos <= s.len(),
        frame_chain(s.subrange(start, pos)),
    ensures
        forall|i: int|
            0 <= i < scan(s, start, pos).len() ==> frame_chain(#[trigger] scan(s, start, pos)[i].0),
    decreases s.len() - pos,
{
    let f = flushed(s, start, pos);
    assert(forall|i: int| 0 <= i < f.len() ==> frame_chain(#[trigger] f[i].0));
    if pos + 4 > s.len() {
    } else {
        match frame_length_of(header_at(s, pos)) {
            None => {
                assert(frame_chain(s.subrange(pos + 1, pos + 1))) by {
                    assert(s.subrange(pos + 1, pos + 1).len() == 0);
                }
                lemma_scan_frame_chains(s, pos + 1, pos + 1);
                let rest = scan(s, pos + 1, pos + 1);
                let all = f + rest;
                assert forall|i: int| 0 <= i < all.len() implies frame_chain(#[trigger] all[i].0) by {
                    if i >= f.len() {
                        assert(all[i] == rest[i - f.len()]);
                    }
                }
                assert(scan(s, start, pos) == all);
            },
            Some(n) => {
                if pos + n <= s.len() {
                    lemma_frame_length_bounds(header_at(s, pos));
                    let fr = s.subrange(pos, pos + n);
                    assert(header_at(fr, 0) == header_at(s, pos));
                    lemma_frame_chain_extend(s.subrange(start, pos), fr);
                    assert(s.subrange(start, pos) + fr =~= s.subrange(start, pos + n));
                    lemma_scan_frame_chains(s, start, pos + n);
                    assert(scan(s, start, pos) == scan(s, start, pos + n));
                } else {
                    assert(scan(s, start, pos) == f);
                }
            },
        }
    }
}

/// Each reported run is a sequence of whole valid frames, back to back.
pub proof fn lemma_extracted_frame_chains(s: Seq<u8>)
    ensures
        forall|i: int| 0 <= i < extracted(s).len() ==> frame_chain(#[trigger] extracted(s)[i].0),
{
    assert(s.subrange(0, 0).len() == 0);
    lemma_scan_frame_chains(s, 0, 0);
}

/// The mathematical value of a list of reported runs.
pub open spec fn runs_view(r: Seq<(Vec<u8>, usize)>) -> Seq<(Seq<u8>, int)> {
    r.map_values(|p: (Vec<u8>, usize)| (p.0@, p.1 as int))
}

proof fn lemma_runs_view_push(r: Seq<(Vec<u8>, usize)>, p: (Vec<u8>, usize))
    ensures
        runs_view(r.push(p)) == runs_view(r).push((p.0@, p.1 as int)),
{
    assert(runs_view(r.push(p)) =~= runs_view(r).push((p.0@, p.1 as int)));
}

pub proof fn lemma_runs_view_append(a: Seq<(Vec<u8>, usize)>, b: Seq<(Vec<u8>, usize)>)
    ensures
        runs_view(a + b) == runs_view(a) + runs_view(b),
{
    assert(runs_view(a + b) =~= runs_view(a) + runs_view(b));
}

/// A copy of `s[start..end]`.
fn copy_range(s: &Vec<u8>, start: usize, end: usize) -> (r: Vec<u8>)
    requires
        start <= end <= s@.len(),
    ensures
        r@ == s@.subrange(start as int, end as int),
{
    let mut r: Vec<u8> = Vec::with_capacity(end - start);
    let mut k: usize = start;
    while k < end
        invariant
            start <= k <= end,
            end <= s@.len(),
            r@ == s@.subrange(start as int, k as int),
        decreases end - k,
    {
        r.push(s[k]);
        k = k + 1;
    }
    r
}

/// Ends the run `s[start..end]`, reporting it if it is long enough.
fn flush_run(s: &Vec<u8>, start: usize, end: usize, out: &mut Vec<(Vec<u8>, usize)>)
    requires
        start <= end <= s@.len(),
    ensures
        runs_view(final(out)@) == runs_view(old(out)@) + flushed(s@, start as int, end as int),
{
    if end - start > THRESHOLD {
        let run = copy_range(s, start, end);
        proof {
            lemma_runs_view_push(out@, (run, start));
        }
        out.push((run, start));
        assert(runs_view(out@) =~= runs_view(old(out)@) + flushed(s@, start as int, end as int));
    } else {
        assert(runs_view(out@) =~= runs_view(old(out)@) + flushed(s@, start as int, end as int));
    }
}

/// Finds every run of back-to-back valid frames longer than `THRESHOLD`, in
/// order, each with the offset of its first byte in `s`.
pub fn extract_mp3(s: Vec<u8>) -> (r: Vec<(Vec<u8>, usize)>)
    ensures
        runs_view(r@) == extracted(s@),
{
    let len = s.len();
    let mut out: Vec<(Vec<u8>, usize)> = Vec::new();
    let mut start: usize = 0;
    let mut pos: usize = 0;
    loop
        invariant_except_break
            start <= pos <= len,
            runs_view(out@) + scan(s@, start as int, pos as int) == extracted(s@),
        invariant
            len == s@.len(),
        ensures
            runs_view(out@) == extracted(s@),
        decreases len - pos,
    {
        let ghost before = out@;
        if len - pos < 4 {
            flush_run(&s, start, pos, &mut out);
            break;
        }
        let h: u32 = (s[pos] as u32) << 24 | (s[pos + 1] as u32) << 16 | (s[pos + 2] as u32) << 8
            | (s[pos + 3] as u32);
        assert(h == header_at(s@, pos as int));
        match frame_length(h) {
            None => {
                let ghost (st, p) = (start as int, pos as int);
                flush_run(&s, start, pos, &mut out);
                pos = pos + 1;
                start = pos;
                assert(runs_view(before) + scan(s@, st, p) =~= runs_view(out@) + scan(
                    s@,
                    start as int,
                    pos as int,
                ));
            },
            Some(n) => {
                if n > len - pos {
                    flush_run(&s, start, pos, &mut out);
                    break;
                }
                proof {
                    lemma_frame_length_bounds(h);
                }
                pos = pos + n;
            },
        }
    }
    out
}

} // verus!
