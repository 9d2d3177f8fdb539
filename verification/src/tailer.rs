//! Reassembly of complete lines from raw file reads.
//!
//! A tailer reads a growing file in arbitrary chunks. The accumulator keeps
//! the bytes after the last newline across reads and hands out one decoded
//! line per newline found, so a line written in several partial writes is
//! emitted once, complete, and two lines written at once come out as two.

use vstd::prelude::*;

verus! {

/// What lossy UTF-8 decoding returns for given bytes: a pure function of
/// the bytes alone.
pub uninterp spec fn lossy_of(b: Seq<u8>) -> Seq<char>;

/// Relies on String::from_utf8_lossy: the decoding is a function of the
/// bytes alone, and ASCII bytes decode to their own characters.
#[verifier::external_body]
fn decode_lossy(bytes: &Vec<u8>) -> (r: String)
    ensures
        r@ == lossy_of(bytes@),
        (forall|i: int| 0 <= i < bytes@.len() ==> bytes@[i] < 0x80) ==> r@ == bytes@.map_values(
            |b: u8| b as char,
        ),
{
    String::from_utf8_lossy(bytes.as_slice()).into_owned()
}

/// Index of the first newline byte at position `from` or later.
pub open spec fn find_newline(b: Seq<u8>, from: int) -> Option<int>
    decreases b.len() - from,
{
    if from < 0 || from >= b.len() {
        None
    } else if b[from] == 10u8 {
        Some(from)
    } else {
        find_newline(b, from + 1)
    }
}

/// Split a byte buffer at its newlines: the complete line segments (without
/// their newline bytes) and the unterminated rest.
pub open spec fn split_lines(b: Seq<u8>) -> (Seq<Seq<u8>>, Seq<u8>)
    decreases b.len(),
{
    match find_newline(b, 0) {
        None => (Seq::<Seq<u8>>::empty(), b),
        Some(i) => {
            if 0 <= i < b.len() {
                let (segs, rest) = split_lines(b.skip(i + 1));
                (seq![b.take(i)] + segs, rest)
            } else {
                (Seq::<Seq<u8>>::empty(), b)
            }
        },
    }
}

/// A buffer whose first newline sits at `q` splits into its head segment
/// and the split of what follows.
proof fn lemma_split_lines_step(b: Seq<u8>, q: int)
    requires
        0 <= q < b.len(),
        b[q] == 10u8,
        forall|m: int| 0 <= m < q ==> b[m] != 10u8,
    ensures
        split_lines(b).0 == seq![b.take(q)] + split_lines(b.skip(q + 1)).0,
        split_lines(b).1 == split_lines(b.skip(q + 1)).1,
{
    lemma_find_newline_first(b, 0, q);
}

/// A buffer with no newline splits into no segments and itself.
proof fn lemma_split_lines_none(b: Seq<u8>)
    requires
        forall|m: int| 0 <= m < b.len() ==> b[m] != 10u8,
    ensures
        split_lines(b).0 == Seq::<Seq<u8>>::empty(),
        split_lines(b).1 == b,
{
    lemma_find_newline_none(b, 0);
}

/// `find_newline` returns `q` when `q` holds the first newline at or after
/// `from`.
proof fn lemma_find_newline_first(b: Seq<u8>, from: int, q: int)
    requires
        0 <= from <= q < b.len(),
        b[q] == 10u8,
        forall|m: int| from <= m < q ==> b[m] != 10u8,
    ensures
        find_newline(b, from) == Some(q),
    decreases q - from,
{
    if from < q {
        lemma_find_newline_first(b, from + 1, q);
    }
}

/// `find_newline` returns nothing when no newline follows `from`.
proof fn lemma_find_newline_none(b: Seq<u8>, from: int)
    requires
        0 <= from,
        forall|m: int| from <= m < b.len() ==> b[m] != 10u8,
    ensures
        find_newline(b, from) is None,
    decreases b.len() - from,
{
    if from < b.len() {
        lemma_find_newline_none(b, from + 1);
    }
}

/// Bytes read from a followed file but not yet emitted as complete lines.
pub struct LineAccumulator {
    pub pending: Vec<u8>,
}

impl LineAccumulator {
    /// Starts with nothing pending.
    pub fn new() -> (r: Self)
        ensures
            r.pending@ == Seq::<u8>::empty(),
    {
        LineAccumulator { pending: Vec::new() }
    }

    /// Drop any unterminated pending bytes (done when the followed file was
    /// rotated: the partial line belonged to the old file).
    pub fn clear(&mut self)
        ensures
            final(self).pending@ == Seq::<u8>::empty(),
    {
        self.pending.clear();
    }

    /// Take in one chunk of freshly read bytes and hand out every line the
    /// buffer now completes, decoded tolerantly; bytes after the last
    /// newline stay pending for the next read.
    pub fn feed(&mut self, data: &[u8]) -> (lines: Vec<String>)
        ensures
            ({
                let all = old(self).pending@ + data@;
                let (segs, rest) = split_lines(all);
                &&& lines@.len() == segs.len()
                &&& (forall|k: int| 0 <= k < segs.len() ==> (#[trigger] lines@[k])@ == lossy_of(
                    segs[k],
                ))
                &&& final(self).pending@ == rest
            }),
    {
        let ghost orig = self.pending@;
        let mut j: usize = 0;
        let dn = data.len();
        while j < dn
            invariant
                j <= dn,
                dn == data@.len(),
                self.pending@ == orig + data@.take(j as int),
            decreases dn - j,
        {
            let byte = data[j];
            self.pending.push(byte);
            proof {
                assert(self.pending@ =~= orig + data@.take(j + 1));
            }
            j = j + 1;
        }
        proof {
            assert(orig + data@.take(dn as int) =~= orig + data@);
        }
        let ghost all = self.pending@;

        let mut lines: Vec<String> = Vec::new();
        let mut start: usize = 0;
        let mut pos: usize = 0;
        let n = self.pending.len();
        proof {
            assert(all.skip(0) =~= all);
            assert(split_lines(all).0.take(0) + split_lines(all).0 =~= split_lines(all).0);
        }
        while pos < n
            invariant
                start <= pos <= n,
                n == self.pending@.len(),
                all == self.pending@,
                forall|m: int| start <= m < pos ==> all[m] != 10u8,
                lines@.len() == split_lines(all).0.len() - split_lines(
                    all.skip(start as int),
                ).0.len(),
                split_lines(all).0 =~= lines_segs(lines@, all, start as int),
                split_lines(all).1 == split_lines(all.skip(start as int)).1,
                forall|k: int| 0 <= k < lines@.len() ==> (#[trigger] lines@[k])@ == lossy_of(
                    split_lines(all).0[k],
                ),
            decreases n - pos,
        {
            if self.pending[pos] == 10u8 {
                let mut seg: Vec<u8> = Vec::new();
                let mut m = start;
                while m < pos
                    invariant
                        start <= m <= pos <= n,
                        n == self.pending@.len(),
                        all == self.pending@,
                        seg@ == all.subrange(start as int, m as int),
                    decreases pos - m,
                {
                    let byte = self.pending[m];
                    seg.push(byte);
                    proof {
                        assert(seg@ =~= all.subrange(start as int, m + 1));
                    }
                    m = m + 1;
                }
                let line = decode_lossy(&seg);
                proof {
                    let tail = all.skip(start as int);
                    let q = pos - start as int;
                    assert(tail[q] == all[pos as int]);
                    assert forall|m2: int| 0 <= m2 < q implies tail[m2] != 10u8 by {
                        assert(tail[m2] == all[start as int + m2]);
                    }
                    lemma_split_lines_step(tail, q);
                    assert(tail.take(q) =~= all.subrange(start as int, pos as int));
                    assert(tail.skip(q + 1) =~= all.skip(pos + 1));
                }
                lines.push(line);
                start = pos + 1;
            }
            pos = pos + 1;
        }
        proof {
            let tail = all.skip(start as int);
            assert forall|m2: int| 0 <= m2 < tail.len() implies tail[m2] != 10u8 by {
                assert(tail[m2] == all[start as int + m2]);
            }
            lemma_split_lines_none(tail);
        }
        let mut rest: Vec<u8> = Vec::new();
        let mut m = start;
        while m < n
            invariant
                start <= m <= n,
                n == self.pending@.len(),
                all == self.pending@,
                rest@ == all.subrange(start as int, m as int),
            decreases n - m,
        {
            let byte = self.pending[m];
            rest.push(byte);
            proof {
                assert(rest@ =~= all.subrange(start as int, m + 1));
            }
            m = m + 1;
        }
        proof {
            assert(all.subrange(start as int, n as int) =~= all.skip(start as int));
        }
        self.pending = rest;
        lines
    }
}

/// The segments already emitted, followed by those still to come in the
/// unscanned part of the buffer.
pub open spec fn lines_segs(done: Seq<String>, all: Seq<u8>, start: int) -> Seq<Seq<u8>> {
    split_lines(all).0.take(done.len() as int) + split_lines(all.skip(start)).0
}

} // verus!
