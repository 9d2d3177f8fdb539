//! Per-group, per-status-code aggregation.
//!
//! A [`GroupMap`] holds one [`GroupStats`] per log source, each holding one
//! [`StatusStats`] per status bucket it has seen, kept sorted by code. The
//! map also owns the process-wide sorted set of every code seen anywhere
//! (used to align columns when rendering) and the shared prefix and suffix
//! of the group names, trimmed off for display.

use crate::speedometer::Measurement;
use crate::speedometer::RingbufferSpeedometer;
use crate::speedometer::ring_push;
use vstd::prelude::*;

verus! {

/// Lexicographic order on text, by character value. This matches how the
/// codes would sort as strings: shorter prefixes come first.
pub open spec fn lex_lt(a: Seq<char>, b: Seq<char>) -> bool
    decreases a.len(),
{
    if b.len() == 0 {
        false
    } else if a.len() == 0 {
        true
    } else if a[0] != b[0] {
        (a[0] as u32) < (b[0] as u32)
    } else {
        lex_lt(a.drop_first(), b.drop_first())
    }
}

/// Any two texts are equal or ordered one way.
pub proof fn lemma_lex_lt_total(a: Seq<char>, b: Seq<char>)
    ensures
        a == b || lex_lt(a, b) || lex_lt(b, a),
    decreases a.len(),
{
    if a.len() == 0 && b.len() == 0 {
        assert(a =~= b);
    } else if a.len() > 0 && b.len() > 0 && a[0] != b[0] {
        vstd::utf8::char_u32_cast(a[0], a[0] as u32);
        vstd::utf8::char_u32_cast(b[0], b[0] as u32);
        assert((a[0] as u32) != (b[0] as u32));
    } else if a.len() > 0 && b.len() > 0 && a[0] == b[0] {
        lemma_lex_lt_total(a.drop_first(), b.drop_first());
        if a.drop_first() =~= b.drop_first() {
            assert forall|i: int| 0 <= i < a.len() implies a[i] == b[i] by {
                if i > 0 {
                    assert(a[i] == a.drop_first()[i - 1]);
                    assert(b[i] == b.drop_first()[i - 1]);
                }
            }
            assert(a =~= b);
        }
    }
}

/// Lexicographic order is transitive.
pub proof fn lemma_lex_lt_trans(a: Seq<char>, b: Seq<char>, c: Seq<char>)
    requires
        lex_lt(a, b),
        lex_lt(b, c),
    ensures
        lex_lt(a, c),
    decreases a.len(),
{
    if a.len() > 0 && b.len() > 0 && c.len() > 0 && a[0] == b[0] && b[0] == c[0] {
        lemma_lex_lt_trans(a.drop_first(), b.drop_first(), c.drop_first());
    }
}

/// Nothing is ordered below itself.
pub proof fn lemma_lex_lt_irrefl(a: Seq<char>)
    ensures
        !lex_lt(a, a),
    decreases a.len(),
{
    if a.len() > 0 {
        lemma_lex_lt_irrefl(a.drop_first());
    }
}

/// Compare two texts lexicographically.
fn str_lt(a: &str, b: &str) -> (r: bool)
    ensures
        r == lex_lt(a@, b@),
{
    let an = a.unicode_len();
    let bn = b.unicode_len();
    let mut i: usize = 0;
    proof {
        assert(a@.skip(0) =~= a@);
        assert(b@.skip(0) =~= b@);
    }
    loop
        invariant
            i <= an,
            i <= bn,
            an == a@.len(),
            bn == b@.len(),
            forall|j: int| 0 <= j < i ==> a@[j] == b@[j],
            lex_lt(a@, b@) == lex_lt(a@.skip(i as int), b@.skip(i as int)),
        ensures
            lex_lt(a@, b@) == ({
                if i >= bn {
                    false
                } else if i >= an {
                    true
                } else {
                    (a@[i as int] as u32) < (b@[i as int] as u32)
                }
            }),
        decreases an - i,
    {
        if i >= bn || i >= an {
            break ;
        }
        let ac = a.get_char(i);
        let bc = b.get_char(i);
        if ac != bc {
            proof {
                assert(a@.skip(i as int)[0] == a@[i as int]);
                assert(b@.skip(i as int)[0] == b@[i as int]);
            }
            break ;
        }
        proof {
            assert(a@.skip(i as int).drop_first() =~= a@.skip(i + 1));
            assert(b@.skip(i as int).drop_first() =~= b@.skip(i + 1));
        }
        i = i + 1;
    }
    if i >= bn {
        false
    } else if i >= an {
        true
    } else {
        (a.get_char(i) as u32) < (b.get_char(i) as u32)
    }
}

/// The sampling-window capacity of every per-status estimator.
pub open spec fn status_ring_capacity() -> nat {
    5
}

/// The mathematical shape of a [`StatusStats`]: its code, the count pending
/// since the last sample tick, and the estimator's retained window.
#[verifier::ext_equal]
pub ghost struct StatusView {
    pub code: Seq<char>,
    pub pending: u32,
    pub window: Seq<Measurement>,
}

/// One status bucket inside one group: how many lines arrived since the
/// last sample tick, and the rate estimator those counts are folded into.
pub struct StatusStats {
    pub statuscode: String,
    start: std::time::Instant,
    pub pending: u32,
    pub ring: RingbufferSpeedometer,
}

impl View for StatusStats {
    type V = StatusView;

    closed spec fn view(&self) -> StatusView {
        StatusView { code: self.statuscode@, pending: self.pending, window: self.ring.window() }
    }
}

/// How one sample tick changes a status row: either no wall-clock time had
/// passed and nothing moves, or the pending count is folded into the
/// window over some positive elapsed time and reset.
pub open spec fn row_ticked(before: StatusView, after: StatusView) -> bool {
    &&& after.code == before.code
    &&& (after == before || (after.pending == 0 && exists|e: u32|
        e > 0 && after.window == ring_push(
            before.window,
            status_ring_capacity(),
            Measurement { duration: e, msgs: before.pending },
        )))
}

impl StatusStats {
    /// The estimator keeps its fixed window capacity.
    pub closed spec fn wf(&self) -> bool {
        &&& self.ring.wf()
        &&& self.ring.capacity() == status_ring_capacity()
    }

    /// A fresh row for a code: nothing pending, an empty window, and a
    /// sampling timer started now.
    pub fn new(statuscode: String) -> (r: Self)
        ensures
            r.wf(),
            r@ == (StatusView {
                code: statuscode@,
                pending: 0u32,
                window: Seq::<Measurement>::empty(),
            }),
    {
        StatusStats {
            statuscode,
            start: std::time::Instant::now(),
            pending: 0,
            ring: RingbufferSpeedometer::new(5),
        }
    }

    /// Fold the pending count over a known elapsed time: a zero elapsed
    /// time is a no-op (the rate would be meaningless), otherwise the
    /// sample enters the window and the pending count resets.
    pub fn apply_tick(&mut self, elapsed_ms: u32)
        requires
            old(self).wf(),
        ensures
            final(self).wf(),
            final(self)@.code == old(self)@.code,
            elapsed_ms == 0 ==> final(self)@ == old(self)@,
            elapsed_ms > 0 ==> final(self)@.pending == 0 && final(self)@.window == ring_push(
                old(self)@.window,
                status_ring_capacity(),
                Measurement { duration: elapsed_ms, msgs: old(self)@.pending },
            ),
    {
        if elapsed_ms == 0 {
            return;
        }
        self.ring.add_measurement(elapsed_ms, self.pending);
        self.pending = 0;
    }

    /// One sample tick: read how long the current sampling window has been
    /// open and fold the pending count over it. The clock decides the
    /// elapsed time, so the contract holds for every value it returns.
    pub fn process(&mut self)
        requires
            old(self).wf(),
        ensures
            final(self).wf(),
            row_ticked(old(self)@, final(self)@),
    {
        let millis = self.start.elapsed().as_millis();
        let elapsed: u32 = if millis > u32::MAX as u128 {
            u32::MAX
        } else {
            millis as u32
        };
        if elapsed > 0 {
            self.start = std::time::Instant::now();
        }
        self.apply_tick(elapsed);
    }

    /// Count one line against this status, holding at the counter's
    /// largest value rather than wrapping.
    pub fn count_line(&mut self)
        requires
            old(self).wf(),
        ensures
            final(self).wf(),
            final(self)@ == (StatusView {
                pending: if old(self)@.pending < u32::MAX {
                    (old(self)@.pending + 1) as u32
                } else {
                    u32::MAX
                },
                ..old(self)@
            }),
    {
        if self.pending < u32::MAX {
            self.pending = self.pending + 1;
        }
    }
}

} // verus!

verus! {

/// A status row as it is first created for a code.
pub open spec fn fresh_row(code: Seq<char>) -> StatusView {
    StatusView { code, pending: 0u32, window: Seq::<Measurement>::empty() }
}

/// Rows in strictly ascending code order (so codes are also unique).
pub open spec fn rows_sorted(rows: Seq<StatusView>) -> bool {
    forall|i: int, j: int| 0 <= i < j < rows.len() ==> lex_lt(rows[i].code, rows[j].code)
}

/// Whether some row carries this code.
pub open spec fn rows_has_code(rows: Seq<StatusView>, code: Seq<char>) -> bool {
    exists|i: int| 0 <= i < rows.len() && rows[i].code == code
}

/// Look up a code among sorted rows, creating a fresh row at its sorted
/// position when absent; yields the rows afterwards and the code's index.
pub open spec fn rows_get_or_create(rows: Seq<StatusView>, code: Seq<char>) -> (Seq<StatusView>,
    int)
    decreases rows.len(),
{
    if rows.len() == 0 {
        (seq![fresh_row(code)], 0int)
    } else if rows[0].code == code {
        (rows, 0int)
    } else if lex_lt(code, rows[0].code) {
        (seq![fresh_row(code)] + rows, 0int)
    } else {
        let (rest, k) = rows_get_or_create(rows.drop_first(), code);
        (seq![rows[0]] + rest, k + 1)
    }
}

/// Scanning past rows that are neither the code nor ordered after it leaves
/// the lookup acting on the remaining suffix.
proof fn lemma_rows_goc_suffix(rows: Seq<StatusView>, code: Seq<char>, p: int)
    requires
        0 <= p <= rows.len(),
        forall|j: int| 0 <= j < p ==> rows[j].code != code && !lex_lt(code, rows[j].code),
    ensures
        rows_get_or_create(rows, code).0 == rows.take(p) + rows_get_or_create(
            rows.skip(p),
            code,
        ).0,
        rows_get_or_create(rows, code).1 == p + rows_get_or_create(rows.skip(p), code).1,
    decreases p,
{
    if p == 0 {
        assert(rows.skip(0) =~= rows);
        assert(rows.take(0) + rows_get_or_create(rows, code).0 =~= rows_get_or_create(
            rows,
            code,
        ).0);
    } else {
        lemma_rows_goc_suffix(rows, code, p - 1);
        let tail = rows.skip(p - 1);
        assert(tail[0] == rows[p - 1]);
        assert(tail.drop_first() =~= rows.skip(p));
        assert(rows.take(p - 1) + (seq![tail[0]] + rows_get_or_create(rows.skip(p), code).0)
            =~= rows.take(p) + rows_get_or_create(rows.skip(p), code).0);
    }
}

/// What the lookup produces: sorted rows again, the requested code at the
/// returned index, existing rows untouched when the code was present, and
/// exactly one fresh row added when it was not.
proof fn lemma_rows_goc_props(rows: Seq<StatusView>, code: Seq<char>)
    requires
        rows_sorted(rows),
    ensures
        ({
            let (r2, k) = rows_get_or_create(rows, code);
            &&& rows_sorted(r2)
            &&& 0 <= k < r2.len()
            &&& r2[k] == if rows_has_code(rows, code) {
                rows[k]
            } else {
                fresh_row(code)
            }
            &&& r2[k].code == code
            &&& (rows_has_code(rows, code) ==> r2 == rows)
            &&& (!rows_has_code(rows, code) ==> r2.len() == rows.len() + 1 && (forall|m: int|
                0 <= m < r2.len() ==> r2[m] == fresh_row(code) || rows.contains(r2[m])))
        }),
    decreases rows.len(),
{
    let (r2, k) = rows_get_or_create(rows, code);
    if rows.len() == 0 {
        assert(!rows_has_code(rows, code));
        assert(r2[0] == fresh_row(code));
    } else if rows[0].code == code {
        assert(rows_has_code(rows, code));
    } else if lex_lt(code, rows[0].code) {
        assert(!rows_has_code(rows, code)) by {
            lemma_lex_lt_irrefl(code);
            assert forall|i: int| 0 <= i < rows.len() implies rows[i].code != code by {
                if i > 0 {
                    if rows[i].code == code {
                        lemma_lex_lt_trans(code, rows[0].code, rows[i].code);
                    }
                }
            }
        }
        assert(r2[0] == fresh_row(code));
        assert forall|i: int, j: int| 0 <= i < j < r2.len() implies lex_lt(
            r2[i].code,
            r2[j].code,
        ) by {
            if i == 0 && j > 1 {
                lemma_lex_lt_trans(code, rows[0].code, rows[j - 1].code);
            }
        }
    } else {
        let drop = rows.drop_first();
        lemma_rows_goc_props(drop, code);
        let (rest, k1) = rows_get_or_create(drop, code);
        lemma_lex_lt_total(rows[0].code, code);
        assert(lex_lt(rows[0].code, code));
        if rows_has_code(drop, code) {
            assert(rows_has_code(rows, code)) by {
                let q = choose|q: int| 0 <= q < drop.len() && drop[q].code == code;
                assert(rows[q + 1].code == code);
            }
            assert(r2 =~= rows);
            assert(r2[k] == rows[k]);
        } else {
            assert(!rows_has_code(rows, code)) by {
                if rows_has_code(rows, code) {
                    let q = choose|q: int| 0 <= q < rows.len() && rows[q].code == code;
                    assert(q > 0);
                    assert(drop[q - 1].code == code);
                }
            }
            assert forall|m: int| 0 <= m < r2.len() implies r2[m] == fresh_row(code)
                || rows.contains(r2[m]) by {
                if m == 0 {
                    assert(rows[0] == r2[0]);
                    assert(rows.contains(r2[0]));
                } else {
                    assert(r2[m] == rest[m - 1]);
                    if rest[m - 1] == fresh_row(code) {
                    } else {
                        assert(drop.contains(rest[m - 1]));
                        let q = choose|q: int| 0 <= q < drop.len() && drop[q] == rest[m - 1];
                        assert(rows[q + 1] == rest[m - 1]);
                        assert(rows.contains(r2[m]));
                    }
                }
            }
            assert forall|i: int, j: int| 0 <= i < j < r2.len() implies lex_lt(
                r2[i].code,
                r2[j].code,
            ) by {
                if i == 0 {
                    assert(r2[j] == rest[j - 1]);
                    if rest[j - 1] == fresh_row(code) {
                        assert(lex_lt(r2[0].code, code));
                    } else {
                        assert(drop.contains(rest[j - 1]));
                        let q = choose|q: int| 0 <= q < drop.len() && drop[q] == rest[j - 1];
                        assert(rows[q + 1] == rest[j - 1]);
                        assert(lex_lt(rows[0].code, rows[q + 1].code));
                    }
                } else {
                    assert(r2[i] == rest[i - 1] && r2[j] == rest[j - 1]);
                }
            }
        }
    }
}

} // verus!

verus! {

/// The views of a list of status codes.
pub open spec fn codes_view(v: Seq<String>) -> Seq<Seq<char>> {
    v.map_values(|s: String| s@)
}

/// Codes in strictly ascending order (so also unique).
pub open spec fn codes_sorted(cs: Seq<Seq<char>>) -> bool {
    forall|i: int, j: int| 0 <= i < j < cs.len() ==> lex_lt(cs[i], cs[j])
}

/// Whether the code is already present.
pub open spec fn codes_has(cs: Seq<Seq<char>>, c: Seq<char>) -> bool {
    exists|i: int| 0 <= i < cs.len() && cs[i] == c
}

/// Insert a code at its sorted position, keeping the list unchanged when
/// the code is already there.
pub open spec fn codes_insert(cs: Seq<Seq<char>>, c: Seq<char>) -> Seq<Seq<char>>
    decreases cs.len(),
{
    if cs.len() == 0 {
        seq![c]
    } else if cs[0] == c {
        cs
    } else if lex_lt(c, cs[0]) {
        seq![c] + cs
    } else {
        seq![cs[0]] + codes_insert(cs.drop_first(), c)
    }
}

/// Scanning past codes that are neither equal nor ordered after `c` leaves
/// the insertion acting on the remaining suffix.
proof fn lemma_codes_insert_suffix(cs: Seq<Seq<char>>, c: Seq<char>, p: int)
    requires
        0 <= p <= cs.len(),
        forall|j: int| 0 <= j < p ==> cs[j] != c && !lex_lt(c, cs[j]),
    ensures
        codes_insert(cs, c) == cs.take(p) + codes_insert(cs.skip(p), c),
    decreases p,
{
    if p == 0 {
        assert(cs.skip(0) =~= cs);
        assert(cs.take(0) + codes_insert(cs, c) =~= codes_insert(cs, c));
    } else {
        lemma_codes_insert_suffix(cs, c, p - 1);
        let tail = cs.skip(p - 1);
        assert(tail[0] == cs[p - 1]);
        assert(tail.drop_first() =~= cs.skip(p));
        assert(cs.take(p - 1) + (seq![tail[0]] + codes_insert(cs.skip(p), c)) =~= cs.take(p)
            + codes_insert(cs.skip(p), c));
    }
}

/// Sorted insertion keeps the codes sorted and adds exactly the new code.
pub proof fn lemma_codes_insert_props(cs: Seq<Seq<char>>, c: Seq<char>)
    requires
        codes_sorted(cs),
    ensures
        codes_sorted(codes_insert(cs, c)),
        codes_has(cs, c) ==> codes_insert(cs, c) == cs,
        codes_has(codes_insert(cs, c), c),
        forall|m: int| 0 <= m < codes_insert(cs, c).len() ==> codes_insert(cs, c)[m] == c
            || cs.contains(codes_insert(cs, c)[m]),
    decreases cs.len(),
{
    let r = codes_insert(cs, c);
    if cs.len() == 0 {
        assert(r[0] == c);
        assert(codes_has(r, c));
    } else if cs[0] == c {
        assert(codes_has(cs, c));
        assert(r == cs);
        assert(codes_has(r, c));
    } else if lex_lt(c, cs[0]) {
        assert(r[0] == c);
        assert(codes_has(r, c));
        assert(!codes_has(cs, c)) by {
            lemma_lex_lt_irrefl(c);
            assert forall|i: int| 0 <= i < cs.len() implies cs[i] != c by {
                if i > 0 && cs[i] == c {
                    lemma_lex_lt_trans(c, cs[0], cs[i]);
                }
            }
        }
        assert forall|i: int, j: int| 0 <= i < j < r.len() implies lex_lt(r[i], r[j]) by {
            if i == 0 && j > 1 {
                lemma_lex_lt_trans(c, cs[0], cs[j - 1]);
            }
        }
    } else {
        let drop = cs.drop_first();
        lemma_codes_insert_props(drop, c);
        let rest = codes_insert(drop, c);
        lemma_lex_lt_total(cs[0], c);
        assert(lex_lt(cs[0], c));
        if codes_has(cs, c) {
            assert(codes_has(drop, c)) by {
                let q = choose|q: int| 0 <= q < cs.len() && cs[q] == c;
                lemma_lex_lt_irrefl(c);
                assert(q > 0);
                assert(drop[q - 1] == c);
            }
            assert(r =~= cs);
        }
        if codes_has(drop, c) {
            let q = choose|q: int| 0 <= q < drop.len() && drop[q] == c;
            assert(cs[q + 1] == c);
            assert(codes_has(cs, c));
        }
        assert(codes_has(r, c)) by {
            let q = choose|q: int| 0 <= q < rest.len() && rest[q] == c;
            assert(r[q + 1] == c);
        }
        assert forall|m: int| 0 <= m < r.len() implies r[m] == c || cs.contains(r[m]) by {
            if m == 0 {
                assert(cs[0] == r[0]);
                assert(cs.contains(r[0]));
            } else {
                assert(r[m] == rest[m - 1]);
                if rest[m - 1] != c {
                    assert(drop.contains(rest[m - 1]));
                    let q = choose|q: int| 0 <= q < drop.len() && drop[q] == rest[m - 1];
                    assert(cs[q + 1] == rest[m - 1]);
                    assert(cs.contains(r[m]));
                }
            }
        }
        assert forall|i: int, j: int| 0 <= i < j < r.len() implies lex_lt(r[i], r[j]) by {
            if i == 0 {
                assert(r[j] == rest[j - 1]);
                if rest[j - 1] == c {
                } else {
                    assert(drop.contains(rest[j - 1]));
                    let q = choose|q: int| 0 <= q < drop.len() && drop[q] == rest[j - 1];
                    assert(cs[q + 1] == rest[j - 1]);
                    assert(lex_lt(cs[0], cs[q + 1]));
                }
            } else {
                assert(r[i] == rest[i - 1] && r[j] == rest[j - 1]);
            }
        }
    }
}

/// Insert a code into the process-wide sorted code list, leaving the list
/// as it is when the code is already known.
fn insert_global_code(codes: &mut Vec<String>, code: String)
    requires
        codes_sorted(codes_view(old(codes)@)),
    ensures
        codes_view(final(codes)@) == codes_insert(codes_view(old(codes)@), code@),
        codes_sorted(codes_view(final(codes)@)),
{
    proof {
        lemma_codes_insert_props(codes_view(codes@), code@);
    }
    let ghost orig = codes_view(codes@);
    let n = codes.len();
    let mut p: usize = 0;
    while p < n
        invariant
            p <= n,
            n == codes@.len(),
            codes_view(codes@) == orig,
            orig == codes_view(old(codes)@),
            codes_sorted(orig),
            forall|j: int| 0 <= j < p ==> orig[j] != code@ && !lex_lt(code@, orig[j]),
        decreases n - p,
    {
        if codes[p] == code {
            proof {
                lemma_codes_insert_props(orig, code@);
                lemma_codes_insert_suffix(orig, code@, p as int);
                assert(orig.skip(p as int)[0] == orig[p as int]);
                assert(codes_insert(orig.skip(p as int), code@) == orig.skip(p as int));
                assert(orig.take(p as int) + orig.skip(p as int) =~= orig);
            }
            return;
        }
        if str_lt(code.as_str(), codes[p].as_str()) {
            proof {
                lemma_codes_insert_props(orig, code@);
                lemma_codes_insert_suffix(orig, code@, p as int);
                assert(orig.skip(p as int)[0] == orig[p as int]);
                assert(codes_insert(orig.skip(p as int), code@) == seq![code@] + orig.skip(
                    p as int,
                ));
            }
            codes.insert(p, code);
            proof {
                assert(codes_view(codes@) =~= orig.take(p as int) + (seq![code@] + orig.skip(
                    p as int,
                )));
            }
            return;
        }
        p = p + 1;
    }
    proof {
        lemma_codes_insert_suffix(orig, code@, n as int);
        assert(orig.skip(n as int) =~= Seq::<Seq<char>>::empty());
        assert(codes_insert(orig.skip(n as int), code@) =~= seq![code@]);
    }
    codes.push(code);
    proof {
        assert(codes_view(codes@) =~= orig.take(n as int) + seq![code@]);
    }
}

} // verus!

verus! {

/// The mathematical shape of a [`GroupStats`]: the source's name and its
/// status rows in code order.
#[verifier::ext_equal]
pub ghost struct GroupView {
    pub name: Seq<char>,
    pub rows: Seq<StatusView>,
}

/// One source group: its display name and one row per status bucket seen,
/// kept sorted by code.
pub struct GroupStats {
    pub group: String,
    pub stats: Vec<StatusStats>,
}

impl View for GroupStats {
    type V = GroupView;

    open spec fn view(&self) -> GroupView {
        GroupView {
            name: self.group@,
            rows: self.stats@.map_values(|s: StatusStats| s@),
        }
    }
}

impl GroupStats {
    /// Every row is well formed and the rows are sorted by code.
    pub open spec fn wf(&self) -> bool {
        &&& forall|i: int| 0 <= i < self.stats@.len() ==> (#[trigger] self.stats@[i]).wf()
        &&& rows_sorted(self@.rows)
    }

    /// A new group with no rows yet.
    pub fn new(group: String) -> (r: Self)
        ensures
            r.wf(),
            r@ == (GroupView { name: group@, rows: Seq::<StatusView>::empty() }),
    {
        let r = GroupStats { group, stats: Vec::new() };
        proof {
            assert(r@.rows =~= Seq::<StatusView>::empty());
        }
        r
    }

    /// Find the row for a code, creating it at its sorted position when the
    /// group has not seen the code before; a code new to this group is also
    /// entered into the process-wide sorted code list. Returns the row's
    /// index.
    pub fn get_or_create(&mut self, statuscode: String, global_statuscodes: &mut Vec<String>)
        -> (i: usize)
        requires
            old(self).wf(),
            codes_sorted(codes_view(old(global_statuscodes)@)),
        ensures
            final(self).wf(),
            codes_sorted(codes_view(final(global_statuscodes)@)),
            final(self)@.name == old(self)@.name,
            ({
                let (r2, k) = rows_get_or_create(old(self)@.rows, statuscode@);
                &&& final(self)@.rows == r2
                &&& i as int == k
                &&& i < final(self).stats@.len()
                &&& final(self)@.rows[i as int].code == statuscode@
            }),
            rows_has_code(old(self)@.rows, statuscode@)
                ==> final(global_statuscodes)@ == old(global_statuscodes)@,
            !rows_has_code(old(self)@.rows, statuscode@)
                ==> codes_view(final(global_statuscodes)@)
                == codes_insert(codes_view(old(global_statuscodes)@), statuscode@),
    {
        let ghost orig = self@.rows;
        proof {
            lemma_rows_goc_props(orig, statuscode@);
        }
        let n = self.stats.len();
        let mut p: usize = 0;
        while p < n
            invariant
                p <= n,
                n == self.stats@.len(),
                self == old(self),
                global_statuscodes == old(global_statuscodes),
                codes_sorted(codes_view(old(global_statuscodes)@)),
                orig == old(self)@.rows,
                old(self).wf(),
                forall|j: int| 0 <= j < p ==> orig[j].code != statuscode@ && !lex_lt(
                    statuscode@,
                    orig[j].code,
                ),
            decreases n - p,
        {
            if self.stats[p].statuscode == statuscode {
                proof {
                    lemma_rows_goc_suffix(orig, statuscode@, p as int);
                    assert(orig.skip(p as int)[0] == orig[p as int]);
                    assert(rows_get_or_create(orig.skip(p as int), statuscode@).0 == orig.skip(
                        p as int,
                    ));
                    assert(rows_get_or_create(orig.skip(p as int), statuscode@).1 == 0);
                    assert(orig.take(p as int) + orig.skip(p as int) =~= orig);
                    assert(rows_has_code(orig, statuscode@));
                }
                return p;
            }
            if str_lt(statuscode.as_str(), self.stats[p].statuscode.as_str()) {
                proof {
                    lemma_rows_goc_props(orig, statuscode@);
                    lemma_rows_goc_suffix(orig, statuscode@, p as int);
                    assert(orig.skip(p as int)[0] == orig[p as int]);
                    assert(rows_get_or_create(orig.skip(p as int), statuscode@).0 == seq![
                        fresh_row(statuscode@)] + orig.skip(p as int));
                    assert(rows_get_or_create(orig.skip(p as int), statuscode@).1 == 0);
                    assert(!rows_has_code(orig, statuscode@)) by {
                        if rows_has_code(orig, statuscode@) {
                            let (r2, k) = rows_get_or_create(orig, statuscode@);
                            assert(r2 == orig);
                            assert(r2 == orig.take(p as int) + (seq![fresh_row(statuscode@)]
                                + orig.skip(p as int)));
                            assert(orig.len() == orig.len() + 1);
                        }
                    }
                }
                insert_global_code(global_statuscodes, statuscode.clone());
                let row = StatusStats::new(statuscode);
                self.stats.insert(p, row);
                proof {
                    assert(self@.rows =~= orig.take(p as int) + (seq![fresh_row(statuscode@)]
                        + orig.skip(p as int)));
                    assert forall|j: int| 0 <= j < self.stats@.len() implies (
                    #[trigger] self.stats@[j]).wf() by {
                        if j < p {
                            assert(self.stats@[j] == old(self).stats@[j]);
                        } else if j > p {
                            assert(self.stats@[j] == old(self).stats@[j - 1]);
                        }
                    }
                }
                return p;
            }
            p = p + 1;
        }
        proof {
            lemma_rows_goc_props(orig, statuscode@);
            lemma_rows_goc_suffix(orig, statuscode@, n as int);
            assert(orig.skip(n as int) =~= Seq::<StatusView>::empty());
            assert(rows_get_or_create(orig.skip(n as int), statuscode@).0 == seq![fresh_row(
                statuscode@,
            )]);
            assert(rows_get_or_create(orig.skip(n as int), statuscode@).1 == 0);
            assert(!rows_has_code(orig, statuscode@)) by {
                if rows_has_code(orig, statuscode@) {
                    let (r2, k) = rows_get_or_create(orig, statuscode@);
                    assert(r2 == orig);
                    assert(r2 == orig.take(n as int) + seq![fresh_row(statuscode@)]);
                    assert(orig.len() == orig.len() + 1);
                }
            }
        }
        insert_global_code(global_statuscodes, statuscode.clone());
        let row = StatusStats::new(statuscode);
        self.stats.push(row);
        proof {
            assert(self@.rows =~= orig.take(n as int) + seq![fresh_row(statuscode@)]);
            assert forall|j: int| 0 <= j < self.stats@.len() implies (
            #[trigger] self.stats@[j]).wf() by {
                if j < n {
                    assert(self.stats@[j] == old(self).stats@[j]);
                }
            }
        }
        n
    }

    /// One sample tick for every row of the group: each folds its pending
    /// count over its own elapsed time.
    pub fn process(&mut self)
        requires
            old(self).wf(),
        ensures
            final(self).wf(),
            final(self)@.name == old(self)@.name,
            final(self)@.rows.len() == old(self)@.rows.len(),
            forall|j: int| 0 <= j < old(self)@.rows.len() ==> row_ticked(
                old(self)@.rows[j],
                #[trigger] final(self)@.rows[j],
            ),
    {
        let n = self.stats.len();
        let mut i: usize = 0;
        while i < n
            invariant
                i <= n,
                n == self.stats@.len(),
                self.stats@.len() == old(self).stats@.len(),
                self.group == old(self).group,
                forall|j: int| 0 <= j < i ==> row_ticked(
                    old(self).stats@[j]@,
                    (#[trigger] self.stats@[j])@,
                ),
                forall|j: int| 0 <= j < self.stats@.len() ==> (#[trigger] self.stats@[j]).wf(),
                forall|j: int| i <= j < n ==> self.stats@[j] == old(self).stats@[j],
            decreases n - i,
        {
            let ghost before = self.stats@;
            let mut st = self.stats.remove(i);
            st.process();
            self.stats.insert(i, st);
            proof {
                assert(self.stats@ =~= before.update(i as int, st));
                assert forall|j: int| 0 <= j < i + 1 implies row_ticked(
                    old(self).stats@[j]@,
                    (#[trigger] self.stats@[j])@,
                ) by {
                    if j < i {
                        assert(self.stats@[j] == before[j]);
                    } else {
                        assert(self.stats@[j] == st);
                    }
                }
            }
            i = i + 1;
        }
        proof {
            assert forall|j: int| 0 <= j < old(self)@.rows.len() implies row_ticked(
                old(self)@.rows[j],
                #[trigger] self@.rows[j],
            ) by {
                assert(self@.rows[j] == self.stats@[j]@);
                assert(old(self)@.rows[j] == old(self).stats@[j]@);
            }
            assert(rows_sorted(self@.rows)) by {
                assert forall|a: int, b: int| 0 <= a < b < self@.rows.len() implies lex_lt(
                    self@.rows[a].code,
                    self@.rows[b].code,
                ) by {
                    assert(row_ticked(old(self)@.rows[a], self@.rows[a]));
                    assert(row_ticked(old(self)@.rows[b], self@.rows[b]));
                }
            }
        }
    }
}

} // verus!

verus! {

/// The group names, in insertion order.
pub open spec fn names_of(gs: Seq<GroupStats>) -> Seq<Seq<char>> {
    gs.map_values(|g: GroupStats| g.group@)
}

/// Whether every name agrees with the first one at position `i` (a name too
/// short to have that position counts as a disagreement).
pub open spec fn all_match_at(names: Seq<Seq<char>>, i: int) -> bool {
    forall|t: int| 0 <= t < names.len() ==> i < (#[trigger] names[t]).len() && names[t][i]
        == names[0][i]
}

/// Length of the longest common prefix of all names, scanning from `i`.
pub open spec fn cpl_from(names: Seq<Seq<char>>, i: int) -> int
    decreases names[0].len() - i,
{
    if i < 0 || i >= names[0].len() {
        i
    } else if all_match_at(names, i) {
        cpl_from(names, i + 1)
    } else {
        i
    }
}

/// Whether every name agrees with the first one at position `i` counted
/// from the back.
pub open spec fn all_match_back_at(names: Seq<Seq<char>>, i: int) -> bool {
    forall|t: int| 0 <= t < names.len() ==> i < (#[trigger] names[t]).len() && names[t][names[t].len()
        - 1 - i] == names[0][names[0].len() - 1 - i]
}

/// Length of the longest common suffix of all names, scanning from `i`.
pub open spec fn csl_from(names: Seq<Seq<char>>, i: int) -> int
    decreases names[0].len() - i,
{
    if i < 0 || i >= names[0].len() {
        i
    } else if all_match_back_at(names, i) {
        csl_from(names, i + 1)
    } else {
        i
    }
}

/// The longest name's length.
pub open spec fn max_name_len(names: Seq<Seq<char>>) -> int
    decreases names.len(),
{
    if names.len() == 0 {
        0
    } else {
        let m = max_name_len(names.drop_last());
        if names.last().len() > m {
            names.last().len() as int
        } else {
            m
        }
    }
}

/// The shared prefix and suffix to trim from group names for display: the
/// longest common prefix and suffix of all names, with the prefix shortened
/// (never the suffix) until at least 8 distinguishing characters remain
/// visible, or both dropped entirely when even the longest name is shorter
/// than 8 characters.
pub open spec fn trim_spec(names: Seq<Seq<char>>) -> (Seq<char>, Seq<char>) {
    let p = cpl_from(names, 0);
    let sfx = csl_from(names, 0);
    let m = max_name_len(names);
    let suffix = names[0].skip(names[0].len() - sfx);
    if m - p - sfx < 8 {
        if m < 8 {
            (Seq::<char>::empty(), Seq::<char>::empty())
        } else {
            let keep = 8 - (m - p - sfx);
            let p2 = if p >= keep {
                p - keep
            } else {
                0
            };
            (names[0].take(p2), suffix)
        }
    } else {
        (names[0].take(p), suffix)
    }
}

/// Check whether all group names share the first name's character at `i`.
fn names_match_at(stats: &Vec<GroupStats>, i: usize) -> (r: bool)
    requires
        stats@.len() >= 1,
    ensures
        r == all_match_at(names_of(stats@), i as int),
{
    let ghost names = names_of(stats@);
    let n = stats.len();
    if i >= stats[0].group.unicode_len() {
        proof {
            assert(names[0] == stats@[0].group@);
            assert(!(i < names[0].len() && names[0][i as int] == names[0][i as int]));
        }
        return false;
    }
    let c0 = stats[0].group.as_str().get_char(i);
    let mut t: usize = 1;
    while t < n
        invariant
            1 <= t <= n,
            n == stats@.len(),
            names == names_of(stats@),
            i < names[0].len(),
            c0 == names[0][i as int],
            forall|u: int| 0 <= u < t ==> i < (#[trigger] names[u]).len() && names[u][i as int]
                == names[0][i as int],
        decreases n - t,
    {
        proof {
            assert(names[t as int] == stats@[t as int].group@);
        }
        if i >= stats[t].group.unicode_len() {
            return false;
        }
        if stats[t].group.as_str().get_char(i) != c0 {
            return false;
        }
        t = t + 1;
    }
    true
}

/// Check whether all group names share the first name's character at `i`,
/// counted from the back.
fn names_match_back_at(stats: &Vec<GroupStats>, i: usize) -> (r: bool)
    requires
        stats@.len() >= 1,
    ensures
        r == all_match_back_at(names_of(stats@), i as int),
{
    let ghost names = names_of(stats@);
    let n = stats.len();
    let len0 = stats[0].group.unicode_len();
    if i >= len0 {
        proof {
            assert(names[0] == stats@[0].group@);
        }
        return false;
    }
    let c0 = stats[0].group.as_str().get_char(len0 - 1 - i);
    let mut t: usize = 1;
    while t < n
        invariant
            1 <= t <= n,
            n == stats@.len(),
            names == names_of(stats@),
            len0 == names[0].len(),
            i < names[0].len(),
            c0 == names[0][names[0].len() - 1 - i],
            forall|u: int| 0 <= u < t ==> i < (#[trigger] names[u]).len() && names[u][names[u].len()
                - 1 - i] == names[0][names[0].len() - 1 - i],
        decreases n - t,
    {
        proof {
            assert(names[t as int] == stats@[t as int].group@);
        }
        let lent = stats[t].group.unicode_len();
        if i >= lent {
            return false;
        }
        if stats[t].group.as_str().get_char(lent - 1 - i) != c0 {
            return false;
        }
        t = t + 1;
    }
    true
}

} // verus!

verus! {

/// Look up a group by name, appending a fresh empty group when the name is
/// new; yields the groups afterwards and the name's index.
pub open spec fn groups_get_or_create(gs: Seq<GroupView>, name: Seq<char>) -> (Seq<GroupView>,
    int)
    decreases gs.len(),
{
    if gs.len() == 0 {
        (seq![GroupView { name, rows: Seq::<StatusView>::empty() }], 0int)
    } else if gs[0].name == name {
        (gs, 0int)
    } else {
        let (rest, k) = groups_get_or_create(gs.drop_first(), name);
        (seq![gs[0]] + rest, k + 1)
    }
}

/// Whether some group carries this name.
pub open spec fn groups_has_name(gs: Seq<GroupView>, name: Seq<char>) -> bool {
    exists|i: int| 0 <= i < gs.len() && gs[i].name == name
}

/// Scanning past groups with other names leaves the lookup acting on the
/// remaining suffix.
proof fn lemma_groups_goc_suffix(gs: Seq<GroupView>, name: Seq<char>, p: int)
    requires
        0 <= p <= gs.len(),
        forall|j: int| 0 <= j < p ==> gs[j].name != name,
    ensures
        groups_get_or_create(gs, name).0 == gs.take(p) + groups_get_or_create(
            gs.skip(p),
            name,
        ).0,
        groups_get_or_create(gs, name).1 == p + groups_get_or_create(gs.skip(p), name).1,
    decreases p,
{
    if p == 0 {
        assert(gs.skip(0) =~= gs);
        assert(gs.take(0) + groups_get_or_create(gs, name).0 =~= groups_get_or_create(
            gs,
            name,
        ).0);
    } else {
        lemma_groups_goc_suffix(gs, name, p - 1);
        let tail = gs.skip(p - 1);
        assert(tail[0] == gs[p - 1]);
        assert(tail.drop_first() =~= gs.skip(p));
        assert(gs.take(p - 1) + (seq![tail[0]] + groups_get_or_create(gs.skip(p), name).0)
            =~= gs.take(p) + groups_get_or_create(gs.skip(p), name).0);
    }
}

/// The full set of active groups, the process-wide sorted list of every
/// status code seen, and the shared prefix and suffix trimmed off group
/// names for display.
pub struct GroupMap {
    pub stats: Vec<GroupStats>,
    pub shared_prefix: String,
    pub shared_suffix: String,
    pub global_statuscodes: Vec<String>,
}

impl GroupMap {
    /// The groups as mathematical values.
    pub open spec fn groups(&self) -> Seq<GroupView> {
        self.stats@.map_values(|g: GroupStats| g@)
    }

    /// Well-formed groups with unique names, a sorted global code list, and
    /// the trimmed prefix and suffix exactly as [`trim_spec`] computes them
    /// from the current names (recomputation is skipped while there are
    /// fewer than two groups, so both stay empty until then).
    pub open spec fn wf(&self) -> bool {
        &&& forall|i: int| 0 <= i < self.stats@.len() ==> (#[trigger] self.stats@[i]).wf()
        &&& forall|i: int, j: int|
            0 <= i < j < self.stats@.len() ==> self.stats@[i].group@ != self.stats@[j].group@
        &&& codes_sorted(codes_view(self.global_statuscodes@))
        &&& self.stats@.len() < 2 ==> self.shared_prefix@ == Seq::<char>::empty()
            && self.shared_suffix@ == Seq::<char>::empty()
        &&& self.stats@.len() >= 2 ==> (self.shared_prefix@, self.shared_suffix@) == trim_spec(
            names_of(self.stats@),
        )
    }

    /// An empty map: no groups, no codes, nothing trimmed.
    pub fn new() -> (r: Self)
        ensures
            r.wf(),
            r.groups() == Seq::<GroupView>::empty(),
            r.global_statuscodes@ == Seq::<String>::empty(),
    {
        let r = GroupMap {
            stats: Vec::new(),
            shared_prefix: String::new(),
            shared_suffix: String::new(),
            global_statuscodes: Vec::new(),
        };
        proof {
            assert(r.groups() =~= Seq::<GroupView>::empty());
        }
        r
    }

    /// How many groups are active.
    pub fn len(&self) -> (r: usize)
        ensures
            r == self.groups().len(),
    {
        self.stats.len()
    }

    /// Whether no group is active yet.
    pub fn is_empty(&self) -> (r: bool)
        ensures
            r == (self.groups().len() == 0),
    {
        self.stats.len() == 0
    }

    /// Recompute the shared prefix and suffix from the current group names.
    /// With fewer than two groups there is nothing to compare and the
    /// previous values stay.
    fn update_trimmed_tags(&mut self)
        ensures
            final(self).stats == old(self).stats,
            final(self).global_statuscodes == old(self).global_statuscodes,
            old(self).stats@.len() < 2 ==> final(self).shared_prefix == old(self).shared_prefix
                && final(self).shared_suffix == old(self).shared_suffix,
            old(self).stats@.len() >= 2 ==> (final(self).shared_prefix@,
                final(self).shared_suffix@) == trim_spec(names_of(old(self).stats@)),
    {
        if self.stats.len() < 2 {
            return;
        }
        let ghost names = names_of(self.stats@);
        let len0 = self.stats[0].group.unicode_len();
        proof {
            assert(names[0] == self.stats@[0].group@);
        }

        let mut plen: usize = 0;
        let mut scanning = true;
        while scanning && plen < len0
            invariant
                plen <= len0,
                len0 == names[0].len(),
                names == names_of(self.stats@),
                self == old(self),
                self.stats@.len() >= 1,
                scanning ==> cpl_from(names, 0) == cpl_from(names, plen as int),
                !scanning ==> cpl_from(names, 0) == plen as int,
            decreases len0 - plen, (if scanning { 1int } else { 0int }),
        {
            if names_match_at(&self.stats, plen) {
                plen = plen + 1;
            } else {
                scanning = false;
            }
        }

        let mut slen: usize = 0;
        let mut back_scanning = true;
        while back_scanning && slen < len0
            invariant
                slen <= len0,
                len0 == names[0].len(),
                names == names_of(self.stats@),
                self == old(self),
                self.stats@.len() >= 1,
                back_scanning ==> csl_from(names, 0) == csl_from(names, slen as int),
                !back_scanning ==> csl_from(names, 0) == slen as int,
            decreases len0 - slen, (if back_scanning { 1int } else { 0int }),
        {
            if names_match_back_at(&self.stats, slen) {
                slen = slen + 1;
            } else {
                back_scanning = false;
            }
        }

        let mut maxlen: usize = 0;
        let mut t: usize = 0;
        while t < self.stats.len()
            invariant
                t <= self.stats@.len(),
                names == names_of(self.stats@),
                self == old(self),
                self.stats@.len() >= 1,
                maxlen as int == max_name_len(names.take(t as int)),
            decreases self.stats@.len() - t,
        {
            proof {
                assert(names.take(t + 1).drop_last() =~= names.take(t as int));
                assert(names.take(t + 1).last() == names[t as int]);
                assert(names[t as int] == self.stats@[t as int].group@);
            }
            let lent = self.stats[t].group.unicode_len();
            if lent > maxlen {
                maxlen = lent;
            }
            t = t + 1;
        }
        proof {
            assert(names.take(names.len() as int) =~= names);
        }

        let ghost spec_result = trim_spec(names);
        let text_left: i128 = maxlen as i128 - plen as i128 - slen as i128;
        if text_left < 8 {
            if maxlen < 8 {
                self.shared_prefix = String::new();
                self.shared_suffix = String::new();
            } else {
                let keep: i128 = 8 - text_left;
                let p2: usize = if plen as i128 >= keep {
                    (plen as i128 - keep) as usize
                } else {
                    0
                };
                self.shared_prefix = String::from_str(
                    self.stats[0].group.as_str().substring_char(0, p2),
                );
                self.shared_suffix = String::from_str(
                    self.stats[0].group.as_str().substring_char(len0 - slen, len0),
                );
            }
        } else {
            self.shared_prefix = String::from_str(
                self.stats[0].group.as_str().substring_char(0, plen),
            );
            self.shared_suffix = String::from_str(
                self.stats[0].group.as_str().substring_char(len0 - slen, len0),
            );
        }
        proof {
            assert((self.shared_prefix@, self.shared_suffix@) == spec_result);
        }
    }

    /// Find a group by name, appending a fresh one when the name is new and
    /// recomputing the trimmed prefix and suffix. Returns the group's index.
    pub fn get_or_create(&mut self, tag: String) -> (i: usize)
        requires
            old(self).wf(),
        ensures
            final(self).wf(),
            final(self).global_statuscodes == old(self).global_statuscodes,
            ({
                let (g2, k) = groups_get_or_create(old(self).groups(), tag@);
                &&& final(self).groups() == g2
                &&& i as int == k
                &&& i < final(self).stats@.len()
                &&& final(self).groups()[i as int].name == tag@
            }),
            groups_has_name(old(self).groups(), tag@) ==> *final(self) == *old(self),
            !groups_has_name(old(self).groups(), tag@) ==> final(self).groups()
                == old(self).groups().push(
                GroupView { name: tag@, rows: Seq::<StatusView>::empty() },
            ),
    {
        let ghost orig = self.groups();
        let n = self.stats.len();
        let mut p: usize = 0;
        while p < n
            invariant
                p <= n,
                n == self.stats@.len(),
                self == old(self),
                old(self).wf(),
                orig == old(self).groups(),
                forall|j: int| 0 <= j < p ==> orig[j].name != tag@,
            decreases n - p,
        {
            proof {
                assert(orig[p as int].name == self.stats@[p as int].group@);
            }
            if self.stats[p].group == tag {
                proof {
                    lemma_groups_goc_suffix(orig, tag@, p as int);
                    assert(orig.skip(p as int)[0] == orig[p as int]);
                    assert(groups_get_or_create(orig.skip(p as int), tag@).0 == orig.skip(
                        p as int,
                    ));
                    assert(groups_get_or_create(orig.skip(p as int), tag@).1 == 0);
                    assert(orig.take(p as int) + orig.skip(p as int) =~= orig);
                    assert(groups_has_name(orig, tag@));
                }
                return p;
            }
            p = p + 1;
        }
        proof {
            lemma_groups_goc_suffix(orig, tag@, n as int);
            assert(orig.skip(n as int) =~= Seq::<GroupView>::empty());
            assert(groups_get_or_create(orig.skip(n as int), tag@).0 == seq![GroupView {
                name: tag@,
                rows: Seq::<StatusView>::empty(),
            }]);
            assert(groups_get_or_create(orig.skip(n as int), tag@).1 == 0);
            assert(!groups_has_name(orig, tag@));
        }
        let fresh = GroupStats::new(tag);
        self.stats.push(fresh);
        self.update_trimmed_tags();
        proof {
            assert(self.groups() =~= orig.take(n as int) + seq![GroupView {
                name: tag@,
                rows: Seq::<StatusView>::empty(),
            }]);
            assert(orig.take(n as int) =~= orig);
            assert(self.groups() =~= orig.push(GroupView {
                name: tag@,
                rows: Seq::<StatusView>::empty(),
            }));
            assert forall|j: int| 0 <= j < self.stats@.len() implies (
            #[trigger] self.stats@[j]).wf() by {
                if j < n {
                    assert(self.stats@[j] == old(self).stats@[j]);
                }
            }
            assert forall|a: int, b: int| 0 <= a < b < self.stats@.len() implies self.stats@[a].group@
                != self.stats@[b].group@ by {
                if b < n {
                    assert(self.stats@[a] == old(self).stats@[a]);
                    assert(self.stats@[b] == old(self).stats@[b]);
                } else {
                    assert(self.stats@[a] == old(self).stats@[a]);
                    assert(orig[a].name == old(self).stats@[a].group@);
                }
            }
        }
        n
    }
}

} // verus!

verus! {

/// One more pending line, holding at the counter's largest value.
pub open spec fn sat_inc(p: u32) -> u32 {
    if p < u32::MAX {
        (p + 1) as u32
    } else {
        u32::MAX
    }
}

/// Count one line with this code against sorted rows: the row is created at
/// its sorted position if needed, and its pending count goes up by one.
pub open spec fn rows_account(rows: Seq<StatusView>, code: Seq<char>) -> Seq<StatusView> {
    let (r2, k) = rows_get_or_create(rows, code);
    r2.update(k, StatusView { pending: sat_inc(r2[k].pending), ..r2[k] })
}

/// Count one line against its group and status: the group is appended if
/// new, and within it the code's row is created and incremented.
pub open spec fn groups_account(gs: Seq<GroupView>, name: Seq<char>, code: Seq<char>) -> Seq<
    GroupView,
> {
    let (g2, k) = groups_get_or_create(gs, name);
    g2.update(k, GroupView { rows: rows_account(g2[k].rows, code), ..g2[k] })
}

impl GroupMap {
    /// Count one line: look up (or create) the group named `updowngroup`
    /// and, inside it, the row for the status bucket `leftrightgroup`, and
    /// raise that row's pending count by one. A code new to the group also
    /// enters the process-wide code list.
    pub fn account(&mut self, updowngroup: String, leftrightgroup: String)
        requires
            old(self).wf(),
        ensures
            final(self).wf(),
            final(self).groups() == groups_account(
                old(self).groups(),
                updowngroup@,
                leftrightgroup@,
            ),
            ({
                let (g2, k) = groups_get_or_create(old(self).groups(), updowngroup@);
                &&& (rows_has_code(g2[k].rows, leftrightgroup@)
                    ==> final(self).global_statuscodes@ == old(self).global_statuscodes@)
                &&& (!rows_has_code(g2[k].rows, leftrightgroup@)
                    ==> codes_view(final(self).global_statuscodes@) == codes_insert(
                    codes_view(old(self).global_statuscodes@),
                    leftrightgroup@,
                ))
            }),
    {
        let ghost code = leftrightgroup@;
        let gi = self.get_or_create(updowngroup);
        let ghost g2 = self.groups();
        let ghost k = gi as int;
        let ghost mid_stats = self.stats@;
        let mut g = self.stats.remove(gi);
        let ghost rows_before = g@.rows;
        let si = g.get_or_create(leftrightgroup, &mut self.global_statuscodes);
        let ghost rows_mid = g@.rows;
        let ghost g_stats_mid = g.stats@;
        let mut st = g.stats.remove(si);
        st.count_line();
        g.stats.insert(si, st);
        proof {
            assert(g.stats@ =~= g_stats_mid.update(si as int, st));
            assert(g@.rows =~= rows_mid.update(
                si as int,
                StatusView { pending: sat_inc(rows_mid[si as int].pending), ..rows_mid[si as int] },
            ));
            assert(g@.rows == rows_account(rows_before, code));
            assert(rows_sorted(g@.rows)) by {
                assert forall|a: int, b: int| 0 <= a < b < g@.rows.len() implies lex_lt(
                    g@.rows[a].code,
                    g@.rows[b].code,
                ) by {
                    assert(g@.rows[a].code == rows_mid[a].code);
                    assert(g@.rows[b].code == rows_mid[b].code);
                }
            }
            assert forall|j: int| 0 <= j < g.stats@.len() implies (
            #[trigger] g.stats@[j]).wf() by {
                if j != si as int {
                    assert(g.stats@[j] == g_stats_mid[j]);
                }
            }
        }
        self.stats.insert(gi, g);
        proof {
            assert(self.stats@ =~= mid_stats.update(k, g));
            assert(self.groups() =~= g2.update(
                k,
                GroupView { rows: rows_account(g2[k].rows, code), ..g2[k] },
            ));
            assert(names_of(self.stats@) =~= names_of(mid_stats));
            assert forall|j: int| 0 <= j < self.stats@.len() implies (
            #[trigger] self.stats@[j]).wf() by {
                if j != k {
                    assert(self.stats@[j] == mid_stats[j]);
                }
            }
            assert forall|a: int, b: int|
                0 <= a < b < self.stats@.len() implies self.stats@[a].group@
                != self.stats@[b].group@ by {
                assert(self.stats@[a].group@ == names_of(mid_stats)[a]);
                assert(self.stats@[b].group@ == names_of(mid_stats)[b]);
            }
        }
    }
}

} // verus!

verus! {

impl GroupMap {
    /// One sample tick across every group: each status row folds its
    /// pending count into its estimator over its own elapsed time.
    pub fn tick(&mut self)
        requires
            old(self).wf(),
        ensures
            final(self).wf(),
            final(self).shared_prefix == old(self).shared_prefix,
            final(self).shared_suffix == old(self).shared_suffix,
            final(self).global_statuscodes == old(self).global_statuscodes,
            final(self).groups().len() == old(self).groups().len(),
            forall|i: int| 0 <= i < old(self).groups().len() ==> {
                &&& (#[trigger] final(self).groups()[i]).name == old(self).groups()[i].name
                &&& final(self).groups()[i].rows.len() == old(self).groups()[i].rows.len()
                &&& forall|j: int| 0 <= j < old(self).groups()[i].rows.len() ==> row_ticked(
                    old(self).groups()[i].rows[j],
                    #[trigger] final(self).groups()[i].rows[j],
                )
            },
    {
        let n = self.stats.len();
        let mut i: usize = 0;
        while i < n
            invariant
                i <= n,
                n == self.stats@.len(),
                old(self).wf(),
                self.stats@.len() == old(self).stats@.len(),
                self.shared_prefix == old(self).shared_prefix,
                self.shared_suffix == old(self).shared_suffix,
                self.global_statuscodes == old(self).global_statuscodes,
                forall|j: int| i <= j < n ==> self.stats@[j] == old(self).stats@[j],
                forall|j: int| 0 <= j < i ==> {
                    &&& (#[trigger] self.stats@[j]).wf()
                    &&& self.stats@[j].group@ == old(self).stats@[j].group@
                    &&& self.stats@[j]@.rows.len() == old(self).stats@[j]@.rows.len()
                    &&& forall|m: int| 0 <= m < old(self).stats@[j]@.rows.len() ==> row_ticked(
                        old(self).stats@[j]@.rows[m],
                        #[trigger] self.stats@[j]@.rows[m],
                    )
                },
            decreases n - i,
        {
            let ghost before = self.stats@;
            let mut g = self.stats.remove(i);
            g.process();
            self.stats.insert(i, g);
            proof {
                assert(self.stats@ =~= before.update(i as int, g));
            }
            i = i + 1;
        }
        proof {
            assert(names_of(self.stats@) =~= names_of(old(self).stats@));
            assert forall|a: int, b: int|
                0 <= a < b < self.stats@.len() implies self.stats@[a].group@
                != self.stats@[b].group@ by {
                assert(self.stats@[a].group@ == names_of(self.stats@)[a]);
                assert(self.stats@[b].group@ == names_of(self.stats@)[b]);
                assert(old(self).stats@[a].group@ == names_of(old(self).stats@)[a]);
                assert(old(self).stats@[b].group@ == names_of(old(self).stats@)[b]);
            }
            assert forall|i2: int| 0 <= i2 < old(self).groups().len() implies {
                &&& (#[trigger] final(self).groups()[i2]).name == old(self).groups()[i2].name
                &&& final(self).groups()[i2].rows.len() == old(self).groups()[i2].rows.len()
            } by {
                assert(final(self).groups()[i2] == self.stats@[i2]@);
                assert(old(self).groups()[i2] == old(self).stats@[i2]@);
            }
            assert forall|i2: int, j: int|
                0 <= i2 < old(self).groups().len() && 0 <= j < old(
                    self,
                ).groups()[i2].rows.len() implies row_ticked(
                old(self).groups()[i2].rows[j],
                #[trigger] final(self).groups()[i2].rows[j],
            ) by {
                assert(final(self).groups()[i2] == self.stats@[i2]@);
                assert(old(self).groups()[i2] == old(self).stats@[i2]@);
            }
        }
    }
}

} // verus!

verus! {

impl GroupStats {
    /// Find the row that carries this code, if any.
    pub fn find_row(&self, code: &String) -> (r: Option<usize>)
        ensures
            match r {
                Some(q) => 0 <= q < self@.rows.len() && self@.rows[q as int].code == code@
                    && rows_has_code(self@.rows, code@),
                None => !rows_has_code(self@.rows, code@),
            },
    {
        let n = self.stats.len();
        let mut q: usize = 0;
        while q < n
            invariant
                q <= n,
                n == self.stats@.len(),
                forall|j: int| 0 <= j < q ==> self@.rows[j].code != code@,
            decreases n - q,
        {
            proof {
                assert(self@.rows[q as int] == self.stats@[q as int]@);
            }
            if self.stats[q].statuscode == *code {
                return Some(q);
            }
            q = q + 1;
        }
        proof {
            assert forall|j: int| 0 <= j < self@.rows.len() implies self@.rows[j].code != code@
                by {
                assert(self@.rows[j] == self.stats@[j]@);
            }
        }
        None
    }

    /// The current speed of one row: its window totals as an exact ratio,
    /// or an exact zero for an empty window.
    pub fn row_speed(&self, q: usize) -> (r: crate::speedometer::Rate)
        requires
            self.wf(),
            q < self@.rows.len(),
        ensures
            self@.rows[q as int].window.len() == 0 ==> r == (crate::speedometer::Rate {
                num: 0u64,
                den: 1u64,
            }),
            self@.rows[q as int].window.len() > 0 ==> r.num == 1000 * crate::speedometer::sum_msgs(
                self@.rows[q as int].window,
            ) && r.den == crate::speedometer::sum_durations(self@.rows[q as int].window),
    {
        proof {
            assert(self@.rows[q as int] == self.stats@[q as int]@);
            assert(self.stats@[q as int].wf());
        }
        self.stats[q].ring.get_speed()
    }
}

} // verus!
