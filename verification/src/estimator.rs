//! Constant-space windowed extremum (the win-minmax design): three rotating
//! sub-window slots, each retaining the best sample of its sub-window.
//!
//! Samples, timestamps and sub-window numbers are integers here. A sample value
//! and a timestamp are order keys: integers whose order is the order of the
//! quantities they stand for, so every comparison the filter makes on them is
//! the comparison it would make on the quantities. The sub-window number of a
//! timestamp (`floor(timestamp / (window / 3))`) is computed by the caller.
use vstd::prelude::*;

verus! {

/// The number of equal sub-windows in the constant-space filter. This is an
/// algorithmic invariant of the three-slot design, not a tuning parameter.
pub const SUBWINDOW_COUNT: usize = 3;

/// Whether the filter retains the largest or the smallest recent sample.
#[derive(Debug, Clone, Copy, PartialEq, Eq, Structural)]
pub enum Extremum {
    Max,
    Min,
}

/// The best sample seen in one sub-window.
#[derive(Debug, Clone, Copy, PartialEq, Eq, Structural)]
pub struct Slot {
    pub bucket: i64,
    pub value: u64,
    pub timestamp: u64,
}

/// A windowed maximum (or minimum) over the last three sub-windows.
#[derive(Debug, Clone, Copy)]
pub struct WindowedExtremum {
    pub kind: Extremum,
    pub slots: [Option<Slot>; SUBWINDOW_COUNT],
    pub last_timestamp: Option<u64>,
}

/// A sample or an expiration request older than the newest one accepted.
#[derive(Debug, Clone, Copy, PartialEq, Eq, Structural)]
pub enum EstimatorError {
    TimestampMovedBackward { previous: u64, received: u64 },
}

/// `candidate` replaces `incumbent`: strictly larger in max mode, strictly
/// smaller in min mode.
pub open spec fn prefers(kind: Extremum, candidate: u64, incumbent: u64) -> bool {
    match kind {
        Extremum::Max => candidate > incumbent,
        Extremum::Min => candidate < incumbent,
    }
}

/// The slot that holds sub-window `bucket` (Euclidean remainder).
pub open spec fn slot_index(bucket: i64) -> int {
    (bucket as int) % (SUBWINDOW_COUNT as int)
}

/// A slot whose sub-window lies three or more sub-windows behind `current`
/// has left the window.
pub open spec fn expire_slot(current: i64, slot: Option<Slot>) -> Option<Slot> {
    match slot {
        Some(s) => if current - s.bucket >= SUBWINDOW_COUNT as int {
            None
        } else {
            slot
        },
        None => None,
    }
}

pub open spec fn expire_all(slots: Seq<Option<Slot>>, current: i64) -> Seq<Option<Slot>> {
    slots.map_values(|s: Option<Slot>| expire_slot(current, s))
}

/// A sample entering its slot: it starts the slot when the slot holds another
/// sub-window (or nothing), and replaces the slot's sample only when preferred.
pub open spec fn merge(kind: Extremum, slot: Option<Slot>, bucket: i64, value: u64, timestamp: u64) -> Option<Slot> {
    match slot {
        Some(s) => if s.bucket == bucket {
            if prefers(kind, value, s.value) {
                Some(Slot { bucket, value, timestamp })
            } else {
                slot
            }
        } else {
            Some(Slot { bucket, value, timestamp })
        },
        None => Some(Slot { bucket, value, timestamp }),
    }
}

/// The slots after a sample of sub-window `bucket` has been recorded.
pub open spec fn fed_slots(kind: Extremum, slots: Seq<Option<Slot>>, value: u64, timestamp: u64, bucket: i64) -> Seq<Option<Slot>> {
    let e = expire_all(slots, bucket);
    e.update(slot_index(bucket), merge(kind, e[slot_index(bucket)], bucket, value, timestamp))
}

/// Left-to-right reduction step: a later slot's value wins only when preferred.
pub open spec fn pick(kind: Extremum, acc: Option<u64>, slot: Option<Slot>) -> Option<u64> {
    match slot {
        None => acc,
        Some(s) => match acc {
            None => Some(s.value),
            Some(a) => if prefers(kind, s.value, a) { Some(s.value) } else { Some(a) },
        },
    }
}

/// The best value held by the three slots, `None` when all are empty.
pub open spec fn best(kind: Extremum, slots: Seq<Option<Slot>>) -> Option<u64> {
    pick(kind, pick(kind, pick(kind, None, slots[0]), slots[1]), slots[2])
}

/// A timestamp older than the last accepted one is refused.
pub open spec fn moved_backward(last: Option<u64>, timestamp: u64) -> bool {
    match last {
        Some(previous) => timestamp < previous,
        None => false,
    }
}

impl WindowedExtremum {
    /// An empty filter.
    pub fn new(kind: Extremum) -> (w: Self)
        ensures
            w.kind == kind,
            w.slots@ == seq![None::<Slot>, None, None],
            w.last_timestamp is None,
    {
        let w = WindowedExtremum { kind, slots: [None, None, None], last_timestamp: None };
        assert(w.slots@ =~= seq![None::<Slot>, None, None]);
        w
    }

    /// The kind of extremum retained.
    pub fn kind(&self) -> (k: Extremum)
        ensures
            k == self.kind,
    {
        self.kind
    }

    fn prefer(&self, candidate: u64, incumbent: u64) -> (b: bool)
        ensures
            b == prefers(self.kind, candidate, incumbent),
    {
        match self.kind {
            Extremum::Max => candidate > incumbent,
            Extremum::Min => candidate < incumbent,
        }
    }

    fn index_of(bucket: i64) -> (i: usize)
        ensures
            i == slot_index(bucket),
            i < SUBWINDOW_COUNT,
    {
        match bucket.checked_rem_euclid(3) {
            Some(r) => r as usize,
            None => 0,
        }
    }

    fn expire(&mut self, current_bucket: i64)
        ensures
            final(self).kind == old(self).kind,
            final(self).last_timestamp == old(self).last_timestamp,
            final(self).slots@ == expire_all(old(self).slots@, current_bucket),
    {
        let ghost before = self.slots@;
        let mut i: usize = 0;
        while i < SUBWINDOW_COUNT
            invariant
                i <= SUBWINDOW_COUNT,
                self.kind == old(self).kind,
                self.last_timestamp == old(self).last_timestamp,
                before == old(self).slots@,
                self.slots@.len() == SUBWINDOW_COUNT,
                forall|j: int| 0 <= j < i ==> self.slots@[j] == expire_slot(current_bucket, before[j]),
                forall|j: int| i <= j < SUBWINDOW_COUNT ==> self.slots@[j] == before[j],
            decreases SUBWINDOW_COUNT - i,
        {
            if let Some(entry) = self.slots[i] {
                if current_bucket as i128 - entry.bucket as i128 >= SUBWINDOW_COUNT as i128 {
                    self.slots[i] = None;
                }
            }
            i += 1;
        }
        assert(self.slots@ =~= expire_all(before, current_bucket));
    }

    fn extremum(&self) -> (r: Option<u64>)
        ensures
            r == best(self.kind, self.slots@),
    {
        let mut acc: Option<u64> = None;
        let mut i: usize = 0;
        while i < SUBWINDOW_COUNT
            invariant
                i <= SUBWINDOW_COUNT,
                self.slots@.len() == SUBWINDOW_COUNT,
                i == 0 ==> acc is None,
                i == 1 ==> acc == pick(self.kind, None, self.slots@[0]),
                i == 2 ==> acc == pick(self.kind, pick(self.kind, None, self.slots@[0]), self.slots@[1]),
                i == 3 ==> acc == best(self.kind, self.slots@),
            decreases SUBWINDOW_COUNT - i,
        {
            if let Some(slot) = self.slots[i] {
                acc = match acc {
                    None => Some(slot.value),
                    Some(a) => if self.prefer(slot.value, a) { Some(slot.value) } else { Some(a) },
                };
            }
            i += 1;
        }
        acc
    }

    /// The current window extremum, `None` when no sample is retained.
    pub fn estimate(&self) -> (r: Option<u64>)
        ensures
            r == best(self.kind, self.slots@),
    {
        self.extremum()
    }

    /// Records a sample of sub-window `bucket` and returns the window extremum.
    ///
    /// The first sample is merely the only observation available; a later
    /// preferred sample replaces it at once.
    pub fn feed(&mut self, value: u64, timestamp: u64, bucket: i64) -> (r: Result<u64, EstimatorError>)
        ensures
            final(self).kind == old(self).kind,
            (final(self).slots@, final(self).last_timestamp) == apply(
                old(self).kind,
                (old(self).slots@, old(self).last_timestamp),
                (Reading { value: Some(value), timestamp, bucket }),
            ),
            moved_backward(old(self).last_timestamp, timestamp) ==> {
                &&& r == Err::<u64, EstimatorError>(EstimatorError::TimestampMovedBackward {
                    previous: old(self).last_timestamp->0,
                    received: timestamp,
                })
                &&& *final(self) == *old(self)
            },
            !moved_backward(old(self).last_timestamp, timestamp) ==> {
                &&& final(self).kind == old(self).kind
                &&& final(self).slots@ == fed_slots(old(self).kind, old(self).slots@, value, timestamp, bucket)
                &&& final(self).last_timestamp == Some(timestamp)
                &&& best(final(self).kind, final(self).slots@) is Some
                &&& r == Ok::<u64, EstimatorError>(best(final(self).kind, final(self).slots@)->0)
                &&& !prefers(old(self).kind, value, r->Ok_0)
                &&& old(self).kind == Extremum::Max ==> value <= r->Ok_0
                &&& old(self).kind == Extremum::Min ==> r->Ok_0 <= value
            },
    {
        if let Some(previous) = self.last_timestamp {
            if timestamp < previous {
                return Err(EstimatorError::TimestampMovedBackward { previous, received: timestamp });
            }
        }
        self.expire(bucket);
        let ghost expired = self.slots@;
        let index = Self::index_of(bucket);
        let fresh = Slot { bucket, value, timestamp };
        match self.slots[index] {
            Some(slot) => {
                if slot.bucket == bucket {
                    if self.prefer(value, slot.value) {
                        self.slots[index] = Some(fresh);
                    }
                } else {
                    self.slots[index] = Some(fresh);
                }
            },
            None => {
                self.slots[index] = Some(fresh);
            },
        }
        assert(self.slots@ =~= expired.update(index as int, merge(self.kind, expired[index as int], bucket, value, timestamp)));
        self.last_timestamp = Some(timestamp);
        let r = self.extremum();
        proof {
            lemma_best(self.kind, self.slots@);
            let sl = self.slots@[index as int]->0;
            assert(self.slots@[index as int] is Some);
            assert(!prefers(self.kind, value, sl.value));
            lemma_prefers_trans(self.kind, value, sl.value, r->0);
            lemma_prefers_numeric(value, r->0);
        }
        match r {
            Some(v) => Ok(v),
            None => Ok(0),
        }
    }

    /// Advances expiration to sub-window `bucket` without an observation.
    pub fn advance(&mut self, timestamp: u64, bucket: i64) -> (r: Result<Option<u64>, EstimatorError>)
        ensures
            final(self).kind == old(self).kind,
            (final(self).slots@, final(self).last_timestamp) == apply(
                old(self).kind,
                (old(self).slots@, old(self).last_timestamp),
                (Reading { value: None, timestamp, bucket }),
            ),
            moved_backward(old(self).last_timestamp, timestamp) ==> {
                &&& r == Err::<Option<u64>, EstimatorError>(EstimatorError::TimestampMovedBackward {
                    previous: old(self).last_timestamp->0,
                    received: timestamp,
                })
                &&& *final(self) == *old(self)
            },
            !moved_backward(old(self).last_timestamp, timestamp) ==> {
                &&& final(self).kind == old(self).kind
                &&& final(self).slots@ == expire_all(old(self).slots@, bucket)
                &&& final(self).last_timestamp == Some(timestamp)
                &&& r == Ok::<Option<u64>, EstimatorError>(best(final(self).kind, final(self).slots@))
            },
    {
        if let Some(previous) = self.last_timestamp {
            if timestamp < previous {
                return Err(EstimatorError::TimestampMovedBackward { previous, received: timestamp });
            }
        }
        self.expire(bucket);
        self.last_timestamp = Some(timestamp);
        Ok(self.extremum())
    }
}


/// One input of the filter: a sample when `value` is `Some`, otherwise an
/// expiration tick; `bucket` is the sub-window of `timestamp`.
#[derive(Debug, Clone, Copy, PartialEq, Eq, Structural)]
pub struct Reading {
    pub value: Option<u64>,
    pub timestamp: u64,
    pub bucket: i64,
}

/// The slots and last timestamp after one reading, as `feed` (sample) and
/// `advance` (tick) leave them.
pub open spec fn apply(kind: Extremum, state: (Seq<Option<Slot>>, Option<u64>), r: Reading) -> (Seq<Option<Slot>>, Option<u64>) {
    if moved_backward(state.1, r.timestamp) {
        state
    } else {
        match r.value {
            Some(v) => (fed_slots(kind, state.0, v, r.timestamp, r.bucket), Some(r.timestamp)),
            None => (expire_all(state.0, r.bucket), Some(r.timestamp)),
        }
    }
}

/// The slots and last timestamp of a new filter after the readings in order.
pub open spec fn run(kind: Extremum, readings: Seq<Reading>) -> (Seq<Option<Slot>>, Option<u64>)
    decreases readings.len(),
{
    if readings.len() == 0 {
        (seq![None::<Slot>, None, None], None)
    } else {
        apply(kind, run(kind, readings.drop_last()), readings.last())
    }
}

/// Readings whose timestamps and sub-windows never decrease.
pub open spec fn in_order(readings: Seq<Reading>) -> bool {
    forall|i: int, j: int|
        #![trigger readings[i], readings[j]]
        0 <= i <= j < readings.len() ==> readings[i].timestamp <= readings[j].timestamp
            && readings[i].bucket <= readings[j].bucket
}

/// Reading `i` is a sample inside the window that ends at the last reading:
/// its sub-window is one of the last three.
pub open spec fn retained(readings: Seq<Reading>, i: int) -> bool {
    &&& 0 <= i < readings.len()
    &&& readings[i].value is Some
    &&& readings[i].bucket >= readings.last().bucket - (SUBWINDOW_COUNT as int - 1)
}

/// Slot `j` holds `s`, a best sample of its sub-window among `rs`, and that
/// sub-window is one of the three ending at sub-window `c`.
spec fn slot_fact(kind: Extremum, rs: Seq<Reading>, c: i64, j: int, s: Option<Slot>) -> bool {
    match s {
        Some(sl) => {
            &&& slot_index(sl.bucket) == j
            &&& c - 2 <= sl.bucket <= c
            &&& exists|i: int| 0 <= i < rs.len() && #[trigger] rs[i].value == Some(sl.value) && rs[i].bucket == sl.bucket
            &&& forall|i: int|
                0 <= i < rs.len() && (#[trigger] rs[i]).value is Some && rs[i].bucket == sl.bucket
                    ==> !prefers(kind, rs[i].value->0, sl.value)
        },
        None => true,
    }
}

/// Every sample of `rs` in the three sub-windows ending at `c` has its
/// sub-window's slot.
spec fn covered(rs: Seq<Reading>, c: i64, slots: Seq<Option<Slot>>) -> bool {
    forall|i: int|
        0 <= i < rs.len() && (#[trigger] rs[i]).value is Some && rs[i].bucket >= c - 2
            ==> (slots[slot_index(rs[i].bucket)] matches Some(sl) && sl.bucket == rs[i].bucket)
}

spec fn run_inv(kind: Extremum, rs: Seq<Reading>, st: (Seq<Option<Slot>>, Option<u64>)) -> bool {
    &&& st.0.len() == 3
    &&& st.1 == Some(rs.last().timestamp)
    &&& forall|j: int| 0 <= j < 3 ==> slot_fact(kind, rs, rs.last().bucket, j, #[trigger] st.0[j])
    &&& covered(rs, rs.last().bucket, st.0)
    &&& forall|i: int| 0 <= i < rs.len() ==> (#[trigger] rs[i]).bucket <= rs.last().bucket
}

proof fn lemma_prefers_trans(kind: Extremum, a: u64, b: u64, c: u64)
    ensures
        !prefers(kind, a, b) && !prefers(kind, b, c) ==> !prefers(kind, a, c),
        prefers(kind, a, b) ==> !prefers(kind, b, a),
        !prefers(kind, a, b) && prefers(kind, c, b) ==> !prefers(kind, a, c),
{
}

proof fn lemma_index_distinct(a: i64, b: i64)
    requires
        slot_index(a) == slot_index(b),
        a - 3 < b < a + 3,
    ensures
        a == b,
{
}

/// Expiring at `c` keeps exactly the slots of the three sub-windows ending at `c`.
proof fn lemma_expire(kind: Extremum, prev: Seq<Reading>, slots: Seq<Option<Slot>>, c: i64)
    requires
        slots.len() == 3,
        forall|j: int| 0 <= j < 3 ==> slot_fact(kind, prev, c, j, #[trigger] slots[j]) || (slots[j] matches Some(sl) && sl.bucket < c - 2 && slot_index(sl.bucket) == j),
        covered(prev, c, slots),
    ensures
        expire_all(slots, c).len() == 3,
        forall|j: int| 0 <= j < 3 ==> slot_fact(kind, prev, c, j, #[trigger] expire_all(slots, c)[j]),
        covered(prev, c, expire_all(slots, c)),
{
    let e = expire_all(slots, c);
    assert forall|j: int| 0 <= j < 3 implies slot_fact(kind, prev, c, j, #[trigger] e[j]) by {
        assert(e[j] == expire_slot(c, slots[j]));
    }
    assert forall|i: int|
        0 <= i < prev.len() && (#[trigger] prev[i]).value is Some && prev[i].bucket >= c - 2
            implies (e[slot_index(prev[i].bucket)] matches Some(sl) && sl.bucket == prev[i].bucket) by {
        let k = slot_index(prev[i].bucket);
        assert(0 <= k < 3);
        assert(e[k] == expire_slot(c, slots[k]));
    }
}

/// A slot fact survives appending a reading that is no sample of its sub-window.
proof fn lemma_fact_extend(kind: Extremum, prev: Seq<Reading>, r: Reading, c: i64, j: int, s: Option<Slot>)
    requires
        slot_fact(kind, prev, c, j, s),
        s matches Some(sl) ==> !(r.value is Some && r.bucket == sl.bucket && prefers(kind, r.value->0, sl.value)),
    ensures
        slot_fact(kind, prev.push(r), c, j, s),
{
    let rs = prev.push(r);
    if let Some(sl) = s {
        let w = choose|i: int| 0 <= i < prev.len() && #[trigger] prev[i].value == Some(sl.value) && prev[i].bucket == sl.bucket;
        assert(rs[w] == prev[w]);
        assert forall|i: int|
            0 <= i < rs.len() && (#[trigger] rs[i]).value is Some && rs[i].bucket == sl.bucket
                implies !prefers(kind, rs[i].value->0, sl.value) by {
            if i < prev.len() {
                assert(prev[i] == rs[i]);
            }
        }
    }
}

/// The state before the last reading, expired to the last reading's sub-window.
proof fn lemma_expired_before(kind: Extremum, prev: Seq<Reading>, r: Reading)
    requires
        in_order(prev.push(r)),
    ensures
        ({
            let old_st = run(kind, prev);
            let c = r.bucket;
            let e = expire_all(old_st.0, c);
            &&& !moved_backward(old_st.1, r.timestamp)
            &&& e.len() == 3
            &&& forall|j: int| 0 <= j < 3 ==> slot_fact(kind, prev, c, j, #[trigger] e[j])
            &&& covered(prev, c, e)
            &&& (e[slot_index(c)] matches Some(sl) ==> sl.bucket == c)
            &&& forall|i: int| 0 <= i < prev.len() ==> (#[trigger] prev[i]).bucket <= c
        }),
    decreases prev.len() + 1, 0int,
{
    let rs = prev.push(r);
    let n = prev.len() as int;
    let c = r.bucket;
    let old_st = run(kind, prev);
    assert(rs[n] == r);
    assert forall|i: int| 0 <= i < prev.len() implies (#[trigger] prev[i]).bucket <= c by {
        assert(prev[i] == rs[i]);
        assert(rs[i].bucket <= rs[n].bucket);
    }
    if prev.len() > 0 {
        assert(in_order(prev)) by {
            assert forall|i: int, j: int| #![trigger prev[i], prev[j]] 0 <= i <= j < prev.len() implies
                prev[i].timestamp <= prev[j].timestamp && prev[i].bucket <= prev[j].bucket by {
                assert(prev[i] == rs[i] && prev[j] == rs[j]);
            }
        }
        lemma_run_inv(kind, prev);
        assert(prev.last() == rs[n - 1]);
        assert(rs[n - 1].timestamp <= rs[n].timestamp);
        let pc = prev.last().bucket;
        assert forall|j: int| 0 <= j < 3 implies slot_fact(kind, prev, c, j, #[trigger] old_st.0[j])
            || (old_st.0[j] matches Some(sl) && sl.bucket < c - 2 && slot_index(sl.bucket) == j) by {
            assert(slot_fact(kind, prev, pc, j, old_st.0[j]));
        }
        assert forall|i: int|
            0 <= i < prev.len() && (#[trigger] prev[i]).value is Some && prev[i].bucket >= c - 2
                implies (old_st.0[slot_index(prev[i].bucket)] matches Some(sl) && sl.bucket == prev[i].bucket) by {
            assert(covered(prev, pc, old_st.0));
        }
        lemma_expire(kind, prev, old_st.0, c);
    } else {
        assert(old_st.0 =~= seq![None::<Slot>, None, None]);
        lemma_expire(kind, prev, old_st.0, c);
    }
    let e = expire_all(old_st.0, c);
    let k = slot_index(c);
    if let Some(sl) = e[k] {
        assert(slot_fact(kind, prev, c, k, e[k]));
        lemma_index_distinct(c, sl.bucket);
    }
}

proof fn lemma_run_inv(kind: Extremum, rs: Seq<Reading>)
    requires
        rs.len() > 0,
        in_order(rs),
    ensures
        run_inv(kind, rs, run(kind, rs)),
    decreases rs.len(), 1int,
{
    let r = rs.last();
    let n = rs.len() - 1;
    let prev = rs.drop_last();
    let c = r.bucket;
    assert(prev.push(r) =~= rs);
    lemma_expired_before(kind, prev, r);
    let old_st = run(kind, prev);
    let e = expire_all(old_st.0, c);
    let st = run(kind, rs);
    let k = slot_index(c);
    assert(rs[n] == r);
    assert forall|i: int| 0 <= i < prev.len() implies #[trigger] prev[i] == rs[i] by {}
    assert forall|i: int| 0 <= i < rs.len() implies (#[trigger] rs[i]).bucket <= c by {
        if i < n {
            assert(prev[i] == rs[i]);
        }
    }
    match r.value {
        Some(v) => {
            let m = merge(kind, e[k], c, v, r.timestamp);
            assert(st.0 == e.update(k, m));
            assert forall|j: int| 0 <= j < 3 implies slot_fact(kind, rs, c, j, #[trigger] st.0[j]) by {
                if j == k {
                    let sl = m->0;
                    if e[k] is Some && !prefers(kind, v, e[k]->0.value) {
                        lemma_fact_extend(kind, prev, r, c, j, e[k]);
                    } else {
                        assert(rs[n].value == Some(sl.value) && rs[n].bucket == sl.bucket);
                        assert forall|i: int|
                            0 <= i < rs.len() && (#[trigger] rs[i]).value is Some && rs[i].bucket == sl.bucket
                                implies !prefers(kind, rs[i].value->0, sl.value) by {
                            if i < n {
                                assert(prev[i] == rs[i]);
                                assert(covered(prev, c, e));
                                assert(slot_fact(kind, prev, c, k, e[k]));
                                lemma_prefers_trans(kind, rs[i].value->0, e[k]->0.value, v);
                            } else {
                                lemma_prefers_trans(kind, v, v, v);
                            }
                        }
                    }
                } else {
                    assert(st.0[j] == e[j]);
                    if let Some(sl) = e[j] {
                        assert(slot_index(sl.bucket) == j);
                    }
                    lemma_fact_extend(kind, prev, r, c, j, e[j]);
                }
            }
            assert forall|i: int|
                0 <= i < rs.len() && (#[trigger] rs[i]).value is Some && rs[i].bucket >= c - 2
                    implies (st.0[slot_index(rs[i].bucket)] matches Some(sl) && sl.bucket == rs[i].bucket) by {
                if i < n {
                    assert(prev[i] == rs[i]);
                    assert(covered(prev, c, e));
                }
            }
        },
        None => {
            assert(st.0 == e);
            assert forall|j: int| 0 <= j < 3 implies slot_fact(kind, rs, c, j, #[trigger] st.0[j]) by {
                lemma_fact_extend(kind, prev, r, c, j, e[j]);
            }
            assert forall|i: int|
                0 <= i < rs.len() && (#[trigger] rs[i]).value is Some && rs[i].bucket >= c - 2
                    implies (st.0[slot_index(rs[i].bucket)] matches Some(sl) && sl.bucket == rs[i].bucket) by {
                assert(i < n);
                assert(prev[i] == rs[i]);
                assert(covered(prev, c, e));
            }
        },
    }
}

proof fn lemma_best(kind: Extremum, slots: Seq<Option<Slot>>)
    requires
        slots.len() == 3,
    ensures
        (best(kind, slots) is Some) <==> (exists|j: int| 0 <= j < 3 && (#[trigger] slots[j]) is Some),
        best(kind, slots) matches Some(v) ==> {
            &&& exists|j: int| 0 <= j < 3 && (#[trigger] slots[j]) is Some && slots[j]->0.value == v
            &&& forall|j: int| 0 <= j < 3 && (#[trigger] slots[j]) is Some ==> !prefers(kind, slots[j]->0.value, v)
        },
{
    let a = pick(kind, None, slots[0]);
    let b = pick(kind, a, slots[1]);
    if let Some(v) = best(kind, slots) {
        if let Some(s0) = slots[0] {
            lemma_prefers_trans(kind, s0.value, a->0, b->0);
            lemma_prefers_trans(kind, s0.value, b->0, v);
            lemma_prefers_trans(kind, a->0, b->0, v);
        }
        if let Some(s1) = slots[1] {
            lemma_prefers_trans(kind, s1.value, b->0, v);
            lemma_prefers_trans(kind, a->0, s1.value, b->0);
        }
        if let Some(s2) = slots[2] {
            lemma_prefers_trans(kind, b->0, s2.value, v);
        }
        if let Some(bv) = b {
            lemma_prefers_trans(kind, bv, bv, v);
        }
        assert(exists|j: int| 0 <= j < 3 && (#[trigger] slots[j]) is Some && slots[j]->0.value == v) by {
            if slots[2] is Some && slots[2]->0.value == v {
                assert(slots[2] is Some);
            } else if slots[1] is Some && slots[1]->0.value == v {
                assert(slots[1] is Some);
            } else {
                assert(slots[0] is Some);
            }
        }
    } else {
        assert(slots[0] is None && slots[1] is None && slots[2] is None);
    }
}

/// Over readings whose timestamps and sub-windows never decrease, the
/// estimate is the best sample of the last three sub-windows.
proof fn lemma_window_in_order(kind: Extremum, readings: Seq<Reading>)
    requires
        readings.len() > 0,
        in_order(readings),
    ensures
        (best(kind, run(kind, readings).0) is Some) <==> (exists|i: int| retained(readings, i)),
        best(kind, run(kind, readings).0) matches Some(v) ==> {
            &&& exists|i: int| retained(readings, i) && readings[i].value == Some(v)
            &&& forall|i: int| retained(readings, i) ==> !prefers(kind, readings[i].value->0, v)
        },
{
    let st = run(kind, readings);
    let c = readings.last().bucket;
    lemma_run_inv(kind, readings);
    lemma_best(kind, st.0);
    if exists|i: int| retained(readings, i) {
        let i = choose|i: int| retained(readings, i);
        assert(covered(readings, c, st.0));
        assert(readings[i].value is Some);
        let j = slot_index(readings[i].bucket);
        assert(st.0[j] is Some);
    }
    if let Some(v) = best(kind, st.0) {
        let j = choose|j: int| 0 <= j < 3 && (#[trigger] st.0[j]) is Some && st.0[j]->0.value == v;
        let sl = st.0[j]->0;
        assert(slot_fact(kind, readings, c, j, st.0[j]));
        let w = choose|i: int| 0 <= i < readings.len() && #[trigger] readings[i].value == Some(sl.value) && readings[i].bucket == sl.bucket;
        assert(retained(readings, w));
        assert forall|i: int| retained(readings, i) implies !prefers(kind, readings[i].value->0, v) by {
            assert(covered(readings, c, st.0));
            assert(readings[i].value is Some);
            let q = slot_index(readings[i].bucket);
            let sq = st.0[q]->0;
            assert(st.0[q] is Some);
            assert(slot_fact(kind, readings, c, q, st.0[q]));
            lemma_prefers_trans(kind, readings[i].value->0, sq.value, v);
        }
    } else {
        if exists|i: int| retained(readings, i) {
            let i = choose|i: int| retained(readings, i);
            assert(covered(readings, c, st.0));
            assert(readings[i].value is Some);
            let j = slot_index(readings[i].bucket);
            assert(st.0[j] is Some);
        }
    }
}

/// Reading `i` is not older than any reading before it, so the filter takes it.
pub open spec fn accepted(readings: Seq<Reading>, i: int) -> bool {
    forall|k: int| 0 <= k < i ==> (#[trigger] readings[k]).timestamp <= readings[i].timestamp
}

/// The readings the filter takes, in order; the others are refused as moving
/// backward in time and leave the filter unchanged.
pub open spec fn accepted_readings(readings: Seq<Reading>) -> Seq<Reading>
    decreases readings.len(),
{
    if readings.len() == 0 {
        seq![]
    } else {
        let earlier = accepted_readings(readings.drop_last());
        if accepted(readings, readings.len() - 1) {
            earlier.push(readings.last())
        } else {
            earlier
        }
    }
}

/// The sub-window of a reading never decreases as its timestamp grows, as
/// for `floor(timestamp / (window / 3))`.
pub open spec fn buckets_follow_time(readings: Seq<Reading>) -> bool {
    forall|i: int, j: int|
        #![trigger readings[i], readings[j]]
        0 <= i < readings.len() && 0 <= j < readings.len() && readings[i].timestamp <= readings[j].timestamp
            ==> readings[i].bucket <= readings[j].bucket
}

proof fn lemma_accepted_run(kind: Extremum, rs: Seq<Reading>)
    ensures
        run(kind, rs) == run(kind, accepted_readings(rs)),
        rs.len() == 0 <==> run(kind, rs).1 is None,
        rs.len() > 0 ==> {
            &&& forall|k: int| 0 <= k < rs.len() ==> (#[trigger] rs[k]).timestamp <= run(kind, rs).1->0
            &&& exists|k: int| 0 <= k < rs.len() && (#[trigger] rs[k]).timestamp == run(kind, rs).1->0
        },
        forall|q: int| 0 <= q < accepted_readings(rs).len() ==> exists|k: int|
            0 <= k < rs.len() && accepted(rs, k) && #[trigger] accepted_readings(rs)[q] == rs[k],
        rs.len() > 0 ==> accepted_readings(rs).len() > 0,
    decreases rs.len(),
{
    if rs.len() > 0 {
        let p = rs.drop_last();
        let r = rs.last();
        let n = rs.len() - 1;
        lemma_accepted_run(kind, p);
        assert(rs[n] == r);
        assert forall|k: int| 0 <= k < p.len() implies #[trigger] p[k] == rs[k] by {}
        let ap = accepted_readings(p);
        let ar = accepted_readings(rs);
        assert forall|k: int| 0 <= k < p.len() && accepted(p, k) implies accepted(rs, k) by {
            assert forall|j: int| 0 <= j < k implies (#[trigger] rs[j]).timestamp <= rs[k].timestamp by {
                assert(p[j] == rs[j]);
            }
        }
        if p.len() == 0 {
            assert(accepted(rs, n));
            assert(ar == seq![r]);
            assert(seq![r].drop_last() =~= Seq::<Reading>::empty());
            assert(ar[0] == rs[0]);
        } else {
            let m = run(kind, p).1->0;
            let wk = choose|k: int| 0 <= k < p.len() && (#[trigger] p[k]).timestamp == m;
            if accepted(rs, n) {
                assert(rs[wk] == p[wk]);
                assert(!moved_backward(run(kind, p).1, r.timestamp));
                assert(ar == ap.push(r));
                assert(ar.drop_last() =~= ap);
                assert forall|k: int| 0 <= k < rs.len() implies (#[trigger] rs[k]).timestamp <= run(kind, rs).1->0 by {
                    if k < n {
                        assert(p[k] == rs[k]);
                    }
                }
                assert forall|q: int| 0 <= q < ar.len() implies exists|k: int|
                    0 <= k < rs.len() && accepted(rs, k) && #[trigger] ar[q] == rs[k] by {
                    if q < ap.len() {
                        let k = choose|k: int| 0 <= k < p.len() && accepted(p, k) && #[trigger] ap[q] == p[k];
                        assert(ar[q] == ap[q]);
                        assert(accepted(rs, k) && ar[q] == rs[k]);
                    } else {
                        assert(ar[q] == rs[n]);
                    }
                }
            } else {
                let j = choose|j: int| 0 <= j < n && (#[trigger] rs[j]).timestamp > rs[n].timestamp;
                assert(p[j] == rs[j]);
                assert(moved_backward(run(kind, p).1, r.timestamp));
                assert(ar == ap);
                assert forall|k: int| 0 <= k < rs.len() implies (#[trigger] rs[k]).timestamp <= run(kind, rs).1->0 by {
                    if k < n {
                        assert(p[k] == rs[k]);
                    }
                }
                assert(rs[wk] == p[wk]);
                assert forall|q: int| 0 <= q < ar.len() implies exists|k: int|
                    0 <= k < rs.len() && accepted(rs, k) && #[trigger] ar[q] == rs[k] by {
                    let k = choose|k: int| 0 <= k < p.len() && accepted(p, k) && #[trigger] ap[q] == p[k];
                    assert(accepted(rs, k) && ar[q] == rs[k]);
                }
            }
        }
    }
}

proof fn lemma_accepted_in_order(kind: Extremum, rs: Seq<Reading>)
    requires
        buckets_follow_time(rs),
    ensures
        in_order(accepted_readings(rs)),
    decreases rs.len(),
{
    if rs.len() > 0 {
        let p = rs.drop_last();
        let n = rs.len() - 1;
        assert forall|k: int| 0 <= k < p.len() implies #[trigger] p[k] == rs[k] by {}
        assert(buckets_follow_time(p)) by {
            assert forall|i: int, j: int|
                #![trigger p[i], p[j]]
                0 <= i < p.len() && 0 <= j < p.len() && p[i].timestamp <= p[j].timestamp
                    implies p[i].bucket <= p[j].bucket by {
                assert(p[i] == rs[i] && p[j] == rs[j]);
            }
        }
        lemma_accepted_in_order(kind, p);
        lemma_accepted_run(kind, p);
        let ap = accepted_readings(p);
        let ar = accepted_readings(rs);
        if accepted(rs, n) {
            assert(ar == ap.push(rs[n]));
            assert forall|i: int, j: int| #![trigger ar[i], ar[j]] 0 <= i <= j < ar.len() implies
                ar[i].timestamp <= ar[j].timestamp && ar[i].bucket <= ar[j].bucket by {
                if j < ap.len() {
                    assert(ar[i] == ap[i] && ar[j] == ap[j]);
                } else {
                    assert(ar[j] == rs[n]);
                    if i < ap.len() {
                        let k = choose|k: int| 0 <= k < p.len() && accepted(p, k) && #[trigger] ap[i] == p[k];
                        assert(ar[i] == rs[k]);
                        assert(rs[k].timestamp <= rs[n].timestamp);
                    }
                }
            }
        }
    }
}

/// The windowed-extremum law. After any readings whose sub-windows follow
/// their timestamps, the filter's estimate is the best sample among the
/// readings it accepted (those not older than an earlier reading) that lie in
/// the last three sub-windows (that of the last accepted reading and the two
/// before it): there is an estimate exactly when such a sample exists, the
/// estimate is one of them, and none of them is preferred to it. So a low
/// first sample never holds back a later high one, and a sample leaves the
/// estimate once three sub-windows have passed.
pub proof fn lemma_window_extremum(kind: Extremum, readings: Seq<Reading>)
    requires
        readings.len() > 0,
        buckets_follow_time(readings),
    ensures
        ({
            let taken = accepted_readings(readings);
            let estimate = best(kind, run(kind, readings).0);
            &&& (estimate is Some) <==> (exists|i: int| retained(taken, i))
            &&& estimate matches Some(v) ==> {
                &&& exists|i: int| retained(taken, i) && taken[i].value == Some(v)
                &&& forall|i: int| retained(taken, i) ==> !prefers(kind, taken[i].value->0, v)
            }
        }),
{
    lemma_accepted_run(kind, readings);
    lemma_accepted_in_order(kind, readings);
    lemma_window_in_order(kind, accepted_readings(readings));
}

/// The order-reversing image of a value.
pub open spec fn mirror_value(v: u64) -> u64 {
    (u64::MAX - v) as u64
}

pub open spec fn mirror_slot(s: Option<Slot>) -> Option<Slot> {
    match s {
        Some(sl) => Some(Slot { bucket: sl.bucket, value: mirror_value(sl.value), timestamp: sl.timestamp }),
        None => None,
    }
}

pub open spec fn mirror_slots(slots: Seq<Option<Slot>>) -> Seq<Option<Slot>> {
    slots.map_values(|s: Option<Slot>| mirror_slot(s))
}

pub open spec fn mirror_estimate(e: Option<u64>) -> Option<u64> {
    match e {
        Some(v) => Some(mirror_value(v)),
        None => None,
    }
}

pub open spec fn mirror_reading(r: Reading) -> Reading {
    Reading { value: mirror_estimate(r.value), timestamp: r.timestamp, bucket: r.bucket }
}

proof fn lemma_mirror_step(state: (Seq<Option<Slot>>, Option<u64>), r: Reading)
    requires
        state.0.len() == 3,
    ensures
        apply(Extremum::Min, state, r).0.len() == 3,
        apply(Extremum::Min, state, r).1 == apply(Extremum::Max, (mirror_slots(state.0), state.1), mirror_reading(r)).1,
        mirror_slots(apply(Extremum::Min, state, r).0) == apply(Extremum::Max, (mirror_slots(state.0), state.1), mirror_reading(r)).0,
{
    let m = mirror_slots(state.0);
    let c = r.bucket;
    let e = expire_all(state.0, c);
    let em = expire_all(m, c);
    assert(mirror_slots(e) =~= em);
    if !moved_backward(state.1, r.timestamp) {
        if let Some(v) = r.value {
            let k = slot_index(c);
            assert(0 <= k < 3);
            let left = mirror_slots(e.update(k, merge(Extremum::Min, e[k], c, v, r.timestamp)));
            let right = em.update(k, merge(Extremum::Max, em[k], c, mirror_value(v), r.timestamp));
            assert(mirror_slot(merge(Extremum::Min, e[k], c, v, r.timestamp)) == merge(Extremum::Max, em[k], c, mirror_value(v), r.timestamp));
            assert(left =~= right);
        }
    }
}

proof fn lemma_mirror_run(readings: Seq<Reading>)
    ensures
        run(Extremum::Min, readings).0.len() == 3,
        mirror_slots(run(Extremum::Min, readings).0) == run(Extremum::Max, readings.map_values(|r: Reading| mirror_reading(r))).0,
        run(Extremum::Min, readings).1 == run(Extremum::Max, readings.map_values(|r: Reading| mirror_reading(r))).1,
    decreases readings.len(),
{
    let mr = readings.map_values(|r: Reading| mirror_reading(r));
    if readings.len() == 0 {
        assert(mirror_slots(seq![None::<Slot>, None, None]) =~= seq![None::<Slot>, None, None]);
    } else {
        let p = readings.drop_last();
        lemma_mirror_run(p);
        assert(mr.drop_last() =~= p.map_values(|r: Reading| mirror_reading(r)));
        assert(mr.last() == mirror_reading(readings.last()));
        lemma_mirror_step(run(Extremum::Min, p), readings.last());
    }
}

proof fn lemma_mirror_best(slots: Seq<Option<Slot>>)
    requires
        slots.len() == 3,
    ensures
        best(Extremum::Min, slots) == mirror_estimate(best(Extremum::Max, mirror_slots(slots))),
{
    let ms = mirror_slots(slots);
    assert(ms[0] == mirror_slot(slots[0]) && ms[1] == mirror_slot(slots[1]) && ms[2] == mirror_slot(slots[2]));
}

/// The symmetry law: the windowed minimum is the windowed maximum of the
/// order-reversed values. Running a min filter over readings leaves the slots
/// a max filter leaves over the same readings with every value `v` replaced by
/// `u64::MAX - v` (values reversed back), and the same last timestamp; so its
/// estimate is the reversed max estimate.
pub proof fn lemma_min_mirrors_max(readings: Seq<Reading>)
    ensures
        mirror_slots(run(Extremum::Min, readings).0) == run(Extremum::Max, readings.map_values(|r: Reading| mirror_reading(r))).0,
        run(Extremum::Min, readings).1 == run(Extremum::Max, readings.map_values(|r: Reading| mirror_reading(r))).1,
        best(Extremum::Min, run(Extremum::Min, readings).0)
            == mirror_estimate(best(Extremum::Max, run(Extremum::Max, readings.map_values(|r: Reading| mirror_reading(r))).0)),
{
    lemma_mirror_run(readings);
    lemma_mirror_best(run(Extremum::Min, readings).0);
}

/// Not being preferred is the numeric order of the keys: in max mode `a` does
/// not replace `b` exactly when `a <= b`, in min mode exactly when `a >= b`.
proof fn lemma_prefers_numeric(a: u64, b: u64)
    ensures
        !prefers(Extremum::Max, a, b) <==> a <= b,
        !prefers(Extremum::Min, a, b) <==> a >= b,
{
}

/// The windowed-extremum law in the numeric order of the keys. After any
/// readings whose sub-windows follow their timestamps, a max filter's estimate
/// is the largest key among the accepted samples of the last three
/// sub-windows, and a min filter's the smallest: it is one of those samples,
/// no such sample lies above it (max) or below it (min), and there is an
/// estimate exactly when there is such a sample.
pub proof fn lemma_window_extremum_numeric(kind: Extremum, readings: Seq<Reading>)
    requires
        readings.len() > 0,
        buckets_follow_time(readings),
    ensures
        ({
            let taken = accepted_readings(readings);
            let estimate = best(kind, run(kind, readings).0);
            &&& (estimate is Some) <==> (exists|i: int| retained(taken, i))
            &&& estimate matches Some(v) ==> {
                &&& exists|i: int| retained(taken, i) && taken[i].value == Some(v)
                &&& kind == Extremum::Max ==> forall|i: int| retained(taken, i) ==> taken[i].value->0 <= v
                &&& kind == Extremum::Min ==> forall|i: int| retained(taken, i) ==> taken[i].value->0 >= v
            }
        }),
{
    lemma_window_extremum(kind, readings);
    let taken = accepted_readings(readings);
    if let Some(v) = best(kind, run(kind, readings).0) {
        assert forall|i: int| retained(taken, i) implies (kind == Extremum::Max ==> taken[i].value->0 <= v)
            && (kind == Extremum::Min ==> taken[i].value->0 >= v) by {
            lemma_prefers_numeric(taken[i].value->0, v);
        }
    }
}

} // verus!
