use vstd::prelude::*;
use vstd::pervasive::VecAdditionalExecFns;

verus! {

/// Sentinel distance held by unfilled slots and by the initial threshold.
/// Strictly greater than `crate::geometry::MAX_SQ_DIST`, so every genuine
/// candidate beats it.
pub const SENTINEL_DIST: u64 = 1_000_000_000_000;

/// One neighbor candidate: the identifier of a particle and its squared
/// minimum-image distance to the particle that owns the record.
#[derive(Clone, Copy, PartialEq, Eq, Structural, Debug)]
pub struct Node {
    pub id: usize,
    pub dist: u64,
}

/// Slots `1..` hold distances in non-decreasing order.
pub open spec fn sorted_row(s: Seq<Node>) -> bool {
    forall|a: int, b: int|
        1 <= a <= b < s.len() ==> (#[trigger] s[a]).dist <= (#[trigger] s[b]).dist
}

/// A well-formed row: at least one real slot beside the threshold slot,
/// slots `1..` sorted, and the threshold slot equal in distance to the last
/// (worst retained) slot.
pub open spec fn wf_row(s: Seq<Node>) -> bool {
    &&& s.len() >= 2
    &&& sorted_row(s)
    &&& s[0].dist == s[s.len() - 1].dist
}

/// The position at which a candidate of distance `d` enters a row, scanning
/// from slot `p`: the first slot whose distance is at least `d`, or the last
/// slot when every earlier one is strictly closer.
pub open spec fn ins_pos(s: Seq<Node>, d: u64, p: int) -> int
    decreases s.len() - p,
{
    if p >= s.len() - 1 {
        s.len() - 1
    } else if s[p].dist < d {
        ins_pos(s, d, p + 1)
    } else {
        p
    }
}

/// The row after a candidate is inserted: slots from the insertion position
/// on shift one place toward the tail, the last slot is discarded, the
/// candidate takes the freed slot, and the threshold slot takes the distance
/// now held by the last slot.
pub open spec fn row_insert(s: Seq<Node>, id: usize, d: u64) -> Seq<Node> {
    let p = ins_pos(s, d, 1);
    let shifted = s.subrange(0, p).push(Node { id, dist: d }) + s.subrange(p, s.len() - 1);
    shifted.update(0, Node { id: shifted[0].id, dist: shifted[shifted.len() - 1].dist })
}

/// The row after one candidate is offered: unchanged when the candidate does
/// not beat the threshold, inserted otherwise.
pub open spec fn row_step(s: Seq<Node>, id: usize, d: u64) -> Seq<Node> {
    if d < s[0].dist {
        row_insert(s, id, d)
    } else {
        s
    }
}

/// A freshly initialized row of `k + 1` sentinel slots.
pub open spec fn init_row(k: nat) -> Seq<Node> {
    Seq::new(k + 1, |q: int| Node { id: 0, dist: SENTINEL_DIST })
}

/// The scan position is the unique `p` with only strictly closer slots
/// before it that either reads a distance at least `d` or is the last slot.
pub proof fn lemma_ins_pos_char(s: Seq<Node>, d: u64, p: int, m: int)
    requires
        s.len() >= 2,
        1 <= m <= p <= s.len() - 1,
        forall|q: int| m <= q < p ==> (#[trigger] s[q]).dist < d,
        p < s.len() - 1 ==> s[p].dist >= d,
    ensures
        ins_pos(s, d, m) == p,
    decreases p - m,
{
    if m < p {
        lemma_ins_pos_char(s, d, p, m + 1);
    }
}

/// Bounds and defining properties of the scan position.
pub proof fn lemma_ins_pos_bounds(s: Seq<Node>, d: u64, m: int)
    requires
        s.len() >= 2,
        1 <= m <= s.len() - 1,
    ensures
        m <= ins_pos(s, d, m) <= s.len() - 1,
        forall|q: int| m <= q < ins_pos(s, d, m) ==> (#[trigger] s[q]).dist < d,
        ins_pos(s, d, m) < s.len() - 1 ==> s[ins_pos(s, d, m)].dist >= d,
    decreases s.len() - m,
{
    if m < s.len() - 1 && s[m].dist < d {
        lemma_ins_pos_bounds(s, d, m + 1);
    }
}

/// How each slot of a row reads after an insertion: slots before the
/// insertion position are unchanged, the candidate sits at the position,
/// later slots hold their former predecessor, and the threshold slot keeps
/// its identifier while taking the last slot's distance.
pub proof fn lemma_row_insert_facts(s: Seq<Node>, id: usize, d: u64)
    requires
        s.len() >= 2,
    ensures
        ({
            let p = ins_pos(s, d, 1);
            let r = row_insert(s, id, d);
            &&& r.len() == s.len()
            &&& r[0].id == s[0].id
            &&& r[0].dist == r[s.len() - 1].dist
            &&& forall|m: int| 1 <= m < p ==> r[m] == s[m]
            &&& r[p] == (Node { id, dist: d })
            &&& forall|m: int| p < m < s.len() ==> r[m] == s[m - 1]
        }),
{
    lemma_ins_pos_bounds(s, d, 1);
    let p = ins_pos(s, d, 1);
    let node = Node { id, dist: d };
    let shifted = s.subrange(0, p).push(node) + s.subrange(p, s.len() - 1);
    assert(shifted.len() == s.len());
    assert forall|m: int| 0 <= m < p implies shifted[m] == s[m] by {
        assert(shifted[m] == s.subrange(0, p).push(node)[m]);
    }
    assert(shifted[p] == node);
    assert forall|m: int| p < m < s.len() implies shifted[m] == s[m - 1] by {
        assert(shifted[m] == s.subrange(p, s.len() - 1)[m - p - 1]);
    }
}

/// The bounded sorted list of one particle's best candidates seen so far.
///
/// Slot `0` is the threshold slot: its distance mirrors the distance of the
/// last slot, the current worst retained candidate, so that a non-improving
/// candidate is rejected on a single comparison.  Slots `1..` hold the
/// retained candidates in non-decreasing order of distance; unfilled slots
/// hold `SENTINEL_DIST`.
pub struct NbrList {
    slots: Vec<Node>,
}

impl View for NbrList {
    type V = Seq<Node>;

    closed spec fn view(&self) -> Seq<Node> {
        self.slots@
    }
}

impl NbrList {
    /// A fresh list with `k` candidate slots, all sentinel.
    pub fn new(k: usize) -> (r: NbrList)
        requires
            1 <= k < usize::MAX,
        ensures
            r@ == init_row(k as nat),
    {
        let mut slots: Vec<Node> = Vec::new();
        let mut q: usize = 0;
        while q < k + 1
            invariant
                k < usize::MAX,
                q <= k + 1,
                slots@.len() == q,
                forall|m: int| 0 <= m < q ==> slots@[m] == (Node { id: 0, dist: SENTINEL_DIST }),
            decreases k + 1 - q,
        {
            slots.push(Node { id: 0, dist: SENTINEL_DIST });
            q += 1;
        }
        proof {
            assert(slots@ =~= init_row(k as nat));
        }
        NbrList { slots }
    }

    /// Number of slots, the threshold slot included.
    pub fn num_slots(&self) -> (r: usize)
        ensures
            r == self@.len(),
    {
        self.slots.len()
    }

    /// The current rejection threshold: the distance of the worst retained
    /// candidate, or the sentinel while unfilled slots remain.
    pub fn threshold(&self) -> (r: u64)
        requires
            self@.len() >= 1,
        ensures
            r == self@[0].dist,
    {
        self.slots[0].dist
    }

    /// Reads one slot.
    pub fn slot(&self, q: usize) -> (r: Node)
        requires
            q < self@.len(),
        ensures
            r == self@[q as int],
    {
        self.slots[q]
    }

    /// Offers a candidate to the list.  A candidate that does not beat the
    /// threshold is rejected and the list is left unchanged; otherwise it is
    /// inserted at the first slot holding a distance at least as large,
    /// the worst retained candidate is discarded, and the threshold is
    /// refreshed.
    pub fn try_insert(&mut self, id: usize, d: u64) -> (r: bool)
        requires
            old(self)@.len() >= 2,
        ensures
            final(self)@ == row_step(old(self)@, id, d),
            final(self)@.len() == old(self)@.len(),
            r == (d < old(self)@[0].dist),
    {
        let kk = self.slots.len() - 1;
        if d >= self.slots[0].dist {
            return false;
        }
        let ghost s0 = self@;
        let mut p: usize = 1;
        while p < kk && self.slots[p].dist < d
            invariant
                1 <= p <= kk,
                kk == s0.len() - 1,
                s0.len() >= 2,
                self@ == s0,
                forall|q: int| 1 <= q < p ==> (#[trigger] s0[q]).dist < d,
            decreases kk - p,
        {
            p += 1;
        }
        proof {
            lemma_ins_pos_char(s0, d, p as int, 1);
            lemma_row_insert_facts(s0, id, d);
        }
        let mut q: usize = kk;
        while q > p
            invariant
                p <= q <= kk,
                kk == s0.len() - 1,
                s0.len() >= 2,
                self@.len() == s0.len(),
                forall|m: int| 0 <= m <= q ==> self@[m] == s0[m],
                forall|m: int| q < m <= kk ==> self@[m] == s0[m - 1],
            decreases q - p,
        {
            let prev = self.slots[q - 1];
            self.slots.set(q, prev);
            q -= 1;
        }
        self.slots.set(p, Node { id, dist: d });
        let last = self.slots[kk].dist;
        let first_id = self.slots[0].id;
        self.slots.set(0, Node { id: first_id, dist: last });
        proof {
            assert(self@ =~= row_insert(s0, id, d));
        }
        true
    }
}

} // verus!
