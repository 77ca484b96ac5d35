use vstd::prelude::*;

use crate::rank::TaskRank;
use crate::task::TaskView;

verus! {

/// Does the sequence hold a record with the given identifier?
pub open spec fn seq_has_id(s: Seq<TaskView>, id: u128) -> bool {
    exists|i: int| 0 <= i < s.len() && s[i].id == id
}

/// An index at which the sequence holds the given identifier. When the
/// sequence holds identifiers without repetition, this is the one such
/// index.
pub open spec fn seq_find_id(s: Seq<TaskView>, id: u128) -> int {
    choose|i: int| 0 <= i < s.len() && s[i].id == id
}

/// The mathematical content of the whole store: one ordered record
/// sequence per rank. Which sequence a record stands in is its rank;
/// its place in that sequence is its display and persistence position.
#[verifier::ext_equal]
pub ghost struct StoreView {
    pub primary: Seq<TaskView>,
    pub secondary: Seq<TaskView>,
    pub other: Seq<TaskView>,
}

impl StoreView {
    /// The store with no records.
    pub open spec fn empty_store() -> StoreView {
        StoreView { primary: Seq::empty(), secondary: Seq::empty(), other: Seq::empty() }
    }

    /// The record sequence of one rank.
    pub open spec fn rank_recs(self, r: TaskRank) -> Seq<TaskView> {
        match r {
            TaskRank::Primary => self.primary,
            TaskRank::Secondary => self.secondary,
            TaskRank::Other => self.other,
        }
    }

    /// The store with one rank's sequence replaced.
    pub open spec fn with_rank(self, r: TaskRank, s: Seq<TaskView>) -> StoreView {
        match r {
            TaskRank::Primary => StoreView { primary: s, ..self },
            TaskRank::Secondary => StoreView { secondary: s, ..self },
            TaskRank::Other => StoreView { other: s, ..self },
        }
    }

    /// How many records the store holds over all ranks.
    pub open spec fn total_len(self) -> nat {
        self.primary.len() + self.secondary.len() + self.other.len()
    }

    /// Is a record with this identifier anywhere in the store?
    pub open spec fn has_id(self, id: u128) -> bool {
        seq_has_id(self.primary, id) || seq_has_id(self.secondary, id) || seq_has_id(
            self.other,
            id,
        )
    }

    /// The rank whose sequence holds the given identifier.
    pub open spec fn rank_of(self, id: u128) -> TaskRank {
        if seq_has_id(self.primary, id) {
            TaskRank::Primary
        } else if seq_has_id(self.secondary, id) {
            TaskRank::Secondary
        } else {
            TaskRank::Other
        }
    }

    /// The position of the given identifier within its rank's sequence.
    pub open spec fn index_of_id(self, id: u128) -> int {
        seq_find_id(self.rank_recs(self.rank_of(id)), id)
    }

    /// The record stored under the given identifier.
    pub open spec fn record_of(self, id: u128) -> TaskView {
        self.rank_recs(self.rank_of(id))[self.index_of_id(id)]
    }

    /// Insert a record into its rank's sequence: at the clamped
    /// position when one is given, else at the tail.
    pub open spec fn insert_rec(self, t: TaskView, at: Option<usize>) -> StoreView {
        self.with_rank(t.rank, seq_insert_clamped(self.rank_recs(t.rank), t, at))
    }

    /// Remove the record with the given identifier from its rank's
    /// sequence.
    pub open spec fn remove_id(self, id: u128) -> StoreView {
        self.with_rank(
            self.rank_of(id),
            self.rank_recs(self.rank_of(id)).remove(self.index_of_id(id)),
        )
    }

    /// Every record stands in the sequence of its own rank.
    pub open spec fn ranks_ok(self) -> bool {
        &&& (forall|i: int| 0 <= i < self.primary.len() ==> (#[trigger] self.primary[i]).rank
            == TaskRank::Primary)
        &&& (forall|i: int| 0 <= i < self.secondary.len() ==> (#[trigger] self.secondary[i]).rank
            == TaskRank::Secondary)
        &&& (forall|i: int| 0 <= i < self.other.len() ==> (#[trigger] self.other[i]).rank
            == TaskRank::Other)
    }

    /// All records of the store, ranks in priority order, each rank in
    /// its own order. This is the canonical flat form the codec emits.
    pub open spec fn flat(self) -> Seq<TaskView> {
        self.primary + self.secondary + self.other
    }

    /// No identifier appears twice anywhere in the store.
    pub open spec fn ids_unique(self) -> bool {
        forall|i: int, j: int|
            0 <= i < j < self.flat().len() ==> (#[trigger] self.flat()[i]).id
                != (#[trigger] self.flat()[j]).id
    }

    /// A well-formed view: records stand in the sequence of their own
    /// rank, and no identifier repeats.
    pub open spec fn wf(self) -> bool {
        self.ranks_ok() && self.ids_unique()
    }
}

/// One rank's sequence after `with_rank`: the replaced rank reads the
/// new sequence, every other rank is untouched.
pub proof fn lemma_with_rank_recs(v: StoreView, r: TaskRank, s: Seq<TaskView>, rr: TaskRank)
    ensures
        v.with_rank(r, s).rank_recs(rr) == (if rr == r {
            s
        } else {
            v.rank_recs(rr)
        }),
{
    match r {
        TaskRank::Primary => {},
        TaskRank::Secondary => {},
        TaskRank::Other => {},
    }
}

/// Appending one record to a sequence adds exactly its identifier.
pub proof fn lemma_seq_has_id_push(s: Seq<TaskView>, t: TaskView, x: u128)
    ensures
        seq_has_id(s.push(t), x) <==> (seq_has_id(s, x) || t.id == x),
{
    if seq_has_id(s.push(t), x) {
        let i = seq_find_id(s.push(t), x);
        if i < s.len() {
            assert(s[i].id == x);
        } else {
            assert(s.push(t)[i] == t);
        }
    }
    if seq_has_id(s, x) {
        let i = seq_find_id(s, x);
        assert(s.push(t)[i].id == x);
    }
    if t.id == x {
        assert(s.push(t)[s.len() as int].id == x);
    }
}

/// Appending one record to one rank adds exactly its identifier to the
/// store.
pub proof fn lemma_has_id_push(v: StoreView, r: TaskRank, t: TaskView, x: u128)
    ensures
        v.with_rank(r, v.rank_recs(r).push(t)).has_id(x) <==> (v.has_id(x) || t.id == x),
{
    let w = v.with_rank(r, v.rank_recs(r).push(t));
    lemma_with_rank_recs(v, r, v.rank_recs(r).push(t), TaskRank::Primary);
    lemma_with_rank_recs(v, r, v.rank_recs(r).push(t), TaskRank::Secondary);
    lemma_with_rank_recs(v, r, v.rank_recs(r).push(t), TaskRank::Other);
    lemma_seq_has_id_push(v.rank_recs(r), t, x);
    match r {
        TaskRank::Primary => {},
        TaskRank::Secondary => {},
        TaskRank::Other => {},
    }
}

/// Two distinct places in a store with unrepeated identifiers hold
/// distinct identifiers.
pub proof fn lemma_distinct_ids(v: StoreView, ra: TaskRank, ka: int, rb: TaskRank, kb: int)
    requires
        v.ids_unique(),
        0 <= ka < v.rank_recs(ra).len(),
        0 <= kb < v.rank_recs(rb).len(),
        !(ra == rb && ka == kb),
    ensures
        v.rank_recs(ra)[ka].id != v.rank_recs(rb)[kb].id,
{
    let np = v.primary.len() as int;
    let ns = v.secondary.len() as int;
    let pa: int = match ra {
        TaskRank::Primary => ka,
        TaskRank::Secondary => np + ka,
        TaskRank::Other => np + ns + ka,
    };
    let pb: int = match rb {
        TaskRank::Primary => kb,
        TaskRank::Secondary => np + kb,
        TaskRank::Other => np + ns + kb,
    };
    assert(v.flat()[pa] == v.rank_recs(ra)[ka]);
    assert(v.flat()[pb] == v.rank_recs(rb)[kb]);
    assert(pa != pb);
    if pa < pb {
        assert(v.flat()[pa].id != v.flat()[pb].id);
    } else {
        assert(v.flat()[pb].id != v.flat()[pa].id);
    }
}

/// Editing preserves position: rewriting the value of a held record in
/// place leaves the record locatable at the same rank and the same
/// index as before, now carrying the new value.
pub proof fn lemma_edit_preserves_position(v: StoreView, id: u128, value: Seq<char>)
    requires
        v.wf(),
        v.has_id(id),
    ensures
        ({
            let rk = v.rank_of(id);
            let p = v.index_of_id(id);
            let w = v.with_rank(
                rk,
                v.rank_recs(rk).update(p, (TaskView { id, rank: rk, value })),
            );
            &&& 0 <= p < v.rank_recs(rk).len()
            &&& w.has_id(id)
            &&& w.rank_of(id) == rk
            &&& w.index_of_id(id) == p
            &&& w.record_of(id) == (TaskView { id, rank: rk, value })
        }),
{
    let rk = v.rank_of(id);
    if seq_has_id(v.primary, id) {
        assert(rk == TaskRank::Primary);
    } else if seq_has_id(v.secondary, id) {
        assert(rk == TaskRank::Secondary);
    } else {
        assert(seq_has_id(v.other, id));
        assert(rk == TaskRank::Other);
    }
    assert(seq_has_id(v.rank_recs(rk), id)) by {
        match rk {
            TaskRank::Primary => {},
            TaskRank::Secondary => {},
            TaskRank::Other => {},
        }
    }
    let p = v.index_of_id(id);
    assert(0 <= p < v.rank_recs(rk).len() && v.rank_recs(rk)[p].id == id);
    let t = TaskView { id, rank: rk, value };
    let w = v.with_rank(rk, v.rank_recs(rk).update(p, t));
    lemma_with_rank_recs(v, rk, v.rank_recs(rk).update(p, t), TaskRank::Primary);
    lemma_with_rank_recs(v, rk, v.rank_recs(rk).update(p, t), TaskRank::Secondary);
    lemma_with_rank_recs(v, rk, v.rank_recs(rk).update(p, t), TaskRank::Other);
    assert(w.rank_recs(rk)[p].id == id);
    assert(seq_has_id(w.rank_recs(rk), id));
    // no other rank holds the identifier, before or after the edit
    assert forall|rr: TaskRank| rr != rk implies !seq_has_id(#[trigger] w.rank_recs(rr), id) by {
        if seq_has_id(w.rank_recs(rr), id) {
            let j = seq_find_id(w.rank_recs(rr), id);
            assert(v.rank_recs(rr)[j].id == id);
            lemma_distinct_ids(v, rk, p, rr, j);
        }
    }
    assert(w.rank_of(id) == rk) by {
        match rk {
            TaskRank::Primary => {},
            TaskRank::Secondary => {},
            TaskRank::Other => {},
        }
    }
    // within the rank, the identifier still sits only at its place
    let q = w.index_of_id(id);
    assert(0 <= q < w.rank_recs(rk).len() && w.rank_recs(rk)[q].id == id);
    if q != p {
        assert(w.rank_recs(rk)[q] == v.rank_recs(rk)[q]);
        lemma_distinct_ids(v, rk, q, rk, p);
    }
}

/// The sequence with every record re-tagged to the given rank, order
/// and content kept.
pub open spec fn re_rank(s: Seq<TaskView>, r: TaskRank) -> Seq<TaskView> {
    s.map_values(|t: TaskView| TaskView { id: t.id, rank: r, value: t.value })
}

/// The whole contents of two ranks exchanged: each sequence moves to
/// the other rank with its records re-tagged and its internal order
/// kept. Exchanging a rank with itself re-tags its own sequence in
/// place.
pub open spec fn swap_spec(v: StoreView, r1: TaskRank, r2: TaskRank) -> StoreView {
    if r1 == r2 {
        v.with_rank(r1, re_rank(v.rank_recs(r1), r1))
    } else {
        v.with_rank(r1, re_rank(v.rank_recs(r2), r1)).with_rank(
            r2,
            re_rank(v.rank_recs(r1), r2),
        )
    }
}

/// Exchanging the same two ranks twice restores the store: swap is an
/// involution, and in particular keeps each side's internal order.
pub proof fn lemma_swap_involutive(v: StoreView, r1: TaskRank, r2: TaskRank)
    requires
        v.ranks_ok(),
    ensures
        swap_spec(swap_spec(v, r1, r2), r1, r2) == v,
{
    assert forall|s: Seq<TaskView>, a: TaskRank, b: TaskRank|
        true implies #[trigger] re_rank(re_rank(s, a), b) == re_rank(s, b) by {
        assert(re_rank(re_rank(s, a), b) =~= re_rank(s, b));
    }
    assert(re_rank(v.rank_recs(TaskRank::Primary), TaskRank::Primary) == v.rank_recs(
        TaskRank::Primary,
    )) by {
        assert(re_rank(v.primary, TaskRank::Primary) =~= v.primary);
    }
    assert(re_rank(v.rank_recs(TaskRank::Secondary), TaskRank::Secondary) == v.rank_recs(
        TaskRank::Secondary,
    )) by {
        assert(re_rank(v.secondary, TaskRank::Secondary) =~= v.secondary);
    }
    assert(re_rank(v.rank_recs(TaskRank::Other), TaskRank::Other) == v.rank_recs(
        TaskRank::Other,
    )) by {
        assert(re_rank(v.other, TaskRank::Other) =~= v.other);
    }
    let w = swap_spec(v, r1, r2);
    if r1 == r2 {
        lemma_with_rank_recs(v, r1, re_rank(v.rank_recs(r1), r1), r1);
        assert(swap_spec(w, r1, r2) =~= v) by {
            match r1 {
                TaskRank::Primary => {},
                TaskRank::Secondary => {},
                TaskRank::Other => {},
            }
        }
    } else {
        let v1 = v.with_rank(r1, re_rank(v.rank_recs(r2), r1));
        lemma_with_rank_recs(v, r1, re_rank(v.rank_recs(r2), r1), r1);
        lemma_with_rank_recs(v, r1, re_rank(v.rank_recs(r2), r1), r2);
        lemma_with_rank_recs(v1, r2, re_rank(v.rank_recs(r1), r2), r1);
        lemma_with_rank_recs(v1, r2, re_rank(v.rank_recs(r1), r2), r2);
        assert(w.rank_recs(r1) == re_rank(v.rank_recs(r2), r1));
        assert(w.rank_recs(r2) == re_rank(v.rank_recs(r1), r2));
        assert(swap_spec(w, r1, r2) =~= v) by {
            match r1 {
                TaskRank::Primary => {
                    match r2 {
                        TaskRank::Primary => {},
                        TaskRank::Secondary => {},
                        TaskRank::Other => {},
                    }
                },
                TaskRank::Secondary => {
                    match r2 {
                        TaskRank::Primary => {},
                        TaskRank::Secondary => {},
                        TaskRank::Other => {},
                    }
                },
                TaskRank::Other => {
                    match r2 {
                        TaskRank::Primary => {},
                        TaskRank::Secondary => {},
                        TaskRank::Other => {},
                    }
                },
            }
        }
    }
}

/// Insert into a sequence at the clamped position, or append.
pub open spec fn seq_insert_clamped(s: Seq<TaskView>, t: TaskView, at: Option<usize>) -> Seq<
    TaskView,
> {
    match at {
        None => s.push(t),
        Some(i) => s.insert(if i <= s.len() { i as int } else { s.len() as int }, t),
    }
}

} // verus!
