use vstd::prelude::*;

use crate::arena::{arena_entries, arena_get, arena_insert, arena_new, arena_take};
use crate::event::{TaskAddData, TaskEvent};
use crate::idgen::fresh_id_bits;
use crate::index::{entries_of, index_del, index_get, index_new, index_put};
use crate::order::{
    elems_of, order_find, order_get, order_insert, order_len, order_new, order_remove,
};
use crate::rank::TaskRank;
use crate::task::{TaskData, TaskView};
use crate::view::{seq_find_id, seq_has_id, StoreView};
use vstd::pervasive::unreached;

verus! {

broadcast use crate::task::lemma_task_view;

/// Two tables agree on every slot a sequence mentions, so the sequence
/// reads to the same records through either.
proof fn lemma_rank_view_stable(tbl1: Map<usize, TaskData>, tbl2: Map<usize, TaskData>, q: Seq<
    usize,
>)
    requires
        forall|i: int| 0 <= i < q.len() ==> tbl2[#[trigger] q[i]]@ == tbl1[q[i]]@,
    ensures
        rank_view(tbl1, q) == rank_view(tbl2, q),
{
    assert(rank_view(tbl1, q) =~= rank_view(tbl2, q));
}

/// Inserting one element keeps every element the sequence already had.
proof fn lemma_seq_insert_contains(s: Seq<usize>, j: int, x: usize, y: usize)
    requires
        0 <= j <= s.len(),
        s.contains(y),
    ensures
        s.insert(j, x).contains(y),
{
    let k = choose|k: int| 0 <= k < s.len() && s[k] == y;
    if k < j {
        assert(s.insert(j, x)[k] == y);
    } else {
        assert(s.insert(j, x)[k + 1] == y);
    }
}

/// Removing the element at one position keeps every element that also
/// stands elsewhere.
proof fn lemma_seq_remove_contains(s: Seq<usize>, p: int, y: usize, k: int)
    requires
        0 <= p < s.len(),
        0 <= k < s.len(),
        k != p,
        s[k] == y,
    ensures
        s.remove(p).contains(y),
{
    if k < p {
        assert(s.remove(p)[k] == y);
    } else {
        assert(s.remove(p)[k - 1] == y);
    }
}

/// The text of the seed record.
pub open spec fn seed_text() -> Seq<char> {
    "Hello! BurnerList is a simple, intentionally constrained list."@
}

/// The views of a list of records, in order.
pub open spec fn views_of(s: Seq<TaskData>) -> Seq<TaskView> {
    s.map_values(|t: TaskData| t@)
}

/// The record sequence a slot sequence stands for: each slot replaced
/// by the view of the record stored there.
pub open spec fn rank_view(tbl: Map<usize, TaskData>, q: Seq<usize>) -> Seq<TaskView> {
    q.map_values(|slot: usize| tbl[slot]@)
}

/// The entity store. Three structures are kept in sync: the record
/// table (a slot arena owning the records), the identity index (record
/// identifier to slot), and one ordered slot sequence per rank. A
/// version token changes on every successful mutation, for cheap
/// change detection.
pub struct DataBase {
    store: slab::Slab<TaskData>,
    id_index: im::HashMap<u128, usize>,
    primary: im::Vector<usize>,
    secondary: im::Vector<usize>,
    other: im::Vector<usize>,
    version: u64,
}

impl View for DataBase {
    type V = StoreView;

    closed spec fn view(&self) -> StoreView {
        StoreView {
            primary: rank_view(self.table(), self.order(TaskRank::Primary)),
            secondary: rank_view(self.table(), self.order(TaskRank::Secondary)),
            other: rank_view(self.table(), self.order(TaskRank::Other)),
        }
    }
}

impl DataBase {
    /// The record table: occupied slots and the records they hold.
    pub closed spec fn table(self) -> Map<usize, TaskData> {
        arena_entries(self.store)
    }

    /// The identity index: one entry per live record.
    pub closed spec fn identity(self) -> Map<u128, usize> {
        entries_of(self.id_index)
    }

    /// One rank's ordered slot sequence.
    pub closed spec fn order(self, r: TaskRank) -> Seq<usize> {
        match r {
            TaskRank::Primary => elems_of(self.primary),
            TaskRank::Secondary => elems_of(self.secondary),
            TaskRank::Other => elems_of(self.other),
        }
    }

    /// The version token.
    pub closed spec fn token(self) -> u64 {
        self.version
    }

    /// One rank's slot sequence is sound: every slot in it is occupied,
    /// holds a record of that very rank, and no slot repeats.
    pub closed spec fn order_ok(self, r: TaskRank) -> bool {
        &&& (forall|i: int|
            0 <= i < self.order(r).len() ==> self.table().dom().contains(
                #[trigger] self.order(r)[i],
            ) && self.table()[self.order(r)[i]]@.rank == r)
        &&& (forall|i: int, j: int|
            0 <= i < j < self.order(r).len() ==> self.order(r)[i] != self.order(r)[j])
    }

    /// The well-formedness invariant tying the three structures
    /// together: the identity index and the record table are mutually
    /// inverse, every occupied slot stands in the sequence of its
    /// record's rank, and every slot sequence is sound.
    pub closed spec fn wf(self) -> bool {
        &&& self.table().dom().finite()
        &&& self.identity().dom().finite()
        &&& (forall|slot: usize|
            #[trigger] self.table().dom().contains(slot) ==> self.identity().dom().contains(
                self.table()[slot]@.id,
            ) && self.identity()[self.table()[slot]@.id] == slot && self.order(
                self.table()[slot]@.rank,
            ).contains(slot))
        &&& (forall|id: u128|
            #[trigger] self.identity().dom().contains(id) ==> self.table().dom().contains(
                self.identity()[id],
            ) && self.table()[self.identity()[id]]@.id == id)
        &&& self.order_ok(TaskRank::Primary)
        &&& self.order_ok(TaskRank::Secondary)
        &&& self.order_ok(TaskRank::Other)
    }

    /// The view of one rank is its slot sequence read through the
    /// record table.
    pub proof fn lemma_rank_recs(self, r: TaskRank)
        ensures
            self@.rank_recs(r) == rank_view(self.table(), self.order(r)),
            self@.rank_recs(r).len() == self.order(r).len(),
            forall|i: int|
                0 <= i < self.order(r).len() ==> self@.rank_recs(r)[i] == self.table()[(
                #[trigger] self.order(r)[i])]@,
    {
        match r {
            TaskRank::Primary => {},
            TaskRank::Secondary => {},
            TaskRank::Other => {},
        }
    }

    /// An identifier is in the identity index exactly when the view
    /// holds a record with it.
    pub proof fn lemma_has_id_iff(self, id: u128)
        requires
            self.wf(),
        ensures
            self.identity().dom().contains(id) <==> self@.has_id(id),
    {
        self.lemma_rank_recs(TaskRank::Primary);
        self.lemma_rank_recs(TaskRank::Secondary);
        self.lemma_rank_recs(TaskRank::Other);
        if self.identity().dom().contains(id) {
            let slot = self.identity()[id];
            let rk = self.table()[slot]@.rank;
            assert(self.order(rk).contains(slot));
            let i = choose|i: int| 0 <= i < self.order(rk).len() && self.order(rk)[i] == slot;
            assert(self@.rank_recs(rk)[i].id == id);
            assert(seq_has_id(self@.rank_recs(rk), id));
            match rk {
                TaskRank::Primary => {},
                TaskRank::Secondary => {},
                TaskRank::Other => {},
            }
        }
        if self@.has_id(id) {
            let rk = self@.rank_of(id);
            let i = seq_find_id(self@.rank_recs(rk), id);
            assert(seq_has_id(self@.rank_recs(rk), id));
            assert(0 <= i < self@.rank_recs(rk).len() && self@.rank_recs(rk)[i].id == id);
            let slot = self.order(rk)[i];
            assert(self.table().dom().contains(slot));
            assert(self.table()[slot]@.id == id);
        }
    }

    /// A record seen in some rank's view pins down the identity entry:
    /// the identifier is indexed and maps to the very slot at that
    /// position, whose record carries that rank.
    proof fn lemma_id_rank_unique(self, id: u128, r: TaskRank, j: int)
        requires
            self.wf(),
            0 <= j < self@.rank_recs(r).len(),
            self@.rank_recs(r)[j].id == id,
        ensures
            self.identity().dom().contains(id),
            self.identity()[id] == self.order(r)[j],
            self.table().dom().contains(self.order(r)[j]),
            self.table()[self.order(r)[j]]@.rank == r,
            self.table()[self.order(r)[j]]@.id == id,
    {
        self.lemma_rank_recs(r);
        let slot = self.order(r)[j];
        assert(self.table().dom().contains(slot));
        assert(self.table()[slot]@.id == id);
    }

    /// Where a held identifier lives: `rank_of` names the rank of the
    /// record's slot, `index_of_id` its one position there, and the
    /// identity entry points at that slot. No other rank and no other
    /// position holds the identifier.
    pub proof fn lemma_locate(self, id: u128)
        requires
            self.wf(),
            self@.has_id(id),
        ensures
            ({
                let slot = self.identity()[id];
                let rk = self@.rank_of(id);
                let p = self@.index_of_id(id);
                &&& self.identity().dom().contains(id)
                &&& self.table().dom().contains(slot)
                &&& rk == self.table()[slot]@.rank
                &&& 0 <= p < self.order(rk).len()
                &&& self.order(rk)[p] == slot
                &&& self@.record_of(id) == self.table()[slot]@
                &&& self@.record_of(id).id == id
                &&& self@.rank_recs(rk).len() == self.order(rk).len()
                &&& (forall|j: int|
                    0 <= j < self@.rank_recs(rk).len() && (#[trigger] self@.rank_recs(rk)[j]).id
                        == id ==> j == p)
                &&& (forall|r2: TaskRank|
                    seq_has_id(#[trigger] self@.rank_recs(r2), id) ==> r2 == rk)
            }),
    {
        self.lemma_has_id_iff(id);
        let slot = self.identity()[id];
        let trk = self.table()[slot]@.rank;
        assert forall|r2: TaskRank| seq_has_id(#[trigger] self@.rank_recs(r2), id) implies r2
            == trk by {
            let j = seq_find_id(self@.rank_recs(r2), id);
            assert(0 <= j < self@.rank_recs(r2).len() && self@.rank_recs(r2)[j].id == id);
            self.lemma_id_rank_unique(id, r2, j);
        }
        let rk = self@.rank_of(id);
        assert(seq_has_id(self@.rank_recs(rk), id)) by {
            match rk {
                TaskRank::Primary => {},
                TaskRank::Secondary => {},
                TaskRank::Other => {},
            }
        }
        assert(rk == trk);
        let p = self@.index_of_id(id);
        assert(0 <= p < self@.rank_recs(rk).len() && self@.rank_recs(rk)[p].id == id);
        self.lemma_id_rank_unique(id, rk, p);
        self.lemma_rank_recs(rk);
        assert forall|j: int|
            0 <= j < self@.rank_recs(rk).len() && (#[trigger] self@.rank_recs(rk)[j]).id
                == id implies j == p by {
            self.lemma_id_rank_unique(id, rk, j);
            if j < p {
                assert(self.order(rk)[j] != self.order(rk)[p]);
            } else if j > p {
                assert(self.order(rk)[p] != self.order(rk)[j]);
            }
        }
    }

    /// How many records each rank's sequence holds.
    fn rank_len(&self, r: TaskRank) -> (n: usize)
        ensures
            n == self.order(r).len(),
    {
        match r {
            TaskRank::Primary => order_len(&self.primary),
            TaskRank::Secondary => order_len(&self.secondary),
            TaskRank::Other => order_len(&self.other),
        }
    }

    /// The slot at one position of a rank's sequence.
    fn rank_get(&self, r: TaskRank, i: usize) -> (res: Option<usize>)
        ensures
            (match res {
                Some(x) => i < self.order(r).len() && x == self.order(r)[i as int],
                None => i >= self.order(r).len(),
            }),
    {
        match r {
            TaskRank::Primary => order_get(&self.primary, i),
            TaskRank::Secondary => order_get(&self.secondary, i),
            TaskRank::Other => order_get(&self.other, i),
        }
    }

    /// The first position of a slot within a rank's sequence.
    fn rank_find(&self, r: TaskRank, slot: usize) -> (res: Option<usize>)
        ensures
            (match res {
                Some(i) => i < self.order(r).len() && self.order(r)[i as int] == slot && (forall|
                    j: int,
                |
                    0 <= j < i ==> self.order(r)[j] != slot),
                None => forall|j: int| 0 <= j < self.order(r).len() ==> self.order(r)[j] != slot,
            }),
    {
        match r {
            TaskRank::Primary => order_find(&self.primary, slot),
            TaskRank::Secondary => order_find(&self.secondary, slot),
            TaskRank::Other => order_find(&self.other, slot),
        }
    }

    /// Place a slot at a position of a rank's sequence.
    fn rank_insert_at(&mut self, r: TaskRank, i: usize, slot: usize)
        requires
            i <= old(self).order(r).len(),
        ensures
            final(self).order(r) == old(self).order(r).insert(i as int, slot),
            forall|r2: TaskRank| r2 != r ==> final(self).order(r2) == old(self).order(r2),
            final(self).table() == old(self).table(),
            final(self).identity() == old(self).identity(),
            final(self).token() == old(self).token(),
    {
        match r {
            TaskRank::Primary => order_insert(&mut self.primary, i, slot),
            TaskRank::Secondary => order_insert(&mut self.secondary, i, slot),
            TaskRank::Other => order_insert(&mut self.other, i, slot),
        }
    }

    /// Remove the slot at a position of a rank's sequence.
    fn rank_remove_at(&mut self, r: TaskRank, i: usize) -> (res: usize)
        requires
            i < old(self).order(r).len(),
        ensures
            res == old(self).order(r)[i as int],
            final(self).order(r) == old(self).order(r).remove(i as int),
            forall|r2: TaskRank| r2 != r ==> final(self).order(r2) == old(self).order(r2),
            final(self).table() == old(self).table(),
            final(self).identity() == old(self).identity(),
            final(self).token() == old(self).token(),
    {
        match r {
            TaskRank::Primary => order_remove(&mut self.primary, i),
            TaskRank::Secondary => order_remove(&mut self.secondary, i),
            TaskRank::Other => order_remove(&mut self.other, i),
        }
    }

    /// Change the version token to a value it did not have before.
    fn bump_version(&mut self)
        ensures
            final(self).token() != old(self).token(),
            final(self).table() == old(self).table(),
            final(self).identity() == old(self).identity(),
            forall|r2: TaskRank| final(self).order(r2) == old(self).order(r2),
            final(self)@ == old(self)@,
            final(self).wf() == old(self).wf(),
    {
        self.version = if self.version == u64::MAX {
            0
        } else {
            self.version + 1
        };
    }

    /// Insert a record that is not yet in the store: place it in the
    /// record table, register its identifier, and put its slot into its
    /// rank's sequence at the clamped position (or the tail when none
    /// is given). A record whose identifier is already held is refused
    /// and nothing changes.
    #[verifier::rlimit(100)]
    pub(crate) fn insert_task(&mut self, task: TaskData, at: Option<usize>) -> (r: bool)
        requires
            old(self).wf(),
        ensures
            final(self).wf(),
            old(self)@.has_id(task@.id) ==> r == false && *final(self) == *old(self),
            !old(self)@.has_id(task@.id) ==> r == true && final(self)@ == old(self)@.insert_rec(
                task@,
                at,
            ) && final(self).token() == old(self).token(),
    {
        let id = task.id();
        if self.contains_id(id) {
            return false;
        }
        proof {
            self.lemma_has_id_iff(id);
        }
        let rank = task.rank;
        let n = self.rank_len(rank);
        let j: usize = match at {
            None => n,
            Some(i) => if i <= n {
                i
            } else {
                n
            },
        };
        let ghost pre = *self;
        let ghost tv = task@;
        let slot = arena_insert(&mut self.store, task);
        index_put(&mut self.id_index, id, slot);
        self.rank_insert_at(rank, j, slot);
        proof {
            Self::lemma_insert_wf(pre, *self, task, slot, j as int);
            Self::lemma_insert_view(pre, *self, task, slot, j as int);
            assert(pre@.rank_recs(rank).len() == pre.order(rank).len()) by {
                pre.lemma_rank_recs(rank);
            }
            assert(crate::view::seq_insert_clamped(pre@.rank_recs(rank), tv, at)
                == pre@.rank_recs(rank).insert(j as int, tv)) by {
                if at is None {
                    assert(pre@.rank_recs(rank).push(tv) =~= pre@.rank_recs(rank).insert(
                        j as int,
                        tv,
                    ));
                }
            }
        }
        true
    }

    /// Extending the table with a fresh slot, the identity index with a
    /// fresh identifier, and the record's rank sequence with that slot
    /// keeps the store well formed.
    proof fn lemma_insert_wf(pre: DataBase, post: DataBase, task: TaskData, slot: usize, j: int)
        requires
            pre.wf(),
            !pre.identity().dom().contains(task@.id),
            !pre.table().dom().contains(slot),
            0 <= j <= pre.order(task@.rank).len(),
            post.table() == pre.table().insert(slot, task),
            post.identity() == pre.identity().insert(task@.id, slot),
            post.order(task@.rank) == pre.order(task@.rank).insert(j, slot),
            forall|r2: TaskRank| r2 != task@.rank ==> post.order(r2) == pre.order(r2),
        ensures
            post.wf(),
    {
        let id = task@.id;
        let rank = task@.rank;
        let t0 = pre.table();
        let t1 = post.table();
        let q0 = pre.order(rank);
        let q1 = post.order(rank);
        // well-formedness, slot by slot
        assert forall|s2: usize| #[trigger] t1.dom().contains(s2) implies post.identity().dom().contains(
            t1[s2]@.id,
        ) && post.identity()[t1[s2]@.id] == s2 && post.order(t1[s2]@.rank).contains(s2) by {
            if s2 == slot {
                assert(q1[j] == slot);
                assert(post.order(rank).contains(slot));
            } else {
                assert(t0.dom().contains(s2));
                let id2 = t0[s2]@.id;
                assert(pre.identity().dom().contains(id2));
                assert(id2 != id);
                let rank2 = t0[s2]@.rank;
                assert(pre.order(rank2).contains(s2));
                if rank2 == rank {
                    lemma_seq_insert_contains(q0, j, slot, s2);
                }
            }
        }
        // well-formedness, identifier by identifier
        assert forall|id2: u128| #[trigger] post.identity().dom().contains(id2) implies t1.dom().contains(
            post.identity()[id2],
        ) && t1[post.identity()[id2]]@.id == id2 by {
            if id2 != id {
                assert(pre.identity().dom().contains(id2));
            }
        }
        // each sequence stays sound
        assert forall|r2: TaskRank| true implies post.order_ok(r2) by {
            if r2 == rank {
                assert forall|k: int| 0 <= k < q1.len() implies t1.dom().contains(
                    #[trigger] q1[k],
                ) && t1[q1[k]]@.rank == r2 by {
                    if k < j {
                        assert(q1[k] == q0[k]);
                        assert(t0.dom().contains(q0[k]));
                    } else if k == j {
                        assert(q1[k] == slot);
                    } else {
                        assert(q1[k] == q0[k - 1]);
                        assert(t0.dom().contains(q0[k - 1]));
                    }
                }
                assert forall|k1: int, k2: int| 0 <= k1 < k2 < q1.len() implies q1[k1]
                    != q1[k2] by {
                    let m1: int = if k1 < j {
                        k1
                    } else {
                        k1 - 1
                    };
                    let m2: int = if k2 < j {
                        k2
                    } else {
                        k2 - 1
                    };
                    if k1 == j {
                        assert(q1[k1] == slot && q1[k2] == q0[m2]);
                        assert(t0.dom().contains(q0[m2]));
                    } else if k2 == j {
                        assert(q1[k2] == slot && q1[k1] == q0[m1]);
                        assert(t0.dom().contains(q0[m1]));
                    } else {
                        assert(q1[k1] == q0[m1] && q1[k2] == q0[m2]);
                    }
                }
            } else {
                assert forall|k: int| 0 <= k < post.order(r2).len() implies t1.dom().contains(
                    #[trigger] post.order(r2)[k],
                ) && t1[post.order(r2)[k]]@.rank == r2 by {
                    assert(post.order(r2)[k] == pre.order(r2)[k]);
                    assert(t0.dom().contains(pre.order(r2)[k]));
                }
            }
        }
    }

    /// The same extension, seen through the view: exactly one record is
    /// inserted at one position of its rank's sequence.
    proof fn lemma_insert_view(pre: DataBase, post: DataBase, task: TaskData, slot: usize, j: int)
        requires
            pre.wf(),
            !pre.identity().dom().contains(task@.id),
            !pre.table().dom().contains(slot),
            0 <= j <= pre.order(task@.rank).len(),
            post.table() == pre.table().insert(slot, task),
            post.identity() == pre.identity().insert(task@.id, slot),
            post.order(task@.rank) == pre.order(task@.rank).insert(j, slot),
            forall|r2: TaskRank| r2 != task@.rank ==> post.order(r2) == pre.order(r2),
        ensures
            post@ == pre@.with_rank(task@.rank, pre@.rank_recs(task@.rank).insert(j, task@)),
    {
        let rank = task@.rank;
        let t0 = pre.table();
        let t1 = post.table();
        let q0 = pre.order(rank);
        let q1 = post.order(rank);
        assert forall|r2: TaskRank| r2 != rank implies post@.rank_recs(r2) == pre@.rank_recs(
            r2,
        ) by {
            post.lemma_rank_recs(r2);
            pre.lemma_rank_recs(r2);
            assert forall|k: int| 0 <= k < pre.order(r2).len() implies t1[(
            #[trigger] pre.order(r2)[k])]@ == t0[pre.order(r2)[k]]@ by {
                assert(t0.dom().contains(pre.order(r2)[k]));
            }
            lemma_rank_view_stable(t0, t1, pre.order(r2));
        }
        assert(post@.rank_recs(rank) == pre@.rank_recs(rank).insert(j, task@)) by {
            post.lemma_rank_recs(rank);
            pre.lemma_rank_recs(rank);
            assert forall|k: int| 0 <= k < q1.len() implies post@.rank_recs(rank)[k]
                == pre@.rank_recs(rank).insert(j, task@)[k] by {
                if k < j {
                    assert(q1[k] == q0[k]);
                    assert(t0.dom().contains(q0[k]));
                } else if k == j {
                    assert(q1[k] == slot);
                } else {
                    assert(q1[k] == q0[k - 1]);
                    assert(t0.dom().contains(q0[k - 1]));
                }
            }
            assert(post@.rank_recs(rank) =~= pre@.rank_recs(rank).insert(j, task@));
        }
        match rank {
            TaskRank::Primary => {
                assert(post@ =~= pre@.with_rank(rank, pre@.rank_recs(rank).insert(j, task@)));
            },
            TaskRank::Secondary => {
                assert(post@ =~= pre@.with_rank(rank, pre@.rank_recs(rank).insert(j, task@)));
            },
            TaskRank::Other => {
                assert(post@ =~= pre@.with_rank(rank, pre@.rank_recs(rank).insert(j, task@)));
            },
        }
    }

    /// Remove the record with the given identifier from the table, the
    /// identity index and its rank's sequence, returning the position
    /// it occupied there and the record itself. An unknown identifier
    /// leaves the store untouched.
    fn remove_by_id(&mut self, id: u128) -> (res: Option<(usize, TaskData)>)
        requires
            old(self).wf(),
        ensures
            final(self).wf(),
            !old(self)@.has_id(id) ==> res == None::<(usize, TaskData)> && *final(self) == *old(
                self,
            ),
            old(self)@.has_id(id) ==> (match res {
                Some(pt) => pt.0 as int == old(self)@.index_of_id(id) && pt.1@ == old(
                    self,
                )@.record_of(id) && final(self)@ == old(self)@.remove_id(id)
                    && final(self).token() == old(self).token(),
                None => false,
            }),
    {
        let ghost pre = *self;
        proof {
            pre.lemma_has_id_iff(id);
            if pre@.has_id(id) {
                pre.lemma_locate(id);
            }
        }
        match index_del(&mut self.id_index, id) {
            None => None,
            Some(slot) => {
                let task = match arena_take(&mut self.store, slot) {
                    Some(t) => t,
                    None => unreached(),
                };
                let rk = task.rank;
                proof {
                    assert(task == pre.table()[slot]);
                    assert(rk == pre.table()[slot]@.rank);
                    assert(pre.order(rk).contains(slot));
                    assert(self.order(rk) == pre.order(rk));
                }
                let pos = match self.rank_find(rk, slot) {
                    Some(p) => p,
                    None => {
                        proof {
                            let k = choose|k: int|
                                0 <= k < pre.order(rk).len() && pre.order(rk)[k] == slot;
                            assert(self.order(rk)[k] == slot);
                        }
                        unreached()
                    },
                };
                let _ = self.rank_remove_at(rk, pos);
                proof {
                    let p = pre@.index_of_id(id);
                    assert(pre.order(rk)[p] == slot);
                    if pos < p {
                        assert(pre.order(rk)[pos as int] != pre.order(rk)[p]);
                    } else if pos > p {
                        assert(pre.order(rk)[p] != pre.order(rk)[pos as int]);
                    }
                    assert(pos as int == p);
                    Self::lemma_remove_wf(pre, *self, id, slot, p);
                    Self::lemma_remove_view(pre, *self, id, slot, p);
                }
                Some((pos, task))
            },
        }
    }

    /// Dropping one record's slot from the table, its identifier from
    /// the identity index, and its one position from its rank's
    /// sequence keeps the store well formed.
    proof fn lemma_remove_wf(pre: DataBase, post: DataBase, id: u128, slot: usize, p: int)
        requires
            pre.wf(),
            pre.identity().dom().contains(id),
            slot == pre.identity()[id],
            0 <= p < pre.order(pre.table()[slot]@.rank).len(),
            pre.order(pre.table()[slot]@.rank)[p] == slot,
            post.table() == pre.table().remove(slot),
            post.identity() == pre.identity().remove(id),
            post.order(pre.table()[slot]@.rank) == pre.order(pre.table()[slot]@.rank).remove(p),
            forall|r2: TaskRank|
                r2 != pre.table()[slot]@.rank ==> post.order(r2) == pre.order(r2),
        ensures
            post.wf(),
    {
        let rk = pre.table()[slot]@.rank;
        let t0 = pre.table();
        let t1 = post.table();
        let q0 = pre.order(rk);
        let q1 = post.order(rk);
        assert forall|s2: usize| #[trigger] t1.dom().contains(s2) implies post.identity().dom().contains(
            t1[s2]@.id,
        ) && post.identity()[t1[s2]@.id] == s2 && post.order(t1[s2]@.rank).contains(s2) by {
            assert(t0.dom().contains(s2));
            let id2 = t0[s2]@.id;
            assert(pre.identity().dom().contains(id2) && pre.identity()[id2] == s2);
            assert(id2 != id);
            let rank2 = t0[s2]@.rank;
            assert(pre.order(rank2).contains(s2));
            if rank2 == rk {
                let k = choose|k: int| 0 <= k < q0.len() && q0[k] == s2;
                assert(k != p);
                lemma_seq_remove_contains(q0, p, s2, k);
            }
        }
        assert forall|id2: u128| #[trigger] post.identity().dom().contains(id2) implies t1.dom().contains(
            post.identity()[id2],
        ) && t1[post.identity()[id2]]@.id == id2 by {
            assert(pre.identity().dom().contains(id2));
            let slot2 = pre.identity()[id2];
            assert(t0.dom().contains(slot2) && t0[slot2]@.id == id2);
            assert(slot2 != slot);
        }
        assert forall|r2: TaskRank| true implies post.order_ok(r2) by {
            if r2 == rk {
                assert forall|k: int| 0 <= k < q1.len() implies t1.dom().contains(
                    #[trigger] q1[k],
                ) && t1[q1[k]]@.rank == r2 by {
                    let m: int = if k < p {
                        k
                    } else {
                        k + 1
                    };
                    assert(q1[k] == q0[m]);
                    assert(t0.dom().contains(q0[m]));
                    assert(q0[m] != slot);
                }
                assert forall|k1: int, k2: int| 0 <= k1 < k2 < q1.len() implies q1[k1]
                    != q1[k2] by {
                    let m1: int = if k1 < p {
                        k1
                    } else {
                        k1 + 1
                    };
                    let m2: int = if k2 < p {
                        k2
                    } else {
                        k2 + 1
                    };
                    assert(q1[k1] == q0[m1] && q1[k2] == q0[m2]);
                }
            } else {
                assert forall|k: int| 0 <= k < post.order(r2).len() implies t1.dom().contains(
                    #[trigger] post.order(r2)[k],
                ) && t1[post.order(r2)[k]]@.rank == r2 by {
                    assert(post.order(r2)[k] == pre.order(r2)[k]);
                    assert(t0.dom().contains(pre.order(r2)[k]));
                    assert(t0[pre.order(r2)[k]]@.rank == r2);
                    assert(pre.order(r2)[k] != slot);
                }
            }
        }
    }

    /// The same removal, seen through the view: exactly one record
    /// leaves one position of its rank's sequence.
    proof fn lemma_remove_view(pre: DataBase, post: DataBase, id: u128, slot: usize, p: int)
        requires
            pre.wf(),
            pre.identity().dom().contains(id),
            slot == pre.identity()[id],
            0 <= p < pre.order(pre.table()[slot]@.rank).len(),
            pre.order(pre.table()[slot]@.rank)[p] == slot,
            post.table() == pre.table().remove(slot),
            post.identity() == pre.identity().remove(id),
            post.order(pre.table()[slot]@.rank) == pre.order(pre.table()[slot]@.rank).remove(p),
            forall|r2: TaskRank|
                r2 != pre.table()[slot]@.rank ==> post.order(r2) == pre.order(r2),
        ensures
            post@ == pre@.with_rank(
                pre.table()[slot]@.rank,
                pre@.rank_recs(pre.table()[slot]@.rank).remove(p),
            ),
    {
        let rk = pre.table()[slot]@.rank;
        let t0 = pre.table();
        let t1 = post.table();
        let q0 = pre.order(rk);
        let q1 = post.order(rk);
        assert forall|r2: TaskRank| r2 != rk implies post@.rank_recs(r2) == pre@.rank_recs(
            r2,
        ) by {
            post.lemma_rank_recs(r2);
            pre.lemma_rank_recs(r2);
            assert forall|k: int| 0 <= k < pre.order(r2).len() implies t1[(
            #[trigger] pre.order(r2)[k])]@ == t0[pre.order(r2)[k]]@ by {
                assert(t0.dom().contains(pre.order(r2)[k]));
                assert(t0[pre.order(r2)[k]]@.rank == r2);
                assert(pre.order(r2)[k] != slot);
            }
            lemma_rank_view_stable(t0, t1, pre.order(r2));
        }
        assert(post@.rank_recs(rk) == pre@.rank_recs(rk).remove(p)) by {
            post.lemma_rank_recs(rk);
            pre.lemma_rank_recs(rk);
            assert forall|k: int| 0 <= k < q1.len() implies post@.rank_recs(rk)[k]
                == pre@.rank_recs(rk).remove(p)[k] by {
                let m: int = if k < p {
                    k
                } else {
                    k + 1
                };
                assert(q1[k] == q0[m]);
                assert(t0.dom().contains(q0[m]));
                assert(q0[m] != slot);
            }
            assert(post@.rank_recs(rk) =~= pre@.rank_recs(rk).remove(p));
        }
        match rk {
            TaskRank::Primary => {
                assert(post@ =~= pre@.with_rank(rk, pre@.rank_recs(rk).remove(p)));
            },
            TaskRank::Secondary => {
                assert(post@ =~= pre@.with_rank(rk, pre@.rank_recs(rk).remove(p)));
            },
            TaskRank::Other => {
                assert(post@ =~= pre@.with_rank(rk, pre@.rank_recs(rk).remove(p)));
            },
        }
    }

    /// After a record is removed, its identifier is nowhere in the
    /// store.
    pub proof fn lemma_removed_id_absent(pre: DataBase, mid: StoreView, id: u128)
        requires
            pre.wf(),
            pre@.has_id(id),
            mid == pre@.remove_id(id),
        ensures
            !mid.has_id(id),
    {
        pre.lemma_locate(id);
        let v = pre@;
        let rk = v.rank_of(id);
        let p = v.index_of_id(id);
        assert forall|r2: TaskRank| !seq_has_id(#[trigger] mid.rank_recs(r2), id) by {
            if r2 == rk {
                assert(mid.rank_recs(rk) == v.rank_recs(rk).remove(p)) by {
                    match rk {
                        TaskRank::Primary => {},
                        TaskRank::Secondary => {},
                        TaskRank::Other => {},
                    }
                }
                if seq_has_id(mid.rank_recs(rk), id) {
                    let k = seq_find_id(mid.rank_recs(rk), id);
                    assert(0 <= k < mid.rank_recs(rk).len() && mid.rank_recs(rk)[k].id == id);
                    let m: int = if k < p {
                        k
                    } else {
                        k + 1
                    };
                    assert(v.rank_recs(rk)[m].id == id);
                    assert(false);
                }
            } else {
                assert(mid.rank_recs(r2) == v.rank_recs(r2)) by {
                    match rk {
                        TaskRank::Primary => {},
                        TaskRank::Secondary => {},
                        TaskRank::Other => {},
                    }
                }
                if seq_has_id(mid.rank_recs(r2), id) {
                    assert(r2 == rk);
                }
            }
        }
        assert(!seq_has_id(mid.rank_recs(TaskRank::Primary), id));
        assert(!seq_has_id(mid.rank_recs(TaskRank::Secondary), id));
        assert(!seq_has_id(mid.rank_recs(TaskRank::Other), id));
    }

    /// Apply one event. `Add` always takes effect; `Edit`, `Move` and
    /// `Delete` are silent no-ops when their identifier is unknown, and
    /// otherwise change exactly what the event names: `Edit` rewrites
    /// the value in place, keeping rank and position; `Move` removes
    /// the record and reinserts it in the target rank at the clamped
    /// position (counted with the record already absent) or at the
    /// tail; `Delete` removes it. The version token changes exactly
    /// when `true` is returned.
    pub fn apply_event(&mut self, event: &TaskEvent) -> (r: bool)
        requires
            old(self).wf(),
        ensures
            final(self).wf(),
            (match *event {
                TaskEvent::Add(ref a) => r == true && final(self).token() != old(self).token()
                    && (exists|id: u128|
                    !old(self)@.has_id(id) && final(self)@ == old(self)@.insert_rec(
                        (TaskView { id, rank: a.rank, value: a.value@ }),
                        None::<usize>,
                    )),
                TaskEvent::Edit(ref e) => {
                    &&& (!old(self)@.has_id(e.id) ==> r == false && *final(self) == *old(self))
                    &&& (old(self)@.has_id(e.id) ==> r == true && final(self).token() != old(
                        self,
                    ).token() && final(self)@ == old(self)@.with_rank(
                        old(self)@.rank_of(e.id),
                        old(self)@.rank_recs(old(self)@.rank_of(e.id)).update(
                            old(self)@.index_of_id(e.id),
                            (TaskView {
                                id: e.id,
                                rank: old(self)@.rank_of(e.id),
                                value: e.value@,
                            }),
                        ),
                    ))
                },
                TaskEvent::Move(ref m) => {
                    &&& (!old(self)@.has_id(m.id) ==> r == false && *final(self) == *old(self))
                    &&& (old(self)@.has_id(m.id) ==> r == true && final(self).token() != old(
                        self,
                    ).token() && final(self)@ == old(self)@.remove_id(m.id).insert_rec(
                        (TaskView {
                            id: m.id,
                            rank: m.rank,
                            value: old(self)@.record_of(m.id).value,
                        }),
                        m.index,
                    ))
                },
                TaskEvent::Delete(ref d) => {
                    &&& (!old(self)@.has_id(d.id) ==> r == false && *final(self) == *old(self))
                    &&& (old(self)@.has_id(d.id) ==> r == true && final(self).token() != old(
                        self,
                    ).token() && final(self)@ == old(self)@.remove_id(d.id))
                },
            }),
    {
        let ghost pre = *self;
        match event {
            TaskEvent::Add(a) => {
                let id = self.fresh_unused_id();
                let task = TaskData::with_id(id, a.rank, a.value.clone());
                let _ = self.insert_task(task, None);
                self.bump_version();
                proof {
                    assert(task@ == (TaskView { id, rank: a.rank, value: a.value@ }));
                    assert(!pre@.has_id(id) && self@ == pre@.insert_rec(
                        (TaskView { id, rank: a.rank, value: a.value@ }),
                        None::<usize>,
                    ));
                    assert(exists|i2: u128|
                        !pre@.has_id(i2) && self@ == pre@.insert_rec(
                            (TaskView { id: i2, rank: a.rank, value: a.value@ }),
                            None::<usize>,
                        ));
                }
                true
            },
            TaskEvent::Edit(e) => {
                match self.remove_by_id(e.id) {
                    None => false,
                    Some((pos, mut task)) => {
                        let ghost mid = *self;
                        task.value = e.value.clone();
                        proof {
                            Self::lemma_removed_id_absent(pre, mid@, e.id);
                        }
                        let _ = self.insert_task(task, Some(pos));
                        self.bump_version();
                        proof {
                            let rk = pre@.rank_of(e.id);
                            let p = pre@.index_of_id(e.id);
                            pre.lemma_locate(e.id);
                            assert(task@.rank == rk);
                            assert(mid@.rank_recs(rk) == pre@.rank_recs(rk).remove(p)) by {
                                match rk {
                                    TaskRank::Primary => {},
                                    TaskRank::Secondary => {},
                                    TaskRank::Other => {},
                                }
                            }
                            assert(crate::view::seq_insert_clamped(
                                mid@.rank_recs(rk),
                                task@,
                                Some(pos),
                            ) == mid@.rank_recs(rk).insert(p, task@));
                            assert(pre@.rank_recs(rk).remove(p).insert(p, task@)
                                =~= pre@.rank_recs(rk).update(p, task@));
                            assert(self@ =~= pre@.with_rank(
                                rk,
                                pre@.rank_recs(rk).update(p, task@),
                            )) by {
                                match rk {
                                    TaskRank::Primary => {},
                                    TaskRank::Secondary => {},
                                    TaskRank::Other => {},
                                }
                            }
                        }
                        true
                    },
                }
            },
            TaskEvent::Move(m) => {
                match self.remove_by_id(m.id) {
                    None => false,
                    Some((_, mut task)) => {
                        let ghost mid = *self;
                        task.rank = m.rank;
                        proof {
                            Self::lemma_removed_id_absent(pre, mid@, m.id);
                        }
                        let _ = self.insert_task(task, m.index);
                        self.bump_version();
                        true
                    },
                }
            },
            TaskEvent::Delete(d) => {
                match self.remove_by_id(d.id) {
                    None => false,
                    Some(_) => {
                        self.bump_version();
                        true
                    },
                }
            },
        }
    }

    /// The three slot sequences are pairwise disjoint and together
    /// cover the record table exactly.
    proof fn lemma_partition(self)
        requires
            self.wf(),
        ensures
            self.table().dom() =~= self.order(TaskRank::Primary).to_set() + self.order(
                TaskRank::Secondary,
            ).to_set() + self.order(TaskRank::Other).to_set(),
            self.order(TaskRank::Primary).to_set().disjoint(
                self.order(TaskRank::Secondary).to_set(),
            ),
            (self.order(TaskRank::Primary).to_set() + self.order(
                TaskRank::Secondary,
            ).to_set()).disjoint(self.order(TaskRank::Other).to_set()),
            self.order(TaskRank::Primary).no_duplicates(),
            self.order(TaskRank::Secondary).no_duplicates(),
            self.order(TaskRank::Other).no_duplicates(),
    {
        let qp = self.order(TaskRank::Primary);
        let qs = self.order(TaskRank::Secondary);
        let qo = self.order(TaskRank::Other);
        assert forall|slot: usize| #[trigger] self.table().dom().contains(slot) implies (qp.to_set()
            + qs.to_set() + qo.to_set()).contains(slot) by {
            let rk = self.table()[slot]@.rank;
            assert(self.order(rk).contains(slot));
            match rk {
                TaskRank::Primary => {},
                TaskRank::Secondary => {},
                TaskRank::Other => {},
            }
        }
    }

    /// Every reachable well-formed store keeps its three structures at
    /// one size: the identity index, the record table, and the rank
    /// sequences summed over all ranks hold the same number of
    /// entries, and that number is the view's total length.
    pub proof fn lemma_index_sizes_agree(self)
        requires
            self.wf(),
        ensures
            self.identity().dom().len() == self.table().dom().len(),
            self.table().dom().len() == self.order(TaskRank::Primary).len() + self.order(
                TaskRank::Secondary,
            ).len() + self.order(TaskRank::Other).len(),
            self@.total_len() == self.table().dom().len(),
    {
        broadcast use vstd::seq_lib::seq_to_set_is_finite;

        let qp = self.order(TaskRank::Primary);
        let qs = self.order(TaskRank::Secondary);
        let qo = self.order(TaskRank::Other);
        // identity and table: mutually inverse, so equally many entries
        let f = |slot: usize| self.table()[slot]@.id;
        assert(self.table().dom().map(f) =~= self.identity().dom());
        assert(vstd::relations::injective_on(f, self.table().dom())) by {
            assert forall|s1: usize, s2: usize|
                self.table().dom().contains(s1) && self.table().dom().contains(s2) && #[trigger] f(
                    s1,
                ) == #[trigger] f(s2) implies s1 == s2 by {
                assert(self.identity()[f(s1)] == s1 && self.identity()[f(s2)] == s2);
            }
        }
        vstd::set_lib::lemma_map_size(self.table().dom(), self.identity().dom(), f);
        // the rank sequences partition the table
        self.lemma_partition();
        qp.unique_seq_to_set();
        qs.unique_seq_to_set();
        qo.unique_seq_to_set();
        vstd::set_lib::lemma_set_disjoint_lens(qp.to_set(), qs.to_set());
        vstd::set_lib::lemma_set_disjoint_lens(qp.to_set() + qs.to_set(), qo.to_set());
        // the view's sequences are as long as the slot sequences
        self.lemma_rank_recs(TaskRank::Primary);
        self.lemma_rank_recs(TaskRank::Secondary);
        self.lemma_rank_recs(TaskRank::Other);
    }

    /// Every occupied slot stands in exactly one rank sequence, at
    /// exactly one position, and is pointed at by exactly one identity
    /// entry.
    pub proof fn lemma_slot_unique(self, slot: usize)
        requires
            self.wf(),
            self.table().dom().contains(slot),
        ensures
            self.order(self.table()[slot]@.rank).contains(slot),
            self.identity().dom().contains(self.table()[slot]@.id),
            self.identity()[self.table()[slot]@.id] == slot,
            forall|r1: TaskRank, i1: int, r2: TaskRank, i2: int|
                0 <= i1 < self.order(r1).len() && 0 <= i2 < self.order(r2).len()
                    && #[trigger] self.order(r1)[i1] == slot && #[trigger] self.order(r2)[i2]
                    == slot ==> r1 == r2 && i1 == i2,
            forall|id2: u128|
                #[trigger] self.identity().dom().contains(id2) && self.identity()[id2] == slot
                    ==> id2 == self.table()[slot]@.id,
    {
        assert forall|r1: TaskRank, i1: int, r2: TaskRank, i2: int|
            0 <= i1 < self.order(r1).len() && 0 <= i2 < self.order(r2).len()
                && #[trigger] self.order(r1)[i1] == slot && #[trigger] self.order(r2)[i2]
                == slot implies r1 == r2 && i1 == i2 by {
            assert(self.table()[slot]@.rank == r1);
            assert(self.table()[slot]@.rank == r2);
            if i1 < i2 {
                assert(self.order(r1)[i1] != self.order(r1)[i2]);
            } else if i2 < i1 {
                assert(self.order(r1)[i2] != self.order(r1)[i1]);
            }
        }
        assert forall|id2: u128|
            #[trigger] self.identity().dom().contains(id2) && self.identity()[id2]
                == slot implies id2 == self.table()[slot]@.id by {
            assert(self.table()[self.identity()[id2]]@.id == id2);
        }
    }

    /// If every identifier below `k` is indexed, the index holds at
    /// least `k` entries.
    proof fn lemma_prefix_card(dom: Set<u128>, k: u128)
        requires
            dom.finite(),
            forall|j: u128| j < k ==> dom.contains(j),
        ensures
            k <= dom.len(),
        decreases k,
    {
        if k > 0 {
            let prev = (k - 1) as u128;
            let d2 = dom.remove(prev);
            Self::lemma_prefix_card(d2, prev);
            assert(dom.contains(prev));
            assert(d2.len() == dom.len() - 1);
        }
    }

    /// An identifier that no record of the store carries. A random
    /// draw is tried first; if the draw collides, small values are
    /// scanned, and one of them must be free because the store holds
    /// finitely many records.
    fn fresh_unused_id(&self) -> (id: u128)
        requires
            self.wf(),
        ensures
            !self@.has_id(id),
    {
        let id0 = fresh_id_bits();
        if !self.contains_id(id0) {
            return id0;
        }
        let np = self.rank_len(TaskRank::Primary);
        let ns = self.rank_len(TaskRank::Secondary);
        let no = self.rank_len(TaskRank::Other);
        proof {
            self.lemma_index_sizes_agree();
        }
        let mut k: u128 = 0;
        while self.contains_id(k)
            invariant
                self.wf(),
                self.identity().dom().len() == (np as int) + (ns as int) + (no as int),
                forall|j: u128| j < k ==> self.identity().dom().contains(j),
                k <= self.identity().dom().len(),
            decreases self.identity().dom().len() - k,
        {
            proof {
                self.lemma_has_id_iff(k);
                assert(self.identity().dom().contains(k));
                Self::lemma_prefix_card(self.identity().dom(), (k + 1) as u128);
            }
            k = k + 1;
        }
        k
    }

    /// A well-formed store has a well-formed view: every record stands
    /// in the sequence of its own rank, and no identifier repeats
    /// anywhere.
    pub proof fn lemma_view_wf(self)
        requires
            self.wf(),
        ensures
            self@.wf(),
    {
        self.lemma_rank_recs(TaskRank::Primary);
        self.lemma_rank_recs(TaskRank::Secondary);
        self.lemma_rank_recs(TaskRank::Other);
        assert forall|i: int| 0 <= i < self@.primary.len() implies (#[trigger] self@.primary[i]).rank
            == TaskRank::Primary by {
            assert(self.table()[self.order(TaskRank::Primary)[i]]@.rank == TaskRank::Primary);
        }
        assert forall|i: int|
            0 <= i < self@.secondary.len() implies (#[trigger] self@.secondary[i]).rank
            == TaskRank::Secondary by {
            assert(self.table()[self.order(TaskRank::Secondary)[i]]@.rank == TaskRank::Secondary);
        }
        assert forall|i: int| 0 <= i < self@.other.len() implies (#[trigger] self@.other[i]).rank
            == TaskRank::Other by {
            assert(self.table()[self.order(TaskRank::Other)[i]]@.rank == TaskRank::Other);
        }
        let np = self@.primary.len() as int;
        let ns = self@.secondary.len() as int;
        assert forall|i: int, j: int|
            0 <= i < j < self@.flat().len() implies (#[trigger] self@.flat()[i]).id != (
        #[trigger] self@.flat()[j]).id by {
            let ri = if i < np {
                TaskRank::Primary
            } else if i < np + ns {
                TaskRank::Secondary
            } else {
                TaskRank::Other
            };
            let ki = if i < np {
                i
            } else if i < np + ns {
                i - np
            } else {
                i - np - ns
            };
            let rj = if j < np {
                TaskRank::Primary
            } else if j < np + ns {
                TaskRank::Secondary
            } else {
                TaskRank::Other
            };
            let kj = if j < np {
                j
            } else if j < np + ns {
                j - np
            } else {
                j - np - ns
            };
            assert(self@.flat()[i] == self@.rank_recs(ri)[ki]);
            assert(self@.flat()[j] == self@.rank_recs(rj)[kj]);
            if (self@.flat()[i]).id == (self@.flat()[j]).id {
                let x = (self@.flat()[i]).id;
                self.lemma_id_rank_unique(x, ri, ki);
                self.lemma_id_rank_unique(x, rj, kj);
                assert(self.order(ri)[ki] == self.order(rj)[kj]);
                assert(self.table()[self.order(ri)[ki]]@.rank == ri);
                assert(self.table()[self.order(rj)[kj]]@.rank == rj);
                assert(ri == rj);
                assert(ki < kj);
                assert(self.order(ri)[ki] != self.order(ri)[kj]);
            }
        }
    }

    /// Remove every record of one rank, in order, and hand the removed
    /// records back in that order. The other ranks are untouched.
    fn drain_rank(&mut self, r: TaskRank) -> (out: Vec<TaskData>)
        requires
            old(self).wf(),
        ensures
            final(self).wf(),
            final(self)@ == old(self)@.with_rank(r, Seq::empty()),
            views_of(out@) == old(self)@.rank_recs(r),
            final(self).token() == old(self).token(),
    {
        let ghost pre = *self;
        let mut out: Vec<TaskData> = Vec::new();
        let n = self.rank_len(r);
        proof {
            self.lemma_rank_recs(r);
            assert(pre@.with_rank(r, pre@.rank_recs(r).skip(0)) =~= pre@) by {
                match r {
                    TaskRank::Primary => {},
                    TaskRank::Secondary => {},
                    TaskRank::Other => {},
                }
            }
        }
        let mut k: usize = 0;
        while k < n
            invariant
                self.wf(),
                k <= n,
                n == pre@.rank_recs(r).len(),
                self@ == pre@.with_rank(r, pre@.rank_recs(r).skip(k as int)),
                out@.len() == k,
                views_of(out@) == pre@.rank_recs(r).take(k as int),
                self.token() == pre.token(),
            decreases n - k,
        {
            proof {
                self.lemma_rank_recs(r);
                crate::view::lemma_with_rank_recs(pre@, r, pre@.rank_recs(r).skip(k as int), r);
                assert(self@.rank_recs(r) == pre@.rank_recs(r).skip(k as int));
                assert(self.order(r).len() == n - k);
            }
            let slot = match self.rank_get(r, 0) {
                Some(s) => s,
                None => unreached(),
            };
            let t = match arena_get(&self.store, slot) {
                Some(t) => t,
                None => unreached(),
            };
            let id = t.id();
            proof {
                assert(self@.rank_recs(r)[0] == self.table()[slot]@);
                assert(seq_has_id(self@.rank_recs(r), id));
                assert(self@.has_id(id)) by {
                    match r {
                        TaskRank::Primary => {},
                        TaskRank::Secondary => {},
                        TaskRank::Other => {},
                    }
                }
                self.lemma_locate(id);
                assert(self@.rank_of(id) == r);
                assert(self@.index_of_id(id) == 0);
            }
            let ghost cur = *self;
            let task = match self.remove_by_id(id) {
                Some((_, t2)) => t2,
                None => unreached(),
            };
            out.push(task);
            proof {
                assert(task@ == pre@.rank_recs(r).skip(k as int)[0]);
                assert(task@ == pre@.rank_recs(r)[k as int]);
                assert(views_of(out@) =~= pre@.rank_recs(r).take(
                    k as int + 1,
                ));
                assert(cur@.rank_recs(r).remove(0) =~= pre@.rank_recs(r).skip(k as int + 1));
                assert(self@ =~= pre@.with_rank(r, pre@.rank_recs(r).skip(k as int + 1))) by {
                    crate::view::lemma_with_rank_recs(
                        cur@,
                        r,
                        cur@.rank_recs(r).remove(0),
                        TaskRank::Primary,
                    );
                    crate::view::lemma_with_rank_recs(
                        cur@,
                        r,
                        cur@.rank_recs(r).remove(0),
                        TaskRank::Secondary,
                    );
                    crate::view::lemma_with_rank_recs(
                        cur@,
                        r,
                        cur@.rank_recs(r).remove(0),
                        TaskRank::Other,
                    );
                    match r {
                        TaskRank::Primary => {},
                        TaskRank::Secondary => {},
                        TaskRank::Other => {},
                    }
                }
            }
            k = k + 1;
        }
        proof {
            assert(pre@.rank_recs(r).skip(n as int) =~= Seq::<TaskView>::empty());
            assert(pre@.rank_recs(r).take(n as int) =~= pre@.rank_recs(r));
        }
        out
    }

    /// Delete every record currently in the given rank; the other
    /// ranks are untouched and the version token changes.
    pub fn burn_tasks(&mut self, rank: TaskRank)
        requires
            old(self).wf(),
        ensures
            final(self).wf(),
            final(self)@ == old(self)@.with_rank(rank, Seq::empty()),
            final(self).token() != old(self).token(),
    {
        let _ = self.drain_rank(rank);
        self.bump_version();
    }

    /// Append the given records, re-tagged to the target rank, at the
    /// tail of that rank's sequence, in the order given. The records'
    /// identifiers must be absent from the store and pairwise
    /// distinct.
    fn refill_rank(&mut self, tasks: &Vec<TaskData>, target: TaskRank)
        requires
            old(self).wf(),
            forall|idx: int|
                0 <= idx < tasks@.len() ==> !old(self)@.has_id((#[trigger] tasks@[idx])@.id),
            forall|i: int, j: int|
                0 <= i < j < tasks@.len() ==> tasks@[i]@.id != tasks@[j]@.id,
        ensures
            final(self).wf(),
            final(self)@ == old(self)@.with_rank(
                target,
                old(self)@.rank_recs(target) + crate::view::re_rank(
                    views_of(tasks@),
                    target,
                ),
            ),
            final(self).token() == old(self).token(),
    {
        let ghost pre = *self;
        let ghost tvs = views_of(tasks@);
        proof {
            assert(pre@.with_rank(
                target,
                pre@.rank_recs(target) + crate::view::re_rank(tvs.take(0), target),
            ) =~= pre@) by {
                assert(pre@.rank_recs(target) + crate::view::re_rank(tvs.take(0), target)
                    =~= pre@.rank_recs(target));
                match target {
                    TaskRank::Primary => {},
                    TaskRank::Secondary => {},
                    TaskRank::Other => {},
                }
            }
        }
        let mut i: usize = 0;
        while i < tasks.len()
            invariant
                self.wf(),
                i <= tasks@.len(),
                tvs == views_of(tasks@),
                forall|idx: int| 0 <= idx < tasks@.len() ==> !pre@.has_id((#[trigger] tasks@[idx])@.id),
                forall|i2: int, j2: int|
                    0 <= i2 < j2 < tasks@.len() ==> tasks@[i2]@.id != tasks@[j2]@.id,
                self@ == pre@.with_rank(
                    target,
                    pre@.rank_recs(target) + crate::view::re_rank(tvs.take(i as int), target),
                ),
                forall|idx: int| i <= idx < tasks@.len() ==> !self@.has_id((#[trigger] tasks@[idx])@.id),
                self.token() == pre.token(),
            decreases tasks@.len() - i,
        {
            let mut t = tasks[i].clone();
            t.rank = target;
            let ghost cur = *self;
            let _ = self.insert_task(t, None);
            proof {
                let tv = t@;
                assert(tv == (TaskView { id: tvs[i as int].id, rank: target, value: tvs[i as int].value }));
                assert(!cur@.has_id(tv.id));
                assert(self@ == cur@.with_rank(target, cur@.rank_recs(target).push(tv))) by {
                    assert(crate::view::seq_insert_clamped(cur@.rank_recs(target), tv, None::<usize>)
                        == cur@.rank_recs(target).push(tv));
                }
                assert(self@ =~= pre@.with_rank(
                    target,
                    pre@.rank_recs(target) + crate::view::re_rank(tvs.take(i as int + 1), target),
                )) by {
                    crate::view::lemma_with_rank_recs(
                        pre@,
                        target,
                        pre@.rank_recs(target) + crate::view::re_rank(tvs.take(i as int), target),
                        target,
                    );
                    assert(cur@.rank_recs(target).push(tv) =~= pre@.rank_recs(target)
                        + crate::view::re_rank(tvs.take(i as int + 1), target));
                    match target {
                        TaskRank::Primary => {},
                        TaskRank::Secondary => {},
                        TaskRank::Other => {},
                    }
                }
                assert forall|idx: int|
                    i + 1 <= idx < tasks@.len() implies !self@.has_id(
                    (#[trigger] tasks@[idx])@.id) by {
                    crate::view::lemma_has_id_push(cur@, target, tv, tasks@[idx]@.id);
                }
            }
            i = i + 1;
        }
        proof {
            assert(tvs.take(tasks@.len() as int) =~= tvs);
        }
    }

    /// Exchange the entire contents of two ranks, preserving each
    /// side's internal order: the sequence previously in the first
    /// rank becomes, re-tagged, the content of the second, and the
    /// other way round. The version token changes.
    pub fn swap_tasks(&mut self, rank1: TaskRank, rank2: TaskRank)
        requires
            old(self).wf(),
        ensures
            final(self).wf(),
            final(self)@ == crate::view::swap_spec(old(self)@, rank1, rank2),
            final(self).token() != old(self).token(),
    {
        let ghost pre = *self;
        proof {
            pre.lemma_view_wf();
        }
        let tasks1 = self.drain_rank(rank1);
        let ghost v1 = self@;
        let tasks2 = self.drain_rank(rank2);
        let ghost v2 = self@;
        let ghost tv1 = pre@.rank_recs(rank1);
        let ghost tv2 = v1.rank_recs(rank2);
        proof {
            Self::lemma_swap_fill_pre(pre, v1, v2, tasks1@, tasks2@, rank1, rank2);
        }
        self.refill_rank(&tasks1, rank2);
        let ghost v3 = self@;
        proof {
            Self::lemma_swap_fill_mid(pre, v1, v2, v3, tasks1@, tasks2@, rank1, rank2);
        }
        self.refill_rank(&tasks2, rank1);
        proof {
            Self::lemma_swap_done(pre, v1, v2, v3, self@, tasks1@, tasks2@, rank1, rank2);
        }
        self.bump_version();
    }

    /// After both ranks are drained, the identifiers of the first
    /// drained sequence are pairwise distinct and absent from the
    /// store.
    proof fn lemma_swap_fill_pre(
        pre: DataBase,
        v1: StoreView,
        v2: StoreView,
        ts1: Seq<TaskData>,
        ts2: Seq<TaskData>,
        rank1: TaskRank,
        rank2: TaskRank,
    )
        requires
            pre.wf(),
            v1 == pre@.with_rank(rank1, Seq::<TaskView>::empty()),
            v2 == v1.with_rank(rank2, Seq::<TaskView>::empty()),
            views_of(ts1) == pre@.rank_recs(rank1),
        ensures
            forall|idx: int| 0 <= idx < ts1.len() ==> !v2.has_id((#[trigger] ts1[idx])@.id),
            forall|i: int, j: int| 0 <= i < j < ts1.len() ==> ts1[i]@.id != ts1[j]@.id,
    {
        pre.lemma_view_wf();
        let pv = pre@;
        assert forall|i: int, j: int| 0 <= i < j < ts1.len() implies ts1[i]@.id != ts1[j]@.id by {
            crate::view::lemma_distinct_ids(pv, rank1, i, rank1, j);
        }
        assert forall|rr: TaskRank| true implies v2.rank_recs(rr) == (if rr == rank2 || rr == rank1 {
            Seq::<TaskView>::empty()
        } else {
            pv.rank_recs(rr)
        }) by {
            crate::view::lemma_with_rank_recs(pv, rank1, Seq::<TaskView>::empty(), rr);
            crate::view::lemma_with_rank_recs(v1, rank2, Seq::<TaskView>::empty(), rr);
        }
        assert forall|idx: int| 0 <= idx < ts1.len() implies !v2.has_id(
            (#[trigger] ts1[idx])@.id) by {
            let id = ts1[idx]@.id;
            assert(pv.rank_recs(rank1)[idx].id == id);
            if v2.has_id(id) {
                assert forall|rr: TaskRank| !seq_has_id(#[trigger] v2.rank_recs(rr), id) by {
                    if seq_has_id(v2.rank_recs(rr), id) {
                        assert(!(rr == rank1 || rr == rank2));
                        let j = seq_find_id(v2.rank_recs(rr), id);
                        assert(pv.rank_recs(rr)[j].id == id);
                        crate::view::lemma_distinct_ids(pv, rank1, idx, rr, j);
                    }
                }
                assert(!seq_has_id(v2.rank_recs(TaskRank::Primary), id));
                assert(!seq_has_id(v2.rank_recs(TaskRank::Secondary), id));
                assert(!seq_has_id(v2.rank_recs(TaskRank::Other), id));
            }
        }
    }

    /// After the first rank's records are re-added under the second
    /// rank, the identifiers of the second drained sequence are still
    /// pairwise distinct and absent from the store.
    proof fn lemma_swap_fill_mid(
        pre: DataBase,
        v1: StoreView,
        v2: StoreView,
        v3: StoreView,
        ts1: Seq<TaskData>,
        ts2: Seq<TaskData>,
        rank1: TaskRank,
        rank2: TaskRank,
    )
        requires
            pre.wf(),
            v1 == pre@.with_rank(rank1, Seq::<TaskView>::empty()),
            v2 == v1.with_rank(rank2, Seq::<TaskView>::empty()),
            v3 == v2.with_rank(
                rank2,
                v2.rank_recs(rank2) + crate::view::re_rank(
                    views_of(ts1),
                    rank2,
                ),
            ),
            views_of(ts1) == pre@.rank_recs(rank1),
            views_of(ts2) == v1.rank_recs(rank2),
        ensures
            forall|idx: int| 0 <= idx < ts2.len() ==> !v3.has_id((#[trigger] ts2[idx])@.id),
            forall|i: int, j: int| 0 <= i < j < ts2.len() ==> ts2[i]@.id != ts2[j]@.id,
    {
        pre.lemma_view_wf();
        let pv = pre@;
        crate::view::lemma_with_rank_recs(pv, rank1, Seq::<TaskView>::empty(), rank2);
        if rank1 == rank2 {
            assert(ts2.len() == 0);
        } else {
            assert(v1.rank_recs(rank2) == pv.rank_recs(rank2));
            assert forall|i: int, j: int|
                0 <= i < j < ts2.len() implies ts2[i]@.id != ts2[j]@.id by {
                crate::view::lemma_distinct_ids(pv, rank2, i, rank2, j);
            }
            assert forall|rr: TaskRank| true implies v3.rank_recs(rr) == (if rr == rank2 {
                v2.rank_recs(rank2) + crate::view::re_rank(
                    views_of(ts1),
                    rank2,
                )
            } else if rr == rank1 {
                Seq::<TaskView>::empty()
            } else {
                pv.rank_recs(rr)
            }) by {
                crate::view::lemma_with_rank_recs(pv, rank1, Seq::<TaskView>::empty(), rr);
                crate::view::lemma_with_rank_recs(v1, rank2, Seq::<TaskView>::empty(), rr);
                crate::view::lemma_with_rank_recs(
                    v2,
                    rank2,
                    v2.rank_recs(rank2) + crate::view::re_rank(
                        views_of(ts1),
                        rank2,
                    ),
                    rr,
                );
            }
            assert(v2.rank_recs(rank2) == Seq::<TaskView>::empty());
            assert forall|idx: int| 0 <= idx < ts2.len() implies !v3.has_id(
                (#[trigger] ts2[idx])@.id) by {
                let id = ts2[idx]@.id;
                assert(pv.rank_recs(rank2)[idx].id == id);
                if v3.has_id(id) {
                    assert forall|rr: TaskRank| !seq_has_id(#[trigger] v3.rank_recs(rr), id) by {
                        if seq_has_id(v3.rank_recs(rr), id) {
                            let j = seq_find_id(v3.rank_recs(rr), id);
                            if rr == rank2 {
                                let tvs = views_of(ts1);
                                assert(v3.rank_recs(rr)[j] == (Seq::<TaskView>::empty()
                                    + crate::view::re_rank(tvs, rank2))[j]);
                                assert(v3.rank_recs(rr)[j] == crate::view::re_rank(tvs, rank2)[j]);
                                assert(pv.rank_recs(rank1)[j].id == id);
                                crate::view::lemma_distinct_ids(pv, rank2, idx, rank1, j);
                            } else if rr == rank1 {
                                assert(false);
                            } else {
                                assert(pv.rank_recs(rr)[j].id == id);
                                crate::view::lemma_distinct_ids(pv, rank2, idx, rr, j);
                            }
                        }
                    }
                    assert(!seq_has_id(v3.rank_recs(TaskRank::Primary), id));
                    assert(!seq_has_id(v3.rank_recs(TaskRank::Secondary), id));
                    assert(!seq_has_id(v3.rank_recs(TaskRank::Other), id));
                }
            }
        }
    }

    /// Re-adding both drained sequences, each under the other rank,
    /// yields exactly the exchanged store.
    proof fn lemma_swap_done(
        pre: DataBase,
        v1: StoreView,
        v2: StoreView,
        v3: StoreView,
        v4: StoreView,
        ts1: Seq<TaskData>,
        ts2: Seq<TaskData>,
        rank1: TaskRank,
        rank2: TaskRank,
    )
        requires
            pre.wf(),
            v1 == pre@.with_rank(rank1, Seq::<TaskView>::empty()),
            v2 == v1.with_rank(rank2, Seq::<TaskView>::empty()),
            v3 == v2.with_rank(
                rank2,
                v2.rank_recs(rank2) + crate::view::re_rank(
                    views_of(ts1),
                    rank2,
                ),
            ),
            v4 == v3.with_rank(
                rank1,
                v3.rank_recs(rank1) + crate::view::re_rank(
                    views_of(ts2),
                    rank1,
                ),
            ),
            views_of(ts1) == pre@.rank_recs(rank1),
            views_of(ts2) == v1.rank_recs(rank2),
        ensures
            v4 == crate::view::swap_spec(pre@, rank1, rank2),
    {
        let pv = pre@;
        let tv1 = views_of(ts1);
        let tv2 = views_of(ts2);
        crate::view::lemma_with_rank_recs(pv, rank1, Seq::<TaskView>::empty(), rank2);
        assert forall|rr: TaskRank| true implies v2.rank_recs(rr) == (if rr == rank2 || rr == rank1 {
            Seq::<TaskView>::empty()
        } else {
            pv.rank_recs(rr)
        }) by {
            crate::view::lemma_with_rank_recs(pv, rank1, Seq::<TaskView>::empty(), rr);
            crate::view::lemma_with_rank_recs(v1, rank2, Seq::<TaskView>::empty(), rr);
        }
        assert forall|rr: TaskRank| true implies v3.rank_recs(rr) == (if rr == rank2 {
            v2.rank_recs(rank2) + crate::view::re_rank(tv1, rank2)
        } else {
            v2.rank_recs(rr)
        }) by {
            crate::view::lemma_with_rank_recs(
                v2,
                rank2,
                v2.rank_recs(rank2) + crate::view::re_rank(tv1, rank2),
                rr,
            );
        }
        assert forall|rr: TaskRank| true implies v4.rank_recs(rr) == (if rr == rank1 {
            v3.rank_recs(rank1) + crate::view::re_rank(tv2, rank1)
        } else {
            v3.rank_recs(rr)
        }) by {
            crate::view::lemma_with_rank_recs(
                v3,
                rank1,
                v3.rank_recs(rank1) + crate::view::re_rank(tv2, rank1),
                rr,
            );
        }
        if rank1 == rank2 {
            assert(tv2 =~= Seq::<TaskView>::empty());
            assert(v4.rank_recs(rank1) =~= crate::view::re_rank(tv1, rank1)) by {
                assert(crate::view::re_rank(tv2, rank1) =~= Seq::<TaskView>::empty());
            }
            let w = crate::view::swap_spec(pv, rank1, rank2);
            assert forall|rr: TaskRank| true implies w.rank_recs(rr) == (if rr == rank1 {
                crate::view::re_rank(pv.rank_recs(rank1), rank1)
            } else {
                pv.rank_recs(rr)
            }) by {
                crate::view::lemma_with_rank_recs(
                    pv,
                    rank1,
                    crate::view::re_rank(pv.rank_recs(rank1), rank1),
                    rr,
                );
            }
            assert(v4.rank_recs(TaskRank::Primary) == w.rank_recs(TaskRank::Primary));
            assert(v4.rank_recs(TaskRank::Secondary) == w.rank_recs(TaskRank::Secondary));
            assert(v4.rank_recs(TaskRank::Other) == w.rank_recs(TaskRank::Other));
            assert(v4 =~= w);
        } else {
            assert(v1.rank_recs(rank2) == pv.rank_recs(rank2));
            assert(v4.rank_recs(rank1) =~= crate::view::re_rank(pv.rank_recs(rank2), rank1));
            assert(v4.rank_recs(rank2) =~= crate::view::re_rank(pv.rank_recs(rank1), rank2));
            let w = crate::view::swap_spec(pv, rank1, rank2);
            let w1 = pv.with_rank(rank1, crate::view::re_rank(pv.rank_recs(rank2), rank1));
            assert forall|rr: TaskRank| true implies w.rank_recs(rr) == (if rr == rank2 {
                crate::view::re_rank(pv.rank_recs(rank1), rank2)
            } else if rr == rank1 {
                crate::view::re_rank(pv.rank_recs(rank2), rank1)
            } else {
                pv.rank_recs(rr)
            }) by {
                crate::view::lemma_with_rank_recs(
                    pv,
                    rank1,
                    crate::view::re_rank(pv.rank_recs(rank2), rank1),
                    rr,
                );
                crate::view::lemma_with_rank_recs(
                    w1,
                    rank2,
                    crate::view::re_rank(pv.rank_recs(rank1), rank2),
                    rr,
                );
            }
            assert(v4.rank_recs(TaskRank::Primary) == w.rank_recs(TaskRank::Primary));
            assert(v4.rank_recs(TaskRank::Secondary) == w.rank_recs(TaskRank::Secondary));
            assert(v4.rank_recs(TaskRank::Other) == w.rank_recs(TaskRank::Other));
            assert(v4 =~= w);
        }
    }

    /// The fixed built-in store used when no valid persisted
    /// representation exists: a single seed record in the Primary
    /// rank.
    pub fn seeded() -> (db: DataBase)
        ensures
            db.wf(),
            db@.primary.len() == 1,
            db@.primary[0].rank == TaskRank::Primary,
            db@.primary[0].value == seed_text(),
            db@.secondary == Seq::<TaskView>::empty(),
            db@.other == Seq::<TaskView>::empty(),
    {
        let mut db = DataBase::default();
        let _ = db.apply_event(
            &TaskEvent::Add(
                TaskAddData {
                    rank: TaskRank::Primary,
                    value: "Hello! BurnerList is a simple, intentionally constrained list.".to_owned(),
                },
            ),
        );
        proof {
            let tv = choose|id: u128|
                !StoreView::empty_store().has_id(id) && db@ == StoreView::empty_store().insert_rec(
                    (TaskView {
                        id,
                        rank: TaskRank::Primary,
                        value: seed_text(),
                    }),
                    None::<usize>,
                );
            assert(db@.primary =~= Seq::<TaskView>::empty().push(
                (TaskView { id: tv, rank: TaskRank::Primary, value: seed_text() }),
            ));
        }
        db
    }

    /// Is a record with this identifier in the store?
    pub(crate) fn contains_id(&self, id: u128) -> (r: bool)
        requires
            self.wf(),
        ensures
            r == self@.has_id(id),
    {
        proof {
            self.lemma_has_id_iff(id);
        }
        match index_get(&self.id_index, id) {
            Some(_) => true,
            None => false,
        }
    }

    /// The records of one rank, in the rank's order.
    pub fn get_by_rank(&self, rank: TaskRank) -> (res: Vec<&TaskData>)
        requires
            self.wf(),
        ensures
            res@.len() == self@.rank_recs(rank).len(),
            forall|i: int| 0 <= i < res@.len() ==> (#[trigger] res@[i])@ == self@.rank_recs(rank)[i],
    {
        let n = self.rank_len(rank);
        proof {
            self.lemma_rank_recs(rank);
        }
        let mut out: Vec<&TaskData> = Vec::new();
        let mut k: usize = 0;
        while k < n
            invariant
                self.wf(),
                k <= n,
                n == self.order(rank).len(),
                n == self@.rank_recs(rank).len(),
                out@.len() == k,
                forall|i: int| 0 <= i < k ==> (#[trigger] out@[i])@ == self@.rank_recs(rank)[i],
            decreases n - k,
        {
            let slot = match self.rank_get(rank, k) {
                Some(s) => s,
                None => unreached(),
            };
            proof {
                assert(self.table().dom().contains(slot));
            }
            let t = match arena_get(&self.store, slot) {
                Some(t) => t,
                None => unreached(),
            };
            proof {
                self.lemma_rank_recs(rank);
                assert(self@.rank_recs(rank)[k as int] == self.table()[slot]@);
            }
            out.push(t);
            k = k + 1;
        }
        out
    }

    /// Append clones of one rank's records, in order, to a list.
    fn append_rank(&self, out: &mut Vec<TaskData>, rank: TaskRank)
        requires
            self.wf(),
        ensures
            views_of(final(out)@) == views_of(old(out)@) + self@.rank_recs(rank),
    {
        let ghost base = out@;
        let n = self.rank_len(rank);
        proof {
            self.lemma_rank_recs(rank);
            assert(views_of(base) + self@.rank_recs(rank).take(0)
                =~= views_of(base));
        }
        let mut k: usize = 0;
        while k < n
            invariant
                self.wf(),
                k <= n,
                n == self.order(rank).len(),
                n == self@.rank_recs(rank).len(),
                views_of(out@) == views_of(base)
                    + self@.rank_recs(rank).take(k as int),
            decreases n - k,
        {
            let slot = match self.rank_get(rank, k) {
                Some(s) => s,
                None => unreached(),
            };
            proof {
                assert(self.table().dom().contains(slot));
            }
            let t = match arena_get(&self.store, slot) {
                Some(t) => t,
                None => unreached(),
            };
            let ghost prev = out@;
            out.push(t.clone());
            proof {
                self.lemma_rank_recs(rank);
                assert(self@.rank_recs(rank)[k as int] == self.table()[slot]@);
                assert(out@ == prev.push(*t));
                assert(views_of(out@) =~= views_of(prev).push((*t)@));
                assert(self@.rank_recs(rank).take(k as int + 1) =~= self@.rank_recs(rank).take(
                    k as int,
                ).push(self@.rank_recs(rank)[k as int]));
                assert(views_of(out@) =~= views_of(base) + self@.rank_recs(rank).take(k as int + 1));
            }
            k = k + 1;
        }
        proof {
            assert(self@.rank_recs(rank).take(n as int) =~= self@.rank_recs(rank));
        }
    }

    /// Flatten the store into its canonical ordered list: ranks in
    /// priority order, each rank's records in the rank's own order,
    /// each record cloned with its identifier retained.
    pub fn to_ordered_tasks(&self) -> (res: Vec<TaskData>)
        requires
            self.wf(),
        ensures
            views_of(res@) == self@.flat(),
    {
        let mut out: Vec<TaskData> = Vec::new();
        self.append_rank(&mut out, TaskRank::Primary);
        self.append_rank(&mut out, TaskRank::Secondary);
        self.append_rank(&mut out, TaskRank::Other);
        proof {
            assert(views_of(Seq::<TaskData>::empty()) =~= Seq::<TaskView>::empty());
            assert(views_of(out@) =~= self@.flat());
        }
        out
    }

    /// Look a record up by its permanent identifier.
    pub fn get_by_id(&self, id: u128) -> (r: Option<&TaskData>)
        requires
            self.wf(),
        ensures
            (match r {
                Some(t) => self@.has_id(id) && t@ == self@.record_of(id),
                None => !self@.has_id(id),
            }),
    {
        proof {
            self.lemma_has_id_iff(id);
        }
        match index_get(&self.id_index, id) {
            None => None,
            Some(slot) => {
                proof {
                    self.lemma_locate(id);
                }
                match arena_get(&self.store, slot) {
                    Some(t) => Some(t),
                    None => None,
                }
            },
        }
    }
}

impl Default for DataBase {
    /// The store with no records and the version token at zero.
    fn default() -> (r: Self)
        ensures
            r.wf(),
            r@ == StoreView::empty_store(),
            r.token() == 0,
    {
        let r = DataBase {
            store: arena_new(),
            id_index: index_new(),
            primary: order_new(),
            secondary: order_new(),
            other: order_new(),
            version: 0,
        };
        proof {
            assert(r@.primary =~= Seq::<TaskView>::empty());
            assert(r@.secondary =~= Seq::<TaskView>::empty());
            assert(r@.other =~= Seq::<TaskView>::empty());
            assert(r@ =~= StoreView::empty_store());
        }
        r
    }
}

impl PartialEq for DataBase {
    /// As in the original store, equality is version-token equality:
    /// a cheap dirty check, not a content comparison.
    fn eq(&self, other: &Self) -> bool {
        self.version == other.version
    }
}

impl vstd::std_specs::cmp::PartialEqSpecImpl for DataBase {
    open spec fn obeys_eq_spec() -> bool {
        true
    }

    open spec fn eq_spec(&self, other: &Self) -> bool {
        self.token() == other.token()
    }
}

} // verus!
