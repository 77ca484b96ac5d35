use vstd::prelude::*;

use crate::rank::TaskRank;
use crate::store::{views_of, DataBase};
use crate::task::{TaskData, TaskView};
use crate::view::{seq_find_id, seq_has_id, StoreView};

verus! {

/// The store that replaying an ordered record list builds: each record
/// is appended at the tail of its own rank's sequence, in list order.
/// A record whose identifier was already seen is dropped.
pub open spec fn replay(s: Seq<TaskView>) -> StoreView
    decreases s.len(),
{
    if s.len() == 0 {
        StoreView::empty_store()
    } else {
        let v = replay(s.drop_last());
        let t = s.last();
        if v.has_id(t.id) {
            v
        } else {
            v.insert_rec(t, None::<usize>)
        }
    }
}

/// Replaying a list holds exactly the identifiers the list holds.
proof fn lemma_replay_has(s: Seq<TaskView>, x: u128)
    ensures
        replay(s).has_id(x) <==> seq_has_id(s, x),
    decreases s.len(),
{
    if s.len() == 0 {
    } else {
        let s0 = s.drop_last();
        let t = s.last();
        lemma_replay_has(s0, x);
        let v = replay(s0);
        assert(s0.push(t) =~= s);
        crate::view::lemma_seq_has_id_push(s0, t, x);
        if !v.has_id(t.id) {
            crate::view::lemma_has_id_push(v, t.rank, t, x);
        }
    }
}

/// Replaying a list extended by a run of same-rank records appends the
/// run, in order, at the tail of that rank's sequence.
proof fn lemma_replay_run(base: Seq<TaskView>, run: Seq<TaskView>, r: TaskRank)
    requires
        forall|k: int| 0 <= k < run.len() ==> (#[trigger] run[k]).rank == r,
        forall|i: int, j: int|
            0 <= i < j < (base + run).len() ==> (base + run)[i].id != (base + run)[j].id,
    ensures
        replay(base + run) == replay(base).with_rank(r, replay(base).rank_recs(r) + run),
    decreases run.len(),
{
    if run.len() == 0 {
        assert(base + run =~= base);
        assert(replay(base).rank_recs(r) + run =~= replay(base).rank_recs(r));
        assert(replay(base).with_rank(r, replay(base).rank_recs(r)) =~= replay(base)) by {
            match r {
                TaskRank::Primary => {},
                TaskRank::Secondary => {},
                TaskRank::Other => {},
            }
        }
    } else {
        let run0 = run.drop_last();
        let t = run.last();
        assert forall|i: int, j: int|
            0 <= i < j < (base + run0).len() implies (base + run0)[i].id != (base
            + run0)[j].id by {
            assert((base + run0)[i] == (base + run)[i]);
            assert((base + run0)[j] == (base + run)[j]);
        }
        lemma_replay_run(base, run0, r);
        let v = replay(base + run0);
        assert((base + run).drop_last() =~= base + run0);
        assert((base + run).last() == t);
        lemma_replay_has(base + run0, t.id);
        if seq_has_id(base + run0, t.id) {
            let i = seq_find_id(base + run0, t.id);
            assert(0 <= i < (base + run0).len() && (base + run0)[i].id == t.id);
            assert((base + run)[i] == (base + run0)[i]);
            assert((base + run)[(base + run).len() - 1] == t);
            assert(false);
        }
        assert(!v.has_id(t.id));
        assert(replay(base + run) == v.insert_rec(t, None::<usize>));
        assert(t.rank == r);
        assert(crate::view::seq_insert_clamped(v.rank_recs(r), t, None::<usize>)
            == v.rank_recs(r).push(t));
        crate::view::lemma_with_rank_recs(replay(base), r, replay(base).rank_recs(r) + run0, r);
        assert(v.rank_recs(r) == replay(base).rank_recs(r) + run0);
        assert((replay(base).rank_recs(r) + run0).push(t) =~= replay(base).rank_recs(r) + run) by {
            assert(run0.push(t) =~= run);
        }
        assert(v.with_rank(r, v.rank_recs(r).push(t)) =~= replay(base).with_rank(
            r,
            replay(base).rank_recs(r) + run,
        )) by {
            match r {
                TaskRank::Primary => {},
                TaskRank::Secondary => {},
                TaskRank::Other => {},
            }
        }
    }
}

/// Round trip: replaying the canonical flat form of a well-formed
/// store reproduces the store exactly — same rank membership, same
/// order within each rank, same identifiers and values.
pub proof fn lemma_round_trip(v: StoreView)
    requires
        v.wf(),
    ensures
        replay(v.flat()) == v,
{
    let p = v.primary;
    let s = v.secondary;
    let o = v.other;
    let e = Seq::<TaskView>::empty();
    assert(v.flat() == (p + s) + o);
    // identifiers are unrepeated on every prefix of the flat form
    assert forall|i: int, j: int| 0 <= i < j < (e + p).len() implies (e + p)[i].id != (e
        + p)[j].id by {
        assert((e + p)[i] == v.flat()[i]);
        assert((e + p)[j] == v.flat()[j]);
    }
    assert(e + p =~= p);
    lemma_replay_run(e, p, TaskRank::Primary);
    let v1 = replay(p);
    assert(replay(e) == StoreView::empty_store());
    crate::view::lemma_with_rank_recs(StoreView::empty_store(), TaskRank::Primary, e + p, TaskRank::Primary);
    assert(v1 == StoreView::empty_store().with_rank(TaskRank::Primary, e + p)) by {
        assert(StoreView::empty_store().rank_recs(TaskRank::Primary) + p =~= e + p);
    }
    assert forall|i: int, j: int| 0 <= i < j < (p + s).len() implies (p + s)[i].id != (p
        + s)[j].id by {
        assert((p + s)[i] == v.flat()[i]);
        assert((p + s)[j] == v.flat()[j]);
    }
    lemma_replay_run(p, s, TaskRank::Secondary);
    let v2 = replay(p + s);
    lemma_replay_run(p + s, o, TaskRank::Other);
    assert(replay(v.flat()) == v2.with_rank(TaskRank::Other, v2.rank_recs(TaskRank::Other) + o));
    assert(replay(v.flat()) =~= v) by {
        assert(v1.primary =~= p);
        assert(v1.secondary =~= e);
        assert(v1.other =~= e);
        assert(v2.primary =~= p);
        assert(v2.secondary =~= s);
        assert(v2.other =~= e);
    }
}

impl DataBase {
    /// Rebuild a store from its canonical ordered record list,
    /// re-deriving the record table, the identity index and every
    /// rank's sequence by replaying each record as a tail append.
    pub fn from_ordered_tasks(tasks: Vec<TaskData>) -> (db: DataBase)
        ensures
            db.wf(),
            db@ == replay(views_of(tasks@)),
    {
        let ghost tvs = views_of(tasks@);
        let mut db = DataBase::default();
        proof {
            assert(tvs.take(0) =~= Seq::<TaskView>::empty());
        }
        let mut i: usize = 0;
        while i < tasks.len()
            invariant
                db.wf(),
                i <= tasks@.len(),
                tvs == views_of(tasks@),
                db@ == replay(tvs.take(i as int)),
            decreases tasks@.len() - i,
        {
            let t = tasks[i].clone();
            proof {
                db.lemma_has_id_iff(t@.id);
            }
            let _ = db.insert_task(t, None);
            proof {
                assert(tvs.take(i as int + 1).drop_last() =~= tvs.take(i as int));
                assert(tvs.take(i as int + 1).last() == tvs[i as int]);
                assert(tvs[i as int] == t@);
                assert(db@ == replay(tvs.take(i as int + 1)));
            }
            i = i + 1;
        }
        proof {
            assert(tvs.take(tasks@.len() as int) =~= tvs);
        }
        db
    }
}

} // verus!
