use burner_list::event::{TaskAddData, TaskDeleteData, TaskEditData, TaskEvent, TaskMoveData};
use burner_list::rank::TaskRank;
use burner_list::store::DataBase;
use burner_list::task::TaskData;

fn add(db: &mut DataBase, rank: TaskRank, value: &str) -> u128 {
    let changed = db.apply_event(&TaskEvent::Add(TaskAddData { rank, value: value.to_owned() }));
    assert!(changed);
    let list = db.get_by_rank(rank);
    list.last().expect("rank must hold the appended record").id()
}

fn values(db: &DataBase, rank: TaskRank) -> Vec<String> {
    db.get_by_rank(rank).iter().map(|t| t.value.clone()).collect()
}

fn ids(db: &DataBase, rank: TaskRank) -> Vec<u128> {
    db.get_by_rank(rank).iter().map(|t| t.id()).collect()
}

fn snapshot(db: &DataBase) -> Vec<(u128, TaskRank, String)> {
    db.to_ordered_tasks().iter().map(|t| (t.id(), t.rank, t.value.clone())).collect()
}

#[test]
fn add_appends_to_tail() {
    let mut db = DataBase::default();
    add(&mut db, TaskRank::Primary, "x");
    add(&mut db, TaskRank::Primary, "y");
    add(&mut db, TaskRank::Secondary, "s");
    assert_eq!(values(&db, TaskRank::Primary), vec!["x".to_owned(), "y".to_owned()]);
    assert_eq!(values(&db, TaskRank::Secondary), vec!["s".to_owned()]);
    assert_eq!(values(&db, TaskRank::Other), Vec::<String>::new());
}

#[test]
fn added_records_have_distinct_ids() {
    let mut db = DataBase::default();
    let a = add(&mut db, TaskRank::Primary, "a");
    let b = add(&mut db, TaskRank::Primary, "b");
    let c = add(&mut db, TaskRank::Other, "c");
    assert!(a != b && b != c && a != c);
}

#[test]
fn counts_agree_across_structures() {
    let mut db = DataBase::default();
    add(&mut db, TaskRank::Primary, "a");
    add(&mut db, TaskRank::Primary, "b");
    add(&mut db, TaskRank::Secondary, "c");
    let total = db.get_by_rank(TaskRank::Primary).len()
        + db.get_by_rank(TaskRank::Secondary).len()
        + db.get_by_rank(TaskRank::Other).len();
    assert_eq!(total, 3);
    assert_eq!(db.to_ordered_tasks().len(), 3);
}

#[test]
fn every_record_sits_in_exactly_one_rank() {
    let mut db = DataBase::default();
    let a = add(&mut db, TaskRank::Primary, "a");
    let b = add(&mut db, TaskRank::Secondary, "b");
    for (id, home) in [(a, TaskRank::Primary), (b, TaskRank::Secondary)] {
        let mut seen = 0;
        for rank in [TaskRank::Primary, TaskRank::Secondary, TaskRank::Other] {
            seen += ids(&db, rank).iter().filter(|&&x| x == id).count();
            if rank != home {
                assert!(!ids(&db, rank).contains(&id));
            }
        }
        assert_eq!(seen, 1);
    }
}

#[test]
fn edit_preserves_rank_and_position() {
    let mut db = DataBase::default();
    add(&mut db, TaskRank::Primary, "a");
    let b = add(&mut db, TaskRank::Primary, "b");
    add(&mut db, TaskRank::Primary, "c");
    let changed = db.apply_event(&TaskEvent::Edit(TaskEditData { id: b, value: "B".to_owned() }));
    assert!(changed);
    assert_eq!(values(&db, TaskRank::Primary), vec!["a".to_owned(), "B".to_owned(), "c".to_owned()]);
    assert_eq!(ids(&db, TaskRank::Primary)[1], b);
    let rec = db.get_by_id(b).expect("edited record stays");
    assert_eq!(rec.value, "B");
    assert_eq!(rec.rank, TaskRank::Primary);
}

#[test]
fn move_without_index_appends_to_tail() {
    let mut db = DataBase::default();
    let x = add(&mut db, TaskRank::Primary, "x");
    add(&mut db, TaskRank::Primary, "y");
    let changed = db.apply_event(&TaskEvent::Move(TaskMoveData {
        id: x,
        rank: TaskRank::Primary,
        index: None,
    }));
    assert!(changed);
    assert_eq!(values(&db, TaskRank::Primary), vec!["y".to_owned(), "x".to_owned()]);
}

#[test]
fn move_to_other_rank_at_index() {
    let mut db = DataBase::default();
    let a = add(&mut db, TaskRank::Primary, "a");
    add(&mut db, TaskRank::Secondary, "s1");
    add(&mut db, TaskRank::Secondary, "s2");
    let changed = db.apply_event(&TaskEvent::Move(TaskMoveData {
        id: a,
        rank: TaskRank::Secondary,
        index: Some(1),
    }));
    assert!(changed);
    assert_eq!(values(&db, TaskRank::Primary), Vec::<String>::new());
    assert_eq!(
        values(&db, TaskRank::Secondary),
        vec!["s1".to_owned(), "a".to_owned(), "s2".to_owned()]
    );
    assert_eq!(db.get_by_id(a).unwrap().rank, TaskRank::Secondary);
}

#[test]
fn move_index_counted_after_self_removal() {
    // Moving within the same rank: the target index addresses the list
    // with the moved record already absent.
    let mut db = DataBase::default();
    let x = add(&mut db, TaskRank::Primary, "x");
    add(&mut db, TaskRank::Primary, "y");
    add(&mut db, TaskRank::Primary, "z");
    db.apply_event(&TaskEvent::Move(TaskMoveData {
        id: x,
        rank: TaskRank::Primary,
        index: Some(1),
    }));
    assert_eq!(values(&db, TaskRank::Primary), vec!["y".to_owned(), "x".to_owned(), "z".to_owned()]);
}

#[test]
fn move_clamps_out_of_range_index() {
    let mut db = DataBase::default();
    let a = add(&mut db, TaskRank::Primary, "a");
    add(&mut db, TaskRank::Secondary, "b");
    db.apply_event(&TaskEvent::Move(TaskMoveData {
        id: a,
        rank: TaskRank::Secondary,
        index: Some(999),
    }));
    assert_eq!(values(&db, TaskRank::Secondary), vec!["b".to_owned(), "a".to_owned()]);
}

#[test]
fn delete_removes_from_both_indices() {
    let mut db = DataBase::default();
    let a = add(&mut db, TaskRank::Primary, "a");
    let b = add(&mut db, TaskRank::Primary, "b");
    let changed = db.apply_event(&TaskEvent::Delete(TaskDeleteData { id: a }));
    assert!(changed);
    assert!(db.get_by_id(a).is_none());
    for rank in [TaskRank::Primary, TaskRank::Secondary, TaskRank::Other] {
        assert!(!ids(&db, rank).contains(&a));
    }
    assert_eq!(ids(&db, TaskRank::Primary), vec![b]);
}

#[test]
fn swap_preserves_order_and_is_involutive() {
    let mut db = DataBase::default();
    add(&mut db, TaskRank::Primary, "A");
    add(&mut db, TaskRank::Primary, "B");
    add(&mut db, TaskRank::Secondary, "C");
    db.swap_tasks(TaskRank::Primary, TaskRank::Secondary);
    assert_eq!(values(&db, TaskRank::Primary), vec!["C".to_owned()]);
    assert_eq!(values(&db, TaskRank::Secondary), vec!["A".to_owned(), "B".to_owned()]);
    assert_eq!(db.get_by_rank(TaskRank::Primary)[0].rank, TaskRank::Primary);
    db.swap_tasks(TaskRank::Primary, TaskRank::Secondary);
    assert_eq!(values(&db, TaskRank::Primary), vec!["A".to_owned(), "B".to_owned()]);
    assert_eq!(values(&db, TaskRank::Secondary), vec!["C".to_owned()]);
}

#[test]
fn swap_keeps_identifiers() {
    let mut db = DataBase::default();
    let a = add(&mut db, TaskRank::Primary, "A");
    db.swap_tasks(TaskRank::Primary, TaskRank::Other);
    assert_eq!(ids(&db, TaskRank::Other), vec![a]);
    let rec = db.get_by_id(a).unwrap();
    assert_eq!(rec.rank, TaskRank::Other);
    assert_eq!(rec.value, "A");
}

#[test]
fn burn_only_empties_the_targeted_rank() {
    let mut db = DataBase::default();
    add(&mut db, TaskRank::Primary, "p1");
    add(&mut db, TaskRank::Primary, "p2");
    add(&mut db, TaskRank::Secondary, "s1");
    db.burn_tasks(TaskRank::Primary);
    assert_eq!(values(&db, TaskRank::Primary), Vec::<String>::new());
    assert_eq!(values(&db, TaskRank::Secondary), vec!["s1".to_owned()]);
    assert_eq!(db.to_ordered_tasks().len(), 1);
}

#[test]
fn burn_of_empty_rank_is_harmless() {
    let mut db = DataBase::default();
    add(&mut db, TaskRank::Secondary, "s");
    db.burn_tasks(TaskRank::Other);
    assert_eq!(values(&db, TaskRank::Secondary), vec!["s".to_owned()]);
}

#[test]
fn round_trip_reproduces_the_store() {
    let mut db = DataBase::default();
    add(&mut db, TaskRank::Primary, "p1");
    add(&mut db, TaskRank::Primary, "p2");
    add(&mut db, TaskRank::Secondary, "s1");
    add(&mut db, TaskRank::Other, "o1");
    let before = snapshot(&db);
    let rebuilt = DataBase::from_ordered_tasks(db.to_ordered_tasks());
    assert_eq!(snapshot(&rebuilt), before);
    for rank in [TaskRank::Primary, TaskRank::Secondary, TaskRank::Other] {
        assert_eq!(ids(&rebuilt, rank), ids(&db, rank));
        assert_eq!(values(&rebuilt, rank), values(&db, rank));
    }
}

#[test]
fn replay_skips_a_repeated_identifier() {
    let first = TaskData::with_id(7, TaskRank::Primary, "first".to_owned());
    let dup = TaskData::with_id(7, TaskRank::Secondary, "dup".to_owned());
    let db = DataBase::from_ordered_tasks(vec![first, dup]);
    assert_eq!(values(&db, TaskRank::Primary), vec!["first".to_owned()]);
    assert_eq!(values(&db, TaskRank::Secondary), Vec::<String>::new());
}

#[test]
fn ordered_list_follows_rank_priority() {
    let mut db = DataBase::default();
    add(&mut db, TaskRank::Other, "o");
    add(&mut db, TaskRank::Primary, "p");
    add(&mut db, TaskRank::Secondary, "s");
    let flat: Vec<String> = db.to_ordered_tasks().iter().map(|t| t.value.clone()).collect();
    assert_eq!(flat, vec!["p".to_owned(), "s".to_owned(), "o".to_owned()]);
}

#[test]
fn unknown_id_events_are_silent_no_ops() {
    let mut db = DataBase::default();
    add(&mut db, TaskRank::Primary, "a");
    let before = snapshot(&db);
    let fresh = TaskData::new(TaskRank::Primary, "probe").id();
    assert!(!db.apply_event(&TaskEvent::Edit(TaskEditData { id: fresh, value: "z".to_owned() })));
    assert!(!db.apply_event(&TaskEvent::Move(TaskMoveData {
        id: fresh,
        rank: TaskRank::Other,
        index: None,
    })));
    assert!(!db.apply_event(&TaskEvent::Delete(TaskDeleteData { id: fresh })));
    assert_eq!(snapshot(&db), before);
}

#[test]
fn get_by_id_finds_the_record() {
    let mut db = DataBase::default();
    let a = add(&mut db, TaskRank::Secondary, "hello");
    let rec = db.get_by_id(a).expect("record is live");
    assert_eq!(rec.id(), a);
    assert_eq!(rec.rank, TaskRank::Secondary);
    assert_eq!(rec.value, "hello");
    assert!(db.get_by_id(a.wrapping_add(1)).is_none());
}

#[test]
fn record_equality_is_identity_equality() {
    let left = TaskData::with_id(1, TaskRank::Primary, "x".to_owned());
    let same_id = TaskData::with_id(1, TaskRank::Other, "y".to_owned());
    let other_id = TaskData::with_id(2, TaskRank::Primary, "x".to_owned());
    assert!(left == same_id);
    assert!(left != other_id);
}

#[test]
fn seeded_store_holds_one_primary_record() {
    let db = DataBase::seeded();
    let primary = db.get_by_rank(TaskRank::Primary);
    assert_eq!(primary.len(), 1);
    assert_eq!(primary[0].value, "Hello! BurnerList is a simple, intentionally constrained list.");
    assert!(db.get_by_rank(TaskRank::Secondary).is_empty());
    assert!(db.get_by_rank(TaskRank::Other).is_empty());
}

#[test]
fn version_tokens_mark_mutation_history() {
    let mut db = DataBase::default();
    let db2 = DataBase::default();
    assert!(db == db2);
    add(&mut db, TaskRank::Primary, "a");
    assert!(db != db2);
}
