use glass::ident::Id;
use glass::index::OrderingIndex;

fn id(v: u128) -> Id {
    Id { value: v }
}

#[test]
fn test_append_ranks() {
    // two successive appends to an empty index yield ranks 1 and 2
    let mut index = OrderingIndex::new();
    assert_eq!(index.append(id(10)), 1);
    assert_eq!(index.append(id(20)), 2);
    // rank 0 is the first identifier, rank -1 (from the end) the second
    assert_eq!(index.range(0, 0), vec![id(10)]);
    assert_eq!(index.range(-1, -1), vec![id(20)]);
}

#[test]
fn test_cardinality() {
    let mut index = OrderingIndex::new();
    assert_eq!(index.cardinality(), 0);
    index.append(id(1));
    index.append(id(2));
    index.append(id(3));
    assert_eq!(index.cardinality(), 3);
}

#[test]
fn test_first_last_empty() {
    // an empty index answers with the nil sentinel, not an error
    let index = OrderingIndex::new();
    assert_eq!(index.first(), Id::nil());
    assert_eq!(index.last(), Id::nil());
}

#[test]
fn test_first_last() {
    let mut index = OrderingIndex::new();
    index.append(id(7));
    index.append(id(8));
    assert_eq!(index.first(), id(7));
    assert_eq!(index.last(), id(8));
}

#[test]
fn test_remove_and_absent_remove() {
    let mut index = OrderingIndex::new();
    index.append(id(1));
    index.append(id(2));
    index.remove(id(1));
    assert_eq!(index.cardinality(), 1);
    assert_eq!(index.first(), id(2));
    // removing an absent identifier is a no-op
    index.remove(id(99));
    assert_eq!(index.cardinality(), 1);
}

#[test]
fn test_score() {
    let mut index = OrderingIndex::new();
    index.append(id(1));
    index.append(id(2));
    assert_eq!(index.score(id(1)), Some(1));
    assert_eq!(index.score(id(2)), Some(2));
    assert_eq!(index.score(id(3)), None);
}

#[test]
fn test_adjust_score_reorders() {
    let mut index = OrderingIndex::new();
    index.append(id(1));
    index.append(id(2));
    // bump the first entry past the second
    index.adjust_score(id(1), 5);
    assert_eq!(index.score(id(1)), Some(6));
    assert_eq!(index.range(0, -1), vec![id(2), id(1)]);
}

#[test]
fn test_adjust_score_absent_adds() {
    let mut index = OrderingIndex::new();
    index.append(id(1));
    index.adjust_score(id(9), 3);
    assert_eq!(index.score(id(9)), Some(3));
    assert_eq!(index.cardinality(), 2);
    assert_eq!(index.range(0, -1), vec![id(1), id(9)]);
}

#[test]
fn test_range_clamping() {
    let mut index = OrderingIndex::new();
    index.append(id(1));
    index.append(id(2));
    index.append(id(3));
    // a stop past the end is clamped to the last rank
    assert_eq!(index.range(0, 100), vec![id(1), id(2), id(3)]);
    // an inverted window is empty
    assert_eq!(index.range(2, 1), Vec::<Id>::new());
    // a start past the end is empty
    assert_eq!(index.range(5, 9), Vec::<Id>::new());
    // the last two, addressed from the end
    assert_eq!(index.range(-2, -1), vec![id(2), id(3)]);
}

#[test]
fn test_range_empty_index() {
    let index = OrderingIndex::new();
    assert_eq!(index.range(0, -1), Vec::<Id>::new());
}
