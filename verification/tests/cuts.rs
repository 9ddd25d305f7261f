use road_planning::cuts::{sort_by_entry, Cut};

fn cut(entry: i64, exit: i64) -> Cut {
    Cut { entry, exit }
}

#[test]
fn sorts_by_entry() {
    let sorted = sort_by_entry(&vec![cut(50, 60), cut(10, 20), cut(30, 40)]);
    assert_eq!(sorted, vec![cut(10, 20), cut(30, 40), cut(50, 60)]);
}

#[test]
fn equal_entries_keep_their_order() {
    let sorted = sort_by_entry(&vec![cut(5, 9), cut(1, 2), cut(5, 7), cut(1, 8), cut(5, 8)]);
    assert_eq!(sorted, vec![cut(1, 2), cut(1, 8), cut(5, 9), cut(5, 7), cut(5, 8)]);
}

#[test]
fn sorting_nothing_gives_nothing() {
    assert_eq!(sort_by_entry(&vec![]), vec![]);
}

#[test]
fn sorted_cuts_stay_as_they_are() {
    let cuts = vec![cut(-3, 0), cut(0, 1), cut(i64::MAX, i64::MIN)];
    assert_eq!(sort_by_entry(&cuts), cuts);
}

#[test]
fn sorting_keeps_every_cut() {
    let cuts = vec![cut(9, 1), cut(3, 3), cut(9, 1), cut(-4, 12), cut(3, 5)];
    let sorted = sort_by_entry(&cuts);
    assert_eq!(sorted.len(), cuts.len());
    for window in sorted.windows(2) {
        assert!(window[0].entry <= window[1].entry);
    }
    for c in &cuts {
        let given = cuts.iter().filter(|x| *x == c).count();
        let found = sorted.iter().filter(|x| *x == c).count();
        assert_eq!(given, found);
    }
}
