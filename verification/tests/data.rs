use sokoban_solver::data::{Dir, Pos};
use sokoban_solver::solver::a_star::Stats;
use sokoban_solver::solver::heap::MinHeap;

#[test]
fn positions_and_directions() {
    let p = Pos::new(3, 4);
    assert_eq!(p.dist(Pos::new(1, 7)), 5);
    assert_eq!(p.add_dir(Dir::Up), Pos::new(2, 4));
    assert_eq!(p.sub_dir(Dir::Right), Pos::new(3, 3));
    assert_eq!(
        p.neighbors(),
        [Pos::new(2, 4), Pos::new(3, 5), Pos::new(4, 4), Pos::new(3, 3)]
    );
    assert_eq!(p.dir_to(Pos::new(4, 4)), Dir::Down);
    assert_eq!(Dir::Left.inverse(), Dir::Right);
    assert_eq!(Dir::Up.to_char(), 'u');
}

#[test]
fn heap_hands_out_smallest_first() {
    let mut h = MinHeap::new();
    for (i, &(a, b)) in [(5u64, 1u64), (2, 9), (2, 3), (7, 0), (1, 1)].iter().enumerate() {
        h.push((a, b, i));
    }
    assert_eq!(h.len(), 5);
    let mut out = Vec::new();
    while let Some(x) = h.pop() {
        out.push((x.0, x.1));
    }
    assert_eq!(out, vec![(1, 1), (2, 3), (2, 9), (5, 1), (7, 0)]);
}

#[test]
fn search_stats_text() {
    let mut stats = Stats::new();
    for _ in 0..1500 {
        stats.add_created(0);
    }
    stats.add_unique_visited(0);
    stats.add_reached_duplicate(0);
    assert_eq!(stats.total_created(), 1500);
    assert!(stats.to_string().starts_with(
        "States created total: 1,500\nUnique visited total: 1\nReached duplicates total: 1\n\
Created but not reached total: 1,498\n"
    ));
    assert_eq!(
        stats.summary(),
        format!(
            "total created / unique visited / reached duplicates:\n{:<16}{:<17}{}\n",
            "1,500", "1", "1"
        )
    );
}

#[test]
fn each_count_adds_one_to_its_total() {
    let mut stats = Stats::new();
    stats.add_created(3);
    assert_eq!(stats.total_created(), 1);
    stats.add_created(0);
    assert_eq!(stats.total_created(), 2);
    stats.add_unique_visited(5);
    assert_eq!(stats.total_unique_visited(), 1);
    assert_eq!(stats.total_created(), 2);
    stats.add_reached_duplicate(2);
    stats.add_reached_duplicate(2);
    assert_eq!(stats.total_reached_duplicates(), 2);
}
