use sokoban_solver::data::Pos;
use sokoban_solver::level::Level;
use sokoban_solver::solver::level::process_level;
use sokoban_solver::solver::simple::{
    expand_move, expand_push, heuristic_move, heuristic_push, mark_dead_ends, search, Stats,
};
use sokoban_solver::vec2d::Vec2d;

#[test]
fn plain_search_finds_pushes() {
    let level: Level = "#######\n#@$  .#\n#######".parse().unwrap();
    let sl = process_level(&level).unwrap();
    let (path, stats, progress) = search(&sl.map, &sl.dead_ends, &sl.state, false);
    let path = path.unwrap();
    assert_eq!(path.len(), 4);
    assert_eq!(path[3].boxes, vec![Pos::new(1, 5)]);
    assert!(progress.is_empty());
    assert!(stats.total_created() >= 4);
    assert_eq!(stats.total_visited(), 4);
}

#[test]
fn plain_search_reports_depths() {
    let level: Level = "#######\n#@$  .#\n#######".parse().unwrap();
    let sl = process_level(&level).unwrap();
    let (_, _, progress) = search(&sl.map, &sl.dead_ends, &sl.state, true);
    assert_eq!(progress.len(), 8);
    assert_eq!(progress[0], "Visited new depth: 0");
    assert_eq!(progress[6], "Visited new depth: 3");
}

#[test]
fn plain_search_without_solution() {
    let level: Level = "######\n#@$  #\n#.   #\n######".parse().unwrap();
    let sl = process_level(&level).unwrap();
    let no_dead_ends: Vec2d<bool> = sl.map.grid().scratchpad_with_default(false);
    let (path, _, _) = search(&sl.map, &no_dead_ends, &sl.state, false);
    assert!(path.is_none());
}

#[test]
fn estimates() {
    let level: Level = "#######\n#@$  .#\n#. $  #\n#######".parse().unwrap();
    let sl = process_level(&level).unwrap();
    // boxes (1,2) and (2,3); goals (1,5) and (2,1)
    assert_eq!(heuristic_push(&sl.map, &sl.state), 2 + 2);
    assert_eq!(heuristic_move(&sl.map, &sl.state), 1 + 4);
}

#[test]
fn expansions() {
    let level: Level = "#######\n#  @$.#\n#. $  #\n#######".parse().unwrap();
    let sl = process_level(&level).unwrap();
    let moves = expand_move(&sl.map, &sl.dead_ends, &sl.state);
    // a push to the right and a step to the left; above is a wall and the box below
    // would be pushed into a wall
    assert_eq!(moves.len(), 2);
    let pushes = expand_push(&sl.map, &sl.dead_ends, &sl.state);
    assert!(pushes.iter().any(|s| s.player_pos == Pos::new(1, 4)));
    assert!(pushes.iter().all(|s| s.boxes.len() == 2));
}

#[test]
fn dead_ends() {
    let level: Level = "#######\n#@$  .#\n#     #\n#######".parse().unwrap();
    let sl = process_level(&level).unwrap();
    let dead = mark_dead_ends(&sl.map);
    // the corners and the bottom row cannot bring a box to the goal
    assert!(*dead.get(Pos::new(1, 1)));
    assert!(*dead.get(Pos::new(2, 3)));
    assert!(!*dead.get(Pos::new(1, 3)));
    assert!(!*dead.get(Pos::new(1, 5)));
    assert!(!*dead.get(Pos::new(0, 0)));
    assert_eq!(*dead.get(Pos::new(1, 2)), false);
}

#[test]
fn plain_stats_text() {
    let mut stats = Stats::new();
    for _ in 0..1234 {
        stats.add_created(1);
    }
    stats.add_visited(0);
    stats.add_duplicate(2);
    assert_eq!(stats.total_created(), 1234);
    assert_eq!(stats.total_duplicate(), 1);
    assert_eq!(stats.total_visited(), 1);
    assert_eq!(
        stats.to_string(),
        "States created total: 1,234\nReached duplicates total: 1\nStates visited total: 1\n\
Depth / created states:\n0: 0\n1: 1234\n\
Depth / found duplicates:\n0: 0\n1: 0\n2: 1\n\
Depth / visited states:\n0: 1\n"
    );
    assert_eq!(
        stats.summary(),
        "created by depth: [0, 1234]\nreached duplicates: [0, 0, 1]\nvisited by depth: [1]\n\
total created: 1,234\ntotal reached duplicates: 1\ntotal visited: 1\n"
    );
}

#[test]
fn plain_search_takes_fewest_pushes() {
    let level: Level = "########\n#      #\n# $  . #\n#  @   #\n########".parse().unwrap();
    let sl = process_level(&level).unwrap();
    let (path, _, _) = search(&sl.map, &sl.dead_ends, &sl.state, false);
    let path = path.unwrap();
    // the box is three cells left of the goal: three pushes, four states
    assert_eq!(path.len(), 4);
    assert_eq!(path[3].boxes, vec![Pos::new(2, 5)]);
}

#[test]
fn plain_search_same_with_and_without_report() {
    let level: Level = "########\n#      #\n# $  . #\n#  @   #\n########".parse().unwrap();
    let sl = process_level(&level).unwrap();
    let (quiet_path, quiet_stats, quiet_progress) = search(&sl.map, &sl.dead_ends, &sl.state, false);
    let (loud_path, loud_stats, loud_progress) = search(&sl.map, &sl.dead_ends, &sl.state, true);
    assert!(quiet_progress.is_empty());
    assert!(!loud_progress.is_empty());
    let quiet_path = quiet_path.unwrap();
    let loud_path = loud_path.unwrap();
    assert_eq!(quiet_path.len(), loud_path.len());
    for i in 0..quiet_path.len() {
        assert_eq!(quiet_path[i].boxes, loud_path[i].boxes);
        assert_eq!(quiet_path[i].player_pos, loud_path[i].player_pos);
    }
    assert_eq!(quiet_stats.total_created(), loud_stats.total_created());
    assert_eq!(quiet_stats.total_visited(), loud_stats.total_visited());
}

#[test]
fn plain_expansion_lists_each_push_once() {
    let level: Level = "#######\n#     #\n# $$  #\n#  @ .#\n#    .#\n#######".parse().unwrap();
    let sl = process_level(&level).unwrap();
    let no_dead_ends: Vec2d<bool> = sl.map.grid().scratchpad_with_default(false);
    let pushes = expand_push(&sl.map, &no_dead_ends, &sl.state);
    // each box can be pushed up and down; sideways the other box is in the way
    assert_eq!(pushes.len(), 4);
    for a in 0..pushes.len() {
        for b in a + 1..pushes.len() {
            assert_ne!(pushes[a].boxes, pushes[b].boxes);
        }
    }
}
