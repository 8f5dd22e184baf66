use sokoban_solver::config::Method;
use sokoban_solver::level::Level;
use sokoban_solver::solver::{Solve, SolverErr};

#[test]
fn solving_simple_levels() {
    let level: Level = "#####\n#@$.#\n#####".parse().unwrap();
    for method in [
        Method::MovesPushes,
        Method::Moves,
        Method::PushesMoves,
        Method::Pushes,
        Method::Any,
    ] {
        let ok = level.solve(method, false).unwrap();
        assert_eq!(ok.moves.unwrap().to_string(), "R");
        assert!(ok.progress.is_empty());
    }
}

#[test]
fn solving_needs_walking() {
    let level: Level = "######\n#@   #\n# $  #\n#  . #\n######".parse().unwrap();
    let ok = level.solve(Method::Pushes, false).unwrap();
    let moves = ok.moves.unwrap();
    assert_eq!(moves.push_cnt(), 2);
}

#[test]
fn solving_remover_level() {
    let level: Level = "#####\n#@$r#\n#####".parse().unwrap();
    let ok = level.solve(Method::Moves, false).unwrap();
    assert_eq!(ok.moves.unwrap().to_string(), "R");
}

#[test]
fn solved_level_needs_no_moves() {
    let level: Level = "#####\n#@ *#\n#####".parse().unwrap();
    let ok = level.solve(Method::Moves, false).unwrap();
    assert_eq!(ok.moves.unwrap().move_cnt(), 0);
}

#[test]
fn unsolvable_level() {
    // the box is stuck in the corner
    let level: Level = "#####\n#$ @#\n#  .#\n#####".parse().unwrap();
    let ok = level.solve(Method::Pushes, false).unwrap();
    assert!(ok.moves.is_none());
}

#[test]
fn refused_level() {
    let level: Level = "#####\n#@$.\n#####".parse().unwrap();
    assert_eq!(level.solve(Method::Any, false).unwrap_err(), SolverErr::IncompleteBorder);
}

#[test]
fn progress_is_reported() {
    let level: Level = "######\n#@$ .#\n######".parse().unwrap();
    let ok = level.solve(Method::Pushes, true).unwrap();
    assert!(!ok.progress.is_empty());
    assert!(ok.progress[0].starts_with("Visited new depth: "));
}

#[test]
fn frozen_boxes_unsolvable() {
    // every box could reach a goal alone, but none of the four can be pushed
    let level: Level = "########\n#      #\n# $$   #\n# $$ @ #\n#....  #\n########".parse().unwrap();
    for method in [Method::Pushes, Method::Moves] {
        let ok = level.solve(method, false).unwrap();
        assert!(ok.moves.is_none());
    }
}
