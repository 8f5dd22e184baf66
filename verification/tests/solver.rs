use sokoban_solver::data::Pos;
use sokoban_solver::level::Level;
use sokoban_solver::solver::{normalized_pos, MoveLogic, PushLogic, Solver, SolverErr};
use typed_arena::Arena;

#[test]
fn pos_normalization() {
    let levels = [
        r"
#####
#   #
# @ #
#   #
#####
",
        r"
#####
##  #
# @ #
#   #
#####
",
        r"
#####
#$  #
# @ #
#   #
#####
",
        r"
#####
#*  #
# @ #
#   #
#####
",
        r"
#####
#.  #
# @ #
#   #
#####
",
        r"
#############
##      #####
## #### #####
##$####$#####
##$         #
#   ###$### #
#$##### ### #
##     @$## #
## ######## #
## ######## #
##          #
#############
",
    ];
    let normalized_positions = [
        Pos::new(1, 1),
        Pos::new(1, 2),
        Pos::new(1, 2),
        Pos::new(1, 2),
        Pos::new(1, 1),
        Pos::new(4, 3),
    ];

    assert_eq!(levels.len(), normalized_positions.len());
    for (level, &expected_np) in levels.iter().zip(normalized_positions.iter()) {
        let level: Level = level.parse().unwrap();
        let np = normalized_pos(level.map().grid(), level.state.player_pos, &level.state.boxes);
        assert_eq!(np, expected_np, "Level:\n{}", level.to_string());
    }
}

#[test]
fn incomplete_border() {
    let level0 = r"
####
#@*
####
        ";
    let level1 = r"
####
#@ *
####
        ";
    let level2 = r"
## #
#@*#
####
        ";
    let level3 = r"
####
# *#
#@##
        ";
    let level4 = r"
####
.@$*
####
        ";
    for level in &[level0, level1, level2, level3, level4] {
        let level: Level = level.parse().unwrap();
        assert_eq!(
            Solver::new_with_goals(level.goal_map().unwrap(), &level.state).unwrap_err(),
            SolverErr::IncompleteBorder
        );
    }
}

#[test]
fn unreachable_boxes_goals() {
    let level = r"
########
#@$.#$.#
########
";
    let level: Level = level.parse().unwrap();
    assert_eq!(
        Solver::new_with_goals(level.goal_map().unwrap(), &level.state).unwrap_err(),
        SolverErr::UnreachableBoxes
    );
}

#[test]
fn unreachable_boxes_remover() {
    let level = r"
########
# $ #$R#
########
";
    let level: Level = level.parse().unwrap();
    assert_eq!(
        Solver::new_with_remover(level.remover_map().unwrap(), &level.state).unwrap_err(),
        SolverErr::UnreachableBoxes
    );
}

#[test]
fn unreachable_goals() {
    let level = r"
########
#@$ # .#
########
";
    let level: Level = level.parse().unwrap();
    assert_eq!(
        Solver::new_with_goals(level.goal_map().unwrap(), &level.state).unwrap_err(),
        SolverErr::UnreachableGoals
    );
}

#[test]
fn unreachable_remover() {
    let level = r"
########
#@$$# r#
########
";
    let level: Level = level.parse().unwrap();
    assert_eq!(
        Solver::new_with_remover(level.remover_map().unwrap(), &level.state).unwrap_err(),
        SolverErr::UnreachableRemover
    );
}

#[test]
fn too_many() {
    let level = r"
##################
#****************#
#****************#
#****************#
#****************#
#****************#
#****************#
#****************#
#****************#
#****************#
#****************#
#****************#
#****************#
#****************#
#****************#
#****************#
#****************#
#@################
###
";
    let level: Level = level.parse().unwrap();

    let err = Solver::new_with_goals(level.goal_map().unwrap(), &level.state).unwrap_err();
    assert_eq!(err, SolverErr::TooMany);
    assert_eq!(err.to_string(), "More than 255 reachable boxes or goals");
}

#[test]
fn diff_boxes_or_goals() {
    let level = r"
####
#@.*#
####
";
    let level: Level = level.parse().unwrap();
    assert_eq!(
        Solver::new_with_goals(level.goal_map().unwrap(), &level.state).unwrap_err(),
        SolverErr::DiffBoxesGoals
    );
}

#[test]
fn processing() {
    let level: &str = r"
*####*
#@$.*#
*####*#
"
    .trim_start_matches('\n');

    let level: Level = level.parse().unwrap();
    let solver = Solver::new_with_goals(level.goal_map().unwrap(), &level.state).unwrap();

    let processed_empty_level: &str = r"
#######
#  ..##
#######
"
    .trim_start_matches('\n');
    assert_eq!(solver.sd.map.to_string(), processed_empty_level);

    assert_eq!(solver.sd.initial_state.player_pos, Pos { r: 1, c: 1 });
    assert_eq!(
        solver.sd.initial_state.boxes,
        vec![Pos { r: 1, c: 2 }, Pos { r: 1, c: 4 }]
    );
}

#[test]
fn expand_push1() {
    // at some point expand detected some moves multiple times - should not happen again

    let level = r"
<><><><><><>
<> _B_B_ _<>
<>B_B     <>
<><>P     <>
<><>  B <><>
<>      <>
<><>    <>
<><><><><>
";
    let level: Level = level.parse().unwrap();
    let solver = Solver::new_with_goals(level.goal_map().unwrap(), &level.state).unwrap();
    let states = Arena::new();
    let neighbor_states = PushLogic::expand(&solver.sd, &solver.sd.initial_state, &states);
    assert_eq!(neighbor_states.len(), 2);
}

#[test]
fn expand_move1() {
    let level = r"
 ####
# $ .#
# @$*#
#.$  #
# .  #
 ####
";
    let level: Level = level.parse().unwrap();
    let solver = Solver::new_with_goals(level.goal_map().unwrap(), &level.state).unwrap();
    let states = Arena::new();
    let neighbor_states = MoveLogic::expand(&solver.sd, &solver.sd.initial_state, &states);
    assert_eq!(neighbor_states.len(), 7);
}

#[test]
fn expand_move2() {
    let level = r"
 ####
#    #
# @ *#
# $  #
#   .#
 ####
";
    let level: Level = level.parse().unwrap();
    let solver = Solver::new_with_goals(level.goal_map().unwrap(), &level.state).unwrap();
    let states = Arena::new();
    let neighbor_states = MoveLogic::expand(&solver.sd, &solver.sd.initial_state, &states);
    assert_eq!(neighbor_states.len(), 4);
}

#[test]
fn solver_error_messages() {
    assert_eq!(SolverErr::IncompleteBorder.to_string(), "Incomplete border");
    assert_eq!(SolverErr::UnreachableRemover.to_string(), "Remover is not reachable");
    assert_eq!(
        SolverErr::DiffBoxesGoals.to_string(),
        "Different number of reachable boxes and goals"
    );
}

#[test]
fn normalization_same_area() {
    // every free cell of one area normalizes to the same cell
    let level: Level = "#####\n# @ #\n#   #\n#####".parse().unwrap();
    let g = level.map().grid();
    for p in [Pos::new(1, 1), Pos::new(1, 3), Pos::new(2, 2)] {
        assert_eq!(normalized_pos(g, p, &level.state.boxes), Pos::new(1, 1));
    }
}
