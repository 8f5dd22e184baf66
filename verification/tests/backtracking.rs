use fnv::FnvHashMap;
use sokoban_solver::config::Format;
use sokoban_solver::level::Level;
use sokoban_solver::data::Pos;
use sokoban_solver::solver::backtracking::{backtrack_prevs, player_steps, reconstruct_moves};
use sokoban_solver::state::State;

#[test]
fn backtracking() {
    // this mixes normalized positions with actual ones which can't normally happen
    // but it shouldn't affect anything

    let level_initial = r"
###########
# $     $.#
#        .#
##$*## #..#
#    #  ###
# @  #    #
#    #    #
## #### ###
# $   #   #
#     #   #
#         #
###########
"
    .trim_start_matches('\n');

    let level_state1 = r"
###########
# $     $.#
#        .#
##$*## #..#
#@   #  ###
#    #    #
#    #    #
## #### ###
# $   #   #
#     #   #
#         #
###########
"
    .trim_start_matches('\n');

    let level_state2 = r"
###########
#@$     $.#
#        .#
##$*## #..#
#    #  ###
#    #    #
#    #    #
## #### ###
#     #   #
# $   #   #
#         #
###########
"
    .trim_start_matches('\n');

    let level_state3 = r"
###########
#$@     $.#
#        .#
##$*## #..#
#    #  ###
#    #    #
#    #    #
## #### ###
#     #   #
# $   #   #
#         #
###########
"
    .trim_start_matches('\n');

    let level_state4 = r"
###########
#$      @*#
#        .#
##$*## #..#
#    #  ###
#    #    #
#    #    #
## #### ###
#     #   #
# $   #   #
#         #
###########
"
    .trim_start_matches('\n');

    let expected_pushes = r"
###########
# $     $.#
#        .#
##$*## #..#
#    #  ###
# @  #    #
#    #    #
## #### ###
# $   #   #
#     #   #
#         #
###########

###########
# $     $.#
#        .#
##$*## #..#
#    #  ###
#    #    #
#    #    #
## #### ###
# @   #   #
# $   #   #
#         #
###########

###########
#$@     $.#
#        .#
##$*## #..#
#    #  ###
#    #    #
#    #    #
## #### ###
#     #   #
# $   #   #
#         #
###########

###########
#$      @*#
#        .#
##$*## #..#
#    #  ###
#    #    #
#    #    #
## #### ###
#     #   #
# $   #   #
#         #
###########

"
    .trim_start_matches('\n');

    let level_initial: Level = level_initial.parse().unwrap();
    let level_state1: Level = level_state1.parse().unwrap();
    let level_state2: Level = level_state2.parse().unwrap();
    let level_state3: Level = level_state3.parse().unwrap();
    let level_state4: Level = level_state4.parse().unwrap();

    let mut prevs: FnvHashMap<&State, &State> = FnvHashMap::default();
    prevs.insert(&level_state1.state, &level_state1.state);
    prevs.insert(&level_state2.state, &level_state1.state);
    prevs.insert(&level_state3.state, &level_state2.state);
    prevs.insert(&level_state4.state, &level_state3.state);

    let states = backtrack_prevs(&prevs, &level_state4.state);
    let moves = reconstruct_moves(
        level_state1.map().grid(),
        None,
        level_initial.state.player_pos,
        &states,
    );
    assert_eq!(moves.to_string(), "ddDrrrddrruuuuuuluuulllLrrrrrR");

    let solution_pushes = level_initial
        .format_solution(Format::Xsb, &moves, false)
        .to_string();
    assert_eq!(solution_pushes, expected_pushes);
}

#[test]
fn walking_around_boxes() {
    let level: Level = "#####\n#@  #\n# $ #\n#   #\n#####".parse().unwrap();
    let moves = player_steps(
        level.map().grid(),
        &level.state.boxes,
        Pos::new(1, 1),
        Pos::new(3, 3),
    );
    assert_eq!(moves.move_cnt(), 4);
    assert_eq!(moves.push_cnt(), 0);
}
