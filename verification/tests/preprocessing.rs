use std::collections::HashSet;

use sokoban_solver::data::Dir;
use sokoban_solver::data::Dir::{Down, Left, Right, Up};
use sokoban_solver::data::MapCell;
use sokoban_solver::level::Level;
use sokoban_solver::solver::preprocessing::{check_reachability, one_box_push_dirs};
use sokoban_solver::solver::Solver;

#[test]
fn one_box_reachability() {
    let level = r"
##########
#######  #
####     #
####  ##.#
##### ## #
##   $   #
## ##@#  ######
## ## ####    #
#.$         * #
##########    #
###############";
    let level: Level = level.parse().unwrap();
    let map = level.goal_map().unwrap();
    let center_box = level.state.boxes[0];
    let left_box = level.state.boxes[1];
    let right_box = level.state.boxes[2];

    fn hash_set(v: Vec<Dir>) -> HashSet<Dir> {
        v.into_iter().collect()
    }
    let search_fn = |b, p| one_box_push_dirs(&map.grid, b, p);

    // although the function should handle all player positions,
    // in practise the player will always be next to the box
    assert_eq!(
        hash_set(search_fn(center_box, center_box.add_dir(Up))),
        hash_set(vec![Down, Left])
    );
    assert_eq!(
        hash_set(search_fn(center_box, center_box.add_dir(Right))),
        hash_set(vec![Down, Left])
    );
    assert_eq!(
        hash_set(search_fn(center_box, center_box.add_dir(Down))),
        hash_set(vec![Up, Right])
    );
    assert_eq!(
        hash_set(search_fn(center_box, center_box.add_dir(Left))),
        hash_set(vec![Up, Right])
    );
    assert_eq!(
        hash_set(search_fn(left_box, left_box.add_dir(Up))),
        hash_set(vec![Left])
    );
    assert_eq!(
        hash_set(search_fn(left_box, left_box.add_dir(Right))),
        hash_set(vec![Left])
    );
    assert_eq!(
        hash_set(search_fn(left_box, left_box.add_dir(Left))),
        hash_set(vec![Right])
    );
    assert_eq!(
        hash_set(search_fn(right_box, right_box.add_dir(Up))),
        hash_set(vec![Up, Right, Down, Left])
    );
    assert_eq!(
        hash_set(search_fn(right_box, right_box.add_dir(Right))),
        hash_set(vec![Up, Right, Down, Left])
    );
    assert_eq!(
        hash_set(search_fn(right_box, right_box.add_dir(Down))),
        hash_set(vec![Up, Right, Down, Left])
    );
    assert_eq!(
        hash_set(search_fn(right_box, right_box.add_dir(Left))),
        hash_set(vec![Up, Right, Down, Left])
    );
}

#[test]
fn closest_distances_one_goal_1() {
    let level = r"
#######
###@###
###$###
#    .#
#######";
    let level: Level = level.parse().unwrap();

    let expected = r"
None None    None    None    None    None None 
None None    None    None    None    None None 
None None    None    None    None    None None 
None None Some(3) Some(2) Some(1) Some(0) None 
None None    None    None    None    None None 
"
    .trim_start_matches('\n');

    let solver = Solver::new_with_goals(level.goal_map().unwrap(), &level.state).unwrap();
    let result = solver.sd.closest_push_dists.to_string();
    assert_eq!(result, expected);
}

#[test]
fn closest_distances_one_goal_2() {
    let level = r"
#######
#  @###
# #$###
#    .#
#######";
    let level: Level = level.parse().unwrap();

    let expected = r"
None None    None    None    None    None None 
None None    None    None    None    None None 
None None    None Some(3)    None    None None 
None None Some(3) Some(2) Some(1) Some(0) None 
None None    None    None    None    None None 
"
    .trim_start_matches('\n');

    let solver = Solver::new_with_goals(level.goal_map().unwrap(), &level.state).unwrap();
    let result = solver.sd.closest_push_dists.to_string();
    assert_eq!(result, expected);
}

#[test]
fn closest_distances_many_goals() {
    let level = r"
###########
#@$$$$$$ ##
######## ##
######...##
#      .  #
#         #
## ########
#.       ##
#        ##
##  #.#####
###########";
    let level: Level = level.parse().unwrap();

    let expected = r"
None    None    None    None    None    None    None     None     None None None 
None    None    None    None    None    None    None     None     None None None 
None    None    None    None    None    None    None     None  Some(1) None None 
None    None    None    None    None    None Some(0)  Some(0)  Some(0) None None 
None    None Some(5) Some(4) Some(3) Some(2) Some(1)  Some(0)  Some(1) None None 
None    None Some(5) Some(6) Some(7) Some(8) Some(9) Some(10) Some(11) None None 
None    None Some(4)    None    None    None    None     None     None None None 
None Some(0) Some(1) Some(2) Some(3) Some(4) Some(5)  Some(6)     None None None 
None    None Some(2) Some(3) Some(2) Some(1) Some(2)  Some(3)     None None None 
None    None    None    None    None Some(0)    None     None     None None None 
None    None    None    None    None    None    None     None     None None None 
"
    .trim_start_matches('\n');

    let solver = Solver::new_with_goals(level.goal_map().unwrap(), &level.state).unwrap();
    let result = solver.sd.closest_push_dists.to_string();
    assert_eq!(result, expected);
}

#[test]
fn reachability_walls_off_the_outside() {
    let level: Level = "  ####\n###  #\n#@ $.#\n######".parse().unwrap();
    let pg = check_reachability(level.map().grid(), level.state.player_pos).unwrap();
    // the cells outside the walls become walls
    assert_eq!(*pg.get(sokoban_solver::data::Pos::new(0, 0)), MapCell::Wall);
    assert_eq!(pg.to_string(), "######\n###  #\n#   .#\n######\n");
}
