use sokoban_solver::config::Format;
use sokoban_solver::data::Dir;
use sokoban_solver::level::Level;
use sokoban_solver::moves::{Move, Moves};
use sokoban_solver::solver::level::{process_level, SolverLevel};

#[test]
fn formatting_level() {
    let xsb: &str = r"
*####*
#@$.*#
*####*#
"
    .trim_start_matches('\n');
    let custom: &str = r"
B_<><><><>B_
<>P B  _B_<>
B_<><><><>B_<>
"
    .trim_start_matches('\n');

    for level in &[xsb, custom] {
        let level: Level = level.parse().unwrap();

        // xsb as default
        assert_eq!(level.to_string(), xsb);
        assert_eq!(format!("{}", level.to_string()), xsb);
        assert_eq!(format!("{}", level.to_string()), xsb);

        // explicit xsb
        assert_eq!(level.xsb().to_string(), xsb);
        assert_eq!(level.format(Format::Xsb).to_string(), xsb);
        assert_eq!(format!("{}", level.xsb().to_string()), xsb);
        assert_eq!(format!("{}", level.xsb().to_string()), xsb);

        // explicit custom
        assert_eq!(level.custom().to_string(), custom);
        assert_eq!(level.format(Format::Custom).to_string(), custom);
        assert_eq!(format!("{}", level.custom().to_string()), custom);
        assert_eq!(format!("{}", level.custom().to_string()), custom);
    }
}

#[test]
fn formatting_solution() {
    let level = r"
*####*
#@ $.#
*####*";
    let expected_with_steps = r"
*####*
#@ $.#
*####*

*####*
# @$.#
*####*

*####*
#  @*#
*####*

"
    .trim_start_matches('\n');
    let expected_without_steps = r"
*####*
#@ $.#
*####*

*####*
#  @*#
*####*

"
    .trim_start_matches('\n');

    let level: Level = level.parse().unwrap();
    let moves = Moves::new(vec![
        Move::new(Dir::Right, false),
        Move::new(Dir::Right, true),
    ]);

    assert_eq!(
        level.xsb_solution(&moves, true).to_string(),
        expected_with_steps
    );
    assert_eq!(
        level.xsb_solution(&moves, false).to_string(),
        expected_without_steps
    );
}

#[test]
fn formatting() {
    let xsb: &str = r"
*###*
#@$.#
*###*#
"
    .trim_start_matches('\n');
    let custom: &str = r"
B_<><><>B_
<>P B  _<>
B_<><><>B_<>
"
    .trim_start_matches('\n');
    let processed_xsb: &str = r"
######
#@$.##
######
"
    .trim_start_matches('\n');
    let processed_custom: &str = r"
<><><><><><>
<>P B  _<><>
<><><><><><>
"
    .trim_start_matches('\n');

    for level in [xsb, custom].iter() {
        let level: SolverLevel = process_level(&level.parse().unwrap()).unwrap();
        assert_eq!(level.to_string(), processed_xsb);
        assert_eq!(level.xsb().to_string(), processed_xsb);
        assert_eq!(level.format(Format::Xsb).to_string(), processed_xsb);
        assert_eq!(format!("{}", level.to_string()), processed_xsb);

        assert_eq!(level.custom().to_string(), processed_custom);
        assert_eq!(level.format(Format::Custom).to_string(), processed_custom);
        assert_eq!(format!("{}", level.custom().to_string()), processed_custom);

        assert_eq!(
            level.map.format_with_state(Format::Xsb, &level.state).to_string(),
            processed_xsb
        );
        assert_eq!(
            level.map.format_with_state(Format::Custom, &level.state).to_string(),
            processed_custom
        );
    }
}

#[test]
fn custom_solution_printing() {
    let level: Level = "#####\n#@$.#\n#####".parse().unwrap();
    let moves = Moves::new(vec![Move::new(Dir::Right, true)]);
    assert_eq!(
        level.custom_solution(&moves, false).to_string(),
        "<><><><><>\n<>P B  _<>\n<><><><><>\n\n<><><><><>\n<>  P B_<>\n<><><><><>\n\n"
    );
}

#[test]
fn dead_ends_of_processed_level() {
    // the box can only be pushed right, onto the goal
    let level: Level = "######\n#@$ .#\n######".parse().unwrap();
    let sl = process_level(&level).unwrap();
    let g = sl.map.grid();
    let dead: Vec<bool> = g.positions().iter().map(|p| *sl.dead_ends.get(*p)).collect();
    // row 1: wall, free (the corner), free, free, goal, wall
    assert_eq!(dead[6..12].to_vec(), vec![false, true, false, false, false, false]);
}
