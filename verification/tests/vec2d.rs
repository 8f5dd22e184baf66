use sokoban_solver::data::Pos;
use sokoban_solver::extensions::Scratch;
use sokoban_solver::level::Level;
use sokoban_solver::vec2d::Vec2d;

#[test]
fn positions() {
    let v = Vec2d::new(&[vec![0, 1, 2], vec![3, 4, 5], vec![6, 7, 8]]);
    let nums: Vec<_> = v.positions().iter().map(|p| *v.get(*p)).collect();
    assert_eq!(nums, &[0, 1, 2, 3, 4, 5, 6, 7, 8]);
}

#[test]
fn formatting_map_cell() {
    let xsb_level: &str = r"
*####*
#@$.*#
*####*#
"
    .trim_start_matches('\n');
    let xsb_grid: &str = "
.####. \n\
#  ..# \n\
.####.#
"
    .trim_start_matches('\n');
    let level: Level = xsb_level.parse().unwrap();

    println!("{}", level.map().grid().to_string());

    assert_eq!(format!("{}", level.map().grid().to_string()), xsb_grid);
    assert_eq!(level.map().grid().to_string(), xsb_grid);
}

#[test]
fn formatting_bool() {
    let v2d = Vec2d::new(&[
        vec![true, false, true],
        vec![false, true, false],
        vec![true, false, true],
    ]);

    let expected = "101\n010\n101\n";

    assert_eq!(format!("{}", v2d.to_string()), expected);
    assert_eq!(v2d.to_string(), expected);
}

#[test]
fn formatting_t() {
    let v2d = Vec2d::new(&[
        vec![1, 2, 3],
        vec![42, 1337, 666],
        vec![4, 5, 6],
        vec![7, 88, 9],
    ]);

    let expected = r"
    1    2    3
   42 1337  666
    4    5    6
    7   88    9
"
    .trim_start_matches('\n');

    assert_eq!(format!("{}", v2d.to_string()), expected);
    assert_eq!(v2d.to_string(), expected);
}

#[test]
fn formatting_empty() {
    let v2d: Vec2d<bool> = Vec2d::new(&[]);
    assert_eq!(format!("{}", v2d.to_string()), "");
    assert_eq!(v2d.to_string(), "");

    let v2d: Vec2d<&str> = Vec2d::new(&[]);
    assert_eq!(format!("{}", v2d.to_string()), "");
    assert_eq!(v2d.to_string(), "");
}

#[test]
fn short_rows_are_filled() {
    let v2d = Vec2d::new(&[vec![1, 2, 3], vec![4]]);
    assert_eq!(v2d.rows(), 2);
    assert_eq!(v2d.cols(), 3);
    assert_eq!(v2d.to_string(), " 1 2 3\n 4 0 0\n");
}

#[test]
fn text_grid() {
    let v2d = Vec2d::new(&[vec!["a", "bcd"], vec!["", "ef"]]);
    assert_eq!(v2d.to_string(), "   a bcd\n      ef\n");
}

#[test]
fn scratchpad_of_same_size() {
    let v = Vec2d::new(&[vec![1, 2], vec![3, 4], vec![5, 6]]);
    let s: Vec2d<bool> = v.create_scratchpad(true);
    assert_eq!(s.rows(), 3);
    assert_eq!(s.cols(), 2);
    assert!(*s.get(Pos::new(2, 1)));
    assert_eq!(s.to_string(), "11\n11\n11\n");
}

#[test]
fn scratchpads() {
    let v = Vec2d::new(&[vec![1, 2, 3], vec![4, 5, 6]]);
    let s: Vec2d<bool> = v.scratchpad();
    assert_eq!(s.to_string(), "000\n000\n");
    let t: Vec2d<bool> = v.scratchpad_with_default(true);
    assert_eq!(t.to_string(), "111\n111\n");
}
