use sokoban_solver::data::Pos;
use sokoban_solver::state::State;

#[test]
fn states_do_not_depend_on_box_order() {
    let a = State::new(Pos::new(1, 1), vec![Pos::new(2, 3), Pos::new(1, 2), Pos::new(2, 1)]);
    let b = State::new(Pos::new(1, 1), vec![Pos::new(2, 1), Pos::new(2, 3), Pos::new(1, 2)]);
    assert_eq!(a, b);
    assert!(a.same(&b));
    assert_eq!(a.boxes, vec![Pos::new(1, 2), Pos::new(2, 1), Pos::new(2, 3)]);
    let c = State::new(Pos::new(1, 2), vec![Pos::new(2, 1)]);
    assert!(!a.same(&c));
}
