use sokoban_solver::data::Dir;
use sokoban_solver::moves::{Move, Moves};

#[test]
fn formatting_moves() {
    let moves = Moves::new(vec![
        Move::new(Dir::Up, false),
        Move::new(Dir::Right, false),
        Move::new(Dir::Down, false),
        Move::new(Dir::Left, false),
        Move::new(Dir::Up, true),
        Move::new(Dir::Right, true),
        Move::new(Dir::Down, true),
        Move::new(Dir::Left, true),
    ]);
    assert_eq!(moves.to_string(), "urdlURDL");
}

#[test]
fn extending_and_counting() {
    let mut moves1 = Moves::new(vec![
        Move::new(Dir::Up, true),
        Move::new(Dir::Right, true),
        Move::new(Dir::Down, true),
        Move::new(Dir::Left, true),
    ]);

    let moves2 = Moves::new(vec![
        Move::new(Dir::Up, false),
        Move::new(Dir::Right, false),
        Move::new(Dir::Down, false),
        Move::new(Dir::Left, false),
    ]);

    assert_eq!(moves1.move_cnt(), 4);
    assert_eq!(moves1.push_cnt(), 4);
    assert_eq!(moves2.move_cnt(), 4);
    assert_eq!(moves2.push_cnt(), 0);

    moves1.extend(&moves2);

    assert_eq!(moves1.move_cnt(), 8);
    assert_eq!(moves1.push_cnt(), 4);
}

#[test]
fn iterating() {
    let v = vec![
        Move::new(Dir::Up, false),
        Move::new(Dir::Right, false),
        Move::new(Dir::Down, false),
        Move::new(Dir::Left, false),
        Move::new(Dir::Up, true),
        Move::new(Dir::Right, true),
        Move::new(Dir::Down, true),
        Move::new(Dir::Left, true),
    ];
    let moves = Moves::new(v.clone());

    let mut v2 = Vec::new();
    for &m in moves.as_slice() {
        v2.push(m);
    }
    for &m in moves.as_slice().iter() {
        v2.push(m);
    }
    for m in moves.clone().into_vec() {
        v2.push(m);
    }
    for m in moves.into_vec().into_iter() {
        v2.push(m);
    }

    assert_eq!(v2.len(), 32);
    for chunk in v2.chunks(8) {
        assert_eq!(chunk, &v[..]);
    }
}

#[test]
fn moves_add_and_chars() {
    let mut moves = Moves::default();
    assert_eq!(moves.to_string(), "");
    moves.add(Move::new(Dir::Left, true));
    moves.add(Move::new(Dir::Down, false));
    assert_eq!(moves.to_string(), "Ld");
    assert_eq!(moves.move_cnt(), 2);
    assert_eq!(moves.push_cnt(), 1);
    assert_eq!(Move::new(Dir::Up, true).to_char(), 'U');
}
