//! The rules of the game as specifications: what a move does and when a level is solved.
use vstd::prelude::*;

use crate::data::{Dir, MapCell, Pos};
use crate::moves::Move;
use crate::state::{State, distinct, sorted, copy_positions, contains_pos, position_of, lemma_update_to_set, lemma_remove_to_set};
use crate::vec2d::{Grid, Vec2d};

verus! {

/// The cell reached from `p` by one step in direction `d`, when it lies on the grid.
pub open spec fn step_on(grid: Grid<MapCell>, p: Pos, d: Dir) -> Option<Pos> {
    let r = p.r + d.dr();
    let c = p.c + d.dc();
    if 0 <= r < grid.rows && 0 <= c < grid.cols {
        Some(Pos { r: r as u8, c: c as u8 })
    } else {
        None
    }
}

/// The result of one move of the player, or `None` when the move is not allowed:
/// the player may step on a cell which is neither a wall nor a box; a push moves the
/// box in front of the player one cell further, onto a cell which is neither a wall nor
/// a box; a box pushed onto the remover disappears.
pub open spec fn apply_move(
    grid: Grid<MapCell>,
    remover: Option<Pos>,
    player: Pos,
    boxes: Set<Pos>,
    m: Move,
) -> Option<(Pos, Set<Pos>)> {
    match step_on(grid, player, m.dir) {
        None => None,
        Some(np) => if grid.at(np) == MapCell::Wall {
            None
        } else if !m.is_push {
            if boxes.contains(np) {
                None
            } else {
                Some((np, boxes))
            }
        } else {
            match step_on(grid, np, m.dir) {
                None => None,
                Some(nb) => if grid.at(nb) == MapCell::Wall || boxes.contains(nb) || !boxes.contains(
                    np,
                ) {
                    None
                } else if remover == Some(nb) {
                    Some((np, boxes.remove(np)))
                } else {
                    Some((np, boxes.remove(np).insert(nb)))
                },
            }
        },
    }
}

/// The position of the player and the boxes after all `moves`, or `None` when one of
/// them is not allowed.
pub open spec fn replay(
    grid: Grid<MapCell>,
    remover: Option<Pos>,
    player: Pos,
    boxes: Set<Pos>,
    moves: Seq<Move>,
) -> Option<(Pos, Set<Pos>)>
    decreases moves.len(),
{
    if moves.len() == 0 {
        Some((player, boxes))
    } else {
        match replay(grid, remover, player, boxes, moves.drop_last()) {
            None => None,
            Some((p, b)) => apply_move(grid, remover, p, b, moves.last()),
        }
    }
}

/// Every box stands on a goal (on a remover map: no box is left).
pub open spec fn solved(grid: Grid<MapCell>, boxes: Set<Pos>) -> bool {
    forall|b: Pos| boxes.contains(b) ==> grid.at(b) == MapCell::Goal
}

/// Replaying `a` and then `b` is replaying `a + b`.
pub proof fn lemma_replay_concat(
    grid: Grid<MapCell>,
    remover: Option<Pos>,
    player: Pos,
    boxes: Set<Pos>,
    a: Seq<Move>,
    b: Seq<Move>,
)
    requires
        replay(grid, remover, player, boxes, a) is Some,
    ensures
        replay(grid, remover, player, boxes, a + b) == replay(
            grid,
            remover,
            replay(grid, remover, player, boxes, a).unwrap().0,
            replay(grid, remover, player, boxes, a).unwrap().1,
            b,
        ),
    decreases b.len(),
{
    if b.len() == 0 {
        assert(a + b =~= a);
    } else {
        lemma_replay_concat(grid, remover, player, boxes, a, b.drop_last());
        assert((a + b).drop_last() =~= a + b.drop_last());
    }
}

/// All positions of the state lie on the grid and no box is listed twice.
pub open spec fn state_on_grid(grid: Grid<MapCell>, s: State) -> bool {
    &&& grid.in_bounds(s.player_pos)
    &&& distinct(s.boxes@)
    &&& forall|i: int| 0 <= i < s.boxes@.len() ==> grid.in_bounds(#[trigger] s.boxes@[i])
}

/// The cell one step from `p` in direction `d`, when it lies on the grid.
pub fn step_pos(grid: &Vec2d<MapCell>, p: Pos, d: Dir) -> (q: Option<Pos>)
    ensures
        q == step_on(grid@, p, d),
{
    let r: i16 = p.r as i16 + match d {
        Dir::Up => -1i16,
        Dir::Down => 1i16,
        _ => 0i16,
    };
    let c: i16 = p.c as i16 + match d {
        Dir::Left => -1i16,
        Dir::Right => 1i16,
        _ => 0i16,
    };
    if 0 <= r && r < grid.rows() as i16 && 0 <= c && c < grid.cols() as i16 {
        Some(Pos { r: r as u8, c: c as u8 })
    } else {
        None
    }
}

/// Applies one move to a state; `None` exactly when the rules do not allow the move.
pub fn try_apply_move(grid: &Vec2d<MapCell>, remover: Option<Pos>, s: &State, m: Move) -> (r:
    Option<State>)
    requires
        grid.wf(),
        state_on_grid(grid@, *s),
    ensures
        match apply_move(grid@, remover, s.player_pos, s.boxes@.to_set(), m) {
            None => r is None,
            Some((p, b)) => r matches Some(ns) && ns.player_pos == p && ns.boxes@.to_set() == b
                && state_on_grid(grid@, ns) && sorted(ns.boxes@),
        },
{
    let new_player_pos = match step_pos(grid, s.player_pos, m.dir) {
        None => return None,
        Some(p) => p,
    };
    if *grid.get(new_player_pos) == MapCell::Wall {
        return None;
    }
    let mut new_boxes = copy_positions(&s.boxes);
    if m.is_push {
        let new_box_pos = match step_pos(grid, new_player_pos, m.dir) {
            None => return None,
            Some(p) => p,
        };
        if *grid.get(new_box_pos) == MapCell::Wall || contains_pos(&new_boxes, new_box_pos) {
            return None;
        }
        let box_index = match position_of(&new_boxes, new_player_pos) {
            None => return None,
            Some(i) => i,
        };
        proof {
            lemma_update_to_set(new_boxes@, box_index as int, new_box_pos);
        }
        let ghost before = new_boxes@;
        new_boxes.set(box_index, new_box_pos);
        if remover == Some(new_box_pos) {
            proof {
                lemma_remove_to_set(new_boxes@, box_index as int);
                assert(before.update(box_index as int, new_box_pos).remove(box_index as int).to_set()
                    =~= before.to_set().remove(new_player_pos)) by {
                    assert(before.update(box_index as int, new_box_pos).remove(box_index as int)
                        =~= before.remove(box_index as int));
                    lemma_remove_to_set(before, box_index as int);
                }
            }
            new_boxes.remove(box_index);
        }
    } else {
        if contains_pos(&new_boxes, new_player_pos) {
            return None;
        }
    }
    let ghost nb = new_boxes@;
    let ns = State::new(new_player_pos, new_boxes);
    proof {
        assert forall|i: int| 0 <= i < ns.boxes@.len() implies grid@.in_bounds(#[trigger] ns.boxes@[i]) by {
            assert(ns.boxes@.to_set().contains(ns.boxes@[i]));
            assert(nb.to_set().contains(ns.boxes@[i]));
            let k = choose|k: int| 0 <= k < nb.len() && nb[k] == ns.boxes@[i];
            if m.is_push && k < nb.len() && nb[k] != s.boxes@[k] {
            }
            assert(nb.contains(ns.boxes@[i]));
            if s.boxes@.contains(ns.boxes@[i]) {
                let j = choose|j: int| 0 <= j < s.boxes@.len() && s.boxes@[j] == ns.boxes@[i];
                assert(grid@.in_bounds(s.boxes@[j]));
            }
        }
    }
    Some(ns)
}

} // verus!
