//! Printing a solution: the level after every push (and optionally every step).
use vstd::prelude::*;

use crate::config::Format;
use crate::data::{MapCell, Pos};
use crate::map::MapType;
use crate::map_formatter::{can_render, render};
use crate::moves::{Move, Moves};
use crate::rules::{apply_move, replay, state_on_grid, try_apply_move};
use crate::state::State;
use crate::text::push_char;
use crate::vec2d::Grid;

verus! {

/// The grid can be printed and the remover, if any, is its only remover cell.
pub open spec fn grid_ok(grid: Grid<MapCell>, remover: Option<Pos>) -> bool {
    &&& grid.wf()
    &&& (grid.rows == 0 || grid.cols > 0)
    &&& forall|p: Pos| grid.in_bounds(p) && #[trigger] grid.at(p) == MapCell::Remover ==> remover
        == Some(p)
    &&& remover matches Some(r) ==> grid.in_bounds(r) && grid.at(r) == MapCell::Remover
}

/// The player and the boxes stand on the grid, not on walls, and no box is on a remover.
pub open spec fn placement_ok(grid: Grid<MapCell>, player: Pos, boxes: Set<Pos>) -> bool {
    &&& grid.in_bounds(player)
    &&& grid.at(player) != MapCell::Wall
    &&& forall|b: Pos| #[trigger]
        boxes.contains(b) ==> grid.in_bounds(b) && grid.at(b) != MapCell::Wall && grid.at(b)
            != MapCell::Remover
}

/// A proper placement can be printed in any format.
pub proof fn lemma_placement_renders(
    grid: Grid<MapCell>,
    remover: Option<Pos>,
    player: Pos,
    boxes: Set<Pos>,
    format: Format,
)
    requires
        grid_ok(grid, remover),
        placement_ok(grid, player, boxes),
    ensures
        can_render(grid, Some((player, boxes)), format),
{
}

/// An allowed move keeps the placement proper.
pub proof fn lemma_move_keeps_placement(
    grid: Grid<MapCell>,
    remover: Option<Pos>,
    player: Pos,
    boxes: Set<Pos>,
    m: Move,
)
    requires
        grid_ok(grid, remover),
        placement_ok(grid, player, boxes),
        apply_move(grid, remover, player, boxes, m) is Some,
    ensures
        placement_ok(
            grid,
            apply_move(grid, remover, player, boxes, m).unwrap().0,
            apply_move(grid, remover, player, boxes, m).unwrap().1,
        ),
{
}

/// A replay that succeeds also succeeds on every prefix of the moves.
pub proof fn lemma_replay_prefix(
    grid: Grid<MapCell>,
    remover: Option<Pos>,
    player: Pos,
    boxes: Set<Pos>,
    moves: Seq<Move>,
    k: int,
)
    requires
        replay(grid, remover, player, boxes, moves) is Some,
        0 <= k <= moves.len(),
    ensures
        replay(grid, remover, player, boxes, moves.take(k)) is Some,
    decreases moves.len() - k,
{
    if k < moves.len() {
        lemma_replay_prefix(grid, remover, player, boxes, moves, k + 1);
        assert(moves.take(k + 1).drop_last() =~= moves.take(k));
    } else {
        assert(moves.take(k) =~= moves);
    }
}

/// When a prefix of the moves cannot be replayed, neither can all of them.
pub proof fn lemma_replay_prefix_none(
    grid: Grid<MapCell>,
    remover: Option<Pos>,
    player: Pos,
    boxes: Set<Pos>,
    moves: Seq<Move>,
    k: int,
)
    requires
        replay(grid, remover, player, boxes, moves.take(k)) is None,
        0 <= k <= moves.len(),
    ensures
        replay(grid, remover, player, boxes, moves) is None,
{
    if replay(grid, remover, player, boxes, moves) is Some {
        lemma_replay_prefix(grid, remover, player, boxes, moves, k);
    }
}

/// Every state reached by an allowed replay is properly placed.
pub proof fn lemma_replay_keeps_placement(
    grid: Grid<MapCell>,
    remover: Option<Pos>,
    player: Pos,
    boxes: Set<Pos>,
    moves: Seq<Move>,
)
    requires
        grid_ok(grid, remover),
        placement_ok(grid, player, boxes),
        replay(grid, remover, player, boxes, moves) is Some,
    ensures
        placement_ok(
            grid,
            replay(grid, remover, player, boxes, moves).unwrap().0,
            replay(grid, remover, player, boxes, moves).unwrap().1,
        ),
    decreases moves.len(),
{
    if moves.len() > 0 {
        lemma_replay_keeps_placement(grid, remover, player, boxes, moves.drop_last());
        let prev = replay(grid, remover, player, boxes, moves.drop_last()).unwrap();
        lemma_move_keeps_placement(grid, remover, prev.0, prev.1, moves.last());
    }
}

/// The printed solution for the first `n` moves: the initial level, then the level
/// after every push (after every move when `steps`), each followed by an empty line.
pub open spec fn solution_text(
    grid: Grid<MapCell>,
    remover: Option<Pos>,
    player: Pos,
    boxes: Set<Pos>,
    moves: Seq<Move>,
    steps: bool,
    format: Format,
) -> Seq<char>
    decreases moves.len(),
{
    if moves.len() == 0 {
        render(grid, Some((player, boxes)), format).push('\n')
    } else {
        let prev = solution_text(grid, remover, player, boxes, moves.drop_last(), steps, format);
        let cur = replay(grid, remover, player, boxes, moves).unwrap();
        if moves.last().is_push || steps {
            prev + render(grid, Some(cur), format).push('\n')
        } else {
            prev
        }
    }
}

/// Each push adds exactly one frame to the printed solution, the level right after that
/// push, whatever came before it (another push included).
pub proof fn lemma_push_adds_frame(
    grid: Grid<MapCell>,
    remover: Option<Pos>,
    player: Pos,
    boxes: Set<Pos>,
    moves: Seq<Move>,
    k: int,
    steps: bool,
    format: Format,
)
    requires
        0 <= k < moves.len(),
        moves[k].is_push,
    ensures
        solution_text(grid, remover, player, boxes, moves.take(k + 1), steps, format) == solution_text(
            grid,
            remover,
            player,
            boxes,
            moves.take(k),
            steps,
            format,
        ) + render(grid, Some(replay(grid, remover, player, boxes, moves.take(k + 1)).unwrap()), format).push('\n'),
{
    assert(moves.take(k + 1).drop_last() =~= moves.take(k));
    assert(moves.take(k + 1).last() == moves[k]);
}

/// Without the steps, a move that is not a push adds nothing to the printed solution; with
/// them, every move adds the frame of the level after it.
pub proof fn lemma_step_adds_frame(
    grid: Grid<MapCell>,
    remover: Option<Pos>,
    player: Pos,
    boxes: Set<Pos>,
    moves: Seq<Move>,
    k: int,
    steps: bool,
    format: Format,
)
    requires
        0 <= k < moves.len(),
        !moves[k].is_push,
    ensures
        !steps ==> solution_text(grid, remover, player, boxes, moves.take(k + 1), steps, format) == solution_text(
            grid,
            remover,
            player,
            boxes,
            moves.take(k),
            steps,
            format,
        ),
        steps ==> solution_text(grid, remover, player, boxes, moves.take(k + 1), steps, format) == solution_text(
            grid,
            remover,
            player,
            boxes,
            moves.take(k),
            steps,
            format,
        ) + render(grid, Some(replay(grid, remover, player, boxes, moves.take(k + 1)).unwrap()), format).push('\n'),
{
    assert(moves.take(k + 1).drop_last() =~= moves.take(k));
    assert(moves.take(k + 1).last() == moves[k]);
}

/// The printed solution starts with the initial level, and when the last move is a push
/// (or the steps are printed) it ends with the level after all the moves.
pub proof fn lemma_solution_frames_ends(
    grid: Grid<MapCell>,
    remover: Option<Pos>,
    player: Pos,
    boxes: Set<Pos>,
    moves: Seq<Move>,
    steps: bool,
    format: Format,
)
    requires
        moves.len() > 0 ==> moves.last().is_push || steps,
    ensures
        solution_text(grid, remover, player, boxes, moves, steps, format).len() >= render(
            grid,
            Some((player, boxes)),
            format,
        ).len() + 1,
        solution_text(grid, remover, player, boxes, moves, steps, format).take(
            render(grid, Some((player, boxes)), format).len() + 1 as int,
        ) == render(grid, Some((player, boxes)), format).push('\n'),
        ({
            let last = render(grid, Some(replay(grid, remover, player, boxes, moves).unwrap()), format).push('\n');
            let t = solution_text(grid, remover, player, boxes, moves, steps, format);
            t.len() >= last.len() && t.subrange(t.len() - last.len(), t.len() as int) == last
        }),
    decreases moves.len(),
{
    lemma_solution_starts(grid, remover, player, boxes, moves, steps, format);
    if moves.len() == 0 {
        assert(moves =~= Seq::<Move>::empty());
        let t = solution_text(grid, remover, player, boxes, moves, steps, format);
        assert(t.subrange(0, t.len() as int) =~= t);
    } else {
        let prev = solution_text(grid, remover, player, boxes, moves.drop_last(), steps, format);
        let last = render(grid, Some(replay(grid, remover, player, boxes, moves).unwrap()), format).push('\n');
        let t = solution_text(grid, remover, player, boxes, moves, steps, format);
        assert(t == prev + last);
        assert(t.subrange(t.len() - last.len(), t.len() as int) =~= last);
    }
}

/// The printed solution starts with the initial level.
proof fn lemma_solution_starts(
    grid: Grid<MapCell>,
    remover: Option<Pos>,
    player: Pos,
    boxes: Set<Pos>,
    moves: Seq<Move>,
    steps: bool,
    format: Format,
)
    ensures
        solution_text(grid, remover, player, boxes, moves, steps, format).len() >= render(
            grid,
            Some((player, boxes)),
            format,
        ).len() + 1,
        solution_text(grid, remover, player, boxes, moves, steps, format).take(
            render(grid, Some((player, boxes)), format).len() + 1 as int,
        ) == render(grid, Some((player, boxes)), format).push('\n'),
    decreases moves.len(),
{
    let first = render(grid, Some((player, boxes)), format).push('\n');
    let t = solution_text(grid, remover, player, boxes, moves, steps, format);
    if moves.len() == 0 {
        assert(t.take(first.len() as int) =~= first);
    } else {
        lemma_solution_starts(grid, remover, player, boxes, moves.drop_last(), steps, format);
        let prev = solution_text(grid, remover, player, boxes, moves.drop_last(), steps, format);
        assert(prev.take(first.len() as int) == first);
        if moves.last().is_push || steps {
            let cur = replay(grid, remover, player, boxes, moves).unwrap();
            assert(t == prev + render(grid, Some(cur), format).push('\n'));
            assert(t.take(first.len() as int) =~= prev.take(first.len() as int));
        }
    }
}

/// The numbers of moves after which the printed solution shows the level: none at first,
/// then after each push (after each move when `steps`).
pub open spec fn frame_points(moves: Seq<Move>, steps: bool) -> Seq<int>
    decreases moves.len(),
{
    if moves.len() == 0 {
        seq![0int]
    } else if moves.last().is_push || steps {
        frame_points(moves.drop_last(), steps).push(moves.len() as int)
    } else {
        frame_points(moves.drop_last(), steps)
    }
}

/// The level after the first `k` moves, as one frame of a printed solution.
pub open spec fn frame_after(
    grid: Grid<MapCell>,
    remover: Option<Pos>,
    player: Pos,
    boxes: Set<Pos>,
    moves: Seq<Move>,
    k: int,
    format: Format,
) -> Seq<char> {
    render(grid, Some(replay(grid, remover, player, boxes, moves.take(k)).unwrap()), format).push('\n')
}

/// The printed solution is the initial level and then one frame per push (per move with
/// the steps), in order: without the steps it holds one frame more than there are pushes.
pub proof fn lemma_solution_frames(
    grid: Grid<MapCell>,
    remover: Option<Pos>,
    player: Pos,
    boxes: Set<Pos>,
    moves: Seq<Move>,
    steps: bool,
    format: Format,
)
    ensures
        frame_points(moves, steps).len() == 1 + (if steps {
            moves.len()
        } else {
            crate::moves::push_count(moves)
        }),
        frame_points(moves, steps)[0] == 0,
        forall|i: int| 0 <= i < frame_points(moves, steps).len() ==> 0 <= #[trigger] frame_points(moves, steps)[i] <= moves.len(),
        solution_text(grid, remover, player, boxes, moves, steps, format) == Seq::new(
            frame_points(moves, steps).len(),
            |i: int| frame_after(grid, remover, player, boxes, moves, frame_points(moves, steps)[i], format),
        ).flatten_alt(),
    decreases moves.len(),
{
    let fp = frame_points(moves, steps);
    let fr = Seq::new(fp.len(), |i: int| frame_after(grid, remover, player, boxes, moves, fp[i], format));
    if moves.len() == 0 {
        assert(moves.take(0) =~= moves);
        assert(fr.drop_last() =~= Seq::<Seq<char>>::empty());
        assert(fr.drop_last().flatten_alt() == Seq::<char>::empty());
        assert(fr.last() == fr[0]);
        assert(fr.flatten_alt() == fr.drop_last().flatten_alt() + fr.last());
        assert(fr.flatten_alt() =~= fr[0]);
    } else {
        let m0 = moves.drop_last();
        lemma_solution_frames(grid, remover, player, boxes, m0, steps, format);
        let fp0 = frame_points(m0, steps);
        let fr0 = Seq::new(fp0.len(), |i: int| frame_after(grid, remover, player, boxes, m0, fp0[i], format));
        assert forall|i: int| 0 <= i < fp0.len() implies fr0[i] == frame_after(grid, remover, player, boxes, moves, fp0[i], format) by {
            assert(m0.take(fp0[i]) =~= moves.take(fp0[i]));
        }
        if moves.last().is_push || steps {
            assert(fr.drop_last() =~= fr0);
            assert(moves.take(moves.len() as int) =~= moves);
            assert(fr.last() == render(grid, Some(replay(grid, remover, player, boxes, moves).unwrap()), format).push('\n'));
        } else {
            assert(fr =~= fr0);
        }
    }
}

/// Prints a solution of a level.
pub struct SolutionFormatter<'a> {
    pub map: &'a MapType,
    pub initial_state: &'a State,
    pub moves: &'a Moves,
    pub include_steps: bool,
    pub format: Format,
}

impl<'a> SolutionFormatter<'a> {
    pub fn new(
        map: &'a MapType,
        initial_state: &'a State,
        moves: &'a Moves,
        include_steps: bool,
        format: Format,
    ) -> (sf: Self)
        ensures
            sf.map == map,
            sf.initial_state == initial_state,
            sf.moves == moves,
            sf.include_steps == include_steps,
            sf.format == format,
    {
        Self { map, initial_state, moves, include_steps, format }
    }

    /// The moves can be replayed on the level.
    pub open spec fn can_print(&self) -> bool {
        &&& grid_ok(self.map.spec_grid(), self.map.spec_remover())
        &&& placement_ok(
            self.map.spec_grid(),
            self.initial_state.player_pos,
            self.initial_state.boxes@.to_set(),
        )
        &&& state_on_grid(self.map.spec_grid(), *self.initial_state)
        &&& replay(
            self.map.spec_grid(),
            self.map.spec_remover(),
            self.initial_state.player_pos,
            self.initial_state.boxes@.to_set(),
            self.moves@,
        ) is Some
    }

    /// The printed solution.
    pub fn to_string(&self) -> (s: String)
        requires
            self.can_print(),
        ensures
            s@ == solution_text(
                self.map.spec_grid(),
                self.map.spec_remover(),
                self.initial_state.player_pos,
                self.initial_state.boxes@.to_set(),
                self.moves@,
                self.include_steps,
                self.format,
            ),
    {
        let ghost g = self.map.spec_grid();
        let ghost rem = self.map.spec_remover();
        let ghost p0 = self.initial_state.player_pos;
        let ghost b0 = self.initial_state.boxes@.to_set();
        let grid = self.map.grid();
        let remover = self.map.remover();
        proof {
            lemma_placement_renders(g, rem, p0, b0, self.format);
        }
        let mut out = self.map.format_with_state(self.format, self.initial_state).to_string();
        push_char(&mut out, '\n');
        let mut last_state = self.initial_state.clone();
        let mut i: usize = 0;
        while i < self.moves.move_cnt()
            invariant
                grid@ == g,
                remover == rem,
                self.can_print(),
                g == self.map.spec_grid(),
                rem == self.map.spec_remover(),
                p0 == self.initial_state.player_pos,
                b0 == self.initial_state.boxes@.to_set(),
                i <= self.moves@.len(),
                state_on_grid(g, last_state),
                replay(g, rem, p0, b0, self.moves@.take(i as int)) == Some(
                    (last_state.player_pos, last_state.boxes@.to_set()),
                ),
                out@ == solution_text(
                    g,
                    rem,
                    p0,
                    b0,
                    self.moves@.take(i as int),
                    self.include_steps,
                    self.format,
                ),
            decreases self.moves@.len() - i,
        {
            let mov = self.moves.as_slice()[i];
            let ghost pre = self.moves@.take(i as int);
            let ghost cur = self.moves@.take(i as int + 1);
            proof {
                assert(cur.drop_last() =~= pre);
                assert(cur.last() == mov);
                lemma_replay_prefix(g, rem, p0, b0, self.moves@, i as int + 1);
            }
            let new_state = match try_apply_move(grid, remover, &last_state, mov) {
                Some(s) => s,
                None => {
                    proof {
                        assert(false);
                    }
                    return out;
                },
            };
            if mov.is_push || self.include_steps {
                proof {
                    lemma_replay_keeps_placement(g, rem, p0, b0, cur);
                    lemma_placement_renders(
                        g,
                        rem,
                        new_state.player_pos,
                        new_state.boxes@.to_set(),
                        self.format,
                    );
                }
                let text = self.map.format_with_state(self.format, &new_state).to_string();
                out.append(text.as_str());
                push_char(&mut out, '\n');
            }
            last_state = new_state;
            i = i + 1;
        }
        proof {
            assert(self.moves@.take(i as int) =~= self.moves@);
        }
        out
    }
}

} // verus!
