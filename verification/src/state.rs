//! The dynamic part of a level: where the player and the boxes are.
use vstd::prelude::*;

use crate::data::Pos;

verus! {

broadcast use vstd::seq_lib::group_to_multiset_ensures;

/// Positions in increasing order (row first, then column), each at most once.
pub open spec fn sorted(s: Seq<Pos>) -> bool {
    forall|i: int, j: int| 0 <= i < j < s.len() ==> (#[trigger] s[i]).spec_lt(#[trigger] s[j])
}

/// Positions in non-decreasing order.
pub open spec fn sorted_le(s: Seq<Pos>) -> bool {
    forall|i: int, j: int| 0 <= i < j < s.len() ==> (#[trigger] s[i]).spec_le(#[trigger] s[j])
}

/// No position occurs twice.
pub open spec fn distinct(s: Seq<Pos>) -> bool {
    forall|i: int, j: int| 0 <= i < j < s.len() ==> s[i] != s[j]
}

/// Where the player is and where the boxes are; the boxes are kept sorted.
#[derive(Debug, PartialEq, Eq, Hash)]
pub struct State {
    pub player_pos: Pos,
    pub boxes: Vec<Pos>,
}

impl View for State {
    type V = (Pos, Seq<Pos>);

    open spec fn view(&self) -> (Pos, Seq<Pos>) {
        (self.player_pos, self.boxes@)
    }
}

impl Clone for State {
    fn clone(&self) -> (s: State)
        ensures
            s@ == self@,
    {
        State { player_pos: self.player_pos, boxes: copy_positions(&self.boxes) }
    }
}

/// A copy of a vector of positions.
pub fn copy_positions(v: &Vec<Pos>) -> (w: Vec<Pos>)
    ensures
        w@ == v@,
{
    let mut w: Vec<Pos> = Vec::with_capacity(v.len());
    let mut i: usize = 0;
    while i < v.len()
        invariant
            i <= v@.len(),
            w@ == v@.subrange(0, i as int),
        decreases v@.len() - i,
    {
        w.push(v[i]);
        proof {
            assert(v@.subrange(0, i as int + 1) =~= v@.subrange(0, i as int).push(v@[i as int]));
        }
        i = i + 1;
    }
    proof {
        assert(v@.subrange(0, i as int) =~= v@);
    }
    w
}

/// `pos` is in `v`.
pub fn contains_pos(v: &Vec<Pos>, pos: Pos) -> (b: bool)
    ensures
        b == v@.contains(pos),
{
    let mut i: usize = 0;
    while i < v.len()
        invariant
            i <= v@.len(),
            forall|j: int| 0 <= j < i ==> v@[j] != pos,
        decreases v@.len() - i,
    {
        if v[i] == pos {
            return true;
        }
        i = i + 1;
    }
    false
}

/// Sorts positions (row first, then column) by inserting them one by one.
pub fn sort_positions(v: Vec<Pos>) -> (w: Vec<Pos>)
    ensures
        w@.to_multiset() == v@.to_multiset(),
        sorted_le(w@),
        w@.len() == v@.len(),
{
    let mut w: Vec<Pos> = Vec::with_capacity(v.len());
    let mut i: usize = 0;
    while i < v.len()
        invariant
            i <= v@.len(),
            w@.to_multiset() == v@.subrange(0, i as int).to_multiset(),
            sorted_le(w@),
            w@.len() == i,
        decreases v@.len() - i,
    {
        let b = v[i];
        let mut j: usize = w.len();
        while j > 0 && b.less_than(&w[j - 1])
            invariant
                j <= w@.len(),
                sorted_le(w@),
                forall|k: int| j <= k < w@.len() ==> b.spec_lt(#[trigger] w@[k]),
            decreases j,
        {
            j = j - 1;
        }
        let ghost old_w = w@;
        w.insert(j, b);
        proof {
            assert(v@.subrange(0, i as int + 1) =~= v@.subrange(0, i as int).push(b));
            assert(w@ =~= old_w.insert(j as int, b));
            assert forall|x: int, y: int| 0 <= x < y < w@.len() implies (#[trigger] w@[x]).spec_le(
                #[trigger] w@[y],
            ) by {
                if x < j && y < j {
                    assert(w@[x] == old_w[x] && w@[y] == old_w[y]);
                } else if x < j && y == j {
                    assert(w@[x] == old_w[x]);
                    assert(old_w[x].spec_le(old_w[j - 1]));
                } else if x < j {
                    assert(w@[x] == old_w[x] && w@[y] == old_w[y - 1]);
                } else if x == j {
                    assert(w@[y] == old_w[y - 1]);
                } else {
                    assert(w@[x] == old_w[x - 1] && w@[y] == old_w[y - 1]);
                }
            }
        }
        i = i + 1;
    }
    proof {
        assert(v@.subrange(0, i as int) =~= v@);
    }
    w
}

/// A non-decreasing sequence of distinct positions is strictly increasing.
pub proof fn lemma_sorted_distinct(s: Seq<Pos>)
    requires
        sorted_le(s),
        distinct(s),
    ensures
        sorted(s),
{
}

/// Distinctness depends only on the multiset of elements.
pub proof fn lemma_distinct_multiset(a: Seq<Pos>, b: Seq<Pos>)
    requires
        a.to_multiset() == b.to_multiset(),
        distinct(a),
    ensures
        distinct(b),
{
    assert(a.no_duplicates()) by {
        assert forall|i: int, j: int| 0 <= i < a.len() && 0 <= j < a.len() && i != j implies a[i]
            != a[j] by {
            if i < j {
            } else {
            }
        }
    }
    a.lemma_multiset_has_no_duplicates();
    b.lemma_multiset_has_no_duplicates_conv();
    assert forall|i: int, j: int| 0 <= i < j < b.len() implies b[i] != b[j] by {
        assert(b.no_duplicates());
    }
}

/// Two sorted sequences with the same elements are equal.
pub proof fn lemma_sorted_unique(a: Seq<Pos>, b: Seq<Pos>)
    requires
        sorted_le(a),
        sorted_le(b),
        a.to_multiset() == b.to_multiset(),
    ensures
        a == b,
    decreases a.len(),
{
    broadcast use vstd::multiset::group_multiset_axioms;

    a.to_multiset_ensures();
    b.to_multiset_ensures();
    if a.len() == 0 {
        assert(b.len() == 0);
        assert(a =~= b);
    } else {
        let x = a.last();
        let y = b.last();
        assert(a.contains(x));
        assert(b.to_multiset().count(x) > 0);
        assert(b.contains(x));
        assert(a.to_multiset().count(y) > 0);
        assert(a.contains(y));
        let ix = choose|k: int| 0 <= k < b.len() && b[k] == x;
        let iy = choose|k: int| 0 <= k < a.len() && a[k] == y;
        if ix < b.len() - 1 {
            assert(x.spec_le(y));
        }
        if iy < a.len() - 1 {
            assert(y.spec_le(x));
        }
        assert(x == y);
        let a2 = a.drop_last();
        let b2 = b.drop_last();
        assert(a2.push(x) =~= a);
        assert(b2.push(y) =~= b);
        assert(a2.to_multiset() =~= a.to_multiset().remove(x));
        assert(b2.to_multiset() =~= b.to_multiset().remove(y));
        lemma_sorted_unique(a2, b2);
        assert(a =~= b);
    }
}

/// Two strictly increasing sequences with the same elements are equal.
pub proof fn lemma_sorted_set_unique(a: Seq<Pos>, b: Seq<Pos>)
    requires
        sorted(a),
        sorted(b),
        a.to_set() == b.to_set(),
    ensures
        a == b,
    decreases a.len(),
{
    if a.len() == 0 {
        if b.len() > 0 {
            assert(b.to_set().contains(b[0]));
        }
        assert(a =~= b);
    } else {
        assert(b.len() > 0) by {
            assert(a.to_set().contains(a[0]));
        }
        let x = a.last();
        let y = b.last();
        assert(a.to_set().contains(x));
        assert(b.to_set().contains(y));
        let ix = choose|k: int| 0 <= k < b.len() && b[k] == x;
        let iy = choose|k: int| 0 <= k < a.len() && a[k] == y;
        if ix < b.len() - 1 {
            assert(x.spec_lt(y));
        }
        if iy < a.len() - 1 {
            assert(y.spec_lt(x));
        }
        assert(x == y);
        let a2 = a.drop_last();
        let b2 = b.drop_last();
        assert(a2.to_set() =~= b2.to_set()) by {
            assert forall|p: Pos| a2.to_set().contains(p) implies b2.to_set().contains(p) by {
                let k = choose|k: int| 0 <= k < a2.len() && a2[k] == p;
                assert(a[k] == p);
                assert(p.spec_lt(x));
                assert(b.to_set().contains(p));
                let kb = choose|kb: int| 0 <= kb < b.len() && b[kb] == p;
                assert(kb != b.len() - 1);
                assert(b2[kb] == p);
            }
            assert forall|p: Pos| b2.to_set().contains(p) implies a2.to_set().contains(p) by {
                let k = choose|k: int| 0 <= k < b2.len() && b2[k] == p;
                assert(b[k] == p);
                assert(p.spec_lt(y));
                assert(a.to_set().contains(p));
                let ka = choose|ka: int| 0 <= ka < a.len() && a[ka] == p;
                assert(ka != a.len() - 1);
                assert(a2[ka] == p);
            }
        }
        lemma_sorted_set_unique(a2, b2);
        assert(a =~= b) by {
            assert(a2.push(x) =~= a);
            assert(b2.push(y) =~= b);
        }
    }
}

/// Sequences with the same elements as multisets contain the same elements.
pub proof fn lemma_multiset_to_set(a: Seq<Pos>, b: Seq<Pos>)
    requires
        a.to_multiset() == b.to_multiset(),
    ensures
        a.to_set() == b.to_set(),
{
    a.to_multiset_ensures();
    b.to_multiset_ensures();
    assert forall|p: Pos| a.to_set().contains(p) <==> b.to_set().contains(p) by {
        assert(a.contains(p) <==> a.to_multiset().count(p) > 0);
        assert(b.contains(p) <==> b.to_multiset().count(p) > 0);
    }
    assert(a.to_set() =~= b.to_set());
}

/// Replacing the only occurrence of `s[i]` by `y`.
pub proof fn lemma_update_to_set(s: Seq<Pos>, i: int, y: Pos)
    requires
        distinct(s),
        0 <= i < s.len(),
        !s.contains(y),
    ensures
        s.update(i, y).to_set() == s.to_set().remove(s[i]).insert(y),
        distinct(s.update(i, y)),
{
    assert(s.update(i, y).to_set() =~= s.to_set().remove(s[i]).insert(y)) by {
        assert forall|p: Pos| s.update(i, y).to_set().contains(p) implies s.to_set().remove(
            s[i],
        ).insert(y).contains(p) by {
            let k = choose|k: int| 0 <= k < s.len() && s.update(i, y)[k] == p;
            if k != i {
                assert(s.contains(p));
            }
        }
        assert forall|p: Pos| s.to_set().remove(s[i]).insert(y).contains(p) implies s.update(
            i,
            y,
        ).to_set().contains(p) by {
            if p == y {
                assert(s.update(i, y)[i] == y);
            } else {
                let k = choose|k: int| 0 <= k < s.len() && s[k] == p;
                assert(k != i);
                assert(s.update(i, y)[k] == p);
            }
        }
    }
    assert forall|a: int, b: int| 0 <= a < b < s.update(i, y).len() implies s.update(i, y)[a]
        != s.update(i, y)[b] by {
        if a == i {
            assert(s.contains(s[b]));
        } else if b == i {
            assert(s.contains(s[a]));
        }
    }
}

/// Removing the only occurrence of `s[i]`.
pub proof fn lemma_remove_to_set(s: Seq<Pos>, i: int)
    requires
        distinct(s),
        0 <= i < s.len(),
    ensures
        s.remove(i).to_set() == s.to_set().remove(s[i]),
        distinct(s.remove(i)),
{
    s.remove_ensures(i);
    assert(s.remove(i).to_set() =~= s.to_set().remove(s[i])) by {
        assert forall|p: Pos| s.remove(i).to_set().contains(p) implies s.to_set().remove(
            s[i],
        ).contains(p) by {
            let k = choose|k: int| 0 <= k < s.remove(i).len() && s.remove(i)[k] == p;
            if k < i {
                assert(s[k] == p);
            } else {
                assert(s[k + 1] == p);
            }
        }
        assert forall|p: Pos| s.to_set().remove(s[i]).contains(p) implies s.remove(
            i,
        ).to_set().contains(p) by {
            let k = choose|k: int| 0 <= k < s.len() && s[k] == p;
            assert(k != i);
            if k < i {
                assert(s.remove(i)[k] == p);
            } else {
                assert(s.remove(i)[k - 1] == p);
            }
        }
    }
    assert forall|a: int, b: int| 0 <= a < b < s.remove(i).len() implies s.remove(i)[a] != s.remove(
        i,
    )[b] by {
        if a < i && b < i {
        } else if a < i {
            assert(s.remove(i)[b] == s[b + 1]);
        } else {
            assert(s.remove(i)[a] == s[a + 1]);
            assert(s.remove(i)[b] == s[b + 1]);
        }
    }
}

/// The index of `pos` in `v`, if it is there.
pub fn position_of(v: &Vec<Pos>, pos: Pos) -> (r: Option<usize>)
    ensures
        match r {
            Some(i) => i < v@.len() && v@[i as int] == pos,
            None => !v@.contains(pos),
        },
{
    let mut i: usize = 0;
    while i < v.len()
        invariant
            i <= v@.len(),
            forall|j: int| 0 <= j < i ==> v@[j] != pos,
        decreases v@.len() - i,
    {
        if v[i] == pos {
            return Some(i);
        }
        i = i + 1;
    }
    None
}

impl State {
    /// The same player position and the same boxes in the same order.
    pub fn same(&self, other: &State) -> (b: bool)
        ensures
            b == (self@ == other@),
    {
        if self.player_pos != other.player_pos || self.boxes.len() != other.boxes.len() {
            return false;
        }
        let mut i: usize = 0;
        while i < self.boxes.len()
            invariant
                i <= self.boxes@.len(),
                self.boxes@.len() == other.boxes@.len(),
                forall|j: int| 0 <= j < i ==> self.boxes@[j] == other.boxes@[j],
            decreases self.boxes@.len() - i,
        {
            if self.boxes[i] != other.boxes[i] {
                return false;
            }
            i = i + 1;
        }
        proof {
            assert(self.boxes@ =~= other.boxes@);
        }
        true
    }

    /// A state with the boxes sorted, so that states that differ only in the order of
    /// the boxes are equal.
    pub fn new(player_pos: Pos, boxes: Vec<Pos>) -> (s: State)
        ensures
            s.player_pos == player_pos,
            s.boxes@.to_multiset() == boxes@.to_multiset(),
            sorted_le(s.boxes@),
            s.boxes@.len() == boxes@.len(),
            distinct(boxes@) ==> sorted(s.boxes@) && distinct(s.boxes@),
            s.boxes@.to_set() == boxes@.to_set(),
    {
        let sorted_boxes = sort_positions(boxes);
        proof {
            lemma_multiset_to_set(sorted_boxes@, boxes@);
            if distinct(boxes@) {
                lemma_distinct_multiset(boxes@, sorted_boxes@);
                lemma_sorted_distinct(sorted_boxes@);
            }
        }
        State { player_pos, boxes: sorted_boxes }
    }
}

/// Creating a state does not depend on the order of the boxes: states made from
/// the same player position and the same boxes in any order are equal.
pub proof fn lemma_state_new_canonical(a: Seq<Pos>, b: Seq<Pos>, sa: Seq<Pos>, sb: Seq<Pos>)
    requires
        a.to_multiset() == b.to_multiset(),
        sa.to_multiset() == a.to_multiset(),
        sb.to_multiset() == b.to_multiset(),
        sorted_le(sa),
        sorted_le(sb),
    ensures
        sa == sb,
{
    lemma_sorted_unique(sa, sb);
}

} // verus!
