//! Statistics of a search: how many states were created, visited and found again at
//! every depth.
use vstd::prelude::*;

use separator::Separatable;

use crate::text::{chars_of, decimal, decimal_nat, decimal_u64, pad_right, push_char, push_chars, push_padded_right};

verus! {

/// Decimal digits with a comma before every digit, except the first, whose number of
/// digits to the right end (itself included) is a multiple of three.
pub open spec fn group_digits(d: Seq<char>) -> Seq<char>
    decreases d.len(),
{
    if d.len() <= 1 {
        d
    } else {
        seq![d[0]] + (if (d.len() - 1) % 3 == 0 {
            seq![',']
        } else {
            Seq::empty()
        }) + group_digits(d.skip(1))
    }
}

/// A number with its digits grouped by three, for example `-1,234,567`.
pub open spec fn separated_text(n: int) -> Seq<char> {
    if n < 0 {
        seq!['-'] + group_digits(decimal_nat((-n) as nat))
    } else {
        group_digits(decimal_nat(n as nat))
    }
}

/// `Separatable::separated_string` of the separator crate on an `i128`: the decimal
/// digits in groups of three separated by commas, with a leading minus sign for a
/// negative number.
#[verifier::external_body]
pub(crate) fn separated(n: i128) -> (s: Vec<char>)
    ensures
        s@ == separated_text(n as int),
{
    n.separated_string().chars().collect()
}

/// The sum of the counts, or `u64::MAX` when it does not fit.
pub open spec fn total(s: Seq<u64>) -> nat
    decreases s.len(),
{
    if s.len() == 0 {
        0
    } else {
        let t: nat = total(s.drop_last()) + s.last() as nat;
        if t > u64::MAX {
            u64::MAX as nat
        } else {
            t
        }
    }
}

/// The counts after one more state at `depth`: the counts grow with zeros up to `depth`
/// and the count at `depth` goes up by one (it stays at `u64::MAX` once there).
pub open spec fn counted(s: Seq<u64>, depth: int) -> Seq<u64> {
    let grown = if depth < s.len() {
        s
    } else {
        s + Seq::new((depth + 1 - s.len()) as nat, |i: int| 0u64)
    };
    grown.update(depth, if grown[depth] == u64::MAX {
        u64::MAX
    } else {
        (grown[depth] + 1) as u64
    })
}

/// The sum of the counts, without a cap.
pub open spec fn raw_total(s: Seq<u64>) -> nat
    decreases s.len(),
{
    if s.len() == 0 {
        0
    } else {
        raw_total(s.drop_last()) + s.last() as nat
    }
}

proof fn lemma_total_capped(s: Seq<u64>)
    ensures
        total(s) == if raw_total(s) > u64::MAX {
            u64::MAX as nat
        } else {
            raw_total(s)
        },
    decreases s.len(),
{
    if s.len() > 0 {
        lemma_total_capped(s.drop_last());
    }
}

proof fn lemma_raw_total_zeros(s: Seq<u64>, n: nat)
    ensures
        raw_total(s + Seq::new(n, |i: int| 0u64)) == raw_total(s),
    decreases n,
{
    if n > 0 {
        let t = s + Seq::new(n, |i: int| 0u64);
        assert(t.drop_last() =~= s + Seq::new((n - 1) as nat, |i: int| 0u64));
        assert(t.last() == 0u64);
        lemma_raw_total_zeros(s, (n - 1) as nat);
    } else {
        assert(s + Seq::new(n, |i: int| 0u64) =~= s);
    }
}

proof fn lemma_raw_total_update(s: Seq<u64>, d: int, v: u64)
    requires
        0 <= d < s.len(),
    ensures
        raw_total(s.update(d, v)) + s[d] == raw_total(s) + v,
    decreases s.len(),
{
    if d == s.len() - 1 {
        assert(s.update(d, v).drop_last() =~= s.drop_last());
    } else {
        assert(s.update(d, v).drop_last() =~= s.drop_last().update(d, v));
        lemma_raw_total_update(s.drop_last(), d, v);
    }
}

/// Counting one more state at any depth raises the total of the counts by one, unless
/// the total is already `u64::MAX`, where it stays.
pub proof fn lemma_counted_total(s: Seq<u64>, depth: int)
    requires
        0 <= depth,
    ensures
        total(counted(s, depth)) == if total(s) == u64::MAX {
            u64::MAX as nat
        } else {
            total(s) + 1
        },
{
    let grown = if depth < s.len() {
        s
    } else {
        s + Seq::new((depth + 1 - s.len()) as nat, |i: int| 0u64)
    };
    if depth >= s.len() {
        lemma_raw_total_zeros(s, (depth + 1 - s.len()) as nat);
    }
    let v: u64 = if grown[depth] == u64::MAX {
        u64::MAX
    } else {
        (grown[depth] + 1) as u64
    };
    assert(counted(s, depth) == grown.update(depth, v));
    lemma_raw_total_update(grown, depth, v);
    lemma_raw_total_update(grown, depth, 0u64);
    lemma_total_capped(s);
    lemma_total_capped(grown.update(depth, v));
}

/// Counts of the states of a search by depth.
#[derive(Debug)]
pub struct Stats {
    pub created_states: Vec<u64>,
    pub visited_states: Vec<u64>,
    pub duplicate_states: Vec<u64>,
}

/// The sum of the counts of a vector.
pub(crate) fn sum_counts(v: &Vec<u64>) -> (t: u64)
    ensures
        t == total(v@),
{
    let mut t: u64 = 0;
    let mut i: usize = 0;
    while i < v.len()
        invariant
            i <= v@.len(),
            t == total(v@.take(i as int)),
        decreases v@.len() - i,
    {
        proof {
            assert(v@.take(i as int + 1).drop_last() =~= v@.take(i as int));
        }
        t = t.saturating_add(v[i]);
        i = i + 1;
    }
    proof {
        assert(v@.take(v@.len() as int) =~= v@);
    }
    t
}

/// Counts one more state at `depth`; true when `depth` had not been reached before.
pub(crate) fn count_at(counts: &mut Vec<u64>, depth: usize) -> (deeper: bool)
    ensures
        final(counts)@ == counted(old(counts)@, depth as int),
        deeper == (depth >= old(counts)@.len()),
{
    let mut deeper = false;
    let ghost s0 = counts@;
    while depth >= counts.len()
        invariant
            s0 == old(counts)@,
            counts@ == if depth < s0.len() {
                s0
            } else {
                s0 + Seq::new((counts@.len() - s0.len()) as nat, |i: int| 0u64)
            },
            counts@.len() >= s0.len(),
            counts@.len() <= if depth < s0.len() {
                s0.len() as int
            } else {
                depth + 1
            },
            deeper == (counts@.len() > s0.len()),
        decreases depth + 1 - counts@.len(),
    {
        let ghost c = counts@;
        counts.push(0);
        proof {
            assert(counts@ =~= s0 + Seq::new((counts@.len() - s0.len()) as nat, |i: int| 0u64));
        }
        deeper = true;
    }
    let v = counts[depth];
    counts.set(depth, v.saturating_add(1));
    proof {
        if depth >= s0.len() {
            assert(counts@.len() == depth + 1);
        }
        assert(counts@ =~= counted(s0, depth as int));
    }
    deeper
}

/// The line of a depth in the table of `Stats::to_string`.
pub open spec fn depth_line(i: int, c: u64, v: u64, d: u64) -> Seq<char> {
    pad_right(decimal(i) + ": "@, 15) + pad_right(separated_text(c as int), 15) + pad_right(
        separated_text(v as int),
        15,
    ) + pad_right(separated_text(d as int), 15) + separated_text(c - v - d) + seq!['\n']
}

/// The count at `i`, 0 beyond the end.
pub open spec fn count_or_zero(s: Seq<u64>, i: int) -> u64 {
    if i < s.len() {
        s[i]
    } else {
        0
    }
}

/// The lines of the first `n` depths.
pub open spec fn depth_lines(c: Seq<u64>, v: Seq<u64>, d: Seq<u64>, n: nat) -> Seq<char>
    decreases n,
{
    if n == 0 {
        Seq::empty()
    } else {
        depth_lines(c, v, d, (n - 1) as nat) + depth_line(
            n - 1,
            count_or_zero(c, n - 1),
            count_or_zero(v, n - 1),
            count_or_zero(d, n - 1),
        )
    }
}

/// Appends the line of depth `i` of the table.
fn push_depth_line(s: &mut String, i: usize, created: u64, visited: u64, duplicates: u64)
    ensures
        final(s)@ == old(s)@ + depth_line(i as int, created, visited, duplicates),
{
    let mut depth = decimal_u64(i as u64);
    depth.push(':');
    depth.push(' ');
    proof {
        reveal_strlit(": ");
        assert(depth@ =~= decimal(i as int) + ": "@);
    }
    let ghost s0 = s@;
    push_padded_right(s, &depth, 15);
    push_padded_right(s, &separated(created as i128), 15);
    push_padded_right(s, &separated(visited as i128), 15);
    push_padded_right(s, &separated(duplicates as i128), 15);
    push_chars(s, &separated(created as i128 - visited as i128 - duplicates as i128));
    push_char(s, '\n');
    proof {
        assert(s@ =~= s0 + depth_line(i as int, created, visited, duplicates));
    }
}

impl Stats {
    /// Nothing has been counted.
    pub open spec fn is_empty(&self) -> bool {
        &&& self.created_states@.len() == 0
        &&& self.visited_states@.len() == 0
        &&& self.duplicate_states@.len() == 0
    }

    pub fn new() -> (s: Stats)
        ensures
            s.created_states@ == Seq::<u64>::empty(),
            s.visited_states@ == Seq::<u64>::empty(),
            s.duplicate_states@ == Seq::<u64>::empty(),
    {
        Stats { created_states: Vec::new(), visited_states: Vec::new(), duplicate_states: Vec::new() }
    }

    pub fn total_created(&self) -> (t: u64)
        ensures
            t == total(self.created_states@),
    {
        sum_counts(&self.created_states)
    }

    pub fn total_unique_visited(&self) -> (t: u64)
        ensures
            t == total(self.visited_states@),
    {
        sum_counts(&self.visited_states)
    }

    pub fn total_reached_duplicates(&self) -> (t: u64)
        ensures
            t == total(self.duplicate_states@),
    {
        sum_counts(&self.duplicate_states)
    }

    /// Counts a created state; true when it is the first one at its depth.
    pub fn add_created(&mut self, depth: usize) -> (deeper: bool)
        ensures
            final(self).created_states@ == counted(old(self).created_states@, depth as int),
            final(self).visited_states@ == old(self).visited_states@,
            final(self).duplicate_states@ == old(self).duplicate_states@,
            deeper == (depth >= old(self).created_states@.len()),
    {
        count_at(&mut self.created_states, depth)
    }

    /// Counts a state visited for the first time; true when it is the first one at its depth.
    pub fn add_unique_visited(&mut self, depth: usize) -> (deeper: bool)
        ensures
            final(self).visited_states@ == counted(old(self).visited_states@, depth as int),
            final(self).created_states@ == old(self).created_states@,
            final(self).duplicate_states@ == old(self).duplicate_states@,
            deeper == (depth >= old(self).visited_states@.len()),
    {
        count_at(&mut self.visited_states, depth)
    }

    /// Counts a state that was reached again; true when it is the first one at its depth.
    pub fn add_reached_duplicate(&mut self, depth: usize) -> (deeper: bool)
        ensures
            final(self).duplicate_states@ == counted(old(self).duplicate_states@, depth as int),
            final(self).created_states@ == old(self).created_states@,
            final(self).visited_states@ == old(self).visited_states@,
            deeper == (depth >= old(self).duplicate_states@.len()),
    {
        count_at(&mut self.duplicate_states, depth)
    }

    pub open spec fn spec_text(&self) -> Seq<char> {
        let c = total(self.created_states@) as int;
        let v = total(self.visited_states@) as int;
        let d = total(self.duplicate_states@) as int;
        "States created total: "@ + separated_text(c) + seq!['\n'] + "Unique visited total: "@
            + separated_text(v) + seq!['\n'] + "Reached duplicates total: "@ + separated_text(d) + seq![
            '\n',
        ] + "Created but not reached total: "@ + separated_text(c - v - d) + seq!['\n', '\n']
            + "Depth          Created        Unique         Duplicates     Unknown (not reached)"@
            + seq!['\n'] + depth_lines(
            self.created_states@,
            self.visited_states@,
            self.duplicate_states@,
            self.created_states@.len(),
        )
    }

    /// The totals followed by a table with the counts at every depth.
    pub fn to_string(&self) -> (s: String)
        ensures
            s@ == self.spec_text(),
    {
        let c = self.total_created();
        let v = self.total_unique_visited();
        let d = self.total_reached_duplicates();
        let mut s = String::new();
        push_chars(&mut s, &chars_of("States created total: "));
        push_chars(&mut s, &separated(c as i128));
        push_char(&mut s, '\n');
        push_chars(&mut s, &chars_of("Unique visited total: "));
        push_chars(&mut s, &separated(v as i128));
        push_char(&mut s, '\n');
        push_chars(&mut s, &chars_of("Reached duplicates total: "));
        push_chars(&mut s, &separated(d as i128));
        push_char(&mut s, '\n');
        push_chars(&mut s, &chars_of("Created but not reached total: "));
        push_chars(&mut s, &separated(c as i128 - v as i128 - d as i128));
        push_char(&mut s, '\n');
        push_char(&mut s, '\n');
        push_chars(&mut s, &chars_of("Depth          Created        Unique         Duplicates     Unknown (not reached)"));
        push_char(&mut s, '\n');
        let ghost head = s@;
        let n = self.created_states.len();
        let mut i: usize = 0;
        while i < n
            invariant
                n == self.created_states@.len(),
                i <= n,
                s@ == head + depth_lines(
                    self.created_states@,
                    self.visited_states@,
                    self.duplicate_states@,
                    i as nat,
                ),
            decreases n - i,
        {
            let created = self.created_states[i];
            let visited = if i < self.visited_states.len() {
                self.visited_states[i]
            } else {
                0
            };
            let duplicates = if i < self.duplicate_states.len() {
                self.duplicate_states[i]
            } else {
                0
            };
            let ghost before = s@;
            push_depth_line(&mut s, i, created, visited, duplicates);
            proof {
                assert(s@ =~= before + depth_line(i as int, created, visited, duplicates));
            }
            i = i + 1;
        }
        proof {
            assert(s@ =~= self.spec_text());
        }
        s
    }

    pub open spec fn spec_summary(&self) -> Seq<char> {
        "total created / unique visited / reached duplicates:"@ + seq!['\n'] + pad_right(
            separated_text(total(self.created_states@) as int),
            16,
        ) + pad_right(separated_text(total(self.visited_states@) as int), 17) + separated_text(
            total(self.duplicate_states@) as int,
        ) + seq!['\n']
    }

    /// The three totals on one line.
    pub fn summary(&self) -> (s: String)
        ensures
            s@ == self.spec_summary(),
    {
        let mut s = String::new();
        push_chars(&mut s, &chars_of("total created / unique visited / reached duplicates:"));
        push_char(&mut s, '\n');
        push_padded_right(&mut s, &separated(self.total_created() as i128), 16);
        push_padded_right(&mut s, &separated(self.total_unique_visited() as i128), 17);
        push_chars(&mut s, &separated(self.total_reached_duplicates() as i128));
        push_char(&mut s, '\n');
        proof {
            assert(s@ =~= self.spec_summary());
        }
        s
    }
}

} // verus!
