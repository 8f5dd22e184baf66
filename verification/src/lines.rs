//! Preparing level text: trimming and splitting into lines the way `str` does.
use vstd::prelude::*;

verus! {

/// Unicode `White_Space`, the characters that `char::is_whitespace` accepts.
pub open spec fn is_ws(c: char) -> bool {
    ('\u{9}' <= c && c <= '\u{d}') || c == ' ' || c == '\u{85}' || c == '\u{a0}' || c
        == '\u{1680}' || ('\u{2000}' <= c && c <= '\u{200a}') || c == '\u{2028}' || c
        == '\u{2029}' || c == '\u{202f}' || c == '\u{205f}' || c == '\u{3000}'
}

pub fn is_whitespace(c: char) -> (b: bool)
    ensures
        b == is_ws(c),
{
    ('\u{9}' <= c && c <= '\u{d}') || c == ' ' || c == '\u{85}' || c == '\u{a0}' || c
        == '\u{1680}' || ('\u{2000}' <= c && c <= '\u{200a}') || c == '\u{2028}' || c
        == '\u{2029}' || c == '\u{202f}' || c == '\u{205f}' || c == '\u{3000}'
}

/// The number of leading characters of `s` equal to `c`.
pub open spec fn lead_count(s: Seq<char>, c: char) -> nat
    decreases s.len(),
{
    if s.len() > 0 && s[0] == c {
        1 + lead_count(s.drop_first(), c)
    } else {
        0
    }
}

/// The number of trailing characters of `s` equal to `c`.
pub open spec fn trail_count(s: Seq<char>, c: char) -> nat
    decreases s.len(),
{
    if s.len() > 0 && s.last() == c {
        1 + trail_count(s.drop_last(), c)
    } else {
        0
    }
}

/// The number of trailing whitespace characters of `s`.
pub open spec fn trail_ws(s: Seq<char>) -> nat
    decreases s.len(),
{
    if s.len() > 0 && is_ws(s.last()) {
        1 + trail_ws(s.drop_last())
    } else {
        0
    }
}

/// `str::trim_end`.
pub open spec fn trim_end(s: Seq<char>) -> Seq<char> {
    s.take(s.len() - trail_ws(s))
}

/// `str::trim_matches('\n')`.
pub open spec fn trim_newlines(s: Seq<char>) -> Seq<char> {
    let a = s.skip(lead_count(s, '\n') as int);
    a.take(a.len() - trail_count(a, '\n'))
}

/// A line without its final carriage return.
pub open spec fn strip_cr(l: Seq<char>) -> Seq<char> {
    if l.len() > 0 && l.last() == '\r' {
        l.drop_last()
    } else {
        l
    }
}

/// The finished lines and the current unfinished line after reading `s`.
pub open spec fn lines_fold(s: Seq<char>) -> (Seq<Seq<char>>, Seq<char>)
    decreases s.len(),
{
    if s.len() == 0 {
        (Seq::empty(), Seq::empty())
    } else {
        let prev = lines_fold(s.drop_last());
        if s.last() == '\n' {
            (prev.0.push(strip_cr(prev.1)), Seq::empty())
        } else {
            (prev.0, prev.1.push(s.last()))
        }
    }
}

/// `str::lines`: split at `\n`, a `\r` before it removed; a final line break is optional.
pub open spec fn lines(s: Seq<char>) -> Seq<Seq<char>> {
    let f = lines_fold(s);
    if f.1.len() > 0 {
        f.0.push(f.1)
    } else {
        f.0
    }
}

proof fn lemma_lead_count_step(s: Seq<char>, c: char, k: int)
    requires
        0 <= k < s.len(),
        forall|j: int| 0 <= j < k ==> s[j] == c,
    ensures
        s[k] != c ==> lead_count(s, c) == k,
        s[k] == c ==> forall|j: int| 0 <= j < k + 1 ==> s[j] == c,
    decreases k,
{
    if k > 0 && s[k] != c {
        lemma_lead_count_step(s.drop_first(), c, k - 1);
    }
}

proof fn lemma_lead_count_all(s: Seq<char>, c: char)
    requires
        forall|j: int| 0 <= j < s.len() ==> s[j] == c,
    ensures
        lead_count(s, c) == s.len(),
    decreases s.len(),
{
    if s.len() > 0 {
        lemma_lead_count_all(s.drop_first(), c);
    }
}

proof fn lemma_trail_count_step(s: Seq<char>, c: char, k: int)
    requires
        0 <= k < s.len(),
        forall|j: int| s.len() - k <= j < s.len() ==> s[j] == c,
    ensures
        s[s.len() - 1 - k] != c ==> trail_count(s, c) == k,
    decreases k,
{
    if k > 0 && s[s.len() - 1 - k] != c {
        lemma_trail_count_step(s.drop_last(), c, k - 1);
    }
}

proof fn lemma_trail_count_all(s: Seq<char>, c: char)
    requires
        forall|j: int| 0 <= j < s.len() ==> s[j] == c,
    ensures
        trail_count(s, c) == s.len(),
    decreases s.len(),
{
    if s.len() > 0 {
        lemma_trail_count_all(s.drop_last(), c);
    }
}

proof fn lemma_trail_ws_step(s: Seq<char>, k: int)
    requires
        0 <= k < s.len(),
        forall|j: int| s.len() - k <= j < s.len() ==> is_ws(s[j]),
        !is_ws(s[s.len() - 1 - k]),
    ensures
        trail_ws(s) == k,
    decreases k,
{
    if k > 0 {
        lemma_trail_ws_step(s.drop_last(), k - 1);
    }
}

proof fn lemma_trail_ws_all(s: Seq<char>)
    requires
        forall|j: int| 0 <= j < s.len() ==> is_ws(s[j]),
    ensures
        trail_ws(s) == s.len(),
    decreases s.len(),
{
    if s.len() > 0 {
        lemma_trail_ws_all(s.drop_last());
    }
}

/// The characters of `v` from `from` to `to`.
pub fn slice_chars(v: &Vec<char>, from: usize, to: usize) -> (w: Vec<char>)
    requires
        from <= to <= v@.len(),
    ensures
        w@ == v@.subrange(from as int, to as int),
{
    let mut w: Vec<char> = Vec::new();
    let mut i = from;
    while i < to
        invariant
            from <= i <= to,
            to <= v@.len(),
            w@ == v@.subrange(from as int, i as int),
        decreases to - i,
    {
        w.push(v[i]);
        proof {
            assert(v@.subrange(from as int, i as int + 1) =~= v@.subrange(from as int, i as int).push(
                v@[i as int],
            ));
        }
        i = i + 1;
    }
    w
}

/// `str::trim_end`.
pub fn trim_end_chars(v: &Vec<char>) -> (w: Vec<char>)
    ensures
        w@ == trim_end(v@),
{
    let mut k: usize = 0;
    while k < v.len() && is_whitespace(v[v.len() - 1 - k])
        invariant
            k <= v@.len(),
            forall|j: int| v@.len() - k <= j < v@.len() ==> is_ws(v@[j]),
        decreases v@.len() - k,
    {
        k = k + 1;
    }
    proof {
        if k < v@.len() {
            lemma_trail_ws_step(v@, k as int);
        } else {
            lemma_trail_ws_all(v@);
        }
    }
    slice_chars(v, 0, v.len() - k)
}

/// `str::trim_matches('\n')`.
pub fn trim_newlines_chars(v: &Vec<char>) -> (w: Vec<char>)
    ensures
        w@ == trim_newlines(v@),
{
    let mut a: usize = 0;
    while a < v.len() && v[a] == '\n'
        invariant
            a <= v@.len(),
            forall|j: int| 0 <= j < a ==> v@[j] == '\n',
        decreases v@.len() - a,
    {
        a = a + 1;
    }
    proof {
        if a < v@.len() {
            lemma_lead_count_step(v@, '\n', a as int);
        } else {
            lemma_lead_count_all(v@, '\n');
        }
    }
    let rest = slice_chars(v, a, v.len());
    let mut k: usize = 0;
    while k < rest.len() && rest[rest.len() - 1 - k] == '\n'
        invariant
            k <= rest@.len(),
            forall|j: int| rest@.len() - k <= j < rest@.len() ==> rest@[j] == '\n',
        decreases rest@.len() - k,
    {
        k = k + 1;
    }
    proof {
        if k < rest@.len() {
            lemma_trail_count_step(rest@, '\n', k as int);
        } else {
            lemma_trail_count_all(rest@, '\n');
        }
        assert(rest@ =~= v@.skip(lead_count(v@, '\n') as int));
    }
    slice_chars(&rest, 0, rest.len() - k)
}

/// The lines as character sequences.
pub open spec fn lines_view(v: Seq<Vec<char>>) -> Seq<Seq<char>> {
    v.map_values(|l: Vec<char>| l@)
}

/// `str::lines`.
pub fn split_lines(v: &Vec<char>) -> (ls: Vec<Vec<char>>)
    ensures
        lines_view(ls@) == lines(v@),
{
    let mut done: Vec<Vec<char>> = Vec::new();
    let mut cur: Vec<char> = Vec::new();
    let mut i: usize = 0;
    while i < v.len()
        invariant
            i <= v@.len(),
            lines_view(done@) == lines_fold(v@.take(i as int)).0,
            cur@ == lines_fold(v@.take(i as int)).1,
        decreases v@.len() - i,
    {
        let ch = v[i];
        proof {
            assert(v@.take(i as int + 1).drop_last() =~= v@.take(i as int));
        }
        if ch == '\n' {
            if cur.len() > 0 && cur[cur.len() - 1] == '\r' {
                cur.pop();
            }
            let ghost d = done@;
            done.push(cur);
            proof {
                assert(lines_view(done@) =~= lines_view(d).push(cur@));
            }
            cur = Vec::new();
        } else {
            cur.push(ch);
        }
        i = i + 1;
    }
    proof {
        assert(v@.take(i as int) =~= v@);
    }
    if cur.len() > 0 {
        let ghost d = done@;
        done.push(cur);
        proof {
            assert(lines_view(done@) =~= lines_view(d).push(cur@));
        }
    }
    done
}

} // verus!
