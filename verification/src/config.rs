//! Options chosen by the user: the level format and the solving method.
use vstd::prelude::*;

use crate::text::push_char;

verus! {

/// Level format for input and output.
#[derive(Clone, Copy, Debug, PartialEq, Eq, Structural)]
pub enum Format {
    Custom,
    Xsb,
}

/// What the solver optimizes.
#[derive(Clone, Copy, Debug, PartialEq, Eq, Structural)]
pub enum Method {
    /// Fewest moves, then fewest pushes.
    MovesPushes,
    /// Fewest moves.
    Moves,
    /// Fewest pushes, then fewest moves.
    PushesMoves,
    /// Fewest pushes.
    Pushes,
    /// Any solution (currently push optimal).
    Any,
}

/// The error of reading an option from text.
#[derive(Clone, Copy, Debug, PartialEq, Eq, Structural)]
pub struct CliError;

impl CliError {
    pub open spec fn spec_message() -> Seq<char> {
        seq!['f', 'a', 'i', 'l', 'e', 'd', ' ', 't', 'o', ' ', 'p', 'a', 'r', 's', 'e']
    }

    /// The error message.
    pub fn to_string(&self) -> (s: String)
        ensures
            s@ == Self::spec_message(),
    {
        let mut s = String::new();
        push_char(&mut s, 'f');
        push_char(&mut s, 'a');
        push_char(&mut s, 'i');
        push_char(&mut s, 'l');
        push_char(&mut s, 'e');
        push_char(&mut s, 'd');
        push_char(&mut s, ' ');
        push_char(&mut s, 't');
        push_char(&mut s, 'o');
        push_char(&mut s, ' ');
        push_char(&mut s, 'p');
        push_char(&mut s, 'a');
        push_char(&mut s, 'r');
        push_char(&mut s, 's');
        push_char(&mut s, 'e');
        s
    }
}

/// `s` equals the characters of `word`.
fn chars_eq(s: &Vec<char>, word: &[char]) -> (b: bool)
    ensures
        b == (s@ == word@),
{
    if s.len() != word.len() {
        return false;
    }
    let mut i: usize = 0;
    while i < s.len()
        invariant
            i <= s@.len(),
            s@.len() == word@.len(),
            forall|j: int| 0 <= j < i ==> s@[j] == word@[j],
        decreases s@.len() - i,
    {
        if s[i] != word[i] {
            return false;
        }
        i = i + 1;
    }
    proof {
        assert(s@ =~= word@);
    }
    true
}

impl Format {
    pub open spec fn spec_name(self) -> Seq<char> {
        match self {
            Format::Custom => seq!['c', 'u', 's', 't', 'o', 'm'],
            Format::Xsb => seq!['x', 's', 'b'],
        }
    }

    /// Reads `custom` or `xsb`.
    pub fn from_str(s: &str) -> (r: Result<Format, CliError>)
        ensures
            r matches Ok(f) ==> f.spec_name() == s@,
            r is Err <==> (s@ != Format::Custom.spec_name() && s@ != Format::Xsb.spec_name()),
    {
        let cs = crate::text::chars_of(s);
        if chars_eq(&cs, &['c', 'u', 's', 't', 'o', 'm']) {
            proof {
                assert(['c', 'u', 's', 't', 'o', 'm']@ =~= Format::Custom.spec_name());
            }
            Ok(Format::Custom)
        } else if chars_eq(&cs, &['x', 's', 'b']) {
            proof {
                assert(['x', 's', 'b']@ =~= Format::Xsb.spec_name());
            }
            Ok(Format::Xsb)
        } else {
            proof {
                assert(['c', 'u', 's', 't', 'o', 'm']@ =~= Format::Custom.spec_name());
                assert(['x', 's', 'b']@ =~= Format::Xsb.spec_name());
            }
            Err(CliError)
        }
    }
}

impl Method {
    pub open spec fn spec_name(self) -> Seq<char> {
        match self {
            Method::MovesPushes => seq!['m', 'o', 'v', 'e', 's', '-', 'p', 'u', 's', 'h', 'e', 's'],
            Method::Moves => seq!['m', 'o', 'v', 'e', 's'],
            Method::PushesMoves => seq!['p', 'u', 's', 'h', 'e', 's', '-', 'm', 'o', 'v', 'e', 's'],
            Method::Pushes => seq!['p', 'u', 's', 'h', 'e', 's'],
            Method::Any => seq!['a', 'n', 'y'],
        }
    }

    /// The name of the method, as accepted by `from_str`.
    pub fn to_string(&self) -> (s: String)
        ensures
            s@ == self.spec_name(),
    {
        let word: &[char] = match self {
            Method::MovesPushes => &['m', 'o', 'v', 'e', 's', '-', 'p', 'u', 's', 'h', 'e', 's'],
            Method::Moves => &['m', 'o', 'v', 'e', 's'],
            Method::PushesMoves => &['p', 'u', 's', 'h', 'e', 's', '-', 'm', 'o', 'v', 'e', 's'],
            Method::Pushes => &['p', 'u', 's', 'h', 'e', 's'],
            Method::Any => &['a', 'n', 'y'],
        };
        proof {
            assert(word@ =~= self.spec_name());
        }
        let mut s = String::new();
        let mut i: usize = 0;
        while i < word.len()
            invariant
                i <= word@.len(),
                s@ == word@.subrange(0, i as int),
            decreases word@.len() - i,
        {
            push_char(&mut s, word[i]);
            proof {
                assert(word@.subrange(0, i as int + 1) =~= word@.subrange(0, i as int).push(
                    word@[i as int],
                ));
            }
            i = i + 1;
        }
        proof {
            assert(word@.subrange(0, i as int) =~= word@);
        }
        s
    }

    /// Reads one of `moves-pushes`, `moves`, `pushes-moves`, `pushes` and `any`.
    pub fn from_str(s: &str) -> (r: Result<Method, CliError>)
        ensures
            r matches Ok(m) ==> m.spec_name() == s@,
            r is Err <==> (forall|m: Method| #[trigger] m.spec_name() != s@),
    {
        let cs = crate::text::chars_of(s);
        let names: [Method; 5] = [
            Method::MovesPushes,
            Method::Moves,
            Method::PushesMoves,
            Method::Pushes,
            Method::Any,
        ];
        let mut i: usize = 0;
        while i < 5
            invariant
                i <= 5,
                cs@ == s@,
                names@ == seq![
                    Method::MovesPushes,
                    Method::Moves,
                    Method::PushesMoves,
                    Method::Pushes,
                    Method::Any,
                ],
                forall|j: int| 0 <= j < i ==> (#[trigger] names@[j]).spec_name() != s@,
            decreases 5 - i,
        {
            let m = names[i];
            let name = m.to_string();
            let name_chars = crate::text::chars_of(name.as_str());
            if chars_eq(&cs, name_chars.as_slice()) {
                return Ok(m);
            }
            i = i + 1;
        }
        proof {
            assert forall|m: Method| #[trigger] m.spec_name() != s@ by {
                match m {
                    Method::MovesPushes => assert(names@[0] == m),
                    Method::Moves => assert(names@[1] == m),
                    Method::PushesMoves => assert(names@[2] == m),
                    Method::Pushes => assert(names@[3] == m),
                    Method::Any => assert(names@[4] == m),
                }
            }
        }
        Err(CliError)
    }
}

/// Reading the name of a method gives back that method: different methods have different
/// names, so `from_str` of what `to_string` prints is the method printed.
pub proof fn lemma_method_names_distinct(m1: Method, m2: Method)
    ensures
        m1.spec_name() == m2.spec_name() ==> m1 == m2,
{
    if m1.spec_name() == m2.spec_name() {
        assert(m1.spec_name().len() == m2.spec_name().len());
        assert(m1.spec_name()[0] == m2.spec_name()[0]);
    }
}

} // verus!
