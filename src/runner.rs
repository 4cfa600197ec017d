//! Splitting a launch command into the program and its arguments.
use vstd::prelude::*;

verus! {

/// The pieces of `s` between single occurrences of `sep`, in order; two
/// adjacent separators give an empty piece, and there is always at least
/// one piece.
pub open spec fn split_by(s: Seq<char>, sep: char) -> Seq<Seq<char>>
    decreases s.len(),
{
    if s.len() == 0 {
        seq![Seq::empty()]
    } else {
        let p = split_by(s.drop_last(), sep);
        if s.last() == sep {
            p.push(Seq::empty())
        } else {
            p.update(p.len() - 1, p.last().push(s.last()))
        }
    }
}

/// The pieces of `s` between single spaces.
pub open spec fn split_spaces(s: Seq<char>) -> Seq<Seq<char>> {
    split_by(s, ' ')
}

pub proof fn lemma_split_by_nonempty(s: Seq<char>, sep: char)
    ensures
        split_by(s, sep).len() >= 1,
    decreases s.len(),
{
    if s.len() > 0 {
        lemma_split_by_nonempty(s.drop_last(), sep);
    }
}

/// Relies on `str::split` with a `char` pattern: the pieces between the
/// separators, in order.
#[verifier::external_body]
pub(crate) fn split_on(s: &str, sep: char) -> (r: Vec<String>)
    ensures
        r@.len() == split_by(s@, sep).len(),
        forall|i: int| 0 <= i < r@.len() ==> #[trigger] r@[i]@ == split_by(s@, sep)[i],
{
    s.split(sep).map(|p| p.to_string()).collect()
}

/// Split a launch command at each space: the first piece is the program,
/// the rest are its arguments.
pub fn parse_exec(exec: &str) -> (r: (String, Vec<String>))
    ensures
        r.0@ == split_spaces(exec@)[0],
        r.1@.len() == split_spaces(exec@).len() - 1,
        forall|i: int| 0 <= i < r.1@.len() ==> #[trigger] r.1@[i]@ == split_spaces(exec@)[i + 1],
{
    let mut pieces = split_on(exec, ' ');
    proof {
        lemma_split_by_nonempty(exec@, ' ');
    }
    let ghost all = pieces@;
    let cmd = pieces.remove(0);
    proof {
        assert(all[0] == cmd);
        assert forall|i: int| 0 <= i < pieces@.len() implies #[trigger] pieces@[i]@ == split_spaces(exec@)[i + 1] by {
            assert(pieces@[i] == all[i + 1]);
        }
    }
    (cmd, pieces)
}

} // verus!
