//! Parser for the line-oriented `key=value` properties text format.
//!
//! [`parse`] reads a whole input into the entries it holds, in order and with
//! repeated keys kept; [`to_map`] folds them into a map where the last
//! occurrence of a key wins.
use vstd::prelude::*;

pub mod grammar;
pub mod lemmas;
pub mod map;
pub mod parser;

pub use map::{to_map, PropertyMap};
pub use parser::Property;

use grammar::{entries, entries_from, entry_at, latin1};
use map::props_view;
use parser::{blank_line, comment_line, kv_line};

verus! {

/// The input could not be read as properties: at `offset` no comment, blank
/// line or key/value line starts.
#[derive(Clone, Copy, Debug, PartialEq, Eq)]
pub struct ParseError {
    /// Position in the input at which reading stopped.
    pub offset: usize,
}

/// Entries of bytes as entries of characters.
pub open spec fn latin1_entries(es: Seq<(Seq<u8>, Seq<u8>)>) -> Seq<(Seq<char>, Seq<char>)> {
    es.map_values(|e: (Seq<u8>, Seq<u8>)| (latin1(e.0), latin1(e.1)))
}

/// The outcome of the input from some position on, after entries already read.
pub open spec fn after(
    done: Seq<(Seq<u8>, Seq<u8>)>,
    rest: Result<Seq<(Seq<u8>, Seq<u8>)>, int>,
) -> Result<Seq<(Seq<u8>, Seq<u8>)>, int> {
    match rest {
        Ok(es) => Ok(done + es),
        Err(p) => Err(p),
    }
}

/// Parses a whole properties input into its entries, in the order in which
/// they stand; a key may occur more than once. Comments and blank lines give
/// no entry.
pub fn parse(input: &[u8]) -> (r: Result<Vec<Property>, ParseError>)
    ensures
        match entries(input@) {
            Ok(es) => r is Ok && props_view((r->Ok_0)@) == latin1_entries(es),
            Err(p) => r is Err && (r->Err_0).offset == p,
        },
{
    let mut out: Vec<Property> = Vec::new();
    let ghost mut done: Seq<(Seq<u8>, Seq<u8>)> = Seq::empty();
    let mut pos: usize = 0;
    assert(done + Seq::empty() =~= Seq::<(Seq<u8>, Seq<u8>)>::empty());
    assert(props_view(out@) =~= latin1_entries(done));
    while pos < input.len()
        invariant
            pos <= input@.len(),
            entries(input@) == after(done, entries_from(input@, pos as int)),
            props_view(out@) == latin1_entries(done),
        decreases input@.len() - pos,
    {
        if let Some(j) = comment_line(input, pos) {
            if j <= pos {
                return Err(ParseError { offset: pos });
            }
            pos = j;
        } else if let Some(j) = blank_line(input, pos) {
            if j <= pos {
                return Err(ParseError { offset: pos });
            }
            pos = j;
        } else {
            match kv_line(input, pos) {
                Some((p, j)) => {
                    if j <= pos {
                        return Err(ParseError { offset: pos });
                    }
                    let ghost e = (entry_at(input@, pos as int)->0).0;
                    proof {
                        match entries_from(input@, j as int) {
                            Ok(rest) => {
                                assert(done + (seq![e] + rest) =~= done.push(e) + rest);
                            },
                            Err(_) => {},
                        }
                    }
                    let ghost before = out@;
                    out.push(p);
                    proof {
                        assert(props_view(out@) =~= props_view(before).push(p@));
                        assert(latin1_entries(done.push(e)) =~= latin1_entries(done).push(p@));
                        done = done.push(e);
                    }
                    pos = j;
                },
                None => {
                    return Err(ParseError { offset: pos });
                },
            }
        }
    }
    assert(done + Seq::empty() =~= done);
    Ok(out)
}

} // verus!
