//! The port resolver: classifies one operand token as a register alias, the
//! `nil` sink, a direction, `any`/`last`, or an immediate integer. It knows
//! nothing of grid adjacency; neighbour existence is the scheduler's business.

use vstd::prelude::*;
use crate::numtext::{parse_i64, spec_parse_i64};
use crate::parse::{ParseError, ParseErrorKind};

verus! {

/// One of the four neighbour directions.
#[derive(Clone, Copy, Debug, PartialEq, Eq, Structural)]
pub enum Dir {
    Left,
    Right,
    Up,
    Down,
}

impl Dir {
    /// The direction a neighbour uses for the same edge: the node to my left
    /// sees me to its right.
    pub open spec fn spec_mirror(self) -> Dir {
        match self {
            Dir::Left => Dir::Right,
            Dir::Right => Dir::Left,
            Dir::Up => Dir::Down,
            Dir::Down => Dir::Up,
        }
    }

    /// Executable mirror, equal to `spec_mirror`.
    pub fn mirror(self) -> (r: Dir)
        ensures
            r == self.spec_mirror(),
    {
        match self {
            Dir::Left => Dir::Right,
            Dir::Right => Dir::Left,
            Dir::Up => Dir::Down,
            Dir::Down => Dir::Up,
        }
    }
}

/// A port operand. `Value` is a read-only immediate; `Any` takes the first
/// ready neighbour in the scan order left, right, up, down; `Last` reuses the
/// direction of the node's most recent `Any` resolution.
#[derive(Clone, Copy, Debug, PartialEq, Eq, Structural)]
pub enum Port {
    Acc,
    Left,
    Right,
    Up,
    Down,
    Any,
    Last,
    Nil,
    Value(i64),
}

/// What a port token denotes: one of the eight keywords, else a signed
/// integer literal, else nothing.
pub open spec fn spec_port(tok: Seq<u8>) -> Option<Port> {
    if tok == seq![97u8, 99u8, 99u8] {  // acc
        Some(Port::Acc)
    } else if tok == seq![110u8, 105u8, 108u8] {  // nil
        Some(Port::Nil)
    } else if tok == seq![108u8, 101u8, 102u8, 116u8] {  // left
        Some(Port::Left)
    } else if tok == seq![114u8, 105u8, 103u8, 104u8, 116u8] {  // right
        Some(Port::Right)
    } else if tok == seq![117u8, 112u8] {  // up
        Some(Port::Up)
    } else if tok == seq![100u8, 111u8, 119u8, 110u8] {  // down
        Some(Port::Down)
    } else if tok == seq![97u8, 110u8, 121u8] {  // any
        Some(Port::Any)
    } else if tok == seq![108u8, 97u8, 115u8, 116u8] {  // last
        Some(Port::Last)
    } else {
        match spec_parse_i64(tok) {
            Some(v) => Some(Port::Value(v)),
            None => None,
        }
    }
}

/// True exactly when `tok` reads `a b`.
pub(crate) fn kw2(tok: &[u8], a: u8, b: u8) -> (r: bool)
    ensures
        r == (tok@ == seq![a, b]),
{
    let hit = tok.len() == 2 && tok[0] == a && tok[1] == b;
    proof {
        if hit {
            assert(tok@ =~= seq![a, b]);
        }
    }
    hit
}

/// True exactly when `tok` reads `a b c`.
pub(crate) fn kw3(tok: &[u8], a: u8, b: u8, c: u8) -> (r: bool)
    ensures
        r == (tok@ == seq![a, b, c]),
{
    let hit = tok.len() == 3 && tok[0] == a && tok[1] == b && tok[2] == c;
    proof {
        if hit {
            assert(tok@ =~= seq![a, b, c]);
        }
    }
    hit
}

/// True exactly when `tok` reads `a b c d`.
pub(crate) fn kw4(tok: &[u8], a: u8, b: u8, c: u8, d: u8) -> (r: bool)
    ensures
        r == (tok@ == seq![a, b, c, d]),
{
    let hit = tok.len() == 4 && tok[0] == a && tok[1] == b && tok[2] == c && tok[3] == d;
    proof {
        if hit {
            assert(tok@ =~= seq![a, b, c, d]);
        }
    }
    hit
}

/// True exactly when `tok` reads `a b c d e`.
pub(crate) fn kw5(tok: &[u8], a: u8, b: u8, c: u8, d: u8, e: u8) -> (r: bool)
    ensures
        r == (tok@ == seq![a, b, c, d, e]),
{
    let hit = tok.len() == 5 && tok[0] == a && tok[1] == b && tok[2] == c && tok[3] == d
        && tok[4] == e;
    proof {
        if hit {
            assert(tok@ =~= seq![a, b, c, d, e]);
        }
    }
    hit
}

impl Port {
    /// Classifies one token, exactly as `spec_port` gives it; a refused token
    /// comes back in the error.
    pub fn parse(token: &[u8]) -> (r: Result<Port, ParseError>)
        ensures
            spec_port(token@) matches Some(p) ==> r == Ok::<Port, ParseError>(p),
            spec_port(token@) is None ==> (r matches Err(e) && e.kind == ParseErrorKind::BadPort
                && e.token@ == token@),
    {
        if kw3(token, 97, 99, 99) {
            Ok(Port::Acc)
        } else if kw3(token, 110, 105, 108) {
            Ok(Port::Nil)
        } else if kw4(token, 108, 101, 102, 116) {
            Ok(Port::Left)
        } else if kw5(token, 114, 105, 103, 104, 116) {
            Ok(Port::Right)
        } else if kw2(token, 117, 112) {
            Ok(Port::Up)
        } else if kw4(token, 100, 111, 119, 110) {
            Ok(Port::Down)
        } else if kw3(token, 97, 110, 121) {
            Ok(Port::Any)
        } else if kw4(token, 108, 97, 115, 116) {
            Ok(Port::Last)
        } else {
            match parse_i64(token) {
                Some(v) => Ok(Port::Value(v)),
                None => {
                    let copy = crate::parse::sub_bytes(token, 0, token.len());
                    proof {
                        assert(token@.subrange(0, token@.len() as int) =~= token@);
                    }
                    Err(ParseError { kind: ParseErrorKind::BadPort, token: copy })
                },
            }
        }
    }
}

} // verus!
