//! Tail positions: where to start reading a file, counted either from its
//! head (`+N`) or from its tail (`N` or `-N`), and the index range such a
//! position selects out of a known total.

use crate::numbers::{scan_outcome, NumErr};
use vstd::prelude::*;

verus! {

/// Where reading starts: `FromHead(n)` skips the first `n` elements,
/// `FromTail(n)` keeps the last `n`.
#[derive(Debug, Clone, PartialEq, Eq, Structural)]
pub enum Position {
    FromTail(usize),
    FromHead(usize),
}

/// The outcome of parsing a tail position: a signed decimal number within
/// the 64-bit signed bounds. A leading `+` means counting from the head;
/// a bare or negative number means counting from the tail.
pub open spec fn tail_value_outcome(s: Seq<char>) -> Result<Position, NumErr> {
    let signed = s.len() > 0 && (s[0] == '+' || s[0] == '-');
    let body = if signed {
        s.drop_first()
    } else {
        s
    };
    let max: nat = if s.len() > 0 && s[0] == '-' {
        0x8000_0000_0000_0000
    } else {
        0x7fff_ffff_ffff_ffff
    };
    match scan_outcome(body, max) {
        Err(e) => Err(e),
        Ok(v) => if v > usize::MAX {
            Err(NumErr::TooLarge)
        } else if s.len() > 0 && s[0] == '+' {
            Ok(Position::FromHead(v as usize))
        } else {
            Ok(Position::FromTail(v as usize))
        },
    }
}

/// Parses a tail position: an optionally signed decimal number. `+N` counts
/// from the head, `N` and `-N` count from the tail.
pub fn parse_tail_value(text: &str) -> (r: Result<Position, NumErr>)
    ensures
        match r {
            Ok(p) => tail_value_outcome(text@) == Ok::<Position, NumErr>(p),
            Err(e) => tail_value_outcome(text@) == Err::<Position, NumErr>(e),
        },
{
    let chars = crate::text::chars_of(text);
    let plus = chars.len() > 0 && chars[0] == '+';
    let minus = chars.len() > 0 && chars[0] == '-';
    let start: usize = if plus || minus {
        1
    } else {
        0
    };
    let max: u64 = if minus {
        0x8000_0000_0000_0000
    } else {
        0x7fff_ffff_ffff_ffff
    };
    proof {
        if start == 1 {
            assert(chars@.drop_first() =~= chars@.skip(1));
        } else {
            assert(chars@.skip(0) =~= chars@);
        }
    }
    match crate::numbers::scan_digits(&chars, start, max) {
        Err(e) => Err(e),
        Ok(v) => {
            if v > usize::MAX as u64 {
                Err(NumErr::TooLarge)
            } else if plus {
                Ok(Position::FromHead(v as usize))
            } else {
                Ok(Position::FromTail(v as usize))
            }
        },
    }
}

/// The index range a position selects out of `total` elements: `FromHead(n)`
/// yields `n..total` when `n` is in bounds and nothing otherwise;
/// `FromTail(n)` yields the last `n` elements, or everything when `n`
/// exceeds the total.
pub fn get_tail_range(position: &Position, total: usize) -> (r: Option<core::ops::Range<usize>>)
    ensures
        match *position {
            Position::FromHead(offset) => if offset > total {
                r is None
            } else {
                r is Some && r->0.start == offset && r->0.end == total
            },
            Position::FromTail(elements) => r is Some && r->0.end == total && r->0.start == if elements
                > total {
                0usize
            } else {
                (total - elements) as usize
            },
        },
{
    let offset: usize = match position {
        Position::FromHead(offset) => *offset,
        Position::FromTail(elements) => {
            if *elements > total {
                0
            } else {
                total - *elements
            }
        },
    };
    if offset > total {
        None
    } else {
        Some(offset..total)
    }
}

} // verus!
