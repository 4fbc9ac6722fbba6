//! Rendering of Unix permission bits as the nine-character `rwx` triple for
//! user, group and other.

use crate::text;
use vstd::prelude::*;

verus! {

/// The symbol for one permission bit: the symbol when the bit is set in
/// `bits`, a dash otherwise.
pub open spec fn perm_char(bits: u32, mask: u32, symbol: char) -> char {
    if bits & mask != 0 {
        symbol
    } else {
        '-'
    }
}

/// The nine permission characters of `mode`: read, write and execute for
/// user, group and other, in that order.
pub open spec fn mode_chars(mode: u32) -> Seq<char> {
    seq![
        perm_char(mode >> 6, 0b100, 'r'),
        perm_char(mode >> 6, 0b010, 'w'),
        perm_char(mode >> 6, 0b001, 'x'),
        perm_char(mode >> 3, 0b100, 'r'),
        perm_char(mode >> 3, 0b010, 'w'),
        perm_char(mode >> 3, 0b001, 'x'),
        perm_char(mode, 0b100, 'r'),
        perm_char(mode, 0b010, 'w'),
        perm_char(mode, 0b001, 'x'),
    ]
}

fn render_part(part: u32, out: &mut Vec<char>)
    ensures
        final(out)@ == old(out)@.add(
            seq![
                perm_char(part, 0b100, 'r'),
                perm_char(part, 0b010, 'w'),
                perm_char(part, 0b001, 'x'),
            ],
        ),
{
    out.push(if part & 0b100 != 0 {
        'r'
    } else {
        '-'
    });
    out.push(if part & 0b010 != 0 {
        'w'
    } else {
        '-'
    });
    out.push(if part & 0b001 != 0 {
        'x'
    } else {
        '-'
    });
    proof {
        assert(out@ =~= old(out)@.add(
            seq![
                perm_char(part, 0b100, 'r'),
                perm_char(part, 0b010, 'w'),
                perm_char(part, 0b001, 'x'),
            ],
        ));
    }
}

/// Renders `mode` as `rwxr-xr-x`-style text: nine characters, one per
/// permission bit of user, group and other.
pub fn format_mode(mode: u32) -> (r: String)
    ensures
        r@ == mode_chars(mode),
{
    let mut out: Vec<char> = Vec::new();
    render_part(mode >> 6, &mut out);
    render_part(mode >> 3, &mut out);
    render_part(mode, &mut out);
    proof {
        assert(out@ =~= mode_chars(mode));
    }
    text::chars_to_string(&out)
}

} // verus!
