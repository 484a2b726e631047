//! Verified text rendering: decimal and hexadecimal digits, as the
//! error messages print them.

use vstd::prelude::*;
use crate::codec::push_char;

verus! {

/// The decimal digits of a number, most significant first.
pub open spec fn dec_chars(x: nat) -> Seq<char>
    decreases x,
{
    if x < 10 {
        seq![digit_char(x)]
    } else {
        dec_chars(x / 10).push(digit_char(x % 10))
    }
}

pub open spec fn digit_char(d: nat) -> char {
    if d == 0 {
        '0'
    } else if d == 1 {
        '1'
    } else if d == 2 {
        '2'
    } else if d == 3 {
        '3'
    } else if d == 4 {
        '4'
    } else if d == 5 {
        '5'
    } else if d == 6 {
        '6'
    } else if d == 7 {
        '7'
    } else if d == 8 {
        '8'
    } else {
        '9'
    }
}

fn digit_to_char(d: u64) -> (r: char)
    requires
        d < 10,
    ensures
        r == digit_char(d as nat),
{
    if d == 0 {
        '0'
    } else if d == 1 {
        '1'
    } else if d == 2 {
        '2'
    } else if d == 3 {
        '3'
    } else if d == 4 {
        '4'
    } else if d == 5 {
        '5'
    } else if d == 6 {
        '6'
    } else if d == 7 {
        '7'
    } else if d == 8 {
        '8'
    } else {
        '9'
    }
}

/// Append a number in decimal.
pub fn write_dec(s: &mut String, x: u64)
    ensures
        final(s)@ == old(s)@ + dec_chars(x as nat),
    decreases x,
{
    if x < 10 {
        push_char(s, digit_to_char(x));
        assert(s@ =~= old(s)@ + dec_chars(x as nat));
    } else {
        write_dec(s, x / 10);
        push_char(s, digit_to_char(x % 10));
        assert(s@ =~= old(s)@ + dec_chars(x as nat));
    }
}

/// The eight uppercase hex digits of a 32-bit value.
pub open spec fn hex8_chars(x: u32) -> Seq<char> {
    Seq::new(8, |i: int| hex_char(((x as nat) / pow16((7 - i) as nat)) % 16))
}

pub open spec fn pow16(e: nat) -> nat
    decreases e,
{
    if e == 0 {
        1
    } else {
        16 * pow16((e - 1) as nat)
    }
}

pub open spec fn hex_char(d: nat) -> char {
    if d < 10 {
        digit_char(d)
    } else if d == 10 {
        'A'
    } else if d == 11 {
        'B'
    } else if d == 12 {
        'C'
    } else if d == 13 {
        'D'
    } else if d == 14 {
        'E'
    } else {
        'F'
    }
}

fn hex_digit_to_char(d: u32) -> (r: char)
    requires
        d < 16,
    ensures
        r == hex_char(d as nat),
{
    if d < 10 {
        digit_to_char(d as u64)
    } else if d == 10 {
        'A'
    } else if d == 11 {
        'B'
    } else if d == 12 {
        'C'
    } else if d == 13 {
        'D'
    } else if d == 14 {
        'E'
    } else {
        'F'
    }
}

/// Append a 32-bit value as eight uppercase hex digits.
#[verifier::loop_isolation(false)]
pub fn write_hex8(s: &mut String, x: u32)
    ensures
        final(s)@ == old(s)@ + hex8_chars(x),
{
    let mut i: usize = 0;
    while i < 8
        invariant
            i <= 8,
            s@ == old(s)@ + hex8_chars(x).take(i as int),
        decreases 8 - i,
    {
        let shift: u32 = (7 - i as u32) * 4;
        let mult: u32 = if shift == 0 {
            1
        } else if shift == 4 {
            16
        } else if shift == 8 {
            256
        } else if shift == 12 {
            4096
        } else if shift == 16 {
            65536
        } else if shift == 20 {
            1048576
        } else if shift == 24 {
            16777216
        } else {
            268435456
        };
        proof {
            assert(pow16(0) == 1);
            assert(pow16(1) == 16);
            assert(pow16(2) == 256);
            assert(pow16(3) == 4096);
            assert(pow16(4) == 65536);
            assert(pow16(5) == 1048576);
            assert(pow16(6) == 16777216);
            assert(pow16(7) == 268435456);
            assert(mult == pow16((7 - i) as nat));
        }
        let d: u32 = (x / mult) % 16;
        push_char(s, hex_digit_to_char(d));
        proof {
            assert(hex8_chars(x)[i as int] == hex_char(d as nat));
            assert(s@ =~= old(s)@ + hex8_chars(x).take(i as int + 1));
        }
        i = i + 1;
    }
    proof {
        assert(hex8_chars(x).take(8) =~= hex8_chars(x));
    }
}

/// The eight lowercase hex digits of a 32-bit value.
pub open spec fn hex8_lower_chars(x: u32) -> Seq<char> {
    Seq::new(8, |i: int| hex_char_lower(((x as nat) / pow16((7 - i) as nat)) % 16))
}

pub open spec fn hex_char_lower(d: nat) -> char {
    if d < 10 {
        digit_char(d)
    } else if d == 10 {
        'a'
    } else if d == 11 {
        'b'
    } else if d == 12 {
        'c'
    } else if d == 13 {
        'd'
    } else if d == 14 {
        'e'
    } else {
        'f'
    }
}

fn hex_digit_to_char_lower(d: u32) -> (r: char)
    requires
        d < 16,
    ensures
        r == hex_char_lower(d as nat),
{
    if d < 10 {
        digit_to_char(d as u64)
    } else if d == 10 {
        'a'
    } else if d == 11 {
        'b'
    } else if d == 12 {
        'c'
    } else if d == 13 {
        'd'
    } else if d == 14 {
        'e'
    } else {
        'f'
    }
}

/// Append a 32-bit value as eight lowercase hex digits.
#[verifier::loop_isolation(false)]
pub fn write_hex8_lower(s: &mut String, x: u32)
    ensures
        final(s)@ == old(s)@ + hex8_lower_chars(x),
{
    let mut i: usize = 0;
    while i < 8
        invariant
            i <= 8,
            s@ == old(s)@ + hex8_lower_chars(x).take(i as int),
        decreases 8 - i,
    {
        let shift: u32 = (7 - i as u32) * 4;
        let mult: u32 = if shift == 0 {
            1
        } else if shift == 4 {
            16
        } else if shift == 8 {
            256
        } else if shift == 12 {
            4096
        } else if shift == 16 {
            65536
        } else if shift == 20 {
            1048576
        } else if shift == 24 {
            16777216
        } else {
            268435456
        };
        proof {
            assert(pow16(0) == 1);
            assert(pow16(1) == 16);
            assert(pow16(2) == 256);
            assert(pow16(3) == 4096);
            assert(pow16(4) == 65536);
            assert(pow16(5) == 1048576);
            assert(pow16(6) == 16777216);
            assert(pow16(7) == 268435456);
            assert(mult == pow16((7 - i) as nat));
        }
        let d: u32 = (x / mult) % 16;
        push_char(s, hex_digit_to_char_lower(d));
        proof {
            assert(hex8_lower_chars(x)[i as int] == hex_char_lower(d as nat));
            assert(s@ =~= old(s)@ + hex8_lower_chars(x).take(i as int + 1));
        }
        i = i + 1;
    }
    proof {
        assert(hex8_lower_chars(x).take(8) =~= hex8_lower_chars(x));
    }
}

} // verus!
