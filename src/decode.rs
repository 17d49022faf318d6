//! The decoder: four characters to up to three bytes, padding honoured in
//! the last two positions of a group.

use crate::alphabet::{digit_at, digit_of, PAD};
use crate::digits::{from_digits, to_digits};
use vstd::prelude::*;

verus! {

/// Why a text is not base67.
#[derive(Debug, Clone, Copy, PartialEq, Eq)]
pub enum DecodeError {
    /// The text is not empty and its length is not a multiple of four.
    InvalidLength,
    /// A position that must hold a symbol holds this character.
    InvalidCharacter(char),
}

/// How many bytes the four-character group `g` stands for: one when it
/// ends in `==`, two when it ends in a single `=`, else three.
pub open spec fn group_width(g: Seq<char>) -> nat {
    if g[2] == PAD && g[3] == PAD {
        1
    } else if g[3] == PAD {
        2
    } else {
        3
    }
}

/// The digits of the symbols `cs`, or the first character that is no symbol.
pub open spec fn symbol_digits(cs: Seq<char>) -> Result<Seq<nat>, DecodeError>
    decreases cs.len(),
{
    if cs.len() == 0 {
        Ok(seq![])
    } else {
        match symbol_digits(cs.drop_last()) {
            Err(e) => Err(e),
            Ok(ds) => match digit_of(cs.last()) {
                Some(d) => Ok(ds.push(d)),
                None => Err(DecodeError::InvalidCharacter(cs.last())),
            },
        }
    }
}

/// The bytes of the four-character group `g`: its leading `width + 1`
/// symbols read as a base-67 number, of which the low `width` bytes are
/// taken, most significant first.
pub open spec fn decode_group_spec(g: Seq<char>) -> Result<Seq<u8>, DecodeError> {
    let w = group_width(g);
    match symbol_digits(g.take((w + 1) as int)) {
        Err(e) => Err(e),
        Ok(ds) => Ok(to_digits(from_digits(ds, 67), 256, w).map_values(|d: nat| d as u8)),
    }
}

/// The bytes of the groups of `s` in order, or the first group's error.
pub open spec fn decode_groups(s: Seq<char>) -> Result<Seq<u8>, DecodeError>
    decreases s.len(),
{
    if s.len() < 4 {
        Ok(seq![])
    } else {
        let k = s.len() - 4;
        match decode_groups(s.take(k)) {
            Err(e) => Err(e),
            Ok(front) => match decode_group_spec(s.skip(k)) {
                Err(e) => Err(e),
                Ok(last) => Ok(front + last),
            },
        }
    }
}

/// What decoding the text `s` gives.
pub open spec fn spec_decode(s: Seq<char>) -> Result<Seq<u8>, DecodeError> {
    if s.len() == 0 {
        Ok(seq![])
    } else if s.len() % 4 != 0 {
        Err(DecodeError::InvalidLength)
    } else {
        decode_groups(s)
    }
}

/// Once a prefix of whole groups fails, the whole text fails the same way.
proof fn lemma_groups_error_extends(s: Seq<char>, i: nat)
    requires
        i % 4 == 0,
        s.len() % 4 == 0,
        i <= s.len(),
        decode_groups(s.take(i as int)) is Err,
    ensures
        decode_groups(s) == decode_groups(s.take(i as int)),
    decreases s.len(),
{
    if i == s.len() {
        assert(s.take(i as int) =~= s);
    } else {
        let k = s.len() - 4;
        assert(s.take(k).take(i as int) =~= s.take(i as int));
        lemma_groups_error_extends(s.take(k), i);
    }
}

/// The digit of symbol `c`, or the error that names `c`.
fn decode_char(c: char) -> (r: Result<u8, DecodeError>)
    ensures
        r == match digit_of(c) {
            Some(d) => Ok::<u8, DecodeError>(d as u8),
            None => Err(DecodeError::InvalidCharacter(c)),
        },
        r is Ok ==> r->Ok_0 < 67,
{
    match digit_at(c) {
        Some(d) => Ok(d),
        None => Err(DecodeError::InvalidCharacter(c)),
    }
}

/// Decodes the group `c0 c1 c2 c3`, appending its bytes to `output`.
fn decode_group(c0: char, c1: char, c2: char, c3: char, output: &mut Vec<u8>) -> (r: Result<
    (),
    DecodeError,
>)
    ensures
        ({
            let g = seq![c0, c1, c2, c3];
            match r {
                Ok(_) => decode_group_spec(g) is Ok && final(output)@ == old(output)@
                    + decode_group_spec(g)->Ok_0,
                Err(e) => decode_group_spec(g) == Err::<Seq<u8>, DecodeError>(e),
            }
        }),
{
    let ghost g = seq![c0, c1, c2, c3];
    proof {
        reveal_with_fuel(symbol_digits, 5);
        reveal_with_fuel(from_digits, 5);
        reveal_with_fuel(to_digits, 4);
        assert(g.take(4).drop_last() =~= g.take(3));
        assert(g.take(3).drop_last() =~= g.take(2));
        assert(g.take(2).drop_last() =~= g.take(1));
        assert(g.take(1).drop_last() =~= g.take(0));
    }
    if c2 == PAD && c3 == PAD {
        let i0 = match decode_char(c0) {
            Ok(d) => d as u32,
            Err(e) => return Err(e),
        };
        let i1 = match decode_char(c1) {
            Ok(d) => d as u32,
            Err(e) => return Err(e),
        };
        let val = i0 * 67 + i1;
        assert(val & 0xff == val % 256) by (bit_vector);
        output.push((val & 0xFF) as u8);
        assert(decode_group_spec(g)->Ok_0 =~= seq![(val % 256) as u8]);
    } else if c3 == PAD {
        let i0 = match decode_char(c0) {
            Ok(d) => d as u32,
            Err(e) => return Err(e),
        };
        let i1 = match decode_char(c1) {
            Ok(d) => d as u32,
            Err(e) => return Err(e),
        };
        let i2 = match decode_char(c2) {
            Ok(d) => d as u32,
            Err(e) => return Err(e),
        };
        let val = (i0 * 67 + i1) * 67 + i2;
        assert(val & 0xff == val % 256) by (bit_vector);
        assert((val >> 8) & 0xff == (val / 256) % 256) by (bit_vector);
        output.push(((val >> 8) & 0xFF) as u8);
        output.push((val & 0xFF) as u8);
        assert(decode_group_spec(g)->Ok_0 =~= seq![((val / 256) % 256) as u8, (val % 256) as u8]);
    } else {
        let i0 = match decode_char(c0) {
            Ok(d) => d as u32,
            Err(e) => return Err(e),
        };
        let i1 = match decode_char(c1) {
            Ok(d) => d as u32,
            Err(e) => return Err(e),
        };
        let i2 = match decode_char(c2) {
            Ok(d) => d as u32,
            Err(e) => return Err(e),
        };
        let i3 = match decode_char(c3) {
            Ok(d) => d as u32,
            Err(e) => return Err(e),
        };
        let val = ((i0 * 67 + i1) * 67 + i2) * 67 + i3;
        assert(val & 0xff == val % 256) by (bit_vector);
        assert((val >> 8) & 0xff == (val / 256) % 256) by (bit_vector);
        assert((val >> 16) & 0xff == (val / 256 / 256) % 256) by (bit_vector);
        output.push(((val >> 16) & 0xFF) as u8);
        output.push(((val >> 8) & 0xFF) as u8);
        output.push((val & 0xFF) as u8);
        assert(decode_group_spec(g)->Ok_0 =~= seq![
            ((val / 256 / 256) % 256) as u8,
            ((val / 256) % 256) as u8,
            (val % 256) as u8,
        ]);
    }
    Ok(())
}

/// Decodes base67 text back into bytes.
pub fn decode(input: &str) -> (r: Result<Vec<u8>, DecodeError>)
    ensures
        match r {
            Ok(bytes) => spec_decode(input@) == Ok::<Seq<u8>, DecodeError>(bytes@),
            Err(e) => spec_decode(input@) == Err::<Seq<u8>, DecodeError>(e),
        },
{
    let mut chars: Vec<char> = Vec::new();
    for c in it: input.chars()
        invariant
            it.seq() == input@,
            chars@ == input@.take(it.index() as int),
    {
        chars.push(c);
    }
    assert(chars@ =~= input@);
    let n = chars.len();
    if n == 0 {
        return Ok(Vec::new());
    }
    if n % 4 != 0 {
        return Err(DecodeError::InvalidLength);
    }
    let mut output: Vec<u8> = Vec::new();
    let mut i: usize = 0;
    assert(chars@.take(0) =~= Seq::<char>::empty());
    while i < n
        invariant
            chars@ == input@,
            n == chars@.len(),
            n % 4 == 0,
            i % 4 == 0,
            i <= n,
            decode_groups(chars@.take(i as int)) == Ok::<Seq<u8>, DecodeError>(output@),
        decreases n - i,
    {
        let ghost front = output@;
        let result = decode_group(chars[i], chars[i + 1], chars[i + 2], chars[i + 3], &mut output);
        proof {
            let t = chars@.take(i + 4);
            assert(t.take(i as int) =~= chars@.take(i as int));
            assert(t.skip(i as int) =~= seq![chars@[i as int], chars@[i + 1], chars@[i + 2], chars@[i + 3]]);
        }
        match result {
            Ok(_) => {},
            Err(e) => {
                proof {
                    let t = chars@.take(i + 4);
                    assert(decode_groups(t) == Err::<Seq<u8>, DecodeError>(e));
                    lemma_groups_error_extends(chars@, (i + 4) as nat);
                }
                return Err(e);
            },
        }
        i = i + 4;
    }
    assert(chars@.take(n as int) =~= chars@);
    Ok(output)
}

} // verus!
