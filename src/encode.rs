//! The encoder: three bytes to four symbols, a short final chunk padded.

use crate::alphabet::{lemma_alphabet, symbol, symbol_at, PAD};
use crate::digits::{from_digits, to_digits};
use vstd::prelude::*;
use vstd::string::StringExecFns;

verus! {

/// The bytes of `c` as base-256 digits.
pub open spec fn byte_digits(c: Seq<u8>) -> Seq<nat> {
    c.map_values(|x: u8| x as nat)
}

/// The four characters that encode a chunk of one to three bytes: the
/// big-endian value of the chunk in `len + 1` base-67 digits, then one
/// `=` for each missing byte.
pub open spec fn chunk_symbols(c: Seq<u8>) -> Seq<char> {
    let v = from_digits(byte_digits(c), 256);
    to_digits(v, 67, c.len() + 1).map_values(|d: nat| symbol(d))
        + Seq::new((3 - c.len()) as nat, |i: int| PAD)
}

/// Where the last chunk of an `n`-byte input starts (`n > 0`).
pub open spec fn last_chunk_start(n: nat) -> nat {
    (((n - 1) as nat / 3) * 3) as nat
}

/// The encoding of `b`: the chunks of three bytes, the last possibly
/// shorter, each encoded in order.
pub open spec fn spec_encode(b: Seq<u8>) -> Seq<char>
    decreases b.len(),
{
    if b.len() == 0 {
        seq![]
    } else {
        let k = last_chunk_start(b.len());
        spec_encode(b.take(k as int)) + chunk_symbols(b.skip(k as int))
    }
}

/// Appends the symbols of the chunk `input[start..start + count]`.
fn push_chunk(output: &mut String, input: &[u8], start: usize, count: usize)
    requires
        1 <= count <= 3,
        start + count <= input@.len(),
    ensures
        final(output)@ == old(output)@ + chunk_symbols(input@.subrange(
            start as int,
            (start + count) as int,
        )),
{
    proof {
        lemma_alphabet();
        reveal_with_fuel(from_digits, 4);
        reveal_with_fuel(to_digits, 5);
    }
    let ghost c = input@.subrange(start as int, (start + count) as int);
    if count == 3 {
        let b0 = input[start] as u32;
        let b1 = input[start + 1] as u32;
        let b2 = input[start + 2] as u32;
        let val = (b0 << 16) | (b1 << 8) | b2;
        assert((b0 << 16) | (b1 << 8) | b2 == b0 * 65536 + b1 * 256 + b2) by (bit_vector)
            requires
                b0 < 256 && b1 < 256 && b2 < 256,
        ;
        assert(byte_digits(c) =~= seq![b0 as nat, b1 as nat, b2 as nat]);
        let mut n = val;
        let d3 = n % 67;
        n = n / 67;
        let d2 = n % 67;
        n = n / 67;
        let d1 = n % 67;
        n = n / 67;
        let d0 = n % 67;
        output.append(symbol_at(d0 as usize));
        output.append(symbol_at(d1 as usize));
        output.append(symbol_at(d2 as usize));
        output.append(symbol_at(d3 as usize));
        assert(chunk_symbols(c) =~= seq![
            symbol(d0 as nat),
            symbol(d1 as nat),
            symbol(d2 as nat),
            symbol(d3 as nat),
        ]);
    } else if count == 2 {
        let b0 = input[start] as u32;
        let b1 = input[start + 1] as u32;
        let val = (b0 << 8) | b1;
        assert((b0 << 8) | b1 == b0 * 256 + b1) by (bit_vector)
            requires
                b0 < 256 && b1 < 256,
        ;
        assert(byte_digits(c) =~= seq![b0 as nat, b1 as nat]);
        let mut n = val;
        let d2 = n % 67;
        n = n / 67;
        let d1 = n % 67;
        n = n / 67;
        let d0 = n % 67;
        output.append(symbol_at(d0 as usize));
        output.append(symbol_at(d1 as usize));
        output.append(symbol_at(d2 as usize));
        output.append("=");
        proof {
            reveal_strlit("=");
        }
        assert(chunk_symbols(c) =~= seq![
            symbol(d0 as nat),
            symbol(d1 as nat),
            symbol(d2 as nat),
            PAD,
        ]);
    } else {
        let val = input[start] as u32;
        assert(byte_digits(c) =~= seq![val as nat]);
        let mut n = val;
        let d1 = n % 67;
        n = n / 67;
        let d0 = n % 67;
        output.append(symbol_at(d0 as usize));
        output.append(symbol_at(d1 as usize));
        output.append("==");
        proof {
            reveal_strlit("==");
        }
        assert(chunk_symbols(c) =~= seq![symbol(d0 as nat), symbol(d1 as nat), PAD, PAD]);
    }
}

/// Encodes `input` as base67 text.
pub fn encode(input: &[u8]) -> (r: String)
    ensures
        r@ == spec_encode(input@),
{
    let mut output = String::new();
    let n = input.len();
    let mut i: usize = 0;
    assert(input@.take(0) =~= Seq::<u8>::empty());
    while i < n
        invariant
            n == input@.len(),
            i <= n,
            i % 3 == 0,
            output@ == spec_encode(input@.take(i as int)),
        decreases n - i,
    {
        let count: usize = if n - i >= 3 {
            3
        } else {
            n - i
        };
        push_chunk(&mut output, input, i, count);
        let next = i + count;
        proof {
            let b = input@.take(next as int);
            assert(last_chunk_start(b.len()) == i);
            assert(b.take(i as int) =~= input@.take(i as int));
            assert(b.skip(i as int) =~= input@.subrange(i as int, next as int));
        }
        if count < 3 {
            assert(input@.take(next as int) =~= input@);
            return output;
        }
        i = next;
    }
    assert(input@.take(n as int) =~= input@);
    output
}

} // verus!
