//! What holds of the codec as a whole, stated over `spec_encode` and
//! `spec_decode`, the models that `encode` and `decode` are proved against.

use crate::alphabet::{alphabet, digit_of, lemma_alphabet, symbol, PAD};
use crate::decode::{
    decode_group_spec, decode_groups, group_width, spec_decode, symbol_digits, DecodeError,
};
use crate::digits::{
    digits_below, from_digits, lemma_from_digits_bound, lemma_from_to_digits,
    lemma_to_digits_shape, lemma_to_from_digits, to_digits,
};
use crate::encode::{byte_digits, chunk_symbols, last_chunk_start, spec_encode};
use vstd::arithmetic::power::pow;
use vstd::prelude::*;

verus! {

/// Encoding `n` bytes gives `4 * ceil(n / 3)` characters.
pub proof fn lemma_encoded_length(b: Seq<u8>)
    ensures
        spec_encode(b).len() == 4 * ((b.len() + 2) / 3),
    decreases b.len(),
{
    if b.len() > 0 {
        let k = last_chunk_start(b.len());
        lemma_encoded_length(b.take(k as int));
        lemma_chunk_length(b.skip(k as int));
    }
}

proof fn lemma_chunk_length(c: Seq<u8>)
    requires
        1 <= c.len() <= 3,
    ensures
        chunk_symbols(c).len() == 4,
{
    lemma_to_digits_shape(from_digits(byte_digits(c), 256), 67, c.len() + 1);
}

/// The last chunk decides the padding: one byte over a multiple of three
/// ends the text in `==`, two bytes in a single `=`, none in no `=`.
pub proof fn lemma_padding(b: Seq<u8>)
    ensures
        ({
            let e = spec_encode(b);
            &&& b.len() % 3 == 1 ==> e[e.len() - 2] == PAD && e[e.len() - 1] == PAD
            &&& b.len() % 3 == 2 ==> e[e.len() - 2] != PAD && e[e.len() - 1] == PAD
            &&& b.len() % 3 == 0 && b.len() > 0 ==> e[e.len() - 1] != PAD
        }),
{
    if b.len() > 0 {
        lemma_alphabet();
        let k = last_chunk_start(b.len());
        let c = b.skip(k as int);
        let ds = to_digits(from_digits(byte_digits(c), 256), 67, c.len() + 1);
        lemma_to_digits_shape(from_digits(byte_digits(c), 256), 67, c.len() + 1);
        lemma_chunk_length(c);
        let e = spec_encode(b);
        assert(e[e.len() - 1] == chunk_symbols(c)[3]);
        assert(e[e.len() - 2] == chunk_symbols(c)[2]);
        if c.len() == 3 {
            assert(chunk_symbols(c)[3] == symbol(ds[3]));
        } else if c.len() == 2 {
            assert(chunk_symbols(c)[2] == symbol(ds[2]));
        }
    }
}

/// A non-empty text whose length is not a multiple of four is refused for
/// its length.
pub proof fn lemma_invalid_length(s: Seq<char>)
    requires
        s.len() > 0,
        s.len() % 4 != 0,
    ensures
        spec_decode(s) == Err::<Seq<u8>, DecodeError>(DecodeError::InvalidLength),
{
}

/// Whether position `i` of `s` must hold a symbol: each position of its
/// group of four but the trailing `=` that mark a short group.
pub open spec fn symbol_position(s: Seq<char>, i: int) -> bool {
    let start = i - i % 4;
    i % 4 <= group_width(s.subrange(start, start + 4))
}

/// Whether `r` is a failure for a character that is no symbol.
pub open spec fn is_invalid_character<T>(r: Result<T, DecodeError>) -> bool {
    r is Err && r->Err_0 is InvalidCharacter
}

proof fn lemma_symbol_digits_error_kind(cs: Seq<char>)
    ensures
        symbol_digits(cs) is Err ==> is_invalid_character(symbol_digits(cs)),
    decreases cs.len(),
{
    if cs.len() > 0 {
        lemma_symbol_digits_error_kind(cs.drop_last());
    }
}

proof fn lemma_symbol_digits_invalid(cs: Seq<char>, i: int)
    requires
        0 <= i < cs.len(),
        digit_of(cs[i]) is None,
    ensures
        is_invalid_character(symbol_digits(cs)),
    decreases cs.len(),
{
    lemma_symbol_digits_error_kind(cs.drop_last());
    if i < cs.len() - 1 {
        lemma_symbol_digits_invalid(cs.drop_last(), i);
    }
}

proof fn lemma_groups_error_kind(s: Seq<char>)
    ensures
        decode_groups(s) is Err ==> is_invalid_character(decode_groups(s)),
    decreases s.len(),
{
    if s.len() >= 4 {
        let k = s.len() - 4;
        lemma_groups_error_kind(s.take(k));
        let g = s.skip(k);
        lemma_symbol_digits_error_kind(g.take((group_width(g) + 1) as int));
    }
}

proof fn lemma_groups_invalid(s: Seq<char>, i: int)
    requires
        s.len() % 4 == 0,
        0 <= i < s.len(),
        symbol_position(s, i),
        digit_of(s[i]) is None,
    ensures
        is_invalid_character(decode_groups(s)),
    decreases s.len(),
{
    let k = s.len() - 4;
    lemma_groups_error_kind(s.take(k));
    if i < k {
        let t = s.take(k);
        let start = i - i % 4;
        assert(t.subrange(start, start + 4) =~= s.subrange(start, start + 4));
        lemma_groups_invalid(t, i);
    } else {
        let g = s.skip(k);
        let w = group_width(g);
        assert(s.subrange(i - i % 4, i - i % 4 + 4) =~= g);
        assert(g.take((w + 1) as int)[i - k] == s[i]);
        lemma_symbol_digits_invalid(g.take((w + 1) as int), i - k);
    }
}

/// A text of whole groups with a character outside the alphabet where a
/// symbol must stand is refused for an invalid character.
pub proof fn lemma_invalid_character(s: Seq<char>, i: int)
    requires
        s.len() % 4 == 0,
        0 <= i < s.len(),
        symbol_position(s, i),
        !alphabet().contains(s[i]),
    ensures
        is_invalid_character(spec_decode(s)),
{
    lemma_alphabet();
    if digit_of(s[i]) is Some {
        let d = digit_of(s[i])->0;
        assert(alphabet()[d as int] == s[i]);
    }
    lemma_groups_invalid(s, i);
}

/// Digits below 67, written as symbols, read back as the same digits.
proof fn lemma_symbol_digits_of_symbols(ds: Seq<nat>)
    requires
        digits_below(ds, 67),
    ensures
        symbol_digits(ds.map_values(|d: nat| symbol(d))) == Ok::<Seq<nat>, DecodeError>(ds),
    decreases ds.len(),
{
    lemma_alphabet();
    if ds.len() > 0 {
        let p = ds.drop_last();
        assert(digits_below(p, 67)) by {
            assert forall|i: int| 0 <= i < p.len() implies #[trigger] p[i] < 67 by {
                assert(p[i] == ds[i]);
            }
        }
        lemma_symbol_digits_of_symbols(p);
        let cs = ds.map_values(|d: nat| symbol(d));
        assert(cs.drop_last() =~= p.map_values(|d: nat| symbol(d)));
        assert(ds.last() < 67);
        assert(cs.last() == symbol(ds.last()));
        assert(digit_of(cs.last()) == Some(ds.last()));
        assert(ds =~= p.push(ds.last()));
    } else {
        assert(ds =~= Seq::<nat>::empty());
        assert(ds.map_values(|d: nat| symbol(d)) =~= Seq::<char>::empty());
    }
}

/// The four characters of a chunk decode to the chunk.
proof fn lemma_chunk_round_trip(c: Seq<u8>)
    requires
        1 <= c.len() <= 3,
    ensures
        decode_group_spec(chunk_symbols(c)) == Ok::<Seq<u8>, DecodeError>(c),
{
    lemma_alphabet();
    let n = c.len();
    let bd = byte_digits(c);
    let v = from_digits(bd, 256);
    let ds = to_digits(v, 67, n + 1);
    let g = chunk_symbols(c);
    lemma_to_digits_shape(v, 67, n + 1);
    lemma_chunk_length(c);
    assert(digits_below(bd, 256));
    lemma_from_digits_bound(bd, 256);
    assert(pow(256, n) <= pow(67, n + 1)) by {
        reveal_with_fuel(pow, 5);
    }
    lemma_from_to_digits(v, 67, n + 1);
    lemma_to_from_digits(bd, 256);
    if n == 3 {
        assert(g[3] == symbol(ds[3]));
    } else if n == 2 {
        assert(g[2] == symbol(ds[2]));
    }
    assert(group_width(g) == n);
    assert(g.take((n + 1) as int) =~= ds.map_values(|d: nat| symbol(d)));
    lemma_symbol_digits_of_symbols(ds);
    assert(to_digits(v, 256, n).map_values(|d: nat| d as u8) =~= c);
}

proof fn lemma_groups_of_encoding(b: Seq<u8>)
    ensures
        decode_groups(spec_encode(b)) == Ok::<Seq<u8>, DecodeError>(b),
    decreases b.len(),
{
    if b.len() > 0 {
        let k = last_chunk_start(b.len());
        let front = spec_encode(b.take(k as int));
        let c = b.skip(k as int);
        let e = spec_encode(b);
        lemma_groups_of_encoding(b.take(k as int));
        lemma_chunk_length(c);
        lemma_chunk_round_trip(c);
        assert(e.take(e.len() - 4) =~= front);
        assert(e.skip(e.len() - 4) =~= chunk_symbols(c));
        assert(b.take(k as int) + c =~= b);
    } else {
        assert(b =~= Seq::<u8>::empty());
    }
}

/// Decoding the encoding of any bytes gives those bytes back.
pub proof fn lemma_round_trip(b: Seq<u8>)
    ensures
        spec_decode(spec_encode(b)) == Ok::<Seq<u8>, DecodeError>(b),
{
    lemma_encoded_length(b);
    lemma_groups_of_encoding(b);
}

} // verus!
