//! The 67 symbols and the two maps between digits and symbols.

use vstd::prelude::*;
use vstd::string::StrSliceExecFns;

verus! {

/// The 67 symbols in digit order: `A`-`Z`, `a`-`z`, `0`-`9`, then `+ / | \ -`.
pub const ALPHABET: &'static str = "ABCDEFGHIJKLMNOPQRSTUVWXYZabcdefghijklmnopqrstuvwxyz0123456789+/|\\-";

/// The character that marks a short final chunk; it is not a symbol.
pub const PAD: char = '=';

/// The symbol sequence, position `d` holding the symbol of digit `d`.
pub open spec fn alphabet() -> Seq<char> {
    ALPHABET@
}

/// The symbol that stands for digit `d`.
pub open spec fn symbol(d: nat) -> char {
    alphabet()[d as int]
}

/// The digit that symbol `c` stands for, if `c` is a symbol.
pub open spec fn digit_of(c: char) -> Option<nat> {
    if 'A' <= c <= 'Z' {
        Some((c as nat - 'A' as nat) as nat)
    } else if 'a' <= c <= 'z' {
        Some((c as nat - 'a' as nat + 26) as nat)
    } else if '0' <= c <= '9' {
        Some((c as nat - '0' as nat + 52) as nat)
    } else if c == '+' {
        Some(62)
    } else if c == '/' {
        Some(63)
    } else if c == '|' {
        Some(64)
    } else if c == '\\' {
        Some(65)
    } else if c == '-' {
        Some(66)
    } else {
        None
    }
}

/// The alphabet has 67 symbols, all ASCII, and `digit_of` inverts `symbol`.
pub proof fn lemma_alphabet()
    ensures
        alphabet().len() == 67,
        vstd::string::is_ascii(ALPHABET),
        forall|d: nat| d < 67 ==> #[trigger] digit_of(symbol(d)) == Some(d),
        forall|d: nat| d < 67 ==> #[trigger] symbol(d) != PAD,
        forall|c: char|
            #[trigger] digit_of(c) is Some ==> digit_of(c)->0 < 67 && symbol(digit_of(c)->0) == c,
{
    reveal_strlit("ABCDEFGHIJKLMNOPQRSTUVWXYZabcdefghijklmnopqrstuvwxyz0123456789+/|\\-");
    assert(alphabet().len() == 67);
    assert forall|d: nat| d < 67 implies #[trigger] digit_of(symbol(d)) == Some(d) && symbol(d) != PAD by {
    }
    assert forall|c: char| #[trigger] digit_of(c) is Some implies digit_of(c)->0 < 67 && symbol(
        digit_of(c)->0,
    ) == c by {
        let d = digit_of(c)->0;
        assert(digit_of(symbol(d)) == Some(d));
    }
}

/// The digit of symbol `c`; `None` where `c` is no symbol.
pub fn digit_at(c: char) -> (r: Option<u8>)
    ensures
        r == match digit_of(c) {
            Some(d) => Some(d as u8),
            None => None::<u8>,
        },
{
    if 'A' <= c && c <= 'Z' {
        Some((c as u32 - 'A' as u32) as u8)
    } else if 'a' <= c && c <= 'z' {
        Some((c as u32 - 'a' as u32 + 26) as u8)
    } else if '0' <= c && c <= '9' {
        Some((c as u32 - '0' as u32 + 52) as u8)
    } else if c == '+' {
        Some(62)
    } else if c == '/' {
        Some(63)
    } else if c == '|' {
        Some(64)
    } else if c == '\\' {
        Some(65)
    } else if c == '-' {
        Some(66)
    } else {
        None
    }
}

/// The symbol of digit `d`, as a one-character string.
pub fn symbol_at(d: usize) -> (r: &'static str)
    requires
        d < 67,
    ensures
        r@ == seq![symbol(d as nat)],
{
    proof {
        lemma_alphabet();
    }
    let r = ALPHABET.substring_ascii(d, d + 1);
    assert(r@ =~= seq![symbol(d as nat)]);
    r
}

} // verus!
