//! Identifiers: the counter that numbers subscriptions, and the generator of
//! message identifiers.

use vstd::prelude::*;
use vstd::string::*;
use vstd::utf8::is_ascii_chars;

verus! {

/// Hands out the counter's value and moves the counter on by one.
pub fn get_id(counter: &mut usize) -> (id: usize)
    requires
        *old(counter) < usize::MAX,
    ensures
        id == *old(counter),
        *final(counter) == id + 1,
{
    let id: usize = *counter;
    *counter = id + 1;
    id
}

pub const MULTIPLIER: u64 = 6364136223846793005;

pub const INCREMENT: u64 = 1442695040888963407;

/// The seed that follows a seed: one step of a linear congruential generator
/// modulo 2^64.
pub open spec fn stepped(seed: u64) -> u64 {
    ((seed * MULTIPLIER + INCREMENT) % 0x1_0000_0000_0000_0000) as u64
}

/// Moves a seed on by one step.
pub fn step(seed: u64) -> (next: u64)
    ensures
        next == stepped(seed),
{
    assert(seed * MULTIPLIER <= 0xFFFF_FFFF_FFFF_FFFF * 0xFFFF_FFFF_FFFF_FFFF) by (nonlinear_arith)
        requires
            seed <= 0xFFFF_FFFF_FFFF_FFFF,
            MULTIPLIER <= 0xFFFF_FFFF_FFFF_FFFF,
    ;
    let wide: u128 = (seed as u128) * (MULTIPLIER as u128) + (INCREMENT as u128);
    (wide % 0x1_0000_0000_0000_0000u128) as u64
}

/// The 62 symbols of a message identifier.
pub open spec fn alphabet() -> Seq<char> {
    "0123456789ABCDEFGHIJKLMNOPQRSTUVWXYZabcdefghijklmnopqrstuvwxyz"@
}

/// A digit, a capital or a small letter of the Latin alphabet.
pub open spec fn alphanumeric(c: char) -> bool {
    ||| '0' <= c <= '9'
    ||| 'A' <= c <= 'Z'
    ||| 'a' <= c <= 'z'
}

/// The lowest `count` digits of `x` to the base 62, lowest first, each written
/// as its symbol.
pub open spec fn symbols(x: u64, count: nat) -> Seq<char>
    decreases count,
{
    if count == 0 {
        Seq::empty()
    } else {
        seq![alphabet()[(x % 62) as int]] + symbols(x / 62, (count - 1) as nat)
    }
}

/// The message identifier that a seed gives: eight symbols drawn from the upper
/// bits of the seed.
pub open spec fn message_id(seed: u64) -> Seq<char> {
    symbols(seed / 0x1_0000, 8)
}

/// A message identifier has eight characters, each a digit or a letter.
pub proof fn law_message_ids_are_alphanumeric(seed: u64)
    ensures
        message_id(seed).len() == 8,
        forall|i: int| 0 <= i < 8 ==> alphanumeric(#[trigger] message_id(seed)[i]),
{
    lemma_symbols(seed / 0x1_0000, 8);
}

proof fn lemma_alphabet()
    ensures
        alphabet().len() == 62,
        forall|d: int| 0 <= d < 62 ==> alphanumeric(#[trigger] alphabet()[d]),
        is_ascii_chars(alphabet()),
{
    reveal_strlit("0123456789ABCDEFGHIJKLMNOPQRSTUVWXYZabcdefghijklmnopqrstuvwxyz");
}

proof fn lemma_symbols(x: u64, count: nat)
    ensures
        symbols(x, count).len() == count,
        forall|i: int| 0 <= i < count ==> alphanumeric(#[trigger] symbols(x, count)[i]),
    decreases count,
{
    lemma_alphabet();
    if count > 0 {
        lemma_symbols(x / 62, (count - 1) as nat);
        let rest = symbols(x / 62, (count - 1) as nat);
        assert forall|i: int| 0 <= i < count implies alphanumeric(
            #[trigger] symbols(x, count)[i],
        ) by {
            if i > 0 {
                assert(symbols(x, count)[i] == rest[i - 1]);
            }
        }
    }
}

/// Writes the message identifier of a seed.
pub fn message_id_of(seed: u64) -> (id: String)
    ensures
        id@ == message_id(seed),
{
    let table = "0123456789ABCDEFGHIJKLMNOPQRSTUVWXYZabcdefghijklmnopqrstuvwxyz";
    proof {
        lemma_alphabet();
    }
    let mut id = String::new();
    let mut x: u64 = seed / 0x1_0000;
    let mut written: usize = 0;
    while written < 8
        invariant
            written <= 8,
            table@ == alphabet(),
            table.is_ascii(),
            alphabet().len() == 62,
            id@ + symbols(x, (8 - written) as nat) == message_id(seed),
        decreases 8 - written,
    {
        let digit: usize = (x % 62) as usize;
        let piece = table.substring_ascii(digit, digit + 1);
        proof {
            let rest = symbols((x / 62) as u64, (8 - written - 1) as nat);
            assert(piece@ =~= seq![alphabet()[digit as int]]);
            assert((id@ + piece@) + rest =~= id@ + (seq![alphabet()[digit as int]] + rest));
        }
        id.append(piece);
        x = x / 62;
        written += 1;
    }
    assert(id@ + Seq::<char>::empty() =~= id@);
    id
}

} // verus!
