use vstd::prelude::*;

use crate::error::PinError;

verus! {

/// Bytes at or above this value are rejected: it is the largest multiple of
/// 100 that a byte can reach, so accepted bytes map onto 0..=99 without bias.
pub const ACCEPT_LIMIT: u8 = 200;

/// Size of the pseudo-random buffer: two SHA-512 digests.
pub const BUFFER_SIZE: usize = 128;

/// A byte that the rejection sampling keeps.
pub open spec fn is_accepted(b: u8) -> bool {
    b < ACCEPT_LIMIT
}

/// The tens digit of the value that an accepted byte stands for.
pub open spec fn tens_of(b: u8) -> int {
    (b % 100) as int / 10
}

/// The units digit of the value that an accepted byte stands for.
pub open spec fn units_of(b: u8) -> int {
    b as int % 10
}

/// Two decimal digits packed into one byte: tens in the high nibble, units in
/// the low nibble.
pub open spec fn pack_digits(tens: int, units: int) -> u8 {
    (tens * 16 + units) as u8
}

/// The packed digit pair that an accepted byte yields.
pub open spec fn pair_of(b: u8) -> u8 {
    pack_digits(tens_of(b), units_of(b))
}

/// A byte whose two nibbles are both decimal digits.
pub open spec fn is_digit_pair(p: u8) -> bool {
    p / 16 <= 9 && p % 16 <= 9
}

/// The digit pairs that a buffer yields, in buffer order: each accepted byte
/// gives one pair, each rejected byte is skipped.
pub open spec fn digits_of(s: Seq<u8>) -> Seq<u8>
    decreases s.len(),
{
    if s.len() == 0 {
        Seq::<u8>::empty()
    } else if is_accepted(s[0]) {
        seq![pair_of(s[0])] + digits_of(s.drop_first())
    } else {
        digits_of(s.drop_first())
    }
}

/// How many bytes of a buffer the rejection sampling keeps.
pub open spec fn accepted_count(s: Seq<u8>) -> nat
    decreases s.len(),
{
    if s.len() == 0 {
        0
    } else if is_accepted(s[0]) {
        1 + accepted_count(s.drop_first())
    } else {
        accepted_count(s.drop_first())
    }
}

/// One pair per accepted byte, no more and no fewer.
pub proof fn lemma_digits_len(s: Seq<u8>)
    ensures
        digits_of(s).len() == accepted_count(s),
    decreases s.len(),
{
    if s.len() > 0 {
        lemma_digits_len(s.drop_first());
    }
}

/// Every pair that a buffer yields has two decimal digits.
pub proof fn lemma_digits_are_pairs(s: Seq<u8>)
    ensures
        forall|i: int| 0 <= i < digits_of(s).len() ==> is_digit_pair(#[trigger] digits_of(s)[i]),
    decreases s.len(),
{
    if s.len() > 0 {
        lemma_digits_are_pairs(s.drop_first());
        let d = digits_of(s);
        let rest = digits_of(s.drop_first());
        if is_accepted(s[0]) {
            let b = s[0];
            assert(0 <= tens_of(b) <= 9 && 0 <= units_of(b) <= 9);
            assert(is_digit_pair(pair_of(b)));
            assert(d == seq![pair_of(b)] + rest);
            assert forall|i: int| 0 <= i < d.len() implies is_digit_pair(#[trigger] d[i]) by {
                if i > 0 {
                    assert(d[i] == rest[i - 1]);
                } else {
                    assert(d[i] == pair_of(b));
                }
            }
        } else {
            assert(d == rest);
        }
    }
}

/// A rejected byte in front of a buffer changes nothing that the buffer yields.
pub proof fn lemma_rejected_byte_skipped(b: u8, s: Seq<u8>)
    requires
        !is_accepted(b),
    ensures
        digits_of(seq![b] + s) == digits_of(s),
{
    assert((seq![b] + s).drop_first() =~= s);
}

/// Each of the hundred digit pairs comes from exactly two accepted bytes,
/// `10 * tens + units` and `100 + 10 * tens + units`, so that a uniform byte
/// that is accepted gives a uniform pair.
pub proof fn lemma_pairs_unbiased(tens: int, units: int)
    requires
        0 <= tens <= 9,
        0 <= units <= 9,
    ensures
        Set::new(|b: u8| is_accepted(b) && pair_of(b) == pack_digits(tens, units))
            == set![(10 * tens + units) as u8, (100 + 10 * tens + units) as u8],
        Set::new(|b: u8| is_accepted(b) && pair_of(b) == pack_digits(tens, units)).len() == 2,
{
    let lo = (10 * tens + units) as u8;
    let hi = (100 + 10 * tens + units) as u8;
    let s = Set::new(|b: u8| is_accepted(b) && pair_of(b) == pack_digits(tens, units));
    assert forall|b: u8| s.contains(b) <==> (b == lo || b == hi) by {
        if is_accepted(b) {
            assert(0 <= tens_of(b) <= 9 && 0 <= units_of(b) <= 9);
            assert(b as int == 100 * ((b as int) / 100) + 10 * tens_of(b) + units_of(b));
        }
    }
    assert(s =~= set![lo, hi]);
    assert(lo != hi);
    assert(set![lo, hi].len() == 2) by {
        assert(set![lo].len() == 1) by {
            assert(Set::<u8>::empty().insert(lo).len() == 1);
        }
    }
}

/// How the suffix of a buffer from position `i` yields its pairs.
proof fn lemma_digits_step(s: Seq<u8>, i: int)
    requires
        0 <= i < s.len(),
    ensures
        digits_of(s.subrange(i, s.len() as int)) == if is_accepted(s[i]) {
            seq![pair_of(s[i])] + digits_of(s.subrange(i + 1, s.len() as int))
        } else {
            digits_of(s.subrange(i + 1, s.len() as int))
        },
{
    let t = s.subrange(i, s.len() as int);
    assert(t.drop_first() =~= s.subrange(i + 1, s.len() as int));
    assert(t[0] == s[i]);
}

/// The pseudo-random source of digit pairs: a buffer and a forward-only cursor.
pub struct Random {
    buffer: [u8; BUFFER_SIZE],
    cursor: usize,
}

impl Random {
    /// The bytes that have not been read yet.
    pub closed spec fn remaining(&self) -> Seq<u8> {
        if self.cursor < BUFFER_SIZE {
            self.buffer@.subrange(self.cursor as int, BUFFER_SIZE as int)
        } else {
            Seq::<u8>::empty()
        }
    }

    /// The digit pairs that are still to come, in order.
    pub open spec fn digits(&self) -> Seq<u8> {
        digits_of(self.remaining())
    }

    /// Initialise the source over a buffer, reading from its first byte.
    pub fn new(buffer: [u8; BUFFER_SIZE]) -> (r: Random)
        ensures
            r.remaining() == buffer@,
            r.digits() == digits_of(buffer@),
    {
        let r = Random { buffer, cursor: 0 };
        assert(r.buffer@.subrange(0, BUFFER_SIZE as int) =~= buffer@);
        r
    }

    /// Take the next digit pair: the pair of the next accepted byte, skipping
    /// rejected ones. Once the buffer is used up every call fails.
    pub fn next(&mut self) -> (r: Result<u8, PinError>)
        ensures
            old(self).digits().len() > 0 ==> r == Ok::<u8, PinError>(old(self).digits()[0])
                && final(self).digits() == old(self).digits().drop_first(),
            old(self).digits().len() == 0 ==> r == Err::<u8, PinError>(PinError::Exhausted)
                && final(self).digits().len() == 0,
    {
        let ghost start = self.digits();
        while self.cursor < BUFFER_SIZE
            invariant
                self.digits() == start,
                start == old(self).digits(),
                self.buffer == old(self).buffer,
            decreases BUFFER_SIZE - self.cursor,
        {
            let b = self.buffer[self.cursor];
            proof {
                lemma_digits_step(self.buffer@, self.cursor as int);
            }
            self.cursor = self.cursor + 1;
            proof {
                let n = BUFFER_SIZE as int;
                assert(old(self).buffer@.subrange(n, n) =~= Seq::<u8>::empty());
            }
            if b < ACCEPT_LIMIT {
                let p = pair_byte(b);
                assert(start == seq![p] + self.digits());
                assert(start.drop_first() =~= self.digits());
                return Ok(p);
            }
        }
        Err(PinError::Exhausted)
    }
}

/// Pack an accepted byte into its digit pair.
fn pair_byte(b: u8) -> (r: u8)
    requires
        is_accepted(b),
    ensures
        r == pair_of(b),
{
    let tens: u8 = (b % 100) / 10;
    let units: u8 = b % 10;
    let r: u8 = ((tens << 4u8) & 0xf0u8) | units;
    assert(((tens << 4u8) & 0xf0u8) | units == tens * 16 + units) by (bit_vector)
        requires
            tens < 10,
            units < 10,
    ;
    r
}

} // verus!
