use vstd::prelude::*;

use crate::error::PinError;
use crate::stream::{digits_of, is_digit_pair, lemma_digits_are_pairs, Random};

verus! {

/// Marks the first byte of a record as a control byte.
pub const PIN_CONTROL: u8 = 0x20;

/// Number of decimal digits in a PIN.
pub const PIN_LENGTH: u8 = 12;

/// The byte that closes a record.
pub const PIN_STOP: u8 = 0xff;

/// Number of packed digit pairs in a PIN.
pub const DIGIT_PAIRS: usize = 6;

/// Size of a record in bytes: header, digit pairs, stop byte.
pub const PIN_SIZE: usize = 8;

/// The first byte of every record: the control flag with the digit count.
pub open spec fn header_byte() -> u8 {
    0x2c
}

/// The record that frames a sequence of packed digit pairs.
pub open spec fn pin_layout(pairs: Seq<u8>) -> Seq<u8> {
    seq![header_byte()] + pairs + seq![PIN_STOP]
}

/// The digits of the default PIN, 1 2 3 4 5 6 7 8 9 1 2 3, packed in pairs.
pub open spec fn default_pairs() -> Seq<u8> {
    seq![0x12u8, 0x34u8, 0x56u8, 0x78u8, 0x91u8, 0x23u8]
}

/// A record of the layout that every derived PIN has: the header byte, six
/// pairs of decimal digits, the stop byte.
pub open spec fn is_pin_record(r: Seq<u8>) -> bool {
    &&& r.len() == PIN_SIZE
    &&& r[0] == header_byte()
    &&& r[PIN_SIZE - 1] == PIN_STOP
    &&& forall|i: int| 1 <= i <= DIGIT_PAIRS ==> is_digit_pair(#[trigger] r[i])
}

/// A PIN record: header byte, packed digit pairs, stop byte.
#[derive(Clone, Copy, Debug)]
pub struct Pin(pub [u8; PIN_SIZE]);

impl View for Pin {
    type V = Seq<u8>;

    open spec fn view(&self) -> Seq<u8> {
        self.0@
    }
}

impl Pin {
    /// The record that frames the given digit pairs.
    pub fn new(digit_pairs: &[u8; DIGIT_PAIRS]) -> (pin: Pin)
        ensures
            pin@ == pin_layout(digit_pairs@),
    {
        assert(PIN_CONTROL | PIN_LENGTH == 0x2cu8) by (bit_vector);
        let pin = Pin(
            [
                PIN_CONTROL | PIN_LENGTH,
                digit_pairs[0],
                digit_pairs[1],
                digit_pairs[2],
                digit_pairs[3],
                digit_pairs[4],
                digit_pairs[5],
                PIN_STOP,
            ],
        );
        assert(pin@ =~= pin_layout(digit_pairs@));
        pin
    }

    /// The default PIN, whose digits are 1 2 3 4 5 6 7 8 9 1 2 3.
    pub fn default() -> (pin: Pin)
        ensures
            pin@ == pin_layout(default_pairs()),
    {
        let pairs: [u8; DIGIT_PAIRS] = [0x12, 0x34, 0x56, 0x78, 0x91, 0x23];
        assert(pairs@ =~= default_pairs());
        Pin::new(&pairs)
    }

    /// The PIN framed around the next six digit pairs of the source. Fails
    /// with `Exhausted`, and leaves the source used up, where fewer remain.
    pub fn from_prng(prng: &mut Random) -> (r: Result<Pin, PinError>)
        ensures
            r.is_ok() <==> old(prng).digits().len() >= DIGIT_PAIRS,
            r.is_ok() ==> r->Ok_0@ == pin_layout(old(prng).digits().take(DIGIT_PAIRS as int))
                && final(prng).digits() == old(prng).digits().skip(DIGIT_PAIRS as int),
            r.is_err() ==> r->Err_0 == PinError::Exhausted && final(prng).digits().len() == 0,
    {
        let mut pairs: [u8; DIGIT_PAIRS] = [0u8; DIGIT_PAIRS];
        let mut i: usize = 0;
        while i < DIGIT_PAIRS
            invariant
                i <= DIGIT_PAIRS,
                old(prng).digits().len() >= i,
                prng.digits() == old(prng).digits().skip(i as int),
                pairs@.take(i as int) == old(prng).digits().take(i as int),
            decreases DIGIT_PAIRS - i,
        {
            let ghost before = prng.digits();
            match prng.next() {
                Ok(p) => {
                    pairs[i] = p;
                    assert(prng.digits() =~= old(prng).digits().skip(i + 1));
                    assert(pairs@.take(i + 1) =~= old(prng).digits().take(i + 1));
                },
                Err(e) => {
                    return Err(e);
                },
            }
            i = i + 1;
        }
        assert(pairs@ =~= pairs@.take(DIGIT_PAIRS as int));
        Ok(Pin::new(&pairs))
    }
}

/// A record framed around pairs that a buffer yielded has the layout of a PIN.
pub proof fn lemma_pin_layout(buffer: Seq<u8>, start: int)
    requires
        0 <= start,
        start + DIGIT_PAIRS <= digits_of(buffer).len(),
    ensures
        is_pin_record(pin_layout(digits_of(buffer).subrange(start, start + DIGIT_PAIRS))),
{
    lemma_digits_are_pairs(buffer);
    let d = digits_of(buffer);
    let r = pin_layout(d.subrange(start, start + DIGIT_PAIRS));
    assert forall|i: int| 1 <= i <= DIGIT_PAIRS implies is_digit_pair(#[trigger] r[i]) by {
        assert(r[i] == d[start + i - 1]);
    }
}

} // verus!
