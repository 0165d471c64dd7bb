use vstd::prelude::*;

use crate::error::PinError;
use crate::hashing::{sha512, sha512_of, DIGEST_SIZE};
use crate::pin::{
    default_pairs, is_pin_record, lemma_pin_layout, pin_layout, Pin, DIGIT_PAIRS,
};
use crate::stream::{accepted_count, digits_of, lemma_digits_len, Random, BUFFER_SIZE};

verus! {

/// Number of card readers, each with one serial number.
pub const NUMBER_OF_CARD_READERS: usize = 3;

/// Number of PINs derived in one run.
pub const NUMBER_OF_PINS: usize = 6;

/// Length of a serial number in bytes.
pub const SERIAL_NUMBER_LENGTH: usize = 8;

/// The serial number of one card reader.
#[derive(Clone, Copy, Debug)]
pub struct SerialNumber(pub [u8; SERIAL_NUMBER_LENGTH]);

/// How the PINs are obtained.
#[derive(Clone, Copy, Debug, PartialEq, Eq, Structural)]
pub enum Algorithm {
    /// Every PIN is the default PIN.
    DefaultPin,
    /// The PINs come from the doubled SHA-512 expansion of the serial numbers.
    DoubleSha512,
}

impl Algorithm {
    /// The algorithm of a numeric selector: 0 for the default PIN, 3 for the
    /// doubled SHA-512 expansion; any other value is unsupported.
    pub fn from_selector(selector: u8) -> (r: Result<Algorithm, PinError>)
        ensures
            selector == 0 ==> r == Ok::<Algorithm, PinError>(Algorithm::DefaultPin),
            selector == 3 ==> r == Ok::<Algorithm, PinError>(Algorithm::DoubleSha512),
            selector != 0 && selector != 3 ==> r == Err::<Algorithm, PinError>(
                PinError::UnsupportedAlgorithm,
            ),
    {
        if selector == 0 {
            Ok(Algorithm::DefaultPin)
        } else if selector == 3 {
            Ok(Algorithm::DoubleSha512)
        } else {
            Err(PinError::UnsupportedAlgorithm)
        }
    }
}

/// The serial numbers concatenated in order, with no separators.
pub open spec fn serial_bytes(ids: Seq<SerialNumber>) -> Seq<u8>
    decreases ids.len(),
{
    if ids.len() == 0 {
        Seq::<u8>::empty()
    } else {
        serial_bytes(ids.drop_last()) + ids.last().0@
    }
}

/// The pseudo-random buffer of some data: its digest, then the digest of that.
pub open spec fn expansion_of(data: Seq<u8>) -> Seq<u8> {
    sha512_of(data) + sha512_of(sha512_of(data))
}

/// The buffer that a set of serial numbers expands to.
pub open spec fn buffer_of(ids: Seq<SerialNumber>) -> Seq<u8> {
    expansion_of(serial_bytes(ids))
}

/// The digit pairs that a set of serial numbers yields, in order.
pub open spec fn derived_digits(ids: Seq<SerialNumber>) -> Seq<u8> {
    digits_of(buffer_of(ids))
}

/// The PIN set framed around a stream of digit pairs: PIN `i` takes the pairs
/// `6 * i .. 6 * i + 6`. Fails with `Exhausted` where the stream is too short
/// for all of them.
pub open spec fn pin_set_of(digits: Seq<u8>) -> Result<Seq<Seq<u8>>, PinError> {
    if digits.len() >= NUMBER_OF_PINS * DIGIT_PAIRS {
        Ok(
            Seq::new(
                NUMBER_OF_PINS as nat,
                |i: int| pin_layout(digits.subrange(i * DIGIT_PAIRS, i * DIGIT_PAIRS + DIGIT_PAIRS)),
            ),
        )
    } else {
        Err(PinError::Exhausted)
    }
}

/// The PIN set that a set of serial numbers derives.
pub open spec fn derived_pin_set(ids: Seq<SerialNumber>) -> Result<Seq<Seq<u8>>, PinError> {
    pin_set_of(derived_digits(ids))
}

/// The records of a PIN set as byte sequences.
pub open spec fn pins_view(pins: [Pin; NUMBER_OF_PINS]) -> Seq<Seq<u8>> {
    pins@.map_values(|p: Pin| p@)
}

/// The result of a run with the records as byte sequences.
pub open spec fn pins_result_view(r: Result<[Pin; NUMBER_OF_PINS], PinError>) -> Result<
    Seq<Seq<u8>>,
    PinError,
> {
    match r {
        Ok(pins) => Ok(pins_view(pins)),
        Err(e) => Err(e),
    }
}

/// Expand the serial numbers into the pseudo-random buffer: the SHA-512
/// digest of their concatenation, followed by the digest of that digest.
pub fn expand_serial_numbers(serial_numbers: &[SerialNumber; NUMBER_OF_CARD_READERS]) -> (r: [u8;
    BUFFER_SIZE])
    ensures
        r@ == buffer_of(serial_numbers@),
{
    let mut data: Vec<u8> = Vec::new();
    let mut k: usize = 0;
    while k < NUMBER_OF_CARD_READERS
        invariant
            k <= NUMBER_OF_CARD_READERS,
            data@ == serial_bytes(serial_numbers@.take(k as int)),
        decreases NUMBER_OF_CARD_READERS - k,
    {
        let id = &serial_numbers[k];
        let mut j: usize = 0;
        while j < SERIAL_NUMBER_LENGTH
            invariant
                j <= SERIAL_NUMBER_LENGTH,
                k < NUMBER_OF_CARD_READERS,
                *id == serial_numbers@[k as int],
                data@ == serial_bytes(serial_numbers@.take(k as int)) + id.0@.take(j as int),
            decreases SERIAL_NUMBER_LENGTH - j,
        {
            data.push(id.0[j]);
            assert(data@ =~= serial_bytes(serial_numbers@.take(k as int)) + id.0@.take(j + 1));
            j = j + 1;
        }
        assert(serial_numbers@.take(k + 1).drop_last() =~= serial_numbers@.take(k as int));
        assert(id.0@.take(SERIAL_NUMBER_LENGTH as int) =~= id.0@);
        k = k + 1;
    }
    assert(serial_numbers@.take(NUMBER_OF_CARD_READERS as int) =~= serial_numbers@);
    let first = sha512(data.as_slice());
    let second = sha512(first.as_slice());
    let mut buffer: [u8; BUFFER_SIZE] = [0u8; BUFFER_SIZE];
    let mut i: usize = 0;
    while i < DIGEST_SIZE
        invariant
            i <= DIGEST_SIZE,
            first@ == sha512_of(data@),
            second@ == sha512_of(first@),
            forall|j: int|
                0 <= j < i ==> buffer@[j] == first@[j] && buffer@[j + DIGEST_SIZE] == second@[j],
        decreases DIGEST_SIZE - i,
    {
        buffer[i] = first[i];
        buffer[i + DIGEST_SIZE] = second[i];
        i = i + 1;
    }
    assert(buffer@ =~= first@ + second@);
    buffer
}

/// The pseudo-random source over the expansion of the serial numbers.
pub fn derive_prng(serial_numbers: &[SerialNumber; NUMBER_OF_CARD_READERS]) -> (r: Random)
    ensures
        r.digits() == derived_digits(serial_numbers@),
{
    Random::new(expand_serial_numbers(serial_numbers))
}

/// Derive all PINs from the serial numbers of the card readers with the
/// doubled SHA-512 expansion. Either all PINs are derived or the run fails
/// with `Exhausted`.
pub fn try_calculate_all_pins(serial_numbers: &[SerialNumber; NUMBER_OF_CARD_READERS]) -> (r:
    Result<[Pin; NUMBER_OF_PINS], PinError>)
    ensures
        pins_result_view(r) == derived_pin_set(serial_numbers@),
{
    let mut prng = derive_prng(serial_numbers);
    calculate_pins(&mut prng)
}

/// Draw all PINs, one after the other, from one shared source. Either all
/// PINs are drawn, and the source has moved past their pairs, or the run
/// fails with `Exhausted` and leaves the source used up.
pub fn calculate_pins(prng: &mut Random) -> (r: Result<[Pin; NUMBER_OF_PINS], PinError>)
    ensures
        pins_result_view(r) == pin_set_of(old(prng).digits()),
        r.is_ok() ==> final(prng).digits() == old(prng).digits().skip(
            (NUMBER_OF_PINS * DIGIT_PAIRS) as int,
        ),
        r.is_err() ==> final(prng).digits().len() == 0,
{
    let ghost digits = prng.digits();
    let mut pins: [Pin; NUMBER_OF_PINS] = [Pin::default();NUMBER_OF_PINS];
    let mut i: usize = 0;
    while i < NUMBER_OF_PINS
        invariant
            i <= NUMBER_OF_PINS,
            digits == old(prng).digits(),
            digits.len() >= i * DIGIT_PAIRS,
            prng.digits() == digits.skip(i * DIGIT_PAIRS),
            forall|j: int|
                0 <= j < i ==> (#[trigger] pins@[j])@ == pin_layout(
                    digits.subrange(j * DIGIT_PAIRS, j * DIGIT_PAIRS + DIGIT_PAIRS),
                ),
        decreases NUMBER_OF_PINS - i,
    {
        match Pin::from_prng(prng) {
            Ok(pin) => {
                let ghost start = i * DIGIT_PAIRS;
                assert(digits.skip(start).take(DIGIT_PAIRS as int) =~= digits.subrange(
                    start,
                    start + DIGIT_PAIRS,
                ));
                assert(digits.skip(start).skip(DIGIT_PAIRS as int) =~= digits.skip(
                    start + DIGIT_PAIRS,
                ));
                pins[i] = pin;
            },
            Err(e) => {
                assert(digits.len() < NUMBER_OF_PINS * DIGIT_PAIRS);
                return Err(e);
            },
        }
        i = i + 1;
    }
    assert(pins_view(pins) =~= pin_set_of(digits)->Ok_0);
    Ok(pins)
}

/// Derive all PINs with the chosen algorithm. The default-PIN algorithm never
/// fails and gives the default PIN six times, whatever the serial numbers.
pub fn try_calculate_all_pins_with_algorithm(
    serial_numbers: &[SerialNumber; NUMBER_OF_CARD_READERS],
    algorithm: Algorithm,
) -> (r: Result<[Pin; NUMBER_OF_PINS], PinError>)
    ensures
        algorithm == Algorithm::DefaultPin ==> r.is_ok() && forall|i: int|
            0 <= i < NUMBER_OF_PINS ==> (#[trigger] r->Ok_0@[i])@ == pin_layout(default_pairs()),
        algorithm == Algorithm::DoubleSha512 ==> pins_result_view(r) == derived_pin_set(
            serial_numbers@,
        ),
{
    match algorithm {
        Algorithm::DefaultPin => Ok([Pin::default();NUMBER_OF_PINS]),
        Algorithm::DoubleSha512 => try_calculate_all_pins(serial_numbers),
    }
}

/// The PIN of one smart card. An index at or beyond the number of PINs fails
/// with `IndexOutOfRange` before any derivation; otherwise the result is the
/// PIN of that index in the derived set, or the failure of the derivation.
pub fn try_get_pin_by_id(
    serial_numbers: &[SerialNumber; NUMBER_OF_CARD_READERS],
    pin_index: usize,
) -> (r: Result<Pin, PinError>)
    ensures
        pin_index >= NUMBER_OF_PINS ==> r == Err::<Pin, PinError>(PinError::IndexOutOfRange),
        pin_index < NUMBER_OF_PINS ==> match derived_pin_set(serial_numbers@) {
            Ok(set) => r.is_ok() && r->Ok_0@ == set[pin_index as int],
            Err(e) => r == Err::<Pin, PinError>(e),
        },
{
    if pin_index >= NUMBER_OF_PINS {
        return Err(PinError::IndexOutOfRange);
    }
    match try_calculate_all_pins(serial_numbers) {
        Ok(pins) => {
            assert(pins_view(pins)[pin_index as int] == pins[pin_index as int]@);
            Ok(pins[pin_index])
        },
        Err(e) => Err(e),
    }
}

/// Derivation is deterministic: serial numbers with the same bytes give the
/// same PIN set, or the same failure.
pub proof fn lemma_derivation_deterministic(a: Seq<SerialNumber>, b: Seq<SerialNumber>)
    requires
        serial_bytes(a) == serial_bytes(b),
    ensures
        derived_pin_set(a) == derived_pin_set(b),
{
}

/// Where the buffer holds fewer acceptable bytes than the PINs need, the run
/// fails with `Exhausted` and yields no PIN at all.
pub proof fn lemma_exhaustion(ids: Seq<SerialNumber>)
    requires
        accepted_count(buffer_of(ids)) < NUMBER_OF_PINS * DIGIT_PAIRS,
    ensures
        derived_pin_set(ids) == Err::<Seq<Seq<u8>>, PinError>(PinError::Exhausted),
{
    lemma_digits_len(buffer_of(ids));
}

/// Every derived PIN has the record layout: header byte, six pairs of decimal
/// digits, stop byte.
pub proof fn lemma_derived_layout(ids: Seq<SerialNumber>)
    ensures
        derived_pin_set(ids) is Ok ==> derived_pin_set(ids)->Ok_0.len() == NUMBER_OF_PINS
            && forall|i: int|
            0 <= i < NUMBER_OF_PINS ==> is_pin_record(#[trigger] derived_pin_set(ids)->Ok_0[i]),
{
    if derived_pin_set(ids) is Ok {
        let set = derived_pin_set(ids)->Ok_0;
        assert forall|i: int| 0 <= i < NUMBER_OF_PINS implies is_pin_record(#[trigger] set[i]) by {
            lemma_pin_layout(buffer_of(ids), i * DIGIT_PAIRS);
        }
    }
}

/// The PINs of a run consume the pairs of the stream in order, each exactly
/// once: byte `k` of PIN `i`, for `k` in `1..=6`, is pair `6 * i + k - 1` of
/// the stream, and the
/// set uses the first thirty-six pairs without gap or repeat.
pub proof fn lemma_pairs_consumed_in_order(ids: Seq<SerialNumber>)
    ensures
        derived_pin_set(ids) is Ok ==> forall|i: int, k: int|
            0 <= i < NUMBER_OF_PINS && 1 <= k <= DIGIT_PAIRS ==> #[trigger] derived_pin_set(
                ids,
            )->Ok_0[i][k] == derived_digits(ids)[i * DIGIT_PAIRS + k - 1],
        derived_pin_set(ids) is Ok ==> derived_digits(ids).len() >= NUMBER_OF_PINS * DIGIT_PAIRS,
        derived_pin_set(ids) is Ok ==> forall|n: int|
            0 <= n < NUMBER_OF_PINS * DIGIT_PAIRS ==> derived_pin_set(ids)->Ok_0[n / 6 as int][1
                + n % 6] == #[trigger] derived_digits(ids)[n],
{
    if derived_pin_set(ids) is Ok {
        let set = derived_pin_set(ids)->Ok_0;
        let d = derived_digits(ids);
        assert forall|i: int, k: int|
            0 <= i < NUMBER_OF_PINS && 1 <= k <= DIGIT_PAIRS implies #[trigger] set[i][k] == d[i
                * DIGIT_PAIRS + k - 1] by {
            assert(set[i][k] == d.subrange(i * DIGIT_PAIRS, i * DIGIT_PAIRS + DIGIT_PAIRS)[k - 1]);
        }
        assert forall|n: int| 0 <= n < NUMBER_OF_PINS * DIGIT_PAIRS implies set[n / 6 as int][1
            + n % 6] == #[trigger] d[n] by {
            let i = n / 6;
            let k = n % 6;
            assert(0 <= i < NUMBER_OF_PINS && 0 <= k < DIGIT_PAIRS && i * 6 + k == n);
            assert(set[i][k + 1] == d[i * DIGIT_PAIRS + k]);
        }
    }
}

} // verus!
