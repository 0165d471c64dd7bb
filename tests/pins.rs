use smcb_pin::error::PinError;
use smcb_pin::pin::Pin;
use smcb_pin::pin_set::{
    calculate_pins, expand_serial_numbers, try_calculate_all_pins,
    try_calculate_all_pins_with_algorithm, try_get_pin_by_id, Algorithm, SerialNumber,
};
use smcb_pin::stream::Random;

fn sample_serial_numbers() -> [SerialNumber; 3] {
    [
        SerialNumber(*b"23421337"),
        SerialNumber(*b"meowmeow"),
        SerialNumber(*b"*squeak*"),
    ]
}

const GOLDEN: [[u8; 8]; 6] = [
    [0x2c, 0x79, 0x41, 0x58, 0x70, 0x25, 0x77, 0xff],
    [0x2c, 0x23, 0x86, 0x42, 0x11, 0x97, 0x82, 0xff],
    [0x2c, 0x05, 0x03, 0x46, 0x38, 0x60, 0x81, 0xff],
    [0x2c, 0x64, 0x52, 0x26, 0x16, 0x55, 0x00, 0xff],
    [0x2c, 0x24, 0x51, 0x83, 0x70, 0x65, 0x55, 0xff],
    [0x2c, 0x17, 0x97, 0x40, 0x82, 0x99, 0x35, 0xff],
];

fn pin_bytes(pins: &[Pin; 6]) -> Vec<[u8; 8]> {
    pins.iter().map(|p| p.0).collect()
}

fn buffer_from(bytes: &[u8], filler: u8) -> [u8; 128] {
    let mut buffer = [filler; 128];
    buffer[..bytes.len()].copy_from_slice(bytes);
    buffer
}

#[test]
fn golden_vector() {
    let pins = try_calculate_all_pins(&sample_serial_numbers()).unwrap();
    assert_eq!(pin_bytes(&pins), GOLDEN.to_vec());
}

#[test]
fn golden_vector_by_index() {
    for (i, expected) in GOLDEN.iter().enumerate() {
        let pin = try_get_pin_by_id(&sample_serial_numbers(), i).unwrap();
        assert_eq!(&pin.0, expected);
    }
}

#[test]
fn expansion_is_two_digests() {
    let buffer = expand_serial_numbers(&sample_serial_numbers());
    assert_eq!(&buffer[..8], &[79, 141, 223, 158, 170, 125, 77, 123]);
    assert_ne!(&buffer[..24], b"23421337meowmeow*squeak*");
    assert_ne!(&buffer[..64], &buffer[64..]);
}

#[test]
fn derivation_is_deterministic() {
    let first = try_calculate_all_pins(&sample_serial_numbers()).unwrap();
    let second = try_calculate_all_pins(&sample_serial_numbers()).unwrap();
    assert_eq!(pin_bytes(&first), pin_bytes(&second));
}

#[test]
fn other_serial_numbers_give_other_pins() {
    let ids = [
        SerialNumber(*b"23421337"),
        SerialNumber(*b"*squeak*"),
        SerialNumber(*b"meowmeow"),
    ];
    let pins = try_calculate_all_pins(&ids).unwrap();
    assert_ne!(pin_bytes(&pins), GOLDEN.to_vec());
}

#[test]
fn each_pair_comes_from_two_bytes() {
    let mut counts = [0u32; 256];
    for half in 0..2u16 {
        let mut buffer = [0u8; 128];
        for (i, b) in buffer.iter_mut().enumerate() {
            *b = (half * 128 + i as u16) as u8;
        }
        let mut prng = Random::new(buffer);
        while let Ok(pair) = prng.next() {
            counts[pair as usize] += 1;
        }
    }
    for tens in 0..10usize {
        for units in 0..10usize {
            assert_eq!(counts[tens * 16 + units], 2);
        }
    }
    assert_eq!(counts.iter().sum::<u32>(), 200);
}

#[test]
fn byte_maps_to_its_two_digits() {
    let mut prng = Random::new(buffer_from(&[0, 9, 42, 99, 100, 137, 199], 0xff));
    let pairs: Vec<u8> = (0..7).map(|_| prng.next().unwrap()).collect();
    assert_eq!(pairs, vec![0x00, 0x09, 0x42, 0x99, 0x00, 0x37, 0x99]);
    assert_eq!(prng.next(), Err(PinError::Exhausted));
}

#[test]
fn rejected_bytes_are_skipped() {
    let mut prng = Random::new(buffer_from(&[200, 255, 17, 230, 201, 58], 0xc8));
    assert_eq!(prng.next(), Ok(0x17));
    assert_eq!(prng.next(), Ok(0x58));
    assert_eq!(prng.next(), Err(PinError::Exhausted));
}

#[test]
fn exhaustion_is_sticky() {
    let mut prng = Random::new([0xffu8; 128]);
    assert_eq!(prng.next(), Err(PinError::Exhausted));
    assert_eq!(prng.next(), Err(PinError::Exhausted));
    let mut full = Random::new([7u8; 128]);
    for _ in 0..128 {
        assert_eq!(full.next(), Ok(0x07));
    }
    assert_eq!(full.next(), Err(PinError::Exhausted));
    assert_eq!(full.next(), Err(PinError::Exhausted));
}

#[test]
fn too_few_acceptable_bytes_fail_the_run() {
    let bytes: Vec<u8> = (0..35).collect();
    let mut prng = Random::new(buffer_from(&bytes, 0xfe));
    assert_eq!(calculate_pins(&mut prng).map(|p| pin_bytes(&p)), Err(PinError::Exhausted));
    assert_eq!(prng.next(), Err(PinError::Exhausted));
}

#[test]
fn exactly_enough_acceptable_bytes_succeed() {
    let bytes: Vec<u8> = (0..36).collect();
    let mut prng = Random::new(buffer_from(&bytes, 0xfe));
    let pins = calculate_pins(&mut prng).unwrap();
    assert_eq!(pins[5].0, [0x2c, 0x30, 0x31, 0x32, 0x33, 0x34, 0x35, 0xff]);
}

#[test]
fn pins_consume_pairs_in_order() {
    let mut bytes = Vec::new();
    for i in 0..36u8 {
        bytes.push(i + 100);
        bytes.push(250);
    }
    let mut prng = Random::new(buffer_from(&bytes, 0xff));
    let pins = calculate_pins(&mut prng).unwrap();
    let mut consumed = Vec::new();
    for pin in pins.iter() {
        consumed.extend_from_slice(&pin.0[1..7]);
    }
    let expected: Vec<u8> = (0..36u8).map(|i| ((i / 10) << 4) | (i % 10)).collect();
    assert_eq!(consumed, expected);
}

#[test]
fn derived_pins_have_the_record_layout() {
    let pins = try_calculate_all_pins(&sample_serial_numbers()).unwrap();
    for pin in pins.iter() {
        assert_eq!(pin.0[0], 0x2c);
        assert_eq!(pin.0[7], 0xff);
        for pair in &pin.0[1..7] {
            assert!(pair >> 4 <= 9 && pair & 0x0f <= 9);
        }
    }
}

#[test]
fn new_frames_the_pairs() {
    let pin = Pin::new(&[0x01, 0x23, 0x45, 0x67, 0x89, 0x90]);
    assert_eq!(pin.0, [0x2c, 0x01, 0x23, 0x45, 0x67, 0x89, 0x90, 0xff]);
}

#[test]
fn default_pin_digits() {
    assert_eq!(Pin::default().0, [0x2c, 0x12, 0x34, 0x56, 0x78, 0x91, 0x23, 0xff]);
}

#[test]
fn default_algorithm_ignores_serial_numbers() {
    let other = [SerialNumber([0u8; 8]), SerialNumber([1u8; 8]), SerialNumber([2u8; 8])];
    for ids in [sample_serial_numbers(), other] {
        let pins = try_calculate_all_pins_with_algorithm(&ids, Algorithm::DefaultPin).unwrap();
        for pin in pins.iter() {
            assert_eq!(pin.0, Pin::default().0);
        }
    }
}

#[test]
fn double_hash_algorithm_matches_golden_vector() {
    let pins =
        try_calculate_all_pins_with_algorithm(&sample_serial_numbers(), Algorithm::DoubleSha512)
            .unwrap();
    assert_eq!(pin_bytes(&pins), GOLDEN.to_vec());
}

#[test]
fn index_out_of_range() {
    for index in [6usize, 7, 100, usize::MAX] {
        assert_eq!(
            try_get_pin_by_id(&sample_serial_numbers(), index).map(|p| p.0),
            Err(PinError::IndexOutOfRange)
        );
    }
}

#[test]
fn algorithm_selectors() {
    assert_eq!(Algorithm::from_selector(0), Ok(Algorithm::DefaultPin));
    assert_eq!(Algorithm::from_selector(3), Ok(Algorithm::DoubleSha512));
    assert_eq!(Algorithm::from_selector(1), Err(PinError::UnsupportedAlgorithm));
    assert_eq!(Algorithm::from_selector(255), Err(PinError::UnsupportedAlgorithm));
}
