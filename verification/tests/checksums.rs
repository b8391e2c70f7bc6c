use libdeflate::adler32::{adler32, adler32_generic};
use libdeflate::crc32::{crc32, crc32_slice1, crc32_slice8};
use libdeflate::dispatch::{has_feature, Dispatcher, Feature, Implementation};

/// Canonical Adler-32 definition: one byte at a time, reduced every step.
fn adler32_naive(state: u32, data: &[u8]) -> u32 {
    let mut s1 = (state & 0xFFFF) % 65521;
    let mut s2 = (state >> 16) % 65521;
    for &b in data {
        s1 = (s1 + b as u32) % 65521;
        s2 = (s2 + s1) % 65521;
    }
    (s2 << 16) | s1
}

fn sample(len: usize) -> Vec<u8> {
    let mut v = Vec::with_capacity(len);
    let mut x: u32 = 0x12345678;
    for _ in 0..len {
        x = x.wrapping_mul(1664525).wrapping_add(1013904223);
        v.push((x >> 24) as u8);
    }
    v
}

#[test]
fn adler32_implementations_agree() {
    // Lengths around every group and chunk boundary, states across the
    // reachable range.
    let lengths = [
        0usize, 1, 2, 3, 4, 5, 7, 8, 15, 16, 17, 63, 64, 65, 100, 1000, 5551, 5552, 5553, 11104,
        11105, 16656,
    ];
    let states = [1u32, 0, 0xFFFF, 0x0001_0002, 0xDEAD_BEEF, u32::MAX];
    for &len in lengths.iter() {
        let data = sample(len);
        for &s in states.iter() {
            let expected = adler32_naive(s, &data);
            assert_eq!(adler32_generic(s, &data), expected);
            assert_eq!(adler32(s, &data), expected);
        }
    }
}

#[test]
fn adler32_chunk_boundaries_match_canonical() {
    // Exactly the chunk bound, one past it, and several multiples beyond.
    for &len in [5552usize, 5553, 11104, 16656, 17000].iter() {
        let data = vec![b'A'; len];
        assert_eq!(adler32_generic(1, &data), adler32_naive(1, &data));
    }
}

#[test]
fn adler32_known_vectors() {
    assert_eq!(adler32(1, b""), 1);
    assert_eq!(adler32(1, &vec![b'A'; 5552]), 2735505916);
    assert_eq!(adler32(1, &vec![b'A'; 5553]), 626557501);
    assert_eq!(adler32(1, &vec![b'A'; 6000]), 4027970492);
}

#[test]
fn adler32_split_folding() {
    let data = sample(10000);
    for &k in [0usize, 1, 15, 16, 4095, 5552, 9999, 10000].iter() {
        let whole = adler32(1, &data);
        let split = adler32(adler32(1, &data[..k]), &data[k..]);
        assert_eq!(split, whole);
    }
}

#[test]
fn crc32_known_vectors() {
    assert_eq!(crc32(0, b""), 0);
    // The well-known IEEE CRC-32 of the ASCII digits "123456789".
    assert_eq!(crc32(0, b"123456789"), 0xCBF4_3926);
    // An input long enough to use every slice-by-8 tier.
    let zeros = vec![0u8; 256];
    assert_eq!(crc32(0, &zeros), 0x0D96_8558);
}

#[test]
fn crc32_implementations_agree() {
    let lengths = [
        0usize, 1, 2, 3, 4, 5, 6, 7, 8, 9, 15, 16, 31, 63, 64, 65, 127, 128, 200, 1000,
    ];
    let states = [0u32, 1, 0xFFFF_FFFF, 0x1234_5678];
    for &len in lengths.iter() {
        let data = sample(len);
        for &s in states.iter() {
            let reference = crc32_slice1(s, &data);
            assert_eq!(crc32_slice8(s, &data), reference);
        }
    }
}

#[test]
fn crc32_tail_lengths() {
    // Trailing remainders of exactly 0 through 7 bytes after the bulk
    // tiers each take a distinct code path.
    for tail in 0usize..8 {
        for &bulk in [0usize, 8, 64, 128].iter() {
            let data = sample(bulk + tail);
            assert_eq!(crc32_slice8(0xABCD_1234, &data), crc32_slice1(0xABCD_1234, &data));
        }
    }
}

#[test]
fn crc32_split_folding() {
    let data = sample(300);
    for &k in [0usize, 1, 7, 8, 64, 100, 299, 300].iter() {
        let whole = crc32(0, &data);
        let split = crc32(crc32(0, &data[..k]), &data[k..]);
        assert_eq!(split, whole);
    }
}

#[test]
fn dispatch_is_idempotent() {
    // The probe reports absence of every accelerated capability.
    assert!(!has_feature(Feature::VectorMac));
    assert!(!has_feature(Feature::CarrylessMul));
    assert!(!has_feature(Feature::WideCarrylessMul));
    assert!(!has_feature(Feature::CrcInstruction));

    // A dispatcher resolves once and never changes its selection.
    let mut d = Dispatcher::new();
    let first = d.resolve();
    let second = d.resolve();
    assert_eq!(first, second);
    assert_eq!(first, Implementation::Reference);

    // Repeated invocations of the checksum functions agree.
    let data = sample(1000);
    assert_eq!(crc32(0, &data), crc32(0, &data));
    assert_eq!(adler32(1, &data), adler32(1, &data));
}
