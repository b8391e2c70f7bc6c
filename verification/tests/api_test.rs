use libdeflate::adler32::adler32;
use libdeflate::crc32::crc32;
use libdeflate::{Compressor, Decompressor, Error, ErrorKind};

fn sample(len: usize) -> Vec<u8> {
    let mut v = Vec::with_capacity(len);
    let mut x: u32 = 0x2468_ACE0;
    for i in 0..len {
        x = x.wrapping_mul(22695477).wrapping_add(1);
        // Mildly compressible mix of noise and runs.
        v.push(if i % 7 < 3 { 0x55 } else { (x >> 24) as u8 });
    }
    v
}

#[test]
fn compressor_level_validation() {
    assert!(Compressor::new(0).is_ok());
    assert!(Compressor::new(12).is_ok());
    let err = Compressor::new(13).unwrap_err();
    assert_eq!(err, Error::InvalidLevel);
    assert_eq!(err.kind(), ErrorKind::InvalidInput);
    assert!(err.message().contains("between 0 and 12"));
    assert_eq!(Compressor::new(-1).unwrap_err(), Error::InvalidLevel);
}

#[test]
fn deflate_round_trip() {
    let mut c = Compressor::new(6).unwrap();
    let mut d = Decompressor::new();
    for &len in [0usize, 1, 11, 1000, 70000].iter() {
        let original = sample(len);
        let compressed = c.compress_deflate(&original).unwrap();
        let restored = d.decompress_deflate(&compressed, original.len()).unwrap();
        assert_eq!(restored, original);
    }
}

#[test]
fn zlib_round_trip_and_framing() {
    let mut c = Compressor::new(6).unwrap();
    let mut d = Decompressor::new();
    let original = sample(4096);
    let stream = c.compress_zlib(&original).unwrap();

    // Header: CM 8, valid check bits.
    assert_eq!(stream[0], 0x78);
    assert_eq!((stream[0] as u32 * 256 + stream[1] as u32) % 31, 0);
    // Trailer: big-endian Adler-32 of the uncompressed bytes.
    let n = stream.len();
    let stored = u32::from_be_bytes([stream[n - 4], stream[n - 3], stream[n - 2], stream[n - 1]]);
    assert_eq!(stored, adler32(1, &original));

    let restored = d.decompress_zlib(&stream, original.len()).unwrap();
    assert_eq!(restored, original);
}

#[test]
fn gzip_round_trip_and_framing() {
    let mut c = Compressor::new(6).unwrap();
    let mut d = Decompressor::new();
    let original = sample(3000);
    let stream = c.compress_gzip(&original).unwrap();

    // Header: magic, CM 8, no flags.
    assert_eq!(&stream[..4], &[0x1F, 0x8B, 8, 0]);
    // Trailer: little-endian CRC-32, then the length modulo 2^32.
    let n = stream.len();
    let stored_crc =
        u32::from_le_bytes([stream[n - 8], stream[n - 7], stream[n - 6], stream[n - 5]]);
    let stored_len =
        u32::from_le_bytes([stream[n - 4], stream[n - 3], stream[n - 2], stream[n - 1]]);
    assert_eq!(stored_crc, crc32(0, &original));
    assert_eq!(stored_len, original.len() as u32);

    let restored = d.decompress_gzip(&stream, original.len()).unwrap();
    assert_eq!(restored, original);
}

#[test]
fn gzip_optional_header_fields() {
    let mut c = Compressor::new(6).unwrap();
    let mut d = Decompressor::new();
    let original = sample(500);
    let plain = c.compress_gzip(&original).unwrap();
    let body_and_trailer = &plain[10..];

    // Rebuild the member with FEXTRA, FNAME, FCOMMENT and FHCRC set.
    let mut fancy: Vec<u8> = vec![0x1F, 0x8B, 8, 0b0001_1110, 0, 0, 0, 0, 0, 255];
    fancy.extend_from_slice(&[3, 0]); // XLEN = 3
    fancy.extend_from_slice(&[1, 2, 3]); // extra field payload
    fancy.extend_from_slice(b"name\0");
    fancy.extend_from_slice(b"comment\0");
    fancy.extend_from_slice(&[0xAA, 0xBB]); // header CRC bytes (unchecked)
    fancy.extend_from_slice(body_and_trailer);

    let restored = d.decompress_gzip(&fancy, original.len()).unwrap();
    assert_eq!(restored, original);

    // A member that ends inside an announced name field is rejected.
    let mut truncated: Vec<u8> = vec![0x1F, 0x8B, 8, 0b0000_1000, 0, 0, 0, 0, 0, 255];
    truncated.extend_from_slice(b"unterminated name, no NUL, then too short");
    let err = d.decompress_gzip(&truncated, 100).unwrap_err();
    assert_eq!(err, Error::CorruptData);
}

#[test]
fn corrupt_streams_are_rejected() {
    let mut c = Compressor::new(6).unwrap();
    let mut d = Decompressor::new();
    let original = sample(2000);

    // Garbage raw DEFLATE input.
    let err = d.decompress_deflate(&[0u8; 10], 100).unwrap_err();
    assert_eq!(err, Error::CorruptData);
    assert_eq!(err.kind(), ErrorKind::InvalidData);
    assert!(err.message().contains("Decompression failed"));

    // A zlib stream with a damaged checksum trailer.
    let mut stream = c.compress_zlib(&original).unwrap();
    let n = stream.len();
    stream[n - 1] ^= 0xFF;
    assert_eq!(
        d.decompress_zlib(&stream, original.len()).unwrap_err(),
        Error::CorruptData
    );

    // A zlib stream with broken header check bits.
    let mut stream = c.compress_zlib(&original).unwrap();
    stream[1] ^= 0x01;
    assert_eq!(
        d.decompress_zlib(&stream, original.len()).unwrap_err(),
        Error::CorruptData
    );

    // A gzip member with a damaged length trailer.
    let mut stream = c.compress_gzip(&original).unwrap();
    let n = stream.len();
    stream[n - 1] ^= 0xFF;
    assert_eq!(
        d.decompress_gzip(&stream, original.len()).unwrap_err(),
        Error::CorruptData
    );

    // An output cap smaller than the real output fails cleanly.
    let compressed = c.compress_deflate(&original).unwrap();
    assert_eq!(
        d.decompress_deflate(&compressed, original.len() - 1).unwrap_err(),
        Error::CorruptData
    );
}

#[test]
fn into_variants() {
    let mut c = Compressor::new(6).unwrap();
    let mut d = Decompressor::new();
    let original = sample(5000);

    let mut buf = vec![0u8; 20000];
    let n = c.compress_deflate_into(&original, &mut buf).unwrap();
    let mut out = vec![0u8; original.len()];
    let m = d.decompress_deflate_into(&buf[..n], &mut out).unwrap();
    assert_eq!(m, original.len());
    assert_eq!(out, original);

    let n = c.compress_zlib_into(&original, &mut buf).unwrap();
    let m = d.decompress_zlib_into(&buf[..n], &mut out).unwrap();
    assert_eq!(m, original.len());
    assert_eq!(out, original);

    let n = c.compress_gzip_into(&original, &mut buf).unwrap();
    let m = d.decompress_gzip_into(&buf[..n], &mut out).unwrap();
    assert_eq!(m, original.len());
    assert_eq!(out, original);

    // Undersized output buffers fail without being written.
    let mut tiny = [7u8; 4];
    let err = c.compress_deflate_into(&original, &mut tiny).unwrap_err();
    assert_eq!(err, Error::InsufficientSpace);
    assert_eq!(err.kind(), ErrorKind::Other);
    assert!(err.message().contains("Insufficient space"));
    assert_eq!(tiny, [7u8; 4]);

    let err = c.compress_zlib_into(&original, &mut tiny).unwrap_err();
    assert_eq!(err, Error::CompressionFailed);
    assert_eq!(err.kind(), ErrorKind::Other);

    let err = c.compress_gzip_into(&original, &mut tiny).unwrap_err();
    assert_eq!(err, Error::CompressionFailed);
}

#[test]
fn compress_bounds() {
    let mut c = Compressor::new(6).unwrap();
    // size + size / 40 + 512, then the zlib and gzip framing allowances.
    assert_eq!(c.deflate_compress_bound(0), 512);
    assert_eq!(c.deflate_compress_bound(1000), 1000 + 25 + 512);
    assert_eq!(c.zlib_compress_bound(1000), 1000 + 25 + 512 + 6);
    assert_eq!(c.gzip_compress_bound(1000), 1000 + 25 + 512 + 18);
    assert_eq!(c.deflate_compress_bound(usize::MAX), usize::MAX);
}
