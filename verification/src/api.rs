//! Public compression and decompression entry points.
//!
//! The DEFLATE bitstream encoder and decoder are external collaborators,
//! reached through trusted wrappers around `miniz_oxide`; everything
//! around them is verified: compression-level validation, zlib and gzip
//! container framing built over the verified Adler-32 and CRC-32
//! checksums, header parsing and trailer verification, and the
//! decompression resource governor that rejects oversized requests before
//! any buffer is allocated.

use vstd::prelude::*;

verus! {

use crate::adler32::{adler32, adler32_spec};
use crate::crc32::{crc32, crc32_spec};

// ------------------------------------------------------------------
// Errors
// ------------------------------------------------------------------

/// Classification of library errors.
#[derive(Clone, Copy, Debug, PartialEq, Eq, Structural)]
pub enum ErrorKind {
    /// The request itself is unacceptable (bad level, oversized request).
    InvalidInput,
    /// The input bytes are not a valid stream for the requested format.
    InvalidData,
    /// An environmental failure such as an undersized output buffer.
    Other,
}

/// Failure cases of the public entry points.
#[derive(Clone, Copy, Debug, PartialEq, Eq, Structural)]
pub enum Error {
    /// A compression level outside the accepted range was requested.
    InvalidLevel,
    /// A caller-provided output buffer is too small for the result.
    InsufficientSpace,
    /// Framing could not be compressed into the caller's buffer.
    CompressionFailed,
    /// The expected output size exceeds the ratio-derived safety limit.
    RatioLimitExceeded,
    /// The expected output size exceeds the configured absolute cap.
    MemoryLimitExceeded,
    /// The input is not a valid stream, or its checksum does not match.
    CorruptData,
}

impl Error {
    pub open spec fn kind_spec(self) -> ErrorKind {
        match self {
            Error::InvalidLevel => ErrorKind::InvalidInput,
            Error::InsufficientSpace => ErrorKind::Other,
            Error::CompressionFailed => ErrorKind::Other,
            Error::RatioLimitExceeded => ErrorKind::InvalidInput,
            Error::MemoryLimitExceeded => ErrorKind::InvalidInput,
            Error::CorruptData => ErrorKind::InvalidData,
        }
    }

    pub fn kind(&self) -> (k: ErrorKind)
        ensures
            k == self.kind_spec(),
    {
        match self {
            Error::InvalidLevel => ErrorKind::InvalidInput,
            Error::InsufficientSpace => ErrorKind::Other,
            Error::CompressionFailed => ErrorKind::Other,
            Error::RatioLimitExceeded => ErrorKind::InvalidInput,
            Error::MemoryLimitExceeded => ErrorKind::InvalidInput,
            Error::CorruptData => ErrorKind::InvalidData,
        }
    }

    pub open spec fn message_spec(self) -> Seq<char> {
        match self {
            Error::InvalidLevel => "Compression level must be between 0 and 12"@,
            Error::InsufficientSpace => "Insufficient space"@,
            Error::CompressionFailed => "Compression failed"@,
            Error::RatioLimitExceeded => "Expected output size exceeds the decompression safety limit"@,
            Error::MemoryLimitExceeded => "Expected output size exceeds the maximum memory limit"@,
            Error::CorruptData => "Decompression failed"@,
        }
    }

    /// A human-readable description of the error.
    pub fn message(&self) -> (m: &'static str)
        ensures
            m@ == self.message_spec(),
    {
        match self {
            Error::InvalidLevel => "Compression level must be between 0 and 12",
            Error::InsufficientSpace => "Insufficient space",
            Error::CompressionFailed => "Compression failed",
            Error::RatioLimitExceeded => "Expected output size exceeds the decompression safety limit",
            Error::MemoryLimitExceeded => "Expected output size exceeds the maximum memory limit",
            Error::CorruptData => "Decompression failed",
        }
    }
}

// ------------------------------------------------------------------
// The external DEFLATE engine
// ------------------------------------------------------------------

/// The raw DEFLATE encoding of `data` at engine level `level`: what the
/// external encoder returns.  The encoder is deterministic, so this is a
/// function of its two arguments.
pub uninterp spec fn deflate_of(data: Seq<u8>, level: u8) -> Seq<u8>;

/// The result of decoding the raw DEFLATE stream at the front of `data`
/// with the output capped at `limit` bytes: `Some` decoded bytes, or
/// `None` when the stream is invalid, truncated, or produces more than
/// `limit` bytes.  The decoder is deterministic, so this is a function of
/// its two arguments.
pub uninterp spec fn inflate_of(data: Seq<u8>, limit: nat) -> Option<Seq<u8>>;

/// Relies on miniz_oxide::deflate::compress_to_vec: encodes `data` as a
/// raw DEFLATE stream at level `level` (the engine accepts 0 through 10),
/// a pure, deterministic function of its arguments.
#[verifier::external_body]
fn deflate_compress(data: &[u8], level: u8) -> (r: Vec<u8>)
    requires
        level <= 10,
    ensures
        r@ == deflate_of(data@, level),
{
    miniz_oxide::deflate::compress_to_vec(data, level)
}

/// Relies on miniz_oxide::inflate::decompress_to_vec_with_limit: decodes
/// the raw DEFLATE stream at the front of `data`, growing the output to
/// at most `limit` bytes and ignoring any input bytes after the final
/// block, a pure, deterministic function of its arguments; it fails when
/// the stream is invalid, truncated, or exceeds the limit.
#[verifier::external_body]
fn deflate_decompress(data: &[u8], limit: usize) -> (r: Option<Vec<u8>>)
    ensures
        match r {
            Some(v) => inflate_of(data@, limit as nat) == Some(v@) && v@.len() <= limit,
            None => inflate_of(data@, limit as nat) is None,
        },
{
    miniz_oxide::inflate::decompress_to_vec_with_limit(data, limit).ok()
}

// ------------------------------------------------------------------
// Container framing
// ------------------------------------------------------------------

/// Big-endian bytes of a 32-bit value.
pub open spec fn be32(x: u32) -> Seq<u8> {
    seq![(x >> 24) as u8, ((x >> 16) & 0xFF) as u8, ((x >> 8) & 0xFF) as u8, (x & 0xFF) as u8]
}

/// Little-endian bytes of a 32-bit value.
pub open spec fn le32(x: u32) -> Seq<u8> {
    seq![(x & 0xFF) as u8, ((x >> 8) & 0xFF) as u8, ((x >> 16) & 0xFF) as u8, (x >> 24) as u8]
}

/// The fixed zlib header this library writes: CM 8 (DEFLATE), 32 KiB
/// window, default-level flags, valid check bits.
pub open spec fn zlib_header() -> Seq<u8> {
    seq![0x78u8, 0x9Cu8]
}

/// The fixed gzip header this library writes: magic, CM 8, no flags, no
/// timestamp, unknown operating system.
pub open spec fn gzip_header() -> Seq<u8> {
    seq![0x1Fu8, 0x8Bu8, 8u8, 0u8, 0u8, 0u8, 0u8, 0u8, 0u8, 255u8]
}

/// The stored length field of a gzip trailer: the uncompressed length
/// modulo 2^32.
pub open spec fn gzip_isize(n: nat) -> u32 {
    (n % 0x1_0000_0000) as u32
}

/// Big-endian 32-bit value stored at offset `i` of `d`.
pub open spec fn be32_at(d: Seq<u8>, i: int) -> int {
    d[i] * 0x1000000 + d[i + 1] * 0x10000 + d[i + 2] * 0x100 + d[i + 3]
}

/// Little-endian 32-bit value stored at offset `i` of `d`.
pub open spec fn le32_at(d: Seq<u8>, i: int) -> int {
    d[i] + d[i + 1] * 0x100 + d[i + 2] * 0x10000 + d[i + 3] * 0x1000000
}

proof fn lemma_be_pack(b0: u32, b1: u32, b2: u32, b3: u32)
    by (bit_vector)
    requires
        b0 < 0x100,
        b1 < 0x100,
        b2 < 0x100,
        b3 < 0x100,
    ensures
        ((b0 << 24) | (b1 << 16) | (b2 << 8) | b3) as int
            == b0 * 0x1000000 + b1 * 0x10000 + b2 * 0x100 + b3,
{
}

proof fn lemma_isize_mask(n: usize)
    by (bit_vector)
    ensures
        (n & 0xFFFF_FFFF) as u32 == (n as nat % 0x1_0000_0000) as u32,
        (n & 0xFFFF_FFFF) <= 0xFFFF_FFFF,
{
}

/// Reads the big-endian 32-bit value at offset `i`.
fn read_be32(data: &[u8], i: usize) -> (r: u32)
    requires
        i + 4 <= data@.len(),
    ensures
        r as int == be32_at(data@, i as int),
{
    let b0 = data[i] as u32;
    let b1 = data[i + 1] as u32;
    let b2 = data[i + 2] as u32;
    let b3 = data[i + 3] as u32;
    proof {
        lemma_be_pack(b0, b1, b2, b3);
    }
    (b0 << 24) | (b1 << 16) | (b2 << 8) | b3
}

/// Reads the little-endian 32-bit value at offset `i`.
fn read_le32(data: &[u8], i: usize) -> (r: u32)
    requires
        i + 4 <= data@.len(),
    ensures
        r as int == le32_at(data@, i as int),
{
    let b0 = data[i] as u32;
    let b1 = data[i + 1] as u32;
    let b2 = data[i + 2] as u32;
    let b3 = data[i + 3] as u32;
    proof {
        lemma_be_pack(b3, b2, b1, b0);
    }
    (b3 << 24) | (b2 << 16) | (b1 << 8) | b0
}

/// Pushes the big-endian bytes of `x`.
fn push_be32(out: &mut Vec<u8>, x: u32)
    ensures
        final(out)@ == old(out)@ + be32(x),
{
    out.push((x >> 24) as u8);
    out.push(((x >> 16) & 0xFF) as u8);
    out.push(((x >> 8) & 0xFF) as u8);
    out.push((x & 0xFF) as u8);
    proof {
        assert(out@ =~= old(out)@ + be32(x));
    }
}

/// Pushes the little-endian bytes of `x`.
fn push_le32(out: &mut Vec<u8>, x: u32)
    ensures
        final(out)@ == old(out)@ + le32(x),
{
    out.push((x & 0xFF) as u8);
    out.push(((x >> 8) & 0xFF) as u8);
    out.push(((x >> 16) & 0xFF) as u8);
    out.push((x >> 24) as u8);
    proof {
        assert(out@ =~= old(out)@ + le32(x));
    }
}

/// Copies `v` over the front of `output`, leaving the rest unchanged.
fn copy_prefix(output: &mut [u8], v: &Vec<u8>)
    requires
        v@.len() <= old(output)@.len(),
    ensures
        final(output)@ == v@ + old(output)@.skip(v@.len() as int),
{
    let n = v.len();
    let mut j: usize = 0;
    while j < n
        invariant
            j <= n,
            n == v@.len(),
            n <= output@.len(),
            output@.len() == old(output)@.len(),
            forall|q: int| 0 <= q < j ==> output@[q] == v@[q],
            forall|q: int| j <= q < output@.len() ==> output@[q] == old(output)@[q],
        decreases n - j,
    {
        output[j] = v[j];
        j = j + 1;
    }
    proof {
        assert(output@ =~= v@ + old(output)@.skip(v@.len() as int));
    }
}

// ------------------------------------------------------------------
// Compressor
// ------------------------------------------------------------------

/// The engine level a requested level maps to: the engine accepts 0
/// through 10, so higher accepted levels are clamped.
pub open spec fn engine_level(level: int) -> u8
    recommends
        0 <= level <= 12,
{
    if level > 10 {
        10u8
    } else {
        level as u8
    }
}

/// Compresses byte buffers as raw DEFLATE, zlib or gzip streams.
#[derive(Debug)]
pub struct Compressor {
    level: u8,
}

impl Compressor {
    /// Well-formed compressors hold an engine-acceptable level.
    pub closed spec fn wf(self) -> bool {
        self.level <= 10
    }

    /// The engine compression level this compressor uses.
    pub closed spec fn spec_level(self) -> u8 {
        self.level
    }

    /// Accepts levels 0 through 12 and rejects everything else.
    pub fn new(level: i32) -> (r: Result<Compressor, Error>)
        ensures
            0 <= level <= 12 ==> (r matches Ok(c) && c.wf()
                && c.spec_level() == engine_level(level as int)),
            !(0 <= level <= 12) ==> (r matches Err(e) && e == Error::InvalidLevel),
    {
        if level < 0 || level > 12 {
            return Err(Error::InvalidLevel);
        }
        let lv: u8 = if level > 10 {
            10
        } else {
            level as u8
        };
        Ok(Compressor { level: lv })
    }

    /// Compresses `data` as a raw DEFLATE stream.  Never fails.
    pub fn compress_deflate(&mut self, data: &[u8]) -> (r: Result<Vec<u8>, Error>)
        requires
            old(self).wf(),
        ensures
            *final(self) == *old(self),
            r matches Ok(v) && v@ == deflate_of(data@, old(self).spec_level()),
    {
        Ok(deflate_compress(data, self.level))
    }

    /// Compresses `data` as a raw DEFLATE stream into `output`, returning
    /// the number of bytes written; fails without touching `output` when
    /// it is too small.
    pub fn compress_deflate_into(&mut self, data: &[u8], output: &mut [u8]) -> (r: Result<
        usize,
        Error,
    >)
        requires
            old(self).wf(),
        ensures
            *final(self) == *old(self),
            ({
                let enc = deflate_of(data@, old(self).spec_level());
                match r {
                    Ok(n) => enc.len() <= old(output)@.len() && n == enc.len()
                        && final(output)@ == enc + old(output)@.skip(n as int),
                    Err(e) => e == Error::InsufficientSpace && enc.len() > old(output)@.len()
                        && final(output)@ == old(output)@,
                }
            }),
    {
        let v = deflate_compress(data, self.level);
        if v.len() > output.len() {
            return Err(Error::InsufficientSpace);
        }
        copy_prefix(output, &v);
        Ok(v.len())
    }

    /// The zlib stream for `data` at engine level `level`: header, raw
    /// DEFLATE body, big-endian Adler-32 trailer over the uncompressed
    /// bytes.
    pub open spec fn zlib_stream(data: Seq<u8>, level: u8) -> Seq<u8> {
        zlib_header() + deflate_of(data, level) + be32(adler32_spec(1, data))
    }

    /// Compresses `data` as a zlib stream.  Never fails.
    pub fn compress_zlib(&mut self, data: &[u8]) -> (r: Result<Vec<u8>, Error>)
        requires
            old(self).wf(),
        ensures
            *final(self) == *old(self),
            r matches Ok(v) && v@ == Self::zlib_stream(data@, old(self).spec_level()),
    {
        let mut body = deflate_compress(data, self.level);
        let checksum = adler32(1, data);
        let mut out: Vec<u8> = Vec::new();
        out.push(0x78);
        out.push(0x9C);
        out.append(&mut body);
        push_be32(&mut out, checksum);
        proof {
            assert(out@ =~= Self::zlib_stream(data@, old(self).spec_level()));
        }
        Ok(out)
    }

    /// Compresses `data` as a zlib stream into `output`, returning the
    /// number of bytes written; fails without touching `output` when it
    /// is too small.
    pub fn compress_zlib_into(&mut self, data: &[u8], output: &mut [u8]) -> (r: Result<
        usize,
        Error,
    >)
        requires
            old(self).wf(),
        ensures
            *final(self) == *old(self),
            ({
                let enc = Self::zlib_stream(data@, old(self).spec_level());
                match r {
                    Ok(n) => enc.len() <= old(output)@.len() && n == enc.len()
                        && final(output)@ == enc + old(output)@.skip(n as int),
                    Err(e) => e == Error::CompressionFailed && enc.len() > old(output)@.len()
                        && final(output)@ == old(output)@,
                }
            }),
    {
        let v = match self.compress_zlib(data) {
            Ok(v) => v,
            Err(_) => {
                return Err(Error::CompressionFailed);
            },
        };
        if v.len() > output.len() {
            return Err(Error::CompressionFailed);
        }
        copy_prefix(output, &v);
        Ok(v.len())
    }

    /// The gzip member for `data` at engine level `level`: header, raw
    /// DEFLATE body, little-endian CRC-32 trailer over the uncompressed
    /// bytes, and the uncompressed length modulo 2^32.
    pub open spec fn gzip_stream(data: Seq<u8>, level: u8) -> Seq<u8> {
        gzip_header() + deflate_of(data, level) + le32(crc32_spec(0, data))
            + le32(gzip_isize(data.len()))
    }

    /// Compresses `data` as a gzip member.  Never fails.
    pub fn compress_gzip(&mut self, data: &[u8]) -> (r: Result<Vec<u8>, Error>)
        requires
            old(self).wf(),
        ensures
            *final(self) == *old(self),
            r matches Ok(v) && v@ == Self::gzip_stream(data@, old(self).spec_level()),
    {
        let mut body = deflate_compress(data, self.level);
        let checksum = crc32(0, data);
        let isize_field: u32 = (data.len() & 0xFFFF_FFFF) as u32;
        proof {
            lemma_isize_mask(data@.len() as usize);
        }
        let mut out: Vec<u8> = Vec::new();
        out.push(0x1F);
        out.push(0x8B);
        out.push(8);
        out.push(0);
        out.push(0);
        out.push(0);
        out.push(0);
        out.push(0);
        out.push(0);
        out.push(255);
        out.append(&mut body);
        push_le32(&mut out, checksum);
        push_le32(&mut out, isize_field);
        proof {
            assert(out@ =~= Self::gzip_stream(data@, old(self).spec_level()));
        }
        Ok(out)
    }

    /// Compresses `data` as a gzip member into `output`, returning the
    /// number of bytes written; fails without touching `output` when it
    /// is too small.
    pub fn compress_gzip_into(&mut self, data: &[u8], output: &mut [u8]) -> (r: Result<
        usize,
        Error,
    >)
        requires
            old(self).wf(),
        ensures
            *final(self) == *old(self),
            ({
                let enc = Self::gzip_stream(data@, old(self).spec_level());
                match r {
                    Ok(n) => enc.len() <= old(output)@.len() && n == enc.len()
                        && final(output)@ == enc + old(output)@.skip(n as int),
                    Err(e) => e == Error::CompressionFailed && enc.len() > old(output)@.len()
                        && final(output)@ == old(output)@,
                }
            }),
    {
        let v = match self.compress_gzip(data) {
            Ok(v) => v,
            Err(_) => {
                return Err(Error::CompressionFailed);
            },
        };
        if v.len() > output.len() {
            return Err(Error::CompressionFailed);
        }
        copy_prefix(output, &v);
        Ok(v.len())
    }

    /// Worst-case raw DEFLATE output size for `size` input bytes: a
    /// conservative expansion allowance, saturated at `usize::MAX`.
    pub open spec fn deflate_bound_spec(size: nat) -> int {
        let b = size + size / 40 + 512;
        if b > usize::MAX {
            usize::MAX as int
        } else {
            b as int
        }
    }

    /// Worst-case raw DEFLATE output size for `size` input bytes.
    pub fn deflate_compress_bound(&mut self, size: usize) -> (r: usize)
        ensures
            r as int == Self::deflate_bound_spec(size as nat),
    {
        let b: u128 = (size as u128) + (size as u128) / 40 + 512;
        if b > usize::MAX as u128 {
            usize::MAX
        } else {
            b as usize
        }
    }

    /// Worst-case zlib output size: the DEFLATE bound plus two header and
    /// four trailer bytes.
    pub fn zlib_compress_bound(&mut self, size: usize) -> (r: usize)
        ensures
            r as int == (if Self::deflate_bound_spec(size as nat) + 6 > usize::MAX {
                usize::MAX as int
            } else {
                Self::deflate_bound_spec(size as nat) + 6
            }),
    {
        let b: u128 = (size as u128) + (size as u128) / 40 + 512 + 6;
        if b > usize::MAX as u128 {
            usize::MAX
        } else {
            b as usize
        }
    }

    /// Worst-case gzip output size: the DEFLATE bound plus ten header and
    /// eight trailer bytes.
    pub fn gzip_compress_bound(&mut self, size: usize) -> (r: usize)
        ensures
            r as int == (if Self::deflate_bound_spec(size as nat) + 18 > usize::MAX {
                usize::MAX as int
            } else {
                Self::deflate_bound_spec(size as nat) + 18
            }),
    {
        let b: u128 = (size as u128) + (size as u128) / 40 + 512 + 18;
        if b > usize::MAX as u128 {
            usize::MAX
        } else {
            b as usize
        }
    }
}

// ------------------------------------------------------------------
// Container parsing
// ------------------------------------------------------------------

/// A structurally valid zlib header: DEFLATE method, check bits that make
/// the first two bytes a multiple of 31, and no preset dictionary.
pub open spec fn zlib_header_ok(d: Seq<u8>) -> bool {
    d.len() >= 6 && d[0] & 0x0F == 8 && (d[0] * 0x100 + d[1]) % 31 == 0 && d[1] & 0x20 == 0
}

/// The position of the first zero byte of `d` at or after `i`.
pub open spec fn find_nul(d: Seq<u8>, i: int) -> Option<int>
    decreases d.len() - i,
    when 0 <= i <= d.len()
{
    if i >= d.len() {
        None
    } else if d[i] == 0 {
        Some(i)
    } else {
        find_nul(d, i + 1)
    }
}

/// Where the raw DEFLATE body of a gzip member starts, after the fixed
/// 10-byte header and the optional extra, name, comment and header-CRC
/// fields that its flag byte announces; `None` when the member ends
/// inside one of those fields.
pub open spec fn gzip_data_start(d: Seq<u8>) -> Option<int>
    recommends
        d.len() >= 10,
{
    let flg = d[3];
    let p1 = if flg & 4 != 0 {
        if d.len() >= 12 {
            let xlen = d[10] + 0x100 * d[11];
            if 12 + xlen <= d.len() {
                Some(12 + xlen)
            } else {
                None
            }
        } else {
            None
        }
    } else {
        Some(10int)
    };
    match p1 {
        None => None,
        Some(q1) => {
            let p2 = if flg & 8 != 0 {
                match find_nul(d, q1) {
                    Some(z) => Some(z + 1),
                    None => None,
                }
            } else {
                Some(q1)
            };
            match p2 {
                None => None,
                Some(q2) => {
                    let p3 = if flg & 16 != 0 {
                        match find_nul(d, q2) {
                            Some(z) => Some(z + 1),
                            None => None,
                        }
                    } else {
                        Some(q2)
                    };
                    match p3 {
                        None => None,
                        Some(q3) => if flg & 2 != 0 {
                            if q3 + 2 <= d.len() {
                                Some(q3 + 2)
                            } else {
                                None
                            }
                        } else {
                            Some(q3)
                        },
                    }
                },
            }
        },
    }
}

/// A structurally valid gzip member frame: magic bytes, DEFLATE method,
/// no reserved flags, room for the trailer, and all announced optional
/// header fields present.
pub open spec fn gzip_frame_ok(d: Seq<u8>) -> bool {
    d.len() >= 18 && d[0] == 0x1F && d[1] == 0x8B && d[2] == 8 && d[3] & 0xE0 == 0
        && (gzip_data_start(d) matches Some(s) && s + 8 <= d.len())
}

/// Scans for the first zero byte at or after `from`.
fn scan_nul(data: &[u8], from: usize) -> (r: Option<usize>)
    requires
        from <= data@.len(),
    ensures
        match r {
            Some(z) => find_nul(data@, from as int) == Some(z as int) && from <= z
                < data@.len(),
            None => find_nul(data@, from as int) is None,
        },
{
    let n = data.len();
    let mut j = from;
    while j < n
        invariant
            from <= j <= n,
            n == data@.len(),
            find_nul(data@, from as int) == find_nul(data@, j as int),
        decreases n - j,
    {
        if data[j] == 0 {
            return Some(j);
        }
        j = j + 1;
    }
    None
}

/// Finds where the DEFLATE body of a gzip member starts, mirroring
/// `gzip_data_start`.
fn gzip_data_start_exec(data: &[u8]) -> (r: Option<usize>)
    requires
        data@.len() >= 10,
    ensures
        match r {
            Some(s) => gzip_data_start(data@) == Some(s as int) && 10 <= s <= data@.len(),
            None => gzip_data_start(data@) is None,
        },
{
    let n = data.len();
    let flg = data[3];
    let q1: usize = if flg & 4 != 0 {
        if n >= 12 {
            let xlen = (data[10] as usize) + 0x100 * (data[11] as usize);
            if xlen <= n - 12 {
                12 + xlen
            } else {
                return None;
            }
        } else {
            return None;
        }
    } else {
        10
    };
    let q2: usize = if flg & 8 != 0 {
        match scan_nul(data, q1) {
            Some(z) => z + 1,
            None => {
                return None;
            },
        }
    } else {
        q1
    };
    let q3: usize = if flg & 16 != 0 {
        match scan_nul(data, q2) {
            Some(z) => z + 1,
            None => {
                return None;
            },
        }
    } else {
        q2
    };
    if flg & 2 != 0 {
        if q3 <= n - 2 && n >= 2 {
            Some(q3 + 2)
        } else {
            None
        }
    } else {
        Some(q3)
    }
}

// ------------------------------------------------------------------
// Decompressor
// ------------------------------------------------------------------

/// Decompresses raw DEFLATE, zlib and gzip streams under a resource
/// governor: a request is rejected before any buffer is allocated when
/// the expected output size exceeds either the configured absolute memory
/// cap or a limit proportional to the input length.
#[derive(Debug)]
pub struct Decompressor {
    max_memory_limit: usize,
    limit_ratio: usize,
}

impl Decompressor {
    /// The absolute cap on the expected output size.
    pub closed spec fn mem_limit(self) -> usize {
        self.max_memory_limit
    }

    /// The permitted expansion ratio over the input length.
    pub closed spec fn ratio(self) -> usize {
        self.limit_ratio
    }

    /// The ratio-derived output ceiling for `input_len` input bytes:
    /// `input_len * ratio` plus a fixed allowance for small inputs.
    pub open spec fn ratio_cap(self, input_len: nat) -> int {
        input_len * self.ratio() + 4096
    }

    /// Whether an expected output size passes both governor gates.
    pub open spec fn within_limits(self, input_len: nat, expected: nat) -> bool {
        expected <= self.mem_limit() && expected <= self.ratio_cap(input_len)
    }

    /// A fresh decompressor: no absolute cap, expansion ratio 2000.
    pub fn new() -> (d: Decompressor)
        ensures
            d.mem_limit() == usize::MAX,
            d.ratio() == 2000,
    {
        Decompressor { max_memory_limit: usize::MAX, limit_ratio: 2000 }
    }

    /// Sets the absolute cap on the expected output size.
    pub fn set_max_memory_limit(&mut self, limit: usize)
        ensures
            final(self).mem_limit() == limit,
            final(self).ratio() == old(self).ratio(),
    {
        self.max_memory_limit = limit;
    }

    /// Sets the permitted expansion ratio.
    pub fn set_limit_ratio(&mut self, ratio: usize)
        ensures
            final(self).ratio() == ratio,
            final(self).mem_limit() == old(self).mem_limit(),
    {
        self.limit_ratio = ratio;
    }

    /// The governor: rejects an expected output size that exceeds the
    /// absolute memory cap, then one that exceeds the ratio-derived
    /// safety limit, before any buffer is allocated.
    fn check_limits(&self, input_len: usize, expected: usize) -> (r: Result<(), Error>)
        ensures
            match r {
                Ok(u) => self.within_limits(input_len as nat, expected as nat),
                Err(e) => (e == Error::MemoryLimitExceeded && expected > self.mem_limit()) || (e
                    == Error::RatioLimitExceeded && expected <= self.mem_limit() && expected
                    > self.ratio_cap(input_len as nat)),
            },
    {
        if expected > self.max_memory_limit {
            return Err(Error::MemoryLimitExceeded);
        }
        proof {
            assert((input_len as u128) * (self.limit_ratio as u128) + 4096
                <= 0xFFFF_FFFF_FFFF_FFFF_FFFF_FFFF_FFFF_FFFF) by (nonlinear_arith)
                requires
                    input_len as u128 <= 0xFFFF_FFFF_FFFF_FFFF,
                    self.limit_ratio as u128 <= 0xFFFF_FFFF_FFFF_FFFF,
            ;
        }
        let cap: u128 = (input_len as u128) * (self.limit_ratio as u128) + 4096;
        if (expected as u128) > cap {
            return Err(Error::RatioLimitExceeded);
        }
        Ok(())
    }

    /// Decompresses a raw DEFLATE stream, allowing the output to grow to
    /// at most `expected_size` bytes once the governor has accepted the
    /// request.
    pub fn decompress_deflate(&mut self, data: &[u8], expected_size: usize) -> (r: Result<
        Vec<u8>,
        Error,
    >)
        ensures
            *final(self) == *old(self),
            match r {
                Ok(v) => old(self).within_limits(data@.len(), expected_size as nat)
                    && inflate_of(data@, expected_size as nat) == Some(v@),
                Err(e) => (e == Error::MemoryLimitExceeded && expected_size > old(self).mem_limit())
                    || (e == Error::RatioLimitExceeded && expected_size <= old(self).mem_limit()
                    && expected_size > old(self).ratio_cap(data@.len()))
                    || (e == Error::CorruptData && old(self).within_limits(
                    data@.len(),
                    expected_size as nat,
                ) && inflate_of(data@, expected_size as nat) is None),
            },
    {
        match self.check_limits(data.len(), expected_size) {
            Ok(_) => {},
            Err(e) => {
                return Err(e);
            },
        }
        match deflate_decompress(data, expected_size) {
            Some(v) => Ok(v),
            None => Err(Error::CorruptData),
        }
    }

    /// Decompresses a raw DEFLATE stream into `output`, returning the
    /// number of bytes written; the output may not outgrow `output`.
    pub fn decompress_deflate_into(&mut self, data: &[u8], output: &mut [u8]) -> (r: Result<
        usize,
        Error,
    >)
        ensures
            *final(self) == *old(self),
            match r {
                Ok(n) => inflate_of(data@, old(output)@.len()) matches Some(s) && n == s.len()
                    && final(output)@ == s + old(output)@.skip(n as int),
                Err(e) => e == Error::CorruptData && inflate_of(data@, old(output)@.len()) is None
                    && final(output)@ == old(output)@,
            },
    {
        match deflate_decompress(data, output.len()) {
            Some(v) => {
                copy_prefix(output, &v);
                Ok(v.len())
            },
            None => Err(Error::CorruptData),
        }
    }

    /// What a successful zlib decompression of `d` into at most `limit`
    /// bytes returns: the header must parse, the body must inflate, and
    /// the big-endian Adler-32 trailer must match the output.
    pub open spec fn zlib_payload(d: Seq<u8>, limit: nat) -> Option<Seq<u8>> {
        if zlib_header_ok(d) {
            match inflate_of(d.subrange(2, d.len() as int), limit) {
                Some(v) => if adler32_spec(1, v) == be32_at(d, d.len() - 4) {
                    Some(v)
                } else {
                    None
                },
                None => None,
            }
        } else {
            None
        }
    }

    /// Decompresses a zlib stream once the governor has accepted the
    /// request, and verifies the Adler-32 trailer over the output.
    pub fn decompress_zlib(&mut self, data: &[u8], expected_size: usize) -> (r: Result<
        Vec<u8>,
        Error,
    >)
        ensures
            *final(self) == *old(self),
            match r {
                Ok(v) => old(self).within_limits(data@.len(), expected_size as nat)
                    && Self::zlib_payload(data@, expected_size as nat) == Some(v@),
                Err(e) => (e == Error::MemoryLimitExceeded && expected_size > old(self).mem_limit())
                    || (e == Error::RatioLimitExceeded && expected_size <= old(self).mem_limit()
                    && expected_size > old(self).ratio_cap(data@.len()))
                    || (e == Error::CorruptData && old(self).within_limits(
                    data@.len(),
                    expected_size as nat,
                ) && Self::zlib_payload(data@, expected_size as nat) is None),
            },
    {
        match self.check_limits(data.len(), expected_size) {
            Ok(_) => {},
            Err(e) => {
                return Err(e);
            },
        }
        let n = data.len();
        if n < 6 {
            return Err(Error::CorruptData);
        }
        let cmf = data[0];
        let flg = data[1];
        if cmf & 0x0F != 8 {
            return Err(Error::CorruptData);
        }
        if ((cmf as u32) * 0x100 + (flg as u32)) % 31 != 0 {
            return Err(Error::CorruptData);
        }
        if flg & 0x20 != 0 {
            return Err(Error::CorruptData);
        }
        let body = vstd::slice::slice_subrange(data, 2, n);
        let v = match deflate_decompress(body, expected_size) {
            Some(v) => v,
            None => {
                return Err(Error::CorruptData);
            },
        };
        let stored = read_be32(data, n - 4);
        let computed = adler32(1, v.as_slice());
        if computed != stored {
            return Err(Error::CorruptData);
        }
        Ok(v)
    }

    /// Decompresses a zlib stream into `output`, returning the number of
    /// bytes written; the output may not outgrow `output`.
    pub fn decompress_zlib_into(&mut self, data: &[u8], output: &mut [u8]) -> (r: Result<
        usize,
        Error,
    >)
        ensures
            *final(self) == *old(self),
            match r {
                Ok(n) => Self::zlib_payload(data@, old(output)@.len()) matches Some(s) && n
                    == s.len() && final(output)@ == s + old(output)@.skip(n as int),
                Err(e) => e == Error::CorruptData && Self::zlib_payload(
                    data@,
                    old(output)@.len(),
                ) is None && final(output)@ == old(output)@,
            },
    {
        let n = data.len();
        if n < 6 {
            return Err(Error::CorruptData);
        }
        let cmf = data[0];
        let flg = data[1];
        if cmf & 0x0F != 8 {
            return Err(Error::CorruptData);
        }
        if ((cmf as u32) * 0x100 + (flg as u32)) % 31 != 0 {
            return Err(Error::CorruptData);
        }
        if flg & 0x20 != 0 {
            return Err(Error::CorruptData);
        }
        let body = vstd::slice::slice_subrange(data, 2, n);
        let v = match deflate_decompress(body, output.len()) {
            Some(v) => v,
            None => {
                return Err(Error::CorruptData);
            },
        };
        let stored = read_be32(data, n - 4);
        let computed = adler32(1, v.as_slice());
        if computed != stored {
            return Err(Error::CorruptData);
        }
        copy_prefix(output, &v);
        Ok(v.len())
    }

    /// What a successful gzip decompression of `d` into at most `limit`
    /// bytes returns: the frame must parse, the body must inflate, and
    /// the little-endian CRC-32 and length trailer must match the output.
    pub open spec fn gzip_payload(d: Seq<u8>, limit: nat) -> Option<Seq<u8>> {
        if gzip_frame_ok(d) {
            let start = gzip_data_start(d)->Some_0;
            match inflate_of(d.subrange(start, d.len() as int), limit) {
                Some(v) => if crc32_spec(0, v) == le32_at(d, d.len() - 8) && gzip_isize(v.len())
                    == le32_at(d, d.len() - 4) {
                    Some(v)
                } else {
                    None
                },
                None => None,
            }
        } else {
            None
        }
    }

    /// Decompresses a gzip member once the governor has accepted the
    /// request, and verifies the CRC-32 and length trailer over the
    /// output.
    pub fn decompress_gzip(&mut self, data: &[u8], expected_size: usize) -> (r: Result<
        Vec<u8>,
        Error,
    >)
        ensures
            *final(self) == *old(self),
            match r {
                Ok(v) => old(self).within_limits(data@.len(), expected_size as nat)
                    && Self::gzip_payload(data@, expected_size as nat) == Some(v@),
                Err(e) => (e == Error::MemoryLimitExceeded && expected_size > old(self).mem_limit())
                    || (e == Error::RatioLimitExceeded && expected_size <= old(self).mem_limit()
                    && expected_size > old(self).ratio_cap(data@.len()))
                    || (e == Error::CorruptData && old(self).within_limits(
                    data@.len(),
                    expected_size as nat,
                ) && Self::gzip_payload(data@, expected_size as nat) is None),
            },
    {
        match self.check_limits(data.len(), expected_size) {
            Ok(_) => {},
            Err(e) => {
                return Err(e);
            },
        }
        match self.gzip_decode(data, expected_size) {
            Some(v) => Ok(v),
            None => Err(Error::CorruptData),
        }
    }

    /// Decompresses a gzip member into `output`, returning the number of
    /// bytes written; the output may not outgrow `output`.
    pub fn decompress_gzip_into(&mut self, data: &[u8], output: &mut [u8]) -> (r: Result<
        usize,
        Error,
    >)
        ensures
            *final(self) == *old(self),
            match r {
                Ok(n) => Self::gzip_payload(data@, old(output)@.len()) matches Some(s) && n
                    == s.len() && final(output)@ == s + old(output)@.skip(n as int),
                Err(e) => e == Error::CorruptData && Self::gzip_payload(
                    data@,
                    old(output)@.len(),
                ) is None && final(output)@ == old(output)@,
            },
    {
        match self.gzip_decode(data, output.len()) {
            Some(v) => {
                copy_prefix(output, &v);
                Ok(v.len())
            },
            None => Err(Error::CorruptData),
        }
    }

    /// Shared gzip frame walk: parse the header, inflate the body with
    /// the given output cap, verify the trailer.
    fn gzip_decode(&self, data: &[u8], limit: usize) -> (r: Option<Vec<u8>>)
        ensures
            match r {
                Some(v) => Self::gzip_payload(data@, limit as nat) == Some(v@) && v@.len()
                    <= limit,
                None => Self::gzip_payload(data@, limit as nat) is None,
            },
    {
        let n = data.len();
        if n < 18 {
            return None;
        }
        if data[0] != 0x1F || data[1] != 0x8B || data[2] != 8 {
            return None;
        }
        if data[3] & 0xE0 != 0 {
            return None;
        }
        let start = match gzip_data_start_exec(data) {
            Some(s) => s,
            None => {
                return None;
            },
        };
        if start > n - 8 {
            return None;
        }
        let body = vstd::slice::slice_subrange(data, start, n);
        let v = match deflate_decompress(body, limit) {
            Some(v) => v,
            None => {
                return None;
            },
        };
        let stored_crc = read_le32(data, n - 8);
        let stored_len = read_le32(data, n - 4);
        let computed = crc32(0, v.as_slice());
        let len_field: u32 = (v.len() & 0xFFFF_FFFF) as u32;
        proof {
            lemma_isize_mask(v@.len() as usize);
        }
        if computed != stored_crc || len_field != stored_len {
            return None;
        }
        Some(v)
    }
}

} // verus!
