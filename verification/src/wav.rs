//! RIFF/WAVE parsing and PCM decoding.
//!
//! The parser walks the chunk list of a WAV file and collects the
//! format, sampler metadata and the location of the raw PCM data.  The
//! decoders turn stored PCM of each supported bit depth into Q24
//! fixed-point amplitudes (`1 << 24` is full scale).

use vstd::prelude::*;
use crate::bytes::ByteSource;
use crate::fixed::floor_div;
use vstd::arithmetic::power2::pow2;

verus! {

/// A loop region within a sample, in frame indices; `end` is exclusive.
#[derive(Clone, Copy, Debug)]
pub struct LoopPoint {
    pub start: u32,
    pub end: u32,
}

/// Why a WAV file was rejected.
#[derive(Clone, Copy, Debug, PartialEq, Eq, Structural)]
pub enum WavError {
    /// The file does not begin with a `RIFF....WAVE` header.
    NotRiff,
    /// A recognized chunk or the PCM data reaches past the end of the file.
    Truncated,
    /// The bit depth or channel count is not supported.
    UnsupportedFormat,
}

/// Everything the chunk walk collects about a WAV file.
#[derive(Clone, Copy, Debug)]
pub struct WavMeta {
    pub audio_format: u16,
    pub channels: u16,
    pub sample_rate: u32,
    pub bits_per_sample: u16,
    pub root_note: Option<u32>,
    pub fine_tune_mc: Option<i64>,
    pub loop_point: Option<LoopPoint>,
    pub data_start: usize,
    pub data_size: u32,
}

/// A little-endian 16-bit word at `off`.
pub open spec fn spec_le16(b: Seq<u8>, off: int) -> int {
    b[off] + 0x100 * b[off + 1]
}

/// A little-endian 32-bit word at `off`.
pub open spec fn spec_le32(b: Seq<u8>, off: int) -> int {
    b[off] + 0x100 * b[off + 1] + 0x1_0000 * b[off + 2] + 0x100_0000 * b[off + 3]
}

/// Read a little-endian u16.
pub fn read_le16(src: &ByteSource, off: usize) -> (r: u16)
    requires
        off + 2 <= src@.len(),
        src@.len() <= usize::MAX,
    ensures
        r == spec_le16(src@, off as int),
{
    let b0 = src.byte_at(off);
    let b1 = src.byte_at(off + 1);
    (b0 as u16) + 0x100 * (b1 as u16)
}

/// Read a little-endian u32.
pub fn read_le32(src: &ByteSource, off: usize) -> (r: u32)
    requires
        off + 4 <= src@.len(),
        src@.len() <= usize::MAX,
    ensures
        r == spec_le32(src@, off as int),
{
    let b0 = src.byte_at(off);
    let b1 = src.byte_at(off + 1);
    let b2 = src.byte_at(off + 2);
    let b3 = src.byte_at(off + 3);
    (b0 as u32) + 0x100 * (b1 as u32) + 0x1_0000 * (b2 as u32) + 0x100_0000 * (b3 as u32)
}

/// Decode an 8-bit unsigned sample to Q24: `(v - 128) / 128` full scale.
pub open spec fn spec_dec8(b0: u8) -> int {
    (b0 - 128) * 0x2_0000
}

/// Sign-extend a 16-bit little-endian pair.
pub open spec fn spec_sign16(v: int) -> int {
    if v < 0x8000 {
        v
    } else {
        v - 0x1_0000
    }
}

/// Decode a 16-bit signed sample to Q24: `v / 32768` full scale.
pub open spec fn spec_dec16(b0: u8, b1: u8) -> int {
    spec_sign16(b0 + 0x100 * b1) * 0x200
}

/// Sign-extend a 24-bit little-endian triple.
pub open spec fn spec_sign24(v: int) -> int {
    if v < 0x80_0000 {
        v
    } else {
        v - 0x100_0000
    }
}

/// Decode a 24-bit signed sample to Q24: `v / 8388608` full scale.
pub open spec fn spec_dec24(b0: u8, b1: u8, b2: u8) -> int {
    spec_sign24(b0 + 0x100 * b1 + 0x1_0000 * b2) * 2
}

/// Sign-extend a 32-bit little-endian quad.
pub open spec fn spec_sign32(v: int) -> int {
    if v < 0x8000_0000 {
        v
    } else {
        v - 0x1_0000_0000
    }
}

/// Decode a 32-bit signed integer sample to Q24: the floor of
/// `v / 128`, scaling `2^31` full scale down to `2^24`.
pub open spec fn spec_dec32i(b0: u8, b1: u8, b2: u8, b3: u8) -> int {
    spec_sign32(b0 + 0x100 * b1 + 0x1_0000 * b2 + 0x100_0000 * b3) / 128
}

/// Decode a 32-bit IEEE float sample to Q24 by reading its bit fields:
/// sign, biased exponent and mantissa.  Zeros and denormals decode to
/// 0, NaN decodes to 0, infinities saturate, and ordinary values are
/// `(mantissa | 2^23) * 2^(e - 150)`, floored into Q24.
pub open spec fn spec_dec32f(b0: u8, b1: u8, b2: u8, b3: u8) -> int {
    let bits = b0 + 0x100 * b1 + 0x1_0000 * b2 + 0x100_0000 * b3;
    let sign = bits / 0x8000_0000;
    let e = (bits / 0x80_0000) % 0x100;
    let m = bits % 0x80_0000;
    let mag = if e == 0 {
        0
    } else if e == 255 {
        if m != 0 {
            0
        } else {
            0x7FFF_FFFF as int
        }
    } else {
        let mant = m + 0x80_0000;
        if e >= 134 {
            0x7FFF_FFFF as int
        } else if e >= 126 {
            mant * vstd::arithmetic::power2::pow2((e - 126) as nat)
        } else {
            mant / vstd::arithmetic::power2::pow2((126 - e) as nat) as int
        }
    };
    if sign == 1 {
        -mag
    } else {
        mag
    }
}

/// Decode one stored sample at byte offset `off` as the format
/// dictates.  Unsupported combinations decode to silence, as the
/// engine treats them when streaming.
pub open spec fn spec_decode_at(b: Seq<u8>, off: int, bits: u16, is_float: bool) -> int {
    if is_float {
        if bits == 32 {
            spec_dec32f(b[off], b[off + 1], b[off + 2], b[off + 3])
        } else {
            0
        }
    } else if bits == 16 {
        spec_dec16(b[off], b[off + 1])
    } else if bits == 24 {
        spec_dec24(b[off], b[off + 1], b[off + 2])
    } else if bits == 8 {
        spec_dec8(b[off])
    } else if bits == 32 {
        spec_dec32i(b[off], b[off + 1], b[off + 2], b[off + 3])
    } else {
        0
    }
}

/// Decode the sample at `off` from raw bytes.
pub fn decode_at(src: &ByteSource, off: usize, bits: u16, is_float: bool) -> (r: i32)
    requires
        bits == 8 || bits == 16 || bits == 24 || bits == 32,
        off + (bits / 8) as usize <= src@.len(),
        src@.len() <= usize::MAX,
    ensures
        r == spec_decode_at(src@, off as int, bits, is_float),
{
    if is_float {
        if bits == 32 {
            let b0 = src.byte_at(off);
            let b1 = src.byte_at(off + 1);
            let b2 = src.byte_at(off + 2);
            let b3 = src.byte_at(off + 3);
            dec32f(b0, b1, b2, b3)
        } else {
            0
        }
    } else if bits == 16 {
        let b0 = src.byte_at(off);
        let b1 = src.byte_at(off + 1);
        let v: u32 = (b0 as u32) + 0x100 * (b1 as u32);
        let s: i32 = if v < 0x8000 {
            v as i32
        } else {
            (v as i32) - 0x1_0000
        };
        s * 0x200
    } else if bits == 24 {
        let b0 = src.byte_at(off);
        let b1 = src.byte_at(off + 1);
        let b2 = src.byte_at(off + 2);
        let v: u32 = (b0 as u32) + 0x100 * (b1 as u32) + 0x1_0000 * (b2 as u32);
        let s: i32 = if v < 0x80_0000 {
            v as i32
        } else {
            (v as i32) - 0x100_0000
        };
        s * 2
    } else if bits == 8 {
        let b0 = src.byte_at(off);
        ((b0 as i32) - 128) * 0x2_0000
    } else {
        let b0 = src.byte_at(off);
        let b1 = src.byte_at(off + 1);
        let b2 = src.byte_at(off + 2);
        let b3 = src.byte_at(off + 3);
        let v: u64 = (b0 as u64) + 0x100 * (b1 as u64) + 0x1_0000 * (b2 as u64) + 0x100_0000 * (
        b3 as u64);
        let s: i64 = if v < 0x8000_0000 {
            v as i64
        } else {
            (v as i64) - 0x1_0000_0000
        };
        let q: i128 = floor_div(s as i128, 128);
        q as i32
    }
}

/// Decode a 32-bit IEEE float sample from its four bytes.
fn dec32f(b0: u8, b1: u8, b2: u8, b3: u8) -> (r: i32)
    ensures
        r == spec_dec32f(b0, b1, b2, b3),
{
    let bits: u32 = (b0 as u32) + 0x100 * (b1 as u32) + 0x1_0000 * (b2 as u32) + 0x100_0000 * (
    b3 as u32);
    let sign: u32 = bits / 0x8000_0000;
    let e: u32 = (bits / 0x80_0000) % 0x100;
    let m: u32 = bits % 0x80_0000;
    let mag: i32 = if e == 0 {
        0
    } else if e == 255 {
        if m != 0 {
            0
        } else {
            0x7FFF_FFFF
        }
    } else {
        let mant: u32 = m + 0x80_0000;
        if e >= 134 {
            0x7FFF_FFFF
        } else if e >= 126 {
            let p: u64 = pow2_u64((e - 126) as u64);
            proof {
                vstd::arithmetic::power2::lemma2_to64();
                if ((e - 126) as nat) < 7 {
                    vstd::arithmetic::power2::lemma_pow2_strictly_increases((e - 126) as nat, 7);
                }
                assert(p <= 128);
                assert((mant as int) * (p as int) < 0x8000_0000) by (nonlinear_arith)
                    requires
                        mant < 0x100_0000u32,
                        0 <= p <= 128u64,
                ;
            }
            ((mant as u64) * p) as i32
        } else if e >= 103 {
            // 1 <= 126 - e <= 23: an honest right shift.
            let p: u64 = pow2_u64((126 - e) as u64);
            proof {
                vstd::arithmetic::div_mod::lemma_div_pos_is_pos(mant as int, p as int);
                vstd::arithmetic::div_mod::lemma_div_nonincreasing(mant as int, p as int);
            }
            ((mant as u64) / p) as i32
        } else {
            // The shift reaches past the whole mantissa: the value floors to 0.
            proof {
                vstd::arithmetic::power2::lemma2_to64();
                if ((126 - e) as nat) > 24 {
                    vstd::arithmetic::power2::lemma_pow2_strictly_increases(24, (126 - e) as nat);
                }
                vstd::arithmetic::div_mod::lemma_basic_div(
                    mant as int,
                    pow2((126 - e) as nat) as int,
                );
            }
            0
        }
    };
    if sign == 1 {
        -mag
    } else {
        mag
    }
}

/// `2^e` for small exponents.
pub fn pow2_u64(e: u64) -> (r: u64)
    requires
        e <= 63,
    ensures
        r == pow2(e as nat),
        r >= 1,
{
    proof {
        vstd::arithmetic::power2::lemma2_to64();
        vstd::arithmetic::power2::lemma2_to64_rest();
    }
    let mut r: u64 = 1;
    let mut j: u64 = 0;
    while j < e
        invariant
            0 <= j <= e <= 63,
            r == pow2(j as nat),
        decreases e - j,
    {
        proof {
            vstd::arithmetic::power2::lemma_pow2_adds(j as nat, 1);
            vstd::arithmetic::power2::lemma2_to64();
            if (j as nat) < 63 {
                vstd::arithmetic::power2::lemma_pow2_strictly_increases(j as nat, 63);
            }
            vstd::arithmetic::power2::lemma2_to64_rest();
        }
        r = r * 2;
        j = j + 1;
    }
    r
}


/// The state the chunk walk starts from: the defaults the engine
/// assumes when a chunk is absent.
pub open spec fn spec_default_meta() -> WavMeta {
    WavMeta {
        audio_format: 1u16,
        channels: 1u16,
        sample_rate: 44100u32,
        bits_per_sample: 16u16,
        root_note: None,
        fine_tune_mc: None,
        loop_point: None,
        data_start: 0usize,
        data_size: 0u32,
    }
}

/// Whether the four bytes at `pos` spell the given chunk id.
pub open spec fn spec_chunk_id_is(b: Seq<u8>, pos: int, c0: u8, c1: u8, c2: u8, c3: u8) -> bool {
    b[pos] == c0 && b[pos + 1] == c1 && b[pos + 2] == c2 && b[pos + 3] == c3
}

/// The `smpl` fine-tune word as signed millicents: the u32 is read as
/// a signed 32-bit cents fraction and scaled by `100_000 / 2^32`,
/// floored.
pub open spec fn spec_fine_tune_mc(fraction: int) -> int {
    let signed = if fraction >= 0x8000_0000 {
        fraction - 0x1_0000_0000
    } else {
        fraction
    };
    (signed * 100_000) / 0x1_0000_0000
}

/// Effect of a `fmt ` chunk at `pos` with content size `size`.
pub open spec fn spec_apply_fmt(b: Seq<u8>, pos: int, size: int, m: WavMeta) -> Result<
    WavMeta,
    WavError,
> {
    if size < 16 || pos + 24 > b.len() {
        Err(WavError::Truncated)
    } else {
        let fmt0 = spec_le16(b, pos + 8);
        let ch = spec_le16(b, pos + 10);
        let rate = spec_le32(b, pos + 12);
        let bits = spec_le16(b, pos + 22);
        if fmt0 == 0xFFFE && size >= 40 {
            if pos + 34 > b.len() {
                Err(WavError::Truncated)
            } else {
                Ok(
                    WavMeta {
                        audio_format: spec_le16(b, pos + 32) as u16,
                        channels: ch as u16,
                        sample_rate: rate as u32,
                        bits_per_sample: bits as u16,
                        ..m
                    },
                )
            }
        } else {
            Ok(
                WavMeta {
                    audio_format: fmt0 as u16,
                    channels: ch as u16,
                    sample_rate: rate as u32,
                    bits_per_sample: bits as u16,
                    ..m
                },
            )
        }
    }
}

/// Effect of a `smpl` chunk at `pos` with content size `size`.
pub open spec fn spec_apply_smpl(b: Seq<u8>, pos: int, size: int, m: WavMeta) -> Result<
    WavMeta,
    WavError,
> {
    if pos + 8 + size > b.len() || size < 20 {
        Err(WavError::Truncated)
    } else {
        let c = pos + 8;
        let unity = spec_le32(b, c + 12);
        let fraction = spec_le32(b, c + 16);
        let root = if 0 < unity < 128 {
            Some(unity as u32)
        } else {
            m.root_note
        };
        let ft = if fraction != 0 {
            Some(spec_fine_tune_mc(fraction) as i64)
        } else {
            m.fine_tune_mc
        };
        if size < 32 {
            Err(WavError::Truncated)
        } else {
            let num_loops = spec_le32(b, c + 28);
            if num_loops > 0 {
                if size < 52 {
                    Err(WavError::Truncated)
                } else {
                    Ok(
                        WavMeta {
                            root_note: root,
                            fine_tune_mc: ft,
                            loop_point: Some(
                                LoopPoint {
                                    start: spec_le32(b, c + 44) as u32,
                                    end: spec_le32(b, c + 48) as u32,
                                },
                            ),
                            ..m
                        },
                    )
                }
            } else {
                Ok(WavMeta { root_note: root, fine_tune_mc: ft, ..m })
            }
        }
    }
}

/// Effect of one chunk at `pos` on the collected metadata.
pub open spec fn spec_apply_chunk(b: Seq<u8>, pos: int, size: int, m: WavMeta) -> Result<
    WavMeta,
    WavError,
> {
    if spec_chunk_id_is(b, pos, 0x66, 0x6D, 0x74, 0x20) {  // "fmt "
        spec_apply_fmt(b, pos, size, m)
    } else if spec_chunk_id_is(b, pos, 0x73, 0x6D, 0x70, 0x6C) {  // "smpl"
        spec_apply_smpl(b, pos, size, m)
    } else if spec_chunk_id_is(b, pos, 0x64, 0x61, 0x74, 0x61) {  // "data"
        Ok(WavMeta { data_start: (pos + 8) as usize, data_size: size as u32, ..m })
    } else {
        Ok(m)
    }
}

/// Walk the chunk list from `pos` to the end of the file, folding each
/// chunk's effect into the metadata.  A chunk whose header does not
/// fit ends the walk; a chunk whose declared contents run past the end
/// of the file is skipped to the end (the next header read fails).
pub open spec fn spec_walk(b: Seq<u8>, pos: int, m: WavMeta) -> Result<WavMeta, WavError>
    decreases b.len() - pos,
{
    if pos < 0 || pos + 8 > b.len() {
        Ok(m)
    } else {
        let size = spec_le32(b, pos + 4);
        let step = 8 + size + (size % 2);
        let next = if pos + step > b.len() {
            b.len() as int
        } else {
            pos + step
        };
        match spec_apply_chunk(b, pos, size, m) {
            Ok(m2) => spec_walk(b, next, m2),
            Err(e) => Err(e),
        }
    }
}

/// Parse a whole WAV file: check the RIFF/WAVE header, then walk the
/// chunks from byte 12.
pub open spec fn spec_parse_wav(b: Seq<u8>) -> Result<WavMeta, WavError> {
    if b.len() < 12 {
        Err(WavError::NotRiff)
    } else if !(spec_chunk_id_is(b, 0, 0x52, 0x49, 0x46, 0x46) && spec_chunk_id_is(
        b,
        8,
        0x57,
        0x41,
        0x56,
        0x45,
    )) {
        Err(WavError::NotRiff)
    } else {
        spec_walk(b, 12, spec_default_meta())
    }
}

/// Check four bytes at `pos` against a chunk id.
fn chunk_id_is(src: &ByteSource, pos: usize, c0: u8, c1: u8, c2: u8, c3: u8) -> (r: bool)
    requires
        pos + 4 <= src@.len(),
        src@.len() <= usize::MAX,
    ensures
        r == spec_chunk_id_is(src@, pos as int, c0, c1, c2, c3),
{
    src.byte_at(pos) == c0 && src.byte_at(pos + 1) == c1 && src.byte_at(pos + 2) == c2
        && src.byte_at(pos + 3) == c3
}

/// Apply a `fmt ` chunk.
fn apply_fmt(src: &ByteSource, pos: usize, size: u32, m: WavMeta) -> (r: Result<WavMeta, WavError>)
    requires
        pos + 8 <= src@.len(),
        src@.len() <= usize::MAX,
    ensures
        r == spec_apply_fmt(src@, pos as int, size as int, m),
{
    let n = src.len();
    if size < 16 || (pos as u128) + 24 > (n as u128) {
        return Err(WavError::Truncated);
    }
    let fmt0: u16 = read_le16(src, pos + 8);
    let ch: u16 = read_le16(src, pos + 10);
    let rate: u32 = read_le32(src, pos + 12);
    let bits: u16 = read_le16(src, pos + 22);
    if fmt0 == 0xFFFE && size >= 40 {
        if (pos as u128) + 34 > (n as u128) {
            return Err(WavError::Truncated);
        }
        let sub: u16 = read_le16(src, pos + 32);
        Ok(
            WavMeta {
                audio_format: sub,
                channels: ch,
                sample_rate: rate,
                bits_per_sample: bits,
                ..m
            },
        )
    } else {
        Ok(
            WavMeta {
                audio_format: fmt0,
                channels: ch,
                sample_rate: rate,
                bits_per_sample: bits,
                ..m
            },
        )
    }
}

/// Apply a `smpl` chunk.
fn apply_smpl(src: &ByteSource, pos: usize, size: u32, m: WavMeta) -> (r: Result<WavMeta, WavError>)
    requires
        pos + 8 <= src@.len(),
        src@.len() <= usize::MAX,
    ensures
        r == spec_apply_smpl(src@, pos as int, size as int, m),
{
    let n = src.len();
    if (pos as u128) + 8 + (size as u128) > (n as u128) || size < 20 {
        return Err(WavError::Truncated);
    }
    let c: usize = pos + 8;
    let unity: u32 = read_le32(src, c + 12);
    let fraction: u32 = read_le32(src, c + 16);
    let root: Option<u32> = if 0 < unity && unity < 128 {
        Some(unity)
    } else {
        m.root_note
    };
    let ft: Option<i64> = if fraction != 0 {
        Some(fine_tune_mc(fraction))
    } else {
        m.fine_tune_mc
    };
    if size < 32 {
        return Err(WavError::Truncated);
    }
    let num_loops: u32 = read_le32(src, c + 28);
    if num_loops > 0 {
        if size < 52 {
            return Err(WavError::Truncated);
        }
        let start: u32 = read_le32(src, c + 44);
        let end: u32 = read_le32(src, c + 48);
        Ok(
            WavMeta {
                root_note: root,
                fine_tune_mc: ft,
                loop_point: Some(LoopPoint { start, end }),
                ..m
            },
        )
    } else {
        Ok(WavMeta { root_note: root, fine_tune_mc: ft, ..m })
    }
}

/// The `smpl` fine-tune word as signed millicents.
fn fine_tune_mc(fraction: u32) -> (r: i64)
    ensures
        r == spec_fine_tune_mc(fraction as int),
        -50_000 <= r < 50_000,
{
    let signed: i64 = if fraction >= 0x8000_0000 {
        (fraction as i64) - 0x1_0000_0000
    } else {
        fraction as i64
    };
    let q: i128 = floor_div((signed as i128) * 100_000, 0x1_0000_0000);
    proof {
        let sv = signed as int;
        vstd::arithmetic::div_mod::lemma_div_is_ordered(
            sv * 100_000,
            0x7FFF_FFFFint * 100_000,
            0x1_0000_0000,
        );
        vstd::arithmetic::div_mod::lemma_div_is_ordered(
            (-0x8000_0000int) * 100_000,
            sv * 100_000,
            0x1_0000_0000,
        );
        assert(0x7FFF_FFFFint * 100_000 / 0x1_0000_0000 < 50_000) by (nonlinear_arith);
        assert((-0x8000_0000int) * 100_000 / 0x1_0000_0000 >= -50_000) by (nonlinear_arith);
        assert(sv * 100_000 <= 0x7FFF_FFFFint * 100_000) by (nonlinear_arith)
            requires
                sv <= 0x7FFF_FFFFint,
        ;
        assert(sv * 100_000 >= (-0x8000_0000int) * 100_000) by (nonlinear_arith)
            requires
                sv >= -0x8000_0000int,
        ;
    }
    q as i64
}

/// Parse a whole WAV file held in `src`.
pub fn parse_wav(src: &ByteSource) -> (r: Result<WavMeta, WavError>)
    ensures
        r == spec_parse_wav(src@),
{
    let n = src.len();
    if n < 12 {
        return Err(WavError::NotRiff);
    }
    if !(chunk_id_is(src, 0, 0x52, 0x49, 0x46, 0x46) && chunk_id_is(src, 8, 0x57, 0x41, 0x56, 0x45))
    {
        return Err(WavError::NotRiff);
    }
    let mut m = WavMeta {
        audio_format: 1,
        channels: 1,
        sample_rate: 44100,
        bits_per_sample: 16,
        root_note: None,
        fine_tune_mc: None,
        loop_point: None,
        data_start: 0,
        data_size: 0,
    };
    let mut pos: usize = 12;
    while pos <= n - 8
        invariant
            12 <= pos <= n,
            n == src@.len(),
            n >= 12,
            spec_walk(src@, pos as int, m) == spec_parse_wav(src@),
        decreases n - pos,
    {
        let size: u32 = read_le32(src, pos + 4);
        let applied: Result<WavMeta, WavError> = if chunk_id_is(src, pos, 0x66, 0x6D, 0x74, 0x20) {
            apply_fmt(src, pos, size, m)
        } else if chunk_id_is(src, pos, 0x73, 0x6D, 0x70, 0x6C) {
            apply_smpl(src, pos, size, m)
        } else if chunk_id_is(src, pos, 0x64, 0x61, 0x74, 0x61) {
            Ok(WavMeta { data_start: pos + 8, data_size: size, ..m })
        } else {
            Ok(m)
        };
        match applied {
            Ok(m2) => {
                m = m2;
            },
            Err(e) => {
                return Err(e);
            },
        }
        let pad: u32 = size % 2;
        let step: u128 = 8 + (size as u128) + (pad as u128);
        if (pos as u128) + step > (n as u128) {
            pos = n;
        } else {
            pos = pos + 8 + (size as usize) + (pad as usize);
        }
    }
    Ok(m)
}


/// Byte offset of the stored sample for frame `i`, channel `c`.
pub open spec fn spec_sample_off(data_start: int, channels: int, bits: int, i: int, c: int) -> int {
    data_start + i * (channels * (bits / 8)) + c * (bits / 8)
}

/// Decode `n_frames` frames of interleaved PCM starting at
/// `data_start` into per-channel Q24 buffers.
pub fn decode_frames(
    src: &ByteSource,
    data_start: usize,
    n_frames: usize,
    channels: u16,
    bits: u16,
    is_float: bool,
) -> (r: Vec<Vec<i32>>)
    requires
        channels >= 1,
        bits == 8 || bits == 16 || bits == 24 || bits == 32,
        data_start + n_frames * ((channels as int) * ((bits / 8) as int)) <= src@.len(),
        src@.len() <= usize::MAX,
    ensures
        r@.len() == channels as int,
        forall|c: int| 0 <= c < channels as int ==> (#[trigger] r@[c])@.len() == n_frames as int,
        forall|c: int, i: int|
            0 <= c < channels as int && 0 <= i < n_frames as int ==> r@[c]@[i]
                == spec_decode_at(
                src@,
                spec_sample_off(data_start as int, channels as int, bits as int, i, c),
                bits,
                is_float,
            ),
{
    let bps: usize = (bits / 8) as usize;
    proof {
        assert((channels as int) * (bps as int) <= 0xFFFF * 4) by (nonlinear_arith)
            requires
                0 <= channels <= 0xFFFFu16,
                0 <= bps <= 4usize,
        ;
    }
    let fs: usize = (channels as usize) * bps;
    let ghost fsg: int = (channels as int) * ((bits / 8) as int);
    proof {
        assert(fs == fsg);
        assert((n_frames as int) * fsg <= src@.len() - data_start);
    }
    let mut r: Vec<Vec<i32>> = Vec::new();
    let mut c: usize = 0;
    while c < channels as usize
        invariant
            0 <= c <= channels as usize,
            channels >= 1,
            bits == 8 || bits == 16 || bits == 24 || bits == 32,
            bps == (bits / 8) as usize,
            fs == (channels as int) * ((bits / 8) as int),
            data_start + (n_frames as int) * (fs as int) <= src@.len(),
            src@.len() <= usize::MAX,
            r@.len() == c as int,
            forall|c2: int| 0 <= c2 < c as int ==> (#[trigger] r@[c2])@.len() == n_frames as int,
            forall|c2: int, i: int|
                0 <= c2 < c as int && 0 <= i < n_frames as int ==> r@[c2]@[i]
                    == spec_decode_at(
                    src@,
                    spec_sample_off(data_start as int, channels as int, bits as int, i, c2),
                    bits,
                    is_float,
                ),
        decreases channels as usize - c,
    {
        let mut row: Vec<i32> = Vec::new();
        let mut i: usize = 0;
        while i < n_frames
            invariant
                0 <= i <= n_frames,
                0 <= c < channels as usize,
                channels >= 1,
                bits == 8 || bits == 16 || bits == 24 || bits == 32,
                bps == (bits / 8) as usize,
                fs == (channels as int) * ((bits / 8) as int),
                data_start + (n_frames as int) * (fs as int) <= src@.len(),
                src@.len() <= usize::MAX,
                row@.len() == i as int,
                forall|j: int|
                    0 <= j < i as int ==> row@[j] == spec_decode_at(
                        src@,
                        spec_sample_off(data_start as int, channels as int, bits as int, j, c as int),
                        bits,
                        is_float,
                    ),
            decreases n_frames - i,
        {
            proof {
                // The sample lies inside the decoded region:
                // i * fs + c * bps + bps <= (i + 1) * fs <= n_frames * fs.
                assert((c as int) * (bps as int) + (bps as int) <= fs as int) by (nonlinear_arith)
                    requires
                        0 <= c as int <= channels as int - 1,
                        bps as int == (bits / 8) as int,
                        fs as int == (channels as int) * ((bits / 8) as int),
                        bps >= 1,
                ;
                assert((i as int) * (fs as int) + (fs as int) == (i as int + 1) * (fs as int))
                    by (nonlinear_arith);
                assert((i as int + 1) * (fs as int) <= (n_frames as int) * (fs as int))
                    by (nonlinear_arith)
                    requires
                        i as int + 1 <= n_frames as int,
                        fs as int >= 0,
                ;
            }
            let off: usize = data_start + i * fs + c * bps;
            let v: i32 = decode_at(src, off, bits, is_float);
            row.push(v);
            i = i + 1;
        }
        r.push(row);
        c = c + 1;
    }
    r
}

/// Re-encode a Q24 amplitude as a 16-bit PCM sample: the nearest
/// integer to `v / 512` (ties upward), clamped to the i16 range.  This
/// is `round(x * 32768)` for `x` the decoded full-scale value.
pub open spec fn spec_enc16(v: int) -> int {
    let q = (v + 256) / 512;
    if q < -0x8000 {
        -0x8000
    } else if q > 0x7FFF {
        0x7FFF
    } else {
        q
    }
}

/// Re-encode a Q24 amplitude as a 16-bit PCM sample.
pub fn enc16(v: i32) -> (r: i16)
    ensures
        r == spec_enc16(v as int),
{
    let q128: i128 = floor_div((v as i128) + 256, 512);
    proof {
        vstd::arithmetic::div_mod::lemma_div_is_ordered(
            v as int + 256,
            0x8000_0100int,
            512,
        );
        vstd::arithmetic::div_mod::lemma_div_is_ordered(
            -0x8000_0000int,
            v as int + 256,
            512,
        );
        assert(0x8000_0100int / 512 < 0x1_0000_0000) by (nonlinear_arith);
        assert((-0x8000_0000int) / 512 >= -0x1_0000_0000) by (nonlinear_arith);
    }
    let q: i64 = q128 as i64;
    if q < -0x8000 {
        -0x8000
    } else if q > 0x7FFF {
        0x7FFF
    } else {
        q as i16
    }
}

/// Decoding a 16-bit PCM sample to Q24 and re-encoding it gives back
/// exactly the sample value, and hence exactly the original two bytes.
pub proof fn lemma_pcm16_round_trip(b0: u8, b1: u8)
    ensures
        spec_enc16(spec_dec16(b0, b1)) == spec_sign16(b0 + 0x100 * b1),
        (spec_enc16(spec_dec16(b0, b1)) % 0x1_0000) % 0x100 == b0,
        (spec_enc16(spec_dec16(b0, b1)) % 0x1_0000) / 0x100 == b1,
{
    let raw = b0 + 0x100 * b1;
    let s = spec_sign16(raw);
    assert(spec_dec16(b0, b1) == s * 512);
    // (s * 512 + 256) / 512 == s, because the remainder 256 is in [0, 512).
    vstd::arithmetic::div_mod::lemma_fundamental_div_mod_converse(s * 512 + 256, 512, s, 256);
    assert(spec_enc16(s * 512) == s);
    // s is raw or raw - 65536, so s mod 2^16 is raw again.
    if s == raw {
        vstd::arithmetic::div_mod::lemma_fundamental_div_mod_converse(s, 0x1_0000, 0, raw);
    } else {
        vstd::arithmetic::div_mod::lemma_fundamental_div_mod_converse(s, 0x1_0000, -1, raw);
    }
    assert(s % 0x1_0000 == raw);
    // Splitting raw back into bytes.
    vstd::arithmetic::div_mod::lemma_fundamental_div_mod_converse(raw, 0x100, b1 as int, b0 as int);
}

} // verus!
