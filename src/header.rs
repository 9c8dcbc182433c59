//! Decoding of the four-byte MPEG-1 Layer III frame header.

use vstd::prelude::*;

verus! {

/// Minimum size (exclusive) of a run of frames that is reported: 50 KiB.
pub const THRESHOLD: usize = 50 * 1024;

/// The big-endian 32-bit word made of four header bytes.
pub open spec fn header_word(b0: u8, b1: u8, b2: u8, b3: u8) -> u32 {
    ((b0 as u32) << 24u32) | ((b1 as u32) << 16u32) | ((b2 as u32) << 8u32) | (b3 as u32)
}

/// The 11-bit frame sync pattern is all ones.
pub open spec fn has_sync(h: u32) -> bool {
    h & 0xFFE00000u32 == 0xFFE00000u32
}

pub open spec fn version_bits(h: u32) -> u32 {
    (h & 0x00180000u32) >> 19u32
}

pub open spec fn layer_bits(h: u32) -> u32 {
    (h & 0x00060000u32) >> 17u32
}

pub open spec fn bit_rate_index(h: u32) -> u32 {
    (h & 0x0000F000u32) >> 12u32
}

pub open spec fn sample_rate_index(h: u32) -> u32 {
    (h & 0x00000C00u32) >> 10u32
}

pub open spec fn padding_bit(h: u32) -> u32 {
    (h & 0x00000200u32) >> 9u32
}

pub open spec fn emphasis_bits(h: u32) -> u32 {
    h & 0x00000003u32
}

/// Bit rates in bits per second; indices 0 ("free") and 15 are invalid.
pub open spec fn bit_rate_of(index: u32) -> Option<u32> {
    match index {
        1 => Some(32000u32),
        2 => Some(40000u32),
        3 => Some(48000u32),
        4 => Some(56000u32),
        5 => Some(64000u32),
        6 => Some(80000u32),
        7 => Some(96000u32),
        8 => Some(112000u32),
        9 => Some(128000u32),
        10 => Some(160000u32),
        11 => Some(192000u32),
        12 => Some(224000u32),
        13 => Some(256000u32),
        14 => Some(320000u32),
        _ => None,
    }
}

/// Sample rates in Hz; index 3 is reserved.
///
/// Note: the third entry is 3200, where the MPEG-1 standard has 32000. It is
/// kept as is, since it decides the frame lengths that are followed and so
/// which frame chains are found; whether 32000 was meant is an open question.
pub open spec fn sample_rate_of(index: u32) -> Option<u32> {
    match index {
        0 => Some(44100u32),
        1 => Some(48000u32),
        2 => Some(3200u32),
        _ => None,
    }
}

/// The header is accepted: sync, MPEG-1, Layer III, valid rates, emphasis
/// not reserved.
pub open spec fn header_valid(h: u32) -> bool {
    &&& has_sync(h)
    &&& version_bits(h) == 3
    &&& layer_bits(h) == 1
    &&& bit_rate_of(bit_rate_index(h)) is Some
    &&& sample_rate_of(sample_rate_index(h)) is Some
    &&& emphasis_bits(h) != 2
}

/// Length in bytes (header included) of the frame that an accepted header
/// starts: floor(144 * bit rate / sample rate) + padding.
pub open spec fn frame_length_of(h: u32) -> Option<int> {
    if header_valid(h) {
        let br = bit_rate_of(bit_rate_index(h))->Some_0 as int;
        let sr = sample_rate_of(sample_rate_index(h))->Some_0 as int;
        Some(144 * br / sr + padding_bit(h) as int)
    } else {
        None
    }
}

/// Every accepted header announces a frame of 96 to 14401 bytes.
pub proof fn lemma_frame_length_bounds(h: u32)
    ensures
        frame_length_of(h) matches Some(n) ==> 96 <= n <= 14401,
{
    if header_valid(h) {
        let br = bit_rate_of(bit_rate_index(h))->Some_0 as int;
        let sr = sample_rate_of(sample_rate_index(h))->Some_0 as int;
        assert(padding_bit(h) <= 1) by (bit_vector);
        assert(32000 <= br <= 320000);
        assert(3200 <= sr <= 48000);
        let num = 144 * br;
        assert(sr * 96 <= num);
        vstd::arithmetic::div_mod::lemma_div_is_ordered(sr * 96, num, sr);
        vstd::arithmetic::div_mod::lemma_div_multiples_vanish(96, sr);
        vstd::arithmetic::div_mod::lemma_div_is_ordered_by_denominator(num, 3200, sr);
        assert(num / 3200 <= 14400);
    }
}

/// Bit rate for a header's 4-bit index, `None` for the invalid indices.
pub fn get_bit_rate(i: u32) -> (r: Option<u32>)
    ensures
        r == bit_rate_of(i),
{
    match i {
        1 => Some(32000),
        2 => Some(40000),
        3 => Some(48000),
        4 => Some(56000),
        5 => Some(64000),
        6 => Some(80000),
        7 => Some(96000),
        8 => Some(112000),
        9 => Some(128000),
        10 => Some(160000),
        11 => Some(192000),
        12 => Some(224000),
        13 => Some(256000),
        14 => Some(320000),
        _ => None,
    }
}

/// Sample rate for a header's 2-bit index, `None` for the reserved index.
pub fn get_sample_rate(i: u32) -> (r: Option<u32>)
    ensures
        r == sample_rate_of(i),
{
    match i {
        0 => Some(44100),
        1 => Some(48000),
        2 => Some(3200),
        _ => None,
    }
}

/// Validates a header word and returns the length of the frame it starts.
pub fn frame_length(h: u32) -> (r: Option<usize>)
    ensures
        match r {
            Some(n) => frame_length_of(h) == Some(n as int),
            None => frame_length_of(h) is None,
        },
{
    if h & 0xFFE00000 != 0xFFE00000 {
        return None;
    }
    let mpeg_version = (h & 0x00180000) >> 19;
    if mpeg_version != 0b11 {
        return None;
    }
    let mpeg_layer = (h & 0x00060000) >> 17;
    if mpeg_layer != 0b01 {
        return None;
    }
    let bit_rate = match get_bit_rate((h & 0x0000F000) >> 12) {
        Some(v) => v,
        None => return None,
    };
    let sample_rate = match get_sample_rate((h & 0x00000C00) >> 10) {
        Some(v) => v,
        None => return None,
    };
    let padding = (h & 0x00000200) >> 9;
    if h & 0x00000003 == 0b10 {
        return None;
    }
    assert(padding <= 1) by (bit_vector)
        requires
            padding == (h & 0x00000200u32) >> 9u32,
    ;
    let n = 144 * bit_rate / sample_rate + padding;
    Some(n as usize)
}

} // verus!
