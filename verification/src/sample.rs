//! Decoded samples: either wholly in memory or an attack buffer plus
//! on-demand decoding from the raw file bytes.

use vstd::prelude::*;
use crate::bytes::ByteSource;
use crate::wav::{LoopPoint, spec_decode_at, decode_at};

verus! {

/// Where a sample's PCM comes from.
pub enum SampleSource {
    /// Fully decoded, one Q24 buffer per channel.
    InMemory(Vec<Vec<i32>>),
    /// An attack buffer per channel for an instant start, with the
    /// rest decoded per frame from the raw file bytes.
    Streaming {
        attack: Vec<Vec<i32>>,
        data: ByteSource,
        data_start: usize,
        channels: u16,
        bits_per_sample: u16,
        is_float: bool,
        total_frames: usize,
    },
}

/// One loaded sample: immutable once published by the store.
pub struct Sample {
    pub stop_id: String,
    pub source: SampleSource,
    pub sample_rate: u32,
    pub loop_point: Option<LoopPoint>,
    pub root_note: Option<u32>,
    pub fine_tune_mc: Option<i64>,
    pub is_full: bool,
}

impl Sample {
    /// How many channels the source stores.
    pub open spec fn spec_channels(&self) -> int {
        match &self.source {
            SampleSource::InMemory(d) => d@.len() as int,
            SampleSource::Streaming { channels, .. } => *channels as int,
        }
    }

    /// Length in frames.
    pub open spec fn spec_len(&self) -> int {
        match &self.source {
            SampleSource::InMemory(d) => if d@.len() == 0 {
                0
            } else {
                d@[0]@.len() as int
            },
            SampleSource::Streaming { total_frames, .. } => *total_frames as int,
        }
    }

    /// A sample is well formed when it is no longer than a data
    /// chunk can describe and its loop region, if any, is non-empty
    /// and lies inside the sample.
    pub open spec fn wf(&self) -> bool {
        &&& self.spec_len() <= 0x1_0000_0000
        &&& match self.loop_point {
            Some(lp) => lp.start < lp.end && lp.end <= self.spec_len(),
            None => true,
        }
    }

    /// The stored value of channel `channel` at frame `idx`: the
    /// attack or memory buffer where it reaches, decoded from the raw
    /// bytes behind it, and silence outside the sample.
    pub open spec fn spec_sample_at(&self, channel: int, idx: int) -> int {
        match &self.source {
            SampleSource::InMemory(d) => {
                if 0 <= channel < d@.len() && 0 <= idx < d@[channel]@.len() {
                    d@[channel]@[idx] as int
                } else {
                    0
                }
            },
            SampleSource::Streaming {
                attack,
                data,
                data_start,
                channels,
                bits_per_sample,
                is_float,
                total_frames,
            } => {
                if 0 <= channel < attack@.len() && 0 <= idx < attack@[channel]@.len() {
                    attack@[channel]@[idx] as int
                } else if idx >= *total_frames as int || idx < 0 || channel < 0 {
                    0
                } else {
                    let bps = (*bits_per_sample / 8) as int;
                    let off = *data_start + idx * ((*channels as int) * bps) + channel * bps;
                    if off + bps > data@.len() {
                        0
                    } else {
                        spec_decode_at(data@, off, *bits_per_sample, *is_float)
                    }
                }
            },
        }
    }

    /// Length of the sample in frames.
    pub fn get_len(&self) -> (n: usize)
        ensures
            n == self.spec_len(),
    {
        match &self.source {
            SampleSource::InMemory(d) => {
                if d.len() == 0 {
                    0
                } else {
                    d[0].len()
                }
            },
            SampleSource::Streaming { total_frames, .. } => *total_frames,
        }
    }

    /// How many channels the source stores.
    pub fn channels(&self) -> (n: usize)
        ensures
            n == self.spec_channels(),
    {
        match &self.source {
            SampleSource::InMemory(d) => d.len(),
            SampleSource::Streaming { channels, .. } => *channels as usize,
        }
    }

    /// The Q24 value of channel `channel` at frame `idx`.
    pub fn get_sample(&self, channel: usize, idx: usize) -> (v: i32)
        ensures
            v == self.spec_sample_at(channel as int, idx as int),
    {
        match &self.source {
            SampleSource::InMemory(d) => {
                if channel < d.len() && idx < d[channel].len() {
                    d[channel][idx]
                } else {
                    0
                }
            },
            SampleSource::Streaming {
                attack,
                data,
                data_start,
                channels,
                bits_per_sample,
                is_float,
                total_frames,
            } => {
                if channel < attack.len() && idx < attack[channel].len() {
                    return attack[channel][idx];
                }
                if idx >= *total_frames {
                    return 0;
                }
                let bits = *bits_per_sample;
                if !(bits == 8 || bits == 16 || bits == 24 || bits == 32) {
                    proof {
                        assert(spec_decode_at(
                            data@,
                            *data_start + (idx as int) * ((*channels as int) * ((bits / 8) as int))
                                + (channel as int) * ((bits / 8) as int),
                            bits,
                            *is_float,
                        ) == 0);
                    }
                    return 0;
                }
                let bps: usize = (bits / 8) as usize;
                let n: usize = data.len();
                proof {
                    assert(0 <= (*channels as int) * (bps as int) <= 0xFFFF * 4) by (nonlinear_arith)
                        requires
                            0 <= *channels <= 0xFFFFu16,
                            0 <= bps <= 4usize,
                    ;
                    assert((idx as int) * ((*channels as int) * (bps as int)) <= 0xFFFF_FFFF_FFFF_FFFF * (0xFFFF * 4))
                        by (nonlinear_arith)
                        requires
                            0 <= idx as int <= 0xFFFF_FFFF_FFFF_FFFF,
                            0 <= (*channels as int) * (bps as int) <= 0xFFFF * 4,
                    ;
                    assert((channel as int) * (bps as int) <= 0xFFFF_FFFF_FFFF_FFFF * 4)
                        by (nonlinear_arith)
                        requires
                            0 <= channel as int <= 0xFFFF_FFFF_FFFF_FFFF,
                            0 <= bps <= 4usize,
                    ;
                }
                let off: u128 = (*data_start as u128) + (idx as u128) * ((*channels as u128) * (
                bps as u128)) + (channel as u128) * (bps as u128);
                if off + (bps as u128) > (n as u128) {
                    return 0;
                }
                decode_at(data, off as usize, bits, *is_float)
            },
        }
    }
}

} // verus!
