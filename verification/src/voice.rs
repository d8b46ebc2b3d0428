//! One voice: a single playback of one sample at one pitch, with its
//! own position, envelope and state.

use vstd::prelude::*;
use std::sync::Arc;
use vstd::string::StringExecFns;
use crate::sample::Sample;
use crate::fixed::{
    Q24_ONE, Q32_ONE, INC_MAX, CONTRIB_MAX, MIX_MAX, spec_cents_ratio, cents_ratio_q32,
    spec_increment, increment_q32, spec_cubic, cubic_q24, spec_amp, amp_q24, spec_apply_amp,
    apply_amp_q24,
};

verus! {

/// Where a voice stands in its life: attacking or sustaining,
/// fading out, or done and ready to be removed.
#[derive(Clone, Copy, Debug, PartialEq, Eq, Structural)]
pub enum VoiceState {
    Playing,
    Releasing,
    Finished,
}

/// A sounding note.  Positions and the per-frame increment are Q32
/// fixed point (frames); gains and the envelope are Q24.
pub struct Voice {
    pub sample: Arc<Sample>,
    pub path: String,
    pub note: u8,
    pub stop_id: String,
    pub release_path: Option<String>,
    pub position: u64,
    pub increment: u64,
    pub gain: u32,
    pub pitch_ratio: u64,
    pub pitch_offset_mc: i64,
    pub state: VoiceState,
    pub envelope: u32,
    pub attack_samples: u64,
    pub samples_since_start: u64,
    pub release_samples: u64,
    pub samples_since_release: u64,
    pub is_release: bool,
}

/// A pitch offset is taken at most two hundred octaves either way;
/// the ratio saturates long before that.
pub open spec fn spec_clamp_offset(mc: int) -> int {
    if mc > 240_000_000 {
        240_000_000
    } else if mc < -240_000_000 {
        -240_000_000
    } else {
        mc
    }
}

/// A fine tune is at most half a semitone each way, as the `smpl`
/// chunk can express it.
pub open spec fn spec_clamp_fine(mc: int) -> int {
    if mc > 50_000 {
        50_000
    } else if mc < -50_000 {
        -50_000
    } else {
        mc
    }
}

/// The total tuning of a voice in millicents: the distance from the
/// sample's root note, less its fine tune, plus the commanded
/// offset.  Either sample term contributes nothing when its metadata
/// is absent.
pub open spec fn spec_voice_total_mc(sample: Sample, note: u8, offset_mc: int) -> int {
    let root_term: int = match sample.root_note {
        Some(root) => (note - root) * 100_000,
        None => 0,
    };
    let fine_term: int = match sample.fine_tune_mc {
        Some(ft) => spec_clamp_fine(ft as int),
        None => 0,
    };
    root_term - fine_term + spec_clamp_offset(offset_mc)
}

/// The pitch ratio a new voice computes: the given manual ratio, or
/// `2^(total_cents / 1200)` from the sample's tuning.
pub open spec fn spec_voice_ratio(
    sample: Sample,
    note: u8,
    manual: Option<u64>,
    offset_mc: int,
) -> int {
    match manual {
        Some(pf) => pf as int,
        None => spec_cents_ratio(spec_voice_total_mc(sample, note, offset_mc)),
    }
}

/// Envelope during the attack: `min(1, elapsed / attack)` in Q24.
/// An attack of zero frames is complete at once.
pub open spec fn spec_attack_env(sss: int, att: int) -> int {
    if sss >= att {
        Q24_ONE as int
    } else {
        (sss * (Q24_ONE as int)) / att
    }
}

/// Envelope during the release: `max(0, 1 - elapsed / release)` in
/// Q24.  A release of zero frames is silent at once.
pub open spec fn spec_release_env(ssr: int, rel: int) -> int {
    if rel <= 0 {
        0
    } else if (ssr * (Q24_ONE as int)) / rel >= Q24_ONE as int {
        0
    } else {
        (Q24_ONE as int) - (ssr * (Q24_ONE as int)) / rel
    }
}

/// `attack_samples` (or `release_samples`) for a duration in
/// milliseconds at the output rate.
pub open spec fn spec_ms_samples(rate: u32, ms: u32) -> int {
    (rate * ms) / 1000
}

/// Convert a duration in milliseconds to output frames.
pub fn ms_samples(rate: u32, ms: u32) -> (r: u64)
    ensures
        r == spec_ms_samples(rate, ms),
        r < 0x4_0000_0000_0000_0000,
{
    proof {
        assert((rate as int) * (ms as int) <= 0xFFFF_FFFF * 0xFFFF_FFFF) by (nonlinear_arith)
            requires
                0 <= rate <= 0xFFFF_FFFFu32,
                0 <= ms <= 0xFFFF_FFFFu32,
        ;
        vstd::arithmetic::div_mod::lemma_div_pos_is_pos(
            (rate as int) * (ms as int),
            1000,
        );
        vstd::arithmetic::div_mod::lemma_div_nonincreasing((rate as int) * (ms as int), 1000);
    }
    let prod: u128 = (rate as u128) * (ms as u128);
    (prod / 1000) as u64
}

impl Voice {
    /// A voice is well formed when its envelope and increment are in
    /// range and its sample is.
    pub open spec fn wf(&self) -> bool {
        &&& self.envelope <= Q24_ONE
        &&& self.increment <= INC_MAX
        &&& (*self.sample).wf()
    }

    /// Build a voice for `note` over `sample`.  The pitch ratio comes
    /// from the sample's tuning metadata, or is taken verbatim from
    /// `manual_pitch_ratio` (a release voice inherits its parent's
    /// ratio this way); the increment converts it to source frames
    /// per output frame.
    pub fn new(
        sample: Arc<Sample>,
        path: String,
        note: u8,
        output_sample_rate: u32,
        gain: u32,
        release_path: Option<String>,
        attack_ms: u32,
        release_ms: u32,
        manual_pitch_ratio: Option<u64>,
        pitch_offset_mc: i64,
        is_release: bool,
    ) -> (v: Voice)
        requires
            output_sample_rate > 0,
            (*sample).wf(),
        ensures
            v.wf(),
            v.sample == sample,
            v.path == path,
            v.note == note,
            v.stop_id@ == (*sample).stop_id@,
            v.release_path == release_path,
            v.position == 0,
            v.pitch_ratio == spec_voice_ratio(*sample, note, manual_pitch_ratio, pitch_offset_mc as int),
            v.increment == spec_increment(
                (*sample).sample_rate,
                v.pitch_ratio as u64,
                output_sample_rate,
            ),
            v.gain == gain,
            v.pitch_offset_mc == pitch_offset_mc,
            v.state == VoiceState::Playing,
            v.envelope == 0,
            v.attack_samples == spec_ms_samples(output_sample_rate, attack_ms),
            v.samples_since_start == 0,
            v.release_samples == spec_ms_samples(output_sample_rate, release_ms),
            v.samples_since_release == 0,
            v.is_release == is_release,
    {
        let ratio: u64 = match manual_pitch_ratio {
            Some(pf) => pf,
            None => {
                let offset: i64 = if pitch_offset_mc > 240_000_000 {
                    240_000_000
                } else if pitch_offset_mc < -240_000_000 {
                    -240_000_000
                } else {
                    pitch_offset_mc
                };
                let root_term: i64 = match sample.root_note {
                    Some(root) => {
                        proof {
                            assert(-0x2_0000_0000_0000 < (note as int - root as int) * 100_000
                                < 0x2_0000_0000_0000) by (nonlinear_arith)
                                requires
                                    -0x1_0000_0000 <= note as int - root as int
                                        <= 0x1_0000_0000,
                            ;
                        }
                        ((note as i64) - (root as i64)) * 100_000
                    },
                    None => 0,
                };
                let fine_term: i64 = match sample.fine_tune_mc {
                    Some(f) => {
                        if f > 50_000 {
                            50_000
                        } else if f < -50_000 {
                            -50_000
                        } else {
                            f
                        }
                    },
                    None => 0,
                };
                cents_ratio_q32(root_term - fine_term + offset)
            },
        };
        let increment: u64 = increment_q32(sample.sample_rate, ratio, output_sample_rate);
        let stop_id: String = sample.stop_id.clone();
        Voice {
            sample,
            path,
            note,
            stop_id,
            release_path,
            position: 0,
            increment,
            gain,
            pitch_ratio: ratio,
            pitch_offset_mc,
            state: VoiceState::Playing,
            envelope: 0,
            attack_samples: ms_samples(output_sample_rate, attack_ms),
            samples_since_start: 0,
            release_samples: ms_samples(output_sample_rate, release_ms),
            samples_since_release: 0,
            is_release,
        }
    }

    /// Whether this voice sounds `note` for the stop named.
    pub fn is_note(&self, note: u8, stop_id: &str) -> (r: bool)
        ensures
            r == (self.note == note && self.stop_id@ == stop_id@),
    {
        let other: String = String::from_str(stop_id);
        self.note == note && self.stop_id == other
    }

    /// Replace the voice's gain.
    pub fn set_gain(&mut self, gain: u32)
        ensures
            *final(self) == (Voice { gain, ..*old(self) }),
    {
        self.gain = gain;
    }

    /// Begin the fade-out; sounding voices only, no reverse edges.
    pub fn release(&mut self)
        ensures
            *final(self) == (if old(self).state == VoiceState::Playing {
                Voice { state: VoiceState::Releasing, ..*old(self) }
            } else {
                *old(self)
            }),
    {
        if let VoiceState::Playing = self.state {
            self.state = VoiceState::Releasing;
        }
    }

    /// Whether the voice has finished and can be removed.
    pub fn is_finished(&self) -> (r: bool)
        ensures
            r == (self.state == VoiceState::Finished),
    {
        matches!(self.state, VoiceState::Finished)
    }

    /// Swap in a fuller copy of the same sample: the position is
    /// kept, and the increment is recomputed from the stored pitch
    /// ratio and the new sample's rate, so playback continues
    /// seamlessly.
    pub fn swap_sample(&mut self, new_sample: Arc<Sample>, output_sample_rate: u32)
        requires
            output_sample_rate > 0,
            (*new_sample).wf(),
        ensures
            *final(self) == (Voice {
                sample: new_sample,
                increment: spec_increment(
                    (*new_sample).sample_rate,
                    old(self).pitch_ratio,
                    output_sample_rate,
                ) as u64,
                ..*old(self)
            }),
            old(self).wf() ==> final(self).wf(),
            final(self).position == old(self).position,
    {
        self.sample = new_sample;
        self.increment = increment_q32(self.sample.sample_rate, self.pitch_ratio, output_sample_rate);
    }

    /// The source value a voice reads at frame `idx`: before the
    /// start it holds the first frame, past the end (without a loop)
    /// silence, and from the loop end onward it wraps into the loop
    /// region.
    pub open spec fn spec_fetch(&self, idx: int, channel: int) -> int {
        let len = (*self.sample).spec_len();
        let wrapped: Option<int> = match (*self.sample).loop_point {
            Some(lp) => if idx >= lp.end {
                Some(lp.start + ((idx - lp.end) % (lp.end - lp.start)))
            } else {
                None
            },
            None => None,
        };
        match wrapped {
            Some(w) => (*self.sample).spec_sample_at(channel, w),
            None => if idx < 0 {
                (*self.sample).spec_sample_at(channel, 0)
            } else if idx >= len {
                0
            } else {
                (*self.sample).spec_sample_at(channel, idx)
            },
        }
    }

    /// Fetch the source value at frame `idx`, handling loop wrap and
    /// the sample's edges.
    pub fn get_sample_at(&self, idx: i64, channel: usize) -> (r: i32)
        requires
            (*self.sample).wf(),
        ensures
            r == self.spec_fetch(idx as int, channel as int),
    {
        let len: usize = self.sample.get_len();
        if let Some(lp) = self.sample.loop_point {
            if idx >= 0 && (idx as u64) >= (lp.end as u64) {
                let off: u64 = (idx as u64) - (lp.end as u64);
                let loop_len: u64 = (lp.end - lp.start) as u64;
                let wrapped: u64 = (lp.start as u64) + (off % loop_len);
                proof {
                    vstd::arithmetic::div_mod::lemma_mod_bound(off as int, loop_len as int);
                }
                return self.sample.get_sample(channel, wrapped as usize);
            }
        }
        if idx < 0 {
            self.sample.get_sample(channel, 0)
        } else if (idx as u64) >= (len as u64) {
            0
        } else {
            self.sample.get_sample(channel, idx as usize)
        }
    }
}


/// A counter stepped by one, saturating at the top.
pub open spec fn spec_inc1(x: u64) -> int {
    if x == u64::MAX {
        x as int
    } else {
        x + 1
    }
}

/// A position advanced by an increment, saturating at the top.
pub open spec fn spec_advance(pos: int, inc: u64) -> int {
    if pos + inc > u64::MAX as int {
        u64::MAX as int
    } else {
        pos + inc
    }
}

impl Voice {
    /// The playback position after the loop-wrap rule: from the loop
    /// end onward it is pulled back by one loop length.
    pub open spec fn spec_wrapped_pos(&self) -> int {
        match (*self.sample).loop_point {
            Some(lp) => if self.position >= (lp.end as int) * (Q32_ONE as int) {
                self.position - ((lp.end - lp.start) as int) * (Q32_ONE as int)
            } else {
                self.position as int
            },
            None => self.position as int,
        }
    }

    /// One step of the voice: the stereo output pair in Q24 and the
    /// state after it.  A finished voice is silent and still.  A
    /// voice past its unlooped sample finishes silently.  Otherwise
    /// the output interpolates around the (wrapped) position, scaled
    /// by gain and the current envelope; then the position advances
    /// by the increment and the envelope follows its ramp.
    pub open spec fn spec_next(self) -> (Voice, int, int) {
        if self.state == VoiceState::Finished {
            (self, 0, 0)
        } else {
            let len = (*self.sample).spec_len();
            let pos_frame = self.position as int / (Q32_ONE as int);
            if (*self.sample).loop_point is None && pos_frame >= len {
                (Voice { state: VoiceState::Finished, ..self }, 0, 0)
            } else {
                let pos2 = self.spec_wrapped_pos();
                let idx = pos2 / (Q32_ONE as int);
                let frac = pos2 % (Q32_ONE as int);
                let amp = spec_amp(self.gain, self.envelope);
                let vl = spec_cubic(
                    self.spec_fetch(idx - 1, 0),
                    self.spec_fetch(idx, 0),
                    self.spec_fetch(idx + 1, 0),
                    self.spec_fetch(idx + 2, 0),
                    frac,
                );
                let vr = if (*self.sample).spec_channels() >= 2 {
                    spec_cubic(
                        self.spec_fetch(idx - 1, 1),
                        self.spec_fetch(idx, 1),
                        self.spec_fetch(idx + 1, 1),
                        self.spec_fetch(idx + 2, 1),
                        frac,
                    )
                } else {
                    vl
                };
                let out_l = spec_apply_amp(vl, amp);
                let out_r = spec_apply_amp(vr, amp);
                let pos3 = spec_advance(pos2, self.increment);
                match self.state {
                    VoiceState::Playing => {
                        let sss2: int = if self.samples_since_start < self.attack_samples {
                            self.samples_since_start + 1
                        } else {
                            self.samples_since_start as int
                        };
                        let env2 = spec_attack_env(sss2, self.attack_samples as int);
                        (
                            Voice {
                                position: pos3 as u64,
                                samples_since_start: sss2 as u64,
                                envelope: env2 as u32,
                                ..self
                            },
                            out_l,
                            out_r,
                        )
                    },
                    VoiceState::Releasing => {
                        let ssr2 = spec_inc1(self.samples_since_release);
                        let env2 = spec_release_env(ssr2, self.release_samples as int);
                        let st2 = if env2 == 0 {
                            VoiceState::Finished
                        } else {
                            VoiceState::Releasing
                        };
                        (
                            Voice {
                                position: pos3 as u64,
                                samples_since_release: ssr2 as u64,
                                envelope: env2 as u32,
                                state: st2,
                                ..self
                            },
                            out_l,
                            out_r,
                        )
                    },
                    VoiceState::Finished => (self, 0, 0),
                }
            }
        }
    }

    /// Produce one stereo output frame in Q24 and advance the voice.
    #[verifier::rlimit(100)]
    pub fn next_sample(&mut self) -> (out: (i64, i64))
        requires
            old(self).wf(),
        ensures
            final(self).wf(),
            (*final(self), out.0 as int, out.1 as int) == old(self).spec_next(),
            -CONTRIB_MAX <= out.0 <= CONTRIB_MAX,
            -CONTRIB_MAX <= out.1 <= CONTRIB_MAX,
            final(self).sample == old(self).sample,
            final(self).note == old(self).note,
            final(self).stop_id == old(self).stop_id,
            final(self).path == old(self).path,
            final(self).gain == old(self).gain,
            final(self).increment == old(self).increment,
            final(self).is_release == old(self).is_release,
            final(self).release_path == old(self).release_path,
            final(self).state == old(self).state || final(self).state == VoiceState::Finished,
    {
        if self.is_finished() {
            return (0i64, 0i64);
        }
        let len: usize = self.sample.get_len();
        let pos_frame: u64 = self.position / Q32_ONE;
        let lp_opt = self.sample.loop_point;
        if lp_opt.is_none() && pos_frame >= (len as u64) {
            self.state = VoiceState::Finished;
            return (0i64, 0i64);
        }
        if let Some(lp) = lp_opt {
            proof {
                assert((lp.end as int) * (Q32_ONE as int) < 0x1_0000_0000_0000_0000)
                    by (nonlinear_arith)
                    requires
                        0 <= lp.end <= 0xFFFF_FFFFu32,
                ;
                assert(((lp.end - lp.start) as int) * (Q32_ONE as int) <= (lp.end as int) * (
                Q32_ONE as int)) by (nonlinear_arith)
                    requires
                        0 <= lp.start < lp.end,
                ;
            }
            let end_fp: u64 = (lp.end as u64) * Q32_ONE;
            if self.position >= end_fp {
                let loop_len_fp: u64 = ((lp.end - lp.start) as u64) * Q32_ONE;
                self.position = self.position - loop_len_fp;
            }
        }
        let idx_u: u64 = self.position / Q32_ONE;
        let frac: u64 = self.position % Q32_ONE;
        proof {
            vstd::arithmetic::div_mod::lemma_mod_bound(
                old(self).spec_wrapped_pos(),
                Q32_ONE as int,
            );
            vstd::arithmetic::div_mod::lemma_div_nonincreasing(self.position as int, Q32_ONE as int);
            vstd::arithmetic::div_mod::lemma_div_pos_is_pos(self.position as int, Q32_ONE as int);
            crate::fixed::lemma_div_fits_u32(self.position);
        }
        let idx: i64 = idx_u as i64;
        let amp: u64 = amp_q24(self.gain, self.envelope);
        let y0 = self.get_sample_at(idx - 1, 0);
        let y1 = self.get_sample_at(idx, 0);
        let y2 = self.get_sample_at(idx + 1, 0);
        let y3 = self.get_sample_at(idx + 2, 0);
        let vl: i64 = cubic_q24(y0 as i64, y1 as i64, y2 as i64, y3 as i64, frac);
        let channels: usize = self.sample.channels();
        let vr: i64 = if channels >= 2 {
            let z0 = self.get_sample_at(idx - 1, 1);
            let z1 = self.get_sample_at(idx, 1);
            let z2 = self.get_sample_at(idx + 1, 1);
            let z3 = self.get_sample_at(idx + 2, 1);
            cubic_q24(z0 as i64, z1 as i64, z2 as i64, z3 as i64, frac)
        } else {
            vl
        };
        let out_l: i64 = apply_amp_q24(vl, amp);
        let out_r: i64 = apply_amp_q24(vr, amp);
        self.position = self.position.saturating_add(self.increment);
        match self.state {
            VoiceState::Playing => {
                if self.samples_since_start < self.attack_samples {
                    self.samples_since_start = self.samples_since_start + 1;
                }
                if self.samples_since_start >= self.attack_samples {
                    self.envelope = Q24_ONE;
                } else {
                    let att = self.attack_samples;
                    let sss = self.samples_since_start;
                    proof {
                        assert((sss as int) * (Q24_ONE as int) < (Q24_ONE as int) * (att as int))
                            by (nonlinear_arith)
                            requires
                                0 <= sss < att,
                        ;
                        crate::fixed::lemma_div_below(
                            (sss as int) * (Q24_ONE as int),
                            Q24_ONE as int,
                            att as int,
                        );
                        vstd::arithmetic::div_mod::lemma_div_pos_is_pos(
                            (sss as int) * (Q24_ONE as int),
                            att as int,
                        );
                    }
                    let e: u128 = ((sss as u128) * (Q24_ONE as u128)) / (att as u128);
                    self.envelope = e as u32;
                }
            },
            VoiceState::Releasing => {
                self.samples_since_release = self.samples_since_release.saturating_add(1);
                let rel = self.release_samples;
                let ssr = self.samples_since_release;
                if rel == 0 {
                    self.envelope = 0;
                    self.state = VoiceState::Finished;
                } else {
                    let q: u128 = ((ssr as u128) * (Q24_ONE as u128)) / (rel as u128);
                    if q >= (Q24_ONE as u128) {
                        self.envelope = 0;
                        self.state = VoiceState::Finished;
                    } else {
                        self.envelope = Q24_ONE - (q as u32);
                    }
                }
            },
            VoiceState::Finished => {
                proof {
                    assert(false);
                }
            },
        }
        (out_l, out_r)
    }
}


/// The effect of mixing one voice into an interleaved buffer from
/// frame `i` on: each frame adds the voice's next output pair to the
/// frame's first and second slots; a one-channel buffer takes the
/// average of the pair.  Mixing stops when the voice finishes.
pub open spec fn spec_render(v: Voice, buf: Seq<i64>, channels: int, i: int) -> (Voice, Seq<i64>)
    decreases (if channels > 0 { buf.len() as int / channels } else { 0 }) - i,
        via spec_render_decreases
{
    let frames = if channels > 0 { buf.len() as int / channels } else { 0 };
    if channels <= 0 || i < 0 || v.state == VoiceState::Finished || i >= frames {
        (v, buf)
    } else {
        let step = v.spec_next();
        let contrib0 = if channels >= 2 {
            step.1
        } else {
            (step.1 + step.2) / 2
        };
        let buf1 = buf.update(i * channels, (buf[i * channels] + contrib0) as i64);
        let buf2 = if channels >= 2 {
            buf1.update(i * channels + 1, (buf1[i * channels + 1] + step.2) as i64)
        } else {
            buf1
        };
        spec_render(step.0, buf2, channels, i + 1)
    }
}

#[via_fn]
proof fn spec_render_decreases(v: Voice, buf: Seq<i64>, channels: int, i: int) {
    let frames = if channels > 0 { buf.len() as int / channels } else { 0 };
    if !(channels <= 0 || i < 0 || v.state == VoiceState::Finished || i >= frames) {
        assert((i + 1) * channels <= frames * channels) by (nonlinear_arith)
            requires
                i + 1 <= frames,
                channels >= 1,
        ;
        assert(frames * channels <= buf.len() as int) by {
            vstd::arithmetic::div_mod::lemma_fundamental_div_mod(buf.len() as int, channels);
            vstd::arithmetic::div_mod::lemma_mod_bound(buf.len() as int, channels);
        }
        assert(i * channels + channels == (i + 1) * channels) by (nonlinear_arith);
        assert(i * channels >= 0) by (nonlinear_arith)
            requires
                i >= 0,
                channels >= 0,
        ;
        let step = v.spec_next();
        let contrib0 = if channels >= 2 {
            step.1
        } else {
            (step.1 + step.2) / 2
        };
        let buf1 = buf.update(i * channels, (buf[i * channels] + contrib0) as i64);
        let buf2 = if channels >= 2 {
            buf1.update(i * channels + 1, (buf1[i * channels + 1] + step.2) as i64)
        } else {
            buf1
        };
        assert(buf1.len() == buf.len());
        assert(buf2.len() == buf.len());
    }
}

impl Voice {
    /// Mix this voice into the interleaved output buffer, adding one
    /// output pair per frame (a one-channel buffer takes the pair's
    /// average), stopping early when the voice finishes.  Every slot
    /// moves by at most one voice contribution, and slots beyond the
    /// whole frames are untouched.
    pub fn render_into(&mut self, data: &mut Vec<i64>, channels: usize)
        requires
            old(self).wf(),
            channels >= 1,
            forall|j: int|
                0 <= j < old(data)@.len() ==> -(MIX_MAX - CONTRIB_MAX) <= #[trigger] old(
                    data,
                )@[j] <= MIX_MAX - CONTRIB_MAX,
        ensures
            final(self).wf(),
            (*final(self), final(data)@) == spec_render(*old(self), old(data)@, channels as int, 0),
            final(data)@.len() == old(data)@.len(),
            forall|j: int|
                0 <= j < old(data)@.len() ==> -CONTRIB_MAX <= #[trigger] final(data)@[j] - old(
                    data,
                )@[j] <= CONTRIB_MAX,
            final(self).sample == old(self).sample,
            final(self).note == old(self).note,
            final(self).stop_id == old(self).stop_id,
            final(self).path == old(self).path,
            final(self).gain == old(self).gain,
            final(self).is_release == old(self).is_release,
            final(self).release_path == old(self).release_path,
            final(self).state == old(self).state || final(self).state == VoiceState::Finished,
    {
        let dlen: usize = data.len();
        let frames: usize = dlen / channels;
        let mut i: usize = 0;
        while i < frames && !(self.state == VoiceState::Finished)
            invariant
                0 <= i <= frames,
                channels >= 1,
                dlen == old(data)@.len(),
                frames == old(data)@.len() as int / channels as int,
                data@.len() == old(data)@.len(),
                self.wf(),
                spec_render(*self, data@, channels as int, i as int) == spec_render(
                    *old(self),
                    old(data)@,
                    channels as int,
                    0,
                ),
                forall|j: int|
                    i as int * channels as int <= j < data@.len() ==> #[trigger] data@[j] == old(
                        data,
                    )@[j],
                forall|j: int|
                    0 <= j < data@.len() ==> -CONTRIB_MAX <= #[trigger] data@[j] - old(data)@[j]
                        <= CONTRIB_MAX,
                forall|j: int|
                    0 <= j < old(data)@.len() ==> -(MIX_MAX - CONTRIB_MAX) <= #[trigger] old(
                        data,
                    )@[j] <= MIX_MAX - CONTRIB_MAX,
                self.sample == old(self).sample,
                self.note == old(self).note,
                self.stop_id == old(self).stop_id,
                self.path == old(self).path,
                self.gain == old(self).gain,
                self.is_release == old(self).is_release,
                self.release_path == old(self).release_path,
                self.state == old(self).state || self.state == VoiceState::Finished,
            decreases frames - i,
        {
            proof {
                assert((i as int + 1) * channels as int <= frames as int * channels as int)
                    by (nonlinear_arith)
                    requires
                        i as int + 1 <= frames as int,
                        channels as int >= 1,
                ;
                assert(frames as int * channels as int <= data@.len() as int) by {
                    vstd::arithmetic::div_mod::lemma_fundamental_div_mod(
                        data@.len() as int,
                        channels as int,
                    );
                    vstd::arithmetic::div_mod::lemma_mod_bound(
                        data@.len() as int,
                        channels as int,
                    );
                    assert(frames as int == data@.len() as int / channels as int);
                }
                assert(i as int * channels as int + channels as int == (i as int + 1) * (
                channels as int)) by (nonlinear_arith);
                assert(i as int * channels as int >= 0) by (nonlinear_arith)
                    requires
                        i as int >= 0,
                        channels as int >= 0,
                ;
                assert(i as int * channels as int <= (i as int + 1) * channels as int)
                    by (nonlinear_arith)
                    requires
                        channels as int >= 0,
                ;
            }
            let out = self.next_sample();
            let base: usize = i * channels;
            if channels >= 2 {
                let v0: i64 = data[base];
                data[base] = v0 + out.0;
                let v1: i64 = data[base + 1];
                data[base + 1] = v1 + out.1;
            } else {
                // A mono output folds the stereo pair down to its average.
                proof {
                    vstd::arithmetic::div_mod::lemma_div_is_ordered(
                        -2 * CONTRIB_MAX,
                        out.0 as int + out.1 as int,
                        2,
                    );
                    vstd::arithmetic::div_mod::lemma_div_is_ordered(
                        out.0 as int + out.1 as int,
                        2 * CONTRIB_MAX,
                        2,
                    );
                    assert((-2 * CONTRIB_MAX) / 2 == -CONTRIB_MAX) by (nonlinear_arith);
                    assert((2 * CONTRIB_MAX) / 2 == CONTRIB_MAX) by (nonlinear_arith);
                }
                let avg: i64 = crate::fixed::floor_div(
                    (out.0 as i128) + (out.1 as i128),
                    2,
                ) as i64;
                let v0: i64 = data[base];
                data[base] = v0 + avg;
            }
            i = i + 1;
        }
        proof {
            assert(spec_render(*self, data@, channels as int, i as int) == (*self, data@));
        }
    }
}

/// The attack envelope stays within the Q24 unit range.
pub proof fn lemma_attack_env_bounds(s: int, att: int)
    requires
        s >= 0,
    ensures
        0 <= spec_attack_env(s, att) <= Q24_ONE,
{
    if s >= att {
    } else {
        assert(s * (Q24_ONE as int) < att * (Q24_ONE as int)) by (nonlinear_arith)
            requires
                0 <= s < att,
        ;
        crate::fixed::lemma_div_below(s * (Q24_ONE as int), Q24_ONE as int, att);
        vstd::arithmetic::div_mod::lemma_div_pos_is_pos(s * (Q24_ONE as int), att);
    }
}

/// The release envelope stays within the Q24 unit range.
pub proof fn lemma_release_env_bounds(s: int, rel: int)
    requires
        s >= 0,
    ensures
        0 <= spec_release_env(s, rel) <= Q24_ONE,
{
    if rel > 0 {
        vstd::arithmetic::div_mod::lemma_div_pos_is_pos(s * (Q24_ONE as int), rel);
    }
}

/// A later point in the attack never has a smaller envelope.
pub proof fn lemma_attack_env_monotone(s1: int, s2: int, att: int)
    requires
        0 <= s1 <= s2,
        att >= 0,
    ensures
        spec_attack_env(s1, att) <= spec_attack_env(s2, att),
{
    if s1 >= att {
    } else if s2 >= att {
        assert(s1 * (Q24_ONE as int) < att * (Q24_ONE as int)) by (nonlinear_arith)
            requires
                0 <= s1 < att,
        ;
        crate::fixed::lemma_div_below(s1 * (Q24_ONE as int), Q24_ONE as int, att);
    } else {
        assert(s1 * (Q24_ONE as int) <= s2 * (Q24_ONE as int)) by (nonlinear_arith)
            requires
                0 <= s1 <= s2,
        ;
        vstd::arithmetic::div_mod::lemma_div_is_ordered(
            s1 * (Q24_ONE as int),
            s2 * (Q24_ONE as int),
            att,
        );
    }
}

/// A later point in the release never has a larger envelope.
pub proof fn lemma_release_env_antitone(s1: int, s2: int, rel: int)
    requires
        0 <= s1 <= s2,
    ensures
        spec_release_env(s2, rel) <= spec_release_env(s1, rel),
{
    if rel > 0 {
        assert(s1 * (Q24_ONE as int) <= s2 * (Q24_ONE as int)) by (nonlinear_arith)
            requires
                0 <= s1 <= s2,
        ;
        vstd::arithmetic::div_mod::lemma_div_is_ordered(
            s1 * (Q24_ONE as int),
            s2 * (Q24_ONE as int),
            rel,
        );
        vstd::arithmetic::div_mod::lemma_div_pos_is_pos(s1 * (Q24_ONE as int), rel);
    }
}

/// Envelope monotonicity, releasing side: a step taken in
/// `Releasing`, from the envelope the release ramp dictates, never
/// raises the envelope.
pub proof fn lemma_envelope_release_step(v: Voice)
    requires
        v.wf(),
        v.state == VoiceState::Releasing,
        v.envelope as int == spec_release_env(
            v.samples_since_release as int,
            v.release_samples as int,
        ),
    ensures
        v.spec_next().0.envelope <= v.envelope,
{
    let step = v.spec_next();
    let len = (*v.sample).spec_len();
    let pos_frame = v.position as int / (Q32_ONE as int);
    if (*v.sample).loop_point is None && pos_frame >= len {
    } else {
        lemma_release_env_antitone(
            v.samples_since_release as int,
            spec_inc1(v.samples_since_release),
            v.release_samples as int,
        );
        lemma_release_env_bounds(spec_inc1(v.samples_since_release), v.release_samples as int);
    }
}

/// Envelope monotonicity, attacking side: a step taken in `Playing`,
/// from an envelope at or below the attack ramp, never lowers the
/// envelope below where it was.
pub proof fn lemma_envelope_attack_step(v: Voice)
    requires
        v.wf(),
        v.state == VoiceState::Playing,
        v.envelope as int <= spec_attack_env(
            v.samples_since_start as int,
            v.attack_samples as int,
        ),
    ensures
        v.spec_next().0.envelope >= v.envelope || v.spec_next().0.state == VoiceState::Finished,
{
    let len = (*v.sample).spec_len();
    let pos_frame = v.position as int / (Q32_ONE as int);
    if (*v.sample).loop_point is None && pos_frame >= len {
    } else {
        let sss2: int = if v.samples_since_start < v.attack_samples {
            v.samples_since_start + 1
        } else {
            v.samples_since_start as int
        };
        lemma_attack_env_monotone(
            v.samples_since_start as int,
            sss2,
            v.attack_samples as int,
        );
        lemma_attack_env_bounds(sss2, v.attack_samples as int);
    }
}

/// At a unit increment with no loop region, each step that plays
/// advances the position by exactly one frame.
pub proof fn lemma_unit_increment_step(v: Voice)
    requires
        v.wf(),
        v.increment == Q32_ONE,
        (*v.sample).loop_point is None,
        v.state != VoiceState::Finished,
        (*v.sample).spec_len() <= 0xFFFF_FFFF,
        v.position as int / (Q32_ONE as int) < (*v.sample).spec_len(),
    ensures
        v.spec_next().0.position == v.position + Q32_ONE,
        v.spec_next().0.state != VoiceState::Finished || v.state == VoiceState::Releasing,
{
    let pos = v.position as int;
    let len = (*v.sample).spec_len();
    assert(pos < len * (Q32_ONE as int)) by {
        vstd::arithmetic::div_mod::lemma_fundamental_div_mod(pos, Q32_ONE as int);
        vstd::arithmetic::div_mod::lemma_mod_bound(pos, Q32_ONE as int);
        assert((pos / (Q32_ONE as int) + 1) * (Q32_ONE as int) <= len * (Q32_ONE as int))
            by (nonlinear_arith)
            requires
                pos / (Q32_ONE as int) + 1 <= len,
                Q32_ONE as int > 0,
        ;
        assert((pos / (Q32_ONE as int) + 1) * (Q32_ONE as int) == pos / (Q32_ONE as int) * (
        Q32_ONE as int) + (Q32_ONE as int)) by (nonlinear_arith);
    }
    assert(len * (Q32_ONE as int) <= 0xFFFF_FFFF * (Q32_ONE as int)) by (nonlinear_arith)
        requires
            len <= 0xFFFF_FFFF,
    ;
}

/// A voice past the end of its unlooped sample finishes on its next
/// step and emits silence.
pub proof fn lemma_end_of_sample_finishes(v: Voice)
    requires
        v.wf(),
        (*v.sample).loop_point is None,
        v.state != VoiceState::Finished,
        v.position as int / (Q32_ONE as int) >= (*v.sample).spec_len(),
    ensures
        v.spec_next().0.state == VoiceState::Finished,
        v.spec_next().1 == 0,
        v.spec_next().2 == 0,
{
}


/// Whether a character is an ASCII digit.
pub open spec fn spec_is_digit(c: char) -> bool {
    48 <= c as u32 <= 57
}

/// Backward scan for three consecutive digits ending at `i` whose
/// value is a MIDI note number (below 128).
pub open spec fn spec_root_scan(s: Seq<char>, i: int) -> Option<u32>
    decreases i,
{
    if i < 2 || i >= s.len() {
        None
    } else if spec_is_digit(s[i]) && spec_is_digit(s[i - 1]) && spec_is_digit(s[i - 2]) && (s[i
        - 2] as u32 - 48) * 100 + (s[i - 1] as u32 - 48) * 10 + (s[i] as u32 - 48) < 128 {
        Some(((s[i - 2] as u32 - 48) * 100 + (s[i - 1] as u32 - 48) * 10 + (s[i] as u32 - 48)) as u32)
    } else {
        spec_root_scan(s, i - 1)
    }
}

/// The root note a sample path suggests: the last run of three
/// digits that reads as a MIDI note number.
pub open spec fn spec_parse_root(s: Seq<char>) -> Option<u32> {
    spec_root_scan(s, s.len() - 1)
}

/// Read a root note out of a sample's file name: scanning backward,
/// the first three consecutive digits that read as a MIDI note
/// number (below 128).  Some sample sets encode the true root in the
/// file name when the `smpl` metadata is off; callers wanting that
/// correction apply this before building the voice.
pub fn parse_root_from_path(path: &str) -> (r: Option<u32>)
    ensures
        r == spec_parse_root(path@),
{
    let n: usize = path.unicode_len();
    if n < 3 {
        return None;
    }
    let mut i: usize = n - 1;
    while i >= 2
        invariant
            2 <= i <= n - 1 || i == 1,
            n == path@.len(),
            n >= 3,
            spec_root_scan(path@, i as int) == spec_parse_root(path@),
        decreases i,
    {
        let c2: char = path.get_char(i);
        let c1: char = path.get_char(i - 1);
        let c0: char = path.get_char(i - 2);
        let d2: u32 = c2 as u32;
        let d1: u32 = c1 as u32;
        let d0: u32 = c0 as u32;
        if 48 <= d2 && d2 <= 57 && 48 <= d1 && d1 <= 57 && 48 <= d0 && d0 <= 57 {
            let val: u32 = (d0 - 48) * 100 + (d1 - 48) * 10 + (d2 - 48);
            if val < 128 {
                return Some(val);
            }
        }
        i = i - 1;
    }
    None
}


/// The voice after `k` calls of `next_sample`.
pub open spec fn spec_steps(v: Voice, k: nat) -> Voice
    decreases k,
{
    if k == 0 {
        v
    } else {
        spec_steps(v, (k - 1) as nat).spec_next().0
    }
}

/// While a playing, unlooped voice at unit increment has frames left,
/// each call moves it forward exactly one frame and it stays playing:
/// after `k` calls the position has grown by `k` whole frames.
pub proof fn lemma_unit_increment_run(v: Voice, k: nat)
    requires
        v.wf(),
        v.increment == Q32_ONE,
        (*v.sample).loop_point is None,
        v.state == VoiceState::Playing,
        (*v.sample).spec_len() <= 0xFFFF_FFFF,
        v.position as int / (Q32_ONE as int) + k <= (*v.sample).spec_len(),
    ensures
        spec_steps(v, k).position == v.position + k * (Q32_ONE as int),
        spec_steps(v, k).state == VoiceState::Playing,
        spec_steps(v, k).sample == v.sample,
        spec_steps(v, k).increment == v.increment,
        spec_steps(v, k).wf(),
        spec_steps(v, k).position as int / (Q32_ONE as int) == v.position as int / (
        Q32_ONE as int) + k,
    decreases k,
{
    let p0 = v.position as int;
    let q = Q32_ONE as int;
    let len = (*v.sample).spec_len();
    vstd::arithmetic::div_mod::lemma_fundamental_div_mod(p0, q);
    vstd::arithmetic::div_mod::lemma_mod_bound(p0, q);
    if k == 0 {
    } else {
        lemma_unit_increment_run(v, (k - 1) as nat);
        let w = spec_steps(v, (k - 1) as nat);
        // After k - 1 steps the voice still has a frame to play.
        assert(w.position == p0 + (k - 1) * q);
        assert((k - 1) * q + q == k * q) by (nonlinear_arith);
        vstd::arithmetic::div_mod::lemma_div_multiples_vanish_fancy(k - 1, p0 % q, q);
        assert(((k - 1) * q + p0 % q) / q == k - 1);
        assert(w.position as int == p0 / q * q + ((k - 1) * q + p0 % q)) by (nonlinear_arith)
            requires
                w.position as int == p0 + (k - 1) * q,
                p0 == q * (p0 / q) + p0 % q,
        ;
        vstd::arithmetic::div_mod::lemma_div_multiples_vanish_quotient(q, p0 / q, q);
        lemma_offset_div(p0 / q, (k - 1) * q + p0 % q, q);
        assert(w.position as int / q == p0 / q + (k - 1));
        assert(w.position as int / q < len);
        assert(w.wf());
        lemma_unit_increment_step(w);
        let w2 = spec_steps(v, k);
        assert(w2 == w.spec_next().0);
        assert(w2.position == w.position + q);
        // The playing state persists: the step neither finished (it
        // had frames left) nor released.
        assert(w2.state == VoiceState::Playing);
        let sss2: int = if w.samples_since_start < w.attack_samples {
            w.samples_since_start + 1
        } else {
            w.samples_since_start as int
        };
        lemma_attack_env_bounds(sss2, w.attack_samples as int);
        assert(w2.wf());
        vstd::arithmetic::div_mod::lemma_div_multiples_vanish_fancy(k as int, p0 % q, q);
        assert(w2.position as int == p0 / q * q + (k * q + p0 % q)) by (nonlinear_arith)
            requires
                w2.position as int == p0 + k * q,
                p0 == q * (p0 / q) + p0 % q,
        ;
        lemma_offset_div(p0 / q, k * q + p0 % q, q);
    }
}

/// `(a * d + r) / d == a + r / d` for a positive divisor.
proof fn lemma_offset_div(a: int, r: int, d: int)
    requires
        d > 0,
        r >= 0,
    ensures
        (a * d + r) / d == a + r / d,
{
    vstd::arithmetic::div_mod::lemma_fundamental_div_mod(r, d);
    vstd::arithmetic::div_mod::lemma_mod_bound(r, d);
    assert(a * d + r == (a + r / d) * d + r % d) by (nonlinear_arith)
        requires
            r == d * (r / d) + r % d,
    ;
    vstd::arithmetic::div_mod::lemma_fundamental_div_mod_converse(
        a * d + r,
        d,
        a + r / d,
        r % d,
    );
}

/// The whole of the unit-increment law: a playing, unlooped voice at
/// unit increment emits exactly `len - floor(start)` frames - one per
/// call - and the call after that finds the end and finishes it.
pub proof fn lemma_unit_increment_total(v: Voice)
    requires
        v.wf(),
        v.increment == Q32_ONE,
        (*v.sample).loop_point is None,
        v.state == VoiceState::Playing,
        (*v.sample).spec_len() <= 0xFFFF_FFFF,
        v.position as int / (Q32_ONE as int) <= (*v.sample).spec_len(),
    ensures
        ({
            let n = ((*v.sample).spec_len() - v.position as int / (Q32_ONE as int)) as nat;
            &&& forall|k: nat|
                k <= n ==> (#[trigger] spec_steps(v, k)).state == VoiceState::Playing
            &&& spec_steps(v, (n + 1) as nat).state == VoiceState::Finished
        }),
{
    let n = ((*v.sample).spec_len() - v.position as int / (Q32_ONE as int)) as nat;
    assert forall|k: nat| k <= n implies (#[trigger] spec_steps(v, k)).state
        == VoiceState::Playing by {
        lemma_unit_increment_run(v, k);
    }
    lemma_unit_increment_run(v, n);
    let w = spec_steps(v, n);
    assert(w.position as int / (Q32_ONE as int) == (*v.sample).spec_len());
    lemma_end_of_sample_finishes(w);
    assert(spec_steps(v, (n + 1) as nat) == w.spec_next().0);
}

} // verus!
