//! The audio engine: drains typed commands, keeps the voice set, and
//! renders mixed blocks.
//!
//! The host's callback loop lives outside the engine; each callback
//! hands the commands drained from the channel to `process_block`,
//! which runs the phases in order: commands, partial-to-full sample
//! swap, render, cleanup, and the periodic report counter.

use vstd::prelude::*;
use vstd::string::StringExecFns;
use crate::bytes::ByteSource;
use crate::sample::Sample;
use crate::store::{
    Sampler, spec_key, spec_load_skip, spec_format_ok, spec_region_ok, spec_loaded_sample,
};
use crate::wav::spec_parse_wav;
use crate::voice::{Voice, VoiceState, spec_ms_samples, spec_voice_ratio, spec_render};
use crate::wav::WavError;
use crate::fixed::{Q24_ONE, MAX_VOICES, CONTRIB_MAX, MIX_MAX, spec_scale_master, scale_master_q24};

verus! {

/// One command for the audio engine, as the controller protocol
/// carries it.  Gains are Q24 linear; pitch offsets are millicents.
/// Loading a sample needs the file's bytes, so it arrives through
/// `AudioEngine::load_sample` rather than as a variant here.
pub enum EngineCommand {
    UnloadSample { stop_id: String, path: String },
    NoteOn {
        note: u8,
        stop_id: String,
        path: String,
        release_path: Option<String>,
        gain: u32,
        pitch_offset_mc: i64,
    },
    NoteOff { note: u8, stop_id: String },
    SetGlobalGain(u32),
    SetReleaseMode(String),
    SetLoadingMode(String),
}

/// Frames between periodic reports: about five seconds at 48 kHz.
pub const REPORT_FRAMES: u64 = 240_000;

/// The engine's state: the store, the sounding voices, and the
/// block-local configuration.
pub struct AudioEngine {
    pub sampler: Sampler,
    pub voices: Vec<Voice>,
    pub pending: Vec<Voice>,
    pub global_gain: u32,
    pub release_mode_authentic: bool,
    pub loading_mode_none: bool,
    pub sample_rate: u32,
    pub channels: usize,
    pub frames_since_report: u64,
}

/// How a note-on touches an existing voice: any live voice on the
/// same key is sent into a ten-millisecond fade.
pub open spec fn spec_fade_voice(v: Voice, note: u8, stop: Seq<char>, fade: int) -> Voice {
    if v.note == note && v.stop_id@ == stop && v.state != VoiceState::Finished {
        Voice {
            release_samples: fade as u64,
            state: VoiceState::Releasing,
            samples_since_release: 0,
            ..v
        }
    } else {
        v
    }
}

/// How a note-off touches an existing voice: a sounding primary
/// voice on the key begins its release, over a crossfade when an
/// authentic release sample will take over, else over the plain
/// release time.
pub open spec fn spec_note_off_voice(
    v: Voice,
    note: u8,
    stop: Seq<char>,
    is_auth: bool,
    fade_auth: int,
    fade_plain: int,
) -> Voice {
    if v.note == note && v.stop_id@ == stop && v.state == VoiceState::Playing && !v.is_release {
        if is_auth && v.release_path is Some {
            Voice { release_samples: fade_auth as u64, state: VoiceState::Releasing, ..v }
        } else {
            Voice { release_samples: fade_plain as u64, state: VoiceState::Releasing, ..v }
        }
    } else {
        v
    }
}

impl AudioEngine {
    /// The voices now sounding.
    pub open spec fn spec_voices(&self) -> Seq<Voice> {
        self.voices@
    }

    /// Release voices spawned this block, waiting to be appended.
    pub open spec fn spec_pending(&self) -> Seq<Voice> {
        self.pending@
    }

    /// The master gain, Q24 linear.
    pub open spec fn spec_global_gain(&self) -> u32 {
        self.global_gain
    }

    /// Whether note-offs spawn authentic release voices.
    pub open spec fn spec_release_authentic(&self) -> bool {
        self.release_mode_authentic
    }

    /// Whether samples are unloaded as soon as their voices end.
    pub open spec fn spec_loading_none(&self) -> bool {
        self.loading_mode_none
    }

    /// The output sample rate.
    pub open spec fn spec_sample_rate(&self) -> u32 {
        self.sample_rate
    }

    /// The output channel count.
    pub open spec fn spec_channels(&self) -> int {
        self.channels as int
    }

    /// Frames accumulated toward the next periodic report.
    pub open spec fn spec_frames_since_report(&self) -> u64 {
        self.frames_since_report
    }

    /// The engine is well formed: sane output format, a well-formed
    /// store, and well-formed voices within the polyphony cap.
    pub open spec fn wf(&self) -> bool {
        &&& self.spec_sample_rate() >= 1
        &&& self.spec_channels() >= 1
        &&& self.sampler.wf()
        &&& self.spec_voices().len() <= MAX_VOICES
        &&& forall|i: int|
            0 <= i < self.spec_voices().len() ==> (#[trigger] self.spec_voices()[i]).wf()
        &&& self.spec_pending().len() <= MAX_VOICES
        &&& forall|i: int|
            0 <= i < self.spec_pending().len() ==> (#[trigger] self.spec_pending()[i]).wf()
    }

    /// A fresh engine over `sampler`, with unit master gain,
    /// authentic releases and eager unloading.
    pub fn new(sampler: Sampler, sample_rate: u32, channels: usize) -> (e: AudioEngine)
        requires
            sampler.wf(),
            sample_rate >= 1,
            channels >= 1,
        ensures
            e.wf(),
            e.sampler == sampler,
            e.spec_voices().len() == 0,
            e.spec_pending().len() == 0,
            e.spec_global_gain() == Q24_ONE,
            e.spec_release_authentic(),
            e.spec_loading_none(),
            e.spec_sample_rate() == sample_rate,
            e.spec_channels() == channels as int,
            e.spec_frames_since_report() == 0,
    {
        AudioEngine {
            sampler,
            voices: Vec::new(),
            pending: Vec::new(),
            global_gain: Q24_ONE,
            release_mode_authentic: true,
            loading_mode_none: true,
            sample_rate,
            channels,
            frames_since_report: 0,
        }
    }

    /// Forward a load to the store (the caller reads the file): the
    /// store's contract carries over, and nothing else of the engine
    /// moves.
    pub fn load_sample(
        &mut self,
        stop_id: String,
        path: String,
        source: ByteSource,
        max_duration_ms: Option<u64>,
    ) -> (r: Result<(), WavError>)
        requires
            old(self).wf(),
        ensures
            final(self).wf(),
            *final(self) == (AudioEngine { sampler: final(self).sampler, ..*old(self) }),
            ({
                let key = spec_key(stop_id@, path@);
                let prior = old(self).sampler.spec_find(key);
                if spec_load_skip(prior, max_duration_ms) {
                    r is Ok && forall|k: Seq<char>| #[trigger]
                        final(self).sampler.spec_find(k) == old(self).sampler.spec_find(k)
                } else {
                    match spec_parse_wav(source@) {
                        Err(e) => r == Err::<(), WavError>(e) && forall|k: Seq<char>| #[trigger]
                            final(self).sampler.spec_find(k) == old(self).sampler.spec_find(k),
                        Ok(m) => {
                            if !spec_format_ok(m) {
                                r == Err::<(), WavError>(WavError::UnsupportedFormat) && forall|
                                    k: Seq<char>,
                                | #[trigger] final(self).sampler.spec_find(k) == old(
                                    self,
                                ).sampler.spec_find(k)
                            } else if !spec_region_ok(m, max_duration_ms, source@.len() as int) {
                                r == Err::<(), WavError>(WavError::Truncated) && forall|
                                    k: Seq<char>,
                                | #[trigger] final(self).sampler.spec_find(k) == old(
                                    self,
                                ).sampler.spec_find(k)
                            } else {
                                &&& r is Ok
                                &&& forall|k: Seq<char>|
                                    k != key ==> #[trigger] final(self).sampler.spec_find(k)
                                        == old(self).sampler.spec_find(k)
                                &&& final(self).sampler.spec_find(key) is Some
                                &&& spec_loaded_sample(
                                    final(self).sampler.spec_find(key).unwrap(),
                                    m,
                                    source@,
                                    stop_id@,
                                    max_duration_ms,
                                )
                            }
                        },
                    }
                }
            }),
    {
        self.sampler.load_sample(stop_id, path, source, max_duration_ms)
    }

    /// Set the master gain (Q24 linear).
    pub fn set_global_gain(&mut self, gain: u32)
        requires
            old(self).wf(),
        ensures
            final(self).wf(),
            *final(self) == (AudioEngine { global_gain: gain, ..*old(self) }),
    {
        self.global_gain = gain;
    }

    /// Set the release mode: `"authentic"` enables release samples,
    /// anything else falls back to the synthetic envelope fade.
    pub fn set_release_mode(&mut self, mode: String)
        requires
            old(self).wf(),
        ensures
            final(self).wf(),
            *final(self) == (AudioEngine {
                release_mode_authentic: (mode@ == "authentic"@),
                ..*old(self)
            }),
    {
        let authentic_word: String = String::from_str("authentic");
        self.release_mode_authentic = mode == authentic_word;
    }

    /// Set the loading mode: `"none"` unloads samples as soon as
    /// their voices end, anything else keeps them cached.
    pub fn set_loading_mode(&mut self, mode: String)
        requires
            old(self).wf(),
        ensures
            final(self).wf(),
            *final(self) == (AudioEngine {
                loading_mode_none: (mode@ == "none"@),
                ..*old(self)
            }),
    {
        let none_word: String = String::from_str("none");
        self.loading_mode_none = mode == none_word;
    }

    /// Drop a sample from the store; in-flight voices keep theirs.
    pub fn unload_sample(&mut self, stop_id: &str, path: &str)
        requires
            old(self).wf(),
        ensures
            final(self).wf(),
            spec_unload_applied(*old(self), *final(self), stop_id@, path@),
    {
        self.sampler.unload_sample(stop_id, path);
    }

    /// Count a rendered block toward the periodic report; returns
    /// true about every five seconds of audio, resetting the counter.
    pub fn note_frames_rendered(&mut self, frames: u64) -> (report: bool)
        requires
            old(self).wf(),
        ensures
            final(self).wf(),
            report == (old(self).spec_frames_since_report() + frames >= REPORT_FRAMES),
            final(self).spec_frames_since_report() == if report {
                0
            } else {
                old(self).spec_frames_since_report() + frames
            },
            *final(self) == (AudioEngine {
                frames_since_report: final(self).spec_frames_since_report() as u64,
                ..*old(self)
            }),
    {
        let total: u64 = self.frames_since_report.saturating_add(frames);
        proof {
            assert(old(self).spec_frames_since_report() + frames >= REPORT_FRAMES ==> total
                >= REPORT_FRAMES);
        }
        if total >= REPORT_FRAMES {
            self.frames_since_report = 0;
            true
        } else {
            self.frames_since_report = total;
            false
        }
    }

    /// Start a voice for `(note, stop_id, path)`: every live voice
    /// already on that key is cut to a ten-millisecond fade, and, if
    /// the sample is loaded and the polyphony cap leaves room, a new
    /// playing voice is appended with a five-millisecond attack and a
    /// 200 ms release time.
    pub fn note_on(
        &mut self,
        note: u8,
        stop_id: String,
        path: String,
        release_path: Option<String>,
        gain: u32,
        pitch_offset_mc: i64,
    ) -> (started: bool)
        requires
            old(self).wf(),
        ensures
            final(self).wf(),
            started == (old(self).sampler.spec_find(spec_key(stop_id@, path@)) is Some && old(
                self,
            ).spec_voices().len() < MAX_VOICES),
            spec_note_on_applied(
                *old(self),
                *final(self),
                note,
                stop_id@,
                path,
                release_path,
                gain,
                pitch_offset_mc,
            ),
    {
        let fade: u64 = crate::voice::ms_samples(self.sample_rate, 10);
        let n = self.voices.len();
        let mut i: usize = 0;
        while i < n
            invariant
                0 <= i <= n,
                n == self.voices@.len(),
                self.sample_rate == old(self).spec_sample_rate(),
                fade == spec_ms_samples(old(self).spec_sample_rate(), 10),
                self.voices@.len() == old(self).voices@.len(),
                forall|j: int|
                    0 <= j < i as int ==> #[trigger] self.voices@[j] == spec_fade_voice(
                        old(self).voices@[j],
                        note,
                        stop_id@,
                        fade as int,
                    ),
                forall|j: int| i as int <= j < n ==> self.voices@[j] == old(self).voices@[j],
                self.sampler == old(self).sampler,
                self.pending == old(self).pending,
                self.global_gain == old(self).global_gain,
                self.release_mode_authentic == old(self).release_mode_authentic,
                self.loading_mode_none == old(self).loading_mode_none,
                self.sample_rate == old(self).sample_rate,
                self.channels == old(self).channels,
                self.frames_since_report == old(self).frames_since_report,
                old(self).wf(),
                forall|j: int|
                    0 <= j < self.voices@.len() ==> (#[trigger] self.voices@[j]).wf(),
            decreases n - i,
        {
            if self.voices[i].is_note(note, stop_id.as_str()) {
                if !(self.voices[i].state == VoiceState::Finished) {
                    self.voices[i].release_samples = fade;
                    self.voices[i].state = VoiceState::Releasing;
                    self.voices[i].samples_since_release = 0;
                }
            }
            i = i + 1;
        }
        match self.sampler.get_sample(stop_id.as_str(), path.as_str()) {
            Some(sample) => {
                if self.voices.len() < MAX_VOICES {
                    let voice = Voice::new(
                        sample,
                        path,
                        note,
                        self.sample_rate,
                        gain,
                        release_path,
                        5,
                        200,
                        None,
                        pitch_offset_mc,
                        false,
                    );
                    self.voices.push(voice);
                    true
                } else {
                    false
                }
            },
            None => false,
        }
    }
}


/// How the partial-to-full swap leaves one voice: untouched unless it
/// held a partial sample and the store now has a full one under its
/// key, in which case only the handle and the increment change and
/// the position and pitch are kept.
pub open spec fn spec_swapped_voice(old_e: AudioEngine, ov: Voice, nv: Voice) -> bool {
    if !(*ov.sample).is_full && (match old_e.sampler.spec_find(spec_key(ov.stop_id@, ov.path@)) {
        Some(f) => f.is_full,
        None => false,
    }) {
        &&& old_e.sampler.spec_find(spec_key(ov.stop_id@, ov.path@)) == Some(*nv.sample)
        &&& nv.position == ov.position
        &&& nv.pitch_ratio == ov.pitch_ratio
        &&& nv.increment == crate::fixed::spec_increment(
            (*nv.sample).sample_rate,
            ov.pitch_ratio,
            old_e.spec_sample_rate(),
        )
        &&& nv == (Voice { sample: nv.sample, increment: nv.increment, ..ov })
    } else {
        nv == ov
    }
}

/// The effect of an unload command: exactly the key leaves the
/// mapping and nothing else of the engine moves.
pub open spec fn spec_unload_applied(
    pre: AudioEngine,
    post: AudioEngine,
    stop: Seq<char>,
    path: Seq<char>,
) -> bool {
    &&& post == (AudioEngine { sampler: post.sampler, ..pre })
    &&& post.sampler.spec_find(spec_key(stop, path)) is None
    &&& forall|k: Seq<char>|
        k != spec_key(stop, path) ==> #[trigger] post.sampler.spec_find(k) == pre.sampler.spec_find(
            k,
        )
}

/// The effect of a note-on: every live voice on the key fades over
/// ten milliseconds, and when the sample is loaded and the polyphony
/// cap leaves room, exactly one new playing voice is appended.
pub open spec fn spec_note_on_applied(
    pre: AudioEngine,
    post: AudioEngine,
    note: u8,
    stop: Seq<char>,
    path: String,
    release_path: Option<String>,
    gain: u32,
    pitch_offset_mc: i64,
) -> bool {
    let key = spec_key(stop, path@);
    let started = pre.sampler.spec_find(key) is Some && pre.spec_voices().len() < MAX_VOICES;
    let fade = spec_ms_samples(pre.spec_sample_rate(), 10);
    &&& post == (AudioEngine { voices: post.voices, ..pre })
    &&& post.spec_voices().len() == pre.spec_voices().len() + (if started {
        1int
    } else {
        0int
    })
    &&& forall|i: int|
        0 <= i < pre.spec_voices().len() ==> #[trigger] post.spec_voices()[i] == spec_fade_voice(
            pre.spec_voices()[i],
            note,
            stop,
            fade,
        )
    &&& started ==> ({
        let nv = post.spec_voices().last();
        &&& nv.note == note
        &&& nv.stop_id@ == (*nv.sample).stop_id@
        &&& nv.path == path
        &&& nv.release_path == release_path
        &&& nv.state == VoiceState::Playing
        &&& nv.envelope == 0
        &&& nv.position == 0
        &&& nv.gain == gain
        &&& !nv.is_release
        &&& pre.sampler.spec_find(key) == Some(*nv.sample)
        &&& nv.pitch_ratio == spec_voice_ratio(*nv.sample, note, None, pitch_offset_mc as int)
        &&& nv.attack_samples == spec_ms_samples(pre.spec_sample_rate(), 5)
        &&& nv.release_samples == spec_ms_samples(pre.spec_sample_rate(), 200)
    })
    &&& forall|i: int|
        0 <= i < pre.spec_voices().len() && (pre.spec_voices()[i].note == note
            && pre.spec_voices()[i].stop_id@ == stop) ==> (#[trigger] post.spec_voices()[i]).state
            != VoiceState::Playing
}

/// The effect of the swap-and-append phase: every voice that held a
/// partial sample moves to the store's full one with position and
/// pitch kept, the queued release voices are appended up to the
/// polyphony cap, and the queue empties.
pub open spec fn spec_swap_applied(pre: AudioEngine, post: AudioEngine) -> bool {
    &&& post == (AudioEngine { voices: post.voices, pending: post.pending, ..pre })
    &&& post.spec_pending().len() == 0
    &&& post.spec_voices().len() == pre.spec_voices().len() + (if pre.spec_voices().len()
        + pre.spec_pending().len() <= MAX_VOICES {
        pre.spec_pending().len() as int
    } else {
        MAX_VOICES - pre.spec_voices().len()
    })
    &&& forall|i: int|
        0 <= i < pre.spec_voices().len() ==> spec_swapped_voice(
            pre,
            pre.spec_voices()[i],
            #[trigger] post.spec_voices()[i],
        )
    &&& forall|j: int|
        pre.spec_voices().len() <= j < post.spec_voices().len()
            ==> #[trigger] post.spec_voices()[j] == pre.spec_pending()[j - pre.spec_voices().len()]
}

/// The effect of the render phase: the buffer becomes the mix of all
/// voices over silence, scaled by the master gain when it is not
/// unity, and the voices step accordingly.
pub open spec fn spec_render_applied(
    pre: AudioEngine,
    post: AudioEngine,
    buf_pre: Seq<i64>,
    buf_post: Seq<i64>,
) -> bool {
    let mixed = spec_mix(
        pre.spec_voices(),
        Seq::new(buf_pre.len(), |j: int| 0i64),
        pre.spec_channels(),
        0,
    );
    &&& post == (AudioEngine { voices: post.voices, ..pre })
    &&& post.spec_voices() == mixed.0
    &&& buf_post.len() == buf_pre.len()
    &&& if pre.spec_global_gain() == Q24_ONE {
        buf_post == mixed.1
    } else {
        forall|j: int|
            0 <= j < mixed.1.len() ==> #[trigger] buf_post[j] == spec_scale_master(
                mixed.1[j] as int,
                pre.spec_global_gain(),
            )
    }
}

/// Whether the cleanup phase removes key `k` from the store: under
/// eager loading, exactly the keys of finished voices leave.
pub open spec fn spec_cleanup_unloads(pre: AudioEngine, k: Seq<char>) -> bool {
    pre.spec_loading_none() && exists|i: int|
        0 <= i < pre.spec_voices().len() && (#[trigger] pre.spec_voices()[i]).state
            == VoiceState::Finished && k == spec_key(
            pre.spec_voices()[i].stop_id@,
            pre.spec_voices()[i].path@,
        )
}

/// The effect of the cleanup phase: finished voices are retired in
/// order, and under eager loading their primary samples leave the
/// store - those and no others.
pub open spec fn spec_cleanup_applied(pre: AudioEngine, post: AudioEngine) -> bool {
    &&& post == (AudioEngine { voices: post.voices, sampler: post.sampler, ..pre })
    &&& post.spec_voices() == spec_live(pre.spec_voices())
    &&& forall|k: Seq<char>|
        #[trigger] post.sampler.spec_find(k) == if spec_cleanup_unloads(pre, k) {
            None::<Sample>
        } else {
            pre.sampler.spec_find(k)
        }
}

/// A sounding primary voice on the key, as a note-off matches them.
pub open spec fn spec_note_off_matches(v: Voice, note: u8, stop: Seq<char>) -> bool {
    v.note == note && v.stop_id@ == stop && v.state == VoiceState::Playing && !v.is_release
}

/// Whether a note-off spawns a release voice for voice `i`: the
/// voice matches, authentic mode is on, it carries a release path,
/// and the store holds that sample.
pub open spec fn spec_spawns_release(pre: AudioEngine, note: u8, stop: Seq<char>, i: int) -> bool {
    let v = pre.spec_voices()[i];
    &&& spec_note_off_matches(v, note, stop)
    &&& pre.spec_release_authentic()
    &&& v.release_path is Some
    &&& pre.sampler.spec_find(spec_key(stop, v.release_path.unwrap()@)) is Some
}

/// How many of the first `i` voices spawn a release voice.
pub open spec fn spec_spawn_count(pre: AudioEngine, note: u8, stop: Seq<char>, i: int) -> int
    decreases i,
{
    if i <= 0 {
        0
    } else {
        spec_spawn_count(pre, note, stop, i - 1) + if spec_spawns_release(pre, note, stop, i - 1) {
            1int
        } else {
            0int
        }
    }
}

/// How many of the first `i` voices a note-off matches.
pub open spec fn spec_match_count(pre: AudioEngine, note: u8, stop: Seq<char>, i: int) -> int
    decreases i,
{
    if i <= 0 {
        0
    } else {
        spec_match_count(pre, note, stop, i - 1) + if spec_note_off_matches(
            pre.spec_voices()[i - 1],
            note,
            stop,
        ) {
            1int
        } else {
            0int
        }
    }
}

/// Whether a note-off removes key `k` from the store: under eager
/// loading, exactly the matched primaries' keys leave.
pub open spec fn spec_note_off_unloads(
    pre: AudioEngine,
    note: u8,
    stop: Seq<char>,
    k: Seq<char>,
) -> bool {
    pre.spec_loading_none() && exists|i: int|
        0 <= i < pre.spec_voices().len() && spec_note_off_matches(
            #[trigger] pre.spec_voices()[i],
            note,
            stop,
        ) && k == spec_key(stop, pre.spec_voices()[i].path@)
}

/// What the release voice queued for the primary at `i` must be: a
/// playing release voice on the release path, inheriting the
/// primary's exact pitch ratio, gain and offset, with a 50 ms attack
/// for the crossfade.
pub open spec fn spec_release_voice_for(
    pre: AudioEngine,
    note: u8,
    stop: Seq<char>,
    i: int,
    rv: Voice,
) -> bool {
    let pv = pre.spec_voices()[i];
    let rp = pv.release_path.unwrap();
    &&& rv.is_release
    &&& rv.state == VoiceState::Playing
    &&& rv.note == note
    &&& rv.envelope == 0
    &&& rv.position == 0
    &&& rv.attack_samples == spec_ms_samples(pre.spec_sample_rate(), 50)
    &&& rv.release_samples == spec_ms_samples(pre.spec_sample_rate(), 200)
    &&& rv.pitch_ratio == pv.pitch_ratio
    &&& rv.gain == pv.gain
    &&& rv.pitch_offset_mc == pv.pitch_offset_mc
    &&& rv.path@ == rp@
    &&& rv.release_path is None
    &&& pre.sampler.spec_find(spec_key(stop, rp@)) == Some(*rv.sample)
    &&& rv.stop_id@ == (*rv.sample).stop_id@
}

/// The effect of a note-off: every matched primary begins its
/// release; in authentic mode, exactly one release voice per matched
/// primary with a loaded release sample is queued, in voice order,
/// as far as the queue cap allows; under eager loading exactly the
/// matched primaries' samples leave the store.
pub open spec fn spec_note_off_applied(
    pre: AudioEngine,
    post: AudioEngine,
    note: u8,
    stop: Seq<char>,
) -> bool {
    let n = pre.spec_voices().len() as int;
    let fade_auth = spec_ms_samples(pre.spec_sample_rate(), 50);
    let fade_plain = spec_ms_samples(pre.spec_sample_rate(), 200);
    let spawned = spec_spawn_count(pre, note, stop, n);
    &&& post == (AudioEngine {
        voices: post.voices,
        pending: post.pending,
        sampler: post.sampler,
        ..pre
    })
    &&& post.spec_voices().len() == n
    &&& forall|i: int|
        0 <= i < n ==> #[trigger] post.spec_voices()[i] == spec_note_off_voice(
            pre.spec_voices()[i],
            note,
            stop,
            pre.spec_release_authentic(),
            fade_auth,
            fade_plain,
        )
    &&& post.spec_pending().len() == (if pre.spec_pending().len() + spawned <= MAX_VOICES {
        pre.spec_pending().len() + spawned
    } else {
        MAX_VOICES as int
    })
    &&& forall|j: int|
        0 <= j < pre.spec_pending().len() ==> #[trigger] post.spec_pending()[j]
            == pre.spec_pending()[j]
    &&& forall|i: int|
        0 <= i < n && spec_spawns_release(pre, note, stop, i) && pre.spec_pending().len()
            + spec_spawn_count(pre, note, stop, i) < MAX_VOICES ==> spec_release_voice_for(
            pre,
            note,
            stop,
            i,
            #[trigger] post.spec_pending()[pre.spec_pending().len() + spec_spawn_count(
                pre,
                note,
                stop,
                i,
            )],
        )
    &&& forall|k: Seq<char>|
        #[trigger] post.sampler.spec_find(k) == (if spec_note_off_unloads(pre, note, stop, k) {
            None::<Sample>
        } else {
            pre.sampler.spec_find(k)
        })
}

/// Counting spawned release voices never decreases along the prefix.
proof fn lemma_spawn_count_monotone(pre: AudioEngine, note: u8, stop: Seq<char>, a: int, b: int)
    requires
        a <= b,
    ensures
        spec_spawn_count(pre, note, stop, a) <= spec_spawn_count(pre, note, stop, b),
    decreases b - a,
{
    if a < b {
        lemma_spawn_count_monotone(pre, note, stop, a, b - 1);
    }
}

/// Counting matched voices never decreases along the prefix.
proof fn lemma_match_count_monotone(pre: AudioEngine, note: u8, stop: Seq<char>, a: int, b: int)
    requires
        a <= b,
    ensures
        spec_match_count(pre, note, stop, a) <= spec_match_count(pre, note, stop, b),
    decreases b - a,
{
    if a < b {
        lemma_match_count_monotone(pre, note, stop, a, b - 1);
    }
}

/// Every position below the matched count is the count at some
/// matched index: the unload list built in voice order covers the
/// matched keys and nothing else.
proof fn lemma_match_count_surjective(pre: AudioEngine, note: u8, stop: Seq<char>, i: int, j: int)
    requires
        0 <= j < spec_match_count(pre, note, stop, i),
    ensures
        exists|i2: int|
            0 <= i2 < i && spec_note_off_matches(#[trigger] pre.spec_voices()[i2], note, stop) && j
                == spec_match_count(pre, note, stop, i2),
    decreases i,
{
    if i > 0 {
        let c = spec_match_count(pre, note, stop, i - 1);
        if spec_note_off_matches(pre.spec_voices()[i - 1], note, stop) && j == c {
            assert(spec_note_off_matches(pre.spec_voices()[i - 1], note, stop) && j
                == spec_match_count(pre, note, stop, i - 1));
        } else {
            lemma_match_count_monotone(pre, note, stop, 0, i - 1);
            lemma_match_count_surjective(pre, note, stop, i - 1, j);
        }
    }
}

impl AudioEngine {
    /// End a note: every sounding primary voice on `(note, stop_id)`
    /// begins its release.  In authentic mode, a voice carrying a
    /// release path gets a 50 ms crossfade, and when its release
    /// sample is loaded, exactly one dedicated release voice with the
    /// primary's exact pitch ratio is queued; otherwise the voice
    /// fades over 200 ms.  With eager unloading, exactly the matched
    /// primaries' samples leave the store, once the pass is over.
    pub fn note_off(&mut self, note: u8, stop_id: String)
        requires
            old(self).wf(),
        ensures
            final(self).wf(),
            spec_note_off_applied(*old(self), *final(self), note, stop_id@),
    {
        let is_auth: bool = self.release_mode_authentic;
        let fade_auth: u64 = crate::voice::ms_samples(self.sample_rate, 50);
        let fade_plain: u64 = crate::voice::ms_samples(self.sample_rate, 200);
        let mut to_unload: Vec<String> = Vec::new();
        let n = self.voices.len();
        let mut i: usize = 0;
        while i < n
            invariant
                0 <= i <= n,
                n == old(self).voices@.len(),
                old(self).wf(),
                self.sampler == old(self).sampler,
                is_auth == old(self).spec_release_authentic(),
                fade_auth == spec_ms_samples(old(self).spec_sample_rate(), 50),
                fade_plain == spec_ms_samples(old(self).spec_sample_rate(), 200),
                self.voices@.len() == n,
                forall|j: int|
                    0 <= j < i as int ==> #[trigger] self.voices@[j] == spec_note_off_voice(
                        old(self).voices@[j],
                        note,
                        stop_id@,
                        is_auth,
                        fade_auth as int,
                        fade_plain as int,
                    ),
                forall|j: int| i as int <= j < n ==> self.voices@[j] == old(self).voices@[j],
                forall|j: int|
                    0 <= j < self.voices@.len() ==> (#[trigger] self.voices@[j]).wf(),
                self.pending@.len() == (if old(self).pending@.len() + spec_spawn_count(
                    *old(self),
                    note,
                    stop_id@,
                    i as int,
                ) <= MAX_VOICES {
                    old(self).pending@.len() + spec_spawn_count(*old(self), note, stop_id@, i as int)
                } else {
                    MAX_VOICES as int
                }),
                forall|j: int|
                    0 <= j < old(self).pending@.len() ==> #[trigger] self.pending@[j] == old(
                        self,
                    ).pending@[j],
                forall|j: int|
                    0 <= j < self.pending@.len() ==> (#[trigger] self.pending@[j]).wf(),
                forall|i2: int|
                    0 <= i2 < i as int && spec_spawns_release(*old(self), note, stop_id@, i2)
                        && old(self).pending@.len() + spec_spawn_count(
                        *old(self),
                        note,
                        stop_id@,
                        i2,
                    ) < MAX_VOICES ==> spec_release_voice_for(
                        *old(self),
                        note,
                        stop_id@,
                        i2,
                        #[trigger] self.pending@[old(self).pending@.len() + spec_spawn_count(
                            *old(self),
                            note,
                            stop_id@,
                            i2,
                        )],
                    ),
                to_unload@.len() == spec_match_count(*old(self), note, stop_id@, i as int),
                forall|i2: int|
                    0 <= i2 < i as int && spec_note_off_matches(
                        old(self).voices@[i2],
                        note,
                        stop_id@,
                    ) ==> (#[trigger] to_unload@[spec_match_count(
                        *old(self),
                        note,
                        stop_id@,
                        i2,
                    )])@ == old(self).voices@[i2].path@,
                self.global_gain == old(self).global_gain,
                self.release_mode_authentic == old(self).release_mode_authentic,
                self.loading_mode_none == old(self).loading_mode_none,
                self.sample_rate == old(self).sample_rate,
                self.channels == old(self).channels,
                self.frames_since_report == old(self).frames_since_report,
            decreases n - i,
        {
            let ghost pend0: Seq<Voice> = self.pending@;
            let ghost unl0: Seq<String> = to_unload@;
            let ghost mut pend_step: Option<Voice> = None;
            let ghost mut unl_step: Option<String> = None;
            proof {
                lemma_match_count_monotone(*old(self), note, stop_id@, 0, i as int);
                lemma_spawn_count_monotone(*old(self), note, stop_id@, 0, i as int);
            }
            let matches_key: bool = self.voices[i].is_note(note, stop_id.as_str());
            let playing: bool = self.voices[i].state == VoiceState::Playing;
            let primary: bool = !self.voices[i].is_release;
            if matches_key && playing && primary {
                let has_release: bool = self.voices[i].release_path.is_some();
                if is_auth && has_release {
                    let rp: String = match &self.voices[i].release_path {
                        Some(p) => p.clone(),
                        None => String::new(),
                    };
                    match self.sampler.get_sample(stop_id.as_str(), rp.as_str()) {
                        Some(rel_sample) => {
                            proof {
                                assert(spec_spawns_release(*old(self), note, stop_id@, i as int));
                            }
                            if self.pending.len() < MAX_VOICES {
                                let rel_voice = Voice::new(
                                    rel_sample,
                                    rp,
                                    note,
                                    self.sample_rate,
                                    self.voices[i].gain,
                                    None,
                                    50,
                                    200,
                                    Some(self.voices[i].pitch_ratio),
                                    self.voices[i].pitch_offset_mc,
                                    true,
                                );
                                proof {
                                    assert(spec_release_voice_for(
                                        *old(self),
                                        note,
                                        stop_id@,
                                        i as int,
                                        rel_voice,
                                    ));
                                    assert(self.pending@.len() == old(self).pending@.len()
                                        + spec_spawn_count(*old(self), note, stop_id@, i as int));
                                }
                                proof {
                                    pend_step = Some(rel_voice);
                                }
                                self.pending.push(rel_voice);
                            }
                        },
                        None => {
                            proof {
                                assert(!spec_spawns_release(*old(self), note, stop_id@, i as int));
                            }
                        },
                    }
                    self.voices[i].release_samples = fade_auth;
                    self.voices[i].state = VoiceState::Releasing;
                } else {
                    proof {
                        assert(!spec_spawns_release(*old(self), note, stop_id@, i as int));
                    }
                    self.voices[i].release_samples = fade_plain;
                    self.voices[i].state = VoiceState::Releasing;
                }
                // The store is only touched after the pass; remember
                // which primary's key eager unloading removes.
                let p: String = self.voices[i].path.clone();
                proof {
                    assert(self.voices@[i as int].path@ == old(self).voices@[i as int].path@);
                    assert(to_unload@.len() == spec_match_count(
                        *old(self),
                        note,
                        stop_id@,
                        i as int,
                    ));
                }
                proof {
                    unl_step = Some(p);
                }
                to_unload.push(p);
            } else {
                proof {
                    assert(!spec_note_off_matches(old(self).voices@[i as int], note, stop_id@));
                    assert(!spec_spawns_release(*old(self), note, stop_id@, i as int));
                }
            }
            proof {
                let pre = *old(self);
                let iw = i as int;
                let pn0 = pre.pending@.len() as int;
                // The branch join above hides which push ran; these
                // ground facts restate it for the quantified steps.
                assert(self.pending@ == (match pend_step {
                    Some(v) => pend0.push(v),
                    None => pend0,
                }));
                assert(to_unload@ == (match unl_step {
                    Some(q) => unl0.push(q),
                    None => unl0,
                }));
                assert(pend_step is Some <==> (spec_spawns_release(pre, note, stop_id@, iw)
                    && pend0.len() < MAX_VOICES));
                assert(match pend_step {
                    Some(v) => spec_release_voice_for(pre, note, stop_id@, iw, v) && v.wf(),
                    None => true,
                });
                assert(unl_step is Some <==> spec_note_off_matches(
                    pre.spec_voices()[iw],
                    note,
                    stop_id@,
                ));
                assert(match unl_step {
                    Some(q) => q@ == pre.spec_voices()[iw].path@,
                    None => true,
                });
                assert(spec_spawn_count(pre, note, stop_id@, iw + 1) == spec_spawn_count(
                    pre,
                    note,
                    stop_id@,
                    iw,
                ) + (if spec_spawns_release(pre, note, stop_id@, iw) {
                    1int
                } else {
                    0int
                }));
                assert(spec_match_count(pre, note, stop_id@, iw + 1) == spec_match_count(
                    pre,
                    note,
                    stop_id@,
                    iw,
                ) + (if spec_note_off_matches(pre.spec_voices()[iw], note, stop_id@) {
                    1int
                } else {
                    0int
                }));
                assert forall|j: int| 0 <= j < pre.pending@.len() implies #[trigger] self.pending@[j]
                    == pre.pending@[j] by {
                    assert(pend0[j] == pre.pending@[j]);
                    match pend_step {
                        Some(v) => {
                            assert(self.pending@[j] == pend0.push(v)[j]);
                        },
                        None => {
                            assert(self.pending@[j] == pend0[j]);
                        },
                    }
                }
                assert forall|j: int| 0 <= j < self.pending@.len() implies (
                #[trigger] self.pending@[j]).wf() by {
                    match pend_step {
                        Some(v) => {
                            assert(self.pending@[j] == pend0.push(v)[j]);
                        },
                        None => {
                            assert(self.pending@[j] == pend0[j]);
                        },
                    }
                }
                assert forall|i2: int|
                    0 <= i2 < iw + 1 && spec_spawns_release(pre, note, stop_id@, i2) && pn0
                        + spec_spawn_count(pre, note, stop_id@, i2) < MAX_VOICES implies
                    spec_release_voice_for(
                        pre,
                        note,
                        stop_id@,
                        i2,
                        #[trigger] self.pending@[pn0 + spec_spawn_count(pre, note, stop_id@, i2)],
                    ) by {
                    let idx = pn0 + spec_spawn_count(pre, note, stop_id@, i2);
                    lemma_spawn_count_monotone(pre, note, stop_id@, 0, i2);
                    if i2 < iw {
                        assert(spec_spawn_count(pre, note, stop_id@, i2 + 1) == spec_spawn_count(
                            pre,
                            note,
                            stop_id@,
                            i2,
                        ) + 1);
                        lemma_spawn_count_monotone(pre, note, stop_id@, i2 + 1, iw);
                        assert(idx < pend0.len());
                        assert(spec_release_voice_for(pre, note, stop_id@, i2, pend0[idx]));
                        match pend_step {
                            Some(v) => {
                                assert(self.pending@[idx] == pend0.push(v)[idx]);
                            },
                            None => {
                                assert(self.pending@[idx] == pend0[idx]);
                            },
                        }
                    } else {
                        assert(idx == pend0.len());
                        match pend_step {
                            Some(v) => {
                                assert(self.pending@[idx] == pend0.push(v)[idx]);
                            },
                            None => {
                                assert(false);
                            },
                        }
                    }
                }
                assert forall|i2: int|
                    0 <= i2 < iw + 1 && spec_note_off_matches(
                        pre.spec_voices()[i2],
                        note,
                        stop_id@,
                    ) implies (#[trigger] to_unload@[spec_match_count(pre, note, stop_id@, i2)])@
                    == pre.spec_voices()[i2].path@ by {
                    let idx = spec_match_count(pre, note, stop_id@, i2);
                    lemma_match_count_monotone(pre, note, stop_id@, 0, i2);
                    if i2 < iw {
                        assert(spec_match_count(pre, note, stop_id@, i2 + 1) == spec_match_count(
                            pre,
                            note,
                            stop_id@,
                            i2,
                        ) + 1);
                        lemma_match_count_monotone(pre, note, stop_id@, i2 + 1, iw);
                        assert(idx < unl0.len());
                        assert((unl0[idx])@ == pre.spec_voices()[i2].path@);
                        match unl_step {
                            Some(q) => {
                                assert(to_unload@[idx] == unl0.push(q)[idx]);
                            },
                            None => {
                                assert(to_unload@[idx] == unl0[idx]);
                            },
                        }
                    } else {
                        assert(idx == unl0.len());
                        match unl_step {
                            Some(q) => {
                                assert(to_unload@[idx] == unl0.push(q)[idx]);
                            },
                            None => {
                                assert(false);
                            },
                        }
                    }
                }
            }
            i = i + 1;
        }
        let ghost mid_e: AudioEngine = *self;
        proof {
            assert(spec_match_count(*old(self), note, stop_id@, n as int) == to_unload@.len());
        }
        if self.loading_mode_none {
            let m = to_unload.len();
            let mut j: usize = 0;
            while j < m
                invariant
                    0 <= j <= m,
                    m == to_unload@.len(),
                    old(self).wf(),
                    self.sampler.wf(),
                    old(self).spec_loading_none(),
                    n == old(self).voices@.len(),
                    m == spec_match_count(*old(self), note, stop_id@, n as int),
                    forall|i2: int|
                        0 <= i2 < n && spec_note_off_matches(
                            old(self).voices@[i2],
                            note,
                            stop_id@,
                        ) ==> (#[trigger] to_unload@[spec_match_count(
                            *old(self),
                            note,
                            stop_id@,
                            i2,
                        )])@ == old(self).voices@[i2].path@,
                    *self == (AudioEngine { sampler: self.sampler, ..mid_e }),
                    forall|k: Seq<char>|
                        #[trigger] self.sampler.spec_find(k) == (if exists|jj: int|
                            0 <= jj < j as int && k == spec_key(
                                stop_id@,
                                (#[trigger] to_unload@[jj])@,
                            ) {
                            None::<Sample>
                        } else {
                            old(self).sampler.spec_find(k)
                        }),
                decreases m - j,
            {
                let ghost pre_find = self.sampler;
                self.sampler.unload_sample(stop_id.as_str(), to_unload[j].as_str());
                proof {
                    assert forall|k: Seq<char>| #[trigger] self.sampler.spec_find(k) == (if exists|
                        jj: int,
                    | 0 <= jj < j as int + 1 && k == spec_key(stop_id@, (#[trigger] to_unload@[jj])@) {
                        None::<Sample>
                    } else {
                        old(self).sampler.spec_find(k)
                    }) by {
                        if k == spec_key(stop_id@, to_unload@[j as int]@) {
                            let jw: int = j as int;
                            assert(0 <= jw && jw < jw + 1 && k == spec_key(
                                stop_id@,
                                to_unload@[jw]@,
                            ));
                        }
                    }
                }
                j = j + 1;
            }
            proof {
                assert forall|k: Seq<char>| #[trigger] self.sampler.spec_find(k) == (
                if spec_note_off_unloads(*old(self), note, stop_id@, k) {
                    None::<Sample>
                } else {
                    old(self).sampler.spec_find(k)
                }) by {
                    if spec_note_off_unloads(*old(self), note, stop_id@, k) {
                        let i2 = choose|i2: int|
                            0 <= i2 < old(self).spec_voices().len() && spec_note_off_matches(
                                #[trigger] old(self).spec_voices()[i2],
                                note,
                                stop_id@,
                            ) && k == spec_key(stop_id@, old(self).spec_voices()[i2].path@);
                        lemma_match_count_monotone(*old(self), note, stop_id@, 0, i2);
                        assert(spec_match_count(*old(self), note, stop_id@, i2 + 1)
                            == spec_match_count(*old(self), note, stop_id@, i2) + 1);
                        lemma_match_count_monotone(*old(self), note, stop_id@, i2 + 1, n as int);
                        let jj = spec_match_count(*old(self), note, stop_id@, i2);
                        assert((to_unload@[spec_match_count(*old(self), note, stop_id@, i2)])@
                            == old(self).voices@[i2].path@);
                        assert(0 <= jj && jj < m as int && k == spec_key(
                            stop_id@,
                            to_unload@[jj]@,
                        ));
                    } else {
                        if exists|jj: int|
                            0 <= jj < m as int && k == spec_key(
                                stop_id@,
                                (#[trigger] to_unload@[jj])@,
                            ) {
                            let jj = choose|jj: int|
                                0 <= jj < m as int && k == spec_key(
                                    stop_id@,
                                    (#[trigger] to_unload@[jj])@,
                                );
                            lemma_match_count_surjective(*old(self), note, stop_id@, n as int, jj);
                            let i2 = choose|i2: int|
                                0 <= i2 < n && spec_note_off_matches(
                                    #[trigger] old(self).spec_voices()[i2],
                                    note,
                                    stop_id@,
                                ) && jj == spec_match_count(*old(self), note, stop_id@, i2);
                            assert(spec_note_off_unloads(*old(self), note, stop_id@, k));
                        }
                    }
                }
            }
        }
    }

    /// Swap every voice still holding a partial sample to the full
    /// sample if the store has gained one under the same key, keeping
    /// the playback position; then sound the release voices queued by
    /// note-offs, as far as the polyphony cap allows.
    pub fn auto_swap(&mut self)
        requires
            old(self).wf(),
        ensures
            final(self).wf(),
            spec_swap_applied(*old(self), *final(self)),
    {
        let n = self.voices.len();
        let mut i: usize = 0;
        while i < n
            invariant
                0 <= i <= n,
                n == self.voices@.len(),
                old(self).wf(),
                self.sampler == old(self).sampler,
                self.voices@.len() == old(self).voices@.len(),
                forall|j: int|
                    0 <= j < self.voices@.len() ==> (#[trigger] self.voices@[j]).wf(),
                forall|j: int|
                    0 <= j < i as int ==> spec_swapped_voice(
                        *old(self),
                        old(self).voices@[j],
                        #[trigger] self.voices@[j],
                    ),
                forall|j: int| i as int <= j < n ==> self.voices@[j] == old(self).voices@[j],
                self.pending == old(self).pending,
                self.global_gain == old(self).global_gain,
                self.release_mode_authentic == old(self).release_mode_authentic,
                self.loading_mode_none == old(self).loading_mode_none,
                self.sample_rate == old(self).sample_rate,
                self.channels == old(self).channels,
                self.frames_since_report == old(self).frames_since_report,
            decreases n - i,
        {
            if !self.voices[i].sample.is_full {
                let sid: String = self.voices[i].stop_id.clone();
                let p: String = self.voices[i].path.clone();
                match self.sampler.get_sample(sid.as_str(), p.as_str()) {
                    Some(full_sample) => {
                        if full_sample.is_full {
                            self.voices[i].swap_sample(full_sample, self.sample_rate);
                        }
                    },
                    None => {},
                }
            }
            i = i + 1;
        }
        let mut j: usize = 0;
        let pn = self.pending.len();
        while j < pn && self.voices.len() < MAX_VOICES
            invariant
                0 <= j <= pn,
                pn == old(self).pending@.len(),
                n == old(self).voices@.len(),
                self.voices@.len() <= MAX_VOICES,
                self.voices@.len() == n as int + j as int,
                self.pending@ == old(self).pending@.subrange(j as int, pn as int),
                forall|k2: int|
                    0 <= k2 < n as int ==> spec_swapped_voice(
                        *old(self),
                        old(self).voices@[k2],
                        #[trigger] self.voices@[k2],
                    ),
                forall|k2: int|
                    n as int <= k2 < self.voices@.len() ==> #[trigger] self.voices@[k2] == old(
                        self,
                    ).pending@[k2 - n],
                forall|k2: int|
                    0 <= k2 < self.voices@.len() ==> (#[trigger] self.voices@[k2]).wf(),
                old(self).wf(),
                self.sampler == old(self).sampler,
                self.global_gain == old(self).global_gain,
                self.release_mode_authentic == old(self).release_mode_authentic,
                self.loading_mode_none == old(self).loading_mode_none,
                self.sample_rate == old(self).sample_rate,
                self.channels == old(self).channels,
                self.frames_since_report == old(self).frames_since_report,
            decreases pn - j,
        {
            proof {
                assert(self.pending@[0] == old(self).pending@[j as int]);
            }
            let v = self.pending.remove(0);
            self.voices.push(v);
            j = j + 1;
        }
        self.pending.clear();
        proof {
            if n as int + pn as int <= MAX_VOICES {
                assert(self.voices@.len() == n as int + pn as int);
            }
        }
    }
}


/// The effect of mixing a run of voices, each in turn, into a buffer.
pub open spec fn spec_mix(voices: Seq<Voice>, buf: Seq<i64>, ch: int, i: int) -> (
    Seq<Voice>,
    Seq<i64>,
)
    decreases voices.len() - i,
{
    if i < 0 || i >= voices.len() {
        (voices, buf)
    } else {
        let st = spec_render(voices[i], buf, ch, 0);
        spec_mix(voices.update(i, st.0), st.1, ch, i + 1)
    }
}

/// The voices of a block that survive into the next one: those not
/// yet finished, in order.
pub open spec fn spec_live(vs: Seq<Voice>) -> Seq<Voice>
    decreases vs.len(),
{
    if vs.len() == 0 {
        Seq::empty()
    } else {
        let rest = spec_live(vs.drop_first());
        if vs.first().state == VoiceState::Finished {
            rest
        } else {
            seq![vs.first()] + rest
        }
    }
}

impl AudioEngine {
    /// Render one block: zero the buffer, mix every voice into it in
    /// order, and scale by the master gain when it is not unity.
    pub fn render(&mut self, buffer: &mut Vec<i64>)
        requires
            old(self).wf(),
        ensures
            final(self).wf(),
            final(buffer)@.len() == old(buffer)@.len(),
            spec_render_applied(*old(self), *final(self), old(buffer)@, final(buffer)@),
    {
        let blen: usize = buffer.len();
        let mut z: usize = 0;
        while z < blen
            invariant
                0 <= z <= blen,
                blen == buffer@.len(),
                buffer@.len() == old(buffer)@.len(),
                forall|j: int| 0 <= j < z as int ==> #[trigger] buffer@[j] == 0i64,
                forall|j: int|
                    z as int <= j < blen as int ==> #[trigger] buffer@[j] == old(buffer)@[j],
            decreases blen - z,
        {
            buffer[z] = 0i64;
            z = z + 1;
        }
        proof {
            assert(buffer@ =~= Seq::new(old(buffer)@.len(), |j: int| 0i64));
        }
        let ghost zeros: Seq<i64> = buffer@;
        let n = self.voices.len();
        let mut i: usize = 0;
        while i < n
            invariant
                0 <= i <= n,
                n == self.voices@.len(),
                n == old(self).voices@.len(),
                n <= MAX_VOICES,
                old(self).wf(),
                buffer@.len() == old(buffer)@.len(),
                spec_mix(self.voices@, buffer@, old(self).spec_channels(), i as int) == spec_mix(
                    old(self).voices@,
                    zeros,
                    old(self).spec_channels(),
                    0,
                ),
                forall|j: int|
                    0 <= j < self.voices@.len() ==> (#[trigger] self.voices@[j]).wf(),
                forall|j: int|
                    0 <= j < buffer@.len() ==> -(i as int) * CONTRIB_MAX <= #[trigger] buffer@[j]
                        <= (i as int) * CONTRIB_MAX,
                self.sampler == old(self).sampler,
                self.pending == old(self).pending,
                self.global_gain == old(self).global_gain,
                self.release_mode_authentic == old(self).release_mode_authentic,
                self.loading_mode_none == old(self).loading_mode_none,
                self.sample_rate == old(self).sample_rate,
                self.channels == old(self).channels,
                self.frames_since_report == old(self).frames_since_report,
            decreases n - i,
        {
            proof {
                assert((i as int) * CONTRIB_MAX <= (MAX_VOICES - 1) * CONTRIB_MAX)
                    by (nonlinear_arith)
                    requires
                        0 <= i as int <= MAX_VOICES - 1,
                        CONTRIB_MAX >= 0,
                ;
                assert((MAX_VOICES - 1) * CONTRIB_MAX == MIX_MAX - CONTRIB_MAX);
                assert((i as int) * CONTRIB_MAX + CONTRIB_MAX == (i as int + 1) * CONTRIB_MAX)
                    by (nonlinear_arith);
            }
            let ghost pre_voices = self.voices@;
            let ghost pre_buf = buffer@;
            self.voices[i].render_into(buffer, self.channels);
            proof {
                assert(self.voices@ =~= pre_voices.update(
                    i as int,
                    self.voices@[i as int],
                ));
            }
            i = i + 1;
        }
        proof {
            assert((n as int) * CONTRIB_MAX <= MAX_VOICES * CONTRIB_MAX) by (nonlinear_arith)
                requires
                    0 <= n as int <= MAX_VOICES,
                    CONTRIB_MAX >= 0,
            ;
            assert(MAX_VOICES * CONTRIB_MAX == MIX_MAX);
        }
        if !(self.global_gain == Q24_ONE) {
            let gg: u32 = self.global_gain;
            let ghost mix_buf = buffer@;
            let mut j: usize = 0;
            while j < blen
                invariant
                    0 <= j <= blen,
                    blen == buffer@.len(),
                    buffer@.len() == mix_buf.len(),
                    forall|k: int|
                        0 <= k < mix_buf.len() ==> -MIX_MAX <= #[trigger] mix_buf[k] <= MIX_MAX,
                    forall|k: int|
                        0 <= k < j as int ==> #[trigger] buffer@[k] == spec_scale_master(
                            mix_buf[k] as int,
                            gg,
                        ),
                    forall|k: int| j as int <= k < blen as int ==> buffer@[k] == mix_buf[k],
                decreases blen - j,
            {
                let v: i64 = buffer[j];
                proof {
                    assert(buffer@[j as int] == mix_buf[j as int]);
                    assert(-MIX_MAX <= mix_buf[j as int] <= MIX_MAX);
                }
                buffer[j] = scale_master_q24(v, gg);
                j = j + 1;
            }
        }
    }

    /// Retire finished voices, keeping the rest in order; with eager
    /// unloading each retired voice's primary sample leaves the store.
    pub fn cleanup(&mut self)
        requires
            old(self).wf(),
        ensures
            final(self).wf(),
            spec_cleanup_applied(*old(self), *final(self)),
            forall|i: int|
                0 <= i < final(self).spec_voices().len() ==> (
                #[trigger] final(self).spec_voices()[i]).state != VoiceState::Finished,
            !old(self).spec_loading_none() ==> final(self).sampler == old(self).sampler,
    {
        let mut vs: Vec<Voice> = Vec::new();
        std::mem::swap(&mut vs, &mut self.voices);
        let n = vs.len();
        let mut j: usize = 0;
        while j < n
            invariant
                0 <= j <= n,
                n == old(self).voices@.len(),
                old(self).wf(),
                self.sampler.wf(),
                vs@ == old(self).voices@.subrange(j as int, n as int),
                self.voices@ + spec_live(vs@) == spec_live(old(self).voices@),
                self.voices@.len() <= j as int,
                forall|i: int|
                    0 <= i < self.voices@.len() ==> (#[trigger] self.voices@[i]).state
                        != VoiceState::Finished,
                forall|i: int|
                    0 <= i < self.voices@.len() ==> (#[trigger] self.voices@[i]).wf(),
                !old(self).spec_loading_none() ==> self.sampler == old(self).sampler,
                forall|k: Seq<char>|
                    #[trigger] self.sampler.spec_find(k) == if (old(self).spec_loading_none()
                        && exists|i: int|
                        0 <= i < j as int && (#[trigger] old(self).spec_voices()[i]).state
                            == VoiceState::Finished && k == spec_key(
                            old(self).spec_voices()[i].stop_id@,
                            old(self).spec_voices()[i].path@,
                        )) {
                        None::<Sample>
                    } else {
                        old(self).sampler.spec_find(k)
                    },
                self.pending == old(self).pending,
                self.global_gain == old(self).global_gain,
                self.release_mode_authentic == old(self).release_mode_authentic,
                self.loading_mode_none == old(self).loading_mode_none,
                self.sample_rate == old(self).sample_rate,
                self.channels == old(self).channels,
                self.frames_since_report == old(self).frames_since_report,
            decreases n - j,
        {
            proof {
                assert(vs@[0] == old(self).voices@[j as int]);
                assert(vs@.drop_first() =~= old(self).voices@.subrange(
                    j as int + 1,
                    n as int,
                ));
            }
            let v: Voice = vs.remove(0);
            if v.state == VoiceState::Finished {
                if self.loading_mode_none {
                    self.sampler.unload_sample(v.stop_id.as_str(), v.path.as_str());
                }
            } else {
                proof {
                    assert(seq![v] + spec_live(vs@) =~= seq![v] + spec_live(vs@));
                }
                self.voices.push(v);
            }
            j = j + 1;
        }
        proof {
            assert(vs@.len() == 0);
            assert(self.voices@ + spec_live(vs@) =~= self.voices@);
        }
    }
}


/// The effect of one drained command on the engine.
pub open spec fn spec_command_applied(pre: AudioEngine, post: AudioEngine, cmd: EngineCommand) -> bool {
    match cmd {
        EngineCommand::UnloadSample { stop_id, path } => spec_unload_applied(
            pre,
            post,
            stop_id@,
            path@,
        ),
        EngineCommand::NoteOn { note, stop_id, path, release_path, gain, pitch_offset_mc } => spec_note_on_applied(
            pre,
            post,
            note,
            stop_id@,
            path,
            release_path,
            gain,
            pitch_offset_mc,
        ),
        EngineCommand::NoteOff { note, stop_id } => spec_note_off_applied(pre, post, note, stop_id@),
        EngineCommand::SetGlobalGain(g) => post == (AudioEngine { global_gain: g, ..pre }),
        EngineCommand::SetReleaseMode(mode) => post == (AudioEngine {
            release_mode_authentic: (mode@ == "authentic"@),
            ..pre
        }),
        EngineCommand::SetLoadingMode(mode) => post == (AudioEngine {
            loading_mode_none: (mode@ == "none"@),
            ..pre
        }),
    }
}

/// A run of commands applied one after another, first to last, each
/// to the well-formed state the previous one left.
pub open spec fn spec_commands_applied(
    pre: AudioEngine,
    post: AudioEngine,
    cmds: Seq<EngineCommand>,
) -> bool
    decreases cmds.len(),
{
    if cmds.len() == 0 {
        post == pre
    } else {
        exists|mid: AudioEngine|
            #[trigger] spec_command_applied(pre, mid, cmds.first()) && mid.wf()
                && spec_commands_applied(mid, post, cmds.drop_first())
    }
}

/// Appending one applied command to an applied run keeps it applied.
proof fn lemma_commands_applied_snoc(
    pre: AudioEngine,
    mid: AudioEngine,
    post: AudioEngine,
    cmds: Seq<EngineCommand>,
    cmd: EngineCommand,
)
    requires
        spec_commands_applied(pre, mid, cmds),
        spec_command_applied(mid, post, cmd),
        mid.wf(),
        post.wf(),
    ensures
        spec_commands_applied(pre, post, cmds.push(cmd)),
    decreases cmds.len(),
{
    if cmds.len() == 0 {
        assert(mid == pre);
        assert(cmds.push(cmd).first() == cmd);
        assert(cmds.push(cmd).drop_first() =~= Seq::<EngineCommand>::empty());
        assert(spec_command_applied(pre, post, cmds.push(cmd).first()) && post.wf()
            && spec_commands_applied(post, post, cmds.push(cmd).drop_first()));
    } else {
        let m1 = choose|m1: AudioEngine|
            #[trigger] spec_command_applied(pre, m1, cmds.first()) && m1.wf()
                && spec_commands_applied(m1, mid, cmds.drop_first());
        lemma_commands_applied_snoc(m1, mid, post, cmds.drop_first(), cmd);
        assert(cmds.push(cmd).first() == cmds.first());
        assert(cmds.push(cmd).drop_first() =~= cmds.drop_first().push(cmd));
        assert(spec_command_applied(pre, m1, cmds.push(cmd).first()) && m1.wf()
            && spec_commands_applied(m1, post, cmds.push(cmd).drop_first()));
    }
}

/// One block's phases in order, through the named intermediate
/// states: the commands first to last, then the swap-and-append,
/// then the render, then the cleanup.
pub open spec fn spec_block_pipeline(
    pre: AudioEngine,
    cmds: Seq<EngineCommand>,
    buf_pre: Seq<i64>,
    e1: AudioEngine,
    e2: AudioEngine,
    e3: AudioEngine,
    e4: AudioEngine,
    buf_post: Seq<i64>,
) -> bool {
    &&& spec_commands_applied(pre, e1, cmds)
    &&& e1.wf()
    &&& spec_swap_applied(e1, e2)
    &&& e2.wf()
    &&& spec_render_applied(e2, e3, buf_pre, buf_post)
    &&& e3.wf()
    &&& spec_cleanup_applied(e3, e4)
    &&& e4.wf()
}

/// The whole of one audio block: intermediate states link the four
/// phases in order - so every command is applied, in FIFO order,
/// before a frame is rendered, the swap precedes the render, and the
/// cleanup follows it - and the final engine differs from the last
/// phase's state only in the report counter.
pub open spec fn spec_block_applied(
    pre: AudioEngine,
    post: AudioEngine,
    cmds: Seq<EngineCommand>,
    buf_pre: Seq<i64>,
    buf_post: Seq<i64>,
) -> bool {
    exists|e1: AudioEngine, e2: AudioEngine, e3: AudioEngine, e4: AudioEngine|
        #[trigger] spec_block_pipeline(pre, cmds, buf_pre, e1, e2, e3, e4, buf_post) && post == (
        AudioEngine { frames_since_report: post.frames_since_report, ..e4 })
}

impl AudioEngine {
    /// Run one audio callback: drain this block's commands in order,
    /// swap partial samples for full ones and sound the queued
    /// release voices, render the mixed block into `buffer`, retire
    /// finished voices, and count the frames toward the periodic
    /// report.  Returns the store's decoded-buffer byte count when a
    /// report is due, about every five seconds of audio.
    pub fn process_block(&mut self, commands: Vec<EngineCommand>, buffer: &mut Vec<i64>) -> (r:
        Option<u64>)
        requires
            old(self).wf(),
        ensures
            final(self).wf(),
            final(buffer)@.len() == old(buffer)@.len(),
            spec_block_applied(*old(self), *final(self), commands@, old(buffer)@, final(buffer)@),
            forall|i: int|
                0 <= i < final(self).spec_voices().len() ==> (
                #[trigger] final(self).spec_voices()[i]).state != VoiceState::Finished,
            final(self).spec_pending().len() == 0,
            final(self).spec_sample_rate() == old(self).spec_sample_rate(),
            final(self).spec_channels() == old(self).spec_channels(),
            ({
                let frames = old(buffer)@.len() as int / old(self).spec_channels();
                &&& (r is Some) == (old(self).spec_frames_since_report() + frames
                    >= REPORT_FRAMES)
                &&& final(self).spec_frames_since_report() == if r is Some {
                    0
                } else {
                    old(self).spec_frames_since_report() + frames
                }
            }),
            r matches Some(bytes) ==> bytes == (if final(self).sampler.spec_memory_usage()
                > u64::MAX as int {
                u64::MAX as int
            } else {
                final(self).sampler.spec_memory_usage()
            }),
    {
        let ghost all_cmds: Seq<EngineCommand> = commands@;
        let mut commands = commands;
        let ghost mut processed: int = 0;
        let ghost entry_frames: u64 = self.frames_since_report;
        let ghost entry_rate: u32 = self.sample_rate;
        let ghost entry_channels: usize = self.channels;
        while commands.len() > 0
            invariant
                self.wf(),
                self.frames_since_report == entry_frames,
                self.sample_rate == entry_rate,
                self.channels == entry_channels,
                0 <= processed <= all_cmds.len(),
                commands@ == all_cmds.subrange(processed, all_cmds.len() as int),
                spec_commands_applied(*old(self), *self, all_cmds.subrange(0, processed)),
            decreases commands@.len(),
        {
            let ghost pre_step: AudioEngine = *self;
            proof {
                assert(commands@[0] == all_cmds[processed]);
            }
            let cmd: EngineCommand = commands.remove(0);
            match cmd {
                EngineCommand::UnloadSample { stop_id, path } => {
                    self.unload_sample(stop_id.as_str(), path.as_str());
                },
                EngineCommand::NoteOn { note, stop_id, path, release_path, gain, pitch_offset_mc } => {
                    let _ = self.note_on(note, stop_id, path, release_path, gain, pitch_offset_mc);
                },
                EngineCommand::NoteOff { note, stop_id } => {
                    self.note_off(note, stop_id);
                },
                EngineCommand::SetGlobalGain(g) => {
                    self.set_global_gain(g);
                },
                EngineCommand::SetReleaseMode(mode) => {
                    self.set_release_mode(mode);
                },
                EngineCommand::SetLoadingMode(mode) => {
                    self.set_loading_mode(mode);
                },
            }
            proof {
                assert(spec_command_applied(pre_step, *self, all_cmds[processed]));
                lemma_commands_applied_snoc(
                    *old(self),
                    pre_step,
                    *self,
                    all_cmds.subrange(0, processed),
                    all_cmds[processed],
                );
                assert(all_cmds.subrange(0, processed).push(all_cmds[processed])
                    =~= all_cmds.subrange(0, processed + 1));
                processed = processed + 1;
                assert(commands@ =~= all_cmds.subrange(processed, all_cmds.len() as int));
            }
        }
        proof {
            assert(all_cmds.subrange(0, processed) =~= all_cmds);
        }
        let ghost e1: AudioEngine = *self;
        self.auto_swap();
        let ghost e2: AudioEngine = *self;
        self.render(buffer);
        let ghost e3: AudioEngine = *self;
        self.cleanup();
        let ghost e4: AudioEngine = *self;
        let frames: u64 = (buffer.len() / self.channels) as u64;
        let report: bool = self.note_frames_rendered(frames);
        proof {
            assert(spec_block_pipeline(
                *old(self),
                all_cmds,
                old(buffer)@,
                e1,
                e2,
                e3,
                e4,
                buffer@,
            ));
            assert(*self == (AudioEngine { frames_since_report: self.frames_since_report, ..e4 }));
        }
        if report {
            Some(self.sampler.get_memory_usage())
        } else {
            None
        }
    }
}

/// Restrike: when the last voice sounds `(note, stop)` and no earlier
/// voice on that key is still `Playing` - as `note_on` leaves the
/// voice set - then exactly one voice on the key is `Playing`: the
/// new one.  Two consecutive note-ons for one key therefore leave one
/// playing voice, with the previous take releasing or gone.
pub proof fn lemma_restrike_single_playing(vs: Seq<Voice>, note: u8, stop: Seq<char>)
    requires
        vs.len() >= 1,
        vs.last().note == note,
        vs.last().stop_id@ == stop,
        vs.last().state == VoiceState::Playing,
        forall|i: int|
            0 <= i < vs.len() - 1 && (#[trigger] vs[i]).note == note && vs[i].stop_id@ == stop
                ==> vs[i].state != VoiceState::Playing,
    ensures
        forall|i: int|
            0 <= i < vs.len() ==> (((#[trigger] vs[i]).note == note && vs[i].stop_id@ == stop
                && vs[i].state == VoiceState::Playing) <==> i == vs.len() - 1),
{
}

} // verus!
