//! The sample store: a keyed collection of loaded samples.
//!
//! Keys are `"{stop_id}-{path}"`.  The audio engine reads handles out
//! of the store; loads and unloads replace whole entries, so a voice
//! that still holds a handle to a replaced sample keeps playing it
//! unchanged.

use vstd::prelude::*;
use std::sync::Arc;
use vstd::string::StringExecFns;
use crate::bytes::ByteSource;
use crate::sample::{Sample, SampleSource};
use crate::wav::{
    parse_wav, spec_parse_wav, decode_frames, spec_decode_at, spec_sample_off, WavError, WavMeta,
    LoopPoint,
};

verus! {

/// One keyed entry.
pub struct StoreEntry {
    pub key: String,
    pub sample: Arc<Sample>,
}

/// The sample store.  In the running engine the controller thread
/// loads into it and the audio thread reads from it behind a
/// reader-writer lock; the store itself is single-threaded.
pub struct Sampler {
    entries: Vec<StoreEntry>,
}

/// What the store maps `k` to: the last entry with that key wins,
/// though a well-formed store never holds two.
spec fn spec_find_entries(s: Seq<StoreEntry>, k: Seq<char>) -> Option<Sample>
    decreases s.len(),
{
    if s.len() == 0 {
        None
    } else if s.last().key@ == k {
        Some(*s.last().sample)
    } else {
        spec_find_entries(s.drop_last(), k)
    }
}

/// The store key for a stop and a path.
pub open spec fn spec_key(stop_id: Seq<char>, path: Seq<char>) -> Seq<char> {
    stop_id + "-"@ + path
}

/// Build the store key for a stop and a path.
pub fn make_key(stop_id: &str, path: &str) -> (k: String)
    ensures
        k@ == spec_key(stop_id@, path@),
{
    let mut k: String = stop_id.to_owned();
    k.append("-");
    k.append(path);
    k
}

impl Sampler {
    /// What the store maps `k` to.
    pub closed spec fn spec_find(&self, k: Seq<char>) -> Option<Sample> {
        spec_find_entries(self.entries@, k)
    }

    /// No two entries share a key, and every stored sample is well
    /// formed.
    pub closed spec fn wf(&self) -> bool {
        &&& forall|i: int, j: int|
            0 <= i < j < self.entries@.len() ==> (#[trigger] self.entries@[i].key@) != (
            #[trigger] self.entries@[j].key@)
        &&& forall|i: int|
            0 <= i < self.entries@.len() ==> (#[trigger] (*self.entries@[i].sample)).wf()
    }

    /// An empty store.
    pub fn new() -> (s: Sampler)
        ensures
            s.wf(),
            forall|k: Seq<char>| s.spec_find(k) is None,
            s.spec_memory_usage() == 0,
    {
        Sampler { entries: Vec::new() }
    }

    /// Index of the entry holding `key`, if any.
    fn find_index(&self, key: &String) -> (r: Option<usize>)
        requires
            self.wf(),
        ensures
            match r {
                Some(i) => i < self.entries@.len() && self.entries@[i as int].key@ == key@
                    && self.spec_find(key@) == Some(*self.entries@[i as int].sample),
                None => self.spec_find(key@) is None,
            },
    {
        let n = self.entries.len();
        let mut i: usize = 0;
        while i < n
            invariant
                0 <= i <= n,
                n == self.entries@.len(),
                self.wf(),
                forall|j: int| 0 <= j < i as int ==> (#[trigger] self.entries@[j].key@) != key@,
            decreases n - i,
        {
            if self.entries[i].key == *key {
                proof {
                    lemma_find_present(self.entries@, i as int);
                }
                return Some(i);
            }
            i = i + 1;
        }
        proof {
            lemma_find_absent(self.entries@, key@);
        }
        None
    }

    /// The handle stored for `(stop_id, path)`, if any.
    pub fn get_sample(&self, stop_id: &str, pipe_path: &str) -> (r: Option<Arc<Sample>>)
        requires
            self.wf(),
        ensures
            match r {
                Some(s) => self.spec_find(spec_key(stop_id@, pipe_path@)) == Some(*s) && (
                *s).wf(),
                None => self.spec_find(spec_key(stop_id@, pipe_path@)) is None,
            },
    {
        let key = make_key(stop_id, pipe_path);
        match self.find_index(&key) {
            Some(i) => Some(self.entries[i].sample.clone()),
            None => None,
        }
    }

    /// Remove the entry for `(stop_id, path)` if present.  Voices that
    /// hold the handle keep it.
    pub fn unload_sample(&mut self, stop_id: &str, path: &str)
        requires
            old(self).wf(),
        ensures
            final(self).wf(),
            final(self).spec_find(spec_key(stop_id@, path@)) is None,
            forall|k: Seq<char>|
                k != spec_key(stop_id@, path@) ==> #[trigger] final(self).spec_find(k) == old(
                    self,
                ).spec_find(k),
    {
        let key = make_key(stop_id, path);
        match self.find_index(&key) {
            Some(i) => {
                proof {
                    lemma_find_after_remove(self.entries@, i as int);
                }
                let _ = self.entries.remove(i);
            },
            None => {},
        }
    }

    /// Insert or replace the entry for `key`.
    fn insert_entry(&mut self, key: String, sample: Arc<Sample>)
        requires
            old(self).wf(),
            (*sample).wf(),
        ensures
            final(self).wf(),
            final(self).spec_find(key@) == Some(*sample),
            forall|k: Seq<char>|
                k != key@ ==> #[trigger] final(self).spec_find(k) == old(self).spec_find(k),
    {
        match self.find_index(&key) {
            Some(i) => {
                proof {
                    lemma_find_after_remove(self.entries@, i as int);
                }
                let _ = self.entries.remove(i);
            },
            None => {},
        }
        proof {
            lemma_find_none_means_absent(self.entries@, key@);
            lemma_find_after_push(self.entries@, StoreEntry { key, sample });
        }
        let e = StoreEntry { key, sample };
        self.entries.push(e);
    }
}

/// If entry `i` holds key `k` in a store with unique keys, the store
/// maps `k` to that entry's sample.
proof fn lemma_find_present(s: Seq<StoreEntry>, i: int)
    requires
        0 <= i < s.len(),
        forall|a: int, b: int|
            0 <= a < b < s.len() ==> (#[trigger] s[a].key@) != (#[trigger] s[b].key@),
    ensures
        spec_find_entries(s, s[i].key@) == Some(*s[i].sample),
    decreases s.len(),
{
    if i == s.len() - 1 {
    } else {
        assert(s.drop_last()[i] == s[i]);
        lemma_find_present(s.drop_last(), i);
    }
}

/// If no entry holds key `k`, the store maps `k` to nothing.
proof fn lemma_find_absent(s: Seq<StoreEntry>, k: Seq<char>)
    requires
        forall|j: int| 0 <= j < s.len() ==> (#[trigger] s[j].key@) != k,
    ensures
        spec_find_entries(s, k) is None,
    decreases s.len(),
{
    if s.len() > 0 {
        assert forall|j: int| 0 <= j < s.drop_last().len() implies (
        #[trigger] s.drop_last()[j].key@) != k by {
            assert(s.drop_last()[j] == s[j]);
        }
        lemma_find_absent(s.drop_last(), k);
    }
}

/// Removing entry `i` removes exactly its key from the mapping.
proof fn lemma_find_after_remove(s: Seq<StoreEntry>, i: int)
    requires
        0 <= i < s.len(),
        forall|a: int, b: int|
            0 <= a < b < s.len() ==> (#[trigger] s[a].key@) != (#[trigger] s[b].key@),
    ensures
        spec_find_entries(s.remove(i), s[i].key@) is None,
        forall|k: Seq<char>|
            k != s[i].key@ ==> #[trigger] spec_find_entries(s.remove(i), k) == spec_find_entries(
                s,
                k,
            ),
        forall|a: int, b: int|
            0 <= a < b < s.remove(i).len() ==> (#[trigger] s.remove(i)[a].key@) != (
            #[trigger] s.remove(i)[b].key@),
    decreases s.len(),
{
    let t = s.remove(i);
    assert forall|j: int| 0 <= j < t.len() implies (#[trigger] t[j].key@) != s[i].key@ by {
        if j < i {
            assert(t[j] == s[j]);
        } else {
            assert(t[j] == s[j + 1]);
        }
    }
    lemma_find_absent(t, s[i].key@);
    assert forall|k: Seq<char>| k != s[i].key@ implies #[trigger] spec_find_entries(t, k)
        == spec_find_entries(s, k) by {
        lemma_find_skip_other(s, i, k);
    }
    assert forall|a: int, b: int| 0 <= a < b < t.len() implies (#[trigger] t[a].key@) != (
    #[trigger] t[b].key@) by {
        let a2 = if a < i {
            a
        } else {
            a + 1
        };
        let b2 = if b < i {
            b
        } else {
            b + 1
        };
        assert(t[a] == s[a2]);
        assert(t[b] == s[b2]);
        assert(0 <= a2 < b2 < s.len());
        assert(s[a2].key@ != s[b2].key@);
    }
}

/// For any key other than entry `i`'s, removing entry `i` leaves the
/// lookup unchanged.
proof fn lemma_find_skip_other(s: Seq<StoreEntry>, i: int, k: Seq<char>)
    requires
        0 <= i < s.len(),
        k != s[i].key@,
    ensures
        spec_find_entries(s.remove(i), k) == spec_find_entries(s, k),
    decreases s.len(),
{
    let t = s.remove(i);
    if i == s.len() - 1 {
        assert(t =~= s.drop_last());
    } else {
        assert(s.len() >= 2);
        assert(t.last() == s.last());
        if s.last().key@ == k {
        } else {
            assert(t.drop_last() =~= s.drop_last().remove(i));
            assert(s.drop_last()[i] == s[i]);
            lemma_find_skip_other(s.drop_last(), i, k);
        }
    }
}

/// Pushing an entry maps its key to its sample and leaves other keys
/// unchanged.
proof fn lemma_find_after_push(s: Seq<StoreEntry>, e: StoreEntry)
    ensures
        spec_find_entries(s.push(e), e.key@) == Some(*e.sample),
        forall|k: Seq<char>|
            k != e.key@ ==> #[trigger] spec_find_entries(s.push(e), k) == spec_find_entries(s, k),
        (forall|j: int| 0 <= j < s.len() ==> (#[trigger] s[j].key@) != e.key@) && (forall|
            a: int,
            b: int,
        |
            0 <= a < b < s.len() ==> (#[trigger] s[a].key@) != (#[trigger] s[b].key@)) ==> forall|
            a: int,
            b: int,
        |
            0 <= a < b < s.push(e).len() ==> (#[trigger] s.push(e)[a].key@) != (
            #[trigger] s.push(e)[b].key@),
{
    assert(s.push(e).drop_last() =~= s);
    assert(s.push(e).last() == e);
    if (forall|j: int| 0 <= j < s.len() ==> (#[trigger] s[j].key@) != e.key@) && (forall|
        a: int,
        b: int,
    | 0 <= a < b < s.len() ==> (#[trigger] s[a].key@) != (#[trigger] s[b].key@)) {
        assert forall|a: int, b: int| 0 <= a < b < s.push(e).len() implies (
        #[trigger] s.push(e)[a].key@) != (#[trigger] s.push(e)[b].key@) by {
            assert(s.push(e)[a] == s[a]);
            if b == s.len() as int {
                assert(s.push(e)[b] == e);
                assert(s[a].key@ != e.key@);
            } else {
                assert(s.push(e)[b] == s[b]);
                assert(s[a].key@ != s[b].key@);
            }
        }
    }
}

/// If a key is not mapped, no entry holds it.
proof fn lemma_find_none_means_absent(s: Seq<StoreEntry>, k: Seq<char>)
    requires
        spec_find_entries(s, k) is None,
    ensures
        forall|j: int| 0 <= j < s.len() ==> (#[trigger] s[j].key@) != k,
    decreases s.len(),
{
    if s.len() > 0 {
        lemma_find_none_means_absent(s.drop_last(), k);
        assert forall|j: int| 0 <= j < s.len() implies (#[trigger] s[j].key@) != k by {
            if j < s.len() - 1 {
                assert(s.drop_last()[j] == s[j]);
                assert(s.drop_last()[j].key@ != k);
            } else {
                assert(s[j] == s.last());
            }
        }
    }
}


/// Whether a load request is already satisfied by the store: a full
/// entry satisfies every request, and a partial entry satisfies a
/// partial (duration-capped) request.
pub open spec fn spec_load_skip(prior: Option<Sample>, max_ms: Option<u64>) -> bool {
    match prior {
        Some(s) => s.is_full || max_ms is Some,
        None => false,
    }
}

/// The number of whole frames in the data chunk.
pub open spec fn spec_total_frames(m: WavMeta) -> int {
    m.data_size as int / ((m.channels as int) * ((m.bits_per_sample / 8) as int))
}

/// The format is one the decoders support.
pub open spec fn spec_format_ok(m: WavMeta) -> bool {
    m.channels >= 1 && (m.bits_per_sample == 8 || m.bits_per_sample == 16
        || m.bits_per_sample == 24 || m.bits_per_sample == 32)
}

/// `ceil(ms * rate / 1000)`: frames in a duration given in milliseconds.
pub open spec fn spec_ms_frames(ms: u64, rate: u32) -> int {
    (ms * rate + 999) / 1000
}

/// `ceil(rate / 10)`: frames in the ~100 ms attack buffer.
pub open spec fn spec_attack_frames(rate: u32) -> int {
    (rate + 9) / 10
}

/// How many frames a load decodes up front: the requested duration
/// for a partial load, the attack buffer for a streaming load, both
/// capped by the data actually present.
pub open spec fn spec_frames_to_buffer(m: WavMeta, max_ms: Option<u64>) -> int {
    let total = spec_total_frames(m);
    let want = match max_ms {
        Some(ms) => spec_ms_frames(ms, m.sample_rate),
        None => spec_attack_frames(m.sample_rate),
    };
    if want < total {
        want
    } else {
        total
    }
}

/// The up-front frames all lie inside the file.
pub open spec fn spec_region_ok(m: WavMeta, max_ms: Option<u64>, blen: int) -> bool {
    m.data_start + spec_frames_to_buffer(m, max_ms) * ((m.channels as int) * ((m.bits_per_sample
        / 8) as int)) <= blen
}

/// A loop region kept only when non-empty and inside the sample.
pub open spec fn spec_valid_loop(lp: Option<LoopPoint>, len: int) -> Option<LoopPoint> {
    match lp {
        Some(l) => if l.start < l.end && l.end <= len {
            Some(l)
        } else {
            None
        },
        None => None,
    }
}

/// What the sample built from `m` over bytes `b` stores at channel
/// `c`, frame `i`: the decoded PCM where the file reaches, silence
/// beyond it.
pub open spec fn spec_stored(m: WavMeta, b: Seq<u8>, c: int, i: int) -> int {
    let bps = (m.bits_per_sample / 8) as int;
    let off = spec_sample_off(m.data_start as int, m.channels as int, m.bits_per_sample as int, i, c);
    if off + bps <= b.len() {
        spec_decode_at(b, off, m.bits_per_sample, (m.audio_format == 3))
    } else {
        0
    }
}

/// The length in frames of the sample a successful load builds.
pub open spec fn spec_loaded_len(m: WavMeta, max_ms: Option<u64>) -> int {
    if max_ms is Some {
        spec_frames_to_buffer(m, max_ms)
    } else {
        spec_total_frames(m)
    }
}

/// The properties of the sample a successful fresh load stores.
pub open spec fn spec_loaded_sample(s: Sample, m: WavMeta, b: Seq<u8>, stop_id: Seq<char>, max_ms: Option<u64>) -> bool {
    &&& s.wf()
    &&& s.stop_id@ == stop_id
    &&& s.sample_rate == m.sample_rate
    &&& s.root_note == m.root_note
    &&& s.fine_tune_mc == m.fine_tune_mc
    &&& s.is_full == (max_ms is None)
    &&& s.spec_channels() == m.channels as int
    &&& s.spec_len() == spec_loaded_len(m, max_ms)
    &&& s.loop_point == spec_valid_loop(m.loop_point, spec_loaded_len(m, max_ms))
    &&& forall|c: int, i: int|
        0 <= c < m.channels as int && 0 <= i < spec_loaded_len(m, max_ms)
            ==> #[trigger] s.spec_sample_at(c, i) == spec_stored(m, b, c, i)
    &&& spec_loaded_source(s, m, b, max_ms)
}

/// The representation a load must build: a duration-capped load
/// decodes its frames wholly into memory, an uncapped load decodes
/// only the attack buffer up front and keeps the raw bytes behind a
/// streaming source.
pub open spec fn spec_loaded_source(s: Sample, m: WavMeta, b: Seq<u8>, max_ms: Option<u64>) -> bool {
    match s.source {
        SampleSource::InMemory(d) => {
            &&& max_ms is Some
            &&& d@.len() == m.channels as int
            &&& forall|c: int|
                0 <= c < m.channels as int ==> (#[trigger] d@[c])@.len() == spec_frames_to_buffer(
                    m,
                    max_ms,
                )
        },
        SampleSource::Streaming {
            attack,
            data,
            data_start,
            channels,
            bits_per_sample,
            is_float,
            total_frames,
        } => {
            &&& max_ms is None
            &&& attack@.len() == m.channels as int
            &&& forall|c: int|
                0 <= c < m.channels as int ==> (#[trigger] attack@[c])@.len()
                    == spec_frames_to_buffer(m, max_ms)
            &&& data@ == b
            &&& data_start == m.data_start
            &&& channels == m.channels
            &&& bits_per_sample == m.bits_per_sample
            &&& is_float == (m.audio_format == 3)
            &&& total_frames as int == spec_total_frames(m)
        },
    }
}

impl Sampler {
    /// Parse and decode the WAV file in `source` and store it under
    /// `"{stop_id}-{path}"`.  A request already satisfied by the
    /// store returns success without touching it; a file the parser
    /// or the decoders reject returns the error and leaves the store
    /// unchanged.  A duration-capped load stores a partial in-memory
    /// sample; an uncapped load stores a full streaming sample that
    /// keeps `source` and decodes beyond the attack buffer on demand.
    pub fn load_sample(
        &mut self,
        stop_id: String,
        path: String,
        source: ByteSource,
        max_duration_ms: Option<u64>,
    ) -> (r: Result<(), WavError>)
        requires
            old(self).wf(),
        ensures
            final(self).wf(),
            ({
                let key = spec_key(stop_id@, path@);
                let prior = old(self).spec_find(key);
                if spec_load_skip(prior, max_duration_ms) {
                    r is Ok && forall|k: Seq<char>| #[trigger]
                        final(self).spec_find(k) == old(self).spec_find(k)
                } else {
                    match spec_parse_wav(source@) {
                        Err(e) => r == Err::<(), WavError>(e) && forall|k: Seq<char>| #[trigger]
                            final(self).spec_find(k) == old(self).spec_find(k),
                        Ok(m) => {
                            if !spec_format_ok(m) {
                                r == Err::<(), WavError>(WavError::UnsupportedFormat) && forall|
                                    k: Seq<char>,
                                | #[trigger] final(self).spec_find(k) == old(self).spec_find(k)
                            } else if !spec_region_ok(m, max_duration_ms, source@.len() as int) {
                                r == Err::<(), WavError>(WavError::Truncated) && forall|
                                    k: Seq<char>,
                                | #[trigger] final(self).spec_find(k) == old(self).spec_find(k)
                            } else {
                                &&& r is Ok
                                &&& forall|k: Seq<char>|
                                    k != key ==> #[trigger] final(self).spec_find(k) == old(
                                        self,
                                    ).spec_find(k)
                                &&& final(self).spec_find(key) is Some
                                &&& spec_loaded_sample(
                                    final(self).spec_find(key).unwrap(),
                                    m,
                                    source@,
                                    stop_id@,
                                    max_duration_ms,
                                )
                            }
                        },
                    }
                }
            }),
    {
        let key = make_key(stop_id.as_str(), path.as_str());
        match self.find_index(&key) {
            Some(i) => {
                if self.entries[i].sample.is_full {
                    return Ok(());
                }
                if max_duration_ms.is_some() {
                    return Ok(());
                }
            },
            None => {},
        }
        let blen: usize = source.len();
        let m: WavMeta = match parse_wav(&source) {
            Ok(m) => m,
            Err(e) => {
                return Err(e);
            },
        };
        let bits = m.bits_per_sample;
        if m.channels == 0 || !(bits == 8 || bits == 16 || bits == 24 || bits == 32) {
            return Err(WavError::UnsupportedFormat);
        }
        let bps: u32 = (bits / 8) as u32;
        proof {
            assert(1 <= (m.channels as int) * (bps as int) <= 0xFFFF * 4) by (nonlinear_arith)
                requires
                    1 <= m.channels <= 0xFFFFu16,
                    1 <= bps <= 4u32,
            ;
        }
        let fs32: u32 = (m.channels as u32) * bps;
        let total: usize = (m.data_size / fs32) as usize;
        let want128: u128 = match max_duration_ms {
            Some(ms) => {
                proof {
                    assert((ms as int) * (m.sample_rate as int) <= 0xFFFF_FFFF_FFFF_FFFF
                        * 0xFFFF_FFFF) by (nonlinear_arith)
                        requires
                            0 <= ms <= 0xFFFF_FFFF_FFFF_FFFFu64,
                            0 <= m.sample_rate <= 0xFFFF_FFFFu32,
                    ;
                }
                ((ms as u128) * (m.sample_rate as u128) + 999) / 1000
            },
            None => (((m.sample_rate as u128) + 9) / 10),
        };
        let frames: usize = if want128 < (total as u128) {
            want128 as usize
        } else {
            total
        };
        proof {
            assert(frames as int == spec_frames_to_buffer(m, max_duration_ms));
            assert((frames as int) * ((m.channels as int) * (bps as int)) <= (total as int) * (
            0xFFFF * 4)) by (nonlinear_arith)
                requires
                    0 <= frames as int <= total as int,
                    0 <= (m.channels as int) * (bps as int) <= 0xFFFF * 4,
            ;
            assert((total as int) * (0xFFFF * 4) <= 0xFFFF_FFFF * (0xFFFF * 4))
                by (nonlinear_arith)
                requires
                    0 <= total as int <= 0xFFFF_FFFF,
            ;
        }
        if (m.data_start as u128) + (frames as u128) * (fs32 as u128) > (blen as u128) {
            return Err(WavError::Truncated);
        }
        let audio: Vec<Vec<i32>> = decode_frames(
            &source,
            m.data_start,
            frames,
            m.channels,
            bits,
            m.audio_format == 3,
        );
        let sample_len: usize = if max_duration_ms.is_some() {
            frames
        } else {
            total
        };
        let lp: Option<LoopPoint> = match m.loop_point {
            Some(l) => {
                if l.start < l.end && (l.end as usize) <= sample_len {
                    Some(l)
                } else {
                    None
                }
            },
            None => None,
        };
        let src_enum: SampleSource = if max_duration_ms.is_some() {
            SampleSource::InMemory(audio)
        } else {
            SampleSource::Streaming {
                attack: audio,
                data: source,
                data_start: m.data_start,
                channels: m.channels,
                bits_per_sample: bits,
                is_float: m.audio_format == 3,
                total_frames: total,
            }
        };
        let sample = Sample {
            stop_id,
            source: src_enum,
            sample_rate: m.sample_rate,
            loop_point: lp,
            root_note: m.root_note,
            fine_tune_mc: m.fine_tune_mc,
            is_full: max_duration_ms.is_none(),
        };
        proof {
            lemma_loaded_sample_ok(sample, m, source@, frames as int, max_duration_ms);
        }
        self.insert_entry(key, Arc::new(sample));
        Ok(())
    }
}

/// Every decoded offset of the buffered region lies inside the file.
proof fn lemma_off_in_region(m: WavMeta, blen: int, frames: int, c: int, i: int)
    requires
        spec_format_ok(m),
        0 <= c < m.channels as int,
        0 <= i < frames,
        m.data_start + frames * ((m.channels as int) * ((m.bits_per_sample / 8) as int)) <= blen,
    ensures
        spec_sample_off(m.data_start as int, m.channels as int, m.bits_per_sample as int, i, c) + (
        (m.bits_per_sample / 8) as int) <= blen,
{
    let bps = (m.bits_per_sample / 8) as int;
    let fs = (m.channels as int) * bps;
    assert(c * bps + bps <= fs) by (nonlinear_arith)
        requires
            0 <= c <= m.channels as int - 1,
            bps >= 1,
            fs == (m.channels as int) * bps,
    ;
    assert(i * fs + fs <= frames * fs) by (nonlinear_arith)
        requires
            0 <= i <= frames - 1,
            fs >= 1,
    ;
    assert(spec_sample_off(m.data_start as int, m.channels as int, m.bits_per_sample as int, i, c)
        == m.data_start + i * fs + c * bps);
}

/// The sample assembled by a successful load has the contracted
/// fields and contents.
proof fn lemma_loaded_sample_ok(
    s: Sample,
    m: WavMeta,
    b: Seq<u8>,
    frames: int,
    max_ms: Option<u64>,
)
    requires
        spec_format_ok(m),
        frames == spec_frames_to_buffer(m, max_ms),
        spec_region_ok(m, max_ms, b.len() as int),
        s.sample_rate == m.sample_rate,
        s.root_note == m.root_note,
        s.fine_tune_mc == m.fine_tune_mc,
        s.is_full == (max_ms is None),
        s.loop_point == spec_valid_loop(m.loop_point, spec_loaded_len(m, max_ms)),
        match s.source {
            SampleSource::InMemory(d) => max_ms is Some && d@.len() == m.channels as int && (
            forall|c: int| 0 <= c < m.channels as int ==> (#[trigger] d@[c])@.len() == frames) && (
            forall|c: int, i: int|
                0 <= c < m.channels as int && 0 <= i < frames ==> d@[c]@[i] == spec_decode_at(
                    b,
                    spec_sample_off(
                        m.data_start as int,
                        m.channels as int,
                        m.bits_per_sample as int,
                        i,
                        c,
                    ),
                    m.bits_per_sample,
                    (m.audio_format == 3),
                )),
            SampleSource::Streaming {
                attack,
                data,
                data_start,
                channels,
                bits_per_sample,
                is_float,
                total_frames,
            } => max_ms is None && attack@.len() == m.channels as int && data@ == b && data_start
                == m.data_start && channels == m.channels && bits_per_sample == m.bits_per_sample
                && is_float == (m.audio_format == 3) && total_frames as int == spec_total_frames(m) && (forall|
                c: int,
            | 0 <= c < m.channels as int ==> (#[trigger] attack@[c])@.len() == frames) && (forall|
                c: int,
                i: int,
            |
                0 <= c < m.channels as int && 0 <= i < frames ==> attack@[c]@[i] == spec_decode_at(
                    b,
                    spec_sample_off(
                        m.data_start as int,
                        m.channels as int,
                        m.bits_per_sample as int,
                        i,
                        c,
                    ),
                    m.bits_per_sample,
                    (m.audio_format == 3),
                )),
        },
    ensures
        spec_loaded_sample(s, m, b, s.stop_id@, max_ms),
{
    let len = spec_loaded_len(m, max_ms);
    assert(s.spec_len() == len);
    let fsz = (m.channels as int) * ((m.bits_per_sample / 8) as int);
    assert(fsz >= 1) by (nonlinear_arith)
        requires
            m.channels as int >= 1,
            (m.bits_per_sample / 8) as int >= 1,
            fsz == (m.channels as int) * ((m.bits_per_sample / 8) as int),
    ;
    vstd::arithmetic::div_mod::lemma_div_nonincreasing(m.data_size as int, fsz);
    vstd::arithmetic::div_mod::lemma_div_pos_is_pos(m.data_size as int, fsz);
    assert(spec_total_frames(m) <= 0xFFFF_FFFF);
    assert(s.wf());
    assert forall|c: int, i: int| 0 <= c < m.channels as int && 0 <= i < len implies
        #[trigger] s.spec_sample_at(c, i) == spec_stored(m, b, c, i) by {
        let bps = (m.bits_per_sample / 8) as int;
        match s.source {
            SampleSource::InMemory(d) => {
                lemma_off_in_region(m, b.len() as int, frames, c, i);
            },
            SampleSource::Streaming { attack, .. } => {
                if i < frames {
                    lemma_off_in_region(m, b.len() as int, frames, c, i);
                }
            },
        }
    }
}


/// Bytes held by the first `n` rows of a set of decoded buffers.
pub open spec fn spec_rows_bytes(rows: Seq<Vec<i32>>, n: int) -> int
    decreases n,
{
    if n <= 0 {
        0
    } else {
        spec_rows_bytes(rows, n - 1) + 4 * rows[n - 1]@.len()
    }
}

/// Bytes held in a sample's decoded buffers.
pub open spec fn spec_sample_bytes(s: Sample) -> int {
    match s.source {
        SampleSource::InMemory(d) => spec_rows_bytes(d@, d@.len() as int),
        SampleSource::Streaming { attack, .. } => spec_rows_bytes(attack@, attack@.len() as int),
    }
}

/// Bytes held by the first `n` entries of the store.
pub open spec fn spec_store_bytes(s: Seq<StoreEntry>, n: int) -> int
    decreases n,
{
    if n <= 0 {
        0
    } else {
        spec_store_bytes(s, n - 1) + spec_sample_bytes(*s[n - 1].sample)
    }
}

/// Sum the lengths of decoded buffers, saturating at `u64::MAX`.
fn rows_bytes(rows: &Vec<Vec<i32>>) -> (r: u64)
    ensures
        r == if spec_rows_bytes(rows@, rows@.len() as int) > u64::MAX as int {
            u64::MAX as int
        } else {
            spec_rows_bytes(rows@, rows@.len() as int)
        },
{
    let mut acc: u64 = 0;
    let mut i: usize = 0;
    let n = rows.len();
    while i < n
        invariant
            0 <= i <= n,
            n == rows@.len(),
            acc == if spec_rows_bytes(rows@, i as int) > u64::MAX as int {
                u64::MAX as int
            } else {
                spec_rows_bytes(rows@, i as int)
            },
        decreases n - i,
    {
        let row_len: usize = rows[i].len();
        let add: u64 = if row_len as u64 <= u64::MAX / 4 {
            (row_len as u64) * 4
        } else {
            u64::MAX
        };
        proof {
            assert(spec_rows_bytes(rows@, i as int + 1) == spec_rows_bytes(rows@, i as int) + 4
                * rows@[i as int]@.len());
        }
        acc = acc.saturating_add(add);
        i = i + 1;
    }
    acc
}

impl Sampler {
    /// Total bytes held in decoded buffers across the store.
    pub closed spec fn spec_memory_usage(&self) -> int {
        spec_store_bytes(self.entries@, self.entries@.len() as int)
    }

    /// Total bytes held in decoded buffers across the store,
    /// saturating at `u64::MAX`.  This feeds the periodic log line.
    pub fn get_memory_usage(&self) -> (r: u64)
        ensures
            r == if self.spec_memory_usage() > u64::MAX as int {
                u64::MAX as int
            } else {
                self.spec_memory_usage()
            },
    {
        let mut acc: u64 = 0;
        let mut i: usize = 0;
        let n = self.entries.len();
        while i < n
            invariant
                0 <= i <= n,
                n == self.entries@.len(),
                acc == if spec_store_bytes(self.entries@, i as int) > u64::MAX as int {
                    u64::MAX as int
                } else {
                    spec_store_bytes(self.entries@, i as int)
                },
            decreases n - i,
        {
            let sample: &Sample = &*self.entries[i].sample;
            let add: u64 = match &sample.source {
                SampleSource::InMemory(d) => rows_bytes(d),
                SampleSource::Streaming { attack, .. } => rows_bytes(attack),
            };
            proof {
                assert(spec_store_bytes(self.entries@, i as int + 1) == spec_store_bytes(
                    self.entries@,
                    i as int,
                ) + spec_sample_bytes(*self.entries@[i as int].sample));
            }
            acc = acc.saturating_add(add);
            i = i + 1;
        }
        acc
    }
}

} // verus!
