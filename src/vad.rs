//! Streaming voice-activity segmenter.
//!
//! The segmenter is a state machine over fixed-size PCM chunks. Each chunk
//! comes with a speech probability supplied by an outside classifier; the
//! segmenter only compares it with the configured threshold.
use vstd::prelude::*;

verus! {

/// Number of samples in one segmenter chunk.
pub const CHUNK_SIZE: usize = 512;

/// Probabilities are fixed-point numbers in millionths: this value stands for 1.
pub const PROBABILITY_ONE: u32 = 1_000_000;

/// Options of the segmenter. Durations are in milliseconds; the threshold is a
/// probability in millionths (see `PROBABILITY_ONE`).
#[derive(Debug, Clone, Copy)]
pub struct VadConfig {
    pub sample_rate: u32,
    pub speech_threshold: u32,
    pub silence_duration_ms: u32,
    pub max_speech_duration_ms: u32,
    pub rollback_duration_ms: u32,
    pub min_speech_duration_ms: u32,
    pub notify_silence_after_ms: Option<u32>,
}

impl Default for VadConfig {
    fn default() -> (r: Self)
        ensures
            r.sample_rate == 16000,
            r.speech_threshold == PROBABILITY_ONE / 2,
            r.silence_duration_ms == 500,
            r.max_speech_duration_ms == 10000,
            r.rollback_duration_ms == 200,
            r.min_speech_duration_ms == 250,
            r.notify_silence_after_ms is None,
    {
        VadConfig {
            sample_rate: 16000,
            speech_threshold: PROBABILITY_ONE / 2,
            silence_duration_ms: 500,
            max_speech_duration_ms: 10000,
            rollback_duration_ms: 200,
            min_speech_duration_ms: 250,
            notify_silence_after_ms: None,
        }
    }
}

/// Why a configuration is refused.
#[derive(Debug, Clone, Copy, PartialEq, Eq)]
pub enum VadError {
    /// The sample rate or one of the durations is zero.
    ConfigurationError,
}

#[derive(Debug, Clone, Copy)]
enum VadState {
    Waiting,
    Recording,
}

/// What the segmenter hands out for one chunk, or at the end of the stream.
#[derive(Debug)]
pub enum VadOutput {
    Segment(Vec<i16>),
    SilenceNotification,
}

/// The spec-level form of an output.
pub enum Emission {
    Segment(Seq<i16>),
    SilenceNotification,
}

pub open spec fn emission_of(r: Option<VadOutput>) -> Option<Emission> {
    match r {
        None => None,
        Some(VadOutput::Segment(s)) => Some(Emission::Segment(s@)),
        Some(VadOutput::SilenceNotification) => Some(Emission::SilenceNotification),
    }
}

/// The spec-level form of an output that is there.
pub open spec fn emission(o: VadOutput) -> Emission {
    match o {
        VadOutput::Segment(s) => Emission::Segment(s@),
        VadOutput::SilenceNotification => Emission::SilenceNotification,
    }
}

/// A configuration that the segmenter accepts: a positive sample rate and
/// positive durations. The silence-notification timeout is optional, and a
/// timeout of 0 notifies at the first silent chunk.
pub open spec fn config_ok(c: VadConfig) -> bool {
    &&& c.sample_rate > 0
    &&& c.silence_duration_ms > 0
    &&& c.max_speech_duration_ms > 0
    &&& c.rollback_duration_ms > 0
    &&& c.min_speech_duration_ms > 0
}

/// The abstract state of a segmenter.
pub struct SegmenterState {
    pub config: VadConfig,
    pub recording: bool,
    pub segment: Seq<i16>,
    pub history: Seq<i16>,
    pub silence_chunks: nat,
    pub recorded_chunks: nat,
    pub dropped_chunks: nat,
    pub notified: bool,
}

/// `chunks` whole chunks last at least `limit_ms` milliseconds at `rate` Hz.
pub open spec fn chunks_reach(chunks: nat, limit_ms: u32, rate: u32) -> bool {
    chunks * (CHUNK_SIZE as int) * 1000 >= (limit_ms as int) * (rate as int)
}

/// How many samples the rollback history may hold.
pub open spec fn rollback_capacity(c: VadConfig) -> nat {
    ((c.rollback_duration_ms as int) * (c.sample_rate as int) / 1000) as nat
}

/// `len` samples last at least the minimum speech duration.
pub open spec fn long_enough(len: nat, c: VadConfig) -> bool {
    len * 1000 >= (c.min_speech_duration_ms as int) * (c.sample_rate as int)
}

/// The last `n` elements of `s` (all of `s` if it is shorter).
pub open spec fn keep_last(s: Seq<i16>, n: nat) -> Seq<i16> {
    if s.len() <= n {
        s
    } else {
        s.subrange(s.len() - n, s.len() as int)
    }
}

/// A counter step that stops at the largest `u64`.
pub open spec fn sat_inc(n: nat) -> nat {
    if n < u64::MAX {
        n + 1
    } else {
        n
    }
}

/// The state after a reset: waiting, with nothing buffered.
pub open spec fn idle(c: VadConfig) -> SegmenterState {
    SegmenterState {
        config: c,
        recording: false,
        segment: Seq::empty(),
        history: Seq::empty(),
        silence_chunks: 0,
        recorded_chunks: 0,
        dropped_chunks: 0,
        notified: false,
    }
}

/// The segment that closing in state `st` hands out, if any: the recorded
/// samples, less the trailing silent chunks when `trim_tail`, kept only when
/// non-empty and at least the minimum speech duration long.
pub open spec fn finalized(st: SegmenterState, trim_tail: bool) -> Option<Emission> {
    let keep: int = if trim_tail {
        st.segment.len() - st.silence_chunks * (CHUNK_SIZE as int)
    } else {
        st.segment.len() as int
    };
    let seg = if keep <= 0 { Seq::<i16>::empty() } else { st.segment.take(keep) };
    if seg.len() > 0 && long_enough(seg.len(), st.config) {
        Some(Emission::Segment(seg))
    } else {
        None
    }
}

/// One transition: the state and output after `chunk`, which the classifier
/// judged to be speech when `speech`.
pub open spec fn step(st: SegmenterState, chunk: Seq<i16>, speech: bool) -> (SegmenterState, Option<Emission>) {
    let c = st.config;
    if !st.recording {
        if speech {
            (SegmenterState {
                config: c,
                recording: true,
                segment: st.history + chunk,
                history: Seq::empty(),
                silence_chunks: 0,
                recorded_chunks: 0,
                dropped_chunks: 0,
                notified: false,
            }, None)
        } else {
            let history = keep_last(st.history + chunk, rollback_capacity(c));
            match c.notify_silence_after_ms {
                None => (SegmenterState { history: history, ..st }, None),
                Some(limit) => {
                    let dropped = sat_inc(st.dropped_chunks);
                    if chunks_reach(dropped, limit, c.sample_rate) && !st.notified {
                        (SegmenterState { history: history, dropped_chunks: dropped, notified: true, ..st },
                            Some(Emission::SilenceNotification))
                    } else {
                        (SegmenterState { history: history, dropped_chunks: dropped, ..st }, None)
                    }
                },
            }
        }
    } else {
        let segment = st.segment + chunk;
        let recorded = sat_inc(st.recorded_chunks);
        if speech {
            let s = SegmenterState { segment: segment, recorded_chunks: recorded, silence_chunks: 0, ..st };
            if chunks_reach(recorded, c.max_speech_duration_ms, c.sample_rate) {
                (idle(c), finalized(s, false))
            } else {
                (s, None)
            }
        } else {
            let silence = sat_inc(st.silence_chunks);
            let s = SegmenterState { segment: segment, recorded_chunks: recorded, silence_chunks: silence, ..st };
            if chunks_reach(silence, c.silence_duration_ms, c.sample_rate) {
                (idle(c), finalized(s, true))
            } else {
                (s, None)
            }
        }
    }
}

/// What `finish` does: a segment in progress is handed out if it is long
/// enough, and the state is reset; with none, nothing changes.
pub open spec fn finished(st: SegmenterState) -> (SegmenterState, Option<Emission>) {
    if st.segment.len() == 0 {
        (st, None)
    } else if long_enough(st.segment.len(), st.config) {
        (idle(st.config), Some(Emission::Segment(st.segment)))
    } else {
        (idle(st.config), None)
    }
}


/// The product of two `u64` values, which always fits a `u128`.
fn wide_mul(a: u64, b: u64) -> (r: u128)
    ensures
        r == a as int * b as int,
{
    proof {
        assert(a as int * b as int <= u64::MAX as int * u64::MAX as int) by (nonlinear_arith)
            requires
                0 <= a <= u64::MAX,
                0 <= b <= u64::MAX,
        ;
    }
    (a as u128) * (b as u128)
}

/// Exec form of `chunks_reach`.
fn reaches(chunks: u64, limit_ms: u32, rate: u32) -> (r: bool)
    ensures
        r == chunks_reach(chunks as nat, limit_ms, rate),
{
    proof {
        assert(chunks as int * (CHUNK_SIZE as int) * 1000 == chunks as int * 512000);
    }
    wide_mul(chunks, 512000) >= wide_mul(limit_ms as u64, rate as u64)
}

/// Exec form of `rollback_capacity`.
fn rollback_samples(c: &VadConfig) -> (r: u64)
    ensures
        r as nat == rollback_capacity(*c),
{
    let a = c.rollback_duration_ms as u64;
    let b = c.sample_rate as u64;
    proof {
        assert(a as int * b as int <= u32::MAX as int * u32::MAX as int) by (nonlinear_arith)
            requires
                0 <= a <= u32::MAX,
                0 <= b <= u32::MAX,
        ;
    }
    a * b / 1000
}

/// Exec form of `long_enough`.
fn lasts_long_enough(len: usize, c: &VadConfig) -> (r: bool)
    ensures
        r == long_enough(len as nat, *c),
{
    wide_mul(len as u64, 1000) >= wide_mul(c.min_speech_duration_ms as u64, c.sample_rate as u64)
}

/// Appends `src` to `dst`.
fn append_samples(dst: &mut Vec<i16>, src: &[i16])
    ensures
        final(dst)@ == old(dst)@ + src@,
{
    let mut i: usize = 0;
    while i < src.len()
        invariant
            i <= src@.len(),
            dst@ == old(dst)@ + src@.take(i as int),
        decreases src@.len() - i,
    {
        dst.push(src[i]);
        i = i + 1;
        assert(src@.take(i as int) == src@.take(i - 1) + seq![src@[i - 1]]);
    }
    assert(src@.take(src@.len() as int) == src@);
}

/// A copy of `v[from..to]`.
fn copy_range(v: &Vec<i16>, from: usize, to: usize) -> (r: Vec<i16>)
    requires
        from <= to <= v@.len(),
    ensures
        r@ == v@.subrange(from as int, to as int),
{
    let mut r: Vec<i16> = Vec::new();
    let mut i: usize = from;
    while i < to
        invariant
            from <= i <= to <= v@.len(),
            r@ == v@.subrange(from as int, i as int),
        decreases to - i,
    {
        r.push(v[i]);
        i = i + 1;
        assert(r@ =~= v@.subrange(from as int, i as int));
    }
    r
}

/// A segmenter over one stream.
#[derive(Debug)]
pub struct VadProcessor {
    config: VadConfig,
    state: VadState,
    current_segment: Vec<i16>,
    history_buffer: Vec<i16>,
    silence_chunks: u64,
    speech_chunks: u64,
    waiting_dropped_chunks: u64,
    notified_silence: bool,
}

impl View for VadProcessor {
    type V = SegmenterState;

    closed spec fn view(&self) -> SegmenterState {
        SegmenterState {
            config: self.config,
            recording: self.state is Recording,
            segment: self.current_segment@,
            history: self.history_buffer@,
            silence_chunks: self.silence_chunks as nat,
            recorded_chunks: self.speech_chunks as nat,
            dropped_chunks: self.waiting_dropped_chunks as nat,
            notified: self.notified_silence,
        }
    }
}

impl VadProcessor {
    /// A segmenter in the waiting state. A zero sample rate or duration is
    /// refused.
    pub fn new(config: VadConfig) -> (r: Result<Self, VadError>)
        ensures
            r is Err <==> !config_ok(config),
            r matches Ok(p) ==> p@ == idle(config),
    {
        if config.sample_rate == 0 || config.silence_duration_ms == 0 || config.max_speech_duration_ms == 0
            || config.rollback_duration_ms == 0 || config.min_speech_duration_ms == 0 {
            return Err(VadError::ConfigurationError);
        }
        Ok(VadProcessor {
            config,
            state: VadState::Waiting,
            current_segment: Vec::new(),
            history_buffer: Vec::new(),
            silence_chunks: 0,
            speech_chunks: 0,
            waiting_dropped_chunks: 0,
            notified_silence: false,
        })
    }

    /// The configuration in use.
    pub fn config(&self) -> (r: VadConfig)
        ensures
            r == self@.config,
    {
        self.config
    }

    /// Sets or clears the silence-notification timeout. Clearing it also
    /// forgets that a notification was sent.
    pub fn set_notify_silence_after_ms(&mut self, ms: Option<u32>)
        ensures
            final(self)@ == (SegmenterState {
                config: VadConfig { notify_silence_after_ms: ms, ..old(self)@.config },
                notified: if ms is None { false } else { old(self)@.notified },
                ..old(self)@
            }),
    {
        self.config.notify_silence_after_ms = ms;
        if ms.is_none() {
            self.notified_silence = false;
        }
    }

    /// Feeds one chunk, with the classifier's speech probability for it (in
    /// millionths). The chunk counts as speech when the probability is above
    /// the threshold.
    pub fn process_chunk(&mut self, chunk: &[i16; CHUNK_SIZE], probability: u32) -> (r: Option<VadOutput>)
        ensures
            (final(self)@, emission_of(r)) == step(old(self)@, chunk@, probability > old(self)@.config.speech_threshold),
            r matches Some(VadOutput::Segment(s)) ==> s@.len() > 0 && long_enough(s@.len(), old(self)@.config),
    {
        let speech = probability > self.config.speech_threshold;
        let samples = chunk.as_slice();
        match self.state {
            VadState::Waiting => {
                if speech {
                    self.state = VadState::Recording;
                    let mut seg = Vec::new();
                    std::mem::swap(&mut seg, &mut self.history_buffer);
                    append_samples(&mut seg, samples);
                    self.current_segment = seg;
                    self.silence_chunks = 0;
                    self.speech_chunks = 0;
                    self.waiting_dropped_chunks = 0;
                    self.notified_silence = false;
                    None
                } else {
                    append_samples(&mut self.history_buffer, samples);
                    let cap = rollback_samples(&self.config);
                    let len = self.history_buffer.len();
                    if len as u64 > cap {
                        let from = (len as u64 - cap) as usize;
                        self.history_buffer = copy_range(&self.history_buffer, from, len);
                    }
                    assert(self.history_buffer@ == keep_last(old(self)@.history + chunk@, rollback_capacity(self.config)));
                    if let Some(limit_ms) = self.config.notify_silence_after_ms {
                        self.waiting_dropped_chunks = self.waiting_dropped_chunks.saturating_add(1);
                        if reaches(self.waiting_dropped_chunks, limit_ms, self.config.sample_rate)
                            && !self.notified_silence {
                            self.notified_silence = true;
                            return Some(VadOutput::SilenceNotification);
                        }
                    }
                    None
                }
            },
            VadState::Recording => {
                append_samples(&mut self.current_segment, samples);
                self.speech_chunks = self.speech_chunks.saturating_add(1);
                if speech {
                    self.silence_chunks = 0;
                    if reaches(self.speech_chunks, self.config.max_speech_duration_ms, self.config.sample_rate) {
                        return self.finalize_segment(false);
                    }
                } else {
                    self.silence_chunks = self.silence_chunks.saturating_add(1);
                    if reaches(self.silence_chunks, self.config.silence_duration_ms, self.config.sample_rate) {
                        return self.finalize_segment(true);
                    }
                }
                None
            },
        }
    }

    /// Feeds `chunks` in order, chunk `i` with probability `probs[i]`, and
    /// collects the outputs.
    pub fn process_chunks(&mut self, chunks: &[[i16; CHUNK_SIZE]], probs: &[u32]) -> (r: Vec<VadOutput>)
        requires
            chunks@.len() == probs@.len(),
        ensures
            (final(self)@, r@.map_values(|o: VadOutput| emission(o))) == run(
                old(self)@,
                chunks@.map_values(|c: [i16; CHUNK_SIZE]| c@),
                probs@,
            ),
    {
        let ghost cs = chunks@.map_values(|c: [i16; CHUNK_SIZE]| c@);
        let ghost ps = probs@;
        let mut outs: Vec<VadOutput> = Vec::new();
        let mut i: usize = 0;
        assert(cs.skip(0) =~= cs);
        assert(ps.skip(0) =~= ps);
        assert(outs@.map_values(|o: VadOutput| emission(o)) + run(self@, cs, ps).1 =~= run(self@, cs, ps).1);
        while i < chunks.len()
            invariant
                i <= chunks@.len() == probs@.len(),
                cs == chunks@.map_values(|c: [i16; CHUNK_SIZE]| c@),
                ps == probs@,
                run(old(self)@, cs, ps) == (
                    run(self@, cs.skip(i as int), ps.skip(i as int)).0,
                    outs@.map_values(|o: VadOutput| emission(o)) + run(self@, cs.skip(i as int), ps.skip(i as int)).1,
                ),
            decreases chunks@.len() - i,
        {
            let ghost before = self@;
            let ghost done = outs@.map_values(|o: VadOutput| emission(o));
            assert(cs.skip(i as int).drop_first() =~= cs.skip(i + 1));
            assert(ps.skip(i as int).drop_first() =~= ps.skip(i + 1));
            assert(cs.skip(i as int)[0] == chunks@[i as int]@);
            let out = self.process_chunk(&chunks[i], probs[i]);
            let ghost rest = run(self@, cs.skip(i + 1), ps.skip(i + 1));
            match out {
                Some(o) => {
                    outs.push(o);
                    assert(outs@.map_values(|o: VadOutput| emission(o)) =~= done.push(emission(o)));
                    assert(done + (seq![emission(o)] + rest.1) =~= done.push(emission(o)) + rest.1);
                },
                None => {},
            }
            i = i + 1;
        }
        assert(cs.skip(i as int).len() == 0);
        assert(outs@.map_values(|o: VadOutput| emission(o)) + Seq::<Emission>::empty()
            =~= outs@.map_values(|o: VadOutput| emission(o)));
        outs
    }

    fn finalize_segment(&mut self, trim_tail: bool) -> (r: Option<VadOutput>)
        ensures
            final(self)@ == idle(old(self)@.config),
            emission_of(r) == finalized(old(self)@, trim_tail),
    {
        let len = self.current_segment.len();
        let keep: usize = if trim_tail {
            let silence_len: u128 = (self.silence_chunks as u128) * (CHUNK_SIZE as u128);
            if (len as u128) > silence_len {
                (len as u128 - silence_len) as usize
            } else {
                0
            }
        } else {
            len
        };
        let segment = copy_range(&self.current_segment, 0, keep);
        let long = lasts_long_enough(segment.len(), &self.config);
        self.reset();
        if segment.len() > 0 && long {
            Some(VadOutput::Segment(segment))
        } else {
            None
        }
    }

    fn reset(&mut self)
        ensures
            final(self)@ == idle(old(self)@.config),
    {
        self.current_segment = Vec::new();
        self.history_buffer = Vec::new();
        self.silence_chunks = 0;
        self.speech_chunks = 0;
        self.state = VadState::Waiting;
        self.waiting_dropped_chunks = 0;
        self.notified_silence = false;
    }

    /// Ends the stream: a segment in progress is handed out if it lasts at
    /// least the minimum speech duration (no tail trimming), then the state
    /// is reset.
    pub fn finish(&mut self) -> (r: Option<VadOutput>)
        ensures
            (final(self)@, emission_of(r)) == finished(old(self)@),
            r matches Some(VadOutput::Segment(s)) ==> s@.len() > 0 && long_enough(s@.len(), old(self)@.config),
    {
        if self.current_segment.len() > 0 {
            let long = lasts_long_enough(self.current_segment.len(), &self.config);
            if !long {
                self.reset();
                return None;
            }
            let mut segment = Vec::new();
            std::mem::swap(&mut segment, &mut self.current_segment);
            self.reset();
            Some(VadOutput::Segment(segment))
        } else {
            None
        }
    }
}

/// The state and outputs after feeding `chunks` in order, chunk `i` with
/// speech probability `probs[i]`.
pub open spec fn run(st: SegmenterState, chunks: Seq<Seq<i16>>, probs: Seq<u32>) -> (SegmenterState, Seq<Emission>)
    decreases chunks.len(),
{
    if chunks.len() == 0 || probs.len() == 0 {
        (st, Seq::empty())
    } else {
        let (next, out) = step(st, chunks[0], probs[0] > st.config.speech_threshold);
        let (last, rest) = run(next, chunks.drop_first(), probs.drop_first());
        (last, match out {
            Some(e) => seq![e] + rest,
            None => rest,
        })
    }
}

/// While waiting with no silence-notification timeout, chunks whose speech
/// probability is at most the threshold produce no output at all.
pub proof fn lemma_silence_yields_nothing(st: SegmenterState, chunks: Seq<Seq<i16>>, probs: Seq<u32>)
    requires
        !st.recording,
        st.config.notify_silence_after_ms is None,
        chunks.len() == probs.len(),
        forall|i: int| 0 <= i < probs.len() ==> #[trigger] probs[i] <= st.config.speech_threshold,
    ensures
        run(st, chunks, probs).1.len() == 0,
        !run(st, chunks, probs).0.recording,
    decreases chunks.len(),
{
    if chunks.len() > 0 {
        let next = step(st, chunks[0], probs[0] > st.config.speech_threshold).0;
        assert(probs[0] <= st.config.speech_threshold);
        let rest = probs.drop_first();
        assert forall|i: int| 0 <= i < rest.len() implies #[trigger] rest[i] <= next.config.speech_threshold by {
            assert(rest[i] == probs[i + 1]);
        }
        lemma_silence_yields_nothing(next, chunks.drop_first(), rest);
    }
}

/// The chunks of `cs`, joined in order.
pub open spec fn joined(cs: Seq<Seq<i16>>) -> Seq<i16>
    decreases cs.len(),
{
    if cs.len() == 0 {
        Seq::empty()
    } else {
        cs[0] + joined(cs.drop_first())
    }
}

/// An optional output as a sequence of outputs.
pub open spec fn as_outputs(o: Option<Emission>) -> Seq<Emission> {
    match o {
        Some(e) => seq![e],
        None => Seq::empty(),
    }
}

/// Every chunk of `cs` has `CHUNK_SIZE` samples.
pub open spec fn whole_chunks(cs: Seq<Seq<i16>>) -> bool {
    forall|i: int| 0 <= i < cs.len() ==> #[trigger] cs[i].len() == CHUNK_SIZE
}

proof fn lemma_joined_len(cs: Seq<Seq<i16>>)
    requires
        whole_chunks(cs),
    ensures
        joined(cs).len() == cs.len() * CHUNK_SIZE,
    decreases cs.len(),
{
    if cs.len() > 0 {
        assert(cs[0].len() == CHUNK_SIZE);
        assert(whole_chunks(cs.drop_first())) by {
            assert forall|i: int| 0 <= i < cs.drop_first().len() implies #[trigger] cs.drop_first()[i].len()
                == CHUNK_SIZE by {
                assert(cs.drop_first()[i] == cs[i + 1]);
            }
        }
        lemma_joined_len(cs.drop_first());
        assert((cs.len() - 1) * CHUNK_SIZE + CHUNK_SIZE == cs.len() * CHUNK_SIZE) by (nonlinear_arith);
    }
}

proof fn lemma_reach_monotone(a: nat, b: nat, limit_ms: u32, rate: u32)
    requires
        a <= b,
        !chunks_reach(b, limit_ms, rate),
    ensures
        !chunks_reach(a, limit_ms, rate),
{
    assert(a * (CHUNK_SIZE as int) * 1000 <= b * (CHUNK_SIZE as int) * 1000) by (nonlinear_arith)
        requires
            a <= b,
    ;
}

/// Speech chunks while recording, short of the maximum duration, only grow
/// the segment.
proof fn lemma_speech_run(s: SegmenterState, cs: Seq<Seq<i16>>, probs: Seq<u32>)
    requires
        s.recording,
        s.silence_chunks == 0,
        cs.len() == probs.len(),
        forall|i: int| 0 <= i < probs.len() ==> #[trigger] probs[i] > s.config.speech_threshold,
        s.recorded_chunks + cs.len() < u64::MAX,
        !chunks_reach(s.recorded_chunks + cs.len(), s.config.max_speech_duration_ms, s.config.sample_rate),
    ensures
        run(s, cs, probs) == (SegmenterState {
            segment: s.segment + joined(cs),
            recorded_chunks: s.recorded_chunks + cs.len(),
            ..s
        }, Seq::<Emission>::empty()),
    decreases cs.len(),
{
    if cs.len() == 0 {
        assert(s.segment + joined(cs) =~= s.segment);
    } else {
        assert(probs[0] > s.config.speech_threshold);
        let c = s.config;
        lemma_reach_monotone(s.recorded_chunks + 1, s.recorded_chunks + cs.len(), c.max_speech_duration_ms, c.sample_rate);
        let next = SegmenterState { segment: s.segment + cs[0], recorded_chunks: s.recorded_chunks + 1, ..s };
        assert(step(s, cs[0], true) == (next, Option::<Emission>::None));
        let rest = probs.drop_first();
        assert forall|i: int| 0 <= i < rest.len() implies #[trigger] rest[i] > next.config.speech_threshold by {
            assert(rest[i] == probs[i + 1]);
        }
        lemma_speech_run(next, cs.drop_first(), rest);
        assert(next.segment + joined(cs.drop_first()) =~= s.segment + joined(cs));
    }
}

/// Quiet chunks while recording, up to the one whose silence reaches the
/// configured duration, close the segment with its tail trimmed.
proof fn lemma_quiet_run(s: SegmenterState, cs: Seq<Seq<i16>>, probs: Seq<u32>)
    requires
        s.recording,
        cs.len() == probs.len(),
        cs.len() >= 1,
        forall|i: int| 0 <= i < probs.len() ==> #[trigger] probs[i] <= s.config.speech_threshold,
        s.recorded_chunks + cs.len() < u64::MAX,
        s.silence_chunks + cs.len() < u64::MAX,
        forall|j: nat| 1 <= j < cs.len() ==> !#[trigger] chunks_reach(
            s.silence_chunks + j,
            s.config.silence_duration_ms,
            s.config.sample_rate,
        ),
        chunks_reach(s.silence_chunks + cs.len(), s.config.silence_duration_ms, s.config.sample_rate),
    ensures
        run(s, cs, probs) == (idle(s.config), as_outputs(
            finalized(
                SegmenterState {
                    segment: s.segment + joined(cs),
                    recorded_chunks: s.recorded_chunks + cs.len(),
                    silence_chunks: s.silence_chunks + cs.len(),
                    ..s
                },
                true,
            ),
        )),
    decreases cs.len(),
{
    let c = s.config;
    assert(probs[0] <= c.speech_threshold);
    let next = SegmenterState {
        segment: s.segment + cs[0],
        recorded_chunks: s.recorded_chunks + 1,
        silence_chunks: s.silence_chunks + 1,
        ..s
    };
    if cs.len() == 1 {
        assert(joined(cs.drop_first()) =~= Seq::<i16>::empty());
        assert(s.segment + joined(cs) =~= next.segment);
        assert(run(idle(c), cs.drop_first(), probs.drop_first()).1 =~= Seq::<Emission>::empty());
        assert(as_outputs(finalized(next, true)) + Seq::<Emission>::empty() =~= as_outputs(finalized(next, true)));
    } else {
        assert(!chunks_reach(s.silence_chunks + 1, c.silence_duration_ms, c.sample_rate));
        assert(step(s, cs[0], false) == (next, Option::<Emission>::None));
        let rest = probs.drop_first();
        assert forall|i: int| 0 <= i < rest.len() implies #[trigger] rest[i] <= next.config.speech_threshold by {
            assert(rest[i] == probs[i + 1]);
        }
        assert forall|j: nat| 1 <= j < cs.drop_first().len() implies !#[trigger] chunks_reach(
            next.silence_chunks + j,
            next.config.silence_duration_ms,
            next.config.sample_rate,
        ) by {
            assert(!chunks_reach(s.silence_chunks + (j + 1) as nat, c.silence_duration_ms, c.sample_rate));
            assert(next.silence_chunks + j == s.silence_chunks + (j + 1) as nat);
        }
        lemma_quiet_run(next, cs.drop_first(), rest);
        assert(next.segment + joined(cs.drop_first()) =~= s.segment + joined(cs));
    }
}

/// From waiting, `speech` chunks above the threshold and then `quiet` chunks
/// at or below it, where the last quiet chunk is the first whose silence
/// reaches the silence duration and the speech stays short of the maximum
/// duration, give exactly one output: the rollback history followed by the
/// speech chunks, with the quiet tail trimmed, if it lasts at least the
/// minimum speech duration; else none. The segmenter is waiting again after.
pub proof fn lemma_utterance_gives_one_segment(
    st: SegmenterState,
    speech: Seq<Seq<i16>>,
    speech_probs: Seq<u32>,
    quiet: Seq<Seq<i16>>,
    quiet_probs: Seq<u32>,
)
    requires
        !st.recording,
        whole_chunks(speech),
        whole_chunks(quiet),
        speech.len() >= 1,
        speech.len() == speech_probs.len(),
        quiet.len() >= 1,
        quiet.len() == quiet_probs.len(),
        forall|i: int| 0 <= i < speech_probs.len() ==> #[trigger] speech_probs[i] > st.config.speech_threshold,
        forall|i: int| 0 <= i < quiet_probs.len() ==> #[trigger] quiet_probs[i] <= st.config.speech_threshold,
        speech.len() + quiet.len() < u64::MAX,
        !chunks_reach((speech.len() - 1) as nat, st.config.max_speech_duration_ms, st.config.sample_rate),
        forall|j: nat| 1 <= j < quiet.len() ==> !#[trigger] chunks_reach(
            j,
            st.config.silence_duration_ms,
            st.config.sample_rate,
        ),
        chunks_reach(quiet.len(), st.config.silence_duration_ms, st.config.sample_rate),
    ensures
        run(st, speech, speech_probs).1.len() == 0,
        run(run(st, speech, speech_probs).0, quiet, quiet_probs).0 == idle(st.config),
        (st.history + joined(speech)).len() == st.history.len() + speech.len() * CHUNK_SIZE,
        run(run(st, speech, speech_probs).0, quiet, quiet_probs).1 == if long_enough(
            (st.history + joined(speech)).len(),
            st.config,
        ) {
            seq![Emission::Segment(st.history + joined(speech))]
        } else {
            Seq::<Emission>::empty()
        },
{
    let c = st.config;
    lemma_joined_len(speech);
    lemma_joined_len(quiet);
    assert(speech_probs[0] > c.speech_threshold);
    let entered = SegmenterState {
        config: c,
        recording: true,
        segment: st.history + speech[0],
        history: Seq::empty(),
        silence_chunks: 0,
        recorded_chunks: 0,
        dropped_chunks: 0,
        notified: false,
    };
    assert(step(st, speech[0], true) == (entered, Option::<Emission>::None));
    let rest = speech_probs.drop_first();
    assert forall|i: int| 0 <= i < rest.len() implies #[trigger] rest[i] > entered.config.speech_threshold by {
        assert(rest[i] == speech_probs[i + 1]);
    }
    lemma_speech_run(entered, speech.drop_first(), rest);
    let seg = st.history + joined(speech);
    assert(entered.segment + joined(speech.drop_first()) =~= seg);
    let recorded = SegmenterState { segment: seg, recorded_chunks: (speech.len() - 1) as nat, ..entered };
    assert(run(st, speech, speech_probs) == (recorded, Seq::<Emission>::empty()));
    assert forall|j: nat| 1 <= j < quiet.len() implies !#[trigger] chunks_reach(
        recorded.silence_chunks + j,
        recorded.config.silence_duration_ms,
        recorded.config.sample_rate,
    ) by {
        assert(!chunks_reach(j, c.silence_duration_ms, c.sample_rate));
    }
    assert(chunks_reach(recorded.silence_chunks + quiet.len(), c.silence_duration_ms, c.sample_rate));
    lemma_quiet_run(recorded, quiet, quiet_probs);
    let closed = SegmenterState {
        segment: seg + joined(quiet),
        recorded_chunks: recorded.recorded_chunks + quiet.len(),
        silence_chunks: quiet.len(),
        ..recorded
    };
    assert(closed.segment.len() - closed.silence_chunks * (CHUNK_SIZE as int) == seg.len());
    assert(closed.segment.take(seg.len() as int) =~= seg);
    assert(seg.len() >= CHUNK_SIZE);
}

/// Keeping the last `n` samples twice keeps the last `n` of the whole.
proof fn lemma_keep_last_twice(x: Seq<i16>, y: Seq<i16>, n: nat)
    ensures
        keep_last(keep_last(x, n) + y, n) == keep_last(x + y, n),
{
    let k = keep_last(x, n);
    if x.len() > n {
        if k.len() + y.len() <= n {
            assert(y.len() == 0);
            assert(x + y =~= x);
            assert(k + y =~= k);
        }
        let a = keep_last(k + y, n);
        let b = keep_last(x + y, n);
        assert(a.len() == b.len());
        assert forall|i: int| 0 <= i < a.len() implies a[i] == b[i] by {
            let j = i + (y.len() - n);
            if j < 0 {
                assert(a[i] == k[n + j]);
                assert(b[i] == x[x.len() + j]);
            }
        }
        assert(a =~= b);
    }
}

/// Quiet chunks while waiting, with no silence-notification timeout, only
/// feed the rollback history.
proof fn lemma_waiting_run(st: SegmenterState, cs: Seq<Seq<i16>>, probs: Seq<u32>)
    requires
        !st.recording,
        st.config.notify_silence_after_ms is None,
        st.history.len() <= rollback_capacity(st.config),
        cs.len() == probs.len(),
        forall|i: int| 0 <= i < probs.len() ==> #[trigger] probs[i] <= st.config.speech_threshold,
    ensures
        run(st, cs, probs) == (SegmenterState {
            history: keep_last(st.history + joined(cs), rollback_capacity(st.config)),
            ..st
        }, Seq::<Emission>::empty()),
    decreases cs.len(),
{
    let cap = rollback_capacity(st.config);
    if cs.len() == 0 {
        assert(st.history + joined(cs) =~= st.history);
    } else {
        assert(probs[0] <= st.config.speech_threshold);
        let next = SegmenterState { history: keep_last(st.history + cs[0], cap), ..st };
        let rest = probs.drop_first();
        assert forall|i: int| 0 <= i < rest.len() implies #[trigger] rest[i] <= next.config.speech_threshold by {
            assert(rest[i] == probs[i + 1]);
        }
        lemma_waiting_run(next, cs.drop_first(), rest);
        lemma_keep_last_twice(st.history + cs[0], joined(cs.drop_first()), cap);
        assert(st.history + cs[0] + joined(cs.drop_first()) =~= st.history + joined(cs));
    }
}

/// From a fresh segmenter with no silence-notification timeout: `pre` chunks
/// at or below the threshold, then `speech` chunks above it, then `quiet`
/// chunks at or below it, where the last quiet chunk is the first whose
/// silence reaches the silence duration and the speech stays short of the
/// maximum duration. The first two runs give nothing; the last gives exactly
/// one segment, the last `rollback_capacity` samples of `pre` followed by the
/// speech, with the quiet tail trimmed, if it lasts at least the minimum
/// speech duration, and else nothing.
pub proof fn lemma_fresh_utterance(
    c: VadConfig,
    pre: Seq<Seq<i16>>,
    pre_probs: Seq<u32>,
    speech: Seq<Seq<i16>>,
    speech_probs: Seq<u32>,
    quiet: Seq<Seq<i16>>,
    quiet_probs: Seq<u32>,
)
    requires
        c.notify_silence_after_ms is None,
        pre.len() == pre_probs.len(),
        forall|i: int| 0 <= i < pre_probs.len() ==> #[trigger] pre_probs[i] <= c.speech_threshold,
        whole_chunks(speech),
        whole_chunks(quiet),
        speech.len() >= 1,
        speech.len() == speech_probs.len(),
        quiet.len() >= 1,
        quiet.len() == quiet_probs.len(),
        forall|i: int| 0 <= i < speech_probs.len() ==> #[trigger] speech_probs[i] > c.speech_threshold,
        forall|i: int| 0 <= i < quiet_probs.len() ==> #[trigger] quiet_probs[i] <= c.speech_threshold,
        speech.len() + quiet.len() < u64::MAX,
        !chunks_reach((speech.len() - 1) as nat, c.max_speech_duration_ms, c.sample_rate),
        forall|j: nat| 1 <= j < quiet.len() ==> !#[trigger] chunks_reach(j, c.silence_duration_ms, c.sample_rate),
        chunks_reach(quiet.len(), c.silence_duration_ms, c.sample_rate),
    ensures
        ({
            let waited = run(idle(c), pre, pre_probs);
            let recorded = run(waited.0, speech, speech_probs);
            let closed = run(recorded.0, quiet, quiet_probs);
            let seg = keep_last(joined(pre), rollback_capacity(c)) + joined(speech);
            &&& waited.1.len() == 0
            &&& recorded.1.len() == 0
            &&& closed.0 == idle(c)
            &&& seg.len() == keep_last(joined(pre), rollback_capacity(c)).len() + speech.len() * CHUNK_SIZE
            &&& closed.1 == if long_enough(seg.len(), c) {
                seq![Emission::Segment(seg)]
            } else {
                Seq::<Emission>::empty()
            }
        }),
{
    let st = idle(c);
    lemma_waiting_run(st, pre, pre_probs);
    assert(st.history + joined(pre) =~= joined(pre));
    let waited = run(st, pre, pre_probs).0;
    lemma_utterance_gives_one_segment(waited, speech, speech_probs, quiet, quiet_probs);
}

} // verus!
