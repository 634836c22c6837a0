//! The greedy decode loop, as a session that the caller drives: the session
//! says which token and position to score next, and takes the scores back.
use vstd::prelude::*;

verus! {

/// Start-of-transcript token.
pub const SOT: i64 = 50258;

/// End-of-transcript token.
pub const EOT: i64 = 50257;

/// Largest number of decode steps.
pub const MAX_LEN: usize = 448;

/// Layers of the decoder's self-attention cache.
pub const N_LAYER: usize = 32;

/// Width of one cache position.
pub const D_MODEL: usize = 1280;

/// `k` is the first index of a largest key.
pub open spec fn is_first_max(keys: Seq<u32>, k: int) -> bool {
    &&& 0 <= k < keys.len()
    &&& forall|j: int| 0 <= j < keys.len() ==> keys[j] <= keys[k]
    &&& forall|j: int| 0 <= j < k ==> keys[j] < keys[k]
}

/// The first index of a largest key: a later key replaces the best only when
/// strictly greater.
pub fn argmax_first(keys: &[u32]) -> (r: usize)
    requires
        keys@.len() > 0,
    ensures
        is_first_max(keys@, r as int),
{
    let mut best: usize = 0;
    let mut i: usize = 1;
    while i < keys.len()
        invariant
            0 <= best < i <= keys@.len(),
            forall|j: int| 0 <= j < i ==> keys@[j] <= keys@[best as int],
            forall|j: int| 0 <= j < best ==> keys@[j] < keys@[best as int],
        decreases keys@.len() - i,
    {
        if keys[i] > keys[best] {
            best = i;
        }
        i = i + 1;
    }
    best
}

/// One utterance's decode: the tokens so far, the steps taken, and whether
/// the end token was seen.
pub struct DecodeSession {
    tokens: Vec<i64>,
    steps: usize,
    ended: bool,
}

/// The abstract state of a session.
pub struct DecodeState {
    pub tokens: Seq<i64>,
    pub steps: nat,
    pub ended: bool,
}

/// A session is over once the end token came or `MAX_LEN` steps were taken.
pub open spec fn is_over(s: DecodeState) -> bool {
    s.ended || s.steps >= MAX_LEN
}

/// How many steps a session may still take.
pub open spec fn steps_left(s: DecodeState) -> nat {
    if is_over(s) {
        0
    } else {
        (MAX_LEN - s.steps) as nat
    }
}

/// The invariant of a session: it starts with the start token, never holds
/// the end token, has one token per step that did not end it, and has taken
/// at most `MAX_LEN` steps.
pub open spec fn session_ok(s: DecodeState) -> bool {
    &&& s.tokens.len() >= 1
    &&& s.tokens[0] == SOT
    &&& !s.tokens.contains(EOT)
    &&& s.steps <= MAX_LEN
    &&& s.tokens.len() <= s.steps + 1
    &&& !s.ended ==> s.tokens.len() == s.steps + 1
}

impl View for DecodeSession {
    type V = DecodeState;

    closed spec fn view(&self) -> DecodeState {
        DecodeState { tokens: self.tokens@, steps: self.steps as nat, ended: self.ended }
    }
}

impl DecodeSession {
    /// A fresh session: the start token alone, no step taken.
    pub fn new() -> (r: Self)
        ensures
            r@.tokens == seq![SOT],
            r@.steps == 0,
            !r@.ended,
            session_ok(r@),
    {
        let r = DecodeSession { tokens: vec![SOT], steps: 0, ended: false };
        assert(!r@.tokens.contains(EOT)) by {
            assert(r@.tokens[0] != EOT);
        }
        r
    }

    /// What to score next: the last token and its position, or `None` when
    /// the session is over.
    pub fn next_query(&self) -> (r: Option<(i64, usize)>)
        requires
            session_ok(self@),
        ensures
            is_over(self@) <==> r is None,
            r matches Some((tok, pos)) ==> tok == self@.tokens.last() && pos == self@.steps,
    {
        if self.ended || self.steps >= MAX_LEN {
            None
        } else {
            Some((self.tokens[self.tokens.len() - 1], self.steps))
        }
    }

    /// Takes the token chosen at this step: the end token ends the session
    /// and is not kept; any other is appended.
    pub fn advance(&mut self, next: i64)
        requires
            session_ok(old(self)@),
            !is_over(old(self)@),
        ensures
            session_ok(final(self)@),
            final(self)@.steps == old(self)@.steps + 1,
            steps_left(final(self)@) < steps_left(old(self)@),
            next == EOT ==> final(self)@.ended && final(self)@.tokens == old(self)@.tokens,
            next != EOT ==> !final(self)@.ended && final(self)@.tokens == old(self)@.tokens.push(next),
    {
        if next == EOT {
            self.ended = true;
        } else {
            self.tokens.push(next);
            assert(!self@.tokens.contains(EOT)) by {
                assert forall|i: int| 0 <= i < self@.tokens.len() implies self@.tokens[i] != EOT by {
                    if i < old(self)@.tokens.len() {
                        assert(self@.tokens[i] == old(self)@.tokens[i]);
                    }
                }
            }
        }
        self.steps = self.steps + 1;
    }

    /// Greedy step: takes the index of the first largest score as the token.
    /// `scores` holds one order key per vocabulary entry.
    pub fn advance_greedy(&mut self, scores: &[u32])
        requires
            session_ok(old(self)@),
            !is_over(old(self)@),
            0 < scores@.len() <= i64::MAX,
        ensures
            session_ok(final(self)@),
            final(self)@.steps == old(self)@.steps + 1,
            exists|k: int| #[trigger] is_first_max(scores@, k)
                && (k == EOT ==> final(self)@.ended && final(self)@.tokens == old(self)@.tokens)
                && (k != EOT ==> !final(self)@.ended && final(self)@.tokens == old(self)@.tokens.push(k as i64)),
    {
        let k = argmax_first(scores);
        self.advance(k as i64);
    }

    /// Whether the session is over.
    pub fn is_finished(&self) -> (r: bool)
        ensures
            r == is_over(self@),
    {
        self.ended || self.steps >= MAX_LEN
    }

    /// The tokens so far, the start token first.
    pub fn tokens(&self) -> (r: Vec<i64>)
        ensures
            r@ == self@.tokens,
    {
        let mut r: Vec<i64> = Vec::new();
        let mut i: usize = 0;
        while i < self.tokens.len()
            invariant
                i <= self.tokens@.len(),
                r@ == self.tokens@.take(i as int),
            decreases self.tokens@.len() - i,
        {
            r.push(self.tokens[i]);
            i = i + 1;
            assert(r@ =~= self.tokens@.take(i as int));
        }
        assert(self.tokens@.take(self.tokens@.len() as int) =~= self.tokens@);
        r
    }
}

/// A decode session ends within `MAX_LEN` steps, and what it returns never
/// holds the end token and starts with the start token.
pub proof fn lemma_decode_bounded(s: DecodeState)
    requires
        session_ok(s),
    ensures
        s.steps <= MAX_LEN,
        s.tokens.len() <= MAX_LEN + 1,
        s.tokens[0] == SOT,
        !s.tokens.contains(EOT),
        steps_left(s) <= MAX_LEN - s.steps,
        s.steps == MAX_LEN ==> is_over(s),
{
}

} // verus!
