//! Vocabulary decoding: token ids to text.
//!
//! Each line of a vocabulary file holds one token, encoded in base64, as its
//! first whitespace-separated field; the line's index is the token's id.
use vstd::prelude::*;
use std::collections::HashMap;
use base64::Engine;

verus! {

broadcast use vstd::std_specs::hash::group_hash_axioms;

/// What base64's `STANDARD` engine decodes `s` to, if it accepts it.
pub uninterp spec fn b64_standard(s: Seq<u8>) -> Option<Seq<u8>>;

/// What base64's `STANDARD_NO_PAD` engine decodes `s` to, if it accepts it.
pub uninterp spec fn b64_standard_no_pad(s: Seq<u8>) -> Option<Seq<u8>>;

/// What base64's `URL_SAFE` engine decodes `s` to, if it accepts it.
pub uninterp spec fn b64_url_safe(s: Seq<u8>) -> Option<Seq<u8>>;

/// What base64's `URL_SAFE_NO_PAD` engine decodes `s` to, if it accepts it.
pub uninterp spec fn b64_url_safe_no_pad(s: Seq<u8>) -> Option<Seq<u8>>;

/// The text that a lossy UTF-8 decode makes of `b`.
pub uninterp spec fn utf8_lossy(b: Seq<u8>) -> Seq<char>;

/// Relies on base64's `general_purpose::STANDARD.decode`: the decoded bytes,
/// or an error, which depends on the input alone.
#[verifier::external_body]
fn decode_standard(s: &[u8]) -> (r: Option<Vec<u8>>)
    ensures
        match r {
            Some(v) => b64_standard(s@) == Some(v@),
            None => b64_standard(s@) is None,
        },
{
    base64::engine::general_purpose::STANDARD.decode(s).ok()
}

/// Relies on base64's `general_purpose::STANDARD_NO_PAD.decode`: the decoded
/// bytes, or an error, which depends on the input alone.
#[verifier::external_body]
fn decode_standard_no_pad(s: &[u8]) -> (r: Option<Vec<u8>>)
    ensures
        match r {
            Some(v) => b64_standard_no_pad(s@) == Some(v@),
            None => b64_standard_no_pad(s@) is None,
        },
{
    base64::engine::general_purpose::STANDARD_NO_PAD.decode(s).ok()
}

/// Relies on base64's `general_purpose::URL_SAFE.decode`: the decoded bytes,
/// or an error, which depends on the input alone.
#[verifier::external_body]
fn decode_url_safe(s: &[u8]) -> (r: Option<Vec<u8>>)
    ensures
        match r {
            Some(v) => b64_url_safe(s@) == Some(v@),
            None => b64_url_safe(s@) is None,
        },
{
    base64::engine::general_purpose::URL_SAFE.decode(s).ok()
}

/// Relies on base64's `general_purpose::URL_SAFE_NO_PAD.decode`: the decoded
/// bytes, or an error, which depends on the input alone.
#[verifier::external_body]
fn decode_url_safe_no_pad(s: &[u8]) -> (r: Option<Vec<u8>>)
    ensures
        match r {
            Some(v) => b64_url_safe_no_pad(s@) == Some(v@),
            None => b64_url_safe_no_pad(s@) is None,
        },
{
    base64::engine::general_purpose::URL_SAFE_NO_PAD.decode(s).ok()
}

/// Relies on `String::from_utf8_lossy`: invalid sequences become U+FFFD; the
/// text depends on the bytes alone, and no bytes give no text.
#[verifier::external_body]
fn lossy_text(b: &[u8]) -> (r: String)
    ensures
        r@ == utf8_lossy(b@),
        b@.len() == 0 ==> r@.len() == 0,
{
    String::from_utf8_lossy(b).into_owned()
}

/// `s` followed by `=` until its length is a multiple of four.
pub open spec fn pad_to_four(s: Seq<u8>) -> Seq<u8> {
    s + Seq::new(((4 - s.len() % 4) % 4) as nat, |i: int| 61u8)
}

/// The bytes of one vocabulary entry: the first base64 reading that succeeds
/// among standard, standard without padding, standard after padding with `=`,
/// URL-safe and URL-safe without padding; else the entry's own bytes.
pub open spec fn token_bytes(s: Seq<u8>) -> Seq<u8> {
    if let Some(b) = b64_standard(s) {
        b
    } else if let Some(b) = b64_standard_no_pad(s) {
        b
    } else if let Some(b) = b64_standard(pad_to_four(s)) {
        b
    } else if let Some(b) = b64_url_safe(s) {
        b
    } else if let Some(b) = b64_url_safe_no_pad(s) {
        b
    } else {
        s
    }
}

fn decode_token_bytes(input: &[u8]) -> (r: Vec<u8>)
    ensures
        r@ == token_bytes(input@),
{
    if let Some(b) = decode_standard(input) {
        return b;
    }
    if let Some(b) = decode_standard_no_pad(input) {
        return b;
    }
    let mut padded: Vec<u8> = Vec::new();
    let mut i: usize = 0;
    while i < input.len()
        invariant
            i <= input@.len(),
            padded@ == input@.take(i as int),
        decreases input@.len() - i,
    {
        padded.push(input[i]);
        i = i + 1;
        assert(padded@ =~= input@.take(i as int));
    }
    let ghost n = padded@.len();
    while padded.len() % 4 != 0
        invariant
            n == input@.len(),
            n <= padded@.len() <= n + 3,
            padded@ =~= input@ + Seq::new((padded@.len() - n) as nat, |i: int| 61u8),
            padded@.len() % 4 == 0 ==> padded@.len() == n + (4 - n % 4) % 4,
            padded@.len() % 4 != 0 ==> padded@.len() <= n + (4 - n % 4) % 4,
        decreases n + 3 - padded@.len(),
    {
        padded.push(61u8);
    }
    assert(padded@ =~= pad_to_four(input@));
    if let Some(b) = decode_standard(padded.as_slice()) {
        return b;
    }
    if let Some(b) = decode_url_safe(input) {
        return b;
    }
    if let Some(b) = decode_url_safe_no_pad(input) {
        return b;
    }
    let mut raw: Vec<u8> = Vec::new();
    let mut j: usize = 0;
    while j < input.len()
        invariant
            j <= input@.len(),
            raw@ == input@.take(j as int),
        decreases input@.len() - j,
    {
        raw.push(input[j]);
        j = j + 1;
        assert(raw@ =~= input@.take(j as int));
    }
    assert(raw@ =~= input@);
    raw
}


/// `a b c` is the UTF-8 form of a three-byte whitespace character:
/// U+1680, U+2000 to U+200A, U+2028, U+2029, U+202F, U+205F or U+3000.
pub open spec fn is_wide_space(a: u8, b: u8, c: u8) -> bool {
    ||| (a == 0xE1u8 && b == 0x9Au8 && c == 0x80u8)
    ||| (a == 0xE2u8 && b == 0x80u8 && ((0x80u8 <= c && c <= 0x8Au8) || c == 0xA8u8 || c == 0xA9u8
        || c == 0xAFu8))
    ||| (a == 0xE2u8 && b == 0x81u8 && c == 0x9Fu8)
    ||| (a == 0xE3u8 && b == 0x80u8 && c == 0x80u8)
}

/// The length in bytes of the whitespace character (as `char::is_whitespace`
/// has it) that starts at index `i` of the UTF-8 text `s`, or 0 if none does.
pub open spec fn space_len(s: Seq<u8>, i: int) -> int {
    if !(0 <= i < s.len()) {
        0
    } else if s[i] == 32u8 || (9u8 <= s[i] && s[i] <= 13u8) {
        1
    } else if i + 1 < s.len() && s[i] == 0xC2u8 && (s[i + 1] == 0x85u8 || s[i + 1] == 0xA0u8) {
        2
    } else if i + 2 < s.len() && is_wide_space(s[i], s[i + 1], s[i + 2]) {
        3
    } else {
        0
    }
}

/// The first index at or after `i` where no whitespace starts.
pub open spec fn skip_spaces(s: Seq<u8>, i: int) -> int
    decreases s.len() - i,
{
    if space_len(s, i) > 0 {
        skip_spaces(s, i + space_len(s, i))
    } else {
        i
    }
}

/// The first index at or after `i` where whitespace starts, or the length.
pub open spec fn skip_word(s: Seq<u8>, i: int) -> int
    decreases s.len() - i,
{
    if 0 <= i < s.len() && space_len(s, i) == 0 {
        skip_word(s, i + 1)
    } else {
        i
    }
}

/// Exec form of `is_wide_space`.
fn wide_space_at(a: u8, b: u8, c: u8) -> (r: bool)
    ensures
        r == is_wide_space(a, b, c),
{
    (a == 0xE1u8 && b == 0x9Au8 && c == 0x80u8) || (a == 0xE2u8 && b == 0x80u8 && ((0x80u8 <= c && c
        <= 0x8Au8) || c == 0xA8u8 || c == 0xA9u8 || c == 0xAFu8)) || (a == 0xE2u8 && b == 0x81u8 && c
        == 0x9Fu8) || (a == 0xE3u8 && b == 0x80u8 && c == 0x80u8)
}

/// Exec form of `space_len`.
fn space_at(s: &[u8], i: usize) -> (r: usize)
    ensures
        r == space_len(s@, i as int),
{
    let n = s.len();
    if i >= n {
        0
    } else if s[i] == 32u8 || (9u8 <= s[i] && s[i] <= 13u8) {
        1
    } else if n - i > 1 && s[i] == 0xC2u8 && (s[i + 1] == 0x85u8 || s[i + 1] == 0xA0u8) {
        2
    } else if n - i > 2 && wide_space_at(s[i], s[i + 1], s[i + 2]) {
        3
    } else {
        0
    }
}

/// The first whitespace-separated field of a line, if the line has one.
pub open spec fn first_field(line: Seq<u8>) -> Option<Seq<u8>> {
    let start = skip_spaces(line, 0);
    if start >= line.len() {
        None
    } else {
        Some(line.subrange(start, skip_word(line, start)))
    }
}

proof fn lemma_skip_bounds(s: Seq<u8>, i: int)
    requires
        0 <= i <= s.len(),
    ensures
        i <= skip_spaces(s, i) <= s.len(),
        i <= skip_word(s, i) <= s.len(),
    decreases s.len() - i,
{
    if space_len(s, i) > 0 {
        lemma_skip_bounds(s, i + space_len(s, i));
    }
    if i < s.len() {
        lemma_skip_bounds(s, i + 1);
    }
}

fn line_first_field(line: &[u8]) -> (r: Option<Vec<u8>>)
    ensures
        match first_field(line@) {
            Some(f) => r matches Some(v) && v@ == f,
            None => r is None,
        },
{
    proof {
        lemma_skip_bounds(line@, 0);
    }
    let n = line.len();
    let mut start: usize = 0;
    let mut k = space_at(line, 0);
    while k > 0
        invariant
            n == line@.len(),
            start <= line@.len(),
            k == space_len(line@, start as int),
            skip_spaces(line@, start as int) == skip_spaces(line@, 0),
        decreases line@.len() - start,
    {
        start = start + k;
        k = space_at(line, start);
    }
    if start >= line.len() {
        return None;
    }
    proof {
        lemma_skip_bounds(line@, start as int);
    }
    let mut end: usize = start;
    let mut field: Vec<u8> = Vec::new();
    while end < line.len() && space_at(line, end) == 0
        invariant
            start <= end <= line@.len(),
            skip_word(line@, end as int) == skip_word(line@, start as int),
            field@ == line@.subrange(start as int, end as int),
        decreases line@.len() - end,
    {
        field.push(line[end]);
        end = end + 1;
        assert(field@ =~= line@.subrange(start as int, end as int));
    }
    Some(field)
}

/// Entries that `decode` leaves out: control tokens, whose bytes start with
/// `<|` and end with `|>` (the two may share the `|`, as in `<|>`).
pub open spec fn is_control(b: Seq<u8>) -> bool {
    b.len() >= 2 && b[0] == 60u8 && b[1] == 124u8 && b[b.len() - 2] == 124u8 && b[b.len() - 1] == 62u8
}

/// The bytes of the entries of `ids`, in order: ids with no entry and
/// control tokens contribute nothing.
pub open spec fn kept_bytes(vocab: Map<i64, Seq<u8>>, ids: Seq<i64>) -> Seq<u8>
    decreases ids.len(),
{
    if ids.len() == 0 {
        Seq::empty()
    } else {
        let prev = kept_bytes(vocab, ids.drop_last());
        let id = ids.last();
        if vocab.contains_key(id) && !is_control(vocab[id]) {
            prev + vocab[id]
        } else {
            prev
        }
    }
}

/// Decoding a concatenation of ids gives the concatenation of the decodings.
pub proof fn lemma_kept_bytes_append(vocab: Map<i64, Seq<u8>>, a: Seq<i64>, b: Seq<i64>)
    ensures
        kept_bytes(vocab, a + b) == kept_bytes(vocab, a) + kept_bytes(vocab, b),
    decreases b.len(),
{
    if b.len() == 0 {
        assert(a + b =~= a);
        assert(kept_bytes(vocab, a) + Seq::<u8>::empty() =~= kept_bytes(vocab, a));
    } else {
        assert((a + b).drop_last() =~= a + b.drop_last());
        assert((a + b).last() == b.last());
        lemma_kept_bytes_append(vocab, a, b.drop_last());
        let x = kept_bytes(vocab, a);
        let y = kept_bytes(vocab, b.drop_last());
        if vocab.contains_key(b.last()) && !is_control(vocab[b.last()]) {
            assert(x + y + vocab[b.last()] =~= x + (y + vocab[b.last()]));
        }
    }
}

/// The ids other than `c`.
pub open spec fn other_than(c: i64) -> spec_fn(i64) -> bool {
    |x: i64| x != c
}

/// Control tokens add nothing: removing every occurrence of an id that maps
/// to a control token leaves the decoded bytes unchanged.
pub proof fn lemma_control_tokens_add_nothing(vocab: Map<i64, Seq<u8>>, ids: Seq<i64>, c: i64)
    requires
        vocab.contains_key(c),
        is_control(vocab[c]),
    ensures
        kept_bytes(vocab, ids.filter(other_than(c))) == kept_bytes(vocab, ids),
    decreases ids.len(),
{
    let keep = other_than(c);
    reveal_with_fuel(Seq::filter, 1);
    if ids.len() > 0 {
        lemma_control_tokens_add_nothing(vocab, ids.drop_last(), c);
        let sub = ids.drop_last().filter(keep);
        if ids.last() != c {
            assert(ids.filter(keep) == sub.push(ids.last()));
            assert(sub.push(ids.last()).drop_last() =~= sub);
        } else {
            assert(ids.filter(keep) == sub);
        }
    }
}

/// The vocabulary that a file of `lines` gives: line `i` with a first field
/// `f` maps id `i` to `token_bytes(f)`; a blank line gives no entry.
pub open spec fn vocabulary_of(lines: Seq<Seq<u8>>) -> Map<i64, Seq<u8>> {
    Map::new(
        |id: i64| 0 <= id < lines.len() && first_field(lines[id as int]) is Some,
        |id: i64| token_bytes(first_field(lines[id as int])->Some_0),
    )
}

/// A table from token id to the token's bytes.
pub struct Tokenizer {
    id_to_bytes: HashMap<i64, Vec<u8>>,
}

impl View for Tokenizer {
    type V = Map<i64, Seq<u8>>;

    closed spec fn view(&self) -> Map<i64, Seq<u8>> {
        Map::new(
            |id: i64| self.id_to_bytes@.contains_key(id),
            |id: i64| self.id_to_bytes@[id]@,
        )
    }
}

impl Tokenizer {
    /// Builds the table from the lines of a vocabulary file.
    pub fn from_lines(lines: &Vec<Vec<u8>>) -> (r: Tokenizer)
        requires
            lines@.len() <= i64::MAX,
        ensures
            r@ == vocabulary_of(lines@.map_values(|l: Vec<u8>| l@)),
    {
        let ghost views = lines@.map_values(|l: Vec<u8>| l@);
        let mut id_to_bytes: HashMap<i64, Vec<u8>> = HashMap::new();
        let mut i: usize = 0;
        while i < lines.len()
            invariant
                i <= lines@.len() <= i64::MAX,
                views == lines@.map_values(|l: Vec<u8>| l@),
                forall|id: i64| #[trigger] id_to_bytes@.contains_key(id) <==>
                    (0 <= id < i && first_field(views[id as int]) is Some),
                forall|id: i64| #[trigger] id_to_bytes@.contains_key(id) ==>
                    id_to_bytes@[id]@ == token_bytes(first_field(views[id as int])->Some_0),
            decreases lines@.len() - i,
        {
            let field = line_first_field(lines[i].as_slice());
            if let Some(f) = field {
                let bytes = decode_token_bytes(f.as_slice());
                id_to_bytes.insert(i as i64, bytes);
            }
            i = i + 1;
        }
        let r = Tokenizer { id_to_bytes };
        assert(r@ =~= vocabulary_of(views));
        r
    }

    /// The bytes of the tokens of `ids`, concatenated; ids with no entry and
    /// control tokens are left out.
    pub fn decode_bytes(&self, ids: &[i64]) -> (r: Vec<u8>)
        ensures
            r@ == kept_bytes(self@, ids@),
    {
        let mut all_bytes: Vec<u8> = Vec::new();
        let mut k: usize = 0;
        while k < ids.len()
            invariant
                k <= ids@.len(),
                all_bytes@ == kept_bytes(self@, ids@.take(k as int)),
            decreases ids@.len() - k,
        {
            let id = ids[k];
            assert(ids@.take(k + 1).drop_last() =~= ids@.take(k as int));
            if let Some(bytes) = self.id_to_bytes.get(&id) {
                let n = bytes.len();
                let control = n >= 2 && bytes[0] == 60u8 && bytes[1] == 124u8 && bytes[n - 2] == 124u8
                    && bytes[n - 1] == 62u8;
                if !control {
                    let mut j: usize = 0;
                    let ghost before = all_bytes@;
                    while j < n
                        invariant
                            j <= n == bytes@.len(),
                            all_bytes@ == before + bytes@.take(j as int),
                        decreases n - j,
                    {
                        all_bytes.push(bytes[j]);
                        j = j + 1;
                        assert(all_bytes@ =~= before + bytes@.take(j as int));
                    }
                    assert(bytes@.take(n as int) =~= bytes@);
                }
            }
            k = k + 1;
        }
        assert(ids@.take(ids@.len() as int) =~= ids@);
        all_bytes
    }

    /// The text of `ids`: their kept bytes, decoded as UTF-8, with invalid
    /// sequences replaced.
    pub fn decode(&self, ids: &[i64]) -> (r: String)
        ensures
            r@ == utf8_lossy(kept_bytes(self@, ids@)),
    {
        let bytes = self.decode_bytes(ids);
        lossy_text(bytes.as_slice())
    }
}

} // verus!
