//! Cutting the text of a record into chunks that end at natural boundaries.
use vstd::prelude::*;
use vstd::string::*;

use crate::schema;
use crate::schema::{PreparedRecord, RecordModel};
use crate::text;
use crate::text::{
    decimal_text, from_chars, is_blank_text, is_white_space, to_chars, trim_text,
};

verus! {

/// How the text of a record is cut.
#[derive(Debug, Clone, Copy, PartialEq, Eq, Structural)]
pub enum ChunkMode {
    /// The whole text is one chunk.
    Whole,
    /// Chunks of about the given size that end at natural boundaries.
    Smart,
}

/// The cut mode with the size and the overlap of chunks, in characters.
#[derive(Debug, Clone, Copy)]
pub struct ChunkOptions {
    pub mode: ChunkMode,
    pub size: usize,
    pub overlap: usize,
}

/// One chunk of a record's text.
#[derive(Debug, Clone)]
pub struct PreparedChunk {
    pub chunk_id: String,
    pub record_id: String,
    pub chunk_index: usize,
    pub start_char: usize,
    pub end_char: usize,
    pub text: String,
}

/// A piece of text with its place.
#[derive(Debug, Clone)]
pub struct ChunkSpan {
    pub start_char: usize,
    pub end_char: usize,
    pub text: String,
}

/// Why chunk options cannot be used.
#[derive(Debug, Clone, Copy, PartialEq, Eq, Structural)]
pub enum ChunkOptionsError {
    ZeroSize,
    OverlapNotSmaller,
}

impl ChunkOptionsError {
    /// The message of the error.
    pub open spec fn spec_message(self) -> Seq<char> {
        match self {
            ChunkOptionsError::ZeroSize => "chunk size must be greater than zero"@,
            ChunkOptionsError::OverlapNotSmaller => "chunk overlap must be smaller than chunk size"@,
        }
    }

    /// The message of the error.
    pub fn message(&self) -> (r: String)
        ensures
            r@ == self.spec_message(),
    {
        match self {
            ChunkOptionsError::ZeroSize => "chunk size must be greater than zero".to_string(),
            ChunkOptionsError::OverlapNotSmaller => {
                "chunk overlap must be smaller than chunk size".to_string()
            },
        }
    }
}

/// What a piece of text is, without its representation.
pub struct SpanModel {
    pub start: int,
    pub end: int,
    pub text: Seq<char>,
}

/// What a chunk is, without its representation.
pub struct ChunkModel {
    pub chunk_id: Seq<char>,
    pub record_id: Seq<char>,
    pub chunk_index: int,
    pub start: int,
    pub end: int,
    pub text: Seq<char>,
}

impl View for ChunkSpan {
    type V = SpanModel;

    open spec fn view(&self) -> SpanModel {
        SpanModel { start: self.start_char as int, end: self.end_char as int, text: self.text@ }
    }
}

impl View for PreparedChunk {
    type V = ChunkModel;

    open spec fn view(&self) -> ChunkModel {
        ChunkModel {
            chunk_id: self.chunk_id@,
            record_id: self.record_id@,
            chunk_index: self.chunk_index as int,
            start: self.start_char as int,
            end: self.end_char as int,
            text: self.text@,
        }
    }
}

/// The models of a list of pieces.
pub open spec fn span_models(v: Seq<ChunkSpan>) -> Seq<SpanModel> {
    Seq::new(v.len(), |i: int| v[i]@)
}

/// The models of a list of chunks.
pub open spec fn chunk_models(v: Seq<PreparedChunk>) -> Seq<ChunkModel> {
    Seq::new(v.len(), |i: int| v[i]@)
}

impl Default for ChunkOptions {
    fn default() -> (r: Self)
        ensures
            r == (ChunkOptions { mode: ChunkMode::Whole, size: 1200, overlap: 200 }),
    {
        ChunkOptions { mode: ChunkMode::Whole, size: 1200, overlap: 200 }
    }
}

impl ChunkOptions {
    /// Whether the options can be used: a mode that cuts needs a size, and an overlap below it.
    pub open spec fn spec_validate(self) -> Result<(), ChunkOptionsError> {
        if self.mode == ChunkMode::Whole {
            Ok(())
        } else if self.size == 0 {
            Err(ChunkOptionsError::ZeroSize)
        } else if self.overlap >= self.size {
            Err(ChunkOptionsError::OverlapNotSmaller)
        } else {
            Ok(())
        }
    }

    /// Checks the size and the overlap, where the mode uses them.
    pub fn validate(&self) -> (r: Result<(), ChunkOptionsError>)
        ensures
            r == self.spec_validate(),
            r is Ok <==> self.mode == ChunkMode::Whole || self.overlap < self.size,
            r == Err::<(), ChunkOptionsError>(ChunkOptionsError::ZeroSize) <==> self.mode
                == ChunkMode::Smart && self.size == 0,
    {
        if self.mode == ChunkMode::Whole {
            return Ok(());
        }
        if self.size == 0 {
            return Err(ChunkOptionsError::ZeroSize);
        }
        if self.overlap >= self.size {
            return Err(ChunkOptionsError::OverlapNotSmaller);
        }
        Ok(())
    }
}

/// How good a place right after `c` is for a cut: line ends, then the end of a sentence,
/// then lighter punctuation, then white space; 0 where nothing speaks for a cut.
pub open spec fn cut_score(c: char) -> int {
    if c == '\n' {
        5
    } else if c == '。' || c == '！' || c == '？' || c == '.' || c == '!' || c == '?' {
        4
    } else if c == '、' || c == ',' || c == ';' || c == '；' || c == ':' || c == '：' {
        2
    } else if text::is_space(c) {
        1
    } else {
        0
    }
}

/// How good a place right after `ch` is for a cut.
pub fn boundary_score(ch: char) -> (r: i32)
    ensures
        r == cut_score(ch),
{
    if ch == '\n' {
        5
    } else if ch == '。' || ch == '！' || ch == '？' || ch == '.' || ch == '!' || ch == '?' {
        4
    } else if ch == '、' || ch == ',' || ch == ';' || ch == '；' || ch == ':' || ch == '：' {
        2
    } else if is_white_space(ch) {
        1
    } else {
        0
    }
}

/// The distance between two places.
pub open spec fn distance(a: int, b: int) -> int {
    if a < b {
        b - a
    } else {
        a - b
    }
}

/// Whether `b` is a natural boundary of `t` from `lo` to `hi`: the place after a character
/// that speaks for a cut.
pub open spec fn is_boundary(t: Seq<char>, lo: int, hi: int, b: int) -> bool {
    &&& lo <= b <= hi
    &&& 1 <= b <= t.len()
    &&& cut_score(t[b - 1]) > 0
}

/// Whether the boundary `a` is to be taken before the boundary `b`: for its better score,
/// else for its smaller distance from `target`, else because it comes first.
pub open spec fn is_preferred(t: Seq<char>, target: int, a: int, b: int) -> bool {
    let x = cut_score(t[a - 1]);
    let y = cut_score(t[b - 1]);
    ||| x > y
    ||| x == y && distance(a, target) < distance(b, target)
    ||| x == y && distance(a, target) == distance(b, target) && a <= b
}

/// Whether `b` is the boundary to cut at: a boundary preferred to every other one.
pub open spec fn is_best_cut(t: Seq<char>, lo: int, hi: int, target: int, b: int) -> bool {
    &&& is_boundary(t, lo, hi, b)
    &&& forall|a: int| #[trigger] is_boundary(t, lo, hi, a) ==> is_preferred(t, target, b, a)
}

/// The boundary to cut at, where there is any.
pub open spec fn best_cut(t: Seq<char>, lo: int, hi: int, target: int) -> Option<int> {
    if exists|b: int| is_best_cut(t, lo, hi, target, b) {
        Some(choose|b: int| is_best_cut(t, lo, hi, target, b))
    } else {
        None
    }
}

proof fn lemma_best_cut_unique(t: Seq<char>, lo: int, hi: int, target: int, b: int)
    requires
        is_best_cut(t, lo, hi, target, b),
    ensures
        best_cut(t, lo, hi, target) == Some(b),
{
    let a = choose|b: int| is_best_cut(t, lo, hi, target, b);
    assert(is_best_cut(t, lo, hi, target, a));
    assert(is_preferred(t, target, a, b));
    assert(is_preferred(t, target, b, a));
}

/// The boundary between `start + min_size` and `max_char` at which to cut: the best by score,
/// then the nearest to `target_char`, then the first.
pub fn choose_cut_char(
    text: &Vec<char>,
    start_char: usize,
    target_char: usize,
    max_char: usize,
    min_size: usize,
) -> (r: Option<usize>)
    requires
        start_char + min_size <= usize::MAX,
    ensures
        match best_cut(text@, start_char + min_size, max_char as int, target_char as int) {
            Some(b) => r == Some(b as usize) && b <= usize::MAX && is_best_cut(
                text@,
                start_char + min_size,
                max_char as int,
                target_char as int,
                b,
            ),
            None => r is None && forall|b: int|
                !#[trigger] is_boundary(text@, start_char + min_size, max_char as int, b),
        },
{
    let ghost lo = start_char + min_size;
    let ghost hi = max_char as int;
    let ghost target = target_char as int;
    let min_char: usize = start_char + min_size;
    let mut best: Option<(usize, i32, usize)> = None;
    let mut index: usize = if min_char == 0 {
        0
    } else {
        min_char - 1
    };
    while index < max_char && index < text.len()
        invariant
            min_char == lo,
            hi == max_char,
            target == target_char,
            lo <= index + 1,
            match best {
                None => forall|a: int| #[trigger] is_boundary(text@, lo, hi, a) ==> a > index,
                Some((b, score, away)) => {
                    &&& is_boundary(text@, lo, hi, b as int)
                    &&& b <= index
                    &&& score == cut_score(text@[b - 1])
                    &&& away == distance(b as int, target)
                    &&& forall|a: int|
                        #[trigger] is_boundary(text@, lo, hi, a) && a <= index ==> is_preferred(
                            text@,
                            target,
                            b as int,
                            a,
                        )
                },
            },
        decreases text@.len() - index,
    {
        let boundary: usize = index + 1;
        let score: i32 = boundary_score(text[index]);
        if score != 0 {
            let away: usize = if boundary < target_char {
                target_char - boundary
            } else {
                boundary - target_char
            };
            assert(is_boundary(text@, lo, hi, boundary as int));
            match best {
                None => {
                    best = Some((boundary, score, away));
                },
                Some((_, best_score, best_away)) => {
                    if score > best_score || (score == best_score && away < best_away) {
                        best = Some((boundary, score, away));
                    }
                },
            }
        } else {
            assert(!is_boundary(text@, lo, hi, boundary as int));
        }
        index = index + 1;
    }
    match best {
        None => {
            assert(forall|b: int| !#[trigger] is_boundary(text@, lo, hi, b));
            assert(best_cut(text@, lo, hi, target) is None);
            None
        },
        Some((b, _, _)) => {
            proof {
                assert(is_best_cut(text@, lo, hi, target, b as int));
                lemma_best_cut_unique(text@, lo, hi, target, b as int);
            }
            Some(b)
        },
    }
}

/// Whether the place `b` follows a line end or the end of a sentence, as the text after it
/// may begin a chunk.
pub open spec fn is_sentence_break(t: Seq<char>, b: int) -> bool {
    1 <= b <= t.len() && cut_score(t[b - 1]) >= 3
}

/// Whether `b` is the last such place from `lo` up to, not including, `hi`.
pub open spec fn is_last_break(t: Seq<char>, lo: int, hi: int, b: int) -> bool {
    &&& lo <= b < hi
    &&& is_sentence_break(t, b)
    &&& forall|a: int| b < a < hi ==> !#[trigger] is_sentence_break(t, a)
}

/// The last such place from `lo` up to, not including, `hi`; `lo` where there is none.
pub open spec fn last_break(t: Seq<char>, lo: int, hi: int) -> int {
    if exists|b: int| is_last_break(t, lo, hi, b) {
        choose|b: int| is_last_break(t, lo, hi, b)
    } else {
        lo
    }
}

/// Where the chunk after one from `start` to `cut` begins: at most `overlap` before the cut,
/// and after the start.
pub open spec fn next_start(t: Seq<char>, start: int, cut: int, overlap: int) -> int {
    if overlap == 0 || cut <= overlap {
        cut
    } else if cut - overlap > start + 1 {
        last_break(t, cut - overlap, cut)
    } else {
        last_break(t, start + 1, cut)
    }
}

/// Where the chunk after one from `chunk_start` to `cut_char` begins.
pub fn next_start_char(
    text: &Vec<char>,
    chunk_start: usize,
    cut_char: usize,
    overlap: usize,
) -> (r: usize)
    requires
        chunk_start < cut_char,
    ensures
        r == next_start(text@, chunk_start as int, cut_char as int, overlap as int),
        chunk_start < r <= cut_char,
        r + overlap >= cut_char,
{
    if overlap == 0 || cut_char <= overlap {
        return cut_char;
    }
    let min_start: usize = if cut_char - overlap > chunk_start + 1 {
        cut_char - overlap
    } else {
        chunk_start + 1
    };
    let mut best: usize = min_start;
    let mut boundary: usize = min_start;
    let ghost mut found = false;
    while boundary < cut_char && boundary <= text.len()
        invariant
            1 <= min_start <= boundary <= cut_char,
            min_start <= best <= boundary,
            best < cut_char || best == min_start,
            !found ==> best == min_start && forall|a: int|
                min_start <= a < boundary ==> !#[trigger] is_sentence_break(text@, a),
            found ==> min_start <= best < boundary && is_sentence_break(text@, best as int)
                && forall|a: int| best < a < boundary ==> !#[trigger] is_sentence_break(text@, a),
        decreases cut_char - boundary,
    {
        if boundary_score(text[boundary - 1]) >= 3 {
            best = boundary;
            proof {
                found = true;
                assert(is_sentence_break(text@, boundary as int));
            }
        } else {
            assert(!is_sentence_break(text@, boundary as int));
        }
        boundary = boundary + 1;
    }
    proof {
        let lo = min_start as int;
        let hi = cut_char as int;
        if found {
            assert(is_last_break(text@, lo, hi, best as int));
            let c = choose|b: int| is_last_break(text@, lo, hi, b);
            assert(is_last_break(text@, lo, hi, c));
            if c < best {
                assert(!is_sentence_break(text@, best as int));
            }
            if best < c {
                assert(!is_sentence_break(text@, c));
            }
        } else {
            assert forall|b: int| !is_last_break(text@, lo, hi, b) by {
                if lo <= b < hi {
                    assert(!is_sentence_break(text@, b));
                }
            }
        }
    }
    best
}

/// The least size of a chunk that ends at a natural boundary: six tenths of `size`.
pub open spec fn least_size(size: int) -> int {
    if size * 6 / 10 > 1 {
        size * 6 / 10
    } else {
        1
    }
}

/// Where the cut of a chunk that begins at `start` may come at the latest: a quarter of
/// `size` after the target, or the end of the text.
pub open spec fn latest_cut(t: Seq<char>, start: int, size: int) -> int {
    if start + size + size / 4 < t.len() {
        start + size + size / 4
    } else {
        t.len() as int
    }
}

/// Where a chunk that begins at `start`, with more than `size` characters left, ends: at the
/// best natural boundary, or hard after `size` characters where there is none.
pub open spec fn cut_of(t: Seq<char>, start: int, size: int) -> int {
    match best_cut(t, start + least_size(size), latest_cut(t, start, size), start + size) {
        Some(b) => b,
        None => start + size,
    }
}

/// A cut comes after the start, and no further than a quarter of `size` after the target.
pub proof fn lemma_cut_of(t: Seq<char>, start: int, size: int)
    requires
        size > 0,
        0 <= start,
        t.len() - start > size,
    ensures
        start < cut_of(t, start, size) <= t.len(),
        cut_of(t, start, size) - start <= size + size / 4,
{
    let lo = start + least_size(size);
    let hi = latest_cut(t, start, size);
    let target = start + size;
    if exists|b: int| is_best_cut(t, lo, hi, target, b) {
        let b = choose|b: int| is_best_cut(t, lo, hi, target, b);
        assert(is_best_cut(t, lo, hi, target, b));
        assert(is_boundary(t, lo, hi, b));
    }
}

/// The next chunk begins after the start of the one before, at most `overlap` before its end.
pub proof fn lemma_next_start(t: Seq<char>, start: int, cut: int, overlap: int)
    requires
        start < cut,
        0 <= overlap,
    ensures
        start < next_start(t, start, cut, overlap) <= cut,
        next_start(t, start, cut, overlap) + overlap >= cut,
{
    if overlap == 0 || cut <= overlap {
    } else {
        let lo = if cut - overlap > start + 1 {
            cut - overlap
        } else {
            start + 1
        };
        if exists|b: int| is_last_break(t, lo, cut, b) {
            let b = choose|b: int| is_last_break(t, lo, cut, b);
            assert(is_last_break(t, lo, cut, b));
        }
    }
}

/// The windows of `t` from `start` on: pieces that follow one another, each beginning no
/// later than the one before ends.
pub open spec fn windows(t: Seq<char>, start: int, size: int, overlap: int) -> Seq<(int, int)>
    decreases t.len() - start,
{
    if size <= 0 || overlap < 0 || start < 0 || start >= t.len() {
        Seq::empty()
    } else if t.len() - start <= size {
        seq![(start, t.len() as int)]
    } else {
        let cut = cut_of(t, start, size);
        if cut >= t.len() {
            seq![(start, cut)]
        } else {
            proof {
                lemma_cut_of(t, start, size);
                lemma_next_start(t, start, cut, overlap);
            }
            seq![(start, cut)] + windows(t, next_start(t, start, cut, overlap), size, overlap)
        }
    }
}

/// The piece in the window from `start` to `end` without the white space at its two ends,
/// where anything is left.
pub open spec fn span_of(t: Seq<char>, start: int, end: int) -> Option<SpanModel> {
    let raw = t.subrange(start, end);
    if text::is_blank(raw) {
        None
    } else {
        Some(
            SpanModel {
                start: start + text::leading_spaces(raw),
                end: end - text::trailing_spaces(raw),
                text: text::trimmed(raw),
            },
        )
    }
}

/// The pieces in a list of windows.
pub open spec fn spans_of(t: Seq<char>, w: Seq<(int, int)>) -> Seq<SpanModel>
    decreases w.len(),
{
    if w.len() == 0 {
        Seq::empty()
    } else {
        let rest = spans_of(t, w.drop_last());
        match span_of(t, w.last().0, w.last().1) {
            Some(span) => rest.push(span),
            None => rest,
        }
    }
}

/// The piece of `text` from `start_char` to `end_char` without the white space at its two
/// ends, where anything is left.
pub fn make_span(text: &Vec<char>, start_char: usize, end_char: usize) -> (r: Option<ChunkSpan>)
    requires
        start_char <= end_char <= text@.len(),
    ensures
        match span_of(text@, start_char as int, end_char as int) {
            Some(m) => r is Some && r->0@ == m,
            None => r is None,
        },
{
    let ghost raw = text@.subrange(start_char as int, end_char as int);
    let mut start: usize = start_char;
    while start < end_char && is_white_space(text[start])
        invariant
            start_char <= start <= end_char <= text@.len(),
            forall|i: int| start_char <= i < start ==> text::is_space(#[trigger] text@[i]),
        decreases end_char - start,
    {
        start = start + 1;
    }
    if start >= end_char {
        assert(text::is_blank(raw));
        return None;
    }
    let mut end: usize = end_char;
    while end > start && is_white_space(text[end - 1])
        invariant
            start_char <= start <= end <= end_char <= text@.len(),
            start < end_char,
            !text::is_space(text@[start as int]),
            forall|i: int| end <= i < end_char ==> text::is_space(#[trigger] text@[i]),
        decreases end,
    {
        end = end - 1;
    }
    proof {
        let lead = (start - start_char) as nat;
        let trail = (end_char - end) as nat;
        assert(raw[lead as int] == text@[start as int]);
        assert(!text::is_blank(raw));
        text::lemma_leading_spaces_unique(raw, lead);
        assert(raw[raw.len() - trail - 1] == text@[end - 1]);
        text::lemma_trailing_spaces_unique(raw, trail);
        assert(text::trimmed(raw) =~= text@.subrange(start as int, end as int));
    }
    Some(ChunkSpan { start_char: start, end_char: end, text: from_chars(text, start, end) })
}

/// The pieces of `text`: of its trimmed form, one piece where it is no longer than `size`,
/// and else the pieces in its windows.
pub open spec fn smart_spans(text: Seq<char>, size: int, overlap: int) -> Seq<SpanModel> {
    let t = text::trimmed(text);
    if t.len() <= size {
        seq![SpanModel { start: 0, end: t.len() as int, text: t }]
    } else {
        spans_of(t, windows(t, 0, size, overlap))
    }
}

/// Cuts `text` into pieces of about `size` characters that end at natural boundaries and
/// overlap by at most `overlap` characters.
pub fn smart_chunks(text: &str, size: usize, overlap: usize) -> (r: Vec<ChunkSpan>)
    requires
        size > 0,
    ensures
        span_models(r@) == smart_spans(text@, size as int, overlap as int),
{
    let trimmed_text = trim_text(text);
    let t = to_chars(trimmed_text.as_str());
    let total: usize = t.len();
    let mut chunks: Vec<ChunkSpan> = Vec::new();
    if total <= size {
        chunks.push(ChunkSpan { start_char: 0, end_char: total, text: trimmed_text });
        assert(span_models(chunks@) =~= smart_spans(text@, size as int, overlap as int));
        return chunks;
    }
    let six: usize = size / 10 * 6 + size % 10 * 6 / 10;
    let min_size: usize = if six > 1 {
        six
    } else {
        1
    };
    assert(min_size == least_size(size as int));
    let mut start: usize = 0;
    let ghost mut done: Seq<(int, int)> = Seq::empty();
    let ghost all = windows(t@, 0, size as int, overlap as int);
    proof {
        assert(done + all =~= all);
        assert(span_models(chunks@) =~= spans_of(t@, done));
    }
    while start < total
        invariant_except_break
            done + windows(t@, start as int, size as int, overlap as int) == all,
            span_models(chunks@) == spans_of(t@, done),
        invariant
            t@ == text::trimmed(text@),
            total == t@.len(),
            total > size > 0,
            min_size == least_size(size as int),
            min_size <= size,
            start <= total,
            all == windows(t@, 0, size as int, overlap as int),
        ensures
            span_models(chunks@) == spans_of(t@, all),
        decreases total - start,
    {
        let ghost before = span_models(chunks@);
        let ghost rest = windows(t@, start as int, size as int, overlap as int);
        let remaining: usize = total - start;
        if remaining <= size {
            if let Some(chunk) = make_span(&t, start, total) {
                chunks.push(chunk);
                assert(span_models(chunks@) =~= before.push(chunk@));
            }
            proof {
                let now = done.push((start as int, total as int));
                assert(now =~= done + rest);
                assert(now.drop_last() =~= done);
                done = now;
            }
            break;
        }
        let target: usize = start + size;
        let quarter: usize = size / 4;
        let max_char: usize = if quarter < total - target {
            target + quarter
        } else {
            total
        };
        assert(max_char == latest_cut(t@, start as int, size as int));
        let cut: usize = match choose_cut_char(&t, start, target, max_char, min_size) {
            Some(c) => c,
            None => target,
        };
        proof {
            lemma_cut_of(t@, start as int, size as int);
            assert(cut == cut_of(t@, start as int, size as int));
        }
        if let Some(chunk) = make_span(&t, start, cut) {
            chunks.push(chunk);
            assert(span_models(chunks@) =~= before.push(chunk@));
        }
        proof {
            let now = done.push((start as int, cut as int));
            assert(now.drop_last() =~= done);
            if cut >= total {
                assert(now =~= done + rest);
            } else {
                let next = next_start(t@, start as int, cut as int, overlap as int);
                assert(now + windows(t@, next, size as int, overlap as int) =~= done + rest);
            }
            done = now;
        }
        if cut >= total {
            break;
        }
        start = next_start_char(&t, start, cut, overlap);
    }
    chunks
}

/// Whether the window `w` reaches over the place `p`.
pub open spec fn reaches(w: (int, int), p: int) -> bool {
    w.0 <= p < w.1
}

/// Whether one of the windows reaches over the place `p`.
pub open spec fn is_reached(w: Seq<(int, int)>, p: int) -> bool {
    exists|i: int| 0 <= i < w.len() && #[trigger] reaches(w[i], p)
}

/// Whether a character ends a sentence.
pub open spec fn ends_sentence(c: char) -> bool {
    c == '。' || c == '！' || c == '？' || c == '.' || c == '!' || c == '?'
}

/// Whether a character is a pause within a sentence.
pub open spec fn is_pause(c: char) -> bool {
    c == '、' || c == ',' || c == ';' || c == '；' || c == ':' || c == '：'
}

/// Whether a window that begins at `start` may end at `b`: after six tenths of `size` at the
/// earliest and after `size` and a quarter of it at the latest.
pub open spec fn may_end(t: Seq<char>, start: int, size: int, b: int) -> bool {
    &&& start < b <= t.len()
    &&& start + size * 6 / 10 <= b <= start + size + size / 4
}

/// Whether an end after `x` is worth as much as one after `y`: a line end is worth more than the
/// end of a sentence, that more than a pause, that more than white space, and that more than any
/// other character.
pub open spec fn is_no_worse(x: char, y: char) -> bool {
    &&& y == '\n' ==> x == '\n'
    &&& ends_sentence(y) ==> x == '\n' || ends_sentence(x)
    &&& is_pause(y) ==> x == '\n' || ends_sentence(x) || is_pause(x)
    &&& text::is_space(y) ==> x == '\n' || ends_sentence(x) || is_pause(x) || text::is_space(x)
}

/// Whether a window ends well: where it may end, at a place that is worth no less than any other
/// where it may, and of those that are worth as much at the nearest to `size`, and of two as near
/// at the first; after `size` characters where every place is worth nothing.
pub open spec fn ends_well(t: Seq<char>, start: int, end: int, size: int) -> bool {
    &&& may_end(t, start, size, end)
    &&& forall|b: int| #[trigger]
        may_end(t, start, size, b) ==> {
            let x = t[end - 1];
            let y = t[b - 1];
            &&& is_no_worse(x, y)
            &&& is_no_worse(y, x) ==> {
                let near = distance(end, start + size);
                let other = distance(b, start + size);
                near < other || near == other && end <= b
            }
        }
}

/// Whether a place comes right after a line end or the end of a sentence.
pub open spec fn follows_sentence(t: Seq<char>, b: int) -> bool {
    1 <= b <= t.len() && (t[b - 1] == '\n' || ends_sentence(t[b - 1]))
}

/// Whether the window after one from `start` to `end` begins well: where that one ends, if windows
/// do not overlap or the overlap reaches back to the begin of the text; else at the last place
/// after a sentence from which it overlaps no more than it may, or as early as it may.
pub open spec fn begins_well(t: Seq<char>, start: int, end: int, next: int, overlap: int) -> bool {
    if overlap == 0 || end <= overlap {
        next == end
    } else {
        &&& start < next <= end <= next + overlap
        &&& forall|b: int| next < b < end ==> !#[trigger] follows_sentence(t, b)
        &&& follows_sentence(t, next) || next == start + 1 || next == end - overlap
    }
}

proof fn lemma_cut_ends_well(t: Seq<char>, start: int, size: int)
    requires
        size > 0,
        0 <= start,
        t.len() - start > size,
    ensures
        ends_well(t, start, cut_of(t, start, size), size),
{
    let lo = start + least_size(size);
    let hi = latest_cut(t, start, size);
    let target = start + size;
    let cut = cut_of(t, start, size);
    if exists|b: int| is_best_cut(t, lo, hi, target, b) {
        let best = choose|b: int| is_best_cut(t, lo, hi, target, b);
        assert(is_best_cut(t, lo, hi, target, best));
        assert forall|b: int| #[trigger] may_end(t, start, size, b) implies {
            let x = t[cut - 1];
            let y = t[b - 1];
            &&& is_no_worse(x, y)
            &&& is_no_worse(y, x) ==> {
                let near = distance(cut, start + size);
                let other = distance(b, start + size);
                near < other || near == other && cut <= b
            }
        } by {
            if cut_score(t[b - 1]) > 0 {
                assert(is_boundary(t, lo, hi, b));
                assert(is_preferred(t, target, best, b));
            }
        }
    } else {
        assert forall|b: int| #[trigger] may_end(t, start, size, b) implies cut_score(t[b - 1])
            == 0 by {
            if cut_score(t[b - 1]) > 0 {
                assert(is_boundary(t, lo, hi, b));
                lemma_best_cut_exists(t, lo, hi, target, b);
            }
        }
        assert(may_end(t, start, size, cut));
    }
}

proof fn lemma_last_break(t: Seq<char>, lo: int, hi: int)
    requires
        lo <= hi,
    ensures
        lo <= last_break(t, lo, hi) <= hi,
        last_break(t, lo, hi) == lo || follows_sentence(t, last_break(t, lo, hi)),
        forall|b: int| last_break(t, lo, hi) < b < hi ==> !#[trigger] follows_sentence(t, b),
{
    let found = last_break(t, lo, hi);
    if exists|b: int| is_last_break(t, lo, hi, b) {
        let best = choose|b: int| is_last_break(t, lo, hi, b);
        assert(is_last_break(t, lo, hi, best));
        assert forall|b: int| found < b < hi implies !#[trigger] follows_sentence(t, b) by {
            assert(!is_sentence_break(t, b));
        }
    } else {
        assert forall|b: int| lo < b < hi implies !#[trigger] follows_sentence(t, b) by {
            if follows_sentence(t, b) {
                lemma_last_break_exists(t, lo, hi, b);
            }
        }
    }
}

proof fn lemma_last_break_exists(t: Seq<char>, lo: int, hi: int, b: int)
    requires
        lo <= b < hi,
        is_sentence_break(t, b),
    ensures
        exists|x: int| is_last_break(t, lo, hi, x),
    decreases hi - b,
{
    if exists|a: int| b < a < hi && #[trigger] is_sentence_break(t, a) {
        let a = choose|a: int| b < a < hi && #[trigger] is_sentence_break(t, a);
        lemma_last_break_exists(t, lo, hi, a);
    } else {
        assert(is_last_break(t, lo, hi, b));
    }
}

/// Every window of a text but the last has at least six tenths of `size`, and at most `size` and a
/// quarter of it. A window reaches to the end of the text where no more than `size` characters are
/// left, and else it ends well; and every window but the first begins well.
pub proof fn law_windows_are_cut_well(t: Seq<char>, start: int, size: int, overlap: int)
    requires
        0 <= start < t.len(),
        size > 0,
        overlap >= 0,
    ensures
        ({
            let w = windows(t, start, size, overlap);
            &&& w.len() > 0
            &&& w[0].0 == start
            &&& forall|i: int|
                0 <= i < w.len() - 1 ==> (#[trigger] w[i]).1 - w[i].0 >= size * 6 / 10 && w[i].1
                    - w[i].0 <= size + size / 4
            &&& forall|i: int|
                0 <= i < w.len() ==> if t.len() - (#[trigger] w[i]).0 <= size {
                    w[i].1 == t.len()
                } else {
                    ends_well(t, w[i].0, w[i].1, size)
                }
            &&& forall|i: int, j: int|
                0 <= i && j == i + 1 && j < w.len() ==> begins_well(
                    t,
                    (#[trigger] w[i]).0,
                    w[i].1,
                    (#[trigger] w[j]).0,
                    overlap,
                )
        }),
    decreases t.len() - start,
{
    let w = windows(t, start, size, overlap);
    if t.len() - start > size {
        let cut = cut_of(t, start, size);
        lemma_cut_of(t, start, size);
        lemma_cut_ends_well(t, start, size);
        assert(may_end(t, start, size, cut));
        if cut < t.len() {
            lemma_next_start(t, start, cut, overlap);
            let next = next_start(t, start, cut, overlap);
            if cut - overlap > start + 1 {
                lemma_last_break(t, cut - overlap, cut);
            } else {
                lemma_last_break(t, start + 1, cut);
            }
            assert(begins_well(t, start, cut, next, overlap));
            law_windows_are_cut_well(t, next, size, overlap);
            let rest = windows(t, next, size, overlap);
            assert(w == seq![(start, cut)] + rest);
            assert forall|i: int| 0 <= i < w.len() - 1 implies (#[trigger] w[i]).1 - w[i].0 >= size
                * 6 / 10 && w[i].1 - w[i].0 <= size + size / 4 by {
                if i > 0 {
                    assert(w[i] == rest[i - 1]);
                }
            }
            assert forall|i: int| 0 <= i < w.len() implies if t.len() - (#[trigger] w[i]).0
                <= size {
                w[i].1 == t.len()
            } else {
                ends_well(t, w[i].0, w[i].1, size)
            } by {
                if i > 0 {
                    assert(w[i] == rest[i - 1]);
                }
            }
            assert forall|i: int, j: int| 0 <= i && j == i + 1 && j < w.len() implies begins_well(
                t,
                (#[trigger] w[i]).0,
                w[i].1,
                (#[trigger] w[j]).0,
                overlap,
            ) by {
                assert(w[j] == rest[j - 1]);
                if i > 0 {
                    assert(w[i] == rest[i - 1]);
                }
            }
        }
    }
}

/// The windows of a text follow one another without a gap: each begins after the one before
/// begins and no later than it ends, at most `overlap` characters before that end; the last
/// one ends with the text; and none is longer than `size` and a quarter of it.
pub proof fn law_windows(t: Seq<char>, start: int, size: int, overlap: int)
    requires
        0 <= start < t.len(),
        size > 0,
        overlap >= 0,
    ensures
        ({
            let w = windows(t, start, size, overlap);
            &&& w.len() > 0
            &&& w[0].0 == start
            &&& w.last().1 == t.len()
            &&& forall|i: int|
                0 <= i < w.len() ==> start <= (#[trigger] w[i]).0 < w[i].1 <= t.len() && w[i].1
                    - w[i].0 <= size + size / 4
            &&& forall|i: int, j: int|
                0 <= i && j == i + 1 && j < w.len() ==> (#[trigger] w[i]).0 < (#[trigger] w[j]).0
                    <= w[i].1 && w[j].0 + overlap >= w[i].1
            &&& forall|p: int|
                start <= p < t.len() ==> #[trigger] is_reached(w, p)
        }),
    decreases t.len() - start,
{
    let w = windows(t, start, size, overlap);
    if t.len() - start <= size {
        assert forall|p: int| start <= p < t.len() implies #[trigger] is_reached(w, p) by {
            assert(reaches(w[0], p));
        }
    } else {
        let cut = cut_of(t, start, size);
        lemma_cut_of(t, start, size);
        if cut >= t.len() {
            assert forall|p: int| start <= p < t.len() implies #[trigger] is_reached(w, p) by {
                assert(reaches(w[0], p));
            }
        } else {
            lemma_next_start(t, start, cut, overlap);
            let next = next_start(t, start, cut, overlap);
            law_windows(t, next, size, overlap);
            let rest = windows(t, next, size, overlap);
            assert(w == seq![(start, cut)] + rest);
            assert forall|i: int| 0 <= i < w.len() implies start <= (#[trigger] w[i]).0 < w[i].1
                <= t.len() && w[i].1 - w[i].0 <= size + size / 4 by {
                if i > 0 {
                    assert(w[i] == rest[i - 1]);
                }
            }
            assert forall|i: int, j: int| 0 <= i && j == i + 1 && j < w.len() implies (
            #[trigger] w[i]).0 < (#[trigger] w[j]).0 <= w[i].1 && w[j].0 + overlap >= w[i].1 by {
                assert(w[j] == rest[j - 1]);
                if i > 0 {
                    assert(w[i] == rest[i - 1]);
                }
            }
            assert forall|p: int| start <= p < t.len() implies #[trigger] is_reached(w, p) by {
                if p < cut {
                    assert(reaches(w[0], p));
                } else {
                    assert(is_reached(rest, p));
                    let i = choose|i: int| 0 <= i < rest.len() && #[trigger] reaches(rest[i], p);
                    assert(w[i + 1] == rest[i]);
                    assert(reaches(w[i + 1], p));
                }
            }
        }
    }
}

/// Whether `span` is the piece in one of the windows `w`.
pub open spec fn is_span_in(t: Seq<char>, w: Seq<(int, int)>, span: SpanModel, i: int) -> bool {
    0 <= i < w.len() && span_of(t, w[i].0, w[i].1) == Some(span)
}

/// Whether `span` is the piece in any of the windows `w`.
pub open spec fn is_span_of(t: Seq<char>, w: Seq<(int, int)>, span: SpanModel) -> bool {
    exists|i: int| #[trigger] is_span_in(t, w, span, i)
}

proof fn lemma_spans_of(t: Seq<char>, w: Seq<(int, int)>)
    ensures
        forall|j: int|
            0 <= j < spans_of(t, w).len() ==> is_span_of(t, w, #[trigger] spans_of(t, w)[j]),
        forall|i: int|
            0 <= i < w.len() && span_of(t, (#[trigger] w[i]).0, w[i].1) is Some
                ==> spans_of(t, w).contains(span_of(t, w[i].0, w[i].1)->0),
    decreases w.len(),
{
    if w.len() > 0 {
        let v = w.drop_last();
        lemma_spans_of(t, v);
        let all = spans_of(t, w);
        let rest = spans_of(t, v);
        let last = span_of(t, w.last().0, w.last().1);
        assert forall|j: int| 0 <= j < all.len() implies is_span_of(t, w, #[trigger] all[j]) by {
            if j < rest.len() {
                assert(all[j] == rest[j]);
                assert(is_span_of(t, v, rest[j]));
                let i = choose|i: int| #[trigger] is_span_in(t, v, rest[j], i);
                assert(w[i] == v[i]);
                assert(is_span_in(t, w, all[j], i));
            } else {
                assert(is_span_in(t, w, all[j], w.len() - 1));
            }
        }
        assert forall|i: int|
            0 <= i < w.len() && span_of(t, (#[trigger] w[i]).0, w[i].1) is Some implies all.contains(
            span_of(t, w[i].0, w[i].1)->0,
        ) by {
            let span = span_of(t, w[i].0, w[i].1)->0;
            if i < v.len() {
                assert(v[i] == w[i]);
                assert(rest.contains(span));
                let k = choose|k: int| 0 <= k < rest.len() && rest[k] == span;
                assert(all[k] == span);
            } else {
                assert(all[all.len() - 1] == span);
            }
        }
    }
}

/// Whether `span` is the piece of `t` at its place.
pub open spec fn is_piece(t: Seq<char>, span: SpanModel) -> bool {
    0 <= span.start <= span.end <= t.len() && span.text == t.subrange(span.start, span.end)
}

/// Every piece is the text at its place in the trimmed text, and is no longer than `size`
/// and a quarter of it.
pub proof fn law_smart_spans_are_pieces(text: Seq<char>, size: int, overlap: int)
    requires
        size > 0,
        overlap >= 0,
    ensures
        forall|j: int|
            0 <= j < smart_spans(text, size, overlap).len() ==> is_piece(
                text::trimmed(text),
                #[trigger] smart_spans(text, size, overlap)[j],
            ) && smart_spans(text, size, overlap)[j].text.len() <= size + size / 4,
{
    let t = text::trimmed(text);
    let spans = smart_spans(text, size, overlap);
    if t.len() <= size {
        assert(t.subrange(0, t.len() as int) =~= t);
    } else {
        let w = windows(t, 0, size, overlap);
        law_windows(t, 0, size, overlap);
        lemma_spans_of(t, w);
        assert forall|j: int| 0 <= j < spans.len() implies is_piece(t, #[trigger] spans[j])
            && spans[j].text.len() <= size + size / 4 by {
            assert(is_span_of(t, w, spans[j]));
            let i = choose|i: int| #[trigger] is_span_in(t, w, spans[j], i);
            let raw = t.subrange(w[i].0, w[i].1);
            text::lemma_trimmed(raw);
            assert(spans[j].text =~= t.subrange(spans[j].start, spans[j].end));
        }
    }
}

/// Where there is a boundary, there is a best one.
proof fn lemma_best_cut_exists(t: Seq<char>, lo: int, hi: int, target: int, a: int)
    requires
        is_boundary(t, lo, hi, a),
    ensures
        exists|b: int| is_best_cut(t, lo, hi, target, b),
    decreases hi - lo,
{
    let prev = hi - 1;
    if exists|x: int| is_boundary(t, lo, prev, x) {
        let x = choose|x: int| is_boundary(t, lo, prev, x);
        lemma_best_cut_exists(t, lo, prev, target, x);
        let b = choose|b: int| is_best_cut(t, lo, prev, target, b);
        let best = if is_boundary(t, lo, hi, hi) && !is_preferred(t, target, b, hi) {
            hi
        } else {
            b
        };
        assert(is_boundary(t, lo, prev, b));
        assert forall|y: int| #[trigger] is_boundary(t, lo, hi, y) implies is_preferred(
            t,
            target,
            best,
            y,
        ) by {
            if y < hi {
                assert(is_boundary(t, lo, prev, y));
            }
        }
        assert(is_best_cut(t, lo, hi, target, best));
    } else {
        assert forall|y: int| #[trigger] is_boundary(t, lo, hi, y) implies is_preferred(
            t,
            target,
            a,
            y,
        ) by {
            if y < hi {
                assert(is_boundary(t, lo, prev, y));
            }
            if a < hi {
                assert(is_boundary(t, lo, prev, a));
            }
        }
        assert(is_best_cut(t, lo, hi, target, a));
    }
}

/// A chunk that begins later does not end earlier.
proof fn lemma_cuts_rise(t: Seq<char>, first: int, second: int, size: int)
    requires
        size > 0,
        0 <= first < second,
        t.len() - second > size,
    ensures
        cut_of(t, first, size) <= cut_of(t, second, size),
{
    let least = least_size(size);
    let lo1 = first + least;
    let hi1 = latest_cut(t, first, size);
    let lo2 = second + least;
    let hi2 = latest_cut(t, second, size);
    let near = first + size;
    let far = second + size;
    let c1 = cut_of(t, first, size);
    let c2 = cut_of(t, second, size);
    if exists|b: int| is_best_cut(t, lo1, hi1, near, b) {
        assert(is_best_cut(t, lo1, hi1, near, c1));
    }
    if exists|b: int| is_best_cut(t, lo2, hi2, far, b) {
        assert(is_best_cut(t, lo2, hi2, far, c2));
    }
    if c2 < c1 {
        if is_best_cut(t, lo2, hi2, far, c2) {
            assert(is_boundary(t, lo1, hi1, c2)) by {
                assert(is_boundary(t, lo2, hi2, c2));
            }
            lemma_best_cut_exists(t, lo1, hi1, near, c2);
            assert(is_boundary(t, lo1, hi1, c1));
            assert(is_boundary(t, lo2, hi2, c1));
            assert(is_preferred(t, near, c1, c2));
            assert(is_preferred(t, far, c2, c1));
        } else {
            assert(c2 == far);
            assert(is_boundary(t, lo1, hi1, c1));
            assert(is_boundary(t, lo2, hi2, c1));
            lemma_best_cut_exists(t, lo2, hi2, far, c1);
        }
    }
}

/// Whether the window `b` comes after the window `a`, of which it takes up no more than the last
/// `overlap` characters.
pub open spec fn comes_after(a: (int, int), b: (int, int), overlap: int) -> bool {
    a.0 < b.0 && a.1 <= b.1 && a.1 <= b.0 + overlap
}

proof fn lemma_windows_in_order(t: Seq<char>, start: int, size: int, overlap: int)
    requires
        0 <= start < t.len(),
        size > 0,
        overlap >= 0,
    ensures
        forall|i: int, j: int|
            0 <= i < j < windows(t, start, size, overlap).len() ==> comes_after(
                #[trigger] windows(t, start, size, overlap)[i],
                #[trigger] windows(t, start, size, overlap)[j],
                overlap,
            ),
    decreases t.len() - start,
{
    let w = windows(t, start, size, overlap);
    if t.len() - start > size && cut_of(t, start, size) < t.len() {
        let cut = cut_of(t, start, size);
        lemma_cut_of(t, start, size);
        lemma_next_start(t, start, cut, overlap);
        let next = next_start(t, start, cut, overlap);
        let rest = windows(t, next, size, overlap);
        lemma_windows_in_order(t, next, size, overlap);
        law_windows(t, next, size, overlap);
        assert(w == seq![(start, cut)] + rest);
        if t.len() - next > size {
            lemma_cuts_rise(t, start, next, size);
        }
        assert(cut <= rest[0].1);
        assert forall|i: int, j: int| 0 <= i < j < w.len() implies comes_after(
            #[trigger] w[i],
            #[trigger] w[j],
            overlap,
        ) by {
            assert(w[j] == rest[j - 1]);
            if i > 0 {
                assert(w[i] == rest[i - 1]);
            } else if j > 1 {
                assert(comes_after(rest[0], rest[j - 1], overlap));
            }
        }
    }
}

/// Whether the piece `b` comes after the piece `a`, of which it repeats no more than the last
/// `overlap` characters.
pub open spec fn follows(a: SpanModel, b: SpanModel, overlap: int) -> bool {
    a.start <= b.start && a.end <= b.end && a.end <= b.start + overlap
}

proof fn lemma_span_follows(t: Seq<char>, v: (int, int), w: (int, int), overlap: int)
    requires
        0 <= v.0 < v.1 <= t.len(),
        0 <= w.0 < w.1 <= t.len(),
        comes_after(v, w, overlap),
        span_of(t, v.0, v.1) is Some,
        span_of(t, w.0, w.1) is Some,
    ensures
        follows(span_of(t, v.0, v.1)->0, span_of(t, w.0, w.1)->0, overlap),
{
    let x = t.subrange(v.0, v.1);
    let y = t.subrange(w.0, w.1);
    text::lemma_trimmed(x);
    text::lemma_trimmed(y);
    text::lemma_leading_spaces(x);
    text::lemma_leading_spaces(y);
    text::lemma_trailing_spaces(x);
    text::lemma_trailing_spaces(y);
    let a = span_of(t, v.0, v.1)->0;
    let b = span_of(t, w.0, w.1)->0;
    assert(!text::is_space(t[b.start])) by {
        assert(y[text::leading_spaces(y) as int] == t[b.start]);
    }
    if b.start < a.start {
        assert(text::is_space(x[b.start - v.0]));
        assert(x[b.start - v.0] == t[b.start]);
    }
    assert(!text::is_space(t[a.end - 1])) by {
        assert(x[x.len() - text::trailing_spaces(x) - 1] == t[a.end - 1]);
    }
    if b.end < a.end {
        assert(b.start < b.end);
        assert(text::is_space(y[a.end - 1 - w.0]));
        assert(y[a.end - 1 - w.0] == t[a.end - 1]);
    }
}

proof fn lemma_spans_in_order(t: Seq<char>, w: Seq<(int, int)>, overlap: int)
    requires
        forall|i: int| 0 <= i < w.len() ==> 0 <= (#[trigger] w[i]).0 < w[i].1 <= t.len(),
        forall|i: int, j: int|
            0 <= i < j < w.len() ==> comes_after(#[trigger] w[i], #[trigger] w[j], overlap),
    ensures
        forall|i: int, j: int|
            0 <= i < j < spans_of(t, w).len() ==> follows(
                #[trigger] spans_of(t, w)[i],
                #[trigger] spans_of(t, w)[j],
                overlap,
            ),
    decreases w.len(),
{
    if w.len() > 0 {
        let v = w.drop_last();
        let n = w.len() - 1;
        assert forall|i: int, j: int| 0 <= i < j < v.len() implies comes_after(
            #[trigger] v[i],
            #[trigger] v[j],
            overlap,
        ) by {
            assert(comes_after(w[i], w[j], overlap));
        }
        lemma_spans_in_order(t, v, overlap);
        lemma_spans_of(t, v);
        let all = spans_of(t, w);
        let rest = spans_of(t, v);
        assert forall|i: int, j: int| 0 <= i < j < all.len() implies follows(
            #[trigger] all[i],
            #[trigger] all[j],
            overlap,
        ) by {
            assert(all[i] == rest[i]);
            if j < rest.len() {
                assert(all[j] == rest[j]);
            } else {
                assert(is_span_of(t, v, rest[i]));
                let k = choose|k: int| #[trigger] is_span_in(t, v, rest[i], k);
                assert(v[k] == w[k]);
                lemma_span_follows(t, w[k], w[n], overlap);
            }
        }
    }
}

/// The pieces of a text come in order: no piece begins or ends before one that comes earlier, and
/// of none of these does it repeat more than the last `overlap` characters.
pub proof fn law_smart_spans_in_order(text: Seq<char>, size: int, overlap: int)
    requires
        size > 0,
        overlap >= 0,
    ensures
        forall|i: int, j: int|
            0 <= i < j < smart_spans(text, size, overlap).len() ==> follows(
                #[trigger] smart_spans(text, size, overlap)[i],
                #[trigger] smart_spans(text, size, overlap)[j],
                overlap,
            ),
{
    let t = text::trimmed(text);
    if t.len() > size {
        law_windows(t, 0, size, overlap);
        lemma_windows_in_order(t, 0, size, overlap);
        lemma_spans_in_order(t, windows(t, 0, size, overlap), overlap);
    }
}

/// Whether one of the pieces reaches over the place `p`.
pub open spec fn is_kept(spans: Seq<SpanModel>, p: int, j: int) -> bool {
    0 <= j < spans.len() && spans[j].start <= p < spans[j].end
}

/// Nothing but white space is lost: every other character of the trimmed text is in a piece.
pub proof fn law_smart_spans_keep_the_text(text: Seq<char>, size: int, overlap: int)
    requires
        size > 0,
        overlap >= 0,
    ensures
        forall|p: int|
            0 <= p < text::trimmed(text).len() && !text::is_space(
                #[trigger] text::trimmed(text)[p],
            ) ==> exists|j: int| is_kept(smart_spans(text, size, overlap), p, j),
{
    let t = text::trimmed(text);
    let spans = smart_spans(text, size, overlap);
    if t.len() <= size {
        assert forall|p: int| 0 <= p < t.len() && !text::is_space(#[trigger] t[p]) implies exists|
            j: int,
        | is_kept(spans, p, j) by {
            assert(is_kept(spans, p, 0));
        }
    } else {
        let w = windows(t, 0, size, overlap);
        law_windows(t, 0, size, overlap);
        lemma_spans_of(t, w);
        assert forall|p: int| 0 <= p < t.len() && !text::is_space(#[trigger] t[p]) implies exists|
            j: int,
        | is_kept(spans, p, j) by {
            assert(is_reached(w, p));
            let i = choose|i: int| 0 <= i < w.len() && #[trigger] reaches(w[i], p);
            let raw = t.subrange(w[i].0, w[i].1);
            let q = p - w[i].0;
            assert(raw[q] == t[p]);
            text::lemma_leading_spaces(raw);
            text::lemma_trailing_spaces(raw);
            let span = span_of(t, w[i].0, w[i].1)->0;
            assert(spans.contains(span));
            let j = choose|j: int| 0 <= j < spans.len() && spans[j] == span;
            assert(is_kept(spans, p, j));
        }
    }
}

/// The id of the chunk with number `index` of a record.
pub open spec fn chunk_name(record_id: Seq<char>, index: int) -> Seq<char> {
    record_id + "#chunk-"@ + text::decimal(index as nat)
}

/// The pieces into which the text of a record is cut.
pub open spec fn record_spans(full_text: Seq<char>, options: ChunkOptions) -> Seq<SpanModel> {
    match options.mode {
        ChunkMode::Whole => seq![
            SpanModel { start: 0, end: full_text.len() as int, text: full_text },
        ],
        ChunkMode::Smart => smart_spans(full_text, options.size as int, options.overlap as int),
    }
}

/// The chunks of a record: its pieces that are not blank, each with the number of its piece.
pub open spec fn chunks_of(record_id: Seq<char>, spans: Seq<SpanModel>) -> Seq<ChunkModel>
    decreases spans.len(),
{
    if spans.len() == 0 {
        Seq::empty()
    } else {
        let rest = chunks_of(record_id, spans.drop_last());
        let span = spans.last();
        if text::is_blank(span.text) {
            rest
        } else {
            rest.push(
                ChunkModel {
                    chunk_id: chunk_name(record_id, spans.len() - 1),
                    record_id,
                    chunk_index: spans.len() - 1,
                    start: span.start,
                    end: span.end,
                    text: span.text,
                },
            )
        }
    }
}

/// The chunks of the records, one record after the other.
pub open spec fn all_chunks(records: Seq<RecordModel>, options: ChunkOptions) -> Seq<ChunkModel>
    decreases records.len(),
{
    if records.len() == 0 {
        Seq::empty()
    } else {
        let record = records.last();
        all_chunks(records.drop_last(), options) + chunks_of(
            record.record_id,
            record_spans(record.searchable_text, options),
        )
    }
}

/// Cuts the texts of the records into chunks.
pub fn build_chunks(records: &Vec<PreparedRecord>, options: &ChunkOptions) -> (r: Result<
    Vec<PreparedChunk>,
    ChunkOptionsError,
>)
    ensures
        match options.spec_validate() {
            Err(e) => r == Err::<Vec<PreparedChunk>, ChunkOptionsError>(e),
            Ok(_) => r is Ok && chunk_models(r->Ok_0@) == all_chunks(
                schema::record_models(records@),
                *options,
            ),
        },
{
    if let Err(e) = options.validate() {
        return Err(e);
    }
    let ghost models = schema::record_models(records@);
    let mut chunks: Vec<PreparedChunk> = Vec::new();
    let mut i: usize = 0;
    assert(chunk_models(chunks@) =~= all_chunks(models.take(0), *options));
    while i < records.len()
        invariant
            i <= records@.len(),
            options.spec_validate() is Ok,
            models == schema::record_models(records@),
            chunk_models(chunks@) == all_chunks(models.take(i as int), *options),
        decreases records@.len() - i,
    {
        let record = &records[i];
        let spans: Vec<ChunkSpan> = match options.mode {
            ChunkMode::Whole => {
                let v = to_chars(record.searchable_text.as_str());
                let mut one: Vec<ChunkSpan> = Vec::new();
                one.push(
                    ChunkSpan {
                        start_char: 0,
                        end_char: v.len(),
                        text: record.searchable_text.clone(),
                    },
                );
                assert(span_models(one@) =~= record_spans(record.searchable_text@, *options));
                one
            },
            ChunkMode::Smart => smart_chunks(
                record.searchable_text.as_str(),
                options.size,
                options.overlap,
            ),
        };
        let ghost pieces = span_models(spans@);
        let ghost before = chunk_models(chunks@);
        let ghost id = record.record_id@;
        let mut k: usize = 0;
        assert(before + chunks_of(id, pieces.take(0)) =~= before);
        while k < spans.len()
            invariant
                k <= spans@.len(),
                pieces == span_models(spans@),
                id == record.record_id@,
                chunk_models(chunks@) == before + chunks_of(id, pieces.take(k as int)),
            decreases spans@.len() - k,
        {
            let ghost now = chunk_models(chunks@);
            let span = &spans[k];
            assert(pieces.take(k + 1).drop_last() =~= pieces.take(k as int));
            assert(pieces.take(k + 1).last() == span@);
            if !is_blank_text(span.text.as_str()) {
                let mut chunk_id = record.record_id.clone();
                chunk_id.append("#chunk-");
                chunk_id.append(decimal_text(k).as_str());
                let chunk = PreparedChunk {
                    chunk_id,
                    record_id: record.record_id.clone(),
                    chunk_index: k,
                    start_char: span.start_char,
                    end_char: span.end_char,
                    text: span.text.clone(),
                };
                chunks.push(chunk);
                assert(chunk_models(chunks@) =~= now.push(chunk@));
                assert(chunk_models(chunks@) =~= before + chunks_of(id, pieces.take(k + 1)));
            }
            k = k + 1;
        }
        proof {
            assert(pieces.take(k as int) =~= pieces);
            assert(models.take(i + 1).drop_last() =~= models.take(i as int));
            assert(models.take(i + 1).last() == record@);
        }
        i = i + 1;
    }
    assert(models.take(i as int) =~= models);
    Ok(chunks)
}

/// The id of a chunk tells its record and its number.
pub proof fn law_chunk_name_injective(a: Seq<char>, m: int, b: Seq<char>, n: int)
    requires
        m >= 0,
        n >= 0,
        chunk_name(a, m) == chunk_name(b, n),
    ensures
        a == b,
        m == n,
{
    let x = text::decimal(m as nat);
    let y = text::decimal(n as nat);
    if x.len() > y.len() {
        lemma_chunk_name_injective_half(b, n, a, m);
    } else {
        lemma_chunk_name_injective_half(a, m, b, n);
    }
}

proof fn lemma_chunk_name_injective_half(a: Seq<char>, m: int, b: Seq<char>, n: int)
    requires
        m >= 0,
        n >= 0,
        chunk_name(a, m) == chunk_name(b, n),
        text::decimal(m as nat).len() <= text::decimal(n as nat).len(),
    ensures
        a == b,
        m == n,
{
    let x = text::decimal(m as nat);
    let y = text::decimal(n as nat);
    let s = chunk_name(a, m);
    let mid = "#chunk-"@;
    reveal_strlit("#chunk-");
    text::lemma_decimal(m as nat);
    text::lemma_decimal(n as nat);
    assert(s.len() == a.len() + 7 + x.len());
    assert(s.len() == b.len() + 7 + y.len());
    if x.len() < y.len() {
        let p = a.len() as int;
        assert(s[p] == mid[0]);
        let q = p - b.len();
        assert(0 < q);
        if q < 7 {
            assert(chunk_name(b, n)[p] == mid[q]);
        } else {
            assert(chunk_name(b, n)[p] == y[q - 7]);
        }
        assert(false);
    }
    assert(a =~= s.take(a.len() as int));
    assert(b =~= s.take(b.len() as int));
    assert(x =~= s.skip(a.len() as int + 7));
    assert(y =~= s.skip(b.len() as int + 7));
    text::lemma_decimal_injective(m as nat, n as nat);
}

proof fn lemma_chunks_of(record_id: Seq<char>, spans: Seq<SpanModel>)
    ensures
        ({
            let c = chunks_of(record_id, spans);
            &&& forall|k: int|
                0 <= k < c.len() ==> {
                    let m = #[trigger] c[k];
                    &&& 0 <= m.chunk_index < spans.len()
                    &&& m.record_id == record_id
                    &&& m.chunk_id == chunk_name(record_id, m.chunk_index)
                    &&& m.text == spans[m.chunk_index].text
                    &&& m.start == spans[m.chunk_index].start
                    &&& m.end == spans[m.chunk_index].end
                    &&& !text::is_blank(m.text)
                }
            &&& forall|i: int, j: int|
                0 <= i < j < c.len() ==> (#[trigger] c[i]).chunk_index < (
                #[trigger] c[j]).chunk_index
        }),
    decreases spans.len(),
{
    if spans.len() > 0 {
        let front = spans.drop_last();
        lemma_chunks_of(record_id, front);
        let c = chunks_of(record_id, spans);
        let b = chunks_of(record_id, front);
        assert forall|k: int| 0 <= k < c.len() implies {
            let m = #[trigger] c[k];
            &&& 0 <= m.chunk_index < spans.len()
            &&& m.record_id == record_id
            &&& m.chunk_id == chunk_name(record_id, m.chunk_index)
            &&& m.text == spans[m.chunk_index].text
            &&& m.start == spans[m.chunk_index].start
            &&& m.end == spans[m.chunk_index].end
            &&& !text::is_blank(m.text)
        } by {
            if k < b.len() {
                assert(c[k] == b[k]);
                assert(spans[b[k].chunk_index] == front[b[k].chunk_index]);
            }
        }
        assert forall|i: int, j: int| 0 <= i < j < c.len() implies (
        #[trigger] c[i]).chunk_index < (#[trigger] c[j]).chunk_index by {
            assert(c[i] == b[i]);
            if j < b.len() {
                assert(c[j] == b[j]);
            }
        }
    }
}

proof fn lemma_numbered(record_id: Seq<char>, spans: Seq<SpanModel>)
    requires
        forall|i: int| 0 <= i < spans.len() ==> !text::is_blank((#[trigger] spans[i]).text),
    ensures
        chunks_of(record_id, spans).len() == spans.len(),
        forall|k: int|
            0 <= k < spans.len() ==> (#[trigger] chunks_of(record_id, spans)[k]).chunk_index == k,
    decreases spans.len(),
{
    if spans.len() > 0 {
        let front = spans.drop_last();
        assert forall|i: int| 0 <= i < front.len() implies !text::is_blank(
            (#[trigger] front[i]).text,
        ) by {
            assert(front[i] == spans[i]);
        }
        lemma_numbered(record_id, front);
        assert(!text::is_blank(spans[spans.len() - 1].text));
    }
}

/// The chunks of a record that has text are numbered from zero on, without a gap, and there is at
/// least one.
pub proof fn law_chunk_numbers(record_id: Seq<char>, full_text: Seq<char>, options: ChunkOptions)
    requires
        !text::is_blank(full_text),
        options.spec_validate() is Ok,
    ensures
        ({
            let chunks = chunks_of(record_id, record_spans(full_text, options));
            &&& chunks.len() > 0
            &&& forall|k: int|
                0 <= k < chunks.len() ==> (#[trigger] chunks[k]).chunk_index == k
                    && chunks[k].chunk_id == chunk_name(record_id, k)
        }),
{
    let spans = record_spans(full_text, options);
    let size = options.size as int;
    let overlap = options.overlap as int;
    let t = text::trimmed(full_text);
    text::lemma_trimmed(full_text);
    assert(!text::is_space(t[0]));
    if options.mode == ChunkMode::Smart && t.len() > size {
        let w = windows(t, 0, size, overlap);
        law_windows(t, 0, size, overlap);
        lemma_spans_of(t, w);
        law_smart_spans_keep_the_text(full_text, size, overlap);
        assert forall|i: int| 0 <= i < spans.len() implies !text::is_blank(
            (#[trigger] spans[i]).text,
        ) by {
            assert(is_span_of(t, w, spans[i]));
            let k = choose|k: int| #[trigger] is_span_in(t, w, spans[i], k);
            let raw = t.subrange(w[k].0, w[k].1);
            text::lemma_trimmed(raw);
            assert(!text::is_space(spans[i].text[0]));
        }
        let j = choose|j: int| is_kept(smart_spans(full_text, size, overlap), 0, j);
        assert(spans.len() > 0);
    } else if options.mode == ChunkMode::Smart {
        assert(!text::is_blank(t));
    }
    lemma_numbered(record_id, spans);
    lemma_chunks_of(record_id, spans);
}

/// Whether `chunk` is a chunk of the record at `i`.
pub open spec fn is_chunk_of(
    records: Seq<RecordModel>,
    options: ChunkOptions,
    chunk: ChunkModel,
    i: int,
) -> bool {
    &&& 0 <= i < records.len()
    &&& chunk.record_id == records[i].record_id
    &&& chunk.chunk_id == chunk_name(chunk.record_id, chunk.chunk_index)
    &&& 0 <= chunk.chunk_index < record_spans(records[i].searchable_text, options).len()
    &&& SpanModel { start: chunk.start, end: chunk.end, text: chunk.text } == record_spans(
        records[i].searchable_text,
        options,
    )[chunk.chunk_index]
    &&& !text::is_blank(chunk.text)
}

/// Whether `chunk` is a chunk of one of the records.
pub open spec fn is_chunk(
    records: Seq<RecordModel>,
    options: ChunkOptions,
    chunk: ChunkModel,
) -> bool {
    exists|i: int| #[trigger] is_chunk_of(records, options, chunk, i)
}

/// Every chunk is a piece of the text of one of the records, with that record's id and the
/// number of the piece in its own id, and it is not blank.
pub proof fn law_chunks_are_pieces_of_records(records: Seq<RecordModel>, options: ChunkOptions)
    ensures
        forall|k: int|
            0 <= k < all_chunks(records, options).len() ==> is_chunk(
                records,
                options,
                #[trigger] all_chunks(records, options)[k],
            ),
    decreases records.len(),
{
    if records.len() > 0 {
        let front = records.drop_last();
        let record = records.last();
        let spans = record_spans(record.searchable_text, options);
        law_chunks_are_pieces_of_records(front, options);
        lemma_chunks_of(record.record_id, spans);
        let before = all_chunks(front, options);
        let c = chunks_of(record.record_id, spans);
        assert forall|k: int| 0 <= k < all_chunks(records, options).len() implies is_chunk(
            records,
            options,
            #[trigger] all_chunks(records, options)[k],
        ) by {
            if k < before.len() {
                assert(is_chunk(front, options, before[k]));
                let i = choose|i: int| #[trigger] is_chunk_of(front, options, before[k], i);
                assert(front[i] == records[i]);
                assert(is_chunk_of(records, options, before[k], i));
            } else {
                assert(all_chunks(records, options)[k] == c[k - before.len()]);
                assert(is_chunk_of(
                    records,
                    options,
                    c[k - before.len()],
                    records.len() - 1,
                ));
            }
        }
    }
}

proof fn lemma_piece_is_a_chunk(record_id: Seq<char>, spans: Seq<SpanModel>, j: int) -> (k: int)
    requires
        0 <= j < spans.len(),
        !text::is_blank(spans[j].text),
    ensures
        0 <= k < chunks_of(record_id, spans).len(),
        chunks_of(record_id, spans)[k].chunk_index == j,
    decreases spans.len(),
{
    if j < spans.len() - 1 {
        assert(spans.drop_last()[j] == spans[j]);
        lemma_piece_is_a_chunk(record_id, spans.drop_last(), j)
    } else {
        chunks_of(record_id, spans).len() - 1
    }
}

/// No piece of a record's text is left out: each one that is not blank is a chunk of the record,
/// with the number, the place and the text of the piece.
pub proof fn law_every_piece_is_a_chunk(
    records: Seq<RecordModel>,
    options: ChunkOptions,
    i: int,
    j: int,
) -> (k: int)
    requires
        0 <= i < records.len(),
        0 <= j < record_spans(records[i].searchable_text, options).len(),
        !text::is_blank(record_spans(records[i].searchable_text, options)[j].text),
    ensures
        0 <= k < all_chunks(records, options).len(),
        ({
            let chunk = all_chunks(records, options)[k];
            let piece = record_spans(records[i].searchable_text, options)[j];
            &&& chunk.record_id == records[i].record_id
            &&& chunk.chunk_index == j
            &&& chunk.start == piece.start
            &&& chunk.end == piece.end
            &&& chunk.text == piece.text
        }),
    decreases records.len(),
{
    let front = records.drop_last();
    let before = all_chunks(front, options);
    if i < records.len() - 1 {
        assert(front[i] == records[i]);
        let k = law_every_piece_is_a_chunk(front, options, i, j);
        assert(all_chunks(records, options)[k] == before[k]);
        k
    } else {
        let spans = record_spans(records[i].searchable_text, options);
        let k = lemma_piece_is_a_chunk(records[i].record_id, spans, j);
        lemma_chunks_of(records[i].record_id, spans);
        let at = before.len() + k;
        assert(all_chunks(records, options)[at] == chunks_of(records[i].record_id, spans)[k]);
        at
    }
}

/// A text that is not cut is one chunk, from its first to its last character; and a text that is
/// no longer than `size` without the white space at its ends is one piece, which is all of it.
pub proof fn law_uncut_texts(
    records: Seq<RecordModel>,
    options: ChunkOptions,
    i: int,
) -> (k: int)
    requires
        0 <= i < records.len(),
        !text::is_blank(records[i].searchable_text),
        options.mode == ChunkMode::Smart ==> text::trimmed(records[i].searchable_text).len()
            <= options.size,
    ensures
        0 <= k < all_chunks(records, options).len(),
        ({
            let chunk = all_chunks(records, options)[k];
            let kept = if options.mode == ChunkMode::Whole {
                records[i].searchable_text
            } else {
                text::trimmed(records[i].searchable_text)
            };
            &&& chunk.record_id == records[i].record_id
            &&& chunk.chunk_index == 0
            &&& chunk.start == 0
            &&& chunk.end == kept.len()
            &&& chunk.text == kept
        }),
        record_spans(records[i].searchable_text, options).len() == 1,
{
    text::lemma_trimmed(records[i].searchable_text);
    if options.mode == ChunkMode::Smart {
        assert(!text::is_space(text::trimmed(records[i].searchable_text)[0]));
    }
    law_every_piece_is_a_chunk(records, options, i, 0)
}

/// Where the ids of the records differ, so do the ids of all chunks.
pub proof fn law_chunk_ids_differ(records: Seq<RecordModel>, options: ChunkOptions)
    requires
        forall|i: int, j: int|
            0 <= i < j < records.len() ==> (#[trigger] records[i]).record_id != (
            #[trigger] records[j]).record_id,
    ensures
        forall|i: int, j: int|
            0 <= i < j < all_chunks(records, options).len() ==> (#[trigger] all_chunks(
                records,
                options,
            )[i]).chunk_id != (#[trigger] all_chunks(records, options)[j]).chunk_id,
    decreases records.len(),
{
    if records.len() > 0 {
        let front = records.drop_last();
        let record = records.last();
        let spans = record_spans(record.searchable_text, options);
        assert forall|i: int, j: int| 0 <= i < j < front.len() implies (
        #[trigger] front[i]).record_id != (#[trigger] front[j]).record_id by {
            assert(front[i] == records[i]);
            assert(front[j] == records[j]);
        }
        law_chunk_ids_differ(front, options);
        law_chunks_are_pieces_of_records(front, options);
        lemma_chunks_of(record.record_id, spans);
        let all = all_chunks(records, options);
        let before = all_chunks(front, options);
        let c = chunks_of(record.record_id, spans);
        assert forall|i: int, j: int| 0 <= i < j < all.len() implies (
        #[trigger] all[i]).chunk_id != (#[trigger] all[j]).chunk_id by {
            if j < before.len() {
                assert(all[i] == before[i]);
                assert(all[j] == before[j]);
            } else {
                let n = c[j - before.len()];
                assert(all[j] == n);
                if i < before.len() {
                    assert(all[i] == before[i]);
                    assert(is_chunk(front, options, before[i]));
                    let r = choose|r: int| #[trigger] is_chunk_of(front, options, before[i], r);
                    assert(front[r] == records[r]);
                    assert(records[r].record_id != records[records.len() - 1].record_id);
                    if all[i].chunk_id == all[j].chunk_id {
                        law_chunk_name_injective(
                            before[i].record_id,
                            before[i].chunk_index,
                            n.record_id,
                            n.chunk_index,
                        );
                    }
                } else {
                    let m = c[i - before.len()];
                    assert(all[i] == m);
                    if all[i].chunk_id == all[j].chunk_id {
                        law_chunk_name_injective(
                            m.record_id,
                            m.chunk_index,
                            n.record_id,
                            n.chunk_index,
                        );
                    }
                }
            }
        }
    }
}

/// The id of a chunk begins with the id of its record and ends with the number of the chunk, with
/// `#chunk-` between them.
pub proof fn law_chunk_name(record_id: Seq<char>, index: nat)
    ensures
        ({
            let name = chunk_name(record_id, index as int);
            let n = record_id.len() as int;
            &&& name.len() > n + 7
            &&& name.take(n) == record_id
            &&& name.subrange(n, n + 7) == "#chunk-"@
            &&& text::read_decimal(name.skip(n + 7)) == index
        }),
{
    let name = chunk_name(record_id, index as int);
    let n = record_id.len() as int;
    reveal_strlit("#chunk-");
    text::law_decimal_is_read_back(index);
    assert(name.take(n) =~= record_id);
    assert(name.subrange(n, n + 7) =~= "#chunk-"@);
    assert(name.skip(n + 7) =~= text::decimal(index));
}

/// Whether a piece is a window without the white space at its two ends: it lies in the window,
/// begins and ends with other characters, and nothing but white space of the window is outside.
pub open spec fn is_trimmed_window(t: Seq<char>, w: (int, int), span: SpanModel) -> bool {
    &&& w.0 <= span.start < span.end <= w.1
    &&& span.text == t.subrange(span.start, span.end)
    &&& !text::is_space(t[span.start])
    &&& !text::is_space(t[span.end - 1])
    &&& forall|p: int| w.0 <= p < span.start ==> text::is_space(#[trigger] t[p])
    &&& forall|p: int| span.end <= p < w.1 ==> text::is_space(#[trigger] t[p])
}

proof fn lemma_span_is_trimmed(t: Seq<char>, start: int, end: int)
    requires
        0 <= start <= end <= t.len(),
    ensures
        span_of(t, start, end) is Some <==> !text::is_blank(t.subrange(start, end)),
        span_of(t, start, end) matches Some(span) ==> is_trimmed_window(t, (start, end), span),
{
    let raw = t.subrange(start, end);
    if !text::is_blank(raw) {
        let span = span_of(t, start, end)->0;
        text::lemma_trimmed(raw);
        text::lemma_leading_spaces(raw);
        text::lemma_trailing_spaces(raw);
        let lead = text::leading_spaces(raw) as int;
        let trail = text::trailing_spaces(raw) as int;
        let kept = text::trimmed(raw);
        assert(kept =~= t.subrange(span.start, span.end));
        assert(kept[0] == t[span.start]);
        assert(kept.last() == t[span.end - 1]);
        assert forall|p: int| start <= p < span.start implies text::is_space(#[trigger] t[p]) by {
            assert(raw[p - start] == t[p]);
        }
        assert forall|p: int| span.end <= p < end implies text::is_space(#[trigger] t[p]) by {
            assert(raw[p - start] == t[p]);
        }
    }
}

proof fn lemma_places_of_spans(t: Seq<char>, w: Seq<(int, int)>) -> (places: Seq<int>)
    requires
        forall|i: int| 0 <= i < w.len() ==> 0 <= (#[trigger] w[i]).0 <= w[i].1 <= t.len(),
    ensures
        are_trimmed_windows(t, w, spans_of(t, w), places),
    decreases w.len(),
{
    if w.len() == 0 {
        Seq::empty()
    } else {
        let v = w.drop_last();
        let n = w.len() - 1;
        assert forall|i: int| 0 <= i < v.len() implies 0 <= (#[trigger] v[i]).0 <= v[i].1
            <= t.len() by {
            assert(v[i] == w[i]);
        }
        let known = lemma_places_of_spans(t, v);
        let rest = spans_of(t, v);
        let all = spans_of(t, w);
        assert(w[n] == w.last());
        lemma_span_is_trimmed(t, w.last().0, w.last().1);
        let places = if span_of(t, w.last().0, w.last().1) is Some {
            known.push(n)
        } else {
            known
        };
        assert forall|k: int| 0 <= k < all.len() implies 0 <= #[trigger] places[k] < w.len()
            && is_trimmed_window(t, w[places[k]], all[k]) by {
            if k < rest.len() {
                assert(all[k] == rest[k]);
                assert(places[k] == known[k]);
                assert(v[known[k]] == w[known[k]]);
            }
        }
        assert forall|i: int, j: int| 0 <= i < j < places.len() implies #[trigger] places[i]
            < #[trigger] places[j] by {
            assert(places[i] == known[i]);
            if j < known.len() {
                assert(places[j] == known[j]);
            }
        }
        assert forall|i: int|
            0 <= i < w.len() && !text::is_blank(
                t.subrange((#[trigger] w[i]).0, w[i].1),
            ) implies places.contains(i) by {
            if i < n {
                assert(v[i] == w[i]);
                assert(known.contains(i));
                let k = choose|k: int| 0 <= k < known.len() && known[k] == i;
                assert(places[k] == i);
            } else {
                assert(places[places.len() - 1] == i);
            }
        }
        places
    }
}

/// Whether the pieces are the windows that are not blank, all of them and in their order, without
/// the white space at their ends: `places` says which window each of them is.
pub open spec fn are_trimmed_windows(
    t: Seq<char>,
    w: Seq<(int, int)>,
    spans: Seq<SpanModel>,
    places: Seq<int>,
) -> bool {
    &&& places.len() == spans.len()
    &&& forall|k: int|
        0 <= k < spans.len() ==> 0 <= #[trigger] places[k] < w.len() && is_trimmed_window(
            t,
            w[places[k]],
            spans[k],
        )
    &&& forall|i: int, j: int|
        0 <= i < j < places.len() ==> #[trigger] places[i] < #[trigger] places[j]
    &&& forall|i: int|
        0 <= i < w.len() && !text::is_blank(t.subrange((#[trigger] w[i]).0, w[i].1))
            ==> places.contains(i)
}

/// The pieces of a text that is longer than `size` are its windows that are not blank, one by one
/// and without the white space at their ends.
pub proof fn law_pieces_are_windows(full: Seq<char>, size: int, overlap: int) -> (places: Seq<int>)
    requires
        size > 0,
        overlap >= 0,
        text::trimmed(full).len() > size,
    ensures
        are_trimmed_windows(
            text::trimmed(full),
            windows(text::trimmed(full), 0, size, overlap),
            smart_spans(full, size, overlap),
            places,
        ),
{
    let t = text::trimmed(full);
    let w = windows(t, 0, size, overlap);
    law_windows(t, 0, size, overlap);
    lemma_places_of_spans(t, w)
}

} // verus!
