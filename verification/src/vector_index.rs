//! The vector index: how its vectors are stored, and how its hits are read.
use vstd::prelude::*;
use vstd::string::*;

use crate::chunking::PreparedChunk;
use crate::order;
use crate::order::{order_falling, Score};
use crate::text;
use crate::text::{decimal_text, from_chars, to_chars};
use crate::text_map;
use crate::text_map::TextMap;

verus! {

/// How many components the bytes of a vector hold, each of them in four bytes.
pub open spec fn components(vector: Seq<u8>) -> int {
    vector.len() as int / 4
}

/// The bytes of a number, the lowest first.
#[verifier::opaque]
pub open spec fn number_bytes(n: int) -> Seq<u8> {
    seq![
        (n % 256) as u8,
        (n / 256 % 256) as u8,
        (n / 65536 % 256) as u8,
        (n / 16777216 % 256) as u8,
    ]
}

/// The number whose bytes stand at the start of `s`, the lowest first.
#[verifier::opaque]
pub open spec fn bytes_number(s: Seq<u8>) -> int {
    s[0] + 256 * s[1] + 65536 * s[2] + 16777216 * s[3]
}

proof fn lemma_number_bytes(n: int, rest: Seq<u8>)
    requires
        0 <= n < 0x1_0000_0000,
    ensures
        number_bytes(n).len() == 4,
        bytes_number(number_bytes(n) + rest) == n,
{
    reveal(number_bytes);
    reveal(bytes_number);
}

proof fn lemma_read_step(head: Seq<u8>, first: Seq<u8>, tail: Seq<u8>)
    requires
        head.len() == 4,
        4 * bytes_number(head + (first + tail)) == first.len(),
        read_vectors(tail) is Ok,
    ensures
        read_vectors(head + first + tail) == Ok::<Seq<Seq<u8>>, ()>(
            seq![first] + read_vectors(tail)->Ok_0,
        ),
{
    let s = head + first + tail;
    assert(s =~= head + (first + tail));
    assert(s.subrange(4, 4 + first.len() as int) =~= first);
    assert(s.skip(4 + first.len() as int) =~= tail);
}

/// Vectors as they are stored: each one as the number of its components and their bytes.
pub open spec fn stored(vectors: Seq<Seq<u8>>) -> Seq<u8>
    decreases vectors.len(),
{
    if vectors.len() == 0 {
        Seq::empty()
    } else {
        number_bytes(components(vectors[0]) % 0x1_0000_0000) + vectors[0] + stored(
            vectors.drop_first(),
        )
    }
}

/// The vectors that are stored in `s`; an error where the last of them is cut short.
pub open spec fn read_vectors(s: Seq<u8>) -> Result<Seq<Seq<u8>>, ()>
    decreases s.len(),
{
    if s.len() < 4 {
        Ok(Seq::empty())
    } else {
        let n = 4 * bytes_number(s);
        if s.len() < 4 + n || n < 0 {
            Err(())
        } else {
            match read_vectors(s.skip(4 + n)) {
                Ok(rest) => Ok(seq![s.subrange(4, 4 + n)] + rest),
                Err(e) => Err(e),
            }
        }
    }
}

/// Vectors whose components fit a stored number are read as they were stored.
pub proof fn law_stored_vectors_are_read(vectors: Seq<Seq<u8>>)
    requires
        forall|i: int|
            0 <= i < vectors.len() ==> (#[trigger] vectors[i]).len() % 4 == 0 && components(
                vectors[i],
            ) < 0x1_0000_0000,
    ensures
        read_vectors(stored(vectors)) == Ok::<Seq<Seq<u8>>, ()>(vectors),
    decreases vectors.len(),
{
    if vectors.len() > 0 {
        let first = vectors[0];
        let rest = vectors.drop_first();
        let n = components(first);
        assert(first.len() == 4 * n && 0 <= n < 0x1_0000_0000);
        assert forall|i: int| 0 <= i < rest.len() implies (#[trigger] rest[i]).len() % 4 == 0
            && components(rest[i]) < 0x1_0000_0000 by {
            assert(rest[i] == vectors[i + 1]);
        }
        law_stored_vectors_are_read(rest);
        lemma_number_bytes(n, first + stored(rest));
        lemma_read_step(number_bytes(n), first, stored(rest));
        assert(n % 0x1_0000_0000 == n);
        assert(seq![first] + rest =~= vectors);
    } else {
        assert(vectors =~= Seq::empty());
    }
}

/// The views of a list of vectors.
pub open spec fn vector_models(v: Seq<Vec<u8>>) -> Seq<Seq<u8>> {
    Seq::new(v.len(), |i: int| v[i]@)
}

fn push_number(out: &mut Vec<u8>, n: u32)
    ensures
        final(out)@ == old(out)@ + number_bytes(n as int),
{
    out.push((n % 256) as u8);
    out.push((n / 256 % 256) as u8);
    out.push((n / 65536 % 256) as u8);
    out.push((n / 16777216 % 256) as u8);
    reveal(number_bytes);
    assert(out@ =~= old(out)@ + number_bytes(n as int));
}

fn push_bytes(out: &mut Vec<u8>, bytes: &Vec<u8>)
    ensures
        final(out)@ == old(out)@ + bytes@,
{
    let mut i: usize = 0;
    assert(out@ =~= old(out)@ + bytes@.take(0));
    while i < bytes.len()
        invariant
            i <= bytes@.len(),
            out@ == old(out)@ + bytes@.take(i as int),
        decreases bytes@.len() - i,
    {
        out.push(bytes[i]);
        assert(out@ =~= old(out)@ + bytes@.take(i + 1));
        i = i + 1;
    }
    assert(bytes@.take(i as int) =~= bytes@);
}

fn store_vectors(vectors: &Vec<Vec<u8>>) -> (r: Vec<u8>)
    ensures
        r@ == stored(vector_models(vectors@)),
{
    let ghost all = vector_models(vectors@);
    let mut out: Vec<u8> = Vec::new();
    let mut i: usize = 0;
    assert(all.skip(0) =~= all);
    assert(out@ + stored(all.skip(0)) =~= stored(all));
    while i < vectors.len()
        invariant
            i <= vectors@.len(),
            all == vector_models(vectors@),
            out@ + stored(all.skip(i as int)) == stored(all),
        decreases vectors@.len() - i,
    {
        let ghost before = out@;
        let ghost rest = all.skip(i as int);
        let vector = &vectors[i];
        let n: u64 = vector.len() as u64 / 4;
        push_number(&mut out, (n % 0x1_0000_0000) as u32);
        push_bytes(&mut out, vector);
        proof {
            assert(rest[0] == vector@);
            assert(rest.drop_first() =~= all.skip(i + 1));
            assert(n % 0x1_0000_0000 == components(vector@) % 0x1_0000_0000);
            assert(out@ + stored(all.skip(i + 1)) =~= before + stored(rest));
        }
        i = i + 1;
    }
    assert(all.skip(i as int) =~= Seq::empty());
    assert(out@ + stored(all.skip(i as int)) =~= out@);
    out
}

fn number_at(s: &[u8], at: usize) -> (r: u32)
    requires
        at + 4 <= s@.len(),
    ensures
        r == bytes_number(s@.skip(at as int)),
{
    reveal(bytes_number);
    s[at] as u32 + 256 * (s[at + 1] as u32) + 65536 * (s[at + 2] as u32) + 16777216 * (s[at
        + 3] as u32)
}

fn copy_bytes(s: &[u8], from: usize, to: usize) -> (r: Vec<u8>)
    requires
        from <= to <= s@.len(),
    ensures
        r@ == s@.subrange(from as int, to as int),
{
    let mut out: Vec<u8> = Vec::new();
    let mut i: usize = from;
    assert(out@ =~= s@.subrange(from as int, from as int));
    while i < to
        invariant
            from <= i <= to <= s@.len(),
            out@ == s@.subrange(from as int, i as int),
        decreases to - i,
    {
        out.push(s[i]);
        assert(out@ =~= s@.subrange(from as int, i + 1));
        i = i + 1;
    }
    out
}

fn load_vectors(s: &[u8]) -> (r: Result<Vec<Vec<u8>>, ()>)
    ensures
        match read_vectors(s@) {
            Ok(m) => r is Ok && vector_models(r->Ok_0@) == m,
            Err(_) => r is Err,
        },
{
    let ghost all = read_vectors(s@);
    let mut out: Vec<Vec<u8>> = Vec::new();
    let mut at: usize = 0;
    proof {
        assert(s@.skip(0) =~= s@);
        if all is Ok {
            assert(vector_models(out@) + all->Ok_0 =~= all->Ok_0);
        }
    }
    while s.len() - at >= 4
        invariant
            at <= s@.len(),
            all == read_vectors(s@),
            match read_vectors(s@.skip(at as int)) {
                Ok(rest) => all == Ok::<Seq<Seq<u8>>, ()>(vector_models(out@) + rest),
                Err(e) => all == Err::<Seq<Seq<u8>>, ()>(e),
            },
        decreases s@.len() - at,
    {
        let ghost before = vector_models(out@);
        let ghost here = s@.skip(at as int);
        let count: u128 = number_at(s, at) as u128;
        let left: u128 = (s.len() - at - 4) as u128;
        if left < 4 * count {
            return Err(());
        }
        let from: usize = at + 4;
        let to: usize = from + (4 * count) as usize;
        let vector = copy_bytes(s, from, to);
        out.push(vector);
        proof {
            let n = 4 * bytes_number(here);
            assert(here.subrange(4, 4 + n) =~= vector@);
            assert(here.skip(4 + n) =~= s@.skip(to as int));
            assert(vector_models(out@) =~= before.push(vector@));
            let rest = read_vectors(s@.skip(to as int));
            if rest is Ok {
                assert(before + (seq![vector@] + rest->Ok_0) =~= vector_models(out@)
                    + rest->Ok_0);
            }
        }
        at = to;
    }
    proof {
        assert(read_vectors(s@.skip(at as int)) == Ok::<Seq<Seq<u8>>, ()>(Seq::empty()));
        assert(vector_models(out@) + Seq::<Seq<u8>>::empty() =~= vector_models(out@));
    }
    Ok(out)
}

/// How many characters stand before the first `mark`, or in the whole text where there is none.
pub open spec fn length_before(s: Seq<char>, mark: char) -> nat
    decreases s.len(),
{
    if s.len() == 0 || s[0] == mark {
        0
    } else {
        1 + length_before(s.drop_first(), mark)
    }
}

proof fn lemma_length_before(s: Seq<char>, mark: char)
    ensures
        length_before(s, mark) <= s.len(),
        length_before(s, mark) < s.len() ==> s[length_before(s, mark) as int] == mark,
        forall|i: int| 0 <= i < length_before(s, mark) ==> #[trigger] s[i] != mark,
    decreases s.len(),
{
    if s.len() > 0 && s[0] != mark {
        lemma_length_before(s.drop_first(), mark);
        assert forall|i: int| 0 <= i < length_before(s, mark) implies #[trigger] s[i] != mark by {
            if i > 0 {
                assert(s.drop_first()[i - 1] == s[i]);
            }
        }
    }
}

proof fn lemma_length_before_unique(s: Seq<char>, mark: char, n: int)
    requires
        0 <= n <= s.len(),
        n < s.len() ==> s[n] == mark,
        forall|i: int| 0 <= i < n ==> #[trigger] s[i] != mark,
    ensures
        length_before(s, mark) == n,
{
    lemma_length_before(s, mark);
    let m = length_before(s, mark) as int;
    if m < n {
        assert(s[m] != mark);
    } else if n < m {
        assert(s[n] != mark);
    }
}

/// A line without the carriage return at its end.
pub open spec fn without_return(line: Seq<char>) -> Seq<char> {
    if line.len() > 0 && line.last() == '\r' {
        line.drop_last()
    } else {
        line
    }
}

/// The lines of a text. What follows the last line feed is a line where it is not empty.
pub open spec fn lines(s: Seq<char>) -> Seq<Seq<char>>
    decreases s.len(),
{
    if s.len() == 0 {
        Seq::empty()
    } else {
        let n = length_before(s, '\n') as int;
        if n >= s.len() {
            seq![s]
        } else {
            seq![without_return(s.take(n))] + lines(s.skip(n + 1))
        }
    }
}

/// What follows the first tab of each line that has one.
pub open spec fn labelled(all: Seq<Seq<char>>) -> Seq<Seq<char>>
    decreases all.len(),
{
    if all.len() == 0 {
        Seq::empty()
    } else {
        let line = all[0];
        let n = length_before(line, '\t') as int;
        let rest = labelled(all.drop_first());
        if n >= line.len() {
            rest
        } else {
            seq![line.skip(n + 1)] + rest
        }
    }
}

/// The line of an id: its number, a tab and the id.
pub open spec fn id_line(n: int, id: Seq<char>) -> Seq<char> {
    text::decimal(n as nat) + seq!['\t'] + id
}

/// The lines of ids that are numbered from `start` on.
pub open spec fn id_lines(ids: Seq<Seq<char>>, start: int) -> Seq<char>
    decreases ids.len(),
{
    if ids.len() == 0 {
        Seq::empty()
    } else {
        id_line(start, ids[0]) + seq!['\n'] + id_lines(ids.drop_first(), start + 1)
    }
}

/// Whether an id can stand at the end of a line: it holds no line feed, and no carriage return
/// at its end.
pub open spec fn fits_a_line(id: Seq<char>) -> bool {
    (forall|i: int| 0 <= i < id.len() ==> #[trigger] id[i] != '\n') && (id.len() > 0 ==> id.last()
        != '\r')
}

proof fn lemma_id_line(n: int, id: Seq<char>)
    requires
        fits_a_line(id),
    ensures
        forall|i: int| 0 <= i < id_line(n, id).len() ==> #[trigger] id_line(n, id)[i] != '\n',
        id_line(n, id).len() > 0,
        id_line(n, id).last() != '\r',
        length_before(id_line(n, id), '\t') == text::decimal(n as nat).len(),
        id_line(n, id).skip(text::decimal(n as nat).len() as int + 1) == id,
{
    let d = text::decimal(n as nat);
    let line = id_line(n, id);
    text::lemma_decimal(n as nat);
    assert forall|i: int| 0 <= i < line.len() implies #[trigger] line[i] != '\n' by {
        if i < d.len() {
            assert(line[i] == d[i]);
        } else if i > d.len() {
            assert(line[i] == id[i - d.len() - 1]);
        }
    }
    if id.len() > 0 {
        assert(line.last() == id.last());
    } else {
        assert(line.last() == '\t');
    }
    assert forall|i: int| 0 <= i < d.len() implies #[trigger] line[i] != '\t' by {
        assert(line[i] == d[i]);
    }
    assert(line[d.len() as int] == '\t');
    lemma_length_before_unique(line, '\t', d.len() as int);
    assert(line.skip(d.len() as int + 1) =~= id);
}

/// Ids that fit a line are read as they were written.
pub proof fn law_written_ids_are_read(ids: Seq<Seq<char>>, start: int)
    requires
        forall|i: int| 0 <= i < ids.len() ==> fits_a_line(#[trigger] ids[i]),
    ensures
        labelled(lines(id_lines(ids, start))) == ids,
    decreases ids.len(),
{
    if ids.len() > 0 {
        let rest = ids.drop_first();
        assert forall|i: int| 0 <= i < rest.len() implies fits_a_line(#[trigger] rest[i]) by {
            assert(rest[i] == ids[i + 1]);
        }
        law_written_ids_are_read(rest, start + 1);
        let line = id_line(start, ids[0]);
        let tail = id_lines(rest, start + 1);
        let s = id_lines(ids, start);
        lemma_id_line(start, ids[0]);
        assert(s =~= line + seq!['\n'] + tail);
        assert forall|i: int| 0 <= i < line.len() implies #[trigger] s[i] != '\n' by {
            assert(s[i] == line[i]);
        }
        lemma_length_before_unique(s, '\n', line.len() as int);
        assert(s.take(line.len() as int) =~= line);
        assert(s.skip(line.len() as int + 1) =~= tail);
        let all = lines(s);
        assert(all =~= seq![line] + lines(tail));
        assert(all.drop_first() =~= lines(tail));
        assert(labelled(all) =~= seq![ids[0]] + labelled(lines(tail)));
        assert(seq![ids[0]] + rest =~= ids);
    } else {
        assert(ids =~= Seq::empty());
    }
}

fn write_ids(ids: &Vec<String>) -> (r: String)
    ensures
        r@ == id_lines(text::texts(ids@), 0),
{
    let ghost all = text::texts(ids@);
    let mut out = String::new();
    let mut i: usize = 0;
    assert(all.skip(0) =~= all);
    assert(out@ + id_lines(all.skip(0), 0) =~= id_lines(all, 0));
    while i < ids.len()
        invariant
            i <= ids@.len(),
            all == text::texts(ids@),
            out@ + id_lines(all.skip(i as int), i as int) == id_lines(all, 0),
        decreases ids@.len() - i,
    {
        let ghost before = out@;
        let ghost rest = all.skip(i as int);
        out.append(decimal_text(i).as_str());
        out.push('\t');
        out.append(ids[i].as_str());
        out.push('\n');
        proof {
            assert(rest[0] == ids@[i as int]@);
            assert(rest.drop_first() =~= all.skip(i + 1));
            assert(out@ =~= before + id_line(i as int, rest[0]) + seq!['\n']);
            assert(out@ + id_lines(all.skip(i + 1), i + 1) =~= before + id_lines(rest, i as int));
        }
        i = i + 1;
    }
    assert(all.skip(i as int) =~= Seq::empty());
    assert(out@ + id_lines(all.skip(i as int), i as int) =~= out@);
    out
}

fn find_char(s: &Vec<char>, from: usize, to: usize, mark: char) -> (r: usize)
    requires
        from <= to <= s@.len(),
    ensures
        r == from + length_before(s@.subrange(from as int, to as int), mark),
        from <= r <= to,
{
    let ghost part = s@.subrange(from as int, to as int);
    let mut i: usize = from;
    while i < to && s[i] != mark
        invariant
            from <= i <= to <= s@.len(),
            part == s@.subrange(from as int, to as int),
            forall|k: int| 0 <= k < i - from ==> #[trigger] part[k] != mark,
        decreases to - i,
    {
        assert(part[i - from] == s@[i as int]);
        i = i + 1;
    }
    proof {
        if i < to {
            assert(part[i - from] == s@[i as int]);
        }
        lemma_length_before_unique(part, mark, i - from);
    }
    i
}

fn read_ids(map: &str) -> (r: Vec<String>)
    ensures
        text::texts(r@) == labelled(lines(map@)),
{
    let s = to_chars(map);
    let size: usize = s.len();
    let ghost all = labelled(lines(map@));
    let mut out: Vec<String> = Vec::new();
    let mut at: usize = 0;
    assert(s@.skip(0) =~= s@);
    assert(text::texts(out@) + all =~= all);
    while at < size
        invariant
            at <= size,
            size == s@.len(),
            s@ == map@,
            all == labelled(lines(map@)),
            text::texts(out@) + labelled(lines(s@.skip(at as int))) == all,
        decreases size - at,
    {
        let ghost before = text::texts(out@);
        let ghost here = s@.skip(at as int);
        let feed = find_char(&s, at, size, '\n');
        assert(s@.subrange(at as int, size as int) =~= here);
        let mut end: usize = feed;
        if feed < size && feed > at && s[feed - 1] == '\r' {
            end = feed - 1;
        }
        let next: usize = if feed < size {
            feed + 1
        } else {
            size
        };
        let ghost line = s@.subrange(at as int, end as int);
        proof {
            let n = feed - at;
            if feed < size {
                assert(here.take(n) =~= s@.subrange(at as int, feed as int));
                if n > 0 {
                    assert(here.take(n).last() == s@[feed - 1]);
                }
                assert(without_return(here.take(n)) =~= line);
                assert(here.skip(n + 1) =~= s@.skip(next as int));
                assert(lines(here) == seq![line] + lines(s@.skip(next as int)));
            } else {
                assert(line =~= here);
                assert(lines(here) == seq![line]);
                assert(s@.skip(next as int) =~= Seq::empty());
                assert(lines(here) =~= seq![line] + lines(s@.skip(next as int)));
            }
            assert(lines(here)[0] == line);
            assert(lines(here).drop_first() =~= lines(s@.skip(next as int)));
        }
        let tab = find_char(&s, at, end, '\t');
        if tab < end {
            let id = from_chars(&s, tab + 1, end);
            out.push(id);
            proof {
                assert(line.skip(tab - at + 1) =~= id@);
                assert(text::texts(out@) =~= before.push(id@));
            }
        }
        proof {
            assert(text::texts(out@) + labelled(lines(s@.skip(next as int))) =~= before
                + labelled(lines(here)));
        }
        at = next;
    }
    assert(s@.skip(at as int) =~= Seq::empty());
    assert(text::texts(out@) + labelled(lines(s@.skip(at as int))) =~= text::texts(out@));
    out
}

/// The vectors of an index and what each of them belongs to. Of a vector the bytes of its
/// components are held.
#[derive(Debug, Clone, PartialEq, Eq)]
pub struct HnswVectorIndex {
    pub dim: usize,
    pub ids: Vec<String>,
    pub vectors: Vec<Vec<u8>>,
}

/// The vectors of an index without their representation.
#[verifier::ext_equal]
pub struct VectorIndexModel {
    pub dim: int,
    pub ids: Seq<Seq<char>>,
    pub vectors: Seq<Seq<u8>>,
}

impl View for HnswVectorIndex {
    type V = VectorIndexModel;

    open spec fn view(&self) -> VectorIndexModel {
        VectorIndexModel {
            dim: self.dim as int,
            ids: text::texts(self.ids@),
            vectors: vector_models(self.vectors@),
        }
    }
}

/// Why there is no vector index.
#[derive(Debug, Clone, PartialEq, Eq)]
pub enum VectorIndexError {
    /// A vector has another dimension than the index.
    Dimension(String),
    /// The last stored vector is cut short.
    CutShort,
    /// There are more or fewer ids than vectors.
    Count,
}

impl VectorIndexError {
    /// What is said of the error.
    pub open spec fn spec_message(self) -> Seq<char> {
        match self {
            VectorIndexError::Dimension(id) => "vector dimension mismatch for `"@ + id@ + "`"@,
            VectorIndexError::CutShort => "failed to fill whole buffer"@,
            VectorIndexError::Count => "HNSW snapshot id/vector count mismatch"@,
        }
    }

    /// What is said of the error.
    pub fn message(&self) -> (r: String)
        ensures
            r@ == self.spec_message(),
    {
        match self {
            VectorIndexError::Dimension(id) => {
                let mut out = "vector dimension mismatch for `".to_string();
                out.append(id.as_str());
                out.append("`");
                out
            },
            VectorIndexError::CutShort => "failed to fill whole buffer".to_string(),
            VectorIndexError::Count => "HNSW snapshot id/vector count mismatch".to_string(),
        }
    }
}

/// An id and the bytes of its vector.
#[derive(Debug, Clone, PartialEq, Eq)]
pub struct VectorItem {
    pub id: String,
    pub vector: Vec<u8>,
}

/// How many chunks are embedded at once.
pub const BATCH_SIZE: usize = 4;

/// The texts of a list of chunks.
pub open spec fn chunk_texts(chunks: Seq<PreparedChunk>) -> Seq<Seq<char>> {
    Seq::new(chunks.len(), |i: int| chunks[i].text@)
}

/// The groups in which texts are embedded: full ones, and what is left.
pub open spec fn batches(items: Seq<Seq<char>>) -> Seq<Seq<Seq<char>>>
    decreases items.len(),
{
    if items.len() == 0 {
        Seq::empty()
    } else if items.len() <= BATCH_SIZE {
        seq![items]
    } else {
        seq![items.take(BATCH_SIZE as int)] + batches(items.skip(BATCH_SIZE as int))
    }
}

/// The texts of a list of groups.
pub open spec fn batch_texts(v: Seq<Vec<String>>) -> Seq<Seq<Seq<char>>> {
    Seq::new(v.len(), |i: int| text::texts(v[i]@))
}

/// The texts of chunks, in the groups in which they are embedded.
pub fn batches_to_embed(chunks: &Vec<PreparedChunk>) -> (r: Vec<Vec<String>>)
    ensures
        batch_texts(r@) == batches(chunk_texts(chunks@)),
{
    let ghost all = chunk_texts(chunks@);
    let mut out: Vec<Vec<String>> = Vec::new();
    let mut from: usize = 0;
    assert(all.skip(0) =~= all);
    assert(batch_texts(out@) + batches(all.skip(0)) =~= batches(all));
    while from < chunks.len()
        invariant
            from <= chunks@.len(),
            all == chunk_texts(chunks@),
            batch_texts(out@) + batches(all.skip(from as int)) == batches(all),
        decreases chunks@.len() - from,
    {
        let ghost before = batch_texts(out@);
        let ghost rest = all.skip(from as int);
        let to: usize = if chunks.len() - from <= BATCH_SIZE {
            chunks.len()
        } else {
            from + BATCH_SIZE
        };
        let mut batch: Vec<String> = Vec::new();
        let mut i: usize = from;
        assert(text::texts(batch@) =~= all.subrange(from as int, from as int));
        while i < to
            invariant
                from <= i <= to <= chunks@.len(),
                all == chunk_texts(chunks@),
                text::texts(batch@) == all.subrange(from as int, i as int),
            decreases to - i,
        {
            let ghost done = text::texts(batch@);
            let part = chunks[i].text.clone();
            batch.push(part);
            proof {
                assert(all[i as int] == part@);
                assert(text::texts(batch@) =~= done.push(part@));
                assert(all.subrange(from as int, i + 1) =~= done.push(all[i as int]));
            }
            i = i + 1;
        }
        let ghost group = text::texts(batch@);
        out.push(batch);
        proof {
            assert(batch_texts(out@) =~= before.push(group));
            if chunks@.len() - from <= BATCH_SIZE {
                assert(group =~= rest);
                assert(all.skip(to as int).len() == 0);
            } else {
                assert(group =~= rest.take(BATCH_SIZE as int));
                assert(rest.skip(BATCH_SIZE as int) =~= all.skip(to as int));
            }
            assert(batch_texts(out@) + batches(all.skip(to as int)) =~= before + batches(rest));
        }
        from = to;
    }
    assert(all.skip(from as int).len() == 0);
    assert(batch_texts(out@) =~= batches(all));
    out
}

/// Chunks with their vectors, as far as there are both.
pub fn vector_items(chunks: &Vec<PreparedChunk>, vectors: &Vec<Vec<u8>>) -> (r: Vec<VectorItem>)
    ensures
        r@.len() == if chunks@.len() <= vectors@.len() {
            chunks@.len()
        } else {
            vectors@.len()
        },
        forall|i: int|
            0 <= i < r@.len() ==> (#[trigger] r@[i]).id@ == chunks@[i].chunk_id@
                && r@[i].vector@ == vectors@[i]@,
{
    let mut out: Vec<VectorItem> = Vec::new();
    let mut i: usize = 0;
    while i < chunks.len() && i < vectors.len()
        invariant
            i <= chunks@.len(),
            i <= vectors@.len(),
            out@.len() == i,
            forall|k: int|
                0 <= k < i ==> (#[trigger] out@[k]).id@ == chunks@[k].chunk_id@
                    && out@[k].vector@ == vectors@[k]@,
        decreases chunks@.len() - i,
    {
        let vector = vectors[i].clone();
        assert(vector@ =~= vectors@[i as int]@);
        out.push(VectorItem { id: chunks[i].chunk_id.clone(), vector });
        i = i + 1;
    }
    out
}

/// Every text is embedded once, in its order, and no group is empty or larger than four.
pub proof fn law_batches(items: Seq<Seq<char>>)
    ensures
        batches(items).flatten() == items,
        forall|i: int|
            0 <= i < batches(items).len() ==> 0 < (#[trigger] batches(items)[i]).len() <= 4,
    decreases items.len(),
{
    reveal_with_fuel(Seq::flatten, 2);
    let all = batches(items);
    if items.len() == 0 {
    } else if items.len() <= BATCH_SIZE {
        assert(all.skip(1).flatten() =~= Seq::empty());
        assert(all.flatten() =~= items);
    } else {
        let rest = batches(items.skip(BATCH_SIZE as int));
        law_batches(items.skip(BATCH_SIZE as int));
        assert(all.drop_first() =~= rest);
        assert(items =~= items.take(BATCH_SIZE as int) + items.skip(BATCH_SIZE as int));
        assert(all.flatten() =~= items);
        assert forall|i: int| 0 <= i < all.len() implies 0 < (#[trigger] all[i]).len() <= 4 by {
            if i > 0 {
                assert(all[i] == rest[i - 1]);
            }
        }
    }
}

/// Whether a vector has the dimension `dim`.
pub open spec fn has_dimension(vector: Seq<u8>, dim: int) -> bool {
    vector.len() == 4 * dim
}

fn is_of_dimension(vector: &Vec<u8>, dim: usize) -> (r: bool)
    ensures
        r == has_dimension(vector@, dim as int),
{
    vector.len() % 4 == 0 && vector.len() / 4 == dim
}

/// Whether the `i`-th item is the first whose vector has another dimension.
pub open spec fn is_first_misfit(items: Seq<VectorItem>, dim: int, i: int) -> bool {
    &&& 0 <= i < items.len()
    &&& !has_dimension(items[i].vector@, dim)
    &&& forall|k: int| 0 <= k < i ==> has_dimension((#[trigger] items[k]).vector@, dim)
}

/// A hit of the graph search: the number of a vector, and its distance from the query.
#[derive(Debug, Clone, Copy, PartialEq, Eq)]
pub struct Neighbour {
    pub label: usize,
    pub distance: Score,
}

/// A hit of the vector index: what the vector belongs to, and its distance from the query.
#[derive(Debug, Clone, PartialEq, Eq)]
pub struct VectorHit {
    pub record_id: String,
    pub distance: Score,
}

/// Hits without their representation.
pub open spec fn vector_hits(v: Seq<VectorHit>) -> Seq<(Seq<char>, Score)> {
    Seq::new(v.len(), |i: int| (v[i].record_id@, v[i].distance))
}

/// Whether an id is among the hits.
pub open spec fn is_hit(hits: Seq<(Seq<char>, Score)>, id: Seq<char>) -> bool {
    exists|i: int| 0 <= i < hits.len() && (#[trigger] hits[i]).0 == id
}

/// The hits of a graph search with known labels, each id once, with its first distance.
pub open spec fn named_hits(
    ids: Seq<Seq<char>>,
    found: Seq<Neighbour>,
) -> Seq<(Seq<char>, Score)>
    decreases found.len(),
{
    if found.len() == 0 {
        Seq::empty()
    } else {
        let before = named_hits(ids, found.drop_last());
        let label = found.last().label as int;
        if label >= ids.len() || is_hit(before, ids[label]) {
            before
        } else {
            before.push((ids[label], found.last().distance))
        }
    }
}

/// How near hits are: the nearer the larger.
pub open spec fn nearness(hits: Seq<(Seq<char>, Score)>) -> Seq<int> {
    Seq::new(hits.len(), |i: int| -hits[i].1.level())
}

/// The hits of a graph search, the nearest first.
pub open spec fn nearest_hits(
    ids: Seq<Seq<char>>,
    found: Seq<Neighbour>,
) -> Seq<(Seq<char>, Score)> {
    let hits = named_hits(ids, found);
    order::listed(hits, order::falling_order(nearness(hits)))
}

fn name_hits(ids: &Vec<String>, found: &Vec<Neighbour>) -> (r: Vec<VectorHit>)
    ensures
        vector_hits(r@) == named_hits(text::texts(ids@), found@),
{
    let ghost names = text::texts(ids@);
    let mut seen: TextMap<()> = TextMap::new();
    let mut out: Vec<VectorHit> = Vec::new();
    let mut i: usize = 0;
    assert(vector_hits(out@) =~= named_hits(names, found@.take(0)));
    while i < found.len()
        invariant
            i <= found@.len(),
            names == text::texts(ids@),
            seen.wf(),
            vector_hits(out@) == named_hits(names, found@.take(i as int)),
            forall|x: Seq<char>| #[trigger]
                text_map::value_of(seen@, x) is Some <==> is_hit(vector_hits(out@), x),
        decreases found@.len() - i,
    {
        let ghost before = vector_hits(out@);
        proof {
            assert(found@.take(i + 1).drop_last() =~= found@.take(i as int));
            assert(found@.take(i + 1).last() == found@[i as int]);
        }
        let label = found[i].label;
        if label < ids.len() {
            let id = &ids[label];
            assert(names[label as int] == id@);
            assert(text_map::value_of(seen@, id@) is Some <==> is_hit(before, id@));
            if !seen.contains_key(id.as_str()) {
                seen.insert(id.clone(), ());
                out.push(VectorHit { record_id: id.clone(), distance: found[i].distance });
                proof {
                    let now = vector_hits(out@);
                    assert(now =~= before.push((id@, found@[i as int].distance)));
                    assert forall|x: Seq<char>| #[trigger]
                        text_map::value_of(seen@, x) is Some <==> is_hit(now, x) by {
                        if is_hit(before, x) {
                            let k = choose|k: int|
                                0 <= k < before.len() && (#[trigger] before[k]).0 == x;
                            assert(now[k].0 == x);
                        }
                        if x == id@ {
                            assert(now[before.len() as int].0 == x);
                        }
                        if is_hit(now, x) && x != id@ {
                            let k = choose|k: int|
                                0 <= k < now.len() && (#[trigger] now[k]).0 == x;
                            assert(before[k].0 == x);
                        }
                    }
                }
            }
        }
        i = i + 1;
    }
    assert(found@.take(i as int) =~= found@);
    out
}

impl HnswVectorIndex {
    /// An index of the given vectors, all of which must have its dimension.
    pub fn build(dim: usize, items: &Vec<VectorItem>) -> (r: Result<
        HnswVectorIndex,
        VectorIndexError,
    >)
        ensures
            match r {
                Ok(index) => {
                    &&& forall|i: int|
                        0 <= i < items@.len() ==> has_dimension(
                            (#[trigger] items@[i]).vector@,
                            dim as int,
                        )
                    &&& index@ == (VectorIndexModel {
                        dim: dim as int,
                        ids: Seq::new(items@.len(), |i: int| items@[i].id@),
                        vectors: Seq::new(items@.len(), |i: int| items@[i].vector@),
                    })
                },
                Err(e) => exists|i: int|
                    is_first_misfit(items@, dim as int, i) && (e matches VectorIndexError::Dimension(
                        id,
                    ) && id@ == items@[i].id@),
            },
    {
        let ghost names = Seq::new(items@.len(), |i: int| items@[i].id@);
        let ghost bytes = Seq::new(items@.len(), |i: int| items@[i].vector@);
        let mut ids: Vec<String> = Vec::new();
        let mut vectors: Vec<Vec<u8>> = Vec::new();
        let mut i: usize = 0;
        assert(text::texts(ids@) =~= names.take(0));
        assert(vector_models(vectors@) =~= bytes.take(0));
        while i < items.len()
            invariant
                i <= items@.len(),
                names == Seq::new(items@.len(), |i: int| items@[i].id@),
                bytes == Seq::new(items@.len(), |i: int| items@[i].vector@),
                text::texts(ids@) == names.take(i as int),
                vector_models(vectors@) == bytes.take(i as int),
                forall|k: int|
                    0 <= k < i ==> has_dimension((#[trigger] items@[k]).vector@, dim as int),
            decreases items@.len() - i,
        {
            let item = &items[i];
            if !is_of_dimension(&item.vector, dim) {
                assert(is_first_misfit(items@, dim as int, i as int));
                return Err(VectorIndexError::Dimension(item.id.clone()));
            }
            let ghost named = text::texts(ids@);
            let ghost held = vector_models(vectors@);
            ids.push(item.id.clone());
            let vector = copy_bytes(item.vector.as_slice(), 0, item.vector.len());
            assert(vector@ =~= item.vector@);
            vectors.push(vector);
            proof {
                assert(text::texts(ids@) =~= named.push(item.id@));
                assert(text::texts(ids@) =~= names.take(i + 1));
                assert(vector_models(vectors@) =~= held.push(item.vector@));
                assert(vector_models(vectors@) =~= bytes.take(i + 1));
            }
            i = i + 1;
        }
        assert(names.take(i as int) =~= names);
        assert(bytes.take(i as int) =~= bytes);
        Ok(HnswVectorIndex { dim, ids, vectors })
    }

    /// The index that was written as the text `map` and the bytes `data`.
    pub fn load(map: &str, data: &[u8], dim: usize) -> (r: Result<
        HnswVectorIndex,
        VectorIndexError,
    >)
        ensures
            match read_vectors(data@) {
                Err(_) => r matches Err(VectorIndexError::CutShort),
                Ok(vectors) => if labelled(lines(map@)).len() != vectors.len() {
                    r matches Err(VectorIndexError::Count)
                } else {
                    r is Ok && r->Ok_0@ == (VectorIndexModel {
                        dim: dim as int,
                        ids: labelled(lines(map@)),
                        vectors,
                    })
                },
            },
    {
        let ids = read_ids(map);
        let vectors = match load_vectors(data) {
            Ok(v) => v,
            Err(_) => {
                return Err(VectorIndexError::CutShort);
            },
        };
        proof {
            assert(text::texts(ids@).len() == ids@.len());
            assert(vector_models(vectors@).len() == vectors@.len());
        }
        if ids.len() != vectors.len() {
            return Err(VectorIndexError::Count);
        }
        Ok(HnswVectorIndex { dim, ids, vectors })
    }

    /// What is written of the index: the text of its ids and the bytes of its vectors.
    pub fn save(&self) -> (r: (String, Vec<u8>))
        ensures
            r.0@ == id_lines(self@.ids, 0),
            r.1@ == stored(self@.vectors),
    {
        (write_ids(&self.ids), store_vectors(&self.vectors))
    }

    /// The numbers of the vectors that can be searched: those with the dimension of the index.
    pub fn searchable(&self) -> (r: Vec<usize>)
        ensures
            forall|i: int|
                0 <= i < r@.len() ==> (#[trigger] r@[i]) < self@.vectors.len() && has_dimension(
                    self@.vectors[r@[i] as int],
                    self@.dim,
                ),
            forall|i: int, j: int| 0 <= i < j < r@.len() ==> (#[trigger] r@[i]) < (#[trigger] r@[j]),
            forall|k: int|
                0 <= k < self@.vectors.len() && has_dimension(
                    #[trigger] self@.vectors[k],
                    self@.dim,
                ) ==> r@.contains(k as usize),
    {
        let mut out: Vec<usize> = Vec::new();
        let mut i: usize = 0;
        let total: usize = self.vectors.len();
        while i < total
            invariant
                i <= total,
                total == self.vectors@.len(),
                forall|k: int|
                    0 <= k < out@.len() ==> (#[trigger] out@[k]) < i && has_dimension(
                        self@.vectors[out@[k] as int],
                        self@.dim,
                    ),
                forall|a: int, b: int|
                    0 <= a < b < out@.len() ==> (#[trigger] out@[a]) < (#[trigger] out@[b]),
                forall|k: int|
                    0 <= k < i && has_dimension(#[trigger] self@.vectors[k], self@.dim)
                        ==> out@.contains(k as usize),
            decreases total - i,
        {
            let ghost before = out@;
            assert(self@.vectors[i as int] == self.vectors@[i as int]@);
            if is_of_dimension(&self.vectors[i], self.dim) {
                out.push(i);
                assert(out@.last() == i);
            }
            proof {
                assert forall|k: int|
                    0 <= k < i + 1 && has_dimension(
                        #[trigger] self@.vectors[k],
                        self@.dim,
                    ) implies out@.contains(k as usize) by {
                    if k < i {
                        assert(before.contains(k as usize));
                        let a = choose|a: int| 0 <= a < before.len() && before[a] == k as usize;
                        assert(out@[a] == k as usize);
                    } else {
                        assert(out@[out@.len() - 1] == k as usize);
                    }
                }
            }
            i = i + 1;
        }
        out
    }

    /// How widely the graph is searched for `limit` neighbours of a query with the given number
    /// of components; not at all where the query has another dimension or nothing is wanted.
    pub fn search_width(&self, query_components: usize, limit: usize) -> (r: Option<usize>)
        ensures
            r == (if query_components != self.dim || limit == 0 {
                None
            } else if limit < 32 {
                Some(32usize)
            } else {
                Some(limit)
            }),
    {
        if query_components != self.dim || limit == 0 {
            return None;
        }
        if limit < 32 {
            Some(32)
        } else {
            Some(limit)
        }
    }

    /// The hits of a search, given what the graph search found: each id once, the nearest
    /// first, and ids that are as near in the order in which they were found.
    pub fn search(&self, found: &Vec<Neighbour>) -> (r: Vec<VectorHit>)
        ensures
            vector_hits(r@) == nearest_hits(self@.ids, found@),
    {
        let hits = name_hits(&self.ids, found);
        let ghost all = vector_hits(hits@);
        let mut keys: Vec<i128> = Vec::new();
        let mut i: usize = 0;
        assert(order::ints(keys@) =~= nearness(all).take(0));
        while i < hits.len()
            invariant
                i <= hits@.len(),
                all == vector_hits(hits@),
                order::ints(keys@) == nearness(all).take(i as int),
            decreases hits@.len() - i,
        {
            let ghost before = order::ints(keys@);
            let level: i128 = hits[i].distance.get_level();
            keys.push(0 - level);
            proof {
                assert(order::ints(keys@) =~= before.push(-hits@[i as int].distance.level()));
                assert(order::ints(keys@) =~= nearness(all).take(i + 1));
            }
            i = i + 1;
        }
        assert(nearness(all).take(i as int) =~= nearness(all));
        let listing = order_falling(&keys);
        let ghost sorted = order::listed(all, order::falling_order(nearness(all)));
        let mut out: Vec<VectorHit> = Vec::new();
        let mut k: usize = 0;
        assert(vector_hits(out@) =~= sorted.take(0));
        while k < listing.len()
            invariant
                k <= listing@.len(),
                all == vector_hits(hits@),
                order::positions(listing@) == order::falling_order(nearness(all)),
                order::lists_all(order::positions(listing@), hits@.len() as int),
                sorted == order::listed(all, order::falling_order(nearness(all))),
                vector_hits(out@) == sorted.take(k as int),
            decreases listing@.len() - k,
        {
            let ghost before = vector_hits(out@);
            let at = listing[k];
            assert(order::positions(listing@)[k as int] == at);
            out.push(
                VectorHit { record_id: hits[at].record_id.clone(), distance: hits[at].distance },
            );
            proof {
                assert(vector_hits(out@) =~= before.push(sorted[k as int]));
                assert(vector_hits(out@) =~= sorted.take(k + 1));
            }
            k = k + 1;
        }
        assert(sorted.take(k as int) =~= sorted);
        out
    }
}

/// Reading back what was written of an index gives the index: where each vector has whole
/// components, and no more of them than a stored number counts, and where each id fits a line.
pub proof fn law_saved_index_is_loaded(index: VectorIndexModel)
    requires
        index.ids.len() == index.vectors.len(),
        forall|i: int| 0 <= i < index.ids.len() ==> fits_a_line(#[trigger] index.ids[i]),
        forall|i: int|
            0 <= i < index.vectors.len() ==> (#[trigger] index.vectors[i]).len() % 4 == 0
                && components(index.vectors[i]) < 0x1_0000_0000,
    ensures
        labelled(lines(id_lines(index.ids, 0))) == index.ids,
        read_vectors(stored(index.vectors)) == Ok::<Seq<Seq<u8>>, ()>(index.vectors),
{
    law_written_ids_are_read(index.ids, 0);
    law_stored_vectors_are_read(index.vectors);
}

/// Reading back what was written of an index that was built gives the index, where its dimension
/// is no more than a stored number counts, and where each id fits a line.
pub proof fn law_built_index_is_loaded(index: VectorIndexModel)
    requires
        index.ids.len() == index.vectors.len(),
        forall|i: int| 0 <= i < index.ids.len() ==> fits_a_line(#[trigger] index.ids[i]),
        forall|i: int|
            0 <= i < index.vectors.len() ==> has_dimension(#[trigger] index.vectors[i], index.dim),
        index.dim < 0x1_0000_0000,
    ensures
        labelled(lines(id_lines(index.ids, 0))) == index.ids,
        read_vectors(stored(index.vectors)) == Ok::<Seq<Seq<u8>>, ()>(index.vectors),
{
    law_saved_index_is_loaded(index);
}

/// The ids of the hits are ids of the index, none of them is there twice, and no hit comes
/// before a nearer one.
pub proof fn law_nearest_hits(ids: Seq<Seq<char>>, found: Seq<Neighbour>)
    ensures
        ({
            let hits = nearest_hits(ids, found);
            &&& hits.len() <= found.len()
            &&& forall|i: int| 0 <= i < hits.len() ==> ids.contains((#[trigger] hits[i]).0)
            &&& forall|i: int, j: int|
                0 <= i < j < hits.len() ==> (#[trigger] hits[i]).1.level() <= (
                #[trigger] hits[j]).1.level() && hits[i].0 != hits[j].0
        }),
{
    let named = named_hits(ids, found);
    let keys = nearness(named);
    let listing = order::falling_order(keys);
    let hits = nearest_hits(ids, found);
    lemma_named_hits(ids, found);
    order::law_falling_order(keys);
    assert forall|i: int| 0 <= i < hits.len() implies ids.contains((#[trigger] hits[i]).0) by {
        assert(hits[i] == named[listing[i]]);
    }
    assert forall|i: int, j: int| 0 <= i < j < hits.len() implies (#[trigger] hits[i]).1.level()
        <= (#[trigger] hits[j]).1.level() && hits[i].0 != hits[j].0 by {
        order::lemma_listed(named, keys, i, j);
        let a = listing[i];
        let b = listing[j];
        assert(a != b);
        assert(hits[i] == named[a] && hits[j] == named[b]);
        if a < b {
            assert(named[a].0 != named[b].0);
        } else {
            assert(named[b].0 != named[a].0);
        }
    }
}

proof fn lemma_named_hits(ids: Seq<Seq<char>>, found: Seq<Neighbour>)
    ensures
        ({
            let hits = named_hits(ids, found);
            &&& hits.len() <= found.len()
            &&& forall|i: int| 0 <= i < hits.len() ==> ids.contains((#[trigger] hits[i]).0)
            &&& forall|i: int, j: int|
                0 <= i < j < hits.len() ==> (#[trigger] hits[i]).0 != (#[trigger] hits[j]).0
        }),
    decreases found.len(),
{
    if found.len() > 0 {
        let shorter = found.drop_last();
        lemma_named_hits(ids, shorter);
        let before = named_hits(ids, shorter);
        let hits = named_hits(ids, found);
        assert forall|i: int| 0 <= i < hits.len() implies ids.contains((#[trigger] hits[i]).0) by {
            if i < before.len() {
                assert(hits[i] == before[i]);
            } else {
                assert(ids[found.last().label as int] == hits[i].0);
            }
        }
        assert forall|i: int, j: int| 0 <= i < j < hits.len() implies (#[trigger] hits[i]).0 != (
        #[trigger] hits[j]).0 by {
            assert(hits[i] == before[i]);
            if j < before.len() {
                assert(hits[j] == before[j]);
            } else if hits[i].0 == hits[j].0 {
                assert(is_hit(before, hits[j].0));
            }
        }
    }
}

/// The hits are what the search of the graph found: each is the first that was found of its id,
/// with the distance at which it was found, and no id of the index that was found is left out.
pub proof fn law_hits_are_what_was_found(ids: Seq<Seq<char>>, found: Seq<Neighbour>)
    ensures
        ({
            let hits = nearest_hits(ids, found);
            &&& forall|k: int|
                0 <= k < found.len() && (#[trigger] found[k]).label < ids.len() ==> is_hit(
                    hits,
                    ids[found[k].label as int],
                )
            &&& forall|i: int|
                0 <= i < hits.len() ==> was_found(ids, found, #[trigger] hits[i])
        }),
{
    let named = named_hits(ids, found);
    let keys = nearness(named);
    let listing = order::falling_order(keys);
    let hits = nearest_hits(ids, found);
    order::law_falling_order(keys);
    lemma_first_found(ids, found);
    assert forall|k: int| 0 <= k < found.len() && (#[trigger] found[k]).label < ids.len() implies is_hit(
        hits,
        ids[found[k].label as int],
    ) by {
        assert(is_hit(named, ids[found[k].label as int]));
        let n = choose|n: int|
            0 <= n < named.len() && (#[trigger] named[n]).0 == ids[found[k].label as int];
        assert(listing.contains(n));
        let i = choose|i: int| 0 <= i < listing.len() && listing[i] == n;
        assert(hits[i] == named[n]);
    }
    assert forall|i: int| 0 <= i < hits.len() implies was_found(ids, found, #[trigger] hits[i]) by {
        assert(hits[i] == named[listing[i]]);
        let n = listing[i];
        assert(0 <= n < named.len());
        assert(was_found(ids, found, named[n]));
        let k = choose|k: int| #[trigger] is_first_found(ids, found, named[n], k);
        assert(is_first_found(ids, found, hits[i], k));
    }
}

/// Whether a hit is the neighbour at `k`, and none before it has the same id.
pub open spec fn is_first_found(
    ids: Seq<Seq<char>>,
    found: Seq<Neighbour>,
    hit: (Seq<char>, Score),
    k: int,
) -> bool {
    &&& 0 <= k < found.len()
    &&& found[k].label < ids.len()
    &&& hit.0 == ids[found[k].label as int]
    &&& hit.1 == found[k].distance
    &&& forall|m: int|
        0 <= m < k && (#[trigger] found[m]).label < ids.len() ==> ids[found[m].label as int]
            != hit.0
}

/// Whether a hit is the first neighbour of its id.
pub open spec fn was_found(
    ids: Seq<Seq<char>>,
    found: Seq<Neighbour>,
    hit: (Seq<char>, Score),
) -> bool {
    exists|k: int| #[trigger] is_first_found(ids, found, hit, k)
}

proof fn lemma_first_found(ids: Seq<Seq<char>>, found: Seq<Neighbour>)
    ensures
        forall|k: int|
            0 <= k < found.len() && (#[trigger] found[k]).label < ids.len() ==> is_hit(
                named_hits(ids, found),
                ids[found[k].label as int],
            ),
        forall|n: int|
            0 <= n < named_hits(ids, found).len() ==> was_found(
                ids,
                found,
                #[trigger] named_hits(ids, found)[n],
            ),
    decreases found.len(),
{
    if found.len() > 0 {
        let shorter = found.drop_last();
        let last = found.len() - 1;
        lemma_first_found(ids, shorter);
        let before = named_hits(ids, shorter);
        let named = named_hits(ids, found);
        assert forall|k: int| 0 <= k < found.len() && (#[trigger] found[k]).label
            < ids.len() implies is_hit(named, ids[found[k].label as int]) by {
            let id = ids[found[k].label as int];
            if k < last {
                assert(shorter[k] == found[k]);
            }
            if is_hit(before, id) {
                let n = choose|n: int| 0 <= n < before.len() && (#[trigger] before[n]).0 == id;
                assert(named[n] == before[n]);
            } else {
                assert(named[named.len() - 1].0 == id);
            }
        }
        assert forall|n: int| 0 <= n < named.len() implies was_found(
            ids,
            found,
            #[trigger] named[n],
        ) by {
            if n < before.len() {
                assert(named[n] == before[n]);
                assert(was_found(ids, shorter, before[n]));
                let k = choose|k: int| #[trigger] is_first_found(ids, shorter, before[n], k);
                assert forall|m: int| 0 <= m < k && (#[trigger] found[m]).label
                    < ids.len() implies ids[found[m].label as int] != named[n].0 by {
                    assert(shorter[m] == found[m]);
                }
                assert(shorter[k] == found[k]);
                assert(is_first_found(ids, found, named[n], k));
            } else {
                assert forall|m: int| 0 <= m < last && (#[trigger] found[m]).label
                    < ids.len() implies ids[found[m].label as int] != named[n].0 by {
                    assert(shorter[m] == found[m]);
                    assert(is_hit(before, ids[found[m].label as int]));
                }
                assert(is_first_found(ids, found, named[n], last));
            }
        }
    }
}

/// All groups of texts but the last one have four of them.
pub proof fn law_groups_are_full(items: Seq<Seq<char>>)
    ensures
        forall|i: int| 0 <= i < batches(items).len() - 1 ==> (#[trigger] batches(items)[i]).len() == 4,
    decreases items.len(),
{
    let all = batches(items);
    if items.len() > 4 {
        let rest = batches(items.skip(4));
        law_groups_are_full(items.skip(4));
        assert forall|i: int| 0 <= i < all.len() - 1 implies (#[trigger] all[i]).len() == 4 by {
            if i > 0 {
                assert(all[i] == rest[i - 1]);
            }
        }
    }
}

/// The bytes of two lists of vectors are those of the first and then those of the second. The bytes
/// of one vector are the number of its components, of four bytes each, in four bytes with the
/// lowest first, and then its own.
pub proof fn law_stored_bytes(a: Seq<Seq<u8>>, b: Seq<Seq<u8>>, vector: Seq<u8>)
    requires
        vector.len() < 0x4_0000_0000,
        vector.len() % 4 == 0,
    ensures
        stored(a + b) == stored(a) + stored(b),
        ({
            let bytes = stored(seq![vector]);
            &&& bytes.len() == vector.len() + 4
            &&& bytes.skip(4) == vector
            &&& 4 * (bytes[0] + 0x100 * bytes[1] + 0x1_0000 * bytes[2] + 0x100_0000 * bytes[3])
                == vector.len()
        }),
    decreases a.len(),
{
    let bytes = stored(seq![vector]);
    let n = vector.len() as int / 4;
    let head = number_bytes(n);
    assert(seq![vector].drop_first() =~= Seq::empty());
    assert(stored(Seq::empty()) =~= Seq::empty());
    assert(n % 0x1_0000_0000 == n);
    lemma_number_bytes(n, vector);
    assert(bytes =~= head + vector);
    assert(bytes.skip(4) =~= vector);
    assert(bytes[0] == head[0] && bytes[1] == head[1] && bytes[2] == head[2] && bytes[3]
        == head[3]);
    reveal(bytes_number);
    if a.len() == 0 {
        assert(a + b =~= b);
        assert(stored(a + b) =~= stored(a) + stored(b));
    } else {
        law_stored_bytes(a.drop_first(), b, vector);
        assert((a + b).drop_first() =~= a.drop_first() + b);
        assert(stored(a + b) =~= stored(a) + stored(b));
    }
}

/// Bytes are read as a number in four bytes with the lowest first, as many components of four bytes
/// each, and then the rest. They are cut short where there are fewer components than the number
/// says; and fewer than four bytes are no number.
pub proof fn law_read_bytes(n0: u8, n1: u8, n2: u8, n3: u8, vector: Seq<u8>, rest: Seq<u8>)
    ensures
        ({
            let n = n0 + 0x100 * n1 + 0x1_0000 * n2 + 0x100_0000 * n3;
            let head = seq![n0, n1, n2, n3];
            &&& vector.len() == 4 * n ==> read_vectors(head + vector + rest) == (match read_vectors(
                rest,
            ) {
                Ok(more) => Ok(seq![vector] + more),
                Err(e) => Err(e),
            })
            &&& vector.len() < 4 * n ==> read_vectors(head + vector) is Err
            &&& rest.len() < 4 ==> read_vectors(rest) == Ok::<Seq<Seq<u8>>, ()>(Seq::empty())
        }),
{
    let n = n0 + 0x100 * n1 + 0x1_0000 * n2 + 0x100_0000 * n3;
    let head = seq![n0, n1, n2, n3];
    let s = head + vector + rest;
    reveal(bytes_number);
    assert(head[0] == n0 && head[1] == n1 && head[2] == n2 && head[3] == n3);
    if vector.len() == 4 * n {
        assert(s[0] == head[0] && s[1] == head[1] && s[2] == head[2] && s[3] == head[3]);
        assert(bytes_number(s) == n);
        assert(s.skip(4 + 4 * n) =~= rest);
        assert(s.subrange(4, 4 + 4 * n) =~= vector);
    }
    if vector.len() < 4 * n {
        let t = head + vector;
        assert(t[0] == head[0] && t[1] == head[1] && t[2] == head[2] && t[3] == head[3]);
        assert(bytes_number(t) == n);
    }
}

/// The lines of ids are numbered one after the other: each is its number, a tab and the id.
pub proof fn law_id_lines(a: Seq<Seq<char>>, b: Seq<Seq<char>>, id: Seq<char>, start: int)
    requires
        start >= 0,
    ensures
        id_lines(a + b, start) == id_lines(a, start) + id_lines(b, start + a.len()),
        id_lines(seq![id], start) == text::decimal(start as nat) + seq!['\t'] + id + seq!['\n'],
    decreases a.len(),
{
    reveal_with_fuel(id_lines, 2);
    assert(seq![id].drop_first() =~= Seq::empty());
    assert(id_lines(seq![id], start) =~= text::decimal(start as nat) + seq!['\t'] + id + seq![
        '\n',
    ]);
    if a.len() == 0 {
        assert(a + b =~= b);
        assert(id_lines(a + b, start) =~= id_lines(a, start) + id_lines(b, start + a.len()));
    } else {
        law_id_lines(a.drop_first(), b, id, start + 1);
        assert((a + b).drop_first() =~= a.drop_first() + b);
        assert(id_lines(a + b, start) =~= id_lines(a, start) + id_lines(b, start + a.len()));
    }
}

/// A line ends at a line feed, and loses a carriage return before it; what is after the last line
/// feed is a line where it is not empty.
pub proof fn law_lines(line: Seq<char>, rest: Seq<char>)
    requires
        forall|i: int| 0 <= i < line.len() ==> #[trigger] line[i] != '\n',
    ensures
        lines(line + seq!['\n'] + rest) == seq![without_return(line)] + lines(rest),
        lines(line + seq!['\r', '\n'] + rest) == seq![line] + lines(rest),
        lines(line) == if line.len() == 0 {
            Seq::<Seq<char>>::empty()
        } else {
            seq![line]
        },
{
    let n = line.len() as int;
    let s = line + seq!['\n'] + rest;
    assert forall|i: int| 0 <= i < n implies #[trigger] s[i] != '\n' by {
        assert(s[i] == line[i]);
    }
    lemma_length_before_unique(s, '\n', n);
    assert(s.take(n) =~= line);
    assert(s.skip(n + 1) =~= rest);
    let longer = line.push('\r');
    let t = line + seq!['\r', '\n'] + rest;
    assert forall|i: int| 0 <= i < n + 1 implies #[trigger] t[i] != '\n' by {
        if i < n {
            assert(t[i] == line[i]);
        }
    }
    lemma_length_before_unique(t, '\n', n + 1);
    assert(t.take(n + 1) =~= longer);
    assert(t.skip(n + 2) =~= rest);
    assert(longer.drop_last() =~= line);
    lemma_length_before_unique(line, '\n', n);
}

/// The id of a line is what stands after its first tab; a line without a tab has none.
pub proof fn law_labelled(number: Seq<char>, id: Seq<char>, rest: Seq<Seq<char>>)
    requires
        forall|i: int| 0 <= i < number.len() ==> #[trigger] number[i] != '\t',
    ensures
        labelled(seq![number + seq!['\t'] + id] + rest) == seq![id] + labelled(rest),
        labelled(seq![number] + rest) == labelled(rest),
{
    let n = number.len() as int;
    let line = number + seq!['\t'] + id;
    assert forall|i: int| 0 <= i < n implies #[trigger] line[i] != '\t' by {
        assert(line[i] == number[i]);
    }
    lemma_length_before_unique(line, '\t', n);
    lemma_length_before_unique(number, '\t', n);
    assert(line.skip(n + 1) =~= id);
    assert((seq![line] + rest).drop_first() =~= rest);
    assert((seq![number] + rest).drop_first() =~= rest);
}

/// What is embedded is the text of each chunk, once and in the order of the chunks.
pub proof fn law_texts_of_chunks_are_embedded(chunks: Seq<PreparedChunk>)
    ensures
        batches(chunk_texts(chunks)).flatten() == Seq::new(
            chunks.len(),
            |i: int| chunks[i].text@,
        ),
{
    law_batches(chunk_texts(chunks));
    assert(chunk_texts(chunks) =~= Seq::new(chunks.len(), |i: int| chunks[i].text@));
}

} // verus!
