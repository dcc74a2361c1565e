//! How the hits of the indexes become a ranking.
use vstd::prelude::*;
use vstd::string::*;

use crate::order;
use crate::order::{order_falling, Score};
use crate::protocol::{MatchModel, MatchedChunk, ResultGranularity, SearchMode};
use crate::snippet;
use crate::snippet::slice_chars_owned;
use crate::sql;
use crate::sql::result_limit;
use crate::text;
use crate::text_map;
use crate::text_map::TextMap;

verus! {

/// The texts of a list, each one once, in the order in which they first come.
pub open spec fn unique(ids: Seq<Seq<char>>) -> Seq<Seq<char>>
    decreases ids.len(),
{
    if ids.len() == 0 {
        Seq::empty()
    } else {
        let before = unique(ids.drop_last());
        if before.contains(ids.last()) {
            before
        } else {
            before.push(ids.last())
        }
    }
}

/// Each text of the list is there, none of them twice, and no other.
pub proof fn law_unique(ids: Seq<Seq<char>>)
    ensures
        forall|x: Seq<char>| #[trigger] unique(ids).contains(x) <==> ids.contains(x),
        forall|i: int, j: int|
            0 <= i < j < unique(ids).len() ==> #[trigger] unique(ids)[i] != #[trigger] unique(
                ids,
            )[j],
        unique(ids).len() <= ids.len(),
    decreases ids.len(),
{
    if ids.len() > 0 {
        let shorter = ids.drop_last();
        law_unique(shorter);
        let before = unique(shorter);
        let all = unique(ids);
        assert forall|x: Seq<char>| #[trigger] all.contains(x) <==> ids.contains(x) by {
            if ids.contains(x) {
                let i = choose|i: int| 0 <= i < ids.len() && ids[i] == x;
                if i < shorter.len() {
                    assert(shorter[i] == x);
                    assert(before.contains(x));
                    let j = choose|j: int| 0 <= j < before.len() && before[j] == x;
                    assert(all[j] == x);
                } else if !before.contains(x) {
                    assert(all[before.len() as int] == x);
                }
            }
            if all.contains(x) {
                let i = choose|i: int| 0 <= i < all.len() && all[i] == x;
                if i < before.len() {
                    assert(before[i] == x);
                    assert(before.contains(x));
                    let j = choose|j: int| 0 <= j < shorter.len() && shorter[j] == x;
                    assert(ids[j] == x);
                } else {
                    assert(ids[ids.len() - 1] == x);
                }
            }
        }
    }
}

/// The texts come in the order in which the list has them first: `places` says where that is.
pub proof fn law_unique_order(ids: Seq<Seq<char>>) -> (places: Seq<int>)
    ensures
        places.len() == unique(ids).len(),
        forall|i: int|
            0 <= i < places.len() ==> 0 <= #[trigger] places[i] < ids.len() && ids[places[i]]
                == unique(ids)[i],
        forall|i: int, j: int|
            0 <= i < j < places.len() ==> #[trigger] places[i] < #[trigger] places[j],
        forall|i: int, p: int|
            0 <= i < places.len() && 0 <= p < ids.len() && #[trigger] ids[p] == #[trigger] unique(
                ids,
            )[i] ==> places[i] <= p,
    decreases ids.len(),
{
    if ids.len() == 0 {
        Seq::empty()
    } else {
        let shorter = ids.drop_last();
        let before = unique(shorter);
        let last = ids.len() - 1;
        let known = law_unique_order(shorter);
        law_unique(shorter);
        assert forall|i: int| 0 <= i < known.len() implies 0 <= #[trigger] known[i] < last
            && ids[known[i]] == before[i] by {
            assert(shorter[known[i]] == ids[known[i]]);
        }
        assert forall|i: int, p: int|
            0 <= i < known.len() && 0 <= p < ids.len() && #[trigger] ids[p]
                == #[trigger] before[i] implies known[i] <= p by {
            if p < last {
                assert(shorter[p] == ids[p]);
            }
        }
        if before.contains(ids.last()) {
            known
        } else {
            let places = known.push(last);
            assert forall|i: int, p: int|
                0 <= i < places.len() && 0 <= p < ids.len() && #[trigger] ids[p]
                    == #[trigger] unique(ids)[i] implies places[i] <= p by {
                if i < known.len() {
                    assert(unique(ids)[i] == before[i]);
                } else if p < last {
                    assert(shorter[p] == ids[p]);
                    assert(shorter.contains(ids.last()));
                }
            }
            places
        }
    }
}

/// The ids of a list, each one once, in the order in which they first come.
pub fn unique_record_ids(ids: &Vec<String>) -> (r: Vec<String>)
    ensures
        text::texts(r@) == unique(text::texts(ids@)),
{
    let ghost all = text::texts(ids@);
    let mut seen: TextMap<()> = TextMap::new();
    let mut out: Vec<String> = Vec::new();
    let mut i: usize = 0;
    assert(text::texts(out@) =~= unique(all.take(0)));
    while i < ids.len()
        invariant
            i <= ids@.len(),
            all == text::texts(ids@),
            seen.wf(),
            text::texts(out@) == unique(all.take(i as int)),
            forall|x: Seq<char>| #[trigger]
                text_map::value_of(seen@, x) is Some <==> text::texts(out@).contains(x),
        decreases ids@.len() - i,
    {
        let ghost before = text::texts(out@);
        proof {
            assert(all.take(i + 1).drop_last() =~= all.take(i as int));
            assert(all.take(i + 1).last() == ids@[i as int]@);
            assert(text_map::value_of(seen@, ids@[i as int]@) is Some <==> before.contains(
                ids@[i as int]@,
            ));
        }
        if !seen.contains_key(ids[i].as_str()) {
            seen.insert(ids[i].clone(), ());
            out.push(ids[i].clone());
            proof {
                let id = ids@[i as int]@;
                assert(text::texts(out@) =~= before.push(id));
                assert forall|x: Seq<char>| #[trigger]
                    text_map::value_of(seen@, x) is Some <==> text::texts(out@).contains(x) by {
                    let now = text::texts(out@);
                    if before.contains(x) {
                        let j = choose|j: int| 0 <= j < before.len() && before[j] == x;
                        assert(now[j] == x);
                    }
                    if x == id {
                        assert(now[before.len() as int] == x);
                    }
                    if now.contains(x) && x != id {
                        let j = choose|j: int| 0 <= j < now.len() && now[j] == x;
                        assert(before[j] == x);
                    }
                }
            }
        }
        i = i + 1;
    }
    assert(all.take(i as int) =~= all);
    out
}

/// The rank of an id in a ranking, counted from one.
pub open spec fn rank_of(ranking: Seq<Seq<char>>, id: Seq<char>) -> Option<usize>
    decreases ranking.len(),
{
    if ranking.len() == 0 {
        None
    } else if ranking.last() == id {
        Some(ranking.len() as usize)
    } else {
        rank_of(ranking.drop_last(), id)
    }
}

/// Whether a rank tells where an id stands in a ranking: its place counted from one, or nothing
/// where it is not there.
pub open spec fn is_place(ranking: Seq<Seq<char>>, id: Seq<char>, rank: Option<usize>) -> bool {
    match rank {
        Some(n) => 1 <= n <= ranking.len() && ranking[n - 1] == id,
        None => !ranking.contains(id),
    }
}

/// The rank of an id is a place at which the ranking holds it, counted from one; an id has no
/// rank exactly where the ranking does not hold it.
pub proof fn law_rank_is_a_place(ranking: Seq<Seq<char>>, id: Seq<char>)
    requires
        ranking.len() <= usize::MAX,
    ensures
        is_place(ranking, id, rank_of(ranking, id)),
    decreases ranking.len(),
{
    if ranking.len() > 0 {
        let shorter = ranking.drop_last();
        law_rank_is_a_place(shorter, id);
        if ranking.contains(id) && ranking.last() != id {
            let i = choose|i: int| 0 <= i < ranking.len() && ranking[i] == id;
            assert(shorter[i] == id);
        }
        if ranking.last() == id {
            assert(ranking[ranking.len() - 1] == id);
        }
    }
}

/// The rank of each id in a ranking, counted from one.
pub fn rank_map(ranking: &Vec<String>) -> (r: TextMap<usize>)
    ensures
        r.wf(),
        forall|id: Seq<char>| #[trigger]
            text_map::value_of(r@, id) == rank_of(text::texts(ranking@), id),
        forall|id: Seq<char>|
            is_place(text::texts(ranking@), id, #[trigger] text_map::value_of(r@, id)),
{
    let ghost all = text::texts(ranking@);
    let mut out: TextMap<usize> = TextMap::new();
    let mut i: usize = 0;
    while i < ranking.len()
        invariant
            i <= ranking@.len(),
            all == text::texts(ranking@),
            out.wf(),
            forall|id: Seq<char>| #[trigger]
                text_map::value_of(out@, id) == rank_of(all.take(i as int), id),
        decreases ranking@.len() - i,
    {
        let ghost before = out@;
        out.insert(ranking[i].clone(), i + 1);
        proof {
            assert(all.take(i + 1).drop_last() =~= all.take(i as int));
            assert(all.take(i + 1).last() == ranking@[i as int]@);
            assert forall|id: Seq<char>| #[trigger]
                text_map::value_of(out@, id) == rank_of(all.take(i + 1), id) by {
                assert(text_map::value_of(before, id) == rank_of(all.take(i as int), id));
            }
        }
        i = i + 1;
    }
    assert(all.take(i as int) =~= all);
    proof {
        assert forall|id: Seq<char>| is_place(all, id, #[trigger] text_map::value_of(out@, id)) by {
            law_rank_is_a_place(all, id);
        }
    }
    out
}

/// The ranks of a ranking without repetitions are the places in it.
pub proof fn law_ranks(ranking: Seq<Seq<char>>, i: int)
    requires
        0 <= i < ranking.len() <= usize::MAX,
        forall|a: int, b: int|
            0 <= a < b < ranking.len() ==> #[trigger] ranking[a] != #[trigger] ranking[b],
    ensures
        rank_of(ranking, ranking[i]) == Some((i + 1) as usize),
    decreases ranking.len(),
{
    if i < ranking.len() - 1 {
        let shorter = ranking.drop_last();
        assert forall|a: int, b: int| 0 <= a < b < shorter.len() implies #[trigger] shorter[a]
            != #[trigger] shorter[b] by {
            assert(shorter[a] == ranking[a] && shorter[b] == ranking[b]);
        }
        law_ranks(shorter, i);
        assert(ranking[i] != ranking.last());
    }
}

/// What the record database holds of a chunk.
#[derive(Debug, Clone, PartialEq, Eq)]
pub struct ChunkRow {
    pub record_id: String,
    pub chunk_index: usize,
    pub start_char: usize,
    pub end_char: usize,
    pub text: String,
}

/// A hit of the vector index, with its score and with what the record database has to say of
/// it: the row of the chunk, and whether the record meets the filters. Where the database has no
/// chunks, the hit is on a record.
#[derive(Debug, Clone, PartialEq, Eq)]
pub struct HitRow {
    pub id: String,
    pub score: Score,
    pub row: Option<ChunkRow>,
    pub matches: bool,
}

/// A row of a chunk without its representation.
pub struct RowModel {
    pub record_id: Seq<char>,
    pub chunk_index: usize,
    pub start: int,
    pub end: int,
    pub text: Seq<char>,
}

impl View for ChunkRow {
    type V = RowModel;

    open spec fn view(&self) -> RowModel {
        RowModel {
            record_id: self.record_id@,
            chunk_index: self.chunk_index,
            start: self.start_char as int,
            end: self.end_char as int,
            text: self.text@,
        }
    }
}

/// A hit without its representation.
pub struct HitModel {
    pub id: Seq<char>,
    pub score: Score,
    pub row: Option<RowModel>,
    pub matches: bool,
}

impl View for HitRow {
    type V = HitModel;

    open spec fn view(&self) -> HitModel {
        HitModel {
            id: self.id@,
            score: self.score,
            row: match self.row {
                Some(row) => Some(row@),
                None => None,
            },
            matches: self.matches,
        }
    }
}

/// The views of a list of hits.
pub open spec fn hit_models(v: Seq<HitRow>) -> Seq<HitModel> {
    Seq::new(v.len(), |i: int| v[i]@)
}

/// A chunk that was hit, and its rank among those.
#[derive(Debug, Clone)]
pub struct ChunkCandidate {
    pub record_id: String,
    pub rank: usize,
    pub chunk: MatchedChunk,
}

/// A chunk that was hit, without its representation.
pub struct CandidateModel {
    pub record_id: Seq<char>,
    pub rank: int,
    pub chunk: MatchModel,
}

impl View for ChunkCandidate {
    type V = CandidateModel;

    open spec fn view(&self) -> CandidateModel {
        CandidateModel {
            record_id: self.record_id@,
            rank: self.rank as int,
            chunk: self.chunk@,
        }
    }
}

/// The views of a list of chunks that were hit.
pub open spec fn candidate_models(v: Seq<ChunkCandidate>) -> Seq<CandidateModel> {
    Seq::new(v.len(), |i: int| v[i]@)
}

/// What came of the hits of the vector index: the records in the order in which they were hit,
/// the chunk by which each of them was hit first, and all chunks that were hit.
#[derive(Debug, Clone)]
pub struct VectorCandidates {
    pub ranking: Vec<String>,
    pub chunks: TextMap<MatchedChunk>,
    pub chunk_hits: Vec<ChunkCandidate>,
}

/// The chunk of a hit, as a result shows it.
pub open spec fn matched(hit: HitModel) -> MatchModel {
    let row = hit.row->0;
    MatchModel {
        chunk_id: hit.id,
        chunk_index: row.chunk_index,
        score: hit.score,
        text: if row.start == 0 && row.end == 0 {
            row.text
        } else {
            snippet::sliced(row.text, row.start, row.end)
        },
    }
}

/// Whether a hit is on a known chunk of a record that meets the filters.
pub open spec fn is_accepted(hit: HitModel) -> bool {
    hit.row is Some && hit.matches
}

/// The hits on known chunks of records that meet the filters.
pub open spec fn accepted(hits: Seq<HitModel>) -> Seq<HitModel>
    decreases hits.len(),
{
    if hits.len() == 0 {
        Seq::empty()
    } else if is_accepted(hits.last()) {
        accepted(hits.drop_last()).push(hits.last())
    } else {
        accepted(hits.drop_last())
    }
}

/// The ids of the hits on records that meet the filters.
pub open spec fn matching_ids(hits: Seq<HitModel>) -> Seq<Seq<char>>
    decreases hits.len(),
{
    if hits.len() == 0 {
        Seq::empty()
    } else if hits.last().matches {
        matching_ids(hits.drop_last()).push(hits.last().id)
    } else {
        matching_ids(hits.drop_last())
    }
}

/// The records that hits are on.
pub open spec fn hit_records(hits: Seq<HitModel>) -> Seq<Seq<char>> {
    Seq::new(hits.len(), |i: int| hits[i].row->0.record_id)
}

/// The chunk of the first hit on a record.
pub open spec fn first_chunk(hits: Seq<HitModel>, record_id: Seq<char>) -> Option<MatchModel>
    decreases hits.len(),
{
    if hits.len() == 0 {
        None
    } else {
        match first_chunk(hits.drop_last(), record_id) {
            Some(m) => Some(m),
            None => if hits.last().row->0.record_id == record_id {
                Some(matched(hits.last()))
            } else {
                None
            },
        }
    }
}

/// The chunks of hits, ranked in the order of the hits.
pub open spec fn ranked_chunks(hits: Seq<HitModel>) -> Seq<CandidateModel> {
    Seq::new(
        hits.len(),
        |i: int|
            CandidateModel {
                record_id: hits[i].row->0.record_id,
                rank: i + 1,
                chunk: matched(hits[i]),
            },
    )
}

/// The value of a map of chunks at a record, without its representation.
pub open spec fn chunk_at(
    chunks: Seq<(Seq<char>, MatchedChunk)>,
    record_id: Seq<char>,
) -> Option<MatchModel> {
    match text_map::value_of(chunks, record_id) {
        Some(c) => Some(c@),
        None => None,
    }
}

proof fn lemma_first_chunk(hits: Seq<HitModel>, record_id: Seq<char>)
    ensures
        first_chunk(hits, record_id) is Some <==> unique(hit_records(hits)).contains(record_id),
    decreases hits.len(),
{
    law_unique(hit_records(hits));
    if hits.len() > 0 {
        let shorter = hits.drop_last();
        lemma_first_chunk(shorter, record_id);
        law_unique(hit_records(shorter));
        let all = hit_records(hits);
        if hit_records(shorter).contains(record_id) {
            let i = choose|i: int|
                0 <= i < shorter.len() && hit_records(shorter)[i] == record_id;
            assert(all[i] == record_id);
        }
        if hits.last().row->0.record_id == record_id {
            assert(all[hits.len() - 1] == record_id);
        }
        if all.contains(record_id) {
            let i = choose|i: int| 0 <= i < all.len() && all[i] == record_id;
            if i < shorter.len() {
                assert(hit_records(shorter)[i] == record_id);
            }
        }
    }
}

fn matched_chunk(id: &String, score: Score, row: &ChunkRow) -> (r: MatchedChunk)
    ensures
        forall|hit: HitModel|
            hit.id == id@ && hit.score == score && hit.row == Some(row@) ==> r@
                == #[trigger] matched(hit),
{
    let text = if row.start_char == 0 && row.end_char == 0 {
        row.text.clone()
    } else {
        slice_chars_owned(row.text.as_str(), row.start_char, row.end_char)
    };
    MatchedChunk { chunk_id: id.clone(), chunk_index: row.chunk_index, score, text }
}

/// What comes of the hits of the vector index, best first, where the database has chunks.
fn aggregate_chunk_hits(hits: &Vec<HitRow>) -> (r: VectorCandidates)
    ensures
        r.chunks.wf(),
        ({
            let kept = accepted(hit_models(hits@));
            &&& text::texts(r.ranking@) == unique(hit_records(kept))
            &&& candidate_models(r.chunk_hits@) == ranked_chunks(kept)
            &&& forall|id: Seq<char>| #[trigger] chunk_at(r.chunks@, id) == first_chunk(kept, id)
        }),
{
    let ghost all = hit_models(hits@);
    let mut ranking: Vec<String> = Vec::new();
    let mut chunks: TextMap<MatchedChunk> = TextMap::new();
    let mut chunk_hits: Vec<ChunkCandidate> = Vec::new();
    let mut i: usize = 0;
    proof {
        assert(all.take(0) =~= Seq::empty());
        assert(hit_records(accepted(all.take(0))) =~= Seq::empty());
        assert(text::texts(ranking@) =~= unique(hit_records(accepted(all.take(0)))));
        assert(candidate_models(chunk_hits@) =~= ranked_chunks(accepted(all.take(0))));
    }
    while i < hits.len()
        invariant
            i <= hits@.len(),
            all == hit_models(hits@),
            chunks.wf(),
            chunk_hits@.len() <= i,
            text::texts(ranking@) == unique(hit_records(accepted(all.take(i as int)))),
            candidate_models(chunk_hits@) == ranked_chunks(accepted(all.take(i as int))),
            forall|id: Seq<char>| #[trigger]
                chunk_at(chunks@, id) == first_chunk(accepted(all.take(i as int)), id),
        decreases hits@.len() - i,
    {
        let ghost kept = accepted(all.take(i as int));
        let ghost hit = all[i as int];
        let ghost before = text::texts(ranking@);
        let ghost ranked = candidate_models(chunk_hits@);
        let ghost known = chunks@;
        proof {
            assert(all.take(i + 1).drop_last() =~= all.take(i as int));
            assert(all.take(i + 1).last() == hit);
            assert(ranked.len() == kept.len());
        }
        if let Some(row) = &hits[i].row {
            if hits[i].matches {
                let ghost now = kept.push(hit);
                let chunk = matched_chunk(&hits[i].id, hits[i].score, row);
                let rank: usize = chunk_hits.len() + 1;
                let candidate = ChunkCandidate {
                    record_id: row.record_id.clone(),
                    rank,
                    chunk: chunk.copy(),
                };
                chunk_hits.push(candidate);
                let ghost id = row.record_id@;
                proof {
                    assert(accepted(all.take(i + 1)) == now);
                    assert(chunk@ == matched(hit));
                    assert(candidate_models(chunk_hits@) =~= ranked.push(candidate@));
                    assert(candidate_models(chunk_hits@) =~= ranked_chunks(now));
                    lemma_first_chunk(kept, id);
                    assert(hit_records(now) =~= hit_records(kept).push(id));
                    assert(hit_records(now).drop_last() =~= hit_records(kept));
                    assert(now.drop_last() =~= kept);
                    assert(chunk_at(known, id) == first_chunk(kept, id));
                }
                if !chunks.contains_key(row.record_id.as_str()) {
                    ranking.push(row.record_id.clone());
                    chunks.insert(row.record_id.clone(), chunk);
                    assert(text::texts(ranking@) =~= before.push(id));
                }
                proof {
                    assert forall|x: Seq<char>| #[trigger]
                        chunk_at(chunks@, x) == first_chunk(now, x) by {
                        assert(chunk_at(known, x) == first_chunk(kept, x));
                    }
                }
            }
        }
        i = i + 1;
    }
    assert(all.take(i as int) =~= all);
    VectorCandidates { ranking, chunks, chunk_hits }
}

fn aggregate_record_hits(hits: &Vec<HitRow>) -> (r: Vec<String>)
    ensures
        text::texts(r@) == unique(matching_ids(hit_models(hits@))),
{
    let ghost all = hit_models(hits@);
    let mut ids: Vec<String> = Vec::new();
    let mut i: usize = 0;
    assert(text::texts(ids@) =~= matching_ids(all.take(0)));
    while i < hits.len()
        invariant
            i <= hits@.len(),
            all == hit_models(hits@),
            text::texts(ids@) == matching_ids(all.take(i as int)),
        decreases hits@.len() - i,
    {
        let ghost before = text::texts(ids@);
        proof {
            assert(all.take(i + 1).drop_last() =~= all.take(i as int));
            assert(all.take(i + 1).last() == all[i as int]);
        }
        if hits[i].matches {
            ids.push(hits[i].id.clone());
            assert(text::texts(ids@) =~= before.push(hits@[i as int].id@));
        }
        i = i + 1;
    }
    assert(all.take(i as int) =~= all);
    unique_record_ids(&ids)
}

/// What comes of the hits of the vector index, best first: of chunks where the database has a
/// table of them, else of records.
pub fn aggregate_vector_hits(has_chunks: bool, hits: &Vec<HitRow>) -> (r: VectorCandidates)
    ensures
        r.chunks.wf(),
        !has_chunks ==> {
            &&& text::texts(r.ranking@) == unique(matching_ids(hit_models(hits@)))
            &&& r.chunks@.len() == 0
            &&& r.chunk_hits@.len() == 0
        },
        has_chunks ==> {
            let kept = accepted(hit_models(hits@));
            &&& text::texts(r.ranking@) == unique(hit_records(kept))
            &&& candidate_models(r.chunk_hits@) == ranked_chunks(kept)
            &&& forall|id: Seq<char>| #[trigger] chunk_at(r.chunks@, id) == first_chunk(kept, id)
        },
{
    if !has_chunks {
        return VectorCandidates {
            ranking: aggregate_record_hits(hits),
            chunks: TextMap::new(),
            chunk_hits: Vec::new(),
        };
    }
    aggregate_chunk_hits(hits)
}

/// Whether a hit is on a record.
pub open spec fn is_hit_on(hit: HitModel, record_id: Seq<char>) -> bool {
    is_accepted(hit) && hit.row->0.record_id == record_id
}

proof fn lemma_accepted(hits: Seq<HitModel>, i: int)
    requires
        0 <= i < hits.len(),
        is_accepted(hits[i]),
    ensures
        accepted(hits).contains(hits[i]),
    decreases hits.len(),
{
    let shorter = hits.drop_last();
    if i < shorter.len() {
        lemma_accepted(shorter, i);
        assert(shorter[i] == hits[i]);
        let before = accepted(shorter);
        let k = choose|k: int| 0 <= k < before.len() && before[k] == hits[i];
        assert(accepted(hits)[k] == hits[i]);
    } else {
        assert(accepted(hits).last() == hits[i]);
    }
}

proof fn lemma_accepted_falls(hits: Seq<HitModel>)
    requires
        forall|i: int, j: int|
            0 <= i < j < hits.len() ==> (#[trigger] hits[i]).score.level() >= (
            #[trigger] hits[j]).score.level(),
    ensures
        forall|i: int, j: int|
            0 <= i < j < accepted(hits).len() ==> (#[trigger] accepted(hits)[i]).score.level() >= (
            #[trigger] accepted(hits)[j]).score.level(),
    decreases hits.len(),
{
    if hits.len() > 0 {
        let shorter = hits.drop_last();
        assert forall|i: int, j: int| 0 <= i < j < shorter.len() implies (
        #[trigger] shorter[i]).score.level() >= (#[trigger] shorter[j]).score.level() by {
            assert(shorter[i] == hits[i] && shorter[j] == hits[j]);
        }
        lemma_accepted_falls(shorter);
        lemma_accepted_are_hits(shorter);
        let before = accepted(shorter);
        let now = accepted(hits);
        assert forall|i: int, j: int| 0 <= i < j < now.len() implies (
        #[trigger] now[i]).score.level() >= (#[trigger] now[j]).score.level() by {
            assert(now[i] == before[i]);
            if j < before.len() {
                assert(now[j] == before[j]);
            } else {
                let k = choose|k: int| 0 <= k < shorter.len() && shorter[k] == before[i];
                assert(hits[k] == before[i]);
                assert(hits[k].score.level() >= hits[hits.len() - 1].score.level());
            }
        }
    }
}

proof fn lemma_first_chunk_is_best(kept: Seq<HitModel>, record_id: Seq<char>, i: int)
    requires
        0 <= i < kept.len(),
        kept[i].row->0.record_id == record_id,
        forall|i: int, j: int|
            0 <= i < j < kept.len() ==> (#[trigger] kept[i]).score.level() >= (
            #[trigger] kept[j]).score.level(),
    ensures
        first_chunk(kept, record_id) is Some,
        first_chunk(kept, record_id)->0.score.level() >= kept[i].score.level(),
    decreases kept.len(),
{
    let shorter = kept.drop_last();
    assert forall|a: int, b: int| 0 <= a < b < shorter.len() implies (
    #[trigger] shorter[a]).score.level() >= (#[trigger] shorter[b]).score.level() by {
        assert(shorter[a] == kept[a] && shorter[b] == kept[b]);
    }
    if i < shorter.len() {
        assert(shorter[i] == kept[i]);
        lemma_first_chunk_is_best(shorter, record_id, i);
    } else if first_chunk(shorter, record_id) is Some {
        lemma_first_chunk(shorter, record_id);
        law_unique(hit_records(shorter));
        let k = choose|k: int| 0 <= k < shorter.len() && hit_records(shorter)[k] == record_id;
        assert(shorter[k] == kept[k]);
        lemma_first_chunk_is_best(shorter, record_id, k);
        assert(kept[k].score.level() >= kept[i].score.level());
    }
}

/// Where the hits come best first, a record is listed with the best of its chunks that were
/// hit: no hit on the record has a better score.
pub proof fn law_best_chunk_is_kept(hits: Seq<HitModel>, record_id: Seq<char>, i: int)
    requires
        0 <= i < hits.len(),
        is_hit_on(hits[i], record_id),
        forall|i: int, j: int|
            0 <= i < j < hits.len() ==> (#[trigger] hits[i]).score.level() >= (
            #[trigger] hits[j]).score.level(),
    ensures
        unique(hit_records(accepted(hits))).contains(record_id),
        first_chunk(accepted(hits), record_id) is Some,
        first_chunk(accepted(hits), record_id)->0.score.level() >= hits[i].score.level(),
{
    let kept = accepted(hits);
    lemma_accepted(hits, i);
    lemma_accepted_falls(hits);
    let k = choose|k: int| 0 <= k < kept.len() && kept[k] == hits[i];
    lemma_first_chunk_is_best(kept, record_id, k);
    lemma_first_chunk(kept, record_id);
}

proof fn lemma_accepted_are_hits(hits: Seq<HitModel>)
    ensures
        forall|i: int|
            0 <= i < accepted(hits).len() ==> is_accepted(#[trigger] accepted(hits)[i])
                && hits.contains(accepted(hits)[i]),
    decreases hits.len(),
{
    if hits.len() > 0 {
        let shorter = hits.drop_last();
        lemma_accepted_are_hits(shorter);
        let before = accepted(shorter);
        let now = accepted(hits);
        assert forall|i: int| 0 <= i < now.len() implies is_accepted(#[trigger] now[i])
            && hits.contains(now[i]) by {
            if i < before.len() {
                assert(now[i] == before[i]);
                let k = choose|k: int| 0 <= k < shorter.len() && shorter[k] == before[i];
                assert(hits[k] == now[i]);
            } else {
                assert(now[i] == hits[hits.len() - 1]);
            }
        }
    }
}

/// Whether some hit of a list is on a record that meets the filters.
pub open spec fn is_hit(hits: Seq<HitModel>, record_id: Seq<char>) -> bool {
    exists|i: int| 0 <= i < hits.len() && is_hit_on(#[trigger] hits[i], record_id)
}

/// No record is listed that does not meet the filters or that was not hit.
pub proof fn law_only_matching_records(hits: Seq<HitModel>, record_id: Seq<char>)
    requires
        unique(hit_records(accepted(hits))).contains(record_id),
    ensures
        is_hit(hits, record_id),
{
    let kept = accepted(hits);
    law_unique(hit_records(kept));
    lemma_accepted_are_hits(hits);
    let k = choose|k: int| 0 <= k < kept.len() && hit_records(kept)[k] == record_id;
    let i = choose|i: int| 0 <= i < hits.len() && hits[i] == kept[k];
    assert(is_hit_on(hits[i], record_id));
}

/// Whether a search goes through the text index.
pub fn searches_text(mode: SearchMode) -> (r: bool)
    ensures
        r == (mode != SearchMode::Vector),
{
    mode != SearchMode::Vector
}

/// Whether a search goes through the vector index of a dataset with embeddings.
pub fn searches_vectors(mode: SearchMode, has_embedding: bool) -> (r: bool)
    ensures
        r == (mode != SearchMode::Bm25 && has_embedding),
{
    mode != SearchMode::Bm25 && has_embedding
}

/// The product, or the largest number where that is beyond it.
pub open spec fn capped_product(a: int, b: int) -> int {
    if a * b > usize::MAX {
        usize::MAX as int
    } else {
        a * b
    }
}

/// The larger one of two numbers.
pub open spec fn larger(a: int, b: int) -> int {
    if a < b {
        b
    } else {
        a
    }
}

/// How many hits each index is asked for.
pub open spec fn hits_wanted(top_k: int) -> int {
    larger(capped_product(sql::at_least_one(top_k), 20), 100)
}

fn capped_mul(a: usize, b: usize) -> (r: usize)
    ensures
        r == capped_product(a as int, b as int),
{
    match a.checked_mul(b) {
        Some(p) => p,
        None => usize::MAX,
    }
}

/// How many hits each index is asked for: twenty times as many as are listed, and a hundred at
/// least.
pub fn fetch_limit(top_k: usize) -> (r: usize)
    ensures
        r == hits_wanted(top_k as int),
        top_k <= 5 ==> r == 100,
        5 <= top_k && 20 * top_k <= usize::MAX ==> r == 20 * top_k,
        20 * top_k > usize::MAX ==> r == usize::MAX,
{
    let wanted = capped_mul(result_limit(top_k), 20);
    if wanted < 100 {
        100
    } else {
        wanted
    }
}

/// How far the vector index is searched: for `fetch` hits now, of which `target` should remain,
/// and for `max_fetch` at most.
#[derive(Debug, Clone, Copy, PartialEq, Eq)]
pub struct VectorFetch {
    pub target: usize,
    pub fetch: usize,
    pub max_fetch: usize,
}

impl VectorFetch {
    /// No more hits are asked for than may be.
    pub open spec fn wf(self) -> bool {
        0 < self.fetch <= self.max_fetch
    }

    /// How far the vector index is searched at first.
    pub open spec fn spec_first(limit: int, top_k: int) -> VectorFetch {
        let wanted = larger(limit, sql::at_least_one(top_k));
        VectorFetch {
            target: wanted as usize,
            fetch: wanted as usize,
            max_fetch: larger(5000, wanted) as usize,
        }
    }

    /// How far the vector index is searched next, where `found` candidates remained of the
    /// hits; not at all where these are enough or no more hits may be asked for.
    pub open spec fn spec_next(self, found: int) -> Option<VectorFetch> {
        if found >= self.target || self.fetch >= self.max_fetch {
            None
        } else {
            let more = capped_product(self.fetch as int, 3);
            Some(
                VectorFetch {
                    fetch: (if more < self.max_fetch {
                        more
                    } else {
                        self.max_fetch as int
                    }) as usize,
                    ..self
                },
            )
        }
    }

    /// How far the vector index is searched at first.
    pub fn first(limit: usize, top_k: usize) -> (r: VectorFetch)
        ensures
            r == VectorFetch::spec_first(limit as int, top_k as int),
            r.wf(),
            r.target >= 1 && r.target >= limit && r.target >= top_k,
            r.target == 1 || r.target == limit || r.target == top_k,
            r.fetch == r.target,
            r.max_fetch >= 5000 && r.max_fetch >= r.target,
            r.max_fetch == 5000 || r.max_fetch == r.target,
    {
        let top = result_limit(top_k);
        let wanted = if limit < top {
            top
        } else {
            limit
        };
        VectorFetch {
            target: wanted,
            fetch: wanted,
            max_fetch: if wanted < 5000 {
                5000
            } else {
                wanted
            },
        }
    }

    /// How far the vector index is searched next, where `found` candidates remained of the
    /// hits; not at all where these are enough or no more hits may be asked for.
    pub fn next(&self, found: usize) -> (r: Option<VectorFetch>)
        requires
            self.wf(),
        ensures
            r == self.spec_next(found as int),
            r is Some ==> r->0.wf(),
            r is None <==> found >= self.target || self.fetch == self.max_fetch,
            r matches Some(next) ==> next.target == self.target && next.max_fetch == self.max_fetch
                && if 3 * self.fetch <= self.max_fetch {
                next.fetch == 3 * self.fetch
            } else {
                next.fetch == self.max_fetch
            },
    {
        if found >= self.target || self.fetch >= self.max_fetch {
            return None;
        }
        let more = capped_mul(self.fetch, 3);
        Some(
            VectorFetch {
                target: self.target,
                fetch: if more < self.max_fetch {
                    more
                } else {
                    self.max_fetch
                },
                max_fetch: self.max_fetch,
            },
        )
    }
}

/// Each further search is for more hits, and the searches end: with enough candidates, or with
/// as many hits as may be asked for.
pub proof fn law_vector_fetch_grows(state: VectorFetch, found: int)
    requires
        state.wf(),
    ensures
        match state.spec_next(found) {
            Some(next) => next.wf() && state.fetch < next.fetch <= state.max_fetch && next.target
                == state.target && next.max_fetch == state.max_fetch,
            None => found >= state.target || state.fetch == state.max_fetch,
        },
{
}

/// How many candidates a search has to choose its results from.
pub fn candidates_found(candidates: &VectorCandidates, granularity: ResultGranularity) -> (r: usize)
    ensures
        r == (if granularity == ResultGranularity::Chunk {
            candidates.chunk_hits@.len()
        } else {
            candidates.ranking@.len()
        }),
{
    if granularity == ResultGranularity::Chunk {
        candidates.chunk_hits.len()
    } else {
        candidates.ranking.len()
    }
}

/// The terms that the first `n` places of a ranking add to the score of an id: the reciprocals
/// of these numbers, one for each place of the id.
pub open spec fn ranking_terms(
    ranking: Seq<Seq<char>>,
    n: int,
    k: int,
    id: Seq<char>,
) -> Seq<int>
    decreases n,
{
    if n <= 0 {
        Seq::empty()
    } else if ranking[n - 1] == id {
        ranking_terms(ranking, n - 1, k, id).push(k + n)
    } else {
        ranking_terms(ranking, n - 1, k, id)
    }
}

/// The terms that rankings add to the score of an id.
pub open spec fn fusion_terms(rankings: Seq<Seq<Seq<char>>>, k: int, id: Seq<char>) -> Seq<int>
    decreases rankings.len(),
{
    if rankings.len() == 0 {
        Seq::empty()
    } else {
        let last = rankings.last();
        fusion_terms(rankings.drop_last(), k, id) + ranking_terms(last, last.len() as int, k, id)
    }
}

/// The numbers of a list.
pub open spec fn numbers(v: Seq<u128>) -> Seq<int> {
    Seq::new(v.len(), |i: int| v[i] as int)
}

/// The terms of an id in a map.
pub open spec fn terms_at(map: Seq<(Seq<char>, Vec<u128>)>, id: Seq<char>) -> Seq<int> {
    match text_map::value_of(map, id) {
        Some(v) => numbers(v@),
        None => Seq::empty(),
    }
}

/// The views of a list of rankings.
pub open spec fn ranking_models(v: Seq<Vec<String>>) -> Seq<Seq<Seq<char>>> {
    Seq::new(v.len(), |i: int| text::texts(v[i]@))
}

fn copy_numbers(v: &Vec<u128>) -> (r: Vec<u128>)
    ensures
        r@ == v@,
{
    let mut out: Vec<u128> = Vec::new();
    let mut i: usize = 0;
    while i < v.len()
        invariant
            i <= v@.len(),
            out@ == v@.take(i as int),
        decreases v@.len() - i,
    {
        out.push(v[i]);
        assert(out@ =~= v@.take(i + 1));
        i = i + 1;
    }
    assert(v@.take(i as int) =~= v@);
    out
}

fn add_term(map: &mut TextMap<Vec<u128>>, id: &String, term: u128)
    requires
        old(map).wf(),
    ensures
        final(map).wf(),
        forall|x: Seq<char>| #[trigger]
            terms_at(final(map)@, x) == (if x == id@ {
                terms_at(old(map)@, x).push(term as int)
            } else {
                terms_at(old(map)@, x)
            }),
        forall|x: Seq<char>| #[trigger]
            text_map::value_of(final(map)@, x) is Some <==> x == id@ || text_map::value_of(
                old(map)@,
                x,
            ) is Some,
{
    let mut terms: Vec<u128> = match map.get(id.as_str()) {
        Some(v) => copy_numbers(v),
        None => Vec::new(),
    };
    let ghost before = numbers(terms@);
    proof {
        assert(before =~= terms_at(map@, id@));
    }
    terms.push(term);
    assert(numbers(terms@) =~= before.push(term as int));
    map.insert(id.clone(), terms);
    proof {
        assert forall|x: Seq<char>| #[trigger] terms_at(map@, x) == (if x == id@ {
            terms_at(old(map)@, x).push(term as int)
        } else {
            terms_at(old(map)@, x)
        }) by {
            assert(text_map::value_of(map@, x) == (if x == id@ {
                Some(terms)
            } else {
                text_map::value_of(old(map)@, x)
            }));
        }
    }
}

/// The terms of reciprocal rank fusion: for each id of the rankings, in the order of the ids,
/// the numbers whose reciprocals add up to its score. A place adds its rank, counted from one,
/// plus `k`.
pub fn rrf_fuse(lists: &Vec<Vec<String>>, k: usize) -> (r: TextMap<Vec<u128>>)
    ensures
        r.wf(),
        forall|id: Seq<char>| #[trigger]
            terms_at(r@, id) == fusion_terms(ranking_models(lists@), k as int, id),
        forall|id: Seq<char>| #[trigger]
            text_map::value_of(r@, id) is Some <==> fusion_terms(
                ranking_models(lists@),
                k as int,
                id,
            ).len() > 0,
{
    let ghost all = ranking_models(lists@);
    let mut out: TextMap<Vec<u128>> = TextMap::new();
    let mut i: usize = 0;
    while i < lists.len()
        invariant
            i <= lists@.len(),
            all == ranking_models(lists@),
            out.wf(),
            forall|id: Seq<char>| #[trigger]
                terms_at(out@, id) == fusion_terms(all.take(i as int), k as int, id),
            forall|id: Seq<char>| #[trigger]
                text_map::value_of(out@, id) is Some <==> fusion_terms(
                    all.take(i as int),
                    k as int,
                    id,
                ).len() > 0,
        decreases lists@.len() - i,
    {
        let list = &lists[i];
        let ghost done = all.take(i as int);
        let ghost ranking = text::texts(list@);
        let mut rank: usize = 0;
        proof {
            assert forall|id: Seq<char>| #[trigger]
                terms_at(out@, id) == fusion_terms(done, k as int, id) + ranking_terms(
                    ranking,
                    0,
                    k as int,
                    id,
                ) by {
                assert(fusion_terms(done, k as int, id) + ranking_terms(
                    ranking,
                    0,
                    k as int,
                    id,
                ) =~= fusion_terms(done, k as int, id));
            }
        }
        while rank < list.len()
            invariant
                rank <= list@.len(),
                ranking == text::texts(list@),
                out.wf(),
                forall|id: Seq<char>| #[trigger]
                    terms_at(out@, id) == fusion_terms(done, k as int, id) + ranking_terms(
                        ranking,
                        rank as int,
                        k as int,
                        id,
                    ),
                forall|id: Seq<char>| #[trigger]
                    text_map::value_of(out@, id) is Some <==> (fusion_terms(done, k as int, id)
                        + ranking_terms(ranking, rank as int, k as int, id)).len() > 0,
            decreases list@.len() - rank,
        {
            let ghost before = out@;
            let term: u128 = k as u128 + rank as u128 + 1;
            add_term(&mut out, &list[rank], term);
            proof {
                let here = list@[rank as int]@;
                assert(ranking[rank as int] == here);
                assert forall|id: Seq<char>| #[trigger]
                    terms_at(out@, id) == fusion_terms(done, k as int, id) + ranking_terms(
                        ranking,
                        rank + 1,
                        k as int,
                        id,
                    ) by {
                    assert(terms_at(before, id) == fusion_terms(done, k as int, id)
                        + ranking_terms(ranking, rank as int, k as int, id));
                    assert(terms_at(out@, id) =~= fusion_terms(done, k as int, id)
                        + ranking_terms(ranking, rank + 1, k as int, id));
                }
                assert forall|id: Seq<char>| #[trigger]
                    text_map::value_of(out@, id) is Some <==> (fusion_terms(done, k as int, id)
                        + ranking_terms(ranking, rank + 1, k as int, id)).len() > 0 by {
                    assert(text_map::value_of(before, id) is Some <==> (fusion_terms(
                        done,
                        k as int,
                        id,
                    ) + ranking_terms(ranking, rank as int, k as int, id)).len() > 0);
                }
            }
            rank = rank + 1;
        }
        proof {
            assert(all.take(i + 1).drop_last() =~= done);
            assert(all.take(i + 1).last() == ranking);
        }
        i = i + 1;
    }
    assert(all.take(i as int) =~= all);
    out
}

/// In a ranking without repetitions an id has one term, by its place, and no term where it has
/// none.
pub proof fn law_ranking_terms(ranking: Seq<Seq<char>>, n: int, k: int, id: Seq<char>)
    requires
        0 <= n <= ranking.len(),
        forall|a: int, b: int|
            0 <= a < b < ranking.len() ==> #[trigger] ranking[a] != #[trigger] ranking[b],
    ensures
        forall|i: int|
            0 <= i < n && #[trigger] ranking[i] == id ==> ranking_terms(ranking, n, k, id) == seq![
                k + i + 1,
            ],
        (forall|i: int| 0 <= i < n ==> #[trigger] ranking[i] != id) ==> ranking_terms(
            ranking,
            n,
            k,
            id,
        ).len() == 0,
    decreases n,
{
    if n > 0 {
        law_ranking_terms(ranking, n - 1, k, id);
        if ranking[n - 1] == id {
            assert forall|i: int| 0 <= i < n - 1 implies #[trigger] ranking[i] != id by {
                assert(ranking[i] != ranking[n - 1]);
            }
            assert(ranking_terms(ranking, n, k, id) =~= seq![k + n]);
        }
    }
}

/// An id that is in both of two rankings without repetitions has the two terms of its places.
pub proof fn law_fusion_of_two(
    first: Seq<Seq<char>>,
    second: Seq<Seq<char>>,
    k: int,
    i: int,
    j: int,
)
    requires
        0 <= i < first.len(),
        0 <= j < second.len(),
        first[i] == second[j],
        forall|a: int, b: int|
            0 <= a < b < first.len() ==> #[trigger] first[a] != #[trigger] first[b],
        forall|a: int, b: int|
            0 <= a < b < second.len() ==> #[trigger] second[a] != #[trigger] second[b],
    ensures
        fusion_terms(seq![first, second], k, first[i]) == seq![k + i + 1, k + j + 1],
{
    let both = seq![first, second];
    let id = first[i];
    reveal_with_fuel(fusion_terms, 3);
    law_ranking_terms(first, first.len() as int, k, id);
    law_ranking_terms(second, second.len() as int, k, id);
    assert(both.drop_last() =~= seq![first]);
    assert(both.drop_last().drop_last() =~= Seq::empty());
    assert(fusion_terms(both, k, id) =~= seq![k + i + 1, k + j + 1]);
}

/// An id and the numbers whose reciprocals add up to its score.
#[derive(Debug, Clone, PartialEq, Eq)]
pub struct FusedItem {
    pub record_id: String,
    pub terms: Vec<u128>,
}

/// An id and its terms without their representation.
pub struct FusedModel {
    pub record_id: Seq<char>,
    pub terms: Seq<int>,
}

impl View for FusedItem {
    type V = FusedModel;

    open spec fn view(&self) -> FusedModel {
        FusedModel { record_id: self.record_id@, terms: numbers(self.terms@) }
    }
}

/// The views of a list of ids with their terms.
pub open spec fn fused_models(v: Seq<FusedItem>) -> Seq<FusedModel> {
    Seq::new(v.len(), |i: int| v[i]@)
}

/// The places of a single ranking, each with its rank for its only term.
pub open spec fn ranked_places(ranking: Seq<Seq<char>>, limit: int) -> Seq<FusedModel> {
    order::first_of(
        Seq::new(
            ranking.len(),
            |i: int| FusedModel { record_id: ranking[i], terms: seq![i + 1] },
        ),
        limit,
    )
}

/// Whether the items are the ids of the rankings in the order of the ids, each one once and
/// with its terms.
pub open spec fn are_fused(
    items: Seq<FusedModel>,
    rankings: Seq<Seq<Seq<char>>>,
    k: int,
) -> bool {
    &&& forall|i: int, j: int|
        0 <= i < j < items.len() ==> text::text_lt(
            (#[trigger] items[i]).record_id,
            (#[trigger] items[j]).record_id,
        )
    &&& forall|i: int|
        0 <= i < items.len() ==> (#[trigger] items[i]).terms == fusion_terms(
            rankings,
            k,
            items[i].record_id,
        ) && items[i].terms.len() > 0
    &&& forall|id: Seq<char>|
        #[trigger] fusion_terms(rankings, k, id).len() > 0 ==> has_item(items, id)
}

/// Whether an id is among the items.
pub open spec fn has_item(items: Seq<FusedModel>, id: Seq<char>) -> bool {
    exists|i: int| 0 <= i < items.len() && (#[trigger] items[i]).record_id == id
}

fn place_items(ranking: &Vec<String>, limit: usize) -> (r: Vec<FusedItem>)
    ensures
        fused_models(r@) == ranked_places(text::texts(ranking@), limit as int),
{
    let ghost all = Seq::new(
        ranking@.len(),
        |i: int| FusedModel { record_id: text::texts(ranking@)[i], terms: seq![i + 1] },
    );
    let mut out: Vec<FusedItem> = Vec::new();
    let mut i: usize = 0;
    assert(fused_models(out@) =~= all.take(0));
    while i < ranking.len() && i < limit
        invariant
            i <= ranking@.len(),
            i <= limit,
            all == Seq::new(
                ranking@.len(),
                |i: int| FusedModel { record_id: text::texts(ranking@)[i], terms: seq![i + 1] },
            ),
            fused_models(out@) == all.take(i as int),
        decreases ranking@.len() - i,
    {
        let ghost before = fused_models(out@);
        let mut terms: Vec<u128> = Vec::new();
        terms.push(i as u128 + 1);
        let item = FusedItem { record_id: ranking[i].clone(), terms };
        out.push(item);
        proof {
            assert(item@.terms =~= seq![i + 1]);
            assert(item@ == all[i as int]);
            assert(fused_models(out@) =~= before.push(item@));
            assert(fused_models(out@) =~= all.take(i + 1));
        }
        i = i + 1;
    }
    assert(fused_models(out@) =~= order::first_of(all, limit as int));
    out
}

/// The candidates of a search and the terms of their scores: the places of a ranking where
/// there is only one, else the fusion of the rankings.
pub fn fuse_candidates(lists: &Vec<Vec<String>>, limit: usize) -> (r: Vec<FusedItem>)
    ensures
        lists@.len() == 1 ==> fused_models(r@) == ranked_places(
            ranking_models(lists@)[0],
            limit as int,
        ),
        lists@.len() != 1 ==> are_fused(fused_models(r@), ranking_models(lists@), 60),
{
    if lists.len() == 1 {
        return place_items(&lists[0], limit);
    }
    let map = rrf_fuse(lists, 60);
    let ghost all = ranking_models(lists@);
    let mut out: Vec<FusedItem> = Vec::new();
    let mut i: usize = 0;
    while i < map.len()
        invariant
            i <= map@.len(),
            out@.len() == i,
            forall|k: int|
                0 <= k < i ==> (#[trigger] out@[k]).record_id@ == map@[k].0 && out@[k].terms@
                    == map@[k].1@,
        decreases map@.len() - i,
    {
        out.push(
            FusedItem { record_id: map.key_at(i).clone(), terms: copy_numbers(map.value_at(i)) },
        );
        i = i + 1;
    }
    proof {
        let items = fused_models(out@);
        assert forall|i: int, j: int| 0 <= i < j < items.len() implies text::text_lt(
            (#[trigger] items[i]).record_id,
            (#[trigger] items[j]).record_id,
        ) by {
            assert(out@[i].record_id@ == map@[i].0 && out@[j].record_id@ == map@[j].0);
            assert(text::text_lt(map@[i].0, map@[j].0));
        }
        assert forall|i: int| 0 <= i < items.len() implies (#[trigger] items[i]).terms
            == fusion_terms(all, 60, items[i].record_id) && items[i].terms.len() > 0 by {
            assert(out@[i].record_id@ == map@[i].0);
            text_map::lemma_value_of(map@, i);
            assert(terms_at(map@, map@[i].0) == fusion_terms(all, 60, map@[i].0));
            assert(text_map::value_of(map@, map@[i].0) is Some);
        }
        assert forall|id: Seq<char>|
            #[trigger] fusion_terms(all, 60, id).len() > 0 implies has_item(items, id) by {
            assert(text_map::value_of(map@, id) is Some);
            let k = choose|k: int| text_map::is_key_at(map@, id, k);
            assert(out@[k].record_id@ == map@[k].0);
            assert(items[k].record_id == id);
        }
    }
    out
}

/// A record and its score.
#[derive(Debug, Clone, PartialEq, Eq)]
pub struct RankedId {
    pub record_id: String,
    pub score: Score,
}

/// Records and their scores, without their representation.
pub open spec fn ranked_models(v: Seq<RankedId>) -> Seq<(Seq<char>, Score)> {
    Seq::new(v.len(), |i: int| (v[i].record_id@, v[i].score))
}

/// Items and their scores.
pub open spec fn scored(
    items: Seq<FusedModel>,
    scores: Seq<Score>,
) -> Seq<(Seq<char>, Score)> {
    Seq::new(items.len(), |i: int| (items[i].record_id, scores[i]))
}

/// Where scores stand among all scores.
pub open spec fn levels(scores: Seq<Score>) -> Seq<int> {
    Seq::new(scores.len(), |i: int| scores[i].level())
}

/// The items of several rankings by falling score, as many as are wanted.
pub open spec fn best_items(
    items: Seq<FusedModel>,
    scores: Seq<Score>,
    limit: int,
) -> Seq<(Seq<char>, Score)> {
    order::first_of(
        order::listed(scored(items, scores), order::falling_order(levels(scores))),
        limit,
    )
}

/// The candidates of a search in the order of their scores: as they stand where there is only
/// one ranking, else the best first, and as many as are wanted.
pub fn rank_candidates(
    items: &Vec<FusedItem>,
    scores: &Vec<Score>,
    single: bool,
    limit: usize,
) -> (r: Vec<RankedId>)
    requires
        items@.len() == scores@.len(),
    ensures
        ranked_models(r@) == (if single {
            scored(fused_models(items@), scores@)
        } else {
            best_items(fused_models(items@), scores@, limit as int)
        }),
{
    let ghost all = scored(fused_models(items@), scores@);
    let mut out: Vec<RankedId> = Vec::new();
    let mut i: usize = 0;
    if single {
        assert(ranked_models(out@) =~= all.take(0));
        while i < items.len()
            invariant
                i <= items@.len(),
                items@.len() == scores@.len(),
                all == scored(fused_models(items@), scores@),
                ranked_models(out@) == all.take(i as int),
            decreases items@.len() - i,
        {
            let ghost before = ranked_models(out@);
            out.push(RankedId { record_id: items[i].record_id.clone(), score: scores[i] });
            proof {
                assert(ranked_models(out@) =~= before.push(all[i as int]));
                assert(ranked_models(out@) =~= all.take(i + 1));
            }
            i = i + 1;
        }
        assert(all.take(i as int) =~= all);
        return out;
    }
    let mut keys: Vec<i128> = Vec::new();
    assert(order::ints(keys@) =~= levels(scores@).take(0));
    while i < scores.len()
        invariant
            i <= scores@.len(),
            order::ints(keys@) == levels(scores@).take(i as int),
        decreases scores@.len() - i,
    {
        let ghost before = order::ints(keys@);
        keys.push(scores[i].get_level());
        proof {
            assert(order::ints(keys@) =~= before.push(scores@[i as int].level()));
            assert(order::ints(keys@) =~= levels(scores@).take(i + 1));
        }
        i = i + 1;
    }
    assert(levels(scores@).take(i as int) =~= levels(scores@));
    let listing = order_falling(&keys);
    let ghost sorted = order::listed(all, order::falling_order(levels(scores@)));
    let mut k: usize = 0;
    assert(ranked_models(out@) =~= sorted.take(0));
    while k < listing.len() && k < limit
        invariant
            k <= listing@.len(),
            k <= limit,
            items@.len() == scores@.len(),
            all == scored(fused_models(items@), scores@),
            order::positions(listing@) == order::falling_order(levels(scores@)),
            order::lists_all(order::positions(listing@), scores@.len() as int),
            sorted == order::listed(all, order::falling_order(levels(scores@))),
            ranked_models(out@) == sorted.take(k as int),
        decreases listing@.len() - k,
    {
        let ghost before = ranked_models(out@);
        let at = listing[k];
        assert(order::positions(listing@)[k as int] == at);
        out.push(RankedId { record_id: items[at].record_id.clone(), score: scores[at] });
        proof {
            assert(ranked_models(out@) =~= before.push(sorted[k as int]));
            assert(ranked_models(out@) =~= sorted.take(k + 1));
        }
        k = k + 1;
    }
    assert(ranked_models(out@) =~= order::first_of(sorted, limit as int));
    out
}

/// The candidates of several rankings come by falling score, and none of them is left out for
/// one with a lower score.
pub proof fn law_best_items(items: Seq<FusedModel>, scores: Seq<Score>, limit: int)
    requires
        items.len() == scores.len(),
        limit >= 0,
    ensures
        ({
            let best = best_items(items, scores, limit);
            &&& best.len() == (if items.len() < limit {
                items.len() as int
            } else {
                limit
            })
            &&& forall|i: int, j: int|
                0 <= i < j < best.len() ==> (#[trigger] best[i]).1.level() >= (
                #[trigger] best[j]).1.level()
            &&& forall|k: int|
                0 <= k < items.len() && !best.contains(#[trigger] scored(items, scores)[k])
                    ==> forall|i: int|
                    0 <= i < best.len() ==> (#[trigger] best[i]).1.level() >= scores[k].level()
        }),
{
    let all = scored(items, scores);
    let keys = levels(scores);
    let listing = order::falling_order(keys);
    let sorted = order::listed(all, listing);
    let best = best_items(items, scores, limit);
    order::law_falling_order(keys);
    assert forall|i: int, j: int| 0 <= i < j < best.len() implies (#[trigger] best[i]).1.level()
        >= (#[trigger] best[j]).1.level() by {
        order::lemma_listed(all, keys, i, j);
        assert(best[i] == sorted[i] && best[j] == sorted[j]);
    }
    assert forall|k: int| 0 <= k < items.len() && !best.contains(#[trigger] all[k]) implies forall|
        i: int,
    |
        0 <= i < best.len() ==> (#[trigger] best[i]).1.level() >= scores[k].level() by {
        assert(listing.contains(k));
        let j = choose|j: int| 0 <= j < listing.len() && listing[j] == k;
        assert(sorted[j] == all[k]);
        if j < best.len() {
            assert(best[j] == all[k]);
        }
        assert forall|i: int| 0 <= i < best.len() implies (#[trigger] best[i]).1.level()
            >= scores[k].level() by {
            order::lemma_listed(all, keys, i, j);
            assert(best[i] == sorted[i]);
        }
    }
}

/// The chunk that a result shows of a hit has the hit's id and score, and the number of its chunk.
/// Its text is what stands between the places of the chunk, or all of the text where no places are
/// known.
pub proof fn law_matched_chunk(hit: HitModel)
    requires
        hit.row is Some,
    ensures
        matched(hit).chunk_id == hit.id,
        matched(hit).score == hit.score,
        matched(hit).chunk_index == hit.row->0.chunk_index,
        hit.row->0.start == 0 && hit.row->0.end == 0 ==> matched(hit).text == hit.row->0.text,
        0 <= hit.row->0.start <= hit.row->0.end <= hit.row->0.text.len() && hit.row->0.end > 0
            ==> matched(hit).text == hit.row->0.text.subrange(hit.row->0.start, hit.row->0.end),
{
    let row = hit.row->0;
    if 0 <= row.start <= row.end <= row.text.len() && row.end > 0 {
        assert(matched(hit).text =~= row.text.subrange(row.start, row.end));
    }
}

/// The chunks that are ranked are those of the hits on known chunks of records that meet the
/// filters, all of them and in the order of the hits, and their ranks count from one: `places`
/// says which hit each of them is.
pub proof fn law_chunk_hits_are_ranked(hits: Seq<HitModel>) -> (places: Seq<int>)
    ensures
        ({
            let ranked = ranked_chunks(accepted(hits));
            &&& places.len() == ranked.len()
            &&& forall|i: int|
                0 <= i < ranked.len() ==> {
                    let hit = hits[#[trigger] places[i]];
                    &&& 0 <= places[i] < hits.len()
                    &&& hit.matches && hit.row is Some
                    &&& ranked[i].rank == i + 1
                    &&& ranked[i].record_id == hit.row->0.record_id
                    &&& ranked[i].chunk.chunk_id == hit.id
                    &&& ranked[i].chunk.score == hit.score
                    &&& ranked[i].chunk.chunk_index == hit.row->0.chunk_index
                }
            &&& forall|i: int, j: int|
                0 <= i < j < places.len() ==> #[trigger] places[i] < #[trigger] places[j]
            &&& forall|p: int|
                0 <= p < hits.len() && (#[trigger] hits[p]).matches && hits[p].row is Some
                    ==> places.contains(p)
        }),
    decreases hits.len(),
{
    if hits.len() == 0 {
        Seq::empty()
    } else {
        let shorter = hits.drop_last();
        let last = hits.len() - 1;
        let known = law_chunk_hits_are_ranked(shorter);
        let before = ranked_chunks(accepted(shorter));
        let ranked = ranked_chunks(accepted(hits));
        let places = if hits.last().matches && hits.last().row is Some {
            known.push(last)
        } else {
            known
        };
        assert forall|i: int| 0 <= i < ranked.len() implies {
            let hit = hits[#[trigger] places[i]];
            &&& 0 <= places[i] < hits.len()
            &&& hit.matches && hit.row is Some
            &&& ranked[i].rank == i + 1
            &&& ranked[i].record_id == hit.row->0.record_id
            &&& ranked[i].chunk.chunk_id == hit.id
            &&& ranked[i].chunk.score == hit.score
            &&& ranked[i].chunk.chunk_index == hit.row->0.chunk_index
        } by {
            if i < before.len() {
                assert(places[i] == known[i]);
                assert(shorter[known[i]] == hits[known[i]]);
                assert(ranked[i] == before[i]);
            }
        }
        assert forall|i: int, j: int| 0 <= i < j < places.len() implies #[trigger] places[i]
            < #[trigger] places[j] by {
            assert(places[i] == known[i]);
            if j < known.len() {
                assert(places[j] == known[j]);
            }
        }
        assert forall|p: int|
            0 <= p < hits.len() && (#[trigger] hits[p]).matches && hits[p].row is Some implies places.contains(
        p) by {
            if p < last {
                assert(shorter[p] == hits[p]);
                assert(known.contains(p));
                let i = choose|i: int| 0 <= i < known.len() && known[i] == p;
                assert(places[i] == p);
            } else {
                assert(places[places.len() - 1] == p);
            }
        }
        places
    }
}

/// Where there are no chunks, the records that are ranked are those of the hits that meet the
/// filters, all of them and no others.
pub proof fn law_record_hits(hits: Seq<HitModel>, id: Seq<char>)
    ensures
        unique(matching_ids(hits)).contains(id) <==> exists|i: int|
            0 <= i < hits.len() && (#[trigger] hits[i]).matches && hits[i].id == id,
    decreases hits.len(),
{
    law_unique(matching_ids(hits));
    if hits.len() > 0 {
        let shorter = hits.drop_last();
        let last = hits.len() - 1;
        law_record_hits(shorter, id);
        law_unique(matching_ids(shorter));
        let before = matching_ids(shorter);
        let now = matching_ids(hits);
        if before.contains(id) {
            let i = choose|i: int|
                0 <= i < shorter.len() && (#[trigger] shorter[i]).matches && shorter[i].id == id;
            assert(hits[i].matches && hits[i].id == id);
            let k = choose|k: int| 0 <= k < before.len() && before[k] == id;
            assert(now[k] == id);
        } else {
            if now.contains(id) {
                let k = choose|k: int| 0 <= k < now.len() && now[k] == id;
                assert(k == before.len()) by {
                    if k < before.len() {
                        assert(before[k] == id);
                    }
                }
                assert(hits[last].matches && hits[last].id == id);
            }
            if exists|i: int| 0 <= i < hits.len() && (#[trigger] hits[i]).matches && hits[i].id == id {
                let i = choose|i: int|
                    0 <= i < hits.len() && (#[trigger] hits[i]).matches && hits[i].id == id;
                if i < last {
                    assert(shorter[i].matches && shorter[i].id == id);
                }
                assert(now.last() == id);
                assert(now.contains(id));
            }
        }
    }
}

/// Among the candidates of two rankings without repetitions an id that is in both of them has the
/// reciprocals of its two ranks, each plus sixty, for its terms; one that is in one of them alone
/// has only the one; and no candidate is in neither.
pub proof fn law_fused_by_sixty(
    items: Seq<FusedModel>,
    first: Seq<Seq<char>>,
    second: Seq<Seq<char>>,
    m: int,
)
    requires
        are_fused(items, seq![first, second], 60),
        0 <= m < items.len(),
        forall|a: int, b: int|
            0 <= a < b < first.len() ==> #[trigger] first[a] != #[trigger] first[b],
        forall|a: int, b: int|
            0 <= a < b < second.len() ==> #[trigger] second[a] != #[trigger] second[b],
    ensures
        forall|i: int, j: int|
            0 <= i < first.len() && 0 <= j < second.len() && #[trigger] first[i]
                == items[m].record_id && #[trigger] second[j] == items[m].record_id
                ==> items[m].terms == seq![61 + i, 61 + j],
        forall|i: int|
            0 <= i < first.len() && #[trigger] first[i] == items[m].record_id && !second.contains(
                items[m].record_id,
            ) ==> items[m].terms == seq![61 + i],
        forall|j: int|
            0 <= j < second.len() && #[trigger] second[j] == items[m].record_id && !first.contains(
                items[m].record_id,
            ) ==> items[m].terms == seq![61 + j],
        first.contains(items[m].record_id) || second.contains(items[m].record_id),
{
    let both = seq![first, second];
    let id = items[m].record_id;
    reveal_with_fuel(fusion_terms, 3);
    law_ranking_terms(first, first.len() as int, 60, id);
    law_ranking_terms(second, second.len() as int, 60, id);
    assert(both.drop_last() =~= seq![first]);
    assert(both.drop_last().drop_last() =~= Seq::empty());
    let x = ranking_terms(first, first.len() as int, 60, id);
    let y = ranking_terms(second, second.len() as int, 60, id);
    assert(items[m].terms =~= x + y);
    assert forall|i: int, j: int|
        0 <= i < first.len() && 0 <= j < second.len() && #[trigger] first[i] == id
            && #[trigger] second[j] == id implies items[m].terms == seq![61 + i, 61 + j] by {
        assert(items[m].terms =~= seq![61 + i, 61 + j]);
    }
    assert forall|i: int|
        0 <= i < first.len() && #[trigger] first[i] == id && !second.contains(id) implies items[m].terms
        == seq![61 + i] by {
        assert(items[m].terms =~= seq![61 + i]);
    }
    assert forall|j: int|
        0 <= j < second.len() && #[trigger] second[j] == id && !first.contains(id) implies items[m].terms
        == seq![61 + j] by {
        assert(items[m].terms =~= seq![61 + j]);
    }
}

/// The candidates of one ranking are its first ids in its order, each with its rank for its only
/// term.
pub proof fn law_single_ranking(ranking: Seq<Seq<char>>, limit: int)
    requires
        limit >= 0,
    ensures
        ({
            let items = ranked_places(ranking, limit);
            &&& items.len() == if ranking.len() < limit {
                ranking.len() as int
            } else {
                limit
            }
            &&& forall|i: int|
                0 <= i < items.len() ==> (#[trigger] items[i]).record_id == ranking[i]
                    && items[i].terms == seq![i + 1]
        }),
{
}

/// Whether a hit is the first one on a record.
pub open spec fn is_first_hit(hits: Seq<HitModel>, record_id: Seq<char>, k: int) -> bool {
    &&& 0 <= k < hits.len()
    &&& is_hit_on(hits[k], record_id)
    &&& forall|j: int| 0 <= j < k ==> !is_hit_on(#[trigger] hits[j], record_id)
}

/// A record is listed with the chunk of the first hit on it, of those on known chunks of records that
/// meet the filters; and it has none exactly where there is no such hit.
pub proof fn law_first_hit_is_shown(hits: Seq<HitModel>, record_id: Seq<char>)
    ensures
        first_chunk(accepted(hits), record_id) is None <==> forall|k: int|
            0 <= k < hits.len() ==> !is_hit_on(#[trigger] hits[k], record_id),
        forall|k: int| #[trigger]
            is_first_hit(hits, record_id, k) ==> first_chunk(accepted(hits), record_id) == Some(
                matched(hits[k]),
            ),
    decreases hits.len(),
{
    if hits.len() > 0 {
        let shorter = hits.drop_last();
        let last = hits.len() - 1;
        law_first_hit_is_shown(shorter, record_id);
        let before = accepted(shorter);
        let now = accepted(hits);
        if is_accepted(hits.last()) {
            assert(now.drop_last() =~= before);
        }
        assert forall|k: int| 0 <= k < shorter.len() implies #[trigger] shorter[k] == hits[k] by {}
        if first_chunk(before, record_id) is Some {
            let j = choose|j: int| 0 <= j < shorter.len() && is_hit_on(#[trigger] shorter[j], record_id);
            assert(is_hit_on(hits[j], record_id));
        }
        assert forall|k: int| #[trigger] is_first_hit(hits, record_id, k) implies first_chunk(
            now,
            record_id,
        ) == Some(matched(hits[k])) by {
            if k < last {
                assert forall|j: int| 0 <= j < k implies !is_hit_on(#[trigger] shorter[j], record_id) by {
                    assert(shorter[j] == hits[j]);
                }
                assert(shorter[k] == hits[k]);
                assert(is_first_hit(shorter, record_id, k));
            } else {
                assert forall|j: int| 0 <= j < shorter.len() implies !is_hit_on(
                    #[trigger] shorter[j],
                    record_id,
                ) by {
                    assert(shorter[j] == hits[j]);
                }
            }
        }
        if forall|k: int| 0 <= k < hits.len() ==> !is_hit_on(#[trigger] hits[k], record_id) {
            assert forall|k: int| 0 <= k < shorter.len() implies !is_hit_on(
                #[trigger] shorter[k],
                record_id,
            ) by {
                assert(shorter[k] == hits[k]);
            }
            assert(!is_hit_on(hits[last], record_id));
        }
        if first_chunk(now, record_id) is None {
            assert forall|k: int| 0 <= k < hits.len() implies !is_hit_on(
                #[trigger] hits[k],
                record_id,
            ) by {
                if k < last {
                    assert(shorter[k] == hits[k]);
                }
            }
        }
    }
}

} // verus!
