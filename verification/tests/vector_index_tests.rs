use hybrid_shared_core::chunking::PreparedChunk;
use hybrid_shared_core::order::Score;
use hybrid_shared_core::vector_index::{
    batches_to_embed, vector_items, HnswVectorIndex, Neighbour, VectorHit, VectorIndexError, VectorItem,
};

fn bytes(values: &[f32]) -> Vec<u8> {
    values.iter().flat_map(|v| v.to_ne_bytes()).collect()
}

fn item(id: &str, values: &[f32]) -> VectorItem {
    VectorItem { id: id.to_string(), vector: bytes(values) }
}

fn near(label: usize, distance: f32) -> Neighbour {
    Neighbour { label, distance: Score { bits: distance.to_bits() } }
}

fn index() -> HnswVectorIndex {
    HnswVectorIndex::build(2, &vec![item("a#0", &[1.0, 2.0]), item("契#1", &[3.0, 4.0])]).unwrap()
}

#[test]
fn an_index_holds_vectors_of_its_dimension() {
    let i = index();
    assert_eq!(i.dim, 2);
    assert_eq!(i.ids, vec!["a#0".to_string(), "契#1".to_string()]);
    assert_eq!(i.vectors[1], bytes(&[3.0, 4.0]));
    assert_eq!(i.searchable(), vec![0, 1]);
    let error = HnswVectorIndex::build(2, &vec![item("a", &[1.0, 2.0]), item("b", &[1.0])]);
    assert_eq!(error, Err(VectorIndexError::Dimension("b".to_string())));
    assert_eq!(
        VectorIndexError::Dimension("b".to_string()).message(),
        "vector dimension mismatch for `b`"
    );
    assert!(HnswVectorIndex::build(2, &Vec::new()).unwrap().ids.is_empty());
}

#[test]
fn an_index_is_read_as_it_was_written() {
    let (map, data) = index().save();
    assert_eq!(map, "0\ta#0\n1\t契#1\n");
    let mut expected = vec![2, 0, 0, 0];
    expected.extend(bytes(&[1.0, 2.0]));
    expected.extend(vec![2, 0, 0, 0]);
    expected.extend(bytes(&[3.0, 4.0]));
    assert_eq!(data, expected);
    assert_eq!(HnswVectorIndex::load(&map, &data, 2), Ok(index()));
    let other = HnswVectorIndex::load(&map, &data, 3).unwrap();
    assert!(other.searchable().is_empty());
}

#[test]
fn long_vectors_are_counted_in_four_bytes() {
    let values = vec![0.5f32; 70_000];
    let i = HnswVectorIndex::build(70_000, &vec![item("x", &values)]).unwrap();
    let (map, data) = i.save();
    assert_eq!(&data[0..4], &70_000u32.to_le_bytes());
    assert_eq!(HnswVectorIndex::load(&map, &data, 70_000), Ok(i));
}

#[test]
fn lines_may_end_in_many_ways() {
    let (_, data) = index().save();
    for map in ["0\ta\r\n1\tb\r\n", "0\ta\n\n1\tb", "x\n0\ta\n1\tb\n"] {
        let i = HnswVectorIndex::load(map, &data, 2).unwrap();
        assert_eq!(i.ids, vec!["a".to_string(), "b".to_string()]);
    }
    let i = HnswVectorIndex::load("0\ta\tb\n1\tc\r", &data, 2).unwrap();
    assert_eq!(i.ids, vec!["a\tb".to_string(), "c\r".to_string()]);
}

#[test]
fn a_damaged_index_is_refused() {
    let (map, data) = index().save();
    let cut = HnswVectorIndex::load(&map, &data[..data.len() - 1], 2);
    assert_eq!(cut, Err(VectorIndexError::CutShort));
    let few = HnswVectorIndex::load("0\ta\n", &data, 2);
    assert_eq!(few, Err(VectorIndexError::Count));
    let mut odd = data.clone();
    odd.extend(vec![1, 2, 3]);
    assert_eq!(HnswVectorIndex::load(&map, &odd, 2), Ok(index()));
    assert_eq!(VectorIndexError::CutShort.message(), "failed to fill whole buffer");
    assert_eq!(VectorIndexError::Count.message(), "HNSW snapshot id/vector count mismatch");
}

#[test]
fn a_search_needs_a_vector_of_the_dimension() {
    assert_eq!(index().search_width(2, 0), None);
    assert_eq!(index().search_width(3, 5), None);
    assert_eq!(index().search_width(2, 5), Some(32));
    assert_eq!(index().search_width(2, 50), Some(50));
}

#[test]
fn hits_come_nearest_first_and_once() {
    let mut i = index();
    i.ids.push("a#0".to_string());
    i.ids.push("z".to_string());
    let found = vec![near(1, 0.5), near(0, 0.25), near(2, 0.1), near(9, 0.0), near(3, 0.25)];
    assert_eq!(
        i.search(&found),
        vec![
            VectorHit { record_id: "a#0".to_string(), distance: near(0, 0.25).distance },
            VectorHit { record_id: "z".to_string(), distance: near(0, 0.25).distance },
            VectorHit { record_id: "契#1".to_string(), distance: near(0, 0.5).distance },
        ]
    );
    assert!(i.search(&Vec::new()).is_empty());
}

fn chunk(n: usize) -> PreparedChunk {
    PreparedChunk {
        chunk_id: format!("c{n}"),
        record_id: "r".to_string(),
        chunk_index: n,
        start_char: 0,
        end_char: 1,
        text: format!("t{n}"),
    }
}

#[test]
fn chunks_are_embedded_in_groups() {
    let sizes = |n: usize| -> Vec<usize> {
        batches_to_embed(&(0..n).map(chunk).collect()).iter().map(Vec::len).collect()
    };
    assert_eq!(sizes(0), Vec::<usize>::new());
    assert_eq!(sizes(3), vec![3]);
    assert_eq!(sizes(4), vec![4]);
    assert_eq!(sizes(9), vec![4, 4, 1]);
    let groups = batches_to_embed(&(0..5).map(chunk).collect());
    assert_eq!(groups.concat(), vec!["t0", "t1", "t2", "t3", "t4"]);
}

#[test]
fn chunks_come_with_their_vectors() {
    let chunks: Vec<PreparedChunk> = (0..2).map(chunk).collect();
    let vectors = vec![bytes(&[1.0]), bytes(&[2.0])];
    let items = vector_items(&chunks, &vectors);
    assert_eq!(items, vec![item("c0", &[1.0]), item("c1", &[2.0])]);
    assert_eq!(vector_items(&chunks, &vec![bytes(&[1.0])]).len(), 1);
    assert!(vector_items(&Vec::new(), &vectors).is_empty());
}

#[test]
fn a_vector_has_whole_components() {
    let mut odd = item("a", &[1.0, 2.0]);
    odd.vector.push(0);
    assert_eq!(
        HnswVectorIndex::build(2, &vec![odd]),
        Err(VectorIndexError::Dimension("a".to_string()))
    );
}
