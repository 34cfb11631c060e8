use gob::BufVec;

#[test]
fn example_three_chunks() {
    let mut bv = BufVec::new();
    bv.push(vec![0x01, 0x02]);
    bv.push(vec![]);
    bv.push(vec![0x03]);
    assert_eq!(bv.remaining(), 3);
    bv.advance(1);
    assert_eq!(bv.chunk(), &[0x02]);
    bv.advance(1);
    assert_eq!(bv.chunk(), &[0x03]);
    bv.advance(1);
    assert_eq!(bv.remaining(), 0);
    assert_eq!(bv.chunk(), &[] as &[u8]);
}

#[test]
fn empty_chunk_never_stored() {
    let mut bv = BufVec::new();
    bv.push(vec![]);
    assert_eq!(bv.remaining(), 0);
    assert_eq!(bv.gather(8).len(), 0);
}

#[test]
fn sequential_round_trip() {
    let chunks: Vec<Vec<u8>> = vec![vec![1, 2, 3], vec![], vec![4], vec![5, 6, 7, 8], vec![9]];
    let mut bv = BufVec::new();
    let mut expected = Vec::new();
    for c in chunks {
        expected.extend_from_slice(&c);
        bv.push(c);
    }
    assert_eq!(bv.remaining(), expected.len());
    let collected = bv.drain_to_vec();
    assert_eq!(collected, expected);
    assert_eq!(bv.remaining(), 0);
}

#[test]
fn manual_consumption_matches_concatenation() {
    let mut bv = BufVec::new();
    bv.push(vec![10, 20]);
    bv.push(vec![30]);
    bv.push(vec![40, 50, 60]);
    let mut collected = Vec::new();
    while bv.remaining() > 0 {
        let n;
        {
            let c = bv.chunk();
            collected.extend_from_slice(c);
            n = c.len();
        }
        bv.advance(n);
    }
    assert_eq!(collected, vec![10, 20, 30, 40, 50, 60]);
}

#[test]
fn gathered_round_trip_all_batch_sizes() {
    for batch in 1..7usize {
        let mut bv = BufVec::new();
        bv.push(vec![1, 2, 3]);
        bv.push(vec![4]);
        bv.push(vec![5, 6]);
        bv.push(vec![7, 8, 9, 10]);
        let collected = bv.drain_gathered(batch);
        assert_eq!(collected, vec![1, 2, 3, 4, 5, 6, 7, 8, 9, 10]);
        assert_eq!(bv.remaining(), 0);
    }
}

#[test]
fn gather_fills_descriptors_in_order() {
    let mut bv = BufVec::new();
    bv.push(vec![1, 2]);
    bv.push(vec![3]);
    bv.push(vec![4, 5]);
    let descs = bv.gather(2);
    assert_eq!(descs.len(), 2);
    assert_eq!(descs[0], &[1, 2]);
    assert_eq!(descs[1], &[3]);
    let all = bv.gather(8);
    assert_eq!(all.len(), 3);
    assert_eq!(all[2], &[4, 5]);
    assert_eq!(bv.remaining(), 5);
}

#[test]
fn gather_sees_front_cursor() {
    let mut bv = BufVec::new();
    bv.push(vec![1, 2, 3]);
    bv.push(vec![4]);
    bv.advance(2);
    let descs = bv.gather(8);
    assert_eq!(descs.len(), 2);
    assert_eq!(descs[0], &[3]);
    assert_eq!(descs[1], &[4]);
}

#[test]
fn advance_across_chunk_boundaries() {
    let mut bv = BufVec::new();
    bv.push(vec![1, 2]);
    bv.push(vec![3, 4, 5]);
    bv.push(vec![6]);
    bv.advance(4);
    assert_eq!(bv.remaining(), 2);
    assert_eq!(bv.drain_to_vec(), vec![5, 6]);
}
