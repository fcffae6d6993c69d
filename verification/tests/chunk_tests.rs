use bbsg_a08::chunk::{chunk_size, pieces, work_pieces};

#[test]
fn chunk_size_rounds_up() {
    assert_eq!(chunk_size(0, 10), 0);
    assert_eq!(chunk_size(1, 10), 1);
    assert_eq!(chunk_size(10, 10), 1);
    assert_eq!(chunk_size(11, 10), 2);
    assert_eq!(chunk_size(95, 10), 10);
    assert_eq!(chunk_size(usize::MAX, 2), usize::MAX / 2 + 1);
}

#[test]
fn pieces_like_chunks() {
    let data: Vec<u32> = (0..23).collect();
    for sz in 1..30 {
        let expected: Vec<(usize, usize)> = {
            let mut v = vec![];
            let mut s = 0;
            for c in data.chunks(sz) {
                v.push((s, s + c.len()));
                s += c.len();
            }
            v
        };
        assert_eq!(pieces(data.len(), sz), expected);
    }
    assert!(pieces(0, 3).is_empty());
}

#[test]
fn work_pieces_never_exceed_workers() {
    assert_eq!(work_pieces(11, 10), vec![(0, 2), (2, 4), (4, 6), (6, 8), (8, 10), (10, 11)]);
    assert_eq!(work_pieces(81, 10).len(), 9);
    assert_eq!(work_pieces(91, 10).len(), 10);
    for n in 1..300 {
        let p = work_pieces(n, 10);
        assert!(p.len() <= 10);
        assert_eq!(p[0].0, 0);
        assert_eq!(p[p.len() - 1].1, n);
    }
}
