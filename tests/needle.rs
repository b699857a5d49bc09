use calculate_distances::{make_aligner, Aligner, Dir, EncodingError};

fn strip(s: &str) -> String {
    s.chars().filter(|c| *c != '-').collect()
}

#[test]
fn align_with_end_gap() {
    let aligner = Aligner::default();
    let r = aligner.align_to_str("ab", "b");
    assert_eq!(r, Ok(("ab".to_string(), "-b".to_string())));
    let r = aligner.align_to_str("b", "ab");
    assert_eq!(r, Ok(("-b".to_string(), "ab".to_string())));
}

#[test]
fn align_equal_lengths_is_diagonal() {
    let aligner = Aligner::default();
    let r = aligner.align_to_str("foo", "bar");
    assert_eq!(r, Ok(("foo".to_string(), "bar".to_string())));
}

#[test]
fn align_empty_inputs() {
    let aligner = Aligner::default();
    assert_eq!(aligner.align_to_str("", ""), Ok((String::new(), String::new())));
    assert_eq!(
        aligner.align_to_str("acg", ""),
        Ok(("acg".to_string(), "---".to_string()))
    );
    assert_eq!(
        aligner.align_to_str("", "ac"),
        Ok(("--".to_string(), "ac".to_string()))
    );
}

#[test]
fn aligned_rows_keep_sequences() {
    let aligner = Aligner::default();
    let cases = [
        ("acgtacgt", "acgacgt"),
        ("gattaca", "tacgat"),
        ("a", "ccccccc"),
        ("ttttt", "t"),
    ];
    for (t, q) in cases.iter() {
        let (x, y) = aligner.align_to_str(t, q).unwrap();
        assert_eq!(x.len(), y.len());
        assert!(x.len() >= t.len().max(q.len()));
        assert_eq!(strip(&x), *t);
        assert_eq!(strip(&y), *q);
    }
}

#[test]
fn alignment_is_deterministic() {
    let aligner = make_aligner(2, -3, -1, -1, -7, -2);
    let first = aligner.align_to_str("acgtgca", "actgca");
    let second = aligner.align_to_str("acgtgca", "actgca");
    assert_eq!(first, second);
    let g1 = aligner.align(b"acgt", b"agt");
    let g2 = aligner.align(b"acgt", b"agt");
    for i in 0..5 {
        for j in 0..4 {
            assert_eq!(g1.get(i, j), g2.get(i, j));
        }
    }
}

#[test]
fn role_swap_transposes() {
    let aligner = Aligner::default();
    let (x, y) = aligner.align_to_str("ab", "b").unwrap();
    let (y2, x2) = aligner.align_to_str("b", "ab").unwrap();
    assert_eq!((x, y), (x2, y2));
    let g = aligner.align(b"ab", b"b");
    let h = aligner.align(b"b", b"ab");
    for i in 0..3 {
        for j in 0..2 {
            let c = g.get(i, j);
            let d = h.get(j, i);
            assert_eq!(c.score, d.score);
            let flipped = match c.dir {
                Dir::Up => Dir::Left,
                Dir::Left => Dir::Up,
                Dir::Diagonal => Dir::Diagonal,
            };
            assert_eq!(flipped, d.dir);
        }
    }
}

#[test]
fn role_swap_breaks_on_tie() {
    // left and up tie at -4 and beat the diagonal at -10: up wins both times
    let aligner = make_aligner(1, -10, -2, -1, -100, -10);
    let forward = aligner.align_to_str("a", "b").unwrap();
    let backward = aligner.align_to_str("b", "a").unwrap();
    assert_eq!(forward, ("a-".to_string(), "-b".to_string()));
    assert_eq!(backward, ("b-".to_string(), "-a".to_string()));
}

#[test]
fn table_cells() {
    let aligner = Aligner::default();
    let g = aligner.align(b"ab", b"b");
    assert_eq!(g.column_count(), 3);
    assert_eq!(g.row_count(), 2);
    assert_eq!(g.get(0, 0).score, 0);
    assert_eq!(g.get(1, 0).dir, Dir::Left);
    assert_eq!(g.get(1, 0).score, -2);
    assert_eq!(g.get(2, 0).score, -3);
    assert_eq!(g.get(0, 1).dir, Dir::Up);
    assert_eq!(g.get(1, 1).dir, Dir::Diagonal);
    assert_eq!(g.get(1, 1).score, -1);
    assert_eq!(g.get(2, 1).score, -1);
}

#[test]
fn align_bytes_rows() {
    let aligner = Aligner::default();
    let (x, y) = aligner.align_bytes(b"ab", b"b");
    assert_eq!(x, b"ab".to_vec());
    assert_eq!(y, b"-b".to_vec());
}

#[test]
fn encoding_error_variants_differ() {
    assert_ne!(EncodingError::Target, EncodingError::Query);
    let aligner = Aligner::default();
    // whole characters stay whole when nothing splits them
    assert_eq!(
        aligner.align_to_str("\u{e9}", ""),
        Ok(("\u{e9}".to_string(), "--".to_string()))
    );
}
