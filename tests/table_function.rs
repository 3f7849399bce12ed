use eowc_window::table_function::{OutputChunk, TableFunctionOutputIter};

fn chunk(rows: &[(usize, i64)]) -> OutputChunk {
    OutputChunk {
        indices: rows.iter().map(|r| r.0).collect(),
        values: rows.iter().map(|r| Some(r.1)).collect(),
    }
}

#[test]
fn output_iter_walks_chunks() {
    let mut chunks = vec![chunk(&[(2, 2), (3, 3)])].into_iter();
    let mut iter = TableFunctionOutputIter::new(Some(chunk(&[(0, 0), (1, 1)])));
    for i in 0..4usize {
        assert_eq!(iter.peek(), Some((i, Some(i as i64))));
        if iter.next() {
            iter.refill(chunks.next());
        }
    }
    assert_eq!(iter.peek(), None);
    assert!(!iter.next());
}

#[test]
fn output_iter_empty_stream() {
    let iter = TableFunctionOutputIter::new(None);
    assert_eq!(iter.peek(), None);
}
