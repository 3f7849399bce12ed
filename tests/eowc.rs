use eowc_window::executor::{
    Barrier, EowcOverWindowExecutor, EowcOverWindowExecutorArgs, EpochPair, ExecutorError,
    Message,
};
use eowc_window::memcmp::encode_projection;
use eowc_window::partition::Partition;
use eowc_window::state_key::StateKey;
use eowc_window::state_table::StateTable;
use eowc_window::window_state::{
    StateEvictHint, WindowError, WindowFuncCall, WindowFuncKind, WindowState,
};

const A: i64 = 101;
const B: i64 = 102;
const C: i64 = 103;
const D: i64 = 104;

fn barrier(curr: u64, prev: u64) -> Message {
    Message::Barrier(Barrier { epoch: EpochPair { curr, prev }, vnode_bitmap: None })
}

fn single_partition(kind: WindowFuncKind, table: StateTable) -> EowcOverWindowExecutor {
    EowcOverWindowExecutor::new(EowcOverWindowExecutorArgs {
        executor_id: 1,
        pk_indices: vec![0],
        input_width: 2,
        calls: vec![WindowFuncCall { kind, arg_index: 1 }],
        partition_key_indices: vec![],
        order_key_index: 0,
        input_pk_indices: vec![0],
        state_table: table,
    })
}

fn rows(pairs: &[(i64, i64)]) -> Vec<Vec<Option<i64>>> {
    pairs.iter().map(|&(k, v)| vec![Some(k), Some(v)]).collect()
}

fn chunk_out(r: Result<Option<Message>, ExecutorError>) -> Vec<Vec<Option<i64>>> {
    match r {
        Ok(Some(Message::Chunk(rows))) => rows,
        Ok(None) => vec![],
        Ok(Some(_)) => panic!("expected a chunk"),
        Err(e) => panic!("error {:?}", e),
    }
}

fn start(exec: &mut EowcOverWindowExecutor, epoch: u64) {
    match exec.handle_message(barrier(epoch, 0), 0) {
        Ok(Some(Message::Barrier(b))) => assert_eq!(b.epoch.curr, epoch),
        _ => panic!("first barrier not forwarded"),
    }
}

fn key(order: i64) -> StateKey {
    StateKey { order_key: order, encoded_pk: vec![0, order as u8] }
}

#[test]
fn lag_single_partition() {
    let mut exec = single_partition(WindowFuncKind::Lag { offset: 1 }, StateTable::new(vec![true]));
    start(&mut exec, 1);
    let out = chunk_out(exec.handle_message(Message::Chunk(rows(&[(1, A), (2, B), (3, C), (4, D)])), 0));
    assert_eq!(
        out,
        vec![
            vec![Some(1), Some(A), None],
            vec![Some(2), Some(B), Some(A)],
            vec![Some(3), Some(C), Some(B)],
            vec![Some(4), Some(D), Some(C)],
        ]
    );
}

#[test]
fn lead_single_partition() {
    let mut exec = single_partition(WindowFuncKind::Lead { offset: 1 }, StateTable::new(vec![true]));
    start(&mut exec, 1);
    let out = chunk_out(exec.handle_message(Message::Chunk(rows(&[(1, A), (2, B), (3, C), (4, D)])), 0));
    assert_eq!(
        out,
        vec![
            vec![Some(1), Some(A), Some(B)],
            vec![Some(2), Some(B), Some(C)],
            vec![Some(3), Some(C), Some(D)],
        ]
    );
    let more = chunk_out(exec.handle_message(Message::Chunk(rows(&[(5, 105)])), 0));
    assert_eq!(more, vec![vec![Some(4), Some(D), Some(105)]]);
}

#[test]
fn row_number_partitioned() {
    let (x, y) = (10i64, 20i64);
    let mut exec = EowcOverWindowExecutor::new(EowcOverWindowExecutorArgs {
        executor_id: 1,
        pk_indices: vec![0],
        input_width: 3,
        calls: vec![WindowFuncCall { kind: WindowFuncKind::RowNumber, arg_index: 0 }],
        partition_key_indices: vec![0],
        order_key_index: 1,
        input_pk_indices: vec![0, 1],
        state_table: StateTable::new(vec![true]),
    });
    start(&mut exec, 1);
    let input = vec![
        vec![Some(x), Some(1), Some(1)],
        vec![Some(y), Some(1), Some(2)],
        vec![Some(x), Some(2), Some(3)],
        vec![Some(y), Some(2), Some(4)],
    ];
    let out = chunk_out(exec.handle_message(Message::Chunk(input), 0));
    let px: Vec<_> = out.iter().filter(|r| r[0] == Some(x)).cloned().collect();
    let py: Vec<_> = out.iter().filter(|r| r[0] == Some(y)).cloned().collect();
    assert_eq!(px, vec![vec![Some(x), Some(1), Some(1), Some(1)], vec![Some(x), Some(2), Some(3), Some(2)]]);
    assert_eq!(py, vec![vec![Some(y), Some(1), Some(2), Some(1)], vec![Some(y), Some(2), Some(4), Some(2)]]);
    assert_eq!(exec.cached_partitions(), 2);
}

#[test]
fn checkpoint_and_recover() {
    let mut exec = single_partition(WindowFuncKind::Lag { offset: 1 }, StateTable::new(vec![true]));
    start(&mut exec, 1);
    let mut committed = chunk_out(exec.handle_message(Message::Chunk(rows(&[(1, A), (2, B)])), 0));
    assert!(matches!(exec.handle_message(barrier(2, 1), 0), Ok(Some(Message::Barrier(_)))));
    let lost = chunk_out(exec.handle_message(Message::Chunk(rows(&[(3, C)])), 0));
    assert_eq!(lost, vec![vec![Some(3), Some(C), Some(B)]]);
    // crash: only what the barrier committed survives
    let table = exec.state_table().restart();
    let mut exec = single_partition(WindowFuncKind::Lag { offset: 1 }, table);
    start(&mut exec, 2);
    committed.extend(chunk_out(exec.handle_message(Message::Chunk(rows(&[(3, C), (4, D)])), 0)));
    assert_eq!(
        committed,
        vec![
            vec![Some(1), Some(A), None],
            vec![Some(2), Some(B), Some(A)],
            vec![Some(3), Some(C), Some(B)],
            vec![Some(4), Some(D), Some(C)],
        ]
    );
}

#[test]
fn recovery_matches_single_pass() {
    let input = rows(&[(1, A), (2, B), (3, C), (4, D), (5, 105), (6, 106)]);
    let kind = WindowFuncKind::Sum { preceding: 1, following: 1 };
    let mut once = single_partition(kind, StateTable::new(vec![true]));
    start(&mut once, 1);
    let expected = chunk_out(once.handle_message(Message::Chunk(input.clone()), 0));
    let mut first = single_partition(kind, StateTable::new(vec![true]));
    start(&mut first, 1);
    let mut got = chunk_out(first.handle_message(Message::Chunk(input[..3].to_vec()), 0));
    assert!(matches!(first.handle_message(barrier(2, 1), 0), Ok(Some(_))));
    let mut second = single_partition(kind, first.state_table().restart());
    start(&mut second, 2);
    got.extend(chunk_out(second.handle_message(Message::Chunk(input[3..].to_vec()), 0)));
    assert_eq!(got, expected);
    assert_eq!(expected[0], vec![Some(1), Some(A), Some(A + B)]);
    assert_eq!(expected[1], vec![Some(2), Some(B), Some(A + B + C)]);
}

#[test]
fn lag_eviction_stays_bounded() {
    let mut exec = single_partition(WindowFuncKind::Lag { offset: 1 }, StateTable::new(vec![true]));
    start(&mut exec, 1);
    let empty_key = encode_projection(&vec![Some(0)], &vec![]);
    let mut emitted = 0usize;
    for i in 0..10_000i64 {
        emitted += chunk_out(exec.handle_message(Message::Chunk(rows(&[(i, i)])), 0)).len();
        assert!(exec.state_table().partition_len(&empty_key) <= 2);
    }
    assert_eq!(emitted, 10_000);
}

#[test]
fn vnode_update_clears_cache() {
    let (x, y) = (10i64, 20i64);
    let mut exec = EowcOverWindowExecutor::new(EowcOverWindowExecutorArgs {
        executor_id: 1,
        pk_indices: vec![0],
        input_width: 3,
        calls: vec![WindowFuncCall { kind: WindowFuncKind::Lead { offset: 1 }, arg_index: 2 }],
        partition_key_indices: vec![0],
        order_key_index: 1,
        input_pk_indices: vec![1],
        state_table: StateTable::new(vec![true, true]),
    });
    start(&mut exec, 1);
    let input = vec![vec![Some(x), Some(1), Some(1)], vec![Some(y), Some(1), Some(2)]];
    assert!(chunk_out(exec.handle_message(Message::Chunk(input), 0)).is_empty());
    assert_eq!(exec.cached_partitions(), 2);
    let b = Message::Barrier(Barrier { epoch: EpochPair { curr: 2, prev: 1 }, vnode_bitmap: Some(vec![true, false]) });
    assert!(matches!(exec.handle_message(b, 0), Ok(Some(Message::Barrier(_)))));
    assert_eq!(exec.cached_partitions(), 0);
    // the partitions come back from the state table on their next row
    let out = chunk_out(exec.handle_message(Message::Chunk(vec![vec![Some(x), Some(2), Some(3)]]), 0));
    assert_eq!(out, vec![vec![Some(x), Some(1), Some(1), Some(3)]]);
}

#[test]
fn same_bitmap_keeps_cache() {
    let mut exec = single_partition(WindowFuncKind::Lead { offset: 1 }, StateTable::new(vec![true]));
    start(&mut exec, 1);
    assert!(chunk_out(exec.handle_message(Message::Chunk(rows(&[(1, A)])), 0)).is_empty());
    let b = Message::Barrier(Barrier { epoch: EpochPair { curr: 2, prev: 1 }, vnode_bitmap: Some(vec![true]) });
    assert!(matches!(exec.handle_message(b, 0), Ok(Some(_))));
    assert_eq!(exec.cached_partitions(), 1);
}

#[test]
fn watermark_evicts_untouched_partitions() {
    let mut exec = single_partition(WindowFuncKind::Lead { offset: 1 }, StateTable::new(vec![true]));
    start(&mut exec, 1);
    assert!(chunk_out(exec.handle_message(Message::Chunk(rows(&[(1, A)])), 0)).is_empty());
    assert!(matches!(exec.handle_message(barrier(2, 1), 2), Ok(Some(_))));
    assert_eq!(exec.cached_partitions(), 0);
    let out = chunk_out(exec.handle_message(Message::Chunk(rows(&[(2, B)])), 0));
    assert_eq!(out, vec![vec![Some(1), Some(A), Some(B)]]);
}

#[test]
fn first_message_must_be_barrier() {
    let mut exec = single_partition(WindowFuncKind::RowNumber, StateTable::new(vec![true]));
    let r = exec.handle_message(Message::Chunk(rows(&[(1, A)])), 0);
    assert!(matches!(r, Err(ExecutorError::FirstMessageNotBarrier)));
    let r = exec.handle_message(Message::Watermark(3), 0);
    assert!(matches!(r, Err(ExecutorError::FirstMessageNotBarrier)));
}

#[test]
fn watermark_is_ignored() {
    let mut exec = single_partition(WindowFuncKind::RowNumber, StateTable::new(vec![true]));
    start(&mut exec, 1);
    assert!(matches!(exec.handle_message(Message::Watermark(7), 0), Ok(None)));
}

#[test]
fn null_order_key_fails() {
    let mut exec = single_partition(WindowFuncKind::RowNumber, StateTable::new(vec![true]));
    start(&mut exec, 1);
    let r = exec.handle_message(Message::Chunk(vec![vec![None, Some(1)]]), 0);
    assert!(matches!(r, Err(ExecutorError::NullOrderKey)));
}

#[test]
fn descending_order_key_fails() {
    let mut exec = single_partition(WindowFuncKind::Lead { offset: 1 }, StateTable::new(vec![true]));
    start(&mut exec, 1);
    let r = exec.handle_message(Message::Chunk(rows(&[(5, A), (4, B)])), 0);
    assert!(matches!(r, Err(ExecutorError::OrderKeyNotAscending)));
}

#[test]
fn wrong_row_width_fails() {
    let mut exec = single_partition(WindowFuncKind::RowNumber, StateTable::new(vec![true]));
    start(&mut exec, 1);
    let r = exec.handle_message(Message::Chunk(vec![vec![Some(1)]]), 0);
    assert!(matches!(r, Err(ExecutorError::RowWidthMismatch)));
}

#[test]
fn sum_overflow_fails() {
    let mut exec = single_partition(WindowFuncKind::Sum { preceding: 1, following: 0 }, StateTable::new(vec![true]));
    start(&mut exec, 1);
    let r = exec.handle_message(Message::Chunk(rows(&[(1, i64::MAX), (2, 1)])), 0);
    assert!(matches!(r, Err(ExecutorError::Window(WindowError::Overflow))));
}

#[test]
fn sum_of_nulls_is_null() {
    let mut exec = single_partition(WindowFuncKind::Sum { preceding: 2, following: 0 }, StateTable::new(vec![true]));
    start(&mut exec, 1);
    let out = chunk_out(exec.handle_message(Message::Chunk(vec![vec![Some(1), None], vec![Some(2), Some(-4)]]), 0));
    assert_eq!(out, vec![vec![Some(1), None, None], vec![Some(2), Some(-4), Some(-4)]]);
}

#[test]
fn output_never_exceeds_input() {
    let mut exec = single_partition(WindowFuncKind::Lead { offset: 2 }, StateTable::new(vec![true]));
    start(&mut exec, 1);
    let mut inputs = 0usize;
    let mut outputs = 0usize;
    for i in 0..20i64 {
        inputs += 1;
        outputs += chunk_out(exec.handle_message(Message::Chunk(rows(&[(i, i)])), 0)).len();
        assert!(outputs <= inputs);
    }
    assert_eq!(outputs, 18);
}

#[test]
fn window_state_lag_lead_row_number() {
    let mut lag = WindowState::new(WindowFuncKind::Lag { offset: 2 });
    let mut lead = WindowState::new(WindowFuncKind::Lead { offset: 1 });
    let mut rn = WindowState::new(WindowFuncKind::RowNumber);
    for i in 1..=3i64 {
        lag.append(key(i), Some(i * 10));
        lead.append(key(i), Some(i * 10));
        rn.append(key(i), None);
    }
    assert!(lag.is_ready());
    assert_eq!(lag.curr_output(), Ok(None));
    lag.slide_forward();
    lag.slide_forward();
    assert_eq!(lag.curr_output(), Ok(Some(10)));
    assert_eq!(lead.curr_output(), Ok(Some(20)));
    lead.slide_forward();
    lead.slide_forward();
    assert!(!lead.is_ready());
    let w = lead.curr_window();
    assert_eq!(w.key.map(|k| k.order_key), Some(3));
    rn.slide_forward();
    assert_eq!(rn.curr_output(), Ok(Some(2)));
}

#[test]
fn window_state_evict_hint() {
    let mut lag = WindowState::new(WindowFuncKind::Lag { offset: 1 });
    lag.append(key(1), Some(1));
    lag.append(key(2), Some(2));
    match lag.slide_forward() {
        StateEvictHint::CanEvict(keys) => assert!(keys.is_empty()),
        StateEvictHint::CannotEvict => panic!("lag can evict"),
    }
    match lag.slide_forward() {
        StateEvictHint::CanEvict(keys) => {
            assert_eq!(keys.len(), 1);
            assert_eq!(keys[0].order_key, 1);
        }
        StateEvictHint::CannotEvict => panic!("lag can evict"),
    }
    assert_eq!(lag.retained_len(), 1);
}

#[test]
fn evict_hint_merge_intersects() {
    let a = StateEvictHint::CanEvict(vec![key(1), key(2), key(3)]);
    let b = StateEvictHint::CanEvict(vec![key(2), key(3), key(4)]);
    match a.merge(b) {
        StateEvictHint::CanEvict(keys) => {
            let ks: Vec<i64> = keys.iter().map(|k| k.order_key).collect();
            assert_eq!(ks, vec![2, 3]);
        }
        StateEvictHint::CannotEvict => panic!("both can evict"),
    }
    let c = StateEvictHint::CanEvict(vec![key(1)]);
    assert!(matches!(c.merge(StateEvictHint::CannotEvict), StateEvictHint::CannotEvict));
}

#[test]
fn partition_lock_step() {
    let calls = vec![
        WindowFuncCall { kind: WindowFuncKind::Lag { offset: 1 }, arg_index: 1 },
        WindowFuncCall { kind: WindowFuncKind::Lead { offset: 1 }, arg_index: 1 },
    ];
    let mut p = Partition::new(&calls);
    assert!(p.is_aligned());
    assert!(!p.is_ready());
    p.ingest(key(1), vec![Some(1), Some(A)]);
    assert!(p.is_aligned());
    assert!(!p.is_ready());
    p.ingest(key(2), vec![Some(2), Some(B)]);
    let out = p.drain_ready().unwrap();
    assert_eq!(out.len(), 1);
    assert_eq!(out[0].row, vec![Some(1), Some(A)]);
    assert_eq!(out[0].outputs, vec![None, Some(B)]);
    assert!(p.is_aligned());
    assert_eq!(p.buffered_len(), 1);
}

#[test]
fn encoding_orders_and_separates() {
    let a = encode_projection(&vec![Some(-1), None], &vec![0]);
    let b = encode_projection(&vec![Some(1), None], &vec![0]);
    let n = encode_projection(&vec![Some(1), None], &vec![1]);
    assert_eq!(a, vec![0, 0x7f, 0xff, 0xff, 0xff, 0xff, 0xff, 0xff, 0xff]);
    assert_eq!(b, vec![0, 0x80, 0, 0, 0, 0, 0, 0, 1]);
    assert_eq!(n, vec![1]);
    assert!(a < b && b < n);
    let ka = StateKey { order_key: 1, encoded_pk: a.clone() };
    let kb = StateKey { order_key: 1, encoded_pk: b };
    assert!(ka.less_than(&kb));
    assert!(!kb.less_than(&ka));
    assert!(ka.same_as(&StateKey { order_key: 1, encoded_pk: a }));
}

#[test]
fn partition_heap_estimate() {
    let calls = vec![WindowFuncCall { kind: WindowFuncKind::Lag { offset: 1 }, arg_index: 1 }];
    let mut p = Partition::new(&calls);
    assert_eq!(p.estimated_heap_size(), 0);
    p.ingest(key(1), vec![Some(1), Some(A)]);
    assert_eq!(p.estimated_heap_size(), 2 * 16 + 48);
    let out = p.drain_ready().unwrap();
    assert_eq!(out.len(), 1);
    assert_eq!(p.estimated_heap_size(), 48);
}

#[test]
fn row_number_survives_restart() {
    let mut exec = single_partition(WindowFuncKind::RowNumber, StateTable::new(vec![true]));
    start(&mut exec, 1);
    let out = chunk_out(exec.handle_message(Message::Chunk(rows(&[(1, A), (2, B)])), 0));
    assert_eq!(out, vec![vec![Some(1), Some(A), Some(1)], vec![Some(2), Some(B), Some(2)]]);
    assert!(matches!(exec.handle_message(barrier(2, 1), 0), Ok(Some(_))));
    let mut exec = single_partition(WindowFuncKind::RowNumber, exec.state_table().restart());
    start(&mut exec, 2);
    let out = chunk_out(exec.handle_message(Message::Chunk(rows(&[(3, C)])), 0));
    assert_eq!(out, vec![vec![Some(3), Some(C), Some(3)]]);
}

#[test]
fn row_number_survives_cache_clear() {
    let mut exec = single_partition(WindowFuncKind::RowNumber, StateTable::new(vec![true, true]));
    start(&mut exec, 1);
    let out = chunk_out(exec.handle_message(Message::Chunk(rows(&[(1, A), (2, B)])), 0));
    assert_eq!(out.len(), 2);
    let b = Message::Barrier(Barrier { epoch: EpochPair { curr: 2, prev: 1 }, vnode_bitmap: Some(vec![true, false]) });
    assert!(matches!(exec.handle_message(b, 0), Ok(Some(_))));
    assert_eq!(exec.cached_partitions(), 0);
    let out = chunk_out(exec.handle_message(Message::Chunk(rows(&[(3, C), (4, D)])), 0));
    assert_eq!(out, vec![vec![Some(3), Some(C), Some(3)], vec![Some(4), Some(D), Some(4)]]);
}

#[test]
fn executor_output_width() {
    let exec = single_partition(WindowFuncKind::RowNumber, StateTable::new(vec![true]));
    assert_eq!(exec.output_width(), 3);
}
