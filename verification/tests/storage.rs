use arbiter::bytes::{u64_read_le, u64_to_le};
use arbiter::column::Column;
use arbiter::generation::{Generation, GenerationalIndex};
use arbiter::store::{Blocks, StoreError};
use arbiter::tick::Tick;

const BLOCK_SIZE: usize = 1024 * 1024;

#[test]
fn append_monotonicity() {
    let mut b = Blocks::new();
    assert_eq!(b.len(), 0);
    b.extend_from_slice(&[1, 2, 3]);
    assert_eq!(b.len(), 3);
    b.extend_zeroed(5);
    assert_eq!(b.len(), 8);
    b.extend_from_slice(&[4; 10]);
    assert_eq!(b.len(), 18);
}

#[test]
fn write_read_roundtrip_bytes() {
    let mut b = Blocks::from_contents(vec![0; 100]);
    b.set(10, &[7, 8, 9]);
    assert_eq!(b.get(10, 13), vec![7, 8, 9]);
    assert_eq!(b.get(9, 10), vec![0]);
    assert_eq!(b.get(13, 14), vec![0]);
}

#[test]
fn read_past_length_within_capacity() {
    let mut b = Blocks::new();
    b.extend_from_slice(&[1, 2, 3]);
    assert_eq!(b.get(3, 8), vec![0, 0, 0, 0, 0]);
}

#[test]
fn extend_zeroed_zeroes_previously_written_bytes() {
    let mut b = Blocks::new();
    b.extend_from_slice(&[1]);
    b.set(1, &[9, 9]);
    b.extend_zeroed(2);
    assert_eq!(b.len(), 3);
    assert_eq!(b.get(0, 3), vec![1, 0, 0]);
}

#[test]
fn open_with_existing_contents() {
    let b = Blocks::from_contents(vec![9, 8, 7]);
    assert_eq!(b.len(), 3);
    assert_eq!(b.get(0, 3), vec![9, 8, 7]);
    assert_eq!(b.content(), vec![9, 8, 7]);
}

#[test]
fn tick_counter() {
    let mut t = Tick::zero();
    assert_eq!(t.get(), 0);
    let t1 = t.next();
    assert_eq!(t1.get(), 1);
    assert_eq!(t.get(), 1);
    t.inc();
    assert_eq!(t.get(), 2);
    assert_eq!(Tick::new(41).get(), 41);
}

#[test]
fn generation_parity() {
    let g0 = Generation::zero();
    assert!(g0.is_dead());
    let g1 = g0.next();
    assert_eq!(g1.get(), 1);
    assert!(!g1.is_dead());
    let mut g = g1;
    g.advance();
    assert_eq!(g.get(), 2);
    assert!(g.is_dead());
    let handle = GenerationalIndex { generation: g1, index: 0 };
    assert!(!handle.is_dead());
}

#[test]
fn little_endian_codec() {
    let bytes = u64_to_le(0x0102030405060708);
    assert_eq!(bytes, vec![0x08, 0x07, 0x06, 0x05, 0x04, 0x03, 0x02, 0x01]);
    assert_eq!(u64_read_le(&bytes, 0), 0x0102030405060708);
}

#[test]
fn column_append_and_get() {
    let mut c: Column<u32> = Column::new();
    let (start, end) = c.append(&vec![5, 6, 7]);
    assert_eq!((start, end), (0, 3));
    assert_eq!(c.len(), 3);
    assert_eq!(c.get(0, 3), vec![5, 6, 7]);
    let (s2, e2) = c.append(&vec![8]);
    assert_eq!((s2, e2), (3, 4));
    assert_eq!(c.get_row(3), 8);
}

#[test]
fn column_write_read_roundtrip() {
    let mut c: Column<u32> = Column::new();
    c.append(&vec![1, 2, 3]);
    c.set_row(1, 42);
    assert_eq!(c.get_row(1), 42);
    assert_eq!(c.get(0, 3), vec![1, 42, 3]);
}

#[test]
fn column_remove_zeroes_rows() {
    let mut c: Column<u32> = Column::new();
    c.append(&vec![10, 11, 12]);
    c.remove(0, 2);
    assert_eq!(c.len(), 3);
    assert_eq!(c.get(0, 3), vec![0, 0, 12]);
}

#[test]
fn checkpoint_then_restore_is_noop() {
    let mut c: Column<u32> = Column::new();
    c.append(&vec![5, 6]);
    c.sync(Tick::new(1));
    let before = c.content();
    assert_eq!(c.restore(Tick::new(1)), Ok(()));
    assert_eq!(c.content(), before);
    assert_eq!(c.get(0, 2), vec![5, 6]);
}

#[test]
fn restore_undoes_to_checkpointed_state() {
    let mut c: Column<u32> = Column::new();
    c.append(&vec![5]);
    c.sync(Tick::new(1));
    c.set_row(0, 9);
    c.sync(Tick::new(2));
    assert_eq!(c.get_row(0), 9);
    assert_eq!(c.restore(Tick::new(1)), Ok(()));
    assert_eq!(c.get_row(0), 5);
}

#[test]
fn restore_after_several_checkpoints() {
    let mut c: Column<u32> = Column::new();
    c.append(&vec![1]);
    c.sync(Tick::new(1));
    c.set_row(0, 2);
    c.sync(Tick::new(2));
    c.set_row(0, 3);
    c.sync(Tick::new(3));
    assert_eq!(c.restore(Tick::new(2)), Ok(()));
    assert_eq!(c.get_row(0), 2);
    // A restore leaves the undone blocks dirty; checkpointing them keeps
    // the journal coherent, so a further restore can reach earlier ticks.
    c.sync(Tick::new(4));
    assert_eq!(c.restore(Tick::new(1)), Ok(()));
    assert_eq!(c.get_row(0), 1);
}

#[test]
fn restore_unknown_tick_is_an_error() {
    let mut c: Column<u32> = Column::new();
    c.append(&vec![5]);
    c.sync(Tick::new(5));
    assert_eq!(c.restore(Tick::new(7)), Err(StoreError::TickNotFound));
    assert_eq!(c.restore(Tick::new(2)), Err(StoreError::TickNotFound));
    assert_eq!(c.get_row(0), 5);
}

#[test]
fn restore_truncated_journal_is_an_error() {
    let mut c: Column<u32> = Column::new();
    c.append(&vec![1]);
    c.sync(Tick::new(1));
    c.set_row(0, 2);
    c.sync(Tick::new(2));
    let data = c.content();
    let mut journal = c.journal_bytes();
    journal.pop();
    let mut reopened: Column<u32> = match Column::from_parts(data, journal) {
        Ok(c2) => c2,
        Err(e) => panic!("reopen failed: {e:?}"),
    };
    assert_eq!(reopened.restore(Tick::new(1)), Err(StoreError::CorruptJournal));
    assert_eq!(reopened.get_row(0), 2);
}

#[test]
fn open_misaligned_data_is_an_error() {
    let r: Result<Column<u32>, StoreError> = Column::from_parts(vec![1, 2, 3], Vec::new());
    match r {
        Ok(_) => panic!("misaligned data was accepted"),
        Err(e) => assert_eq!(e, StoreError::MisalignedLength),
    }
}

#[test]
fn column_persistence_roundtrip() {
    let mut c: Column<u32> = Column::new();
    c.append(&vec![5]);
    c.sync(Tick::new(1));
    c.set_row(0, 9);
    c.sync(Tick::new(2));
    let mut reopened: Column<u32> = match Column::from_parts(c.content(), c.journal_bytes()) {
        Ok(c2) => c2,
        Err(e) => panic!("reopen failed: {e:?}"),
    };
    assert_eq!(reopened.len(), 1);
    assert_eq!(reopened.get_row(0), 9);
    assert_eq!(reopened.restore(Tick::new(1)), Ok(()));
    assert_eq!(reopened.get_row(0), 5);
}

fn delta_body(entries: &[(usize, u8)]) -> Vec<u8> {
    let mut body = u64_to_le(0);
    let mut payload = vec![0u8; BLOCK_SIZE];
    for (offset, delta) in entries {
        payload[*offset] = *delta;
    }
    body.extend_from_slice(&payload);
    body
}

#[test]
fn replay_order_does_not_matter() {
    let contents = vec![100, 200, 30];
    let body_a = delta_body(&[(0, 1), (2, 5)]);
    let body_b = delta_body(&[(0, 2), (1, 250)]);

    let mut first = Blocks::from_contents(contents.clone());
    first.apply(&body_a);
    first.apply(&body_b);

    let mut second = Blocks::from_contents(contents);
    second.apply(&body_b);
    second.apply(&body_a);

    assert_eq!(first.get(0, 3), second.get(0, 3));
    assert_eq!(first.get(0, 3), vec![103, 194, 35]);
}

#[test]
fn deltas_wrap_per_byte() {
    let mut b = Blocks::from_contents(vec![255, 0]);
    b.apply(&delta_body(&[(0, 1), (1, 255)]));
    assert_eq!(b.get(0, 2), vec![0, 255]);
}
