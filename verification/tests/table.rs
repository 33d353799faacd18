use arbiter::generation::{Generation, GenerationalIndex};
use arbiter::record::Vec3Bits;
use arbiter::store::StoreError;
use arbiter::table::Table;
use arbiter::tick::Tick;

fn handle(generation: u64, index: usize) -> GenerationalIndex {
    GenerationalIndex { generation: Generation::new(generation), index }
}

#[test]
fn concrete_scenario() {
    let mut t: Table<u32> = Table::new(1);
    let h = t.insert(&vec![5]);
    assert_eq!(h.generation.get(), 1);
    assert_eq!(h.index, 0);
    t.sync(Tick::new(1));
    t.write_attribute(0, 0, &vec![9]);
    t.sync(Tick::new(2));
    assert_eq!(t.restore(Tick::new(1)), Ok(()));
    assert_eq!(t.read_attribute(0, 0), 5);
    assert!(t.remove(handle(1, 0)));
    let h2 = t.insert(&vec![7]);
    assert_eq!(h2.generation.get(), 3);
    assert_eq!(h2.index, 0);
    assert_eq!(t.read_attribute(0, 0), 7);
}

#[test]
fn slot_parity_follows_generation() {
    let mut t: Table<u32> = Table::new(1);
    let h = t.insert(&vec![1]);
    assert!(!t.is_dead(0));
    assert_eq!(t.generation(0).get() % 2, 1);
    assert!(t.remove(h));
    assert!(t.is_dead(0));
    assert_eq!(t.generation(0).get() % 2, 0);
    t.insert(&vec![2]);
    assert!(!t.is_dead(0));
    assert_eq!(t.generation(0).get() % 2, 1);
}

#[test]
fn stale_handle_never_mutates() {
    let mut t: Table<u32> = Table::new(1);
    let first = t.insert(&vec![10]);
    assert!(t.remove(first));
    let second = t.insert(&vec![20]);
    assert_eq!(second.index, first.index);
    assert!(second.generation.get() > first.generation.get());

    assert!(!t.remove(first));
    assert_eq!(t.read_attribute(0, 0), 20);
    assert_eq!(t.generation(0).get(), second.generation.get());
    assert!(!t.is_dead(0));
}

#[test]
fn double_free_is_rejected() {
    let mut t: Table<u32> = Table::new(1);
    let h = t.insert(&vec![1]);
    assert!(t.remove(h));
    assert!(!t.remove(h));
    assert!(t.is_dead(0));
}

#[test]
fn remove_out_of_range_or_dead_handle() {
    let mut t: Table<u32> = Table::new(1);
    t.insert(&vec![1]);
    assert!(!t.remove(handle(1, 5)));
    assert!(!t.remove(handle(2, 0)));
    assert_eq!(t.read_attribute(0, 0), 1);
}

#[test]
fn freed_slots_are_recycled() {
    let mut t: Table<u32> = Table::new(1);
    let a = t.insert(&vec![1]);
    let b = t.insert(&vec![2]);
    assert_eq!((a.index, b.index), (0, 1));
    assert_eq!(t.len(), 2);
    assert!(t.remove(a));
    let c = t.insert(&vec![3]);
    assert_eq!(c.index, 0);
    assert_eq!(c.generation.get(), 3);
    assert_eq!(t.len(), 2);
    let d = t.insert(&vec![4]);
    assert_eq!(d.index, 2);
    assert_eq!(t.len(), 3);
}

#[test]
fn several_attribute_columns() {
    let mut t: Table<u32> = Table::new(3);
    assert_eq!(t.num_attributes(), 3);
    let h = t.insert(&vec![7, 8, 9]);
    assert_eq!(t.read_attribute(0, h.index), 7);
    assert_eq!(t.read_attribute(1, h.index), 8);
    assert_eq!(t.read_attribute(2, h.index), 9);
    t.write_attribute(1, 0, &vec![80]);
    assert_eq!(t.read_attribute(0, 0), 7);
    assert_eq!(t.read_attribute(1, 0), 80);
    assert_eq!(t.read_attribute_range(2, 0, 1), vec![9]);
}

#[test]
fn reopening_rebuilds_the_free_list() {
    let mut t: Table<u32> = Table::new(1);
    t.insert(&vec![1]);
    let b = t.insert(&vec![2]);
    t.insert(&vec![3]);
    assert!(t.remove(b));
    let (gen_data, gen_history, parts) = t.export();
    let mut reopened: Table<u32> = match Table::from_parts(gen_data, gen_history, parts) {
        Ok(t2) => t2,
        Err(e) => panic!("reopen failed: {e:?}"),
    };
    assert_eq!(reopened.len(), 3);
    assert!(reopened.is_dead(1));
    let h = reopened.insert(&vec![4]);
    assert_eq!(h.index, 1);
    assert_eq!(reopened.len(), 3);
    assert_eq!(reopened.read_attribute(0, 1), 4);
}

#[test]
fn reopening_mismatched_columns_is_an_error() {
    let mut t: Table<u32> = Table::new(1);
    t.insert(&vec![1]);
    let (gen_data, gen_history, mut parts) = t.export();
    parts[0].0.extend_from_slice(&[0, 0, 0, 0]);
    let r: Result<Table<u32>, StoreError> = Table::from_parts(gen_data, gen_history, parts);
    match r {
        Ok(_) => panic!("mismatched columns were accepted"),
        Err(e) => assert_eq!(e, StoreError::MisalignedLength),
    }
}

#[test]
fn table_restore_rebuilds_the_free_list() {
    let mut t: Table<u32> = Table::new(1);
    let a = t.insert(&vec![1]);
    t.insert(&vec![2]);
    t.sync(Tick::new(1));
    assert!(t.remove(a));
    t.sync(Tick::new(2));
    assert!(t.is_dead(0));
    assert_eq!(t.restore(Tick::new(1)), Ok(()));
    assert!(!t.is_dead(0));
    assert_eq!(t.read_attribute(0, 0), 1);
    let c = t.insert(&vec![3]);
    assert_eq!(c.index, 2);
    assert_eq!(t.len(), 3);
}

#[test]
fn vector_attributes_roundtrip() {
    let mut t: Table<Vec3Bits> = Table::new(2);
    let p = Vec3Bits::new(1.5f32.to_bits(), (-2.0f32).to_bits(), 0.25f32.to_bits());
    let d = Vec3Bits::new(0.0f32.to_bits(), 1.0f32.to_bits(), 0.0f32.to_bits());
    let h = t.insert(&vec![p, d]);
    let back = t.read_attribute(0, h.index);
    assert_eq!(back, p);
    assert_eq!(f32::from_bits(back.x), 1.5);
    assert_eq!(f32::from_bits(back.y), -2.0);
    assert_eq!(f32::from_bits(back.z), 0.25);
    assert_eq!(t.read_attribute(1, h.index), d);
}

#[test]
fn vector_attributes_restore_and_reopen() {
    let mut t: Table<Vec3Bits> = Table::new(1);
    let p0 = Vec3Bits::new(1, 2, 3);
    let h = t.insert(&vec![p0]);
    t.sync(Tick::new(1));
    t.write_attribute(0, h.index, &vec![Vec3Bits::new(7, 8, 9)]);
    t.sync(Tick::new(2));
    assert_eq!(t.restore(Tick::new(1)), Ok(()));
    assert_eq!(t.read_attribute(0, h.index), p0);
    let (gen_data, gen_history, parts) = t.export();
    let reopened: Table<Vec3Bits> = match Table::from_parts(gen_data, gen_history, parts) {
        Ok(t2) => t2,
        Err(e) => panic!("reopen failed: {e:?}"),
    };
    assert_eq!(reopened.read_attribute(0, h.index), p0);
    assert!(!reopened.is_dead(h.index));
}

#[test]
fn table_restore_unknown_tick_is_an_error() {
    let mut t: Table<u32> = Table::new(1);
    t.insert(&vec![1]);
    t.sync(Tick::new(1));
    assert_eq!(t.restore(Tick::new(9)), Err(StoreError::TickNotFound));
    assert_eq!(t.read_attribute(0, 0), 1);
    assert!(!t.is_dead(0));
}
