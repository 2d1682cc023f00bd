use reowolf::vec_storage::{Bitvec, VecStorage};

#[derive(Debug, PartialEq)]
struct Foo;

#[test]
fn vec_storage() {
    let mut v = VecStorage::default();
    let i0 = v.new_occupied(Foo);

    let i1 = v.new_reserved();

    let q = v.vacate(i0);
    println!("q {:?}", q);
    assert_eq!(q, Some(Foo));

    v.occupy_reserved(i1, Foo);

    *v.get_occupied_mut(i1).unwrap() = Foo;
    assert_eq!(v.get_occupied(i1), Some(&Foo));
}

#[test]
fn vacant_slots_are_reused_lowest_first() {
    let mut v: VecStorage<u32> = VecStorage::default();
    assert_eq!(v.new_occupied(10), 0);
    assert_eq!(v.new_occupied(11), 1);
    assert_eq!(v.new_occupied(12), 2);
    assert_eq!(v.vacate(1), Some(11));
    assert_eq!(v.vacate(0), Some(10));
    // vacating twice gives nothing
    assert_eq!(v.vacate(0), None);
    assert_eq!(v.get_occupied(0), None);
    assert_eq!(v.new_occupied(13), 0);
    assert_eq!(v.new_reserved(), 1);
    assert_eq!(v.iter(), vec![&13, &12]);
    assert_eq!(v.iter_reserved(), vec![1]);
}

#[test]
fn vacating_the_last_slot_drops_trailing_vacant_slots() {
    let mut v: VecStorage<u32> = VecStorage::default();
    for k in 0..4 {
        v.new_occupied(k);
    }
    assert_eq!(v.vacate(1), Some(1));
    assert_eq!(v.vacate(2), Some(2));
    assert_eq!(v.vacate(3), Some(3));
    // slots 1..4 are gone, so the next slot is 1 again, then 2
    assert_eq!(v.new_occupied(7), 1);
    assert_eq!(v.new_occupied(8), 2);
    assert_eq!(v.iter(), vec![&0, &7, &8]);
    // a reserved slot has no value
    let r = v.new_reserved();
    assert_eq!(r, 3);
    assert_eq!(v.vacate(r), None);
    assert!(v.iter_reserved().is_empty());
}

#[test]
fn clear_empties_the_storage() {
    let mut v: VecStorage<u32> = VecStorage::default();
    v.new_occupied(1);
    v.new_reserved();
    v.clear();
    assert!(v.iter().is_empty());
    assert!(v.iter_reserved().is_empty());
    assert_eq!(v.new_occupied(5), 0);
}

#[test]
fn iter_reserved_yields_the_reserved_slots_in_order() {
    let mut v: VecStorage<u8> = VecStorage::default();
    assert_eq!(v.new_occupied(10), 0);
    assert_eq!(v.new_reserved(), 1);
    assert_eq!(v.new_occupied(11), 2);
    assert_eq!(v.new_reserved(), 3);
    assert_eq!(v.iter_reserved(), vec![1, 3]);
    v.occupy_reserved(1, 12);
    assert_eq!(v.iter_reserved(), vec![3]);
    v.occupy_reserved(3, 13);
    assert!(v.iter_reserved().is_empty());
}

#[test]
fn iter_reserved_reads_the_chunks_as_one_array_of_bits() {
    let mut v: VecStorage<u8> = VecStorage::default();
    let n = usize::BITS as usize + 1;
    for i in 0..n {
        assert_eq!(v.new_reserved(), i);
    }
    let expected: Vec<usize> = (0..n).collect();
    assert_eq!(v.iter_reserved(), expected);
}

#[test]
fn set_bits_are_counted_contiguously_across_chunks() {
    let w = usize::BITS as usize;
    let b = Bitvec(vec![0b111000, 0b11]);
    assert_eq!(b.iter(), vec![3, 4, 5, w, w + 1]);
    let full = Bitvec(vec![!0usize, 1]);
    let expected: Vec<usize> = (0..=w).collect();
    assert_eq!(full.iter(), expected);
}
