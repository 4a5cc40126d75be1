use graph::{id_generator, Generator, ID};

#[test]
fn mod_test_id_generator() {
    let mut next_id = id_generator();
    let id1 = next_id.mint().get();
    let id2 = next_id.mint().get();

    next_id.mint(); // Ignore the next ID

    let id3 = next_id.mint().get();

    println!("id1 = {id1:?}, id2 = {id2:?}, id3 = {id3:?}");

    assert_eq!(id1, 0);
    assert_eq!(id2, 1);
    assert_eq!(id3, 3);
}

#[test]
fn test_id_wrapper() {
    let id = ID::from(0_usize);
    let usize_id = id.get();
    let into: usize = id.into();

    // check if ID is convertible to usize
    // and that .get() returns the same usize
    // as .into().
    assert_eq!(usize_id, into);
    assert_eq!(id.get(), into);
    assert_eq!(id.get(), 0);
}

#[test]
fn lib_test_id_generator() {
    let mut generator = id_generator();
    for i in 0..200 {
        let id: usize = generator.mint().into();
        println!("generating ID#{i}...");
        assert_eq!(id, i);
    }
}

#[test]
fn minted_identifiers_are_pairwise_distinct() {
    let mut generator = id_generator();
    let mut seen: Vec<ID> = Vec::new();
    for _ in 0..64 {
        let id = generator.mint();
        assert!(!seen.contains(&id));
        seen.push(id);
    }
    assert_eq!(seen.len(), 64);
}

#[test]
fn minted_identifiers_count_up_from_the_view() {
    let mut generator = id_generator();
    generator.mint();
    generator.mint();
    let v = generator.peek();
    assert_eq!(v, 2);
    for i in 0..10 {
        assert_eq!(generator.mint().get(), v + i);
    }
    assert_eq!(generator.peek(), 12);
}

#[test]
fn two_generators_do_not_share_their_numbers() {
    let mut first = id_generator();
    let mut second = id_generator();
    assert_eq!(first.mint().get(), 0);
    assert_eq!(first.mint().get(), 1);
    assert_eq!(second.mint().get(), 0);
    assert_eq!(first.mint().get(), 2);
    assert_eq!(second.mint().get(), 1);
}

#[test]
fn fresh_generator_is_not_exhausted() {
    let mut generator = id_generator();
    assert!(!generator.is_exhausted());
    generator.mint();
    assert!(!generator.is_exhausted());
}

#[test]
fn identifier_round_trips_through_its_serialized_form() {
    for k in [0_usize, 1, 2, 41, 1 << 20, usize::MAX - 1, usize::MAX] {
        let written = ID::from(k).serialize();
        assert_eq!(written, k);
        assert_eq!(ID::deserialize(written).get(), k);
        assert_eq!(ID::deserialize(written), ID::from(k));
    }
}

#[test]
fn identifiers_are_equal_by_value() {
    let a = ID::from(7_usize);
    let b = ID::from(7_usize);
    let c = ID::from(8_usize);
    assert_eq!(a, b);
    assert_ne!(a, c);
    let copy = a;
    assert_eq!(copy, a);
}

#[test]
fn set_changes_one_copy_only() {
    let first = ID::from(3_usize);
    let mut changed = first;
    changed.set(9);
    assert_eq!(changed.get(), 9);
    assert_eq!(first.get(), 3);
}

#[test]
fn identifier_from_machine_words() {
    let from_usize: ID = From::from(5_usize);
    assert_eq!(from_usize.get(), 5);
    let from_i32: ID = From::from(5_i32);
    assert_eq!(from_i32.get(), 5);
    assert_eq!(from_i32, from_usize);
    let below_zero: ID = From::from(-1_i32);
    assert_eq!(below_zero.get(), usize::MAX);
    let back: usize = From::from(from_usize);
    assert_eq!(back, 5);
}

#[test]
fn identifier_made_by_hand_is_independent_of_generators() {
    let mut generator = id_generator();
    let by_hand = ID::from(1_usize);
    assert_eq!(generator.mint().get(), 0);
    assert_eq!(generator.mint(), by_hand);
    assert_eq!(generator.mint().get(), 2);
}

#[test]
fn generator_runs_out_below_the_largest_word() {
    let mut generator = Generator::starting_at(usize::MAX - 2);
    assert!(!generator.is_exhausted());
    assert_eq!(generator.mint().get(), usize::MAX - 2);
    assert!(!generator.is_exhausted());
    assert_eq!(generator.mint().get(), usize::MAX - 1);
    assert!(generator.is_exhausted());
    assert_eq!(generator.peek(), usize::MAX);
}

#[test]
fn generator_can_start_anywhere() {
    let mut generator = Generator::starting_at(40);
    assert_eq!(generator.peek(), 40);
    assert_eq!(generator.mint().get(), 40);
    assert_eq!(generator.mint().get(), 41);
}
