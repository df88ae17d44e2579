use fckmaker::address::Index;
use fckmaker::tape::{BidirectionalTape, StandardTape, Tape};
use fckmaker::tape_model::{bidirectional_tape, classic_tape, GenericTapeModel, TapeModel};
use fckmaker::value::Value;

#[test]
fn far_write_leaves_gap_at_default() {
    let mut tape: StandardTape<u8> = StandardTape::new();
    tape.set(50000, 9);
    assert_eq!(tape.get(25000), 0);
    assert_eq!(tape.get(50000), 9);
    assert_eq!(tape.get(49999), 0);
    assert_eq!(tape.get(50001), 0);
}

#[test]
fn bidirectional_negative_addresses() {
    let mut tape: BidirectionalTape<u8> = BidirectionalTape::new();
    tape.set(-5, 77);
    assert_eq!(tape.get(-5), 77);
    assert_eq!(tape.get(-4), 0);
    assert_eq!(tape.get(-1), 0);
    assert_eq!(tape.get(0), 0);
    tape.set(3, 4);
    assert_eq!(tape.get(3), 4);
    assert_eq!(tape.get(-5), 77);
}

#[test]
fn reads_do_not_grow_or_change() {
    let tape: StandardTape<u8> = StandardTape::new();
    assert_eq!(tape.get(1_000_000), 0);
    let tape: BidirectionalTape<u8> = BidirectionalTape::new();
    assert_eq!(tape.get(isize::MIN), 0);
    assert_eq!(tape.get(isize::MAX), 0);
}

#[test]
fn custom_default_values() {
    let mut tape = StandardTape::with_custom_default(7u8);
    assert_eq!(tape.get(0), 7);
    assert_eq!(tape.get(100), 7);
    tape.set(10, 1);
    assert_eq!(tape.get(5), 7);
    let mut tape = BidirectionalTape::with_custom_default(7u8);
    assert_eq!(tape.get(-1), 7);
    assert_eq!(tape.get(-100), 7);
    tape.set(-10, 1);
    assert_eq!(tape.get(-3), 7);
    assert_eq!(tape.get(20), 7);
}

#[test]
fn overwrite_keeps_latest() {
    let mut tape: StandardTape<u8> = StandardTape::new();
    tape.set(3, 1);
    tape.set(3, 2);
    assert_eq!(tape.get(3), 2);
}

#[test]
fn classic_model_pointer_and_cells() {
    let mut model = classic_tape::<u8>();
    assert_eq!(model.get_pointer(), 0);
    model.set_cell(5);
    model.set_pointer(3);
    model.set_cell(6);
    assert_eq!(model.get_cell(), 6);
    assert_eq!(model.find_cell(0), 5);
    model.find_and_set_cell(10, 1);
    assert_eq!(model.find_cell(10), 1);
    assert_eq!(model.get_pointer(), 3);
}

#[test]
fn bidirectional_model_goes_negative() {
    let mut model = bidirectional_tape::<u8>();
    let p = model.get_pointer().decr().unwrap();
    model.set_pointer(p);
    model.set_cell(12);
    assert_eq!(model.get_pointer(), -1);
    assert_eq!(model.find_cell(-1), 12);
    assert_eq!(model.find_cell(0), 0);
}

#[test]
fn generic_model_over_custom_tape() {
    let model = GenericTapeModel::<u8, usize, StandardTape<u8>>::new(StandardTape::with_custom_default(3));
    assert_eq!(model.get_cell(), 3);
    assert_eq!(model.get_pointer(), 0);
}

#[test]
fn unsigned_address_faults_below_start() {
    assert_eq!(0usize.decr(), None);
    assert_eq!(5usize.decr(), Some(4));
    assert_eq!(usize::MAX.incr(), None);
    assert_eq!(<usize as Index>::start(), 0);
}

#[test]
fn signed_address_continues_below_zero() {
    assert_eq!(0isize.decr(), Some(-1));
    assert_eq!((-1isize).incr(), Some(0));
    assert_eq!(isize::MIN.decr(), None);
    assert_eq!(<isize as Index>::start(), 0);
}

#[test]
fn byte_values_wrap() {
    assert_eq!(<u8 as Value>::default_value(), 0);
    assert_eq!(255u8.wrapping_incr(1), 0);
    assert_eq!(0u8.wrapping_decr(1), 255);
    assert_eq!(5u8.wrapping_incr(256), 5);
    assert_eq!(5u8.wrapping_decr(256), 5);
    assert_eq!(200u8.wrapping_incr(100), 44);
    assert_eq!(3u8.wrapping_decr(10), 249);
}

#[test]
fn default_tapes_start_at_zero() {
    let tape: StandardTape<u8> = StandardTape::default();
    assert_eq!(tape.get(7), 0);
    let tape: BidirectionalTape<u8> = BidirectionalTape::default();
    assert_eq!(tape.get(-7), 0);
}
