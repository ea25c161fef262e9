use sudoku::cell::{one_hot, Cell, SOLVED_VALUE};

#[test]
fn is_fixed_works() {
    let c = Cell::new();
    println!("{}", c.serialize());
    assert_eq!(c.is_fixed(), false);
}

#[test]
fn is_one_hot_works() {
    for i in 1..10 {
        let result = one_hot(i);
        let trailing_zeros = result.trailing_zeros() as u8;
        assert_eq!(trailing_zeros, i - 1);
    }
}

#[test]
fn is_add_candidate_works() {
    let mut c = Cell::new();
    c.add_candidate(1u8);
    assert_eq!(c.backup().1, 1u16);

    c.add_candidate(5u8);
    assert_eq!(c.backup().1, 0b10001u16);
    // add duplicate candidate
    c.add_candidate(5u8);
    assert_eq!(c.backup().1, 0b10001u16);

    c.add_candidate(4u8);
    assert_eq!(c.backup().1, 0b11001u16);
}

#[test]
fn is_candidates_str_works() {
    let mut c = Cell::new();
    c.add_candidate(1u8);
    assert_eq!(c.candidates_str(), "1");

    c.add_candidate(5u8);
    assert_eq!(c.candidates_str(), "10001");

    c.add_candidate(4u8);
    assert_eq!(c.candidates_str(), "11001");
}

#[test]
fn is_remove_candidate_works() {
    let mut c = Cell::new();
    for i in 1..10 {
        assert_eq!(c.has_candidate(i).0, false);
        c.add_candidate(i);
        assert_eq!(c.has_candidate(i).0, true);
        c.remove_candidate(i);
        assert_eq!(c.has_candidate(i).0, false);
    }
}

#[test]
fn is_has_candidate_works() {
    let mut c = Cell::new();
    assert_eq!(c.has_candidate(1u8).0, false);
    c.add_candidate(1u8);
    assert_eq!(c.has_candidate(1u8).0, true);

    assert_eq!(c.has_candidate(5u8).0, false);
    c.add_candidate(5u8);
    assert_eq!(c.has_candidate(5u8).0, true);

    assert_eq!(c.has_candidate(4u8).0, false);
    c.add_candidate(4u8);
    assert_eq!(c.has_candidate(4u8).0, true);

    assert_eq!(c.has_candidate(2u8).0, false);
    assert_eq!(c.has_candidate(3u8).0, false);
    assert_eq!(c.has_candidate(6u8).0, false);
    assert_eq!(c.has_candidate(7u8).0, false);
    assert_eq!(c.has_candidate(9u8).0, false);
}

#[test]
fn is_num_candidate_works() {
    let mut c = Cell::new();

    assert_eq!(c.num_candidates(), 0);

    for i in 1..10 {
        c.add_candidate(i);
        assert_eq!(c.num_candidates(), i);
    }
}

#[test]
fn is_collect_candidate_works() {
    let mut c = Cell::new();
    let r = c.collect_candidates();
    assert_eq!(r.len(), 0);

    c.add_candidate(1u8);
    let r = c.collect_candidates();
    assert_eq!(r.len(), 1);
    assert_eq!(r[0], 1);

    c.add_candidate(5u8);
    let r = c.collect_candidates();
    assert_eq!(r.len(), 2);
    assert_eq!(r[0], 1);
    assert_eq!(r[1], 5);

    c.add_candidate(4u8);
    let r = c.collect_candidates();
    assert_eq!(r.len(), 3);
    assert_eq!(r[0], 1);
    assert_eq!(r[1], 4);
    assert_eq!(r[2], 5);
}

#[test]
fn is_apply_candidate_works() {
    let mut c = Cell::new();
    assert_eq!(c.apply_candidate(), None);

    c.add_candidate(4u8);
    assert_eq!(c.apply_candidate(), Some(4));

    c.add_candidate(5u8);
    assert_eq!(c.apply_candidate(), None);
}

#[test]
fn one_hot_gives_the_bit_of_each_digit() {
    let expected: [u16; 9] = [1, 2, 4, 8, 16, 32, 64, 128, 256];
    for d in 1..10u8 {
        assert_eq!(one_hot(d), expected[(d - 1) as usize]);
    }
}

#[test]
fn new_cell_is_empty() {
    let c = Cell::new();
    assert_eq!(c.backup(), (0, 0));
    assert_eq!(c.get_index(), 0);
    assert_eq!(c.get_value(), 0);
    assert_eq!(c.num_candidates(), 0);
    assert_eq!(c.serialize(), '.');
    assert_eq!(c.candidates_str(), "0");
}

#[test]
fn set_index_keeps_the_state() {
    let mut c = Cell::new();
    c.add_candidate(3);
    c.set_index(42);
    assert_eq!(c.get_index(), 42);
    assert_eq!(c.backup(), (0, 0b100));
}

#[test]
fn fill_candidates_gives_the_full_domain() {
    let mut c = Cell::new();
    c.fill_candidates();
    assert_eq!(c.backup(), (0, SOLVED_VALUE));
    assert_eq!(c.num_candidates(), 9);
    assert_eq!(c.collect_candidates(), vec![1, 2, 3, 4, 5, 6, 7, 8, 9]);
    assert_eq!(c.candidates_str(), "111111111");
}

#[test]
fn fill_candidates_leaves_a_fixed_cell() {
    let mut c = Cell::new();
    c.set_value(7);
    c.fill_candidates();
    assert_eq!(c.backup(), (7, 0));
}

#[test]
fn set_value_fixes_and_clears_candidates() {
    let mut c = Cell::new();
    c.fill_candidates();
    c.set_value(6);
    assert!(c.is_fixed());
    assert_eq!(c.get_value(), 6);
    assert_eq!(c.backup(), (6, 0));
    assert_eq!(c.serialize(), '6');
}

#[test]
fn set_value_zero_unsets() {
    let mut c = Cell::new();
    c.set_value(6);
    c.set_value(0);
    assert!(!c.is_fixed());
    assert_eq!(c.serialize(), '.');
}

#[test]
fn serialize_gives_each_digit() {
    let digits = ['1', '2', '3', '4', '5', '6', '7', '8', '9'];
    for v in 1..10u8 {
        let mut c = Cell::new();
        c.set_value(v);
        assert_eq!(c.serialize(), digits[(v - 1) as usize]);
    }
}

#[test]
fn clear_value_keeps_candidates() {
    let mut c = Cell::new();
    c.add_candidate(2);
    c.add_candidate(9);
    c.apply_candidate();
    c.restore((5, 0b100000010));
    c.clear_value();
    assert_eq!(c.backup(), (0, 0b100000010));
}

#[test]
fn clear_candidates_keeps_value() {
    let mut c = Cell::new();
    c.restore((5, 0b11));
    c.clear_candidates();
    assert_eq!(c.backup(), (5, 0));
}

#[test]
fn reset_empties_the_cell() {
    let mut c = Cell::new();
    c.restore((5, 0b11));
    c.set_index(9);
    c.reset();
    assert_eq!(c.backup(), (0, 0));
    assert_eq!(c.get_index(), 9);
}

#[test]
fn restore_of_backup_is_identity() {
    let mut c = Cell::new();
    c.add_candidate(2);
    c.add_candidate(8);
    let bak = c.backup();
    assert_eq!(bak, (0, 0b10000010));
    c.reset();
    c.restore(bak);
    assert_eq!(c.backup(), bak);
}

#[test]
fn eliminate_last_candidate_is_refused() {
    let mut c = Cell::new();
    c.add_candidate(7);
    assert_eq!(c.eliminate_candidate(7), Err(7));
    assert_eq!(c.backup(), (0, 0b1000000));
    assert_eq!(c.collect_candidates(), vec![7]);
}

#[test]
fn eliminate_one_of_two_fixes_the_other() {
    let mut c = Cell::new();
    c.add_candidate(3);
    c.add_candidate(8);
    assert_eq!(c.eliminate_candidate(3), Ok(3));
    assert!(c.is_fixed());
    assert_eq!(c.get_value(), 8);
    assert_eq!(c.backup(), (8, 0));
    assert_eq!(c.num_candidates(), 0);
    assert!(c.collect_candidates().is_empty());

    let mut c = Cell::new();
    c.add_candidate(3);
    c.add_candidate(8);
    assert_eq!(c.eliminate_candidate(8), Ok(8));
    assert_eq!(c.get_value(), 3);
}

#[test]
fn eliminate_one_of_many_only_removes() {
    let mut c = Cell::new();
    c.fill_candidates();
    assert_eq!(c.eliminate_candidate(5), Ok(0));
    assert!(!c.is_fixed());
    assert_eq!(c.collect_candidates(), vec![1, 2, 3, 4, 6, 7, 8, 9]);
    assert_eq!(c.num_candidates(), 8);
}

#[test]
fn eliminate_absent_candidate_changes_nothing() {
    let mut c = Cell::new();
    c.add_candidate(1);
    assert_eq!(c.eliminate_candidate(2), Ok(0));
    assert_eq!(c.backup(), (0, 1));
    let mut e = Cell::new();
    assert_eq!(e.eliminate_candidate(2), Ok(0));
    assert_eq!(e.backup(), (0, 0));
}

#[test]
fn apply_candidate_keeps_the_mask() {
    let mut c = Cell::new();
    c.add_candidate(9);
    assert_eq!(c.apply_candidate(), Some(9));
    assert_eq!(c.backup(), (9, 256));
}

#[test]
fn candidates_str_is_binary() {
    let mut c = Cell::new();
    c.restore((0, 0b101));
    assert_eq!(c.candidates_str(), "101");
    c.restore((0, 256));
    assert_eq!(c.candidates_str(), "100000000");
    c.restore((0, 2));
    assert_eq!(c.candidates_str(), "10");
}
