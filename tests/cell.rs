use rand::rngs::SmallRng;
use rand::SeedableRng;
use sudoku::{Cell, Pos, SYMBOLS, WILDCARD};

#[test]
fn full_cell() {
    assert_eq!(
        Cell::<1>::full().bitset(),
        0b0000_0000_0000_0000_0000_0000_0000_0000_0000_0000_0000_0000_0000_0000_0000_0001
    );
    assert_eq!(
        Cell::<2>::full().bitset(),
        0b0000_0000_0000_0000_0000_0000_0000_0000_0000_0000_0000_0000_0000_0000_0000_1111
    );
    assert_eq!(
        Cell::<3>::full().bitset(),
        0b0000_0000_0000_0000_0000_0000_0000_0000_0000_0000_0000_0000_0000_0001_1111_1111
    );
    assert_eq!(
        Cell::<4>::full().bitset(),
        0b0000_0000_0000_0000_0000_0000_0000_0000_0000_0000_0000_0000_1111_1111_1111_1111
    );
    assert_eq!(
        Cell::<5>::full().bitset(),
        0b0000_0000_0000_0000_0000_0000_0000_0000_0000_0001_1111_1111_1111_1111_1111_1111
    );
    assert_eq!(
        Cell::<6>::full().bitset(),
        0b0000_0000_0000_0000_0000_0000_0000_1111_1111_1111_1111_1111_1111_1111_1111_1111
    );
    assert_eq!(
        Cell::<7>::full().bitset(),
        0b0000_0000_0000_0001_1111_1111_1111_1111_1111_1111_1111_1111_1111_1111_1111_1111
    );
    assert_eq!(
        Cell::<8>::full().bitset(),
        0b1111_1111_1111_1111_1111_1111_1111_1111_1111_1111_1111_1111_1111_1111_1111_1111
    );
}

#[test]
fn cell_test_pop_random() {
    let mut full = Cell::<5>::full();
    let mut empty = Cell::<5>::empty();
    assert_eq!(full.len(), 25);
    assert_eq!(empty.len(), 0);
    let mut rng = SmallRng::from_seed([145; 32]);
    while full.len() > 0 {
        let value = full.get_random(&mut rng).unwrap();
        full.remove(value);
        assert!(!empty.contains(value));
        empty = empty.union(Cell::from_value(value));
    }
    assert_eq!(full.len(), 0);
    assert_eq!(empty.len(), 25);
}

#[test]
fn test_pop_random() {
    let mut full = Cell::<5>::full();
    let mut empty = Cell::<5>::empty();
    assert_eq!(full.len(), 25);
    assert_eq!(empty.len(), 0);
    let mut rng = SmallRng::from_seed([145; 32]);
    while full.len() > 0 {
        let value = full.get_random(&mut rng).unwrap();
        full.pop(value);
        assert!(!empty.contains(value));
        empty = empty.union(Cell::from_value(value));
    }
    assert_eq!(full.len(), 0);
    assert_eq!(empty.len(), 25);
}

#[test]
fn test_pos_swap() {
    let pos = Pos {
        x_1: 1,
        x_2: 2,
        y_1: 3,
        y_2: 4,
    };

    for i in 0..24 {
        let mut swapped = pos.swap(i);
        let mut j = 0;
        while swapped != pos {
            swapped = swapped.swap(i);
            if j == 24 {
                panic!();
            }
            j += 1;
        }
    }
}

#[test]
fn swap_orders_lexicographically() {
    let pos = Pos { x_1: 1, x_2: 2, y_1: 3, y_2: 4 };
    assert_eq!(pos.swap(0), pos);
    assert_eq!(pos.swap(1), Pos { x_1: 1, x_2: 2, y_1: 4, y_2: 3 });
    assert_eq!(pos.swap(6), Pos { x_1: 2, x_2: 1, y_1: 3, y_2: 4 });
    assert_eq!(pos.swap(23), Pos { x_1: 4, x_2: 3, y_1: 2, y_2: 1 });
}

#[test]
fn single_value_cells() {
    let c = Cell::<3>::from_value(4);
    assert_eq!(c.bitset(), 1 << 4);
    assert_eq!(c.len(), 1);
    assert_eq!(c.get_value(), Some(4));
    assert!(c.contains(4));
    assert!(!c.contains(3));
    assert_eq!(Cell::<3>::full().get_value(), None);
    assert_eq!(Cell::<3>::empty().get_value(), None);
}

#[test]
fn first_and_pop_first() {
    let mut c = Cell::<3>::from_value(7).union(Cell::from_value(2));
    assert_eq!(c.first(), Some(2));
    assert_eq!(c.pop_first(), Some(2));
    assert_eq!(c.pop_first(), Some(7));
    assert_eq!(c.pop_first(), None);
    assert_eq!(c.len(), 0);
}

#[test]
fn nth_counts_from_the_lowest() {
    let c = Cell::<3>::from_value(1).union(Cell::from_value(5)).union(Cell::from_value(8));
    assert_eq!(c.nth(0), Some(1));
    assert_eq!(c.nth(1), Some(5));
    assert_eq!(c.nth(2), Some(8));
    assert_eq!(c.nth(3), None);
}

#[test]
fn set_algebra() {
    let a = Cell::<2>::from_value(0).union(Cell::from_value(1));
    let b = Cell::<2>::from_value(1).union(Cell::from_value(3));
    assert_eq!(a.intersect(b).bitset(), 0b0010);
    assert_eq!(a.union(b).bitset(), 0b1011);
    assert_eq!(a.complement().bitset(), 0b1100);
    assert_eq!(a.without(1).bitset(), 0b0001);
    assert_eq!(a.with(2).bitset(), 0b0111);
}

#[test]
fn symbols_round_trip() {
    assert_eq!(Cell::<4>::from_char('A'), Some(Cell::from_value(9)));
    assert_eq!(Cell::<3>::from_char('A'), None);
    assert_eq!(Cell::<3>::from_char('1'), Some(Cell::from_value(0)));
    assert_eq!(Cell::<3>::from_char(WILDCARD), Some(Cell::full()));
    assert_eq!(Cell::<3>::from_char('x'), None);
    assert_eq!(Cell::<8>::from_char('พ'), Some(Cell::from_value(63)));
    assert_eq!(Cell::<4>::from_value(9).to_char(), 'A');
    assert_eq!(Cell::<3>::full().to_char(), '_');
    for v in 0..64u32 {
        assert_eq!(Cell::<8>::from_value(v).to_char(), SYMBOLS[v as usize]);
        assert_eq!(Cell::<8>::from_char(SYMBOLS[v as usize]), Some(Cell::from_value(v)));
    }
}

#[test]
fn random_choice_is_a_candidate() {
    let c = Cell::<3>::from_value(3).union(Cell::from_value(6));
    let mut rng = SmallRng::from_seed([7; 32]);
    let mut seen = [false; 2];
    for _ in 0..20 {
        let v = c.get_random(&mut rng).unwrap();
        assert!(v == 3 || v == 6);
        seen[if v == 3 { 0 } else { 1 }] = true;
    }
    assert!(seen[0] && seen[1]);
    assert_eq!(Cell::<3>::empty().get_random(&mut rng), None);
    assert_eq!(Cell::<3>::from_value(5).get_random(&mut rng), Some(5));
}

#[test]
fn positions_in_flat_order() {
    let all = Pos::iter::<2>();
    assert_eq!(all.len(), 16);
    for (i, p) in all.iter().enumerate() {
        assert_eq!(p.index_of::<2>(), i);
    }
    assert_eq!(all[5], Pos { y_1: 0, y_2: 1, x_1: 0, x_2: 1 });
}

#[test]
fn draws_map_onto_ranks() {
    assert_eq!(sudoku::random::rank_of_draw(5, 0), 0);
    assert_eq!(sudoku::random::rank_of_draw(5, 1), 4);
    assert_eq!(sudoku::random::rank_of_draw(5, 2), 1);
    assert_eq!(sudoku::random::rank_of_draw(5, 4), 3);
    let mut seen = vec![false; 5];
    for k in 0..5 {
        seen[sudoku::random::rank_of_draw(5, k) as usize] = true;
    }
    assert!(seen.iter().all(|x| *x));
}
