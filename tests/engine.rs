use sudoku::{generate, ChooseAtRandom, ChooseFirst, Cell, Defer, LoadingError, Pos, Sudoku, UNKNOWN};

const SOLVED: &str = "534678912672195348198342567859761423426853791713924856961537284287419635345286179";

fn symbols(s: &str) -> Vec<char> {
    s.chars().collect()
}

fn values<const N: usize>(g: &Sudoku<N>) -> Vec<Option<u32>> {
    (0..N * N * N * N).map(|i| g.cell(i).get_value()).collect()
}

fn bits<const N: usize>(g: &Sudoku<N>) -> Vec<u64> {
    (0..N * N * N * N).map(|i| g.cell(i).bitset()).collect()
}

fn assert_latin<const N: usize>(g: &Sudoku<N>) {
    let r = N * N;
    let v: Vec<u32> = values(g).into_iter().map(|x| x.expect("determined")).collect();
    for a in 0..r {
        let mut row = vec![false; r];
        let mut col = vec![false; r];
        let mut sq = vec![false; r];
        for b in 0..r {
            row[v[a * r + b] as usize] = true;
            col[v[b * r + a] as usize] = true;
            let (br, bc) = (a / N, a % N);
            let (dr, dc) = (b / N, b % N);
            sq[v[(br * N + dr) * r + bc * N + dc] as usize] = true;
        }
        assert!(row.iter().all(|x| *x));
        assert!(col.iter().all(|x| *x));
        assert!(sq.iter().all(|x| *x));
    }
}

#[test]
fn loading_wildcards_leaves_every_cell_full() {
    let g = Sudoku::<3>::load(&symbols(&"_".repeat(81))).unwrap();
    for i in 0..81 {
        assert_eq!(g.cell(i), Cell::<3>::full());
    }
    assert_eq!(g.moves_len(), 0);
    assert_eq!(g.best(), 9);
}

#[test]
fn same_symbol_twice_in_a_row_conflicts() {
    let mut s = String::from("11");
    s.push_str(&"_".repeat(79));
    match Sudoku::<3>::load(&symbols(&s)) {
        Err(LoadingError::Conflicting { pos_x, pos_y, value }) => {
            assert_eq!(pos_y, 0);
            assert_eq!(pos_x, 1);
            assert_eq!(value, 0);
        }
        _ => panic!("expected a conflict"),
    }
}

#[test]
fn conflict_in_a_column_names_its_row() {
    let mut s = vec!['_'; 81];
    s[4] = '7';
    s[5 * 9 + 4] = '7';
    match Sudoku::<3>::load(&s) {
        Err(LoadingError::Conflicting { pos_x, pos_y, value }) => {
            assert_eq!((pos_x, pos_y, value), (4, 5, 6));
        }
        _ => panic!("expected a conflict"),
    }
}

#[test]
fn wrong_length_is_rejected() {
    assert_eq!(
        Sudoku::<3>::load(&symbols(&"_".repeat(80))).err(),
        Some(LoadingError::InvalidSize { received: 80 })
    );
    assert_eq!(
        Sudoku::<2>::load(&symbols(&"_".repeat(81))).err(),
        Some(LoadingError::InvalidSize { received: 81 })
    );
}

#[test]
fn unknown_symbol_is_rejected() {
    let mut s = vec!['_'; 81];
    s[10] = 'x';
    assert_eq!(Sudoku::<3>::load(&s).err(), Some(LoadingError::InvalidCharacter { char: 'x' }));
    s[10] = 'A';
    assert_eq!(Sudoku::<3>::load(&s).err(), Some(LoadingError::InvalidCharacter { char: 'A' }));
}

#[test]
fn givens_are_placed() {
    let g = Sudoku::<3>::load(&symbols(SOLVED)).unwrap();
    let expect: Vec<Option<u32>> = SOLVED.chars().map(|c| Some(c.to_digit(10).unwrap() - 1)).collect();
    assert_eq!(values(&g), expect);
    assert_eq!(g.best(), 1);
}

#[test]
fn one_open_cell_has_one_solution() {
    let mut s = symbols(SOLVED);
    s[40] = '_';
    let g = Sudoku::<3>::load(&s).unwrap();
    let mut search = g.brute_force(ChooseFirst, None);
    let first = search.next_solution().expect("a solution");
    let expect: Vec<Option<u32>> = SOLVED.chars().map(|c| Some(c.to_digit(10).unwrap() - 1)).collect();
    assert_eq!(values(&first), expect);
    assert!(search.next_solution().is_none());
    assert!(search.is_done());
}

#[test]
fn open_cells_are_completed_uniquely() {
    let mut s = symbols(SOLVED);
    for i in [0usize, 10, 20, 30, 40, 50, 60, 70, 80, 8, 72] {
        s[i] = '_';
    }
    let g = Sudoku::<3>::load(&s).unwrap();
    let mut search = g.brute_force(ChooseFirst, None);
    let first = search.next_solution().expect("a solution");
    let expect: Vec<Option<u32>> = SOLVED.chars().map(|c| Some(c.to_digit(10).unwrap() - 1)).collect();
    assert_eq!(values(&first), expect);
    assert!(search.next_solution().is_none());
}

#[test]
fn empty_small_grid_has_many_solutions() {
    let g = Sudoku::<2>::new();
    let mut search = g.brute_force(ChooseFirst, None);
    let mut n = 0;
    while let Some(s) = search.next_solution() {
        assert_latin(&s);
        n += 1;
    }
    assert_eq!(n, 288);
}

#[test]
fn generated_grids_are_latin() {
    let g = generate::<3>(11, 100).expect("a grid");
    assert_latin(&g);
    let g = generate::<2>(5, 100).expect("a grid");
    assert_latin(&g);
    let g = generate::<1>(0, 1).expect("a grid");
    assert_eq!(values(&g), vec![Some(0)]);
}

#[test]
fn generation_is_reproducible() {
    let a = generate::<3>(42, 100).expect("a grid");
    let b = generate::<3>(42, 100).expect("a grid");
    assert_eq!(values(&a), values(&b));
    let mut s1 = Sudoku::<3>::new().brute_force(ChooseAtRandom::<3>::new(9), Some(Sudoku::<3>::ttl()));
    let mut s2 = Sudoku::<3>::new().brute_force(ChooseAtRandom::<3>::new(9), Some(Sudoku::<3>::ttl()));
    let x = s1.next_solution().map(|g| values(&g));
    let y = s2.next_solution().map(|g| values(&g));
    assert_eq!(x, y);
}

#[test]
fn undo_restores_the_grid() {
    let mut s = vec!['_'; 81];
    s[0] = '5';
    s[12] = '3';
    let mut g = Sudoku::<3>::load(&s).unwrap();
    let before_bits = bits(&g);
    let before_len = g.moves_len();
    let mut defer = Defer::<3>::new();
    let pos = Pos { y_1: 1, y_2: 1, x_1: 1, x_2: 1 };
    let n = g.remove_all(Cell::<3>::from_value(3).complement(), pos, &mut defer).unwrap();
    assert!(n >= 8);
    assert_eq!(g.moves_len(), before_len + n);
    assert_eq!(g.get(pos), Cell::<3>::from_value(3));
    assert_eq!(g.best(), g.long_best());
    g.pop_n_moves(n);
    assert_eq!(bits(&g), before_bits);
    assert_eq!(g.moves_len(), before_len);
    assert_eq!(g.best(), g.long_best());
}

#[test]
fn removing_nothing_logs_nothing() {
    let mut g = Sudoku::<3>::new();
    let mut defer = Defer::<3>::new();
    let pos = Pos { y_1: 2, y_2: 0, x_1: 0, x_2: 2 };
    assert_eq!(g.remove_all(Cell::<3>::empty(), pos, &mut defer), Some(0));
    assert_eq!(g.moves_len(), 0);
}

#[test]
fn emptying_a_cell_is_refused() {
    let mut g = Sudoku::<3>::new();
    let mut defer = Defer::<3>::new();
    let pos = Pos { y_1: 0, y_2: 0, x_1: 0, x_2: 0 };
    assert_eq!(g.remove_all(Cell::<3>::full(), pos, &mut defer), None);
    assert_eq!(g.moves_len(), 0);
    assert_eq!(g.get(pos), Cell::<3>::full());
}

#[test]
fn histogram_tracks_removals() {
    let mut g = Sudoku::<2>::new();
    assert_eq!(g.best(), 4);
    let mut defer = Defer::<2>::new();
    let pos = Pos { y_1: 0, y_2: 0, x_1: 0, x_2: 0 };
    let n = g.remove_all(Cell::<2>::from_value(0), pos, &mut defer).unwrap();
    assert_eq!(n, 1);
    assert_eq!(g.best(), 3);
    assert_eq!(g.long_best(), 3);
    assert_eq!(g.min_bifurc(3), 0);
    g.pop_n_moves(1);
    assert_eq!(g.best(), 4);
}

#[test]
fn bytes_round_trip() {
    let g = Sudoku::<3>::load(&symbols(SOLVED)).unwrap();
    let mut buf = vec![0u8; 4096];
    g.encode_grid(&mut buf);
    let back = Sudoku::<3>::decode_grid(&buf).unwrap();
    assert_eq!(values(&back), values(&g));
    assert_eq!(buf[0], 4);
    assert_eq!(buf[81], 0);
}

#[test]
fn bytes_of_an_open_grid() {
    let g = Sudoku::<2>::new();
    let mut buf = vec![7u8; 20];
    g.encode_grid(&mut buf);
    assert!(buf[..16].iter().all(|b| *b == UNKNOWN));
    assert_eq!(buf[16], 7);
    let back = Sudoku::<2>::decode_grid(&buf).unwrap();
    assert_eq!(bits(&back), bits(&g));
}

#[test]
fn bad_bytes_are_rejected() {
    let mut buf = vec![UNKNOWN; 16];
    buf[0] = 2;
    buf[1] = 2;
    assert!(Sudoku::<2>::decode_grid(&buf).is_none());
    buf[1] = 4;
    assert!(Sudoku::<2>::decode_grid(&buf).is_none());
    assert!(Sudoku::<2>::decode_grid(&vec![UNKNOWN; 15]).is_none());
}

#[test]
fn worklist_is_lifo_without_repeats() {
    let mut d = Defer::<2>::new();
    assert!(d.is_empty());
    d.push(3);
    d.push(7);
    d.push(3);
    assert_eq!(d.pop(), Some(7));
    assert_eq!(d.pop(), Some(3));
    assert_eq!(d.pop(), None);
    d.push(1);
    d.clear();
    assert!(d.is_empty());
}

#[test]
fn budget_of_the_random_search() {
    assert_eq!(Sudoku::<3>::ttl(), 256);
    assert_eq!(Sudoku::<8>::ttl(), 8192);
}

#[test]
fn choosers_find_the_same_solutions() {
    let mut first = Vec::new();
    let mut search = Sudoku::<2>::new().brute_force(ChooseFirst, None);
    while let Some(s) = search.next_solution() {
        first.push(values(&s));
    }
    let mut random = Vec::new();
    let mut search = Sudoku::<2>::new().brute_force(ChooseAtRandom::<2>::new(3), None);
    while let Some(s) = search.next_solution() {
        random.push(values(&s));
    }
    assert_eq!(first.len(), 288);
    assert_ne!(first, random);
    first.sort();
    random.sort();
    assert_eq!(first, random);
}

#[test]
fn exhausted_budget_stops_the_search() {
    let mut search = Sudoku::<3>::new().brute_force(ChooseFirst, Some(0));
    assert!(search.next_solution().is_none());
    assert!(search.is_done());
    assert!(search.next_solution().is_none());
}

#[test]
fn determined_grid_is_yielded_without_budget() {
    let mut search = Sudoku::<1>::new().brute_force(ChooseFirst, Some(0));
    let g = search.next_solution().expect("the grid itself");
    assert_eq!(values(&g), vec![Some(0)]);
    assert!(search.next_solution().is_none());
    let mut search = Sudoku::<3>::load(&symbols(SOLVED)).unwrap().brute_force(ChooseFirst, Some(0));
    assert!(search.next_solution().is_some());
}

#[test]
fn small_budget_suffices_for_one_open_cell() {
    let mut s = symbols(SOLVED);
    s[17] = '_';
    let g = Sudoku::<3>::load(&s).unwrap();
    let mut search = g.brute_force(ChooseFirst, Some(10));
    assert!(search.next_solution().is_some());
    assert!(search.next_solution().is_none());
}

#[test]
fn duplicate_in_a_later_row_names_the_second_cell() {
    let mut s = vec!['_'; 256];
    s[7 * 16 + 2] = 'C';
    s[7 * 16 + 13] = 'C';
    match Sudoku::<4>::load(&s) {
        Err(LoadingError::Conflicting { pos_x, pos_y, value }) => {
            assert_eq!((pos_x, pos_y, value), (13, 7, 11));
        }
        _ => panic!("expected a conflict"),
    }
}
