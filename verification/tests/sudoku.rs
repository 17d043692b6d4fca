use rand::{SeedableRng, StdRng};
use rsudoku::errors::Error;
use rsudoku::sudoku::Annotations;
use rsudoku::Sudoku;

const EULER: &str = "003020600
900305001
001806400
008102900
700000008
006708200
002609500
800203009
005010300";

const EULER_SOLVED: &str = "483921657
967345821
251876493
548132976
729564138
136798245
372689514
814253769
695417382";

fn seeded(seed: usize) -> StdRng {
    let words = [seed, 17, 4242, 99];
    StdRng::from_seed(&words[..])
}

fn all_solutions(s: &Sudoku) -> Vec<Sudoku> {
    let mut all = s.solutions();
    let mut found = Vec::new();
    while let Some(b) = all.next() {
        found.push(b);
    }
    found
}

#[test]
fn annotations() {
    let mut a = Annotations::new();

    a.set(1, true);
    assert_eq!(
        a,
        Annotations::from_array([true, false, false, false, false, false, false, false, false],)
    );

    a.toggle(9);
    assert_eq!(
        a,
        Annotations::from_array([true, false, false, false, false, false, false, false, true],)
    );

    a.toggle(1);
    assert_eq!(
        a,
        Annotations::from_array([false, false, false, false, false, false, false, false, true],)
    );

    assert_eq!(a.get(9), true);

    a = Annotations::from_array([true, false, true, false, true, false, true, true, false]);
    assert_eq!(a.count(), 5);

    a.clear();
    assert_eq!(a, Annotations::new());
}

#[test]
fn parse() {
    let input = "003020600
900305001
001806400
008102900
700000008
006708200
002609500
800203009
005010300";
    let s = input.parse::<Sudoku>().expect("could not parse sudoku");

    assert_eq!(
        s,
        Sudoku::from_grid([
            [0, 0, 3, 0, 2, 0, 6, 0, 0],
            [9, 0, 0, 3, 0, 5, 0, 0, 1],
            [0, 0, 1, 8, 0, 6, 4, 0, 0],
            [0, 0, 8, 1, 0, 2, 9, 0, 0],
            [7, 0, 0, 0, 0, 0, 0, 0, 8],
            [0, 0, 6, 7, 0, 8, 2, 0, 0],
            [0, 0, 2, 6, 0, 9, 5, 0, 0],
            [8, 0, 0, 2, 0, 3, 0, 0, 9],
            [0, 0, 5, 0, 1, 0, 3, 0, 0],
        ],)
        .unwrap()
    );
}

#[test]
fn parse_invalid() {
    let input1 = "000000000
000000000
000900900
000000000
000000000
000000000
000000000
000000000
000000000";
    assert!(input1.parse::<Sudoku>().is_err());

    let input2 = "000000000
000009000
000900000
000000000
000000000
000000000
000000000
000000000
000000000";
    assert!(input2.parse::<Sudoku>().is_err());

    let input3 = "000000000
000000000
000900000
000000000
000000000
000000000
000000000
000900000
000000000";
    assert!(input3.parse::<Sudoku>().is_err());

    let input4 = "This is not a Sudoku!";
    assert!(input4.parse::<Sudoku>().is_err());

    let input5 = "000000000
000000000
000900000
000000000
000000000
000000000
000000000
000900000
000000000
trailing output is bad";
    assert!(input5.parse::<Sudoku>().is_err());
}

#[test]
fn generate() {
    let mut rng = seeded(1);
    for _ in 1..10 {
        let s = Sudoku::generate(&mut rng);
        assert!(s.has_unique_solution());
    }
}

#[test]
fn generate_filled_is_solved() {
    let mut rng = seeded(7);
    let s = Sudoku::generate_filled(&mut rng);
    assert!(s.is_solved());
    assert!(s.find_min_poss().is_none());
    assert_eq!(all_solutions(&s), vec![s.clone()]);
}

#[test]
fn generate_depends_on_the_seed() {
    let a = Sudoku::generate_filled(&mut seeded(1));
    let b = Sudoku::generate_filled(&mut seeded(2));
    let c = Sudoku::generate_filled(&mut seeded(1));
    assert_eq!(a, c);
    assert_ne!(a, b);
}

#[test]
fn parse_errors_name_the_place() {
    assert_eq!(
        "This is not a Sudoku!".parse::<Sudoku>(),
        Err(Error::UnexpectedChar { row: 0, col: 0, found: 'T' })
    );
    assert_eq!(
        "123 456 789\n12x".parse::<Sudoku>(),
        Err(Error::UnexpectedChar { row: 1, col: 2, found: 'x' })
    );
    assert_eq!("".parse::<Sudoku>(), Err(Error::UnexpectedEnd { row: 0, col: 0 }));
    assert_eq!(
        "000000000 000000000 0000".parse::<Sudoku>(),
        Err(Error::UnexpectedEnd { row: 2, col: 4 })
    );
    let mut long = String::from(EULER);
    long.push_str("\n7");
    assert_eq!(long.parse::<Sudoku>(), Err(Error::TrailingInput { found: '7' }));
    let mut spaced = String::from(EULER);
    spaced.push_str(" \n\t ");
    assert!(spaced.parse::<Sudoku>().is_ok());
    assert_eq!(
        "990000000000000000000000000000000000000000000000000000000000000000000000000000000"
            .parse::<Sudoku>(),
        Err(Error::InvalidSudoku)
    );
}

#[test]
fn parse_takes_dots_bars_and_wide_spaces() {
    let text = "..3|.2.|6..\u{2003}9..|3.5|..1 __1|8_6|4__\u{a0}
        ..8|1.2|9.. 7..|...|..8 ..6|7.8|2..
        ..2|6.9|5.. 8..|2.3|..9 ..5|.1.|3..";
    assert_eq!(Sudoku::parse(text), Sudoku::parse(EULER));
}

#[test]
fn nine_twice_in_first_row_is_invalid() {
    let mut grid = [[0u8; 9]; 9];
    grid[0][0] = 9;
    grid[0][5] = 9;
    assert_eq!(Sudoku::from_grid(grid), Err(Error::InvalidSudoku));
    grid[0][5] = 10;
    assert_eq!(Sudoku::from_grid(grid), Err(Error::InvalidSudoku));
}

#[test]
fn candidates_after_construction() {
    let s = Sudoku::parse(EULER).unwrap();
    // Row 0 holds 3, 2, 6; column 0 holds 9, 7, 8; the block holds 3, 9, 1.
    assert_eq!(s.hints(0, 0).list(), vec![4, 5]);
    assert_eq!(s.hints(0, 2).list(), Vec::<u8>::new());
    assert_eq!(s.hints(4, 4).list(), vec![3, 4, 5, 6, 9]);
    for i in 0..9 {
        for j in 0..9 {
            for n in 1..10u8 {
                let expected = s.get(i, j) == 0 && s.is_valid_at(n, i, j);
                assert_eq!(s.hints(i, j).get(n), expected);
            }
        }
    }
}

#[test]
fn put_then_remove_restores() {
    let s = Sudoku::parse(EULER).unwrap();
    let mut t = s.clone();
    t.put_at(4, 0, 0);
    assert_eq!(t.get(0, 0), 4);
    assert_ne!(t, s);
    assert_eq!(t.hints(0, 1).list(), vec![5, 7, 8]);
    assert_eq!(t.remove_at(0, 0), 4);
    assert_eq!(t, s);
    assert_eq!(t.remove_at(0, 0), 0);
    assert_eq!(t, s);
}

#[test]
fn put_over_a_digit_replaces_it() {
    let s = Sudoku::parse(EULER).unwrap();
    let mut t = s.clone();
    t.put_at(4, 0, 0);
    t.put_at(5, 0, 0);
    let mut u = s.clone();
    u.put_at(5, 0, 0);
    assert_eq!(t, u);
    let mut grid = [[0u8; 9]; 9];
    for i in 0..9 {
        grid[i] = s.row(i);
    }
    grid[0][0] = 5;
    assert_eq!(u, Sudoku::from_grid(grid).unwrap());
}

#[test]
fn euler_first_grid_end_to_end() {
    let s = Sudoku::parse(EULER).unwrap();
    let found = all_solutions(&s);
    assert_eq!(found.len(), 1);
    assert_eq!(found[0], Sudoku::parse(EULER_SOLVED).unwrap());
    assert!(found[0].is_solved());
    assert!(s.has_solution());
    assert!(s.has_unique_solution());
    assert!(!s.is_solved());
}

#[test]
fn empty_grid_has_many_solutions() {
    let s = Sudoku::from_grid([[0u8; 9]; 9]).unwrap();
    assert!(s.has_solution());
    assert!(!s.has_unique_solution());
    assert_eq!(s.find_min_poss(), Some((0, 0)));
    let mut all = s.solutions();
    let first = all.next().unwrap();
    assert_eq!(
        first.render(false),
        "123456789\n456789123\n789123456\n231674895\n875912364\n694538217\n317265948\n542897631\n968341572"
    );
}

#[test]
fn two_solutions_come_in_order() {
    // The solved grid without the four cells of a rectangle that holds two
    // digits crosswise and lies in two rows, two columns and two blocks.
    let solved = Sudoku::parse(EULER_SOLVED).unwrap();
    let mut s = solved.clone();
    let mut rect = None;
    'search: for r1 in 0..9 {
        for r2 in (r1 + 1)..9 {
            for c1 in 0..9 {
                for c2 in (c1 + 1)..9 {
                    let same_band = r1 / 3 == r2 / 3;
                    let same_stack = c1 / 3 == c2 / 3;
                    if same_band == same_stack {
                        continue;
                    }
                    if solved.get(r1, c1) == solved.get(r2, c2)
                        && solved.get(r1, c2) == solved.get(r2, c1)
                    {
                        rect = Some((r1, r2, c1, c2));
                        break 'search;
                    }
                }
            }
        }
    }
    let (r1, r2, c1, c2) = rect.expect("the grid has no such rectangle");
    let a = solved.get(r1, c1);
    let b = solved.get(r1, c2);
    s.remove_at(r1, c1);
    s.remove_at(r1, c2);
    s.remove_at(r2, c1);
    s.remove_at(r2, c2);
    assert!(s.has_solution());
    assert!(!s.has_unique_solution());
    let found = all_solutions(&s);
    assert_eq!(found.len(), 2);
    assert_ne!(found[0], found[1]);
    let mut swapped = s.clone();
    swapped.put_at(b, r1, c1);
    swapped.put_at(a, r1, c2);
    swapped.put_at(a, r2, c1);
    swapped.put_at(b, r2, c2);
    assert!(found.contains(&solved));
    assert!(found.contains(&swapped));
    // The lower digit of the first cell that is branched on comes first.
    let (row, col) = s.find_min_poss().unwrap();
    assert!(found[0].get(row, col) < found[1].get(row, col));
}

#[test]
fn no_solution_is_found_for_a_dead_end() {
    // No digit is left for the first cell: its row holds 1 to 8 and its
    // column holds 9.
    let mut grid = [[0u8; 9]; 9];
    for j in 1..9 {
        grid[0][j] = j as u8;
    }
    grid[1][0] = 9;
    let s = Sudoku::from_grid(grid).unwrap();
    assert_eq!(s.hints(0, 0).list(), Vec::<u8>::new());
    assert_eq!(s.find_min_poss(), Some((0, 0)));
    assert!(!s.has_solution());
    assert!(!s.has_unique_solution());
    assert!(s.solutions().next().is_none());
}

#[test]
fn render_plain_and_pretty() {
    let s = Sudoku::parse(EULER).unwrap();
    assert_eq!(s.render(false), EULER);
    let pretty = "+---+---+---+
|003|020|600|
|900|305|001|
|001|806|400|
+---+---+---+
|008|102|900|
|700|000|008|
|006|708|200|
+---+---+---+
|002|609|500|
|800|203|009|
|005|010|300|
+---+---+---+";
    assert_eq!(s.render(true), pretty);
}

#[test]
fn round_trip_of_a_solved_board() {
    let solved = Sudoku::parse(EULER_SOLVED).unwrap();
    let text = solved.render(false);
    assert_eq!(text, EULER_SOLVED);
    assert_eq!(Sudoku::parse(&text).unwrap(), solved);
    let mut rng = seeded(3);
    let full = Sudoku::generate_filled(&mut rng);
    assert_eq!(Sudoku::parse(&full.render(false)).unwrap(), full);
    assert_eq!(Sudoku::parse(&full.render(false)).unwrap().render(false), full.render(false));
}

#[test]
fn min_cell_is_first_among_fewest() {
    let s = Sudoku::parse(EULER).unwrap();
    let (row, col) = s.find_min_poss().unwrap();
    let least = s.hints(row, col).count();
    for i in 0..9 {
        for j in 0..9 {
            if s.get(i, j) == 0 {
                let n = s.hints(i, j).count();
                assert!(least < n || (least == n && (row, col) <= (i, j)));
            }
        }
    }
    assert_eq!(s.empty_cells().len(), 49);
    assert_eq!(s.empty_cells()[0], (0, 0));
}

#[test]
fn annotations_list_and_lowest() {
    let a = Annotations::from_array([false, false, true, false, true, false, false, false, true]);
    assert_eq!(a.list(), vec![3, 5, 9]);
    assert_eq!(a.lowest(), Some(3));
    assert_eq!(Annotations::new().lowest(), None);
    assert_eq!(Annotations::default(), Annotations::new());
    assert_eq!(Annotations::new().count(), 0);
}

#[test]
fn every_given_of_a_generated_puzzle_is_needed() {
    let mut rng = seeded(11);
    let s = Sudoku::generate(&mut rng);
    assert!(s.has_unique_solution());
    let mut givens = 0;
    for i in 0..9 {
        for j in 0..9 {
            if s.get(i, j) != 0 {
                givens += 1;
                let mut t = s.clone();
                assert_eq!(t.remove_at(i, j), s.get(i, j));
                assert!(t.has_solution());
                assert!(!t.has_unique_solution());
            }
        }
    }
    assert!(17 <= givens && givens < 81);
    assert_eq!(s.empty_cells().len(), 81 - givens);
}

#[test]
fn try_digits_takes_the_first_that_fits() {
    let s = Sudoku::parse(EULER).unwrap();
    // The first cell takes 4 or 5 by its peers, and 4 in the solution.
    let mut t = s.clone();
    assert_eq!(t.try_digits(&vec![5, 4], 0, 0), Some(4));
    assert_eq!(t.get(0, 0), 4);
    let mut u = s.clone();
    assert_eq!(u.try_digits(&vec![5, 9, 1], 0, 0), None);
    assert_eq!(u, s);
    let mut v = s.clone();
    assert_eq!(v.try_digits(&vec![], 0, 0), None);
    assert_eq!(v, s);
    let mut w = Sudoku::from_grid([[0u8; 9]; 9]).unwrap();
    assert_eq!(w.try_digits(&vec![7, 4], 3, 3), Some(7));
    assert_eq!(w.get(3, 3), 7);
}

#[test]
fn dig_empties_what_is_not_needed() {
    let solved = Sudoku::parse(EULER_SOLVED).unwrap();
    let mut s = solved.clone();
    s.dig(&vec![]);
    assert_eq!(s, solved);
    // Any one cell of a solved board can go, and any four cells of a
    // rectangle that holds two digits crosswise but the last.
    s.dig(&vec![(0, 1), (0, 6), (1, 1), (1, 6), (0, 1)]);
    assert_eq!(s.get(0, 1), 0);
    assert_eq!(s.get(0, 6), 0);
    assert_eq!(s.get(1, 1), 0);
    assert_eq!(s.get(1, 6), solved.get(1, 6));
    assert_eq!(s.empty_cells(), vec![(0, 1), (0, 6), (1, 1)]);
    assert!(s.has_unique_solution());
    // Digging the puzzle in row-major order leaves a puzzle with one
    // solution of which every given is needed.
    let mut all = Vec::new();
    for i in 0..9 {
        for j in 0..9 {
            all.push((i, j));
        }
    }
    let mut p = solved.clone();
    p.dig(&all);
    assert!(p.has_unique_solution());
    assert_eq!(p.solutions().next().unwrap(), solved);
    let mut again = p.clone();
    again.dig(&all);
    assert_eq!(again, p);
}
