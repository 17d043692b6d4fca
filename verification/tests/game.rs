use rand::{SeedableRng, StdRng};
use rsudoku::errors::Error;
use rsudoku::game::Game;
use rsudoku::Sudoku;

/// The example problem from Project Euler problem 96.
const EULER: &str = "003020600
900305001
001806400
008102900
700000008
006708200
002609500
800203009
005010300";

fn rng() -> StdRng {
    let words = [5usize, 6, 7, 8];
    StdRng::from_seed(&words[..])
}

#[test]
fn interactive_game() {
    let mut rng = rng();
    // The following steps represent a typical series of user interactions.
    // 1. Start the game
    let s = EULER.parse::<Sudoku>().unwrap();
    let mut game = Game::from_sudoku(s.clone());
    assert_eq!(game.board(), &s);
    assert_eq!(game.given(), &s);

    // 2. Try to insert a number in a given space, which should do nothing
    game.set_position(1, 0);
    let old = game.clone();
    game.put(4);
    assert_eq!(game, old, "inserting number in given space was not a no-op");

    // 3. Try to remove the number in that space, which should also do nothing
    game.remove();
    assert_eq!(game, old, "removing number in given space was not a no-op");

    // 4. Move to another space and insert a number there
    game.set_position(1, 6);
    let old = game.clone();
    game.put(8);
    assert_eq!(game.board().row(1)[6], 8);
    // This move is correct, so the board should still have a solution
    assert!(game.board().has_unique_solution());

    // 5. Undo that move
    game.undo();
    assert_eq!(game, old, "undo did not work correctly");

    // 6. Trying to undo further should do nothing
    assert_eq!(game.undo(), false, "was able to undo further than expected");

    // 7. Make a wrong move and then replace it with the right one.
    game.put(6);
    assert!(!game.board().has_unique_solution());
    game.put(8);
    assert!(game.board().has_unique_solution());

    // 8. Undo both moves
    game.undo();
    game.undo();
    assert_eq!(game, old, "undo did not work correctly");

    // 9. Use a hint
    game.hint(&mut rng).expect("could not give hint");
    assert!(game.board().has_unique_solution());

    // 10. Undo the hint
    game.undo();
    assert_eq!(game, old, "did not properly undo hint");

    // 11. Try moving around a bit
    game.set_position(0, 0);
    assert_eq!(game.position(), (0, 0));
    game.move_by(3, 5);
    assert_eq!(game.position(), (3, 5));
    game.move_by(6, 2);
    assert_eq!(game.position(), (3, 7));
    game.move_by(5, 1);
    assert_eq!(game.position(), (8, 8));

    // 12. Make sure that moving around wasn't captured in the undo history
    assert_eq!(game.undo(), false);

    // 13. Completely solve the game
    game.solve();
    assert!(game.is_solved());
    assert!(game.board().is_solved());

    // 14. Make sure the given board was never touched
    assert_eq!(game.given(), &s);

    // 15. Undo the solve action
    assert_eq!(game.undo(), true);
    game.set_position(1, 6);
    assert_eq!(game, old, "did not properly undo solve");
}

#[test]
fn hint_fills_an_empty_cell_from_the_solution() {
    let mut rng = rng();
    let s = EULER.parse::<Sudoku>().unwrap();
    let solution = s.solutions().next().unwrap();
    let mut game = Game::from_sudoku(s.clone());
    let mut given = 0;
    while let Some((row, col)) = game.hint(&mut rng).unwrap() {
        assert_eq!(s.get(row, col), 0);
        assert_eq!(game.board().get(row, col), solution.get(row, col));
        given += 1;
        assert!(given <= 49);
    }
    assert_eq!(given, 49);
    assert!(game.is_solved());
    assert_eq!(game.board(), &solution);
    assert_eq!(game.hint(&mut rng), Ok(None));
}

#[test]
fn hint_and_solve_fail_without_a_solution() {
    let mut rng = rng();
    let s = EULER.parse::<Sudoku>().unwrap();
    let mut game = Game::from_sudoku(s);
    game.set_position(0, 0);
    // 4 and 5 are the candidates of the first cell; 5 is the wrong one.
    game.put(5);
    assert!(!game.board().has_solution());
    let old = game.clone();
    assert_eq!(game.hint(&mut rng), Err(Error::InvalidSudoku));
    assert_eq!(game.solve(), false);
    assert_eq!(game, old);
    assert!(!game.is_solved());
}

#[test]
fn annotate_toggles_and_undoes() {
    let s = EULER.parse::<Sudoku>().unwrap();
    let mut game = Game::from_sudoku(s);
    game.set_position(2, 3);
    let old = game.clone();
    game.annotate(7);
    assert!(game.annotations()[2][3].get(7));
    assert_eq!(game.annotations()[2][3].count(), 1);
    assert_eq!(game.annotations()[2][4].count(), 0);
    game.annotate(7);
    assert!(!game.annotations()[2][3].get(7));
    assert!(game.undo());
    assert!(game.annotations()[2][3].get(7));
    assert!(game.undo());
    assert_eq!(game, old);
}

#[test]
fn move_by_stays_inside() {
    let s = EULER.parse::<Sudoku>().unwrap();
    let mut game = Game::from_sudoku(s);
    game.move_by(-1, -1);
    assert_eq!(game.position(), (0, 0));
    game.move_by(8, 8);
    assert_eq!(game.position(), (8, 8));
    game.move_by(1, -3);
    assert_eq!(game.position(), (8, 5));
    game.move_by(isize::MAX, isize::MIN);
    assert_eq!(game.position(), (8, 5));
    game.move_by(-8, 0);
    assert_eq!(game.position(), (0, 5));
}

#[test]
fn new_game_has_one_solution() {
    let mut rng = rng();
    let game = Game::new(&mut rng);
    assert!(game.board().has_unique_solution());
    assert_eq!(game.board(), game.given());
    assert_eq!(game.position(), (0, 0));
    assert!(!game.is_solved());
}

#[test]
fn fill_from_takes_the_digit_of_the_solution() {
    let s = EULER.parse::<Sudoku>().unwrap();
    let solution = s.solutions().next().unwrap();
    let mut game = Game::from_sudoku(s.clone());
    game.fill_from(&solution, 4, 4);
    assert_eq!(game.board().get(4, 4), 6);
    assert_eq!(game.position(), (0, 0));
    assert!(game.undo());
    assert_eq!(game.board(), &s);
}
