use rsudoku::Sudoku;

const PROBLEMS: &str = "003020600
900305001
001806400
008102900
700000008
006708200
002609500
800203009
005010300
=========
200080300
060070084
030500209
000105408
000000000
402706000
301007040
720040060
004010003";

const SOLUTIONS: &str = "483921657
967345821
251876493
548132976
729564138
136798245
372689514
814253769
695417382
=========
245981376
169273584
837564219
976125438
513498627
482736951
391657842
728349165
654812793";

fn read(probs: &str) -> Vec<Sudoku> {
    probs
        .split("=========")
        .map(|s| s.parse().expect("could not parse input"))
        .collect()
}

#[test]
fn solve_euler96() {
    let probs = read(PROBLEMS);
    let sols = read(SOLUTIONS);

    assert_eq!(probs.len(), sols.len());
    for (n, (p, s)) in probs.iter().zip(sols.iter()).enumerate() {
        let mut all = p.solutions();
        let mut psols = Vec::new();
        while let Some(b) = all.next() {
            psols.push(b);
        }
        assert_eq!(
            psols.len(),
            1,
            "problem {} yielded {} solutions",
            n,
            psols.len()
        );
        assert_eq!(&psols[0], s);
    }
}
