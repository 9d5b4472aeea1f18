use letterboxed::grid::Grid;

// Grid "abc,def,ghi,jkl": sides are {a,b,c}, {d,e,f}, {g,h,i}, {j,k,l}.
// "adbejch" uses letters a,d,b,e,j,c,h and ends in h; "hfkgli" starts
// with h and uses the remaining five letters; together they cover all
// twelve. "adgjbehkcfil" covers all twelve letters in a single word.

#[test]
fn test_solver_finds_two_word_chain() {
    let dictionary = vec!["adbejch".to_string(), "hfkgli".to_string()];
    let grid = Grid::new("abc,def,ghi,jkl".to_string(), dictionary, None);
    assert!(grid.is_valid());
    let solution = grid.solve();
    assert_eq!(
        solution,
        Some(vec!["adbejch".to_string(), "hfkgli".to_string()])
    );
}

#[test]
fn test_solver_prefers_shortest_solution() {
    let dictionary = vec![
        "adbejch".to_string(),
        "hfkgli".to_string(),
        "adgjbehkcfil".to_string(),
    ];
    let grid = Grid::new("abc,def,ghi,jkl".to_string(), dictionary, None);
    let solution = grid.solve();
    assert_eq!(solution, Some(vec!["adgjbehkcfil".to_string()]));
}

#[test]
fn test_solver_respects_max_guesses() {
    // the only covering chain needs two words, but only one is allowed
    let dictionary = vec!["adbejch".to_string(), "hfkgli".to_string()];
    let grid = Grid::new("abc,def,ghi,jkl".to_string(), dictionary, Some(1));
    assert_eq!(grid.solve(), None);
}

#[test]
fn test_solver_zero_guesses_means_no_solution() {
    let dictionary = vec!["adgjbehkcfil".to_string()];
    let grid = Grid::new("abc,def,ghi,jkl".to_string(), dictionary, Some(0));
    assert_eq!(grid.solve(), None);
}

#[test]
fn test_solver_no_words_no_solution() {
    let grid = Grid::new("abc,def,ghi,jkl".to_string(), Vec::new(), None);
    assert_eq!(grid.solve(), None);
}

#[test]
fn test_solver_skips_non_covering_chains() {
    // legal words, but they cannot cover all twelve letters
    let dictionary = vec!["adb".to_string(), "bej".to_string()];
    let grid = Grid::new("abc,def,ghi,jkl".to_string(), dictionary, None);
    assert_eq!(grid.solve(), None);
}

#[test]
fn test_solver_is_deterministic() {
    let dictionary = vec![
        "adbejch".to_string(),
        "hfkgli".to_string(),
        "adgjbehkcfil".to_string(),
        "lidgjbehkcf".to_string(),
    ];
    let first_grid = Grid::new("abc,def,ghi,jkl".to_string(), dictionary.clone(), None);
    let second_grid = Grid::new("abc,def,ghi,jkl".to_string(), dictionary, None);
    assert_eq!(first_grid.solve(), second_grid.solve());
}

#[test]
fn test_solution_chain_properties() {
    // the returned chain links head to tail and uses each word once
    let dictionary = vec!["adbejch".to_string(), "hfkgli".to_string()];
    let grid = Grid::new("abc,def,ghi,jkl".to_string(), dictionary, None);
    let solution = grid.solve().unwrap();
    assert!(solution.len() <= grid.max_guesses);
    for pair in solution.windows(2) {
        let tail = pair[0].chars().last().unwrap();
        let head = pair[1].chars().next().unwrap();
        assert_eq!(tail, head);
    }
    assert!(grid.is_solution_valid(&solution));
}

#[test]
fn test_is_solution_valid_accepts_full_cover() {
    let grid = Grid::new("abc,def,ghi,jkl".to_string(), Vec::new(), None);
    let chain = vec!["adbejch".to_string(), "hfkgli".to_string()];
    assert!(grid.is_solution_valid(&chain));
}

#[test]
fn test_is_solution_valid_rejects_partial_cover() {
    let grid = Grid::new("abc,def,ghi,jkl".to_string(), Vec::new(), None);
    let chain = vec!["adbejch".to_string()];
    assert!(!grid.is_solution_valid(&chain));
}
