use letterboxed::grid::{is_valid_args_length, Args, Grid};

#[test]
fn test_grid_is_valid() {
    let grid = Grid::new("abc,def,ghi,jkl".to_string(), Vec::new(), None);
    assert_eq!(grid.is_valid(), true);
}

#[test]
fn test_is_valid_args_length() {
    let args = Args {
        grid: "abc,def,ghi,jkl".to_string(),
        max_guesses: None,
    };
    assert_eq!(is_valid_args_length(&args), true);
}

#[test]
fn test_is_invalid_args_length() {
    let args = Args {
        grid: "abc,def,ghi".to_string(),
        max_guesses: None,
    };
    assert_eq!(is_valid_args_length(&args), false);
}

#[test]
fn test_grid_has_too_few_letters() {
    let grid = Grid::new("ab,def,ghi,jkl".to_string(), Vec::new(), None);
    assert_eq!(grid.is_valid(), false);
}

#[test]
fn test_grid_has_too_many_letters() {
    let grid = Grid::new("abcd,def,ghi,jkl".to_string(), Vec::new(), None);
    assert_eq!(grid.is_valid(), false);
}

#[test]
fn test_is_valid_word_valid() {
    let grid = Grid::new("abc,def,ghi,jkl".to_string(), Vec::new(), None);
    assert!(grid.is_valid_word("beg"));
}

#[test]
fn test_is_valid_word_invalid_single_side() {
    let grid = Grid::new("abc,def,ghi,jkl".to_string(), Vec::new(), None);
    assert!(!grid.is_valid_word("ace"));
}

#[test]
fn test_is_valid_word_invalid_nonexistent_letter() {
    let grid = Grid::new("abc,def,ghi,jkl".to_string(), Vec::new(), None);
    assert!(!grid.is_valid_word("xyz"));
}

#[test]
fn test_generate_words() {
    let dictionary = vec![
        "beg".to_string(),
        "ace".to_string(),
        "xyz".to_string(),
        "fij".to_string(),
    ];
    let grid = Grid::new("abc,def,ghi,jkl".to_string(), dictionary.clone(), None);
    let generated_words = grid.generate_words();
    let expected_words: Vec<String> = vec!["beg".to_string(), "fij".to_string()];

    assert_eq!(generated_words, expected_words);
}

#[test]
fn test_is_valid_word_too_short() {
    let grid = Grid::new("abc,def,ghi,jkl".to_string(), Vec::new(), None);
    assert!(!grid.is_valid_word("ad"));
}

#[test]
fn test_duplicate_letters_make_grid_invalid() {
    // twelve positions but only eleven distinct letters
    let grid = Grid::new("abc,def,ghi,jka".to_string(), Vec::new(), None);
    assert_eq!(grid.is_valid(), false);
}

#[test]
fn test_default_max_guesses() {
    let grid = Grid::new("abc,def,ghi,jkl".to_string(), Vec::new(), None);
    assert_eq!(grid.max_guesses, 6);
}

#[test]
fn test_max_guesses_override() {
    let grid = Grid::new("abc,def,ghi,jkl".to_string(), Vec::new(), Some(3));
    assert_eq!(grid.max_guesses, 3);
}

#[test]
fn test_empty_grid_string_is_invalid() {
    let grid = Grid::new(String::new(), Vec::new(), None);
    assert_eq!(grid.is_valid(), false);
}

#[test]
fn test_groups_past_the_fourth_are_ignored() {
    // only the first four comma-separated groups become sides
    let grid = Grid::new("abc,def,ghi,jkl,mno".to_string(), Vec::new(), None);
    assert_eq!(grid.is_valid(), true);
    assert!(!grid.is_valid_word("man"));
}

#[test]
fn test_generate_words_skips_short_words() {
    let dictionary = vec!["ad".to_string(), "beg".to_string()];
    let grid = Grid::new("abc,def,ghi,jkl".to_string(), dictionary, None);
    assert_eq!(grid.generate_words(), vec!["beg".to_string()]);
}
