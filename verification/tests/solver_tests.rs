use stick_path::solver::InputError;
use stick_path::solver::ParserError;
use stick_path::solver::Path;
use stick_path::solver::StickPathSolver;

#[test]
fn test_first_example() {
    let mut solver: StickPathSolver<&str, i32> = StickPathSolver::new();
    if let Err(error) = solver.add_entries(vec!["A", "B", "C"]) {
        panic!("cannot add entries due to unexpected error {}", error.message());
    };
    for path in vec!["| | |", "|--| |", "| |--|", "| |--|", "| | |"].iter() {
        if let Err(error) = solver.add_path(path) {
            panic!("cannot add path due to unexpected error {}", error.message());
        }
    }
    if let Err(error) = solver.add_outputs(vec![1, 2, 3]) {
        panic!("cannot add outputs due to unexpected error {}", error.message());
    }
    let paths = solver.get_paths();
    let expected_outputs = vec![(&"A", &2i32), (&"B", &1i32), (&"C", &3i32)];
    for expected_output in expected_outputs.iter() {
        assert!(paths.contains(expected_output));
    }
}

#[test]
fn test_second_example() {
    let mut solver: StickPathSolver<&str, i32> = StickPathSolver::new();
    if let Err(error) = solver.add_entries(vec!["P", "Q", "R", "S", "T", "U", "V", "W"]) {
        panic!("cannot add entries due to unexpected error {}", error.message());
    };
    for path in vec![
        "| | | | |--| | |",
        "| | |--| | | |--|",
        "| |--| |--| | | |",
        "|--| |--| | | |--|",
        "|--| | | | |--| |",
        "| |--| | |--| |--|",
        "| | | |--| |--| |",
        "|--| | | |--| | |",
        "| | |--| | | | |",
        "| | | |--| | |--|",
        "| | | | |--| | |",
        "|--| | | | | | |",
        "|--| |--| | | |--|",
        "| |--| | |--| | |",
        "| | |--| | | |--|",
        "|--| |--| | |--| |",
    ]
    .iter()
    {
        if let Err(error) = solver.add_path(path) {
            panic!("cannot add path due to unexpected error {}", error.message());
        }
    }
    if let Err(error) = solver.add_outputs(vec![1, 2, 3, 4, 5, 6, 7, 8]) {
        panic!("cannot add outputs due to unexpected error {}", error.message());
    }
    let paths = solver.get_paths();
    let expected_outputs = vec![
        (&"P", &3i32),
        (&"Q", &7),
        (&"R", &8),
        (&"S", &5),
        (&"T", &6),
        (&"U", &2),
        (&"V", &4),
        (&"W", &1),
    ];
    for expected_output in expected_outputs.iter() {
        assert!(paths.contains(expected_output));
    }
}

#[test]
fn test_symbol_round_trip() {
    assert_eq!(Path::from_token("|"), Ok(Path::Down));
    assert_eq!(Path::from_token("<"), Ok(Path::Left));
    assert_eq!(Path::from_token(">"), Ok(Path::Right));
    assert_eq!(Path::from_token(""), Err(ParserError::IncorrectChar));
    assert_eq!(Path::from_token("x"), Err(ParserError::IncorrectChar));
    assert_eq!(Path::from_token("||"), Err(ParserError::IncorrectChar));
    assert_eq!(Path::from_token("-"), Err(ParserError::IncorrectChar));
    assert_eq!(Path::from_token(" "), Err(ParserError::IncorrectChar));
}

#[test]
fn test_empty_row_rejected() {
    let mut solver: StickPathSolver<&str, i32> = StickPathSolver::new();
    solver.add_entries(vec!["A", "B"]).unwrap();
    assert_eq!(solver.add_path(""), Err(ParserError::Empty));
    assert_eq!(solver.add_path("   \t "), Err(ParserError::Empty));
}

#[test]
fn test_incorrect_char_rejected() {
    let mut solver: StickPathSolver<&str, i32> = StickPathSolver::new();
    solver.add_entries(vec!["A", "B", "C"]).unwrap();
    assert_eq!(solver.add_path("| x |"), Err(ParserError::IncorrectChar));
    assert_eq!(solver.add_path("|| | |"), Err(ParserError::IncorrectChar));
}

#[test]
fn test_wrong_row_length_rejected() {
    let mut solver: StickPathSolver<&str, i32> = StickPathSolver::new();
    solver.add_entries(vec!["A", "B", "C"]).unwrap();
    assert_eq!(solver.add_path("| |"), Err(ParserError::IncorrectRowLength));
    assert_eq!(solver.add_path("| | | |"), Err(ParserError::IncorrectRowLength));
}

#[test]
fn test_edge_move_rejected() {
    let mut solver: StickPathSolver<&str, i32> = StickPathSolver::new();
    solver.add_entries(vec!["A", "B", "C"]).unwrap();
    assert_eq!(solver.add_path("< | |"), Err(ParserError::IndexOutOfRange));
    assert_eq!(solver.add_path("| | >"), Err(ParserError::IndexOutOfRange));
}

#[test]
fn test_row_failure_leaves_mapping_unchanged() {
    let mut solver: StickPathSolver<&str, i32> = StickPathSolver::new();
    solver.add_entries(vec!["A", "B"]).unwrap();
    solver.add_path("|--|").unwrap();
    solver.add_outputs(vec![10, 20]).unwrap();
    let before: Vec<(&str, i32)> = solver.get_paths().into_iter().map(|(a, b)| (*a, *b)).collect();
    assert_eq!(solver.add_path("| x"), Err(ParserError::IncorrectChar));
    assert_eq!(solver.add_path(""), Err(ParserError::Empty));
    assert_eq!(solver.add_path("|"), Err(ParserError::IncorrectRowLength));
    assert_eq!(solver.add_path("| >"), Err(ParserError::IndexOutOfRange));
    let after: Vec<(&str, i32)> = solver.get_paths().into_iter().map(|(a, b)| (*a, *b)).collect();
    assert_eq!(before, after);
    assert!(after.contains(&("A", 20)));
    assert!(after.contains(&("B", 10)));
}

#[test]
fn test_output_arity() {
    let mut solver: StickPathSolver<&str, i32> = StickPathSolver::new();
    solver.add_entries(vec!["A", "B", "C"]).unwrap();
    assert_eq!(solver.add_outputs(vec![1, 2]), Err(InputError::IncorrectInputSize));
    assert_eq!(solver.add_outputs(vec![1, 2, 3, 4]), Err(InputError::IncorrectInputSize));
    assert_eq!(solver.add_outputs(vec![1, 2, 3]), Ok(()));
}

#[test]
fn test_entry_conservation_across_rows() {
    let mut solver: StickPathSolver<&str, i32> = StickPathSolver::new();
    solver.add_entries(vec!["A", "B", "C", "D"]).unwrap();
    for row in ["|--| | |", "| |--| |", "| | |--|", "|--| |--|"].iter() {
        solver.add_path(row).unwrap();
    }
    solver.add_outputs(vec![1, 2, 3, 4]).unwrap();
    let mut entries: Vec<&str> = solver.get_paths().into_iter().map(|(a, _)| *a).collect();
    entries.sort();
    assert_eq!(entries, vec!["A", "B", "C", "D"]);
}

#[test]
fn test_merged_lanes_tolerated() {
    // A malformed row may route two lanes to the same index; the entries are
    // unioned into one lane and both survive to the output join.
    let mut solver: StickPathSolver<&str, i32> = StickPathSolver::new();
    solver.add_entries(vec!["A", "B", "C"]).unwrap();
    solver.add_path("> < |").unwrap();
    solver.add_path("> > <").unwrap();
    solver.add_outputs(vec![1, 2, 3]).unwrap();
    let paths: Vec<(&str, i32)> = solver.get_paths().into_iter().map(|(a, b)| (*a, *b)).collect();
    assert_eq!(paths.len(), 3);
    assert!(paths.contains(&("A", 3)));
    assert!(paths.contains(&("B", 2)));
    assert!(paths.contains(&("C", 2)));
}

#[test]
fn test_string_entries_and_outputs() {
    let mut solver: StickPathSolver<String, String> = StickPathSolver::new();
    solver.add_entries(vec!["left".to_string(), "right".to_string()]).unwrap();
    solver.add_path("|--|").unwrap();
    solver.add_outputs(vec!["first".to_string(), "second".to_string()]).unwrap();
    let paths: Vec<(String, String)> =
        solver.get_paths().into_iter().map(|(a, b)| (a.clone(), b.clone())).collect();
    assert!(paths.contains(&("left".to_string(), "second".to_string())));
    assert!(paths.contains(&("right".to_string(), "first".to_string())));
}

#[test]
fn test_error_messages() {
    assert_eq!(ParserError::IncorrectChar.message(), "incorrect character found");
    assert_eq!(ParserError::Empty.message(), "line was empty");
    assert_eq!(
        ParserError::IncorrectRowLength.message(),
        "row length does not match the lane count"
    );
    assert_eq!(ParserError::IndexOutOfRange.message(), "movement leaves the lane index range");
    assert_eq!(InputError::IncorrectInputSize.message(), "incorrect input size");
}
