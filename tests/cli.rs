use dirtree::cli::{
    check_target, multiple_paths_message, parse_args, path_error_message, print_help, same_text,
    ParseOutcome, PathError,
};

fn args(v: &[&str]) -> Vec<String> {
    v.iter().map(|s| s.to_string()).collect()
}

fn run_config(v: &[&str]) -> (String, bool, bool) {
    match parse_args(&args(v)) {
        ParseOutcome::Run(c) => (c.target_path, c.show_hidden, c.sort),
        _ => panic!("expected a run"),
    }
}

#[test]
fn defaults_without_arguments() {
    assert_eq!(run_config(&[]), (".".to_string(), false, true));
}

#[test]
fn flags_and_path() {
    assert_eq!(run_config(&["-a", "src", "-U"]), ("src".to_string(), true, false));
}

#[test]
fn unknown_flag_is_a_path() {
    assert_eq!(run_config(&["-x"]), ("-x".to_string(), false, true));
}

#[test]
fn two_paths_are_refused() {
    assert!(matches!(parse_args(&args(&["one", "two"])), ParseOutcome::MultiplePaths));
    assert!(multiple_paths_message().contains("Multiple paths specified"));
    assert_eq!(multiple_paths_message(), "Error: Multiple paths specified");
}

#[test]
fn help_stops_reading() {
    assert!(matches!(parse_args(&args(&["--help"])), ParseOutcome::Help));
    assert!(matches!(parse_args(&args(&["a", "--help", "b"])), ParseOutcome::Help));
    assert!(matches!(parse_args(&args(&["a", "b", "--help"])), ParseOutcome::MultiplePaths));
}

#[test]
fn unsorted_flag_turns_sorting_off() {
    assert_eq!(run_config(&["-U"]), (".".to_string(), false, false));
}

#[test]
fn missing_path_is_refused() {
    let r = check_target(false, false);
    assert_eq!(r, Err(PathError::NotFound));
    let msg = path_error_message(&PathError::NotFound, "nowhere");
    assert!(msg.contains("does not exist"));
    assert_eq!(msg, "Error: Path 'nowhere' does not exist");
}

#[test]
fn file_path_is_refused() {
    let r = check_target(true, false);
    assert_eq!(r, Err(PathError::NotADirectory));
    let msg = path_error_message(&PathError::NotADirectory, "notes.txt");
    assert!(msg.contains("is not a directory"));
    assert_eq!(msg, "Error: 'notes.txt' is not a directory");
}

#[test]
fn directory_is_accepted() {
    assert_eq!(check_target(true, true), Ok(()));
}

#[test]
fn help_text() {
    let mut out = vec!["before".to_string()];
    print_help(&mut out);
    assert_eq!(out.len(), 9);
    assert_eq!(out[0], "before");
    assert_eq!(out[1], "Usage: dirtree [OPTIONS] [PATH]");
    assert_eq!(out[2], "");
    assert_eq!(out[3], "Options:");
    assert_eq!(out[4], "  -a        Show hidden files");
    assert_eq!(out[5], "  -U        Do not sort (keep listing order)");
    assert_eq!(out[6], "  --help    Display this help");
    assert_eq!(out[7], "");
    assert_eq!(out[8], "Default PATH is '.' (current directory).");
}

#[test]
fn text_equality() {
    assert!(same_text("-a", "-a"));
    assert!(!same_text("-a", "-ab"));
    assert!(!same_text("-a", "-U"));
    assert!(same_text("", ""));
}
