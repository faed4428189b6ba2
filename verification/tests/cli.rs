use simagef::cli::{
    main_pixel, main_signatures, parse_exec, read_arguments, split_words, Cli, RunError,
    DEFAULT_THRESHOLD,
};

fn cli(files: &[&str]) -> Cli {
    Cli { files: files.iter().map(|f| f.to_string()).collect(), ..Cli::default() }
}

#[test]
fn the_defaults_are_those_of_the_command_line() {
    let cli = Cli::default();
    assert!(!cli.pixels);
    assert!(!cli.pairs);
    assert!(!cli.no_database);
    assert_eq!(cli.threshold, None);
    assert_eq!(cli.exec_command, None);
    assert_eq!((cli.width, cli.height), (160, 160));
    assert!(cli.files.is_empty());
    assert_eq!(DEFAULT_THRESHOLD, 90);
}

#[test]
fn a_run_without_files_is_refused() {
    let error = main_signatures(&cli(&[])).unwrap_err();
    assert_eq!(error, RunError::NoFiles);
    assert_eq!(error.message(), "No files provided");
    assert_eq!(error.exit_status(), 1);
    assert_eq!(main_pixel(&cli(&[])).unwrap_err(), RunError::NoFiles);
}

#[test]
fn a_run_takes_its_defaults() {
    let run = main_signatures(&cli(&["a.png", "b.png"])).unwrap();
    assert!(run.use_database);
    assert_eq!(run.threshold, 90);
    assert_eq!(run.bucket_width, 30);
    assert_eq!(run.n_projections, 5);
    assert_eq!(run.n_hash_tables, 20);
    assert_eq!(run.dim, 625);
    assert_eq!(run.seed, 4001);
    assert_eq!(run.filenames, vec!["a.png".to_string(), "b.png".to_string()]);
    assert!(!run.dash_mode);
    assert!(!run.pairs);
    assert!(run.executable.is_none());
}

#[test]
fn a_run_takes_what_the_command_line_gives() {
    let mut options = cli(&["a.png", "-", "b.png", "-"]);
    options.threshold = Some(55);
    options.pairs = true;
    options.no_database = true;
    options.exec_command = Some("feh -F".to_string());
    let run = main_signatures(&options).unwrap();
    assert!(!run.use_database);
    assert_eq!(run.threshold, 55);
    assert_eq!(run.bucket_width, 100);
    assert_eq!(run.filenames, vec!["a.png".to_string(), "b.png".to_string()]);
    assert!(run.dash_mode);
    assert!(run.pairs);
    let executable = run.executable.unwrap();
    assert_eq!(executable.program, "feh");
    assert_eq!(executable.arguments, vec!["-F".to_string()]);
}

#[test]
fn a_dash_alone_asks_for_standard_input() {
    let run = main_signatures(&cli(&["-"])).unwrap();
    assert!(run.filenames.is_empty());
    assert!(run.dash_mode);
}

#[test]
fn only_a_dash_alone_is_a_dash() {
    let inputs = read_arguments(&vec!["--".to_string(), "-a".to_string(), "".to_string()]);
    assert_eq!(inputs.filenames, vec!["--".to_string(), "-a".to_string(), "".to_string()]);
    assert!(!inputs.dash_mode);
    let none = read_arguments(&Vec::new());
    assert!(none.filenames.is_empty());
    assert!(!none.dash_mode);
}

#[test]
fn a_pixel_run_takes_the_size() {
    let mut options = cli(&["a.png", "-"]);
    options.pixels = true;
    options.width = 32;
    options.height = 64;
    options.threshold = Some(80);
    options.exec_command = Some("echo".to_string());
    let run = main_pixel(&options).unwrap();
    assert_eq!(run.threshold, 80);
    assert_eq!((run.width, run.height), (32, 64));
    assert_eq!(run.filenames, vec!["a.png".to_string()]);
    assert!(run.dash_mode);
    assert!(!run.pairs);
    let executable = run.executable.unwrap();
    assert_eq!(executable.program, "echo");
    assert!(executable.arguments.is_empty());
}

#[test]
fn text_is_split_at_each_space() {
    assert_eq!(split_words("feh -F x"), vec!["feh", "-F", "x"]);
    assert_eq!(split_words("feh"), vec!["feh"]);
    assert_eq!(split_words(""), vec![""]);
    assert_eq!(split_words(" "), vec!["", ""]);
    assert_eq!(split_words("a  b "), vec!["a", "", "b", ""]);
    assert_eq!(split_words(" \u{e9}t\u{e9} x"), vec!["", "\u{e9}t\u{e9}", "x"]);
    assert_eq!(split_words("a\tb"), vec!["a\tb"]);
}

#[test]
fn the_first_word_is_the_program() {
    let executable = parse_exec("convert -resize  50%");
    assert_eq!(executable.program, "convert");
    assert_eq!(executable.arguments, vec!["-resize", "", "50%"]);
    let empty = parse_exec("");
    assert_eq!(empty.program, "");
    assert!(empty.arguments.is_empty());
}
