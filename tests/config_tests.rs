use lrs::config::{CLIOptions, Config};

fn args(v: &[&str]) -> Vec<String> {
    v.iter().map(|s| s.to_string()).collect()
}

#[test]
fn parse_options_returns_valid_vec() {
    let test_cases: Vec<Vec<String>> = vec![
        vec!["bin".to_string()],
        vec!["bin".to_string(), "-l".to_string()],
        vec!["bin".to_string(), "-a".to_string()],
        vec!["bin".to_string(), "-la".to_string()],
        vec!["bin".to_string(), "-l".to_string(), "-a".to_string()],
        vec!["bin".to_string(), "-a".to_string(), "-l".to_string()],
        vec!["bin".to_string(), ".".to_string()],
        vec!["bin".to_string(), "-l".to_string(), ".".to_string()],
        vec!["bin".to_string(), "-a".to_string(), ".".to_string()],
        vec!["bin".to_string(), "-la".to_string(), ".".to_string()],
        vec![
            "bin".to_string(),
            "-l".to_string(),
            "-a".to_string(),
            ".".to_string(),
        ],
        vec![
            "bin".to_string(),
            "-a".to_string(),
            "-l".to_string(),
            ".".to_string(),
        ],
    ];

    let expected: Vec<Vec<CLIOptions>> = vec![
        vec![],
        vec![CLIOptions::List],
        vec![CLIOptions::All],
        vec![CLIOptions::List, CLIOptions::All],
        vec![CLIOptions::List, CLIOptions::All],
        vec![CLIOptions::All, CLIOptions::List],
        vec![],
        vec![CLIOptions::List],
        vec![CLIOptions::All],
        vec![CLIOptions::List, CLIOptions::All],
        vec![CLIOptions::List, CLIOptions::All],
        vec![CLIOptions::All, CLIOptions::List],
    ];

    let zipped: Vec<(&Vec<String>, Vec<CLIOptions>)> = test_cases.iter().zip(expected).collect();

    for (test_args, expect) in zipped {
        let actual = Config::parse_options(test_args);
        assert_eq!(expect, actual, "input args: {:?}", test_args);
    }
}

#[test]
fn parse_path_returns_current_dir_when_no_path_is_specified() {
    let test_cases: Vec<Vec<String>> = vec![
        vec!["bin".to_string()],
        vec!["bin".to_string(), "-l".to_string()],
        vec!["bin".to_string(), "-la".to_string()],
        vec!["bin".to_string(), "-l".to_string(), "-a".to_string()],
    ];

    let expected: Vec<String> = vec![
        ".".to_string(),
        ".".to_string(),
        ".".to_string(),
        ".".to_string(),
    ];

    let zipped: Vec<(&Vec<String>, String)> = test_cases.iter().zip(expected).collect();

    for (test_args, expect) in zipped {
        let actual = Config::parse_path(test_args);
        assert_eq!(expect, actual, "input args: {:?}", test_args);
    }
}

#[test]
fn parse_path_returns_path_arg() {
    let test_cases: Vec<Vec<String>> = vec![
        vec!["bin".to_string(), "./relative/path".to_string()],
        vec![
            "bin".to_string(),
            "-l".to_string(),
            "/some/path".to_string(),
        ],
        vec![
            "bin".to_string(),
            "-la".to_string(),
            "/some/other/path".to_string(),
        ],
        vec![
            "bin".to_string(),
            "-l".to_string(),
            "-a".to_string(),
            "./relative/path".to_string(),
        ],
    ];

    let expected: Vec<String> = vec![
        "./relative/path".to_string(),
        "/some/path".to_string(),
        "/some/other/path".to_string(),
        "./relative/path".to_string(),
    ];

    let zipped: Vec<(&Vec<String>, String)> = test_cases.iter().zip(expected).collect();

    for (test_args, expect) in zipped {
        let actual = Config::parse_path(test_args);
        assert_eq!(expect, actual, "input args: {:?}", test_args);
    }
}

fn option_set(v: &[CLIOptions]) -> (bool, bool) {
    (v.contains(&CLIOptions::All), v.contains(&CLIOptions::List))
}

#[test]
fn grouped_and_separate_flags_select_the_same_set() {
    let forms = vec![
        args(&["bin", "-la"]),
        args(&["bin", "-al"]),
        args(&["bin", "-l", "-a"]),
        args(&["bin", "-a", "-l"]),
    ];
    for f in &forms {
        assert_eq!(option_set(&Config::parse_options(f)), (true, true), "args: {:?}", f);
    }
}

#[test]
fn unknown_flag_characters_are_ignored() {
    assert_eq!(Config::parse_options(&args(&["bin", "-x"])), vec![]);
    assert_eq!(
        Config::parse_options(&args(&["bin", "-xaz", "-q"])),
        vec![CLIOptions::All]
    );
    assert_eq!(Config::parse_path(&args(&["bin", "-x"])), ".".to_string());
    assert_eq!(
        Config::parse_options(&args(&["bin", "-x", "dir", "-l"])),
        vec![CLIOptions::List]
    );
}

#[test]
fn program_name_is_never_read() {
    assert_eq!(Config::parse_options(&args(&["-la"])), vec![]);
    assert_eq!(Config::parse_path(&args(&["-la"])), ".".to_string());
    assert_eq!(Config::parse_path(&args(&["prog"])), ".".to_string());
}

#[test]
fn empty_argument_vector_gives_defaults() {
    let c = Config::new(vec![]);
    assert!(c.options.is_empty());
    assert_eq!(c.path, ".".to_string());
}

#[test]
fn first_operand_wins_over_later_ones() {
    let c = Config::new(args(&["bin", "-l", "first", "-a", "second"]));
    assert_eq!(c.path, "first".to_string());
    assert_eq!(c.options, vec![CLIOptions::List, CLIOptions::All]);
}

#[test]
fn bare_dash_is_a_flag_with_no_characters() {
    let c = Config::new(args(&["bin", "-", "dir"]));
    assert!(c.options.is_empty());
    assert_eq!(c.path, "dir".to_string());
}

#[test]
fn splitting_a_flag_token_changes_nothing() {
    let joined = Config::new(args(&["bin", "-xla", "dir", "-q"]));
    let split = Config::new(args(&["bin", "-xl", "-a", "dir", "-q"]));
    assert_eq!(joined.options, split.options);
    assert_eq!(joined.options, vec![CLIOptions::List, CLIOptions::All]);
    assert_eq!(joined.path, split.path);
    let moved = Config::new(args(&["bin", "dir", "-q", "-xla"]));
    assert_eq!(option_set(&moved.options), option_set(&joined.options));
}
