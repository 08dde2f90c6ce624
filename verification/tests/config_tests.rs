use minigrep::run_search;
use minigrep::Config;
use minigrep::ConfigError;
use minigrep::MissingArg;

fn strings(parts: &[&str]) -> Vec<String> {
    let mut v = Vec::new();
    for p in parts {
        v.push(p.to_string());
    }
    v
}

#[test]
fn one_argument_is_not_enough() {
    let args = strings(&["minigrep", "query"]);
    let r = Config::new(&args, &None);
    assert_eq!(r, Err(ConfigError::MissingArgument(MissingArg::Filename)));
}

#[test]
fn no_argument_reports_the_query_first() {
    let args = strings(&["minigrep"]);
    let r = Config::new(&args, &None);
    assert_eq!(r, Err(ConfigError::MissingArgument(MissingArg::Query)));

    let r = Config::new(&Vec::new(), &None);
    assert_eq!(r, Err(ConfigError::MissingArgument(MissingArg::Query)));
}

#[test]
fn two_arguments_build_the_configuration() {
    let args = strings(&["minigrep", "needle", "notes.txt"]);
    let config = Config::new(&args, &None).unwrap();
    assert_eq!(config.query, "needle");
    assert_eq!(config.filename, "notes.txt");
    assert!(config.case_sensitive);
}

#[test]
fn extra_arguments_are_ignored() {
    let args = strings(&["minigrep", "needle", "notes.txt", "spare"]);
    let config = Config::new(&args, &None).unwrap();
    assert_eq!(config.query, "needle");
    assert_eq!(config.filename, "notes.txt");
}

#[test]
fn empty_variable_value_still_disables_case_sensitivity() {
    let args = strings(&["minigrep", "q", "f"]);
    let config = Config::new(&args, &Some(String::new())).unwrap();
    assert!(!config.case_sensitive);
}

#[test]
fn any_variable_value_disables_case_sensitivity() {
    let args = strings(&["minigrep", "q", "f"]);
    let config = Config::new(&args, &Some("1".to_string())).unwrap();
    assert!(!config.case_sensitive);
}

#[test]
fn unset_variable_keeps_case_sensitivity() {
    let args = strings(&["minigrep", "q", "f"]);
    let config = Config::new(&args, &None).unwrap();
    assert!(config.case_sensitive);
}

#[test]
fn error_messages_name_the_missing_argument() {
    let m = ConfigError::MissingArgument(MissingArg::Query).message();
    assert_eq!(m, "not enough arguments: no query string was given");
    let m = ConfigError::MissingArgument(MissingArg::Filename).message();
    assert_eq!(m, "not enough arguments: no file name was given");
}

#[test]
fn run_search_honours_the_case_flag() {
    let contents = "Hello There\nhello there\ngoodbye";
    let args = strings(&["minigrep", "Hello", "unused.txt"]);

    let sensitive = Config::new(&args, &None).unwrap();
    assert_eq!(vec!["Hello There"], run_search(&sensitive, contents));

    let insensitive = Config::new(&args, &Some(String::new())).unwrap();
    assert_eq!(
        vec!["Hello There", "hello there"],
        run_search(&insensitive, contents)
    );
}
