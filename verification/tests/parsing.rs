use optparse::{Opt, OptionParser, ParseStatus};

fn argv(list: &[&str]) -> Vec<String> {
    list.iter().map(|s| s.to_string()).collect()
}

#[test]
fn clean_arguments_succeed() {
    let o = Opt::new("-o", "--opt", "A simple option");
    let r = Opt::new("-r", "--req ARG", "Needs a value");
    let parser = OptionParser::new("", "", &[&o, &r]);
    let result = parser.parse(argv(&["prog", "-o", "--req", "7", "file"]));
    assert_eq!(result.status, ParseStatus::Success);
    assert_eq!(result.output, "");
    assert_eq!(result.args, vec!["file".to_string()]);
    assert_eq!(parser.value(&result, &r), Some("7"));
    assert!(parser.is_set(&result, &o));
}

#[test]
fn no_arguments_succeed() {
    let o = Opt::new("-o", "--opt", "A simple option");
    let parser = OptionParser::new("", "", &[&o]);
    let result = parser.parse(argv(&[]));
    assert_eq!(result.status, ParseStatus::Success);
    assert!(result.opts.is_empty());
    assert!(result.args.is_empty());
    let result = parser.parse(argv(&["prog"]));
    assert_eq!(result.status, ParseStatus::Success);
    assert!(!parser.is_set(&result, &o));
}

#[test]
fn program_name_is_not_scanned() {
    let o = Opt::new("-o", "--opt", "A simple option");
    let parser = OptionParser::new("", "", &[&o]);
    let result = parser.parse(argv(&["-o", "x"]));
    assert_eq!(result.status, ParseStatus::Success);
    assert!(!parser.is_set(&result, &o));
    assert_eq!(result.args, vec!["x".to_string()]);
    let result = parser.parse(argv(&["--bogus"]));
    assert_eq!(result.status, ParseStatus::Success);
}

#[test]
fn short_help_asks_for_help() {
    let o = Opt::new("-o", "--opt", "A simple option");
    let parser = OptionParser::new("[options]", "Does things.", &[&o]);
    let result = parser.parse(argv(&["prog", "-h"]));
    assert_eq!(result.status, ParseStatus::Help);
    assert_eq!(result.output, parser.format_help_str("prog"));
    assert!(parser.is_set(&result, &Opt::help_opt()));
}

#[test]
fn long_help_asks_for_help_without_declared_flags() {
    let parser = OptionParser::new("", "", &[]);
    let result = parser.parse(argv(&["prog", "--help"]));
    assert_eq!(result.status, ParseStatus::Help);
    assert_eq!(result.output, "Usage: prog \n\n\n\n\n");
}

#[test]
fn help_wins_over_an_earlier_error() {
    let o = Opt::new("-o", "--opt", "A simple option");
    let parser = OptionParser::new("", "", &[&o]);
    let result = parser.parse(argv(&["prog", "--nope", "-h"]));
    assert_eq!(result.status, ParseStatus::Help);
    let complaint = format!(
        "Unknown option --nope, did you mean '--opt'?\n\n  -o, --opt{}A simple option\n\n",
        " ".repeat(15)
    );
    assert_eq!(result.output, format!("{}{}", complaint, parser.format_help_str("prog")));
}

#[test]
fn help_ends_the_scan() {
    let o = Opt::new("-o", "--opt", "A simple option");
    let parser = OptionParser::new("", "", &[&o]);
    let result = parser.parse(argv(&["prog", "before", "-h", "--nope", "after", "-o"]));
    assert_eq!(result.status, ParseStatus::Help);
    assert_eq!(result.args, vec!["before".to_string()]);
    assert!(!parser.is_set(&result, &o));
    assert_eq!(result.output, parser.format_help_str("prog"));
}

#[test]
fn help_inside_a_cluster() {
    let a = Opt::new("-a", "--aa", "First");
    let b = Opt::new("-b", "--bb", "Second");
    let parser = OptionParser::new("", "", &[&a, &b]);
    let result = parser.parse(argv(&["prog", "-ahb"]));
    assert_eq!(result.status, ParseStatus::Help);
    assert!(parser.is_set(&result, &a));
    assert!(!parser.is_set(&result, &b));
}

#[test]
fn help_taken_as_a_value_is_no_request() {
    let r = Opt::new("-r", "--req ARG", "Needs a value");
    let parser = OptionParser::new("", "", &[&r]);
    let result = parser.parse(argv(&["prog", "-r", "-h"]));
    assert_eq!(result.status, ParseStatus::Success);
    assert_eq!(parser.value(&result, &r), Some("-h"));
}

#[test]
fn help_cannot_be_redeclared() {
    let host = Opt::new("-h", "--host", "Host name");
    let parser = OptionParser::new("", "", &[&host]);
    let result = parser.parse(argv(&["prog", "-h"]));
    assert_eq!(result.status, ParseStatus::Help);
    assert!(!parser.is_set(&result, &host));
    let result = parser.parse(argv(&["prog", "--help"]));
    assert_eq!(result.status, ParseStatus::Help);
    let result = parser.parse(argv(&["prog", "--host"]));
    assert_eq!(result.status, ParseStatus::Success);
    assert!(parser.is_set(&result, &host));
}

#[test]
fn declared_flag_called_help_asks_for_help() {
    let own = Opt::new("-x", "--help", "Help of the program's own");
    let parser = OptionParser::new("", "", &[&own]);
    let result = parser.parse(argv(&["prog", "-x"]));
    assert_eq!(result.status, ParseStatus::Help);
    assert!(parser.is_set(&result, &own));
}

#[test]
fn clustered_short_flags() {
    let a = Opt::new("-a", "--aa", "First");
    let b = Opt::new("-b", "--bb", "Second");
    let parser = OptionParser::new("", "", &[&a, &b]);
    let result = parser.parse(argv(&["prog", "-ab"]));
    assert_eq!(result.status, ParseStatus::Success);
    assert!(parser.is_set(&result, &a));
    assert!(parser.is_set(&result, &b));
    assert!(result.args.is_empty());
    assert_eq!(result.opts.len(), 2);
    assert_eq!(result.opts[0].opt_name, "--aa");
    assert_eq!(result.opts[0].val, "");
    assert_eq!(result.opts[1].opt_name, "--bb");
}

#[test]
fn required_argument_given() {
    let req = Opt::new("-r", "--req ARG", "Needs a value");
    let parser = OptionParser::new("", "", &[&req]);
    let result = parser.parse(argv(&["prog", "-r", "5"]));
    assert_eq!(result.status, ParseStatus::Success);
    assert_eq!(parser.value(&result, &req), Some("5"));
    assert!(result.args.is_empty());
}

#[test]
fn required_argument_missing() {
    let req = Opt::new("-r", "--req ARG", "Needs a value");
    let parser = OptionParser::new("", "", &[&req]);
    let result = parser.parse(argv(&["prog", "-r"]));
    assert_eq!(result.status, ParseStatus::Error);
    assert!(!parser.is_set(&result, &req));
    assert_eq!(parser.value(&result, &req), None);
    assert_eq!(
        result.output,
        format!(
            "Missing required argument for option r.\n\n  -r, --req ARG{}Needs a value\n\n",
            " ".repeat(11)
        )
    );
}

#[test]
fn required_argument_in_a_cluster_is_missing() {
    let a = Opt::new("-a", "--aa", "First");
    let req = Opt::new("-r", "--req ARG", "Needs a value");
    let parser = OptionParser::new("", "", &[&a, &req]);
    let result = parser.parse(argv(&["prog", "-ar", "5"]));
    assert_eq!(result.status, ParseStatus::Error);
    assert!(parser.is_set(&result, &a));
    assert!(!parser.is_set(&result, &req));
    assert_eq!(result.args, vec!["5".to_string()]);
}

#[test]
fn optional_argument_left_out() {
    let opt = Opt::new("-a", "--opt [ARG]", "May take a value");
    let other = Opt::new("-b", "--bb", "Second");
    let parser = OptionParser::new("", "", &[&opt, &other]);
    let result = parser.parse(argv(&["prog", "--opt"]));
    assert_eq!(result.status, ParseStatus::Success);
    assert!(parser.is_set(&result, &opt));
    assert_eq!(parser.value(&result, &opt), Some(""));
    let result = parser.parse(argv(&["prog", "-ab"]));
    assert_eq!(result.status, ParseStatus::Success);
    assert_eq!(parser.value(&result, &opt), Some(""));
    assert!(parser.is_set(&result, &other));
}

#[test]
fn optional_argument_takes_the_next_token() {
    let opt = Opt::new("-a", "--opt [ARG]", "May take a value");
    let other = Opt::new("-b", "--bb", "Second");
    let parser = OptionParser::new("", "", &[&opt, &other]);
    let result = parser.parse(argv(&["prog", "--opt", "-b"]));
    assert_eq!(result.status, ParseStatus::Success);
    assert_eq!(parser.value(&result, &opt), Some("-b"));
    assert!(!parser.is_set(&result, &other));
}

#[test]
fn unknown_flag_gets_a_suggestion() {
    let abc = Opt::new("-a", "--abc", "Letters");
    let magic = Opt::new("", "--xyzzy", "Magic");
    let parser = OptionParser::new("", "", &[&abc, &magic]);
    let result = parser.parse(argv(&["prog", "--xyz"]));
    assert_eq!(result.status, ParseStatus::Error);
    assert_eq!(
        result.output,
        format!(
            "Unknown option --xyz, did you mean '--xyzzy'?\n\n      --xyzzy{}Magic\n\n",
            " ".repeat(13)
        )
    );
    assert!(result.opts.is_empty());
    assert!(result.args.is_empty());
}

#[test]
fn unknown_flag_without_declared_flags() {
    let parser = OptionParser::new("", "", &[]);
    let result = parser.parse(argv(&["prog", "-q"]));
    assert_eq!(result.status, ParseStatus::Error);
    assert_eq!(result.output, "Unknown option q\n");
}

#[test]
fn only_the_first_error_is_reported() {
    let req = Opt::new("-r", "--req ARG", "Needs a value");
    let parser = OptionParser::new("", "", &[&req]);
    let result = parser.parse(argv(&["prog", "--nope", "--other", "-r"]));
    assert_eq!(result.status, ParseStatus::Error);
    assert_eq!(
        result.output,
        format!(
            "Unknown option --nope, did you mean '--req'?\n\n  -r, --req ARG{}Needs a value\n\n",
            " ".repeat(11)
        )
    );
}

#[test]
fn suggestion_prefers_the_first_of_equally_close_flags() {
    let one = Opt::new("", "--ab", "One");
    let two = Opt::new("", "--ac", "Two");
    let parser = OptionParser::new("", "", &[&one, &two]);
    let near = parser.suggest_opt("--ad").unwrap();
    assert_eq!(near.long, "--ab");
    let near = parser.suggest_opt("--ac").unwrap();
    assert_eq!(near.long, "--ac");
    let none = OptionParser::new("", "", &[]);
    assert!(none.suggest_opt("--ad").is_none());
}

#[test]
fn repeated_flag_keeps_the_order_of_its_values() {
    let multi = Opt::new("-m", "--multi-arg [ARGS]", "Repeatable");
    let o = Opt::new("-o", "--opt", "A simple option");
    let parser = OptionParser::new("", "", &[&multi, &o]);
    let result = parser.parse(argv(&["prog", "-m", "a", "-o", "-m", "b", "-m", "c"]));
    assert_eq!(result.status, ParseStatus::Success);
    assert_eq!(parser.values(&result, &multi), vec!["a", "b", "c"]);
    assert_eq!(parser.value(&result, &multi), Some("a"));
    assert_eq!(parser.values(&result, &o), vec![""]);
    assert!(result.args.is_empty());
}

#[test]
fn positional_arguments_keep_their_order() {
    let o = Opt::new("-o", "--opt", "A simple option");
    let r = Opt::new("-r", "--req ARG", "Needs a value");
    let parser = OptionParser::new("", "", &[&o, &r]);
    let result = parser.parse(argv(&["prog", "foo", "-o", "bar", "baz"]));
    assert_eq!(result.status, ParseStatus::Success);
    assert_eq!(result.args, vec!["foo".to_string(), "bar".to_string(), "baz".to_string()]);
    let result = parser.parse(argv(&["prog", "foo", "-r", "bar", "baz"]));
    assert_eq!(result.status, ParseStatus::Success);
    assert_eq!(result.args, vec!["foo".to_string(), "baz".to_string()]);
    assert_eq!(parser.value(&result, &r), Some("bar"));
}

#[test]
fn lone_dash_is_positional() {
    let o = Opt::new("-o", "--opt", "A simple option");
    let parser = OptionParser::new("", "", &[&o]);
    let result = parser.parse(argv(&["prog", "-", "x"]));
    assert_eq!(result.status, ParseStatus::Success);
    assert_eq!(result.args, vec!["-".to_string(), "x".to_string()]);
}

#[test]
fn double_dash_alone_is_an_unknown_flag() {
    let o = Opt::new("-o", "--opt", "A simple option");
    let parser = OptionParser::new("", "", &[&o]);
    let result = parser.parse(argv(&["prog", "--"]));
    assert_eq!(result.status, ParseStatus::Error);
    assert!(result.args.is_empty());
}

#[test]
fn with_value_runs_only_for_a_set_flag() {
    let o = Opt::new("-o", "--opt", "A simple option");
    let r = Opt::new("-r", "--req ARG", "Needs a value");
    let parser = OptionParser::new("", "", &[&o, &r]);
    let result = parser.parse(argv(&["prog", "-r", "9"]));
    let mut seen: Vec<String> = Vec::new();
    parser.with_value(&result, &r, |v| seen.push(v.to_string()));
    parser.with_value(&result, &o, |v| seen.push(v.to_string()));
    assert_eq!(seen, vec!["9".to_string()]);
}

#[test]
fn parser_is_reusable() {
    let o = Opt::new("-o", "--opt", "A simple option");
    let parser = OptionParser::new("", "", &[&o]);
    let first = parser.parse(argv(&["prog", "--nope"]));
    let second = parser.parse(argv(&["prog", "-o"]));
    assert_eq!(first.status, ParseStatus::Error);
    assert_eq!(second.status, ParseStatus::Success);
    assert_eq!(second.output, "");
}
