use optparse::suggest::lev_distance;
use optparse::{word_wrap_str, Opt, OptionParser};

#[test]
fn new_keeps_the_three_texts() {
    let o = Opt::new("-o", "--opt [ARG]", "An option");
    assert_eq!(o.short, "-o");
    assert_eq!(o.long, "--opt [ARG]");
    assert_eq!(o.description, "An option");
}

#[test]
fn ready_made_flags() {
    let h = Opt::help_opt();
    assert_eq!(h.short, "-h");
    assert_eq!(h.long, "--help");
    assert_eq!(h.description, "Display usage information");
    let v = Opt::version_opt();
    assert_eq!(v.short, "-v");
    assert_eq!(v.long, "--version");
    assert_eq!(v.description, "Display version information");
}

#[test]
fn argument_kinds() {
    let plain = Opt::new("-o", "--opt", "");
    let optional = Opt::new("-a", "--opt-with-arg [ARG]", "");
    let required = Opt::new("-r", "--required-arg ARG", "");
    assert!(!plain.has_arg());
    assert!(!plain.has_required_arg());
    assert!(optional.has_arg());
    assert!(!optional.has_required_arg());
    assert!(required.has_arg());
    assert!(required.has_required_arg());
}

#[test]
fn canonical_name_drops_the_argument() {
    assert_eq!(Opt::new("-o", "--opt", "").long_parsed(), "--opt");
    assert_eq!(Opt::new("-a", "--opt-with-arg [ARG]", "").long_parsed(), "--opt-with-arg");
    assert_eq!(Opt::new("-r", "--required-arg ARG", "").long_parsed(), "--required-arg");
    assert_eq!(Opt::new("", "plain", "").long_parsed(), "plain");
    assert_eq!(Opt::new("", " x", "").long_parsed(), "");
}

#[test]
fn tokens_match_short_letter_or_long_name() {
    let o = Opt::new("-o", "--opt [ARG]", "");
    assert!(o.match_arg("o"));
    assert!(o.match_arg("--opt"));
    assert!(!o.match_arg("-o"));
    assert!(!o.match_arg("--op"));
    assert!(!o.match_arg("--opt [ARG]"));
    let long_only = Opt::new("", "--long-opt", "");
    assert!(!long_only.match_arg(""));
    assert!(long_only.match_arg("--long-opt"));
}

#[test]
fn flag_tokens_of_arguments() {
    assert_eq!(OptionParser::opts_in_arg("--opt"), vec!["--opt"]);
    assert_eq!(OptionParser::opts_in_arg("-abc"), vec!["a", "b", "c"]);
    assert_eq!(OptionParser::opts_in_arg("-x"), vec!["x"]);
    assert!(OptionParser::opts_in_arg("-").is_empty());
    assert!(OptionParser::opts_in_arg("file").is_empty());
    assert!(OptionParser::opts_in_arg("").is_empty());
    assert_eq!(OptionParser::opts_in_arg("--"), vec!["--"]);
}

#[test]
fn edit_distances() {
    assert_eq!(lev_distance("kitten", "sitting"), 3);
    assert_eq!(lev_distance("", "abc"), 3);
    assert_eq!(lev_distance("abc", ""), 3);
    assert_eq!(lev_distance("same", "same"), 0);
    assert_eq!(lev_distance("--xyz", "--xyzzy"), 2);
    assert_eq!(lev_distance("flaw", "lawn"), 2);
    assert_eq!(lev_distance("a", "b"), 1);
}

#[test]
fn short_text_is_returned_unchanged() {
    assert_eq!(word_wrap_str("A simple option", 26, 80), "A simple option");
    assert_eq!(word_wrap_str("", 0, 80), "");
    assert_eq!(word_wrap_str("aaa bbb", 0, 7), "aaa bbb");
}

#[test]
fn wrapping_breaks_between_words() {
    assert_eq!(word_wrap_str("aaa bbb ccc", 0, 7), "aaa bbb\nccc");
    assert_eq!(word_wrap_str("aaa bbb ccc", 2, 9), "aaa bbb\n  ccc");
    assert_eq!(word_wrap_str("aaa bbb ccc", 0, 6), "aaa\nbbb\nccc");
    assert_eq!(word_wrap_str("aa bb cc dd", 3, 8), "aa bb\n   cc dd");
}

#[test]
fn wrapping_never_splits_a_word() {
    assert_eq!(word_wrap_str("abcdefghij xy", 0, 5), "abcdefghij\nxy");
    assert_eq!(word_wrap_str("xy abcdefghij z", 0, 5), "xy\nabcdefghij\nz");
    assert_eq!(word_wrap_str("word", 4, 4), "word");
}

#[test]
fn wrapping_squeezes_blanks() {
    assert_eq!(word_wrap_str("  a \t b\n", 0, 80), "a b");
    assert_eq!(word_wrap_str(" \n ", 0, 80), "");
    assert_eq!(word_wrap_str("a\u{a0}b\u{2003}c", 0, 80), "a b c");
}

#[test]
fn wrapped_lines_stay_within_the_width() {
    let text = "This is an example app for the optparser module. The banner is a short \
                summary which appears at the top of --help output";
    let wrapped = word_wrap_str(text, 26, 80);
    let lines: Vec<&str> = wrapped.split('\n').collect();
    assert_eq!(lines.len(), 3);
    assert_eq!(lines[0], "This is an example app for the optparser module. The");
    assert!(lines[0].len() <= 54);
    for line in &lines[1..] {
        assert!(line.starts_with(&" ".repeat(26)));
        assert!(line.len() <= 80);
    }
    assert_eq!(word_wrap_str(&wrapped, 26, 80), wrapped);
}

#[test]
fn help_line_with_and_without_short_form() {
    let o = Opt::new("-o", "--opt", "A simple option");
    assert_eq!(
        OptionParser::arg_help_str(&o),
        format!("  -o, --opt{}A simple option", " ".repeat(15))
    );
    let l = Opt::new("", "--long-opt", "No short form");
    assert_eq!(
        OptionParser::arg_help_str(&l),
        format!("      --long-opt{}No short form", " ".repeat(10))
    );
}

#[test]
fn help_line_with_wide_syntax() {
    let wide = Opt::new("-w", "--a-very-long-option ARG", "Described below");
    assert_eq!(
        OptionParser::arg_help_str(&wide),
        format!("  -w, --a-very-long-option ARG\n{}Described below", " ".repeat(26))
    );
    let exact = Opt::new("-e", "--exactly-twenty [A]", "Edge");
    assert_eq!(exact.long.len(), 20);
    assert_eq!(
        OptionParser::arg_help_str(&exact),
        format!("  -e, --exactly-twenty [A]\n{}Edge", " ".repeat(26))
    );
}

#[test]
fn help_text_lists_flags_by_long_form() {
    let o = Opt::new("-o", "--opt", "A simple option");
    let l = Opt::new("", "--long-opt", "No short form");
    let parser = OptionParser::new("[options]", "Does   things.", &[&o, &l]);
    let expected = format!(
        "Usage: prog [options]\n\nDoes things.\n\n      --long-opt{}No short form\n  -o, --opt{}A simple option\n",
        " ".repeat(10),
        " ".repeat(15)
    );
    assert_eq!(parser.format_help_str("prog"), expected);
}

#[test]
fn help_text_with_tail_banner() {
    let o = Opt::new("-o", "--opt", "A simple option");
    let mut parser = OptionParser::new("[options]", "Banner", &[&o]);
    parser.tail_banner = Some("Tail".to_string());
    let expected = format!(
        "Usage: prog [options]\n\nBanner\n\n  -o, --opt{}A simple option\n\nTail\n",
        " ".repeat(15)
    );
    assert_eq!(parser.format_help_str("prog"), expected);
}

#[test]
fn sorting_is_stable_and_by_characters() {
    let b1 = Opt::new("-x", "--b", "first b");
    let a = Opt::new("-a", "--a", "a");
    let b2 = Opt::new("-y", "--b", "second b");
    let ab = Opt::new("", "--ab", "ab");
    let upper = Opt::new("", "--B", "upper");
    let parser = OptionParser::new("", "", &[&b1, &a, &b2, &ab, &upper]);
    let sorted = parser.sorted_opts();
    let order: Vec<&str> = sorted.iter().map(|o| o.description.as_str()).collect();
    assert_eq!(order, vec!["upper", "a", "ab", "first b", "second b"]);
}

#[test]
fn new_parser_has_no_tail_banner() {
    let o = Opt::new("-o", "--opt", "A simple option");
    let parser = OptionParser::new("usage", "banner", &[&o]);
    assert_eq!(parser.usage, "usage");
    assert_eq!(parser.banner, "banner");
    assert_eq!(parser.opts.len(), 1);
    assert_eq!(parser.opts[0].long, "--opt");
    assert!(parser.tail_banner.is_none());
}
