use cut_tool::config::{CutConfig, InputSource, Selection};
use cut_tool::project::{pick_clusters, select_fields};
use cut_tool::selector::parse_positions;

fn init_config(args: &str) -> CutConfig {
    let arg = String::from(args);
    let cmd_argument: Vec<String> = arg
        .split(" ")
        .map(|x| x.to_string())
        .filter(|x| x.len() != 0)
        .collect();
    CutConfig::parse(cmd_argument)
}

fn field_positions(config: &CutConfig) -> Vec<u64> {
    match &config.selection {
        Selection::Fields { positions, .. } => positions.clone(),
        _ => panic!("not in field mode"),
    }
}

fn run(config: &CutConfig, lines: &[&str]) -> Vec<String> {
    let mut output: Vec<String> = Vec::new();
    for line in lines {
        let line = line.to_string();
        assert!(config.accepts(&line));
        config.process(&line, &mut output);
    }
    output
}

#[test]
fn test_process() {
    let config = init_config("cut-tool -f1,2,3,4,5  test/sample.tsv");
    let lines = [
        "f0\tf1\tf2\tf3\tf4",
        "0\t1\t2\t3\t4",
        "5\t6\t7\t8\t9",
        "10\t11\t12\t13\t14",
        "15\t16\t17\t18\t19",
        "20\t21\t22\t23\t24",
    ];
    let output = run(&config, &lines);
    let result =
     "f0\tf1\tf2\tf3\tf4\n0\t1\t2\t3\t4\n5\t6\t7\t8\t9\n10\t11\t12\t13\t14\n15\t16\t17\t18\t19\n20\t21\t22\t23\t24\n";

    let mut buffer = String::new();
    for o in output.into_iter() {
        buffer.push_str(o.as_str());
        buffer.push('\n');
    }
    assert_eq!(result, buffer)
}

#[test]
fn test_process_field_token() {
    let config = init_config("cut-tool -f1,2,3,4,5  test/sample.tsv");
    let mut expected: Vec<u64> = Vec::new();
    {
        expected.push(1);
        expected.push(2);
        expected.push(3);
        expected.push(4);
        expected.push(5);
    }
    assert_eq!(field_positions(&config), expected);
}

#[test]
fn test_handle_range_fields() {
    let config = init_config("cut-tool -f1-4,5  test/sample.tsv");
    let mut expected: Vec<u64> = Vec::new();
    {
        expected.push(1);
        expected.push(2);
        expected.push(3);
        expected.push(4);
        expected.push(5);
    }
    assert_eq!(field_positions(&config), expected);
}

#[test]
fn list_with_range_in_the_middle() {
    assert_eq!(parse_positions("1,3-5,7"), vec![1, 3, 4, 5, 7]);
}

#[test]
fn list_with_range_first() {
    assert_eq!(parse_positions("1-4,5"), vec![1, 2, 3, 4, 5]);
}

#[test]
fn list_is_sorted_and_keeps_repeats() {
    assert_eq!(parse_positions("7,3,1-3"), vec![1, 2, 3, 3, 7]);
}

#[test]
fn list_spaces_count_as_commas() {
    assert_eq!(parse_positions("1, 2 3"), vec![1, 2, 3]);
}

#[test]
fn list_drops_zero_and_bad_tokens() {
    assert_eq!(parse_positions("0,x,2,,4a,+6"), vec![2, 6]);
    assert_eq!(parse_positions("0-2"), vec![1, 2]);
    assert_eq!(parse_positions("5-3"), Vec::<u64>::new());
    assert_eq!(parse_positions("1-x,2-"), Vec::<u64>::new());
    assert_eq!(parse_positions("1-2-3"), Vec::<u64>::new());
    assert_eq!(parse_positions("99999999999999999999"), Vec::<u64>::new());
    assert_eq!(parse_positions("18446744073709551615"), vec![u64::MAX]);
}

#[test]
fn list_empty() {
    assert_eq!(parse_positions(""), Vec::<u64>::new());
}

#[test]
fn fields_selected_and_joined_by_tab() {
    let config = init_config("cut -f1,3");
    assert_eq!(run(&config, &["a\tb\tc"]), vec!["a\tc".to_string()]);
}

#[test]
fn fields_out_of_range_are_padded() {
    let config = init_config("cut -f1,5");
    assert_eq!(run(&config, &["a\tb"]), vec!["a\t ".to_string()]);
}

#[test]
fn suppress_drops_lines_without_delimiter() {
    let config = init_config("cut -s -f1");
    assert_eq!(run(&config, &["abc", "x\ty"]), vec!["x".to_string()]);
}

#[test]
fn without_suppress_line_is_one_field() {
    let config = init_config("cut -f1,2");
    assert_eq!(run(&config, &["abc"]), vec!["abc\t ".to_string()]);
}

#[test]
fn custom_and_long_delimiters() {
    let config = init_config("cut -d, -f2");
    assert_eq!(run(&config, &["a,b,c"]), vec!["b".to_string()]);
    let config = init_config("cut -d:: -f2,3");
    assert_eq!(run(&config, &["a::b:c::d"]), vec!["b:c\td".to_string()]);
}

#[test]
fn empty_delimiter_splits_between_characters() {
    let config = init_config("cut -d -f1,2,3,4,5");
    assert_eq!(run(&config, &["ab"]), vec!["\ta\tb\t\t ".to_string()]);
}

#[test]
fn repeated_runs_give_the_same_output() {
    let config = init_config("cut -f2,1");
    let first = run(&config, &["x\ty\tz"]);
    let second = run(&config, &["x\ty\tz"]);
    assert_eq!(first, second);
    let config = init_config("cut -c0,2");
    assert_eq!(run(&config, &["héllo"]), run(&config, &["héllo"]));
}

#[test]
fn characters_use_positions_as_indices() {
    let config = init_config("cut -c1,2");
    assert_eq!(run(&config, &["héllo"]), vec!["é\tl".to_string()]);
}

#[test]
fn characters_past_the_end_are_skipped() {
    let config = init_config("cut -c2,9");
    assert_eq!(run(&config, &["abc"]), vec!["c".to_string()]);
}

#[test]
fn raw_bytes_joined_by_space() {
    let config = init_config("cut -b1,2");
    assert_eq!(run(&config, &["abc"]), vec!["b c".to_string()]);
    let config = init_config("cut -b1");
    assert_eq!(run(&config, &["é"]), vec!["\u{a9}".to_string()]);
}

#[test]
fn raw_bytes_out_of_range_are_refused() {
    let config = init_config("cut -b1,3");
    assert!(!config.accepts(&"abc".to_string()));
    assert!(config.accepts(&"abcd".to_string()));
    let config = init_config("cut -n -b9");
    assert!(config.accepts(&"abc".to_string()));
}

#[test]
fn no_split_never_splits_a_four_byte_cluster() {
    let line = "ab\u{1F44D}c";
    for p in ["2", "3", "4", "5"] {
        let config = init_config(&format!("cut -n -b{}", p));
        assert_eq!(run(&config, &[line]), vec!["\u{1F44D}".to_string()]);
    }
    let config = init_config("cut -n -b3,4");
    assert_eq!(run(&config, &[line]), vec!["\u{1F44D} \u{1F44D}".to_string()]);
    let config = init_config("cut -n -b1,6");
    assert_eq!(run(&config, &[line]), vec!["b c".to_string()]);
}

#[test]
fn no_split_selects_whole_cluster() {
    let line = "ab\u{1F44D}\u{1F3FD}c";
    for p in ["2", "3", "4", "5", "6", "7", "8", "9"] {
        let config = init_config(&format!("cut -n -b{}", p));
        assert_eq!(run(&config, &[line]), vec!["\u{1F44D}\u{1F3FD}".to_string()]);
    }
    let config = init_config("cut -n -b3,4");
    assert_eq!(
        run(&config, &[line]),
        vec!["\u{1F44D}\u{1F3FD} \u{1F44D}\u{1F3FD}".to_string()]
    );
    let config = init_config("cut -n -b1,10");
    assert_eq!(run(&config, &[line]), vec!["b c".to_string()]);
}

#[test]
fn no_split_keeps_combining_marks() {
    let config = init_config("cut -n -b1,4,7");
    assert_eq!(run(&config, &["e\u{301}xy"]), vec!["e\u{301} y".to_string()]);
}

#[test]
fn byte_mode_wins_over_other_lists() {
    let config = init_config("cut -c1 -f2 -b1 -n");
    match &config.selection {
        Selection::Bytes { positions, no_split } => {
            assert_eq!(positions, &vec![1]);
            assert!(*no_split);
        }
        _ => panic!("expected byte mode"),
    }
    let config = init_config("cut -f2 -c1");
    assert!(matches!(config.selection, Selection::Characters { .. }));
}

#[test]
fn flags_and_inputs() {
    let config = init_config("cut -h");
    assert!(config.help);
    let config = init_config("cut -f1 -");
    assert!(matches!(config.input, Some(InputSource::Stdin)));
    let config = init_config("cut in.txt -f1");
    match &config.input {
        Some(InputSource::File(p)) => assert_eq!(p, "in.txt"),
        _ => panic!("expected a file"),
    }
    let config = init_config("cut -w -s -d;");
    match &config.selection {
        Selection::Fields { delimiter, suppress, whitespace, .. } => {
            assert_eq!(delimiter, ";");
            assert!(*suppress);
            assert!(*whitespace);
        }
        _ => panic!("expected field mode"),
    }
    let config = init_config("cut -w -d; -d,");
    match &config.selection {
        Selection::Fields { delimiter, .. } => assert_eq!(delimiter, "\t"),
        _ => panic!("expected field mode"),
    }
}

#[test]
fn default_configuration() {
    let config = CutConfig::new();
    assert!(!config.help);
    assert!(config.input.is_none());
    match &config.selection {
        Selection::Fields { positions, delimiter, suppress, whitespace } => {
            assert!(positions.is_empty());
            assert_eq!(delimiter, "\t");
            assert!(!*suppress);
            assert!(!*whitespace);
        }
        _ => panic!("expected field mode"),
    }
    let empty: Vec<String> = Vec::new();
    assert!(CutConfig::parse(empty).input.is_none());
}

#[test]
fn picking_from_given_clusters() {
    let clusters = vec!["ab".to_string(), "\u{e9}".to_string(), "c".to_string()];
    assert_eq!(pick_clusters(&clusters, &vec![1, 2, 3, 4, 9]), "ab \u{e9} \u{e9} c");
    assert_eq!(pick_clusters(&clusters, &vec![]), "");
}

#[test]
fn field_selection_reports_dropped_lines() {
    assert_eq!(select_fields("a;b", ";", true, &vec![2]), Some("b".to_string()));
    assert_eq!(select_fields("ab", ";", true, &vec![2]), None);
    assert_eq!(select_fields("ab", "", true, &vec![2]), Some("a".to_string()));
}

#[test]
fn list_tokens_are_trimmed() {
    assert_eq!(parse_positions("5\t"), vec![5]);
    assert_eq!(parse_positions("\n2,1\t-\t3\r"), vec![1, 2, 2, 3]);
    let config = init_config("cut -f2\t");
    assert_eq!(field_positions(&config), vec![2]);
}

#[test]
fn clusters_come_in_request_order() {
    let clusters = vec!["a".to_string(), "b".to_string()];
    assert_eq!(pick_clusters(&clusters, &vec![1, 0]), "b a");
    assert_eq!(pick_clusters(&clusters, &vec![1, 7, 0, 1]), "b a b");
    let mut output: Vec<String> = Vec::new();
    let config = CutConfig {
        selection: Selection::Bytes { positions: vec![3, 0, 2], no_split: true },
        input: None,
        help: false,
    };
    config.process(&"xy\u{e9}".to_string(), &mut output);
    assert_eq!(output, vec!["\u{e9} x \u{e9}".to_string()]);
}
