use regular_expression::basic;
use regular_expression::cli::{check_filename_options, format_line, handle_line, is_print_filename, match_any, Args, CommandLineError, LineAction, LineMatch};

#[test]
fn regex_test_is_print_filename() {
    // ファイル数が 1 で、オプションなし
    assert!(!is_print_filename(1, false, false));
    // ファイル数が 1 で、-h オプションあり
    assert!(!is_print_filename(1, true, false));
    // ファイル数が 1 で、-H オプションあり
    assert!(is_print_filename(1, false, true));
    // ファイル数が 2(≒ 2以上) で、オプションなし
    assert!(is_print_filename(2, false, false));
    // ファイル数が 2(≒ 2以上) で、-h オプションあり
    assert!(!is_print_filename(2, true, false));
    // ファイル数が 2(≒ 2以上) で、-H オプションあり
    assert!(is_print_filename(2, false, true));
}

#[test]
fn test_get_patterns() {
    // -e オプションなし、位置引数あり
    let mut args = Args {
        pattern: Some("pattern1".to_string()),
        files: vec![],
        patterns: vec![],
        count: false,
        ignore_case: false,
        invert_match: false,
        no_filename: false,
        with_filename: false,
        line_number: false,
        help: None,
        version: None,
    };
    assert_eq!(args.get_patterns().unwrap(), &vec!["pattern1".to_string()]);

    // -e オプションあり、位置引数あり
    let mut args = Args {
        pattern: Some("file1".to_string()),
        files: vec![],
        patterns: vec!["pattern2".to_string()],
        count: false,
        ignore_case: false,
        invert_match: false,
        no_filename: false,
        with_filename: false,
        line_number: false,
        help: None,
        version: None,
    };
    let patterns = args.get_patterns().unwrap();
    assert_eq!(patterns, &vec!["pattern2".to_string()]);
    assert_eq!(args.files, vec!["file1".to_string()]);

    // -e オプションなし、位置引数なし
    let mut args = Args {
        pattern: None,
        files: vec![],
        patterns: vec![],
        count: false,
        ignore_case: false,
        invert_match: false,
        no_filename: false,
        with_filename: false,
        line_number: false,
        help: None,
        version: None,
    };
    assert_eq!(args.get_patterns(), Err(CommandLineError::NoPattern));
}

#[test]
fn test_get_patterns_edge_cases() {
    // -e オプションあり、位置引数なし
    let mut args = Args {
        pattern: None,
        files: vec![],
        patterns: vec!["pattern1".to_string(), "pattern2".to_string()],
        count: false,
        ignore_case: false,
        invert_match: false,
        no_filename: false,
        with_filename: false,
        line_number: false,
        help: None,
        version: None,
    };
    let patterns = args.get_patterns().unwrap();
    assert_eq!(
        patterns,
        &vec!["pattern1".to_string(), "pattern2".to_string()]
    );
    assert_eq!(args.files.len(), 0); // ファイルは追加されない
}

#[test]
fn test_is_print_filename_edge_cases() {
    // ファイル数が0の場合（file_count <= 1なのでwith_filenameの値を返す）
    assert!(!is_print_filename(0, false, false));
    assert!(!is_print_filename(0, true, false));
    assert!(is_print_filename(0, false, true));

    // ファイル数が3以上の場合（file_count > 1なので!no_filenameの値を返す）
    assert!(is_print_filename(3, false, false));
    assert!(!is_print_filename(3, true, false));
    assert!(is_print_filename(3, false, true));

    // 両方のオプションがtrueの場合
    // file_count <= 1の場合はwith_filenameが優先される
    assert!(is_print_filename(1, true, true)); // with_filenameが優先
                                               // file_count > 1の場合は!no_filenameが評価される（no_filename=trueなので!true=false）
    assert!(!is_print_filename(2, true, true)); // !no_filenameが評価される
}

#[test]
fn test_command_line_error_display() {
    // エラーメッセージの表示テスト
    let error1 = CommandLineError::NoPattern;
    assert_eq!(
        error1.to_string(),
        "CommandLineError : no pattern specified."
    );

    let error2 = CommandLineError::DuplicateFilenameOption;
    assert_eq!(
        error2.to_string(),
        "CommandLineError : -h, -H options are specified at the same time."
    );
}

#[test]
fn main_test_is_print_filename() {
    // ファイル数が 1 で、オプションなし
    assert_eq!(is_print_filename(1, false, false), false);
    // ファイル数が 1 で、-h オプションあり
    assert_eq!(is_print_filename(1, true, false), false);
    // ファイル数が 1 で、-H オプションあり
    assert_eq!(is_print_filename(1, false, true), true);
    // ファイル数が 2(≒ 2以上) で、オプションなし
    assert_eq!(is_print_filename(2, false, false), true);
    // ファイル数が 2(≒ 2以上) で、-h オプションあり
    assert_eq!(is_print_filename(2, true, false), false);
    // ファイル数が 2(≒ 2以上) で、-H オプションあり
    assert_eq!(is_print_filename(2, false, true), true);
}

#[test]
fn match_any_stops_at_first_matching_pattern() {
    let regexes = vec![
        basic::Regex::new("xyz", false, false).unwrap(),
        basic::Regex::new("ho*", false, false).unwrap(),
    ];
    assert_eq!(match_any(&regexes, "hooo"), LineMatch::Matched);
    assert_eq!(match_any(&regexes, "abc"), LineMatch::Unmatched);
    assert_eq!(match_any(&[], "abc"), LineMatch::Unmatched);
}

#[test]
fn handle_line_counts_and_prints() {
    let regexes = vec![basic::Regex::new("ho*", false, false).unwrap()];
    let (count, action) = handle_line(&regexes, "a.txt", "hooo", 3, 4, true, false, true);
    assert_eq!(count, 5);
    match action {
        LineAction::Print(text) => assert_eq!(text, "a.txt:3:hooo"),
        _ => panic!("expected a line to print"),
    }
    let (count, action) = handle_line(&regexes, "a.txt", "hooo", 3, 4, true, true, true);
    assert_eq!(count, 5);
    assert!(matches!(action, LineAction::Skip));
    let (count, action) = handle_line(&regexes, "a.txt", "xyz", 3, 4, true, false, true);
    assert_eq!(count, 4);
    assert!(matches!(action, LineAction::Skip));
}

#[test]
fn test_print_function() {
    assert_eq!(format_line("test.txt", "test line", 1, true, true), "test.txt:1:test line");
    assert_eq!(format_line("test.txt", "test line", 1, true, false), "test.txt:test line");
    assert_eq!(format_line("test.txt", "test line", 1, false, true), "1:test line");
    assert_eq!(format_line("test.txt", "test line", 1, false, false), "test line");
}

#[test]
fn filename_options_cannot_be_combined() {
    assert_eq!(check_filename_options(true, true), Err(CommandLineError::DuplicateFilenameOption));
    assert_eq!(check_filename_options(true, false), Ok(()));
    assert_eq!(check_filename_options(false, true), Ok(()));
    assert_eq!(check_filename_options(false, false), Ok(()));
}
