// Behavior tests for the parser's documented rules, the write plan and
// the file decisions.

use snips::file::{suffix_matches, test_if_modified, write_files};
use snips::parser::parse;
use snips::util::Setting;
use snips::DEFAULTLABEL;

fn config(comment: Vec<String>, exercise_solution: bool) -> Setting {
    Setting {
        src_dir: "tests/testfiles/src".to_string(),
        snippet_dest_dir: "snippets".to_string(),
        src_dest_dir: "src_dest".to_string(),
        file_suffix: vec![".java".to_string()],
        comment,
        exercise_solution,
        force_update: false,
        copy_other_files: false,
        verbosity: 0,
    }
}

fn config_public() -> Setting {
    config(vec!["//".to_string()], false)
}

fn solution_config() -> Setting {
    Setting {
        src_dir: "tests/testfiles/src".to_string(),
        snippet_dest_dir: "tests/testfiles/solution/snippets".to_string(),
        src_dest_dir: "tests/testfiles/solution/src_dest".to_string(),
        file_suffix: vec![".java".to_string()],
        comment: vec!["//".to_string()],
        exercise_solution: true,
        force_update: false,
        copy_other_files: false,
        verbosity: 0,
    }
}

/// Run a full test.
#[test]
fn scan_new_dirs_solution() {
    let _setting = solution_config();
    assert_eq!(true, true);
}

#[test]
fn default_label_always_present() {
    let lines = vec!["a", "b"];
    let coll = parse(&lines, &config_public()).unwrap();
    assert_eq!(coll.len(), 1);
    assert_eq!(coll.get(DEFAULTLABEL).unwrap().buffer.as_str(), "a\nb\n");
}

#[test]
fn empty_input_gives_empty_default() {
    let lines: Vec<&str> = vec![];
    let coll = parse(&lines, &config_public()).unwrap();
    assert_eq!(coll.len(), 1);
    assert_eq!(coll.get(DEFAULTLABEL).unwrap().buffer.as_str(), "");
}

#[test]
fn label_at_line_one_has_no_leading_marker() {
    let lines = vec!["// +IN S", "x", "// -IN S", "y"];
    let coll = parse(&lines, &config_public()).unwrap();
    assert_eq!(coll.get("S").unwrap().buffer.as_str(), "x\n...\n");
}

#[test]
fn label_at_last_line_has_no_trailing_marker() {
    let lines = vec!["a", "// +IN S", "x", "// -IN S"];
    let coll = parse(&lines, &config_public()).unwrap();
    assert_eq!(coll.get("S").unwrap().buffer.as_str(), "...\nx\n");
}

#[test]
fn reopened_label_gets_marker_each_time() {
    // Every re-opening away from line 1 inserts one leading marker.
    let lines = vec![
        "// +IN S", "a", "// -IN S", "// +IN S", "b", "// -IN S", "// +IN S", "c", "// -IN S",
        "z",
    ];
    let coll = parse(&lines, &config_public()).unwrap();
    assert_eq!(
        coll.get("S").unwrap().buffer.as_str(),
        "a\n...\n...\nb\n...\n...\nc\n...\n"
    );
}

#[test]
fn label_inside_suppression_is_recorded_but_empty() {
    let lines = vec!["a", "// +OUT", "// +IN S", "x", "// -IN S", "// -OUT", "b"];
    let coll = parse(&lines, &config_public()).unwrap();
    assert_eq!(coll.len(), 2);
    assert_eq!(coll.get("S").unwrap().buffer.as_str(), "...\n...\n");
    assert_eq!(coll.get(DEFAULTLABEL).unwrap().buffer.as_str(), "a\nb\n");
}

#[test]
fn var_substitutes_with_indent() {
    let lines = vec!["a", "// +VAR 3 xyz", "hidden", "// -VAR", "b"];
    let coll = parse(&lines, &config_public()).unwrap();
    assert_eq!(coll.get(DEFAULTLABEL).unwrap().buffer.as_str(), "a\n   xyz\nb\n");
}

#[test]
fn var_text_keeps_authored_spacing() {
    let lines = vec!["// +VAR 0   indented rest", "x", "// -VAR"];
    let coll = parse(&lines, &config_public()).unwrap();
    assert_eq!(coll.get(DEFAULTLABEL).unwrap().buffer.as_str(), "  indented rest\n");
}

#[test]
fn header_substitutes_rest_of_line() {
    let lines = vec!["a", "// +HEADER txt more", "hid", "// -HEADER", "b"];
    let coll = parse(&lines, &config_public()).unwrap();
    assert_eq!(coll.get(DEFAULTLABEL).unwrap().buffer.as_str(), "a\ntxt more\nb\n");
}

#[test]
fn header_text_survives_wide_separators() {
    // The text does not depend on how marker and keyword are separated.
    let lines = vec!["//  +HEADER hi", "x", "// -HEADER"];
    let coll = parse(&lines, &config_public()).unwrap();
    assert_eq!(coll.get(DEFAULTLABEL).unwrap().buffer.as_str(), "hi\n");

    let lines2 = vec!["//\t+HEADER hi", "x", "// -HEADER"];
    let coll2 = parse(&lines2, &config_public()).unwrap();
    assert_eq!(coll2.get(DEFAULTLABEL).unwrap().buffer.as_str(), "hi\n");
}

#[test]
fn header_and_var_closers_are_interchangeable() {
    let lines = vec!["// +VAR 0 s", "x", "// -HEADER", "b"];
    let coll = parse(&lines, &config_public()).unwrap();
    assert_eq!(coll.get(DEFAULTLABEL).unwrap().buffer.as_str(), "s\nb\n");
}

#[test]
fn alternative_marker_is_accepted() {
    let lines = vec!["a", "# +IN S", "x", "# -IN S", "b"];
    let setting = config(vec!["//".to_string(), "#".to_string()], false);
    let coll = parse(&lines, &setting).unwrap();
    assert_eq!(coll.get("S").unwrap().buffer.as_str(), "...\nx\n...\n");
}

#[test]
fn exc_region_is_cut_from_exercise_variant() {
    let lines = vec!["a", "// +EXC", "secret", "// -EXC", "b"];
    let coll = parse(&lines, &config_public()).unwrap();
    assert_eq!(coll.get(DEFAULTLABEL).unwrap().buffer.as_str(), "a\nb\n");
}

#[test]
fn exc_region_is_kept_in_solution_variant() {
    let lines = vec!["a", "// +EXC", "secret", "// -EXC", "b"];
    let setting = config(vec!["//".to_string()], true);
    let coll = parse(&lines, &setting).unwrap();
    assert_eq!(coll.get(DEFAULTLABEL).unwrap().buffer.as_str(), "a\nsecret\nb\n");
}

#[test]
fn close_without_open_names_label_and_line() {
    let lines = vec!["a", "// -IN foo"];
    let r = parse(&lines, &config_public());
    assert_eq!(
        r,
        Err("Line 2: End (-) without start (+) for label: foo".to_string())
    );
}

#[test]
fn unbalanced_var_open_and_close() {
    let lines = vec!["// +VAR 0 a", "x", "// +VAR 0 b"];
    let r = parse(&lines, &config_public());
    assert_eq!(r, Err("Line 3: Another +VAR".to_string()));

    let lines2 = vec!["a", "// -VAR"];
    let r2 = parse(&lines2, &config_public());
    assert_eq!(r2, Err("Line 2: -VAR without preceding +VAR".to_string()));
}

#[test]
fn error_line_numbers_reach_two_digits() {
    let lines = vec![
        "1", "2", "3", "4", "5", "6", "7", "8", "9", "// +OUT", "11", "// +OUT",
    ];
    let r = parse(&lines, &config_public());
    assert_eq!(r, Err("Line 12: Another +OUT".to_string()));
}

#[test]
fn unclosed_label_is_no_error() {
    // Labels are not balance-checked: an extract left open simply runs to
    // the end of the file, with no trailing marker.
    let lines = vec!["// +IN S", "x"];
    let coll = parse(&lines, &config_public()).unwrap();
    assert_eq!(coll.len(), 2);
    assert_eq!(coll.get("S").unwrap().buffer.as_str(), "x\n");
}

#[test]
fn two_token_directive_with_extra_words_is_content() {
    // `+OUT` takes exactly two tokens; with more it is plain content.
    let lines = vec!["// +OUT extra", "b"];
    let coll = parse(&lines, &config_public()).unwrap();
    assert_eq!(
        coll.get(DEFAULTLABEL).unwrap().buffer.as_str(),
        "// +OUT extra\nb\n"
    );
}

#[test]
fn write_plan_covers_default_and_labels() {
    let lines = vec!["line 1", "// +IN Slide", "x", "// -IN Slide", "line 5"];
    let setting = config_public();
    let coll = parse(&lines, &setting).unwrap();
    let plan = write_files("Test.java", "Test", "java", "dest", &coll, &setting);
    assert_eq!(plan.len(), 3);
    // default label: snippet and stripped source, under the plain name
    assert_eq!(plan[0].path.as_str(), "snippets/Test.java");
    assert_eq!(plan[0].content.as_str(), "line 1\nx\nline 5\n");
    assert_eq!(plan[1].path.as_str(), "dest/Test.java");
    assert_eq!(plan[1].content.as_str(), "line 1\nx\nline 5\n");
    // named label: stem_label.suffix in the snippet directory
    assert_eq!(plan[2].path.as_str(), "snippets/Test_Slide.java");
    assert_eq!(plan[2].content.as_str(), "...\nx\n...\n");
}

#[test]
fn suffix_matching_picks_configured_endings() {
    let suffixes = vec![".java".to_string(), ".txt".to_string()];
    assert!(suffix_matches("dir/A.java", &suffixes));
    assert!(suffix_matches("notes.txt", &suffixes));
    assert!(!suffix_matches("image.png", &suffixes));
    assert!(!suffix_matches("java", &suffixes));
}

#[test]
fn staleness_decision() {
    // force wins
    assert!(test_if_modified(true, Some(1), Some(2), Some(2)));
    // source newer than the snippet, or newer than the stripped copy
    assert!(test_if_modified(false, Some(3), Some(2), Some(4)));
    assert!(test_if_modified(false, Some(3), Some(4), Some(2)));
    // source older than both: nothing to do
    assert!(!test_if_modified(false, Some(1), Some(2), Some(2)));
    // equal time stamps: nothing to do
    assert!(!test_if_modified(false, Some(2), Some(2), Some(2)));
    // missing destinations or unreadable time stamps regenerate
    assert!(test_if_modified(false, Some(1), Some(2), None));
    assert!(test_if_modified(false, Some(1), None, Some(2)));
    assert!(test_if_modified(false, None, Some(2), Some(2)));
}
