// Directive parsing tests, run with a single accepted comment marker.

use snips::parser::parse;
use snips::util::Setting;
use snips::DEFAULTLABEL;

fn str_to_vec(s: &str) -> Vec<&str> {
    s.split("\n").collect()
}

fn config_public() -> Setting {
    // Path is relative to project root.
    Setting {
        src_dir: "tests/testfiles/src".to_string(),
        snippet_dest_dir: "tests/testfiles/snippets".to_string(),
        src_dest_dir: "tests/testfiles/src_dest".to_string(),
        file_suffix: vec![".java".to_string()],
        comment: vec!["//".to_string()],
        exercise_solution: false,
        force_update: true,
        copy_other_files: false,
        verbosity: 0,
    }
}

fn config_solution() -> Setting {
    // Path is relative to project root.
    Setting {
        src_dir: "tests/testfiles/src".to_string(),
        snippet_dest_dir: "tests/testfiles/snippets".to_string(),
        src_dest_dir: "tests/testfiles/src_dest".to_string(),
        file_suffix: vec![".java".to_string()],
        comment: vec!["//".to_string()],
        exercise_solution: true,
        force_update: true,
        copy_other_files: false,
        verbosity: 0,
    }
}

#[test]
fn tests_test_slide() {
    let s = "line 1\n// +IN Slide\n  line 3\n// -IN Slide\nline 5\n";
    let ok = "...\n  line 3\n...\n";
    let lines = str_to_vec(s);
    let coll = parse(&lines, &config_public()).unwrap();
    let test = coll.get("Slide").unwrap().buffer.as_str();
    assert_eq!(coll.len(), 2);
    assert_eq!(test, ok);
}

#[test]
fn tests_excsubst() {
    let s = "line 1\n// +EXCSUBST 0 // line hint\nline 3\n// -EXCSUBST\nline 5\n";
    let ok = "line 1\n// line hint\nline 5\n\n";
    // test produces an extra line, therefore this extra line.
    let lines = str_to_vec(s);
    let coll = parse(&lines, &config_public()).unwrap();
    assert_eq!(coll.len(), 1);
    let test = coll.get(DEFAULTLABEL).unwrap().buffer.as_str();
    assert_eq!(test, ok);
}

#[test]
fn tests_excsubst_solution() {
    let s = "line 1\n// +EXCSUBST 0 // line hint\nline solution\n// -EXCSUBST\nline 5\n";
    let ok = "line 1\nline solution\nline 5\n\n";
    // test produces an extra line, therefore this extra line.
    let lines = str_to_vec(s);
    let coll = parse(&lines, &config_solution()).unwrap();
    assert_eq!(coll.len(), 1);
    let test = coll.get(DEFAULTLABEL).unwrap().buffer.as_str();
    assert_eq!(test, ok);
}

#[test]
fn tests_unbalanced_out_on() {
    let s = "line 1\n// +OUT\nline 3\n// +OUT\nline 5\n";
    let lines = str_to_vec(s);
    let r = parse(&lines, &config_public());
    assert_eq!(r, Err("Line 4: Another +OUT".to_string()));
}

#[test]
fn tests_unbalanced_out_off() {
    let s = "line 1\n// -OUT\nline 3\n";
    let lines = str_to_vec(s);
    let r = parse(&lines, &config_public());
    assert_eq!(r, Err("Line 2: -OUT without preceding +OUT".to_string()));
}

#[test]
fn tests_unbalanced_exc_on() {
    let s = "line 1\n// +EXC\nline 3\n// +EXC\nline 5\n";
    let lines = str_to_vec(s);
    let r = parse(&lines, &config_public());
    assert_eq!(r, Err("Line 4: Another +EXC".to_string()));
}

#[test]
fn tests_unbalanced_exc_off() {
    let s = "line 1\n// -EXC\nline 3\n";
    let lines = str_to_vec(s);
    let r = parse(&lines, &config_public());
    assert_eq!(r, Err("Line 2: -EXC without preceding +EXC".to_string()));
}

#[test]
fn tests_unbalanced_excsubst_on() {
    let s = "line 1\n// +EXCSUBST 0 hint\nline 3\n// +EXCSUBST 0 hint\nline 5\n";
    let lines = str_to_vec(s);
    let r = parse(&lines, &config_public());
    assert_eq!(r, Err("Line 4: Another +EXCSUBST".to_string()));
}

#[test]
fn tests_unbalanced_excsubst_off() {
    let s = "line 1\n// -EXCSUBST\nline 3\n";
    let lines = str_to_vec(s);
    let r = parse(&lines, &config_public());
    assert_eq!(r, Err("Line 2: -EXCSUBST without preceding +EXCSUBST".to_string()));
}

#[test]
fn indented_label() {
    let s = "line 1\n  // +EXCSUBST 0 // line hint\nline solution\n// -EXCSUBST\nline 5\n";
    let ok = "line 1\n// line hint\nline 5\n\n";
    // test produces an extra line, therefore this extra line.
    let lines = str_to_vec(s);
    let coll = parse(&lines, &config_public()).unwrap();
    assert_eq!(coll.len(), 1);
    let test = coll.get(DEFAULTLABEL).unwrap().buffer.as_str();
    assert_eq!(test, ok);
}

/// The OUT-label cuts off inner IN-labels.
#[test]
fn nested_out_in() {
    let s = "line 1\n// +OUT\nline 3\n// +IN foo\nline 5\n// -IN foo\nline 7\n// -OUT\n";
    let ok = "line 1\n\n";
    // test produces an extra line, therefore this extra line.
    let lines = str_to_vec(s);
    let coll = parse(&lines, &config_public()).unwrap();
    assert_eq!(coll.len(), 2);
    let test = coll.get(DEFAULTLABEL).unwrap().buffer.as_str();
    assert_eq!(test, ok);
}
