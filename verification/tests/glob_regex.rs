use sai3_bench::glob::{object_selection, select_glob_matches, split_glob_uri, GlobError, ObjectSelection};
use sai3_bench::glob_to_regex;

fn reference(glob: &str) -> String {
    format!("^{}$", regex::escape(glob).replace(r"\*", ".*"))
}

#[test]
fn test_glob_star_suffix() {
    assert_eq!(glob_to_regex("*.txt"), "^.*\\.txt$");
}

#[test]
fn test_glob_plain_name() {
    assert_eq!(glob_to_regex("data"), "^data$");
    assert_eq!(glob_to_regex(""), "^$");
}

#[test]
fn test_glob_meta_characters_escaped() {
    assert_eq!(glob_to_regex("file-?.log"), "^file\\-\\?\\.log$");
    assert_eq!(glob_to_regex("a+b(c)"), "^a\\+b\\(c\\)$");
}

#[test]
fn test_glob_backslash_before_star() {
    assert_eq!(glob_to_regex("a\\*b"), "^a\\\\.*b$");
}

#[test]
fn test_glob_matches_regex_crate_composition() {
    for g in ["obj_*", "prefix/*/d_*.bin", "x**y", "[a]{b}^$|#&~", "dir\\sub*", "ünï*cødé", "*"] {
        assert_eq!(glob_to_regex(g), reference(g), "glob {g}");
    }
}

#[test]
fn test_glob_regex_is_usable() {
    let re = regex::Regex::new(&glob_to_regex("obj_*.dat")).unwrap();
    assert!(re.is_match("obj_00012.dat"));
    assert!(!re.is_match("obj_00012.datx"));
    assert!(!re.is_match("xobj_1.dat"));
}

fn names(xs: &[&str]) -> Vec<String> {
    xs.iter().map(|s| s.to_string()).collect()
}

#[test]
fn test_split_glob_uri() {
    assert_eq!(
        split_glob_uri("s3://bucket/data/obj_*.bin"),
        Some(("s3://bucket/data/".to_string(), "obj_*.bin".to_string()))
    );
    assert_eq!(split_glob_uri("s3://b/"), Some(("s3://b/".to_string(), String::new())));
    assert_eq!(split_glob_uri("obj*"), None);
}

#[test]
fn test_select_glob_matches() {
    let listed = names(&["s3://b/d/obj_1.bin", "s3://b/d/obj_2.txt", "s3://b/d/x/obj_3.bin", "obj_4.bin", "s3://b/d/other.bin"]);
    let got = select_glob_matches(&listed, "obj_*.bin").unwrap();
    assert_eq!(got, names(&["s3://b/d/obj_1.bin", "s3://b/d/x/obj_3.bin", "obj_4.bin"]));
    assert!(select_glob_matches(&names(&[]), "*").unwrap().is_empty());
    let got = select_glob_matches(&listed, "*").unwrap();
    assert_eq!(got, listed);
    let got = select_glob_matches(&names(&["a/f(1).dat", "a/f11.dat"]), "f(1).dat").unwrap();
    assert_eq!(got, names(&["a/f(1).dat"]));
}

#[test]
fn test_object_selection() {
    match object_selection("s3://b/d/obj_*.bin").unwrap() {
        ObjectSelection::Pattern { dir, pattern } => {
            assert_eq!(dir, "s3://b/d/");
            assert_eq!(pattern.as_deref(), Some("obj_*.bin"));
        }
        other => panic!("unexpected {:?}", other),
    }
    match object_selection("s3://b/*/obj.bin").unwrap() {
        ObjectSelection::Pattern { dir, pattern } => {
            assert_eq!(dir, "s3://b/*/");
            assert_eq!(pattern, None);
        }
        other => panic!("unexpected {:?}", other),
    }
    assert!(matches!(object_selection("s3://b/d/").unwrap(), ObjectSelection::Directory(d) if d == "s3://b/d/"));
    assert!(matches!(object_selection("s3://b/d/o.bin").unwrap(), ObjectSelection::Single(d) if d == "s3://b/d/o.bin"));
    assert_eq!(object_selection("obj*").unwrap_err(), GlobError::NoDirectory);
    assert_eq!(GlobError::NoDirectory.message("obj*"), "Invalid URI pattern: obj*");
    assert_eq!(GlobError::InvalidPattern.message("x"), "Invalid glob pattern");
}
