use illusionna::text::{chars_of, occurs_in_exec, precedes_exec, split_path};

fn chars(s: &str) -> Vec<char> {
    s.chars().collect()
}

#[test]
fn split_path_keeps_empty_segments() {
    assert_eq!(split_path("a/b/c"), vec!["a".to_string(), "b".to_string(), "c".to_string()]);
    assert_eq!(split_path(""), vec!["".to_string()]);
    assert_eq!(split_path("a//b/"), vec!["a".to_string(), "".to_string(), "b".to_string(), "".to_string()]);
    assert_eq!(split_path("/é"), vec!["".to_string(), "é".to_string()]);
}

#[test]
fn chars_of_reads_every_character() {
    assert_eq!(chars_of("añb"), vec!['a', 'ñ', 'b']);
    assert_eq!(chars_of(""), Vec::<char>::new());
}

#[test]
fn precedes_is_lexicographic() {
    assert!(precedes_exec(&chars("a"), &chars("b")));
    assert!(precedes_exec(&chars("ab"), &chars("abc")));
    assert!(!precedes_exec(&chars("abc"), &chars("ab")));
    assert!(!precedes_exec(&chars("same"), &chars("same")));
    assert!(precedes_exec(&chars("Z"), &chars("a")));
    assert!(precedes_exec(&chars(""), &chars("x")));
}

#[test]
fn occurs_in_finds_contiguous_parts() {
    assert!(occurs_in_exec(&chars("lo w"), &chars("hello world")));
    assert!(occurs_in_exec(&chars(""), &chars("")));
    assert!(!occurs_in_exec(&chars("lw"), &chars("hello world")));
    assert!(!occurs_in_exec(&chars("longer"), &chars("long")));
    assert!(occurs_in_exec(&chars("d"), &chars("hello world")));
}
