use fast_string_replace::assembler::{assemble, find_pattern, replace_bytes, same_bytes};

fn owned(values: &[&str]) -> Vec<String> {
    values.iter().map(|value| value.to_string()).collect()
}

#[test]
fn same_bytes_compares_length_and_content() {
    assert!(same_bytes(b"", b""));
    assert!(same_bytes(b"abc", b"abc"));
    assert!(!same_bytes(b"abc", b"abd"));
    assert!(!same_bytes(b"abc", b"ab"));
    assert!(!same_bytes(b"", b"a"));
}

#[test]
fn find_pattern_gives_the_first_match() {
    let values = owned(&["1", "2", "3"]);
    assert_eq!(find_pattern(b"b", &["a", "b", "b"], &values), Some(1));
    assert_eq!(find_pattern(b"a", &["a", "b", "b"], &values), Some(0));
    assert_eq!(find_pattern(b"c", &["a", "b", "b"], &values), None);
    assert_eq!(find_pattern(b"", &["a", ""], &values), Some(1));
    assert_eq!(find_pattern(b"a", &[], &values), None);
}

#[test]
fn find_pattern_skips_patterns_without_value() {
    let values = owned(&["1"]);
    assert_eq!(find_pattern(b"b", &["a", "b"], &values), None);
    assert_eq!(find_pattern(b"a", &["a", "b"], &values), Some(0));
    assert_eq!(find_pattern(b"a", &["a", "b"], &[]), None);
}

#[test]
fn assemble_resolves_the_given_placeholders() {
    let output = assemble(b"ab%{x}cd", &[3, 5], &["x"], &owned(&["Y"]));
    assert_eq!(output, b"abYcd".to_vec());
    let output = assemble(b"ab%{x}cd", &[3, 5], &["y"], &owned(&["Y"]));
    assert_eq!(output, b"ab%{x}cd".to_vec());
}

#[test]
fn assemble_without_offsets_copies_the_input() {
    let output = assemble(b"ab%{x}cd", &[], &["x"], &owned(&["Y"]));
    assert_eq!(output, b"ab%{x}cd".to_vec());
}

#[test]
fn assemble_goes_by_the_offsets_alone() {
    let output = assemble(b"abcdefgh", &[2, 5], &["de"], &owned(&["-"]));
    assert_eq!(output, b"a-gh".to_vec());
    let output = assemble(b"abcdefgh", &[2, 5], &["xy"], &owned(&["-"]));
    assert_eq!(output, b"abcdefgh".to_vec());
}

#[test]
fn replace_bytes_works_on_any_bytes() {
    let input = [0xff, b'%', b'{', 0xfe, b'}', 0x80];
    let output = replace_bytes(&input, &["x"], &owned(&["X"]));
    assert_eq!(output, input.to_vec());
    let output = replace_bytes(b"\xff%{x}\x80", &["x"], &owned(&["X"]));
    assert_eq!(output, b"\xffX\x80".to_vec());
}

#[test]
fn replace_bytes_gives_the_bytes_of_the_text() {
    let output = replace_bytes(b"Hello %{greet}!", &["greet"], &owned(&["world"]));
    assert_eq!(output, b"Hello world!".to_vec());
}
