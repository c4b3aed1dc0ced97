use fast_string_replace::baseline::placeholder;
use fast_string_replace::StdReplacePatterns;

fn owned(values: &[&str]) -> Vec<String> {
    values.iter().map(|value| value.to_string()).collect()
}

#[test]
fn placeholder_wraps_the_name() {
    assert_eq!(placeholder("greet"), "%{greet}");
    assert_eq!(placeholder(""), "%{}");
    assert_eq!(placeholder("wörld"), "%{wörld}");
}

#[test]
fn baseline_fills_in_the_greeting() {
    let output = "Hello %{greet}!".replace_patterns(&["greet"], &owned(&["world"]));
    assert_eq!(output, "Hello world!");
}

#[test]
fn baseline_replaces_every_occurrence() {
    let text = "%{a} %{b} %{a} %{c}";
    let output = text.replace_patterns(&["b", "a"], &owned(&["2", "1"]));
    assert_eq!(output, "1 2 1 %{c}");
    let output = text.to_owned().replace_patterns(&["b", "a"], &owned(&["2", "1"]));
    assert_eq!(output, "1 2 1 %{c}");
}

#[test]
fn baseline_without_patterns_copies_the_text() {
    let output = "%{begin} walking to the %{end}".replace_patterns(&[], &[]);
    assert_eq!(output, "%{begin} walking to the %{end}");
}

#[test]
fn baseline_searches_values_of_earlier_patterns_again() {
    let output = "%{a} %{b}".replace_patterns(&["a", "b"], &owned(&["%{b}", "B"]));
    assert_eq!(output, "B B");
}
