use fast_string_replace::replace::replace_utf8;
use fast_string_replace::FastReplacePatterns;

fn owned(values: &[&str]) -> Vec<String> {
    values.iter().map(|value| value.to_string()).collect()
}

#[test]
fn replace_all_hello_world() {
    let patterns = &["greet", "what"];
    let values = &["Rust".to_owned(), "string".to_owned()];
    let input = "Hello %{greet}, this is a %{what} formating test!";
    let output = input.replace_patterns(patterns, values);
    assert_eq!(output, "Hello Rust, this is a string formating test!");
}

#[test]
fn replace_all_begin_end() {
    let patterns = &["begin", "end"];
    let values = &["I'm".to_owned(), "the school!".to_owned()];
    let input = "%{begin} walking to %{end}";
    let output = input.replace_patterns(patterns, values);
    assert_eq!(output, "I'm walking to the school!");
}

#[test]
fn replace_all_begin_end_reverse() {
    let patterns = &["end", "begin"];
    let values = &["the school!".to_owned(), "I'm".to_owned()];
    let input = "%{begin} walking to %{end}";
    let output = input.replace_patterns(patterns, values);
    assert_eq!(output, "I'm walking to the school!");
}

#[test]
fn replace_all_no_var() {
    let patterns = &["begin", "end"];
    let values = &["I'm".to_owned(), "the school!".to_owned()];
    let input = "I'm walking to the school!";
    let output = input.replace_patterns(patterns, values);
    assert_eq!(output, "I'm walking to the school!");
}

#[test]
fn replace_all_no_pattern() {
    let patterns = &[];
    let values = &[];
    let input = "%{begin} walking to the %{end}";
    let output = input.replace_patterns(patterns, values);
    assert_eq!(output, input);
}

#[test]
fn greeting_is_filled_in() {
    let output = "Hello %{greet}!".replace_patterns(&["greet"], &owned(&["world"]));
    assert_eq!(output, "Hello world!");
}

#[test]
fn unterminated_marker_is_kept() {
    let output = "value is %{".replace_patterns(&["x"], &owned(&["y"]));
    assert_eq!(output, "value is %{");
}

#[test]
fn unterminated_marker_with_name_is_kept() {
    let output = "%{x} and %{x".replace_patterns(&["x"], &owned(&["y"]));
    assert_eq!(output, "y and %{x");
}

#[test]
fn text_without_placeholder_is_unchanged() {
    let texts = ["", "plain", "100% sure", "a { b } c", "%", "%%", "{x}", "}%{", "% {x}"];
    for text in texts {
        assert_eq!(text.replace_patterns(&["x", ""], &owned(&["1", "2"])), text);
        assert_eq!(text.replace_patterns(&[], &[]), text);
    }
}

#[test]
fn empty_pattern_set_keeps_every_placeholder() {
    let texts = ["%{a}", "x%{a}y%{b}z", "%{}", "%%{a}}", "%{a%{b}"];
    for text in texts {
        assert_eq!(text.replace_patterns(&[], &[]), text);
    }
}

#[test]
fn unmatched_placeholder_stands_at_its_place() {
    let output = "x %{known} y %{unknown} z".replace_patterns(&["known"], &owned(&["K"]));
    assert_eq!(output, "x K y %{unknown} z");
    assert_eq!(&output[6..16], "%{unknown}");
}

#[test]
fn order_of_patterns_does_not_matter() {
    let text = "%{a}-%{b}-%{c}-%{a}";
    let expected = "1-2-3-1";
    assert_eq!(text.replace_patterns(&["a", "b", "c"], &owned(&["1", "2", "3"])), expected);
    assert_eq!(text.replace_patterns(&["a", "c", "b"], &owned(&["1", "3", "2"])), expected);
    assert_eq!(text.replace_patterns(&["b", "a", "c"], &owned(&["2", "1", "3"])), expected);
    assert_eq!(text.replace_patterns(&["b", "c", "a"], &owned(&["2", "3", "1"])), expected);
    assert_eq!(text.replace_patterns(&["c", "a", "b"], &owned(&["3", "1", "2"])), expected);
    assert_eq!(text.replace_patterns(&["c", "b", "a"], &owned(&["3", "2", "1"])), expected);
}

#[test]
fn placeholders_put_back_give_the_input() {
    let text = "Dear %{title} %{name}, %{unknown} %{title}%";
    let output = text.replace_patterns(&["name", "title"], &owned(&["%{name}", "%{title}"]));
    assert_eq!(output, text);
}

#[test]
fn every_byte_is_kept_once() {
    let text = "ab%{x}cd%{y}ef%{x}gh";
    let output = text.replace_patterns(&["x"], &owned(&["<>"]));
    assert_eq!(output, "ab<>cd%{y}ef<>gh");
    assert_eq!(output.len(), text.len() - 2 * "%{x}".len() + 2 * "<>".len());
}

#[test]
fn first_of_equal_patterns_wins() {
    let output = "%{a}".replace_patterns(&["a", "a"], &owned(&["first", "second"]));
    assert_eq!(output, "first");
}

#[test]
fn pattern_without_value_is_never_matched() {
    let output = "%{a}%{b}".replace_patterns(&["a", "b"], &owned(&["1"]));
    assert_eq!(output, "1%{b}");
}

#[test]
fn value_without_pattern_is_ignored() {
    let output = "%{a}%{b}".replace_patterns(&["a"], &owned(&["1", "2"]));
    assert_eq!(output, "1%{b}");
}

#[test]
fn percent_must_stand_right_before_the_brace() {
    let values = owned(&["X"]);
    assert_eq!("%a{x}".replace_patterns(&["x"], &values), "%a{x}");
    assert_eq!("% {x}".replace_patterns(&["x"], &values), "% {x}");
    assert_eq!("{x}".replace_patterns(&["x"], &values), "{x}");
}

#[test]
fn repeated_percent_keeps_the_marker_armed() {
    let values = owned(&["X"]);
    assert_eq!("%%{x}".replace_patterns(&["x"], &values), "%X");
    assert_eq!("100%%%{x}".replace_patterns(&["x"], &values), "100%%X");
}

#[test]
fn only_a_closing_brace_ends_a_placeholder() {
    let patterns = &["b", "a%{b", "a{b", "a%"];
    let values = owned(&["B", "whole", "brace", "percent"]);
    assert_eq!("%{a%{b}".replace_patterns(patterns, &values), "whole");
    assert_eq!("%{a{b}".replace_patterns(patterns, &values), "brace");
    assert_eq!("%{a%}".replace_patterns(patterns, &values), "percent");
    assert_eq!("%{a%{b}}".replace_patterns(patterns, &values), "whole}");
}

#[test]
fn empty_name_is_a_name() {
    assert_eq!("a%{}b".replace_patterns(&["x"], &owned(&["X"])), "a%{}b");
    assert_eq!("a%{}b".replace_patterns(&[""], &owned(&["-"])), "a-b");
}

#[test]
fn names_are_compared_byte_for_byte() {
    let values = owned(&["X"]);
    assert_eq!("%{Name}".replace_patterns(&["name"], &values), "%{Name}");
    assert_eq!("%{ name }".replace_patterns(&["name"], &values), "%{ name }");
    assert_eq!("%{nam}".replace_patterns(&["name"], &values), "%{nam}");
    assert_eq!("%{names}".replace_patterns(&["name"], &values), "%{names}");
    assert_eq!("%{ name }".replace_patterns(&[" name "], &values), "X");
}

#[test]
fn values_are_not_searched_again() {
    let output = "%{a} %{b}".replace_patterns(&["a", "b"], &owned(&["%{b}", "B"]));
    assert_eq!(output, "%{b} B");
}

#[test]
fn value_may_be_empty_or_long() {
    assert_eq!("[%{a}]".replace_patterns(&["a"], &owned(&[""])), "[]");
    let long = "x".repeat(1000);
    assert_eq!("[%{a}]".replace_patterns(&["a"], &[long.clone()]), format!("[{}]", long));
}

#[test]
fn placeholders_side_by_side_and_at_the_ends() {
    let output = "%{a}%{b}%{a}".replace_patterns(&["a", "b"], &owned(&["1", "2"]));
    assert_eq!(output, "121");
}

#[test]
fn text_beyond_ascii_is_kept() {
    let output = "héllo %{wörld} ✓ %{x}".replace_patterns(&["wörld"], &owned(&["мир"]));
    assert_eq!(output, "héllo мир ✓ %{x}");
}

#[test]
fn many_placeholders_are_all_replaced() {
    let text = "%{a},".repeat(100);
    let output = text.replace_patterns(&["a"], &owned(&["bc"]));
    assert_eq!(output, "bc,".repeat(100));
}

#[test]
fn bytes_strings_and_vectors_give_the_same() {
    let patterns = &["greet"];
    let values = owned(&["world"]);
    let text = "Hello %{greet}!";
    let expected = "Hello world!";
    assert_eq!(text.as_bytes().replace_patterns(patterns, &values), expected);
    assert_eq!(text.to_owned().replace_patterns(patterns, &values), expected);
    assert_eq!(text.as_bytes().to_vec().replace_patterns(patterns, &values), expected);
    assert_eq!(b"Hello %{greet}!".replace_patterns(patterns, &values), expected);
}

#[test]
fn replace_utf8_gives_text_for_valid_bytes() {
    let output = replace_utf8(b"Hello %{greet}!", &["greet"], &owned(&["world"]));
    assert_eq!(output, Some("Hello world!".to_owned()));
    let output = replace_utf8("é%{x}ü".as_bytes(), &["x"], &owned(&["ö"]));
    assert_eq!(output, Some("éöü".to_owned()));
}

#[test]
fn replace_utf8_gives_nothing_where_the_result_is_no_text() {
    assert_eq!(replace_utf8(b"\xff%{x}", &["x"], &owned(&["X"])), None);
    assert_eq!(replace_utf8(b"%{\xff}", &["x"], &owned(&["X"])), None);
    assert_eq!(replace_utf8(b"\xc3%{x}", &["x"], &owned(&["X"])), None);
}

#[test]
fn replace_utf8_goes_by_the_bytes_that_come_out() {
    let output = replace_utf8(b"\xc3%{x}\xa9", &["x"], &owned(&[""]));
    assert_eq!(output, Some("é".to_owned()));
}
