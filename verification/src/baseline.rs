//! Substitution by repeated search: one pass over the whole text for each
//! pattern. It is the plain way to do it, kept to hold the single-pass
//! substitution against.

use vstd::prelude::*;
use vstd::string::StringExecFns;

verus! {

/// What `str::replace` makes of `text`, asked to replace `from` by `to`.
pub uninterp spec fn replaced(text: Seq<char>, from: Seq<char>, to: Seq<char>) -> Seq<char>;

/// `str::replace`: the string it gives depends on `text`, `from` and `to`
/// and on nothing else. It goes by the name `replaced`; which matches of
/// `from` are replaced is not stated here.
#[verifier::external_body]
fn replace_all(text: &str, from: &str, to: &str) -> (output: String)
    ensures
        output@ == replaced(text@, from@, to@),
{
    text.replace(from, to)
}

/// The placeholder that names `name`, as characters: `%{`, the name, `}`.
pub open spec fn placeholder_chars(name: Seq<char>) -> Seq<char> {
    seq!['%', '{'] + name + seq!['}']
}

/// The text after the first `count` patterns have been replaced in turn,
/// each everywhere in what the patterns before it left.
pub open spec fn replaced_in_turn(
    text: Seq<char>,
    patterns: Seq<&str>,
    values: Seq<String>,
    count: int,
) -> Seq<char>
    decreases count,
{
    if count <= 0 {
        text
    } else {
        replaced(
            replaced_in_turn(text, patterns, values, count - 1),
            placeholder_chars(patterns[count - 1]@),
            values[count - 1]@,
        )
    }
}

/// The placeholder that names `name`.
pub fn placeholder(name: &str) -> (text: String)
    ensures
        text@ == placeholder_chars(name@),
{
    proof {
        reveal_strlit("%{");
        reveal_strlit("}");
    }
    let mut text = String::from_str("%{");
    text.append(name);
    text.append("}");
    assert(text@ =~= placeholder_chars(name@));
    text
}

/// Text in which `%{name}` placeholders can be replaced pattern by pattern.
pub trait StdReplacePatterns {
    /// The characters of the text.
    spec fn text_chars(&self) -> Seq<char>;

    /// The text after each pattern in turn has had its placeholder replaced
    /// by its value, wherever the placeholder stands by then. Every pattern
    /// needs a value.
    fn replace_patterns(&self, patterns: &[&str], values: &[String]) -> (output: String)
        requires
            patterns@.len() <= values@.len(),
        ensures
            output@ == replaced_in_turn(
                self.text_chars(),
                patterns@,
                values@,
                patterns@.len() as int,
            ),
    ;
}

impl StdReplacePatterns for str {
    open spec fn text_chars(&self) -> Seq<char> {
        self@
    }

    fn replace_patterns(&self, patterns: &[&str], values: &[String]) -> (output: String) {
        let mut output = self.to_owned();
        let mut i: usize = 0;
        while i < patterns.len()
            invariant
                i <= patterns@.len() <= values@.len(),
                output@ == replaced_in_turn(self@, patterns@, values@, i as int),
            decreases patterns@.len() - i,
        {
            let marker = placeholder(patterns[i]);
            output = replace_all(output.as_str(), marker.as_str(), values[i].as_str());
            i += 1;
        }
        output
    }
}

impl StdReplacePatterns for String {
    open spec fn text_chars(&self) -> Seq<char> {
        self@
    }

    fn replace_patterns(&self, patterns: &[&str], values: &[String]) -> (output: String) {
        self.as_str().replace_patterns(patterns, values)
    }
}

} // verus!
