//! Substitution as a method of the text: on bytes, on `str`, on `String`
//! and on `Vec<u8>`.

use crate::assembler::{name_bytes, replace_bytes, value_bytes};
use crate::encoding::lemma_rendered_valid_utf8;
use crate::model::rendered;
use std::string::FromUtf8Error;
use vstd::pervasive::unreached;
use vstd::prelude::*;
use vstd::string::StringSliceAdditionalSpecFns;
use vstd::utf8::{
    decode_utf8, encode_utf8, encode_utf8_decode_utf8, encode_utf8_valid_utf8, valid_utf8,
};

verus! {

/// The error of `String::from_utf8`. Nothing is read from it.
#[verifier::external_type_specification]
#[verifier::external_body]
pub struct ExFromUtf8Error(FromUtf8Error);

/// `String::from_utf8`: it gives a string exactly when the bytes are valid
/// UTF-8, and the string then holds those bytes.
#[verifier::external_body]
fn string_from_utf8(bytes: Vec<u8>) -> (text: Result<String, FromUtf8Error>)
    ensures
        text is Ok <==> valid_utf8(bytes@),
        text matches Ok(string) ==> encode_utf8(string@) == bytes@,
{
    String::from_utf8(bytes)
}

/// Replaces the placeholders of `input` and hands the result out as text.
/// There is a result exactly when the bytes that substitution gives are
/// valid UTF-8, as they are whenever `input` is.
pub fn replace_utf8(input: &[u8], patterns: &[&str], values: &[String]) -> (output: Option<String>)
    ensures
        output is Some <==> valid_utf8(
            rendered(input@, name_bytes(patterns@), value_bytes(values@)),
        ),
        valid_utf8(input@) ==> output is Some,
        output matches Some(text) ==> {
            &&& encode_utf8(text@) == rendered(
                input@,
                name_bytes(patterns@),
                value_bytes(values@),
            )
            &&& text@ == decode_utf8(
                rendered(input@, name_bytes(patterns@), value_bytes(values@)),
            )
        },
{
    let bytes = replace_bytes(input, patterns, values);
    proof {
        if valid_utf8(input@) {
            let contents = value_bytes(values@);
            assert forall|i: int| 0 <= i < contents.len() implies valid_utf8(
                #[trigger] contents[i],
            ) by {
                encode_utf8_valid_utf8(values@[i]@);
            }
            lemma_rendered_valid_utf8(input@, name_bytes(patterns@), contents);
        }
    }
    match string_from_utf8(bytes) {
        Ok(text) => {
            proof {
                encode_utf8_decode_utf8(text@);
            }
            Some(text)
        },
        Err(_) => None,
    }
}

/// Text in which `%{name}` placeholders can be replaced in one pass.
pub trait FastReplacePatterns {
    /// The bytes of the text.
    spec fn text_bytes(&self) -> Seq<u8>;

    /// Whether the bytes are valid UTF-8.
    spec fn well_encoded(&self) -> bool;

    /// The text with each placeholder whose name is one of `patterns`
    /// replaced: by the value that stands in `values` where the first such
    /// pattern stands in `patterns`. A placeholder with another name, a
    /// marker that is never closed, and all other text are kept. A pattern
    /// with no value beside it is never matched.
    fn replace_patterns(&self, patterns: &[&str], values: &[String]) -> (output: String)
        requires
            self.well_encoded(),
        ensures
            encode_utf8(output@) == rendered(
                self.text_bytes(),
                name_bytes(patterns@),
                value_bytes(values@),
            ),
            output@ == decode_utf8(
                rendered(self.text_bytes(), name_bytes(patterns@), value_bytes(values@)),
            ),
    ;
}

impl FastReplacePatterns for [u8] {
    open spec fn text_bytes(&self) -> Seq<u8> {
        self@
    }

    open spec fn well_encoded(&self) -> bool {
        valid_utf8(self@)
    }

    fn replace_patterns(&self, patterns: &[&str], values: &[String]) -> (output: String) {
        match replace_utf8(self, patterns, values) {
            Some(output) => output,
            None => unreached(),
        }
    }
}

impl FastReplacePatterns for str {
    open spec fn text_bytes(&self) -> Seq<u8> {
        self.spec_bytes()
    }

    open spec fn well_encoded(&self) -> bool {
        true
    }

    fn replace_patterns(&self, patterns: &[&str], values: &[String]) -> (output: String) {
        proof {
            encode_utf8_valid_utf8(self@);
        }
        self.as_bytes().replace_patterns(patterns, values)
    }
}

impl FastReplacePatterns for String {
    open spec fn text_bytes(&self) -> Seq<u8> {
        encode_utf8(self@)
    }

    open spec fn well_encoded(&self) -> bool {
        true
    }

    fn replace_patterns(&self, patterns: &[&str], values: &[String]) -> (output: String) {
        self.as_str().replace_patterns(patterns, values)
    }
}

impl FastReplacePatterns for Vec<u8> {
    open spec fn text_bytes(&self) -> Seq<u8> {
        self@
    }

    open spec fn well_encoded(&self) -> bool {
        valid_utf8(self@)
    }

    fn replace_patterns(&self, patterns: &[&str], values: &[String]) -> (output: String) {
        self.as_slice().replace_patterns(patterns, values)
    }
}

} // verus!
