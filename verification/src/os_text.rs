//! Text as the operating system has it: paths and arguments are bytes, which need
//! not be UTF-8.

use vstd::prelude::*;
use vstd::string::*;
use vstd::utf8::*;

verus! {

broadcast use vstd::string::group_string_axioms;

/// Text of the operating system.
#[derive(Debug, PartialEq, Eq)]
pub struct OsText {
    pub bytes: Vec<u8>,
}

/// The text that `String::from_utf8_lossy` gives for these bytes.
pub uninterp spec fn lossy_text(bytes: Seq<u8>) -> Seq<char>;

/// `String::from_utf8_lossy`: bytes that are UTF-8 give the text that they encode. What
/// stands for other bytes is left unsaid.
#[verifier::external_body]
fn lossy(bytes: &Vec<u8>) -> (text: String)
    ensures
        text@ == lossy_text(bytes@),
        valid_utf8(bytes@) ==> text@ == decode_utf8(bytes@),
{
    String::from_utf8_lossy(bytes).into_owned()
}

/// The text that stands for bytes in messages: what they encode where they are UTF-8.
pub open spec fn shown_text(bytes: Seq<u8>) -> Seq<char> {
    if valid_utf8(bytes) {
        decode_utf8(bytes)
    } else {
        lossy_text(bytes)
    }
}

impl OsText {
    pub open spec fn view(self) -> Seq<u8> {
        self.bytes@
    }

    /// A text, encoded as UTF-8.
    pub fn from_text(text: &str) -> (result: OsText)
        ensures
            result@ == encode_utf8(text@),
    {
        OsText { bytes: text.as_bytes_vec() }
    }

    /// The text as it stands in messages.
    pub fn show(&self) -> (shown: String)
        ensures
            shown@ == shown_text(self@),
    {
        lossy(&self.bytes)
    }
}

impl Clone for OsText {
    fn clone(&self) -> (copy: OsText)
        ensures
            copy@ == self@,
    {
        OsText { bytes: self.bytes.clone() }
    }
}

} // verus!
