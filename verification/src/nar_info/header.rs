//! The text of HTTP header values.
use http::HeaderValue;
use vstd::prelude::*;

verus! {

/// Whether a byte is a visible ASCII character, a space or a tab.
pub open spec fn is_text_byte(byte: u8) -> bool {
    32 <= byte < 127 || byte == 9
}

/// Whether all the bytes of a header value are text.
pub open spec fn is_text(raw: Seq<u8>) -> bool {
    forall|i: int| 0 <= i < raw.len() ==> is_text_byte(#[trigger] raw[i])
}

/// The characters that ASCII bytes stand for.
pub open spec fn ascii_chars(raw: Seq<u8>) -> Seq<char> {
    raw.map_values(|byte: u8| byte as char)
}

/// Whether `text` is what the header value `raw` reads as: its characters, or nothing if it is
/// not text.
pub open spec fn reads_as(raw: Seq<u8>, text: Option<String>) -> bool {
    match text {
        Some(text) => is_text(raw) && text@ == ascii_chars(raw),
        None => !is_text(raw),
    }
}

/// A header value reads as text if every byte of it is a visible ASCII character, a space or a
/// tab, and then as the characters with the codes of its bytes, in their order. Any other value
/// does not read as text.
pub proof fn law_text_is_read_byte_by_byte(raw: Seq<u8>, text: Option<String>)
    ensures
        reads_as(raw, text) <==> match text {
            Some(text) => {
                &&& text@.len() == raw.len()
                &&& forall|i: int|
                    0 <= i < raw.len() ==> {
                        &&& (32 <= #[trigger] raw[i] && raw[i] <= 126) || raw[i] == 9
                        &&& text@[i] == raw[i] as char
                    }
            },
            None => exists|i: int|
                0 <= i < raw.len() && !(32 <= #[trigger] raw[i] && raw[i] <= 126) && raw[i] != 9,
        },
{
    if let Some(text) = text {
        if text@.len() == raw.len() && forall|i: int|
            0 <= i < raw.len() ==> {
                &&& (32 <= #[trigger] raw[i] && raw[i] <= 126) || raw[i] == 9
                &&& text@[i] == raw[i] as char
            } {
            assert(text@ =~= ascii_chars(raw));
        }
    }
}

/// `http::HeaderValue::to_str`, applied to the header value that `http::HeaderValue::from_bytes`
/// makes of `raw`, yields the text of a value that holds only visible ASCII characters, spaces
/// and tabs, and an error for any other. `from_bytes` itself fails only on bytes that `to_str`
/// would not accept.
#[verifier::external_body]
pub(crate) fn header_text(raw: &[u8]) -> (text: Option<String>)
    ensures
        reads_as(raw@, text),
{
    let value = HeaderValue::from_bytes(raw).ok()?;
    let text = value.to_str().ok()?;
    Some(String::from(text))
}

} // verus!
