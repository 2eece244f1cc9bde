//! Pretty-printing of JSON and XML documents.

use vstd::prelude::*;
use crate::parser::{Format, ParseError, byte_len, validate_size, MAX_INPUT_SIZE};
use crate::text::trimmed;
use crate::xml_read::{indented_xml, pretty_print_xml, read_limit};
use crate::json_read::{serde_json_accepts, serde_json_error, serde_json_pretty, serde_json_reading, serde_parse_value, serde_pretty};

verus! {

/// The text that formatting gives, when it succeeds: within the size limit,
/// JSON that serde_json reads, printed by serde_json with two spaces per
/// level; or XML re-indented by two spaces per level without a failure.
pub open spec fn pretty_text(input: &str, fmt: Format) -> Option<Seq<char>> {
    if byte_len(input) > MAX_INPUT_SIZE {
        None
    } else {
        match fmt {
            Format::Json => if serde_json_accepts(input@) {
                Some(serde_json_pretty(serde_json_reading(input@)))
            } else {
                None
            },
            Format::Xml => match indented_xml(trimmed(input@), read_limit(byte_len(input) as nat)) {
                Ok(s) => Some(s),
                Err(_) => None,
            },
        }
    }
}

/// Formats a document for reading: JSON indented by serde_json, XML
/// re-indented by two spaces per level. The input may not exceed
/// `MAX_INPUT_SIZE` bytes; a text that is not JSON gives `InvalidJson` with
/// serde_json's message, XML that cannot be re-indented `InvalidXml`.
pub fn format_pretty(input: &str, fmt: Format) -> (r: Result<String, ParseError>)
    ensures
        byte_len(input) > MAX_INPUT_SIZE ==> r == Err::<String, ParseError>(
            ParseError::InputTooLarge { limit: MAX_INPUT_SIZE, actual: byte_len(input) },
        ),
        r is Ok <==> pretty_text(input, fmt) is Some,
        r matches Ok(s) ==> pretty_text(input, fmt) == Some(s@),
        byte_len(input) <= MAX_INPUT_SIZE && fmt == Format::Json && r is Err ==> (r->Err_0 matches ParseError::InvalidJson(
            m,
        ) && m@ == serde_json_error(input@)),
        byte_len(input) <= MAX_INPUT_SIZE && fmt == Format::Xml && r is Err ==> (r->Err_0 matches ParseError::InvalidXml(
            m,
        ) && indented_xml(trimmed(input@), read_limit(byte_len(input) as nat)) == Err::<Seq<char>, Seq<char>>(m@)),
{
    match validate_size(input) {
        Err(e) => {
            return Err(e);
        },
        Ok(()) => {},
    }
    match fmt {
        Format::Json => {
            match serde_parse_value(input) {
                Err(m) => Err(ParseError::InvalidJson(m)),
                Ok((v, _)) => match serde_pretty(&v) {
                    Ok(s) => Ok(s),
                    Err(m) => Err(ParseError::InvalidJson(m)),
                },
            }
        },
        Format::Xml => pretty_print_xml(input),
    }
}

} // verus!
