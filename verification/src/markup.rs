//! The clipboard's envelope in markup: a table whose root attribute carries
//! the serialized snapshot, escaped for an attribute.
//!
//! Escaping and unescaping are the work of the `htmlescape` crate; the
//! attribute is found with the `regex` crate.

use vstd::prelude::*;
use regex::Regex;

verus! {

/// The text that `htmlescape` makes of `text` for use inside an attribute.
pub uninterp spec fn html_attribute_encoded(text: Seq<char>) -> Seq<char>;

/// The text that `htmlescape` makes of `text` by replacing its entities, if
/// every entity in it is well formed.
pub uninterp spec fn html_decoded(text: Seq<char>) -> Option<Seq<char>>;

/// What the first capture group of the regular expression `pattern` holds at
/// the leftmost match in `text`: `None` where the pattern is not a regular
/// expression or matches nowhere, `Some(None)` where it matches without the
/// group taking part.
pub uninterp spec fn first_group(pattern: Seq<char>, text: Seq<char>) -> Option<Option<Seq<char>>>;

/// `htmlescape::encode_attribute`: escapes a text for use inside an
/// attribute.
#[verifier::external_body]
pub(crate) fn encode_attribute(text: &str) -> (r: String)
    ensures
        r@ == html_attribute_encoded(text@),
{
    htmlescape::encode_attribute(text)
}

/// `htmlescape::decode_html`: replaces the entities of a text by the
/// characters they stand for; `None` where the crate reports a malformed
/// entity.
#[verifier::external_body]
pub(crate) fn decode_html(text: &str) -> (r: Option<String>)
    ensures
        match r {
            Some(t) => html_decoded(text@) == Some(t@),
            None => html_decoded(text@) is None,
        },
{
    match htmlescape::decode_html(text) {
        Ok(t) => Some(t),
        Err(_) => None,
    }
}

/// `Regex::new` and `Regex::captures`: compiles `pattern` and looks for its
/// leftmost match in `text`. The result is what the first capture group
/// holds there.
#[verifier::external_body]
pub(crate) fn capture_first_group(pattern: &str, text: &str) -> (r: Option<Option<String>>)
    ensures
        match r {
            Some(Some(t)) => first_group(pattern@, text@) == Some(Some(t@)),
            Some(None) => first_group(pattern@, text@) == Some(None::<Seq<char>>),
            None => first_group(pattern@, text@) is None,
        },
{
    match Regex::new(pattern) {
        Ok(re) => match re.captures(text) {
            Some(found) => match found.get(1) {
                Some(group) => Some(Some(group.as_str().to_string())),
                None => Some(None),
            },
            None => None,
        },
        Err(_) => None,
    }
}

/// The pattern that finds the serialized snapshot in the markup of a
/// clipboard: the value of the attribute in front of the table's body.
pub open spec fn payload_pattern() -> Seq<char> {
    "data-quadratic=\"(.*)\"><tbody"@
}

/// The serialized snapshot that the markup `html` carries: what the pattern
/// captures, with its entities replaced; nothing where the pattern does not
/// match or an entity is malformed.
pub open spec fn spec_payload(html: Seq<char>) -> Option<Seq<char>> {
    match first_group(payload_pattern(), html) {
        None => None,
        Some(Some(t)) => html_decoded(t),
        Some(None) => html_decoded(Seq::empty()),
    }
}

/// The serialized snapshot that the markup `html` carries, if it carries
/// one.
pub fn clipboard_payload(html: &str) -> (r: Option<String>)
    ensures
        match r {
            Some(t) => spec_payload(html@) == Some(t@),
            None => spec_payload(html@) is None,
        },
{
    match capture_first_group("data-quadratic=\"(.*)\"><tbody", html) {
        None => None,
        Some(Some(t)) => decode_html(t.as_str()),
        Some(None) => {
            let nothing = String::new();
            decode_html(nothing.as_str())
        },
    }
}

/// The markup of a clipboard: the opening of a table whose attribute holds
/// the serialized snapshot `data`, escaped, followed by the table's body.
pub fn clipboard_html(data: &str, body: &str) -> (r: String)
    ensures
        r@ == "<table data-quadratic=\""@ + html_attribute_encoded(data@) + "\">"@ + body@,
{
    let mut out = String::from_str("<table data-quadratic=\"");
    let encoded = encode_attribute(data);
    out.append(encoded.as_str());
    out.append("\">");
    out.append(body);
    out
}

} // verus!
