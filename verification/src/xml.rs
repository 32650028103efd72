//! Attributes of XML tags.
use vstd::prelude::*;
use vstd::utf8::{decode_utf8, valid_utf8};
use crate::text::str_equal;
use quick_xml::events::attributes::Attributes;

verus! {

/// Why the attributes of a tag could not be read.
#[derive(Debug, Clone, Copy, PartialEq, Eq, Structural)]
pub enum XmlError {
    /// The attribute list of the tag is malformed.
    MalformedAttributes,
    /// A name or a value is not valid UTF-8.
    InvalidUtf8,
}

/// Characters of attribute names and values.
pub open spec fn attrs_view(a: Seq<(String, String)>) -> Seq<(Seq<char>, Seq<char>)> {
    a.map_values(|p: (String, String)| (p.0@, p.1@))
}

/// The value of the first attribute called `name`, if there is one.
pub open spec fn attr_value(attrs: Seq<(Seq<char>, Seq<char>)>, name: Seq<char>) -> Option<
    Seq<char>,
>
    decreases attrs.len(),
{
    if attrs.len() == 0 {
        None
    } else if attrs[0].0 == name {
        Some(attrs[0].1)
    } else {
        attr_value(attrs.drop_first(), name)
    }
}

/// Position of the first attribute called `name`.
fn position_of(attributes: &Vec<(String, String)>, name: &str) -> (r: Option<usize>)
    ensures
        match r {
            Some(k) => k < attributes@.len() && attr_value(attrs_view(attributes@), name@) == Some(
                attributes@[k as int].1@,
            ),
            None => attr_value(attrs_view(attributes@), name@) is None,
        },
{
    let ghost v = attrs_view(attributes@);
    let mut i: usize = 0;
    assert(v.skip(0) =~= v);
    while i < attributes.len()
        invariant
            v == attrs_view(attributes@),
            i <= attributes@.len(),
            attr_value(v, name@) == attr_value(v.skip(i as int), name@),
        decreases attributes@.len() - i,
    {
        assert(v.skip(i as int)[0] == v[i as int]);
        assert(v.skip(i as int).drop_first() =~= v.skip(i + 1));
        if str_equal(attributes[i].0.as_str(), name) {
            return Some(i);
        }
        i = i + 1;
    }
    assert(v.skip(i as int).len() == 0);
    None
}

/// The value of the first attribute called `name`; such an attribute must
/// be present.
pub fn find_attr(attributes: &Vec<(String, String)>, name: &str) -> (r: String)
    requires
        attr_value(attrs_view(attributes@), name@) is Some,
    ensures
        r@ == attr_value(attrs_view(attributes@), name@).unwrap(),
{
    match position_of(attributes, name) {
        Some(k) => attributes[k].1.clone(),
        None => String::new(),
    }
}

/// The value of the first attribute called `name`, or `None` if there is no
/// such attribute.
pub fn try_find_attr(attributes: &Vec<(String, String)>, name: &str) -> (r: Option<String>)
    ensures
        match r {
            Some(s) => attr_value(attrs_view(attributes@), name@) == Some(s@),
            None => attr_value(attrs_view(attributes@), name@) is None,
        },
{
    match position_of(attributes, name) {
        Some(k) => Some(attributes[k].1.clone()),
        None => None,
    }
}

/// `String::from_utf8`: succeeds exactly on valid UTF-8 and then holds the
/// decoded characters.
#[verifier::external_body]
pub(crate) fn utf8_string(bytes: &[u8]) -> (r: Option<String>)
    ensures
        r is Some <==> valid_utf8(bytes@),
        r matches Some(s) ==> s@ == decode_utf8(bytes@),
{
    String::from_utf8(bytes.to_vec()).ok()
}

/// The attributes that quick-xml reads, in HTML mode, from `content`
/// starting at byte `pos`: the raw name and value bytes of each, in order;
/// `None` where the attribute list is malformed.
pub uninterp spec fn html_attributes_of(content: Seq<char>, pos: nat) -> Option<
    Seq<(Seq<u8>, Seq<u8>)>,
>;

/// `quick_xml::events::attributes::Attributes::html(content, pos)`,
/// collected: the raw name and value bytes of each attribute, in order, or
/// the first malformed attribute. What it reads is named, not stated: it
/// depends on `content` and `pos` alone. `pos` must not pass the end of the
/// content, where quick-xml would slice out of bounds.
#[verifier::external_body]
fn html_attribute_bytes(content: &str, pos: usize) -> (r: Result<
    Vec<(Vec<u8>, Vec<u8>)>,
    XmlError,
>)
    requires
        pos <= content.len(),
    ensures
        match r {
            Ok(v) => html_attributes_of(content@, pos as nat) == Some(raw_attrs_view(v@)),
            Err(e) => html_attributes_of(content@, pos as nat) is None && e
                == XmlError::MalformedAttributes,
        },
{
    let mut pairs = Vec::new();
    for attribute in Attributes::html(content, pos) {
        let attribute = attribute.map_err(|_| XmlError::MalformedAttributes)?;
        pairs.push((attribute.key.into_inner().to_vec(), attribute.value.to_vec()));
    }
    Ok(pairs)
}

/// Raw attribute bytes, as sequences.
pub open spec fn raw_attrs_view(raw: Seq<(Vec<u8>, Vec<u8>)>) -> Seq<(Seq<u8>, Seq<u8>)> {
    raw.map_values(|p: (Vec<u8>, Vec<u8>)| (p.0@, p.1@))
}

/// Whether every name and value is valid UTF-8.
pub open spec fn all_utf8(raw: Seq<(Seq<u8>, Seq<u8>)>) -> bool {
    forall|k: int| 0 <= k < raw.len() ==> valid_utf8((#[trigger] raw[k]).0) && valid_utf8(raw[k].1)
}

/// The decoded names and values.
pub open spec fn decoded_attrs(raw: Seq<(Seq<u8>, Seq<u8>)>) -> Seq<(Seq<char>, Seq<char>)> {
    raw.map_values(|p: (Seq<u8>, Seq<u8>)| (decode_utf8(p.0), decode_utf8(p.1)))
}

/// Decodes raw attribute names and values as UTF-8; fails if any of them is
/// not valid UTF-8.
pub fn decode_attributes(raw: Vec<(Vec<u8>, Vec<u8>)>) -> (r: Result<Vec<(String, String)>, XmlError>)
    ensures
        match r {
            Ok(v) => all_utf8(raw_attrs_view(raw@)) && attrs_view(v@) == decoded_attrs(
                raw_attrs_view(raw@),
            ),
            Err(e) => !all_utf8(raw_attrs_view(raw@)) && e == XmlError::InvalidUtf8,
        },
{
    let ghost rv = raw_attrs_view(raw@);
    let mut out: Vec<(String, String)> = Vec::new();
    let mut i: usize = 0;
    while i < raw.len()
        invariant
            rv == raw_attrs_view(raw@),
            i <= raw@.len(),
            out@.len() == i,
            forall|k: int| 0 <= k < i ==> valid_utf8((#[trigger] rv[k]).0) && valid_utf8(rv[k].1),
            attrs_view(out@) =~= decoded_attrs(rv).take(i as int),
        decreases raw@.len() - i,
    {
        let key = match utf8_string(raw[i].0.as_slice()) {
            Some(k) => k,
            None => {
                assert(!valid_utf8(rv[i as int].0));
                return Err(XmlError::InvalidUtf8);
            },
        };
        let value = match utf8_string(raw[i].1.as_slice()) {
            Some(v) => v,
            None => {
                assert(!valid_utf8(rv[i as int].1));
                return Err(XmlError::InvalidUtf8);
            },
        };
        out.push((key, value));
        i = i + 1;
    }
    assert(decoded_attrs(rv).take(i as int) =~= decoded_attrs(rv));
    Ok(out)
}

/// The bytes of a tag's content after its name: the attribute list.
pub open spec fn attribute_part(content: Seq<u8>, name_len: nat) -> Seq<u8> {
    content.subrange(name_len as int, content.len() as int)
}

/// The attributes of a tag, from the tag's raw content (its name in the
/// first `name_len` bytes, then its attributes) as name and value strings,
/// in order. Only the part after the name is read. Fails where that part is
/// not UTF-8, where the attribute list is malformed, or where a name or value
/// is not UTF-8.
pub fn parse_attributes(content: &[u8], name_len: usize) -> (r: Result<
    Vec<(String, String)>,
    XmlError,
>)
    requires
        name_len <= content@.len(),
    ensures
        !valid_utf8(attribute_part(content@, name_len as nat)) ==> r == Err::<
            Vec<(String, String)>,
            XmlError,
        >(XmlError::InvalidUtf8),
        valid_utf8(attribute_part(content@, name_len as nat)) ==> match html_attributes_of(
            decode_utf8(attribute_part(content@, name_len as nat)),
            0,
        ) {
            None => r == Err::<Vec<(String, String)>, XmlError>(XmlError::MalformedAttributes),
            Some(raw) => if all_utf8(raw) {
                r matches Ok(v) && attrs_view(v@) == decoded_attrs(raw)
            } else {
                r == Err::<Vec<(String, String)>, XmlError>(XmlError::InvalidUtf8)
            },
        },
{
    let (_, rest) = content.split_at(name_len);
    let text = match utf8_string(rest) {
        Some(t) => t,
        None => return Err(XmlError::InvalidUtf8),
    };
    let raw = match html_attribute_bytes(text.as_str(), 0) {
        Ok(raw) => raw,
        Err(e) => return Err(e),
    };
    decode_attributes(raw)
}

} // verus!
