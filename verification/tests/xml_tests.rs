use quick_xml::events::Event;
use quick_xml::reader::Reader;
use wl_scanner::xml::{decode_attributes, find_attr, parse_attributes, try_find_attr, XmlError};

fn pairs(list: &[(&str, &str)]) -> Vec<(String, String)> {
    list.iter().map(|(k, v)| (k.to_string(), v.to_string())).collect()
}

#[test]
fn find_attr_gives_first_match() {
    let attrs = pairs(&[("name", "wl_display"), ("version", "1"), ("name", "other")]);
    assert_eq!(find_attr(&attrs, "name"), "wl_display");
    assert_eq!(find_attr(&attrs, "version"), "1");
}

#[test]
fn try_find_attr_present_and_absent() {
    let attrs = pairs(&[("summary", "a summary"), ("enum", "wl_output.transform")]);
    assert_eq!(try_find_attr(&attrs, "enum"), Some("wl_output.transform".to_string()));
    assert_eq!(try_find_attr(&attrs, "allow-null"), None);
    assert_eq!(try_find_attr(&Vec::new(), "x"), None);
}

#[test]
fn attributes_of_a_tag() {
    let content = b"arg name=\"serial\" type=\"uint\" summary='the serial'";
    let attrs = parse_attributes(content, 3).unwrap();
    assert_eq!(attrs, pairs(&[("name", "serial"), ("type", "uint"), ("summary", "the serial")]));
}

#[test]
fn attributes_without_quotes_are_read() {
    assert_eq!(parse_attributes(b"entry value=3 name=x", 5).unwrap(), pairs(&[("value", "3"), ("name", "x")]));
}

#[test]
fn tag_without_attributes() {
    assert_eq!(parse_attributes(b"protocol", 8).unwrap(), Vec::new());
    assert_eq!(parse_attributes(b"", 0).unwrap(), Vec::new());
}

#[test]
fn duplicated_attribute_is_malformed() {
    assert_eq!(parse_attributes(b"arg name=\"a\" name=\"b\"", 3), Err(XmlError::MalformedAttributes));
}

#[test]
fn unclosed_quote_is_malformed() {
    assert_eq!(parse_attributes(b"arg name=\"a", 3), Err(XmlError::MalformedAttributes));
}

#[test]
fn attribute_that_is_not_utf8() {
    assert_eq!(parse_attributes(b"arg name=\"\xff\"", 3), Err(XmlError::InvalidUtf8));
}

#[test]
fn tag_name_that_is_not_utf8_is_not_decoded() {
    assert_eq!(parse_attributes(b"\xff a=\"1\"", 1).unwrap(), pairs(&[("a", "1")]));
}

#[test]
fn attributes_match_what_the_reader_reads() {
    let input: &[u8] = b"<arg name=\"a\" type=int summary='s t'/>";
    let mut reader = Reader::from_reader(input);
    match reader.read_event().unwrap() {
        Event::Empty(e) => {
            let content: &[u8] = &e;
            let expected: Vec<(String, String)> = e
                .html_attributes()
                .map(|a| {
                    let a = a.unwrap();
                    (String::from_utf8(a.key.into_inner().to_vec()).unwrap(), String::from_utf8(a.value.to_vec()).unwrap())
                })
                .collect();
            assert_eq!(parse_attributes(content, e.name().as_ref().len()).unwrap(), expected);
        }
        _ => panic!("expected an empty-element tag"),
    }
}

#[test]
fn decoding_raw_attributes() {
    let raw = vec![(b"k".to_vec(), "välue".as_bytes().to_vec())];
    assert_eq!(decode_attributes(raw).unwrap(), pairs(&[("k", "välue")]));
    let bad_key = vec![(vec![0xc3], b"v".to_vec())];
    assert_eq!(decode_attributes(bad_key), Err(XmlError::InvalidUtf8));
    let bad_value = vec![(b"k".to_vec(), b"ok".to_vec()), (b"k2".to_vec(), vec![0x80])];
    assert_eq!(decode_attributes(bad_value), Err(XmlError::InvalidUtf8));
}
