use quick_xml::events::{BytesStart, Event};
use quick_xml::reader::Reader;
use wl_scanner::scanner::{AttrName, ScanError, Scanner, Step, XmlEvent};
use wl_scanner::wl_types::{ArgType, Interface};
use wl_scanner::xml::{parse_attributes, XmlError};

fn tag_attributes(e: &BytesStart<'_>) -> Result<Vec<(String, String)>, XmlError> {
    let content: &[u8] = e;
    parse_attributes(content, e.name().as_ref().len())
}

fn pairs(list: &[(&str, &str)]) -> Vec<(String, String)> {
    list.iter().map(|(k, v)| (k.to_string(), v.to_string())).collect()
}

fn start(name: &str, attrs: &[(&str, &str)]) -> XmlEvent {
    XmlEvent::Start { name: name.as_bytes().to_vec(), content_empty: false, attributes: Ok(pairs(attrs)) }
}

fn empty(name: &str, attrs: &[(&str, &str)]) -> XmlEvent {
    XmlEvent::Empty { name: name.as_bytes().to_vec(), attributes: Ok(pairs(attrs)) }
}

fn end(name: &str) -> XmlEvent {
    XmlEvent::End(name.as_bytes().to_vec())
}

fn text(s: &str) -> XmlEvent {
    XmlEvent::Text(s.as_bytes().to_vec())
}

/// Hands one event to the scanner once `event_error` has found nothing that
/// would break the document's structure.
fn feed(scanner: &mut Scanner, e: XmlEvent) -> Result<Step, ScanError> {
    if let Some(err) = scanner.event_error(&e) {
        return Err(err);
    }
    scanner.handle_event(e)
}

/// Feeds events until one fails; the error, if any.
fn run(events: Vec<XmlEvent>) -> Result<Vec<Interface>, ScanError> {
    let mut scanner = Scanner::new();
    for e in events {
        feed(&mut scanner, e)?;
    }
    Ok(scanner.into_interfaces())
}

fn to_event(event: Event<'_>) -> XmlEvent {
    match event {
        Event::Start(e) => XmlEvent::Start {
            name: e.name().as_ref().to_vec(),
            content_empty: e.is_empty(),
            attributes: tag_attributes(&e),
        },
        Event::Empty(e) => {
            XmlEvent::Empty { name: e.name().as_ref().to_vec(), attributes: tag_attributes(&e) }
        }
        Event::Text(e) => XmlEvent::Text(e.to_vec()),
        Event::End(e) => XmlEvent::End(e.name().as_ref().to_vec()),
        Event::Eof => XmlEvent::Eof,
        _ => XmlEvent::Other,
    }
}

/// Reads a whole document through the XML reader.
fn scan_xml(xml: &str) -> Result<Vec<Interface>, ScanError> {
    let mut reader = Reader::from_str(xml);
    let mut scanner = Scanner::new();
    while let Ok(event) = reader.read_event() {
        match feed(&mut scanner, to_event(event))? {
            Step::Continue => {}
            Step::Finished => break,
        }
    }
    Ok(scanner.into_interfaces())
}

const PROTOCOL: &str = r#"<?xml version="1.0" encoding="UTF-8"?>
<protocol name="wayland">
  <!-- a comment -->
  <interface name="wl_callback" version="1">
    <description summary="callback object">
      Clients can handle the 'done' event
	to get notified when  the related request is done.
    </description>
    <event name="done" type="destructor">
      <description summary="done event"/>
      <arg name="callback_data" type="uint" summary="request-specific data for the callback"/>
    </event>
  </interface>
  <interface name="wl_shm" version="2">
    <request name="create_pool">
      <arg name="id" type="new_id" interface="wl_shm_pool" summary="pool to create"/>
      <arg name="fd" type="fd" summary="file descriptor for the pool"/>
      <arg name="size" type="int" summary="pool size, in bytes"/>
    </request>
    <enum name="format">
      <entry name="argb8888" value="0" summary="32-bit ARGB format"/>
      <entry name="8bit" value="0x20203852"/>
    </enum>
  </interface>
</protocol>
"#;

#[test]
fn reads_a_protocol_document() {
    let interfaces = scan_xml(PROTOCOL).unwrap();
    assert_eq!(interfaces.len(), 2);

    let cb = &interfaces[0];
    assert_eq!(cb.name, "wl_callback");
    assert_eq!(cb.version, 1);
    let d = cb.description.as_ref().unwrap();
    assert_eq!(d.summary, "callback object");
    assert_eq!(
        d.content.as_deref(),
        Some("Clients can handle the 'done' event\nto get notified when the related request is done.")
    );
    assert_eq!(cb.requests.len(), 0);
    assert_eq!(cb.events.len(), 1);
    let done = &cb.events[0];
    assert_eq!(done.name, "done");
    assert_eq!(done.description.as_ref().unwrap().summary, "done event");
    assert_eq!(done.args.len(), 1);
    assert_eq!(done.args[0].name, "callback_data");
    assert_eq!(done.args[0].typ, ArgType::Uint);
    assert!(!done.args[0].allow_null);
    assert_eq!(done.args[0].enm, None);

    let shm = &interfaces[1];
    assert_eq!(shm.name, "wl_shm");
    assert_eq!(shm.version, 2);
    assert!(shm.description.is_none());
    let pool = &shm.requests[0];
    let types: Vec<ArgType> = pool.args.iter().map(|a| a.typ).collect();
    assert_eq!(types, vec![ArgType::NewId, ArgType::Fd, ArgType::Int]);
    assert_eq!(pool.args[0].interface.as_deref(), Some("wl_shm_pool"));
    assert_eq!(pool.args[1].interface, None);
    let format = &shm.enums[0];
    assert_eq!(format.name, "format");
    assert_eq!(format.values.len(), 2);
    assert_eq!(format.values[0].name, "argb8888");
    assert_eq!(format.values[0].summary.as_deref(), Some("32-bit ARGB format"));
    assert_eq!(format.values[1].name, "N8bit");
    assert_eq!(format.values[1].value, "0x20203852");
    assert_eq!(format.values[1].summary, None);
}

#[test]
fn events_report_end_of_document() {
    let mut scanner = Scanner::new();
    assert_eq!(scanner.handle_event(XmlEvent::Other), Ok(Step::Continue));
    assert_eq!(scanner.handle_event(start("protocol", &[])), Ok(Step::Continue));
    assert_eq!(scanner.handle_event(XmlEvent::Eof), Ok(Step::Finished));
    assert_eq!(scanner.into_interfaces().len(), 0);
}

#[test]
fn interface_opened_and_closed_is_added() {
    let interfaces = run(vec![start("interface", &[("name", "wl_seat"), ("version", "+9")]), end("interface")]).unwrap();
    assert_eq!(interfaces.len(), 1);
    assert_eq!(interfaces[0].name, "wl_seat");
    assert_eq!(interfaces[0].version, 9);
    assert!(interfaces[0].requests.is_empty() && interfaces[0].events.is_empty() && interfaces[0].enums.is_empty());
}

#[test]
fn unknown_element_changes_nothing() {
    let interfaces = run(vec![
        start("interface", &[("name", "i"), ("version", "1")]),
        start("copyright", &[]),
        text("some text"),
        end("copyright"),
        end("interface"),
    ])
    .unwrap();
    assert_eq!(interfaces.len(), 1);
    assert!(interfaces[0].description.is_none());
}

#[test]
fn argument_attributes() {
    let interfaces = run(vec![
        start("interface", &[("name", "i"), ("version", "1")]),
        start("request", &[("name", "set")]),
        empty("arg", &[("name", "a"), ("type", "object"), ("summary", "s"), ("allow-null", "true"), ("enum", "wl_output.transform")]),
        empty("arg", &[("name", "b"), ("type", "string"), ("summary", "t"), ("allow-null", "false")]),
        end("request"),
        end("interface"),
    ])
    .unwrap();
    let args = &interfaces[0].requests[0].args;
    assert_eq!(args[0].typ, ArgType::ObjectId);
    assert!(args[0].allow_null);
    assert_eq!(args[0].enm.as_deref(), Some("wl_output.transform"));
    assert_eq!(args[1].typ, ArgType::String);
    assert!(!args[1].allow_null);
}

#[test]
fn error_invalid_utf8_tag_name() {
    let ev = XmlEvent::Start { name: vec![0xff], content_empty: false, attributes: Ok(vec![]) };
    assert_eq!(run(vec![ev]).err(), Some(ScanError::InvalidUtf8));
}

#[test]
fn error_invalid_utf8_text() {
    assert_eq!(run(vec![XmlEvent::Text(vec![b' ', 0xc3])]).err(), Some(ScanError::InvalidUtf8));
}

#[test]
fn error_malformed_attributes() {
    let ev = XmlEvent::Start {
        name: b"interface".to_vec(),
        content_empty: false,
        attributes: Err(XmlError::MalformedAttributes),
    };
    assert_eq!(run(vec![ev]).err(), Some(ScanError::Attributes(XmlError::MalformedAttributes)));
}

#[test]
fn malformed_attributes_of_other_tags_are_ignored() {
    let ev = XmlEvent::Start {
        name: b"protocol".to_vec(),
        content_empty: false,
        attributes: Err(XmlError::MalformedAttributes),
    };
    assert!(run(vec![ev]).is_ok());
}

#[test]
fn error_invalid_version() {
    let events = vec![start("interface", &[("name", "i"), ("version", "1.0")])];
    assert_eq!(run(events).err(), Some(ScanError::InvalidVersion));
}

#[test]
fn error_missing_attributes() {
    assert_eq!(
        run(vec![start("interface", &[("version", "1")])]).err(),
        Some(ScanError::MissingAttribute(AttrName::Name))
    );
    assert_eq!(
        run(vec![start("interface", &[("name", "i")])]).err(),
        Some(ScanError::MissingAttribute(AttrName::Version))
    );
    assert_eq!(
        run(vec![start("description", &[])]).err(),
        Some(ScanError::MissingAttribute(AttrName::Summary))
    );
    assert_eq!(
        run(vec![empty("arg", &[("name", "a"), ("summary", "s")])]).err(),
        Some(ScanError::MissingAttribute(AttrName::Type))
    );
    assert_eq!(
        run(vec![empty("entry", &[("name", "a")])]).err(),
        Some(ScanError::MissingAttribute(AttrName::Value))
    );
}

#[test]
fn error_invalid_allow_null() {
    let events = vec![empty("arg", &[("name", "a"), ("type", "int"), ("summary", "s"), ("allow-null", "yes")])];
    assert_eq!(run(events).err(), Some(ScanError::InvalidAllowNull));
}

#[test]
fn error_unknown_arg_type() {
    let events = vec![
        start("request", &[("name", "r")]),
        empty("arg", &[("name", "a"), ("type", "float"), ("summary", "s")]),
    ];
    assert_eq!(run(events).err(), Some(ScanError::UnknownArgType));
}

#[test]
fn error_empty_entry_name() {
    let events = vec![empty("entry", &[("name", ""), ("value", "1")])];
    assert_eq!(run(events).err(), Some(ScanError::EmptyEntryName));
}

#[test]
fn error_arg_outside_request() {
    let events = vec![empty("arg", &[("name", "a"), ("type", "int"), ("summary", "s")])];
    assert_eq!(run(events).err(), Some(ScanError::NoOpenRequestEvent));
}

#[test]
fn error_entry_outside_enum() {
    let events = vec![empty("entry", &[("name", "a"), ("value", "1")])];
    assert_eq!(run(events).err(), Some(ScanError::NoOpenEnum));
}

#[test]
fn error_text_in_description_tag_without_description() {
    let events = vec![
        start("interface", &[("name", "i"), ("version", "1")]),
        start("description", &[("summary", "s")]),
        start("other", &[]),
        end("description"),
        text("stray"),
    ];
    assert_eq!(run(events).err(), Some(ScanError::NoOpenDescription));
}

#[test]
fn error_request_outside_interface() {
    let events = vec![start("request", &[("name", "r")]), end("request")];
    assert_eq!(run(events).err(), Some(ScanError::NoOpenInterface));
}

#[test]
fn error_closing_what_was_never_opened() {
    assert_eq!(run(vec![end("interface")]).err(), Some(ScanError::NoInterfaceToTake));
    assert_eq!(run(vec![end("event")]).err(), Some(ScanError::NoRequestEventToTake));
    assert_eq!(run(vec![end("enum")]).err(), Some(ScanError::NoEnumToTake));
    assert_eq!(run(vec![end("description")]).err(), Some(ScanError::NoDescriptionToTake));
}

#[test]
fn error_description_with_nothing_to_describe() {
    let events = vec![start("description", &[("summary", "s")]), end("description")];
    assert_eq!(run(events).err(), Some(ScanError::NoLastElement));
}

#[test]
fn description_text_is_tidied() {
    let interfaces = run(vec![
        start("interface", &[("name", "i"), ("version", "1")]),
        start("description", &[("summary", "sum")]),
        text("\n\t\tThe  core global\n\t\tobject.  \n\t"),
        end("description"),
        end("interface"),
    ])
    .unwrap();
    let d = interfaces[0].description.as_ref().unwrap();
    assert_eq!(d.summary, "sum");
    assert_eq!(d.content.as_deref(), Some("The core global\nobject."));
}

#[test]
fn enum_descriptions_and_entries() {
    let interfaces = run(vec![
        start("interface", &[("name", "i"), ("version", "1")]),
        start("enum", &[("name", "error")]),
        empty("description", &[("summary", "errors")]),
        empty("entry", &[("name", "0x"), ("value", "0")]),
        end("enum"),
        end("interface"),
    ])
    .unwrap();
    let e = &interfaces[0].enums[0];
    assert_eq!(e.to_string(), "Enum error - errors");
    assert_eq!(e.values[0].name, "N0x");
}

#[test]
fn interfaces_read_are_kept() {
    let mut scanner = Scanner::new();
    let events = vec![
        start("interface", &[("name", "first"), ("version", "1")]),
        end("interface"),
        start("interface", &[("name", "second"), ("version", "2")]),
        start("request", &[("name", "r")]),
        end("request"),
        end("interface"),
        text("trailing"),
    ];
    for e in events {
        feed(&mut scanner, e).unwrap();
    }
    let interfaces = scanner.into_interfaces();
    let names: Vec<&str> = interfaces.iter().map(|i| i.name.as_str()).collect();
    assert_eq!(names, vec!["first", "second"]);
    assert_eq!(interfaces[1].requests[0].name, "r");
}

#[test]
fn read_errors_come_back_from_handle_event() {
    let mut scanner = Scanner::new();
    let ev = XmlEvent::Start { name: vec![0xff], content_empty: false, attributes: Ok(Vec::new()) };
    assert_eq!(scanner.event_error(&ev), Some(ScanError::InvalidUtf8));
    assert_eq!(scanner.handle_event(ev), Err(ScanError::InvalidUtf8));
    let ev = start("interface", &[("name", "wl_a"), ("version", "x")]);
    assert_eq!(scanner.event_error(&ev), Some(ScanError::InvalidVersion));
    assert_eq!(scanner.handle_event(ev), Err(ScanError::InvalidVersion));
}

#[test]
fn event_error_leaves_the_scanner_unchanged() {
    let mut scanner = Scanner::new();
    assert_eq!(scanner.event_error(&start("interface", &[("name", "wl_a"), ("version", "2")])), None);
    assert_eq!(scanner.event_error(&end("interface")), Some(ScanError::NoInterfaceToTake));
    feed(&mut scanner, start("interface", &[("name", "wl_a"), ("version", "2")])).unwrap();
    assert_eq!(scanner.event_error(&end("interface")), None);
    assert_eq!(scanner.event_error(&end("request")), Some(ScanError::NoRequestEventToTake));
    feed(&mut scanner, end("interface")).unwrap();
    let interfaces = scanner.into_interfaces();
    assert_eq!(interfaces.len(), 1);
    assert_eq!(interfaces[0].name, "wl_a");
    assert_eq!(interfaces[0].version, 2);
}
