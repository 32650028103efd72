use wl_scanner::convert::type_from_string;
use wl_scanner::wl_types::{Arg, ArgType, Description, Enum, Interface, RequestEvent};

const NAMES: [(&str, ArgType); 8] = [
    ("int", ArgType::Int),
    ("uint", ArgType::Uint),
    ("fixed", ArgType::Fixed),
    ("string", ArgType::String),
    ("object", ArgType::ObjectId),
    ("new_id", ArgType::NewId),
    ("array", ArgType::Array),
    ("fd", ArgType::Fd),
];

#[test]
fn every_type_name_is_read() {
    for (name, t) in NAMES {
        assert_eq!(ArgType::from_string(name.to_string()), t);
        assert_eq!(type_from_string(name.to_string()), t);
        assert_eq!(ArgType::named(name), Some(t));
    }
}

#[test]
fn unknown_type_names_are_rejected() {
    assert_eq!(ArgType::named("float"), None);
    assert_eq!(ArgType::named("object_id"), None);
    assert_eq!(ArgType::named("Int"), None);
    assert_eq!(ArgType::named(""), None);
}

#[test]
fn rust_type_of_each_wire_type() {
    let expected = ["i32", "u32", "f32", "String", "u32", "u32", "Vec<u32>", "u32"];
    for ((_, t), want) in NAMES.iter().zip(expected) {
        assert_eq!(t.to_rust_type_string(), want);
    }
}

#[test]
fn display_name_of_each_wire_type() {
    let expected = ["int", "uint", "float", "string", "object_id", "new_id", "array", "fd"];
    for ((_, t), want) in NAMES.iter().zip(expected) {
        assert_eq!(t.to_string(), want);
    }
}

fn arg(name: &str, typ: ArgType, summary: &str, allow_null: bool) -> Arg {
    Arg { name: name.to_string(), typ, summary: summary.to_string(), enm: None, allow_null, interface: None }
}

fn desc(summary: &str) -> Option<Description> {
    Some(Description { summary: summary.to_string(), content: None })
}

#[test]
fn arg_display_text() {
    assert_eq!(arg("id", ArgType::NewId, "new object", false).to_string(), "new_id id: new object");
    assert_eq!(arg("s", ArgType::String, "text", true).to_string(), "string? s: text");
}

#[test]
fn enum_display_text() {
    let e = Enum { name: "error".to_string(), description: desc("global error values"), values: vec![] };
    assert_eq!(e.to_string(), "Enum error - global error values");
}

#[test]
fn interface_display_text() {
    let i = Interface {
        name: "wl_callback".to_string(),
        version: 12,
        description: None,
        requests: vec![RequestEvent {
            name: "ping".to_string(),
            description: desc("check"),
            args: vec![arg("serial", ArgType::Uint, "serial", false), arg("fd", ArgType::Fd, "file", true)],
        }],
        events: vec![
            RequestEvent { name: "done".to_string(), description: desc("finished"), args: vec![] },
        ],
        enums: vec![],
    };
    let expected = String::new()
        + "Interface wl_callback, version 12\n"
        + " - Requests:\n"
        + "  - ping: check, with arguments:\n"
        + "   - uint serial: serial\n"
        + "   - fd? fd: file\n"
        + "\n - Events:\n"
        + "  - done: finished\n"
        + "\n";
    assert_eq!(i.to_string(), expected);
}

#[test]
fn empty_interface_display_text() {
    let i = Interface {
        name: "x".to_string(),
        version: 0,
        description: None,
        requests: vec![],
        events: vec![],
        enums: vec![],
    };
    assert_eq!(i.to_string(), "Interface x, version 0\n - Requests:\n\n - Events:\n\n");
}

#[test]
fn display_names_are_distinct() {
    let labels: Vec<String> = NAMES.iter().map(|(_, t)| t.to_string()).collect();
    for i in 0..labels.len() {
        for j in 0..labels.len() {
            assert_eq!(i == j, labels[i] == labels[j]);
        }
    }
}
