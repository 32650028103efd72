use wl_scanner::codegen::{
    build_output, check_interfaces, output_reqevent, output_request_from_opcode,
    output_string_conversion, string_enum_to_type, t, OutputError,
};
use wl_scanner::wl_types::{Arg, ArgType, Description, Enum, EnumEntry, Interface, RequestEvent};

const CONVERSION: &str = "fn le_arr_to_string(words: &[u32], length: usize) -> String {\n\tlet mut bytes: Vec<u8> = words.iter().flat_map(|w| w.to_le_bytes()).collect();\n\tbytes.truncate(length);\n\tString::from_utf8_lossy(&bytes).to_string()\n}\n\n";

fn arg(name: &str, typ: ArgType, summary: &str, enm: Option<&str>) -> Arg {
    Arg {
        name: name.to_string(),
        typ,
        summary: summary.to_string(),
        enm: enm.map(|e| e.to_string()),
        allow_null: false,
        interface: None,
    }
}

fn new_id(name: &str, summary: &str, enm: Option<&str>, interface: Option<&str>) -> Arg {
    let mut a = arg(name, ArgType::NewId, summary, enm);
    a.interface = interface.map(|i| i.to_string());
    a
}

fn reqevent(name: &str, content: Option<&str>, args: Vec<Arg>) -> RequestEvent {
    RequestEvent {
        name: name.to_string(),
        description: content.map(|c| Description { summary: "s".to_string(), content: Some(c.to_string()) }),
        args,
    }
}

#[test]
fn tabs() {
    assert_eq!(t(0), "");
    assert_eq!(t(3), "\t\t\t");
}

#[test]
fn string_conversion_helper() {
    assert_eq!(output_string_conversion(), CONVERSION);
}

#[test]
fn enum_type_names() {
    assert_eq!(string_enum_to_type(&"transform".to_string()), "Transform");
    assert_eq!(string_enum_to_type(&"wl_output.transform".to_string()), "wl_output::Transform");
    assert_eq!(string_enum_to_type(&"wl_shm.format_mod".to_string()), "wl_shm::FormatMod");
    assert_eq!(string_enum_to_type(&"".to_string()), "");
}

#[test]
fn variant_without_arguments() {
    let re = reqevent("sync_done", None, vec![]);
    assert_eq!(output_reqevent(&re), "\t\tSyncDone {},\n");
}

#[test]
fn variant_with_documentation_and_fields() {
    let re = reqevent(
        "set_mode",
        Some("  First line\nsecond line  \n"),
        vec![
            arg("mode", ArgType::Uint, "the mode", Some("wl_output.transform")),
            arg("label", ArgType::String, "a label", None),
        ],
    );
    let expected = String::new()
        + "\t\t/// First line\n"
        + "\t\t/// second line\n"
        + "\t\t/// \n"
        + "\t\tSetMode {\n"
        + "\t\t\t/// The mode.\n"
        + "\t\t\tmode: wl_output::Transform,\n"
        + "\t\t\t/// A label.\n"
        + "\t\t\tlabel: String,\n"
        + "\t\t},\n";
    assert_eq!(output_reqevent(&re), expected);
}

#[test]
fn decoder_arm_without_arguments() {
    let re = reqevent("destroy", None, vec![]);
    let expected = "\t\t\t\t12 => {\n\t\t\t\t\tSome(Request::Destroy {\n\t\t\t\t\t})\n\t\t\t\t}\n";
    assert_eq!(output_request_from_opcode(&re, 12), expected);
}

#[test]
fn decoder_arm_with_one_argument() {
    let re = reqevent("attach", None, vec![arg("x", ArgType::Int, "x", None)]);
    let expected = String::new()
        + "\t\t\t\t1 => {\n"
        + "\t\t\t\t\tlet index = 0usize;\n"
        + "\t\t\t\t\tlet x = args[index] as i32;\n"
        + "\t\t\t\t\tSome(Request::Attach {\n"
        + "\t\t\t\t\t\tx,\n"
        + "\t\t\t\t\t})\n"
        + "\t\t\t\t}\n";
    assert_eq!(output_request_from_opcode(&re, 1), expected);
}

#[test]
fn decoder_arm_with_every_kind_of_argument() {
    let re = reqevent(
        "bind",
        None,
        vec![
            arg("name", ArgType::String, "n", None),
            arg("mode", ArgType::Uint, "m", Some("wl_output.transform")),
            arg("raw", ArgType::Uint, "r", None),
            new_id("id", "i", Some("ignored"), Some("wl_callback")),
            arg("keys", ArgType::Array, "k", None),
            arg("f", ArgType::Fixed, "f", None),
        ],
    );
    let t5 = "\t\t\t\t\t";
    let expected = String::new()
        + "\t\t\t\t0 => {\n"
        + t5 + "let mut index = 0usize;\n"
        + t5 + "let name_size: usize = args[index].try_into().unwrap();\n"
        + t5 + "let name_count = name_size.div_ceil(4);\n"
        + t5 + "let name = crate::le_arr_to_string(&args[index + 1..index + 1 + name_count], name_size);\n"
        + t5 + "index += 1 + name_count;\n"
        + t5 + "let mode = wl_output::Transform::from_u32(args[index]).unwrap();\n"
        + t5 + "index += 1;\n"
        + t5 + "let raw = args[index];\n"
        + t5 + "index += 1;\n"
        + t5 + "let id = args[index];\n"
        + t5 + "index += 1;\n"
        + t5 + "let keys_size: usize = args[index].try_into().unwrap();\n"
        + t5 + "let keys_count = keys_size.div_ceil(4);\n"
        + t5 + "let keys = crate::to_vec(&args[index + 1..index + 1 + keys_count], keys_size);\n"
        + t5 + "index += 1 + keys_count;\n"
        + t5 + "let f = args[index];\n"
        + t5 + "Some(Request::Bind {\n"
        + "\t\t\t\t\t\tname,\n"
        + "\t\t\t\t\t\tmode,\n"
        + "\t\t\t\t\t\traw,\n"
        + "\t\t\t\t\t\tid,\n"
        + "\t\t\t\t\t\tkeys,\n"
        + "\t\t\t\t\t\tf,\n"
        + t5 + "})\n"
        + "\t\t\t\t}\n";
    assert_eq!(output_request_from_opcode(&re, 0), expected);
}

#[test]
fn output_of_no_interfaces() {
    assert_eq!(build_output(vec![]), CONVERSION);
}

fn sample_interface() -> Interface {
    Interface {
        name: "wl_test".to_string(),
        version: 3,
        description: Some(Description {
            summary: "s".to_string(),
            content: Some("First line\nsecond line  ".to_string()),
        }),
        requests: vec![reqevent(
            "set_mode",
            None,
            vec![
                arg("mode", ArgType::Uint, "the mode", Some("wl_output.transform")),
                arg("label", ArgType::String, "a label", None),
            ],
        )],
        events: vec![reqevent("done", None, vec![arg("when", ArgType::Uint, "time", Some("wl_output.mode"))])],
        enums: vec![Enum {
            name: "error".to_string(),
            description: None,
            values: vec![EnumEntry { name: "invalid_mode".to_string(), summary: None, value: "0".to_string() }],
        }],
    }
}

fn sample_text(last: bool) -> String {
    let t5 = "\t\t\t\t\t";
    String::new()
        + "/// First line\n"
        + "/// second line\n"
        + "pub mod wl_test {\n"
        + "\tuse crate::wl_output;\n"
        + "\n"
        + "\tpub const VERSION: u32 = 3;\n"
        + "\n\tpub enum Request {\n"
        + "\t\tSetMode {\n"
        + "\t\t\t/// The mode.\n"
        + "\t\t\tmode: wl_output::Transform,\n"
        + "\t\t\t/// A label.\n"
        + "\t\t\tlabel: String,\n"
        + "\t\t},\n"
        + "\t}\n\n"
        + "\timpl Request {\n"
        + "\t\tpub fn from_opcode(opcode: u16, args: &[u32], fds: &[u32]) -> Option<Self> {\n"
        + "\t\t\tmatch opcode {\n"
        + "\t\t\t\t0 => {\n"
        + t5 + "let mut index = 0usize;\n"
        + t5 + "let mode = wl_output::Transform::from_u32(args[index]).unwrap();\n"
        + t5 + "index += 1;\n"
        + t5 + "let label_size: usize = args[index].try_into().unwrap();\n"
        + t5 + "let label_count = label_size.div_ceil(4);\n"
        + t5 + "let label = crate::le_arr_to_string(&args[index + 1..index + 1 + label_count], label_size);\n"
        + t5 + "Some(Request::SetMode {\n"
        + "\t\t\t\t\t\tmode,\n"
        + "\t\t\t\t\t\tlabel,\n"
        + t5 + "})\n"
        + "\t\t\t\t}\n"
        + "\t\t\t\t_ => None,\n"
        + "\t\t\t}\n"
        + "\t\t}\n"
        + "\t}\n"
        + "\n\tpub enum Event {\n"
        + "\t\tDone {\n"
        + "\t\t\t/// Time.\n"
        + "\t\t\twhen: wl_output::Mode,\n"
        + "\t\t},\n"
        + "\t}\n"
        + "\n"
        + "\t#[repr(u32)]\n"
        + "\tpub enum Error {\n"
        + "\t\tInvalidMode = 0,\n"
        + "\t}\n\n"
        + "\timpl Error {\n"
        + "\t\tpub fn from_u32(value: u32) -> Option<Self> {\n"
        + "\t\t\tmatch value {\n"
        + "\t\t\t\t0 => Some(Error::InvalidMode),\n"
        + "\t\t\t\t_ => None,\n"
        + "\t\t\t}\n"
        + "\t\t}\n"
        + "\t}\n"
        + "}\n"
        + if last { "" } else { "\n" }
}

#[test]
fn output_of_one_interface() {
    assert_eq!(build_output(vec![sample_interface()]), CONVERSION.to_string() + &sample_text(true));
}

#[test]
fn output_separates_interfaces() {
    let out = build_output(vec![sample_interface(), sample_interface()]);
    assert_eq!(out, CONVERSION.to_string() + &sample_text(false) + &sample_text(true));
    assert!(out.starts_with(CONVERSION));
}

#[test]
fn output_of_an_empty_interface_with_two_enums() {
    let entry = |name: &str, value: &str| EnumEntry { name: name.to_string(), summary: None, value: value.to_string() };
    let i = Interface {
        name: "wl_e".to_string(),
        version: 0,
        description: None,
        requests: vec![],
        events: vec![],
        enums: vec![
            Enum {
                name: "a".to_string(),
                description: Some(Description { summary: "s".to_string(), content: Some("doc".to_string()) }),
                values: vec![entry("x", "1"), entry("N2d", "2")],
            },
            Enum { name: "b_c".to_string(), description: None, values: vec![] },
        ],
    };
    let expected = String::new()
        + CONVERSION
        + "pub mod wl_e {\n"
        + "\tpub const VERSION: u32 = 0;\n"
        + "\n"
        + "\t/// doc\n"
        + "\t#[repr(u32)]\n"
        + "\tpub enum A {\n"
        + "\t\tX = 1,\n"
        + "\t\tN2d = 2,\n"
        + "\t}\n\n"
        + "\timpl A {\n"
        + "\t\tpub fn from_u32(value: u32) -> Option<Self> {\n"
        + "\t\t\tmatch value {\n"
        + "\t\t\t\t1 => Some(A::X),\n"
        + "\t\t\t\t2 => Some(A::N2d),\n"
        + "\t\t\t\t_ => None,\n"
        + "\t\t\t}\n"
        + "\t\t}\n"
        + "\t}\n"
        + "\n"
        + "\t#[repr(u32)]\n"
        + "\tpub enum BC {\n"
        + "\t}\n\n"
        + "\timpl BC {\n"
        + "\t\tpub fn from_u32(value: u32) -> Option<Self> {\n"
        + "\t\t\tmatch value {\n"
        + "\t\t\t\t_ => None,\n"
        + "\t\t\t}\n"
        + "\t\t}\n"
        + "\t}\n"
        + "}\n";
    assert_eq!(build_output(vec![i]), expected);
}

#[test]
fn modules_are_imported_once_in_order_of_use() {
    let mut i = sample_interface();
    i.description = None;
    i.requests = vec![reqevent(
        "r",
        None,
        vec![
            arg("a", ArgType::Uint, "a", Some("wl_seat.capability")),
            arg("b", ArgType::Uint, "b", Some("local")),
            arg("c", ArgType::Uint, "c", Some("wl_output.mode")),
            arg("d", ArgType::Uint, "d", Some("wl_seat.other")),
        ],
    )];
    let out = build_output(vec![i]);
    let body = &out[CONVERSION.len()..];
    assert!(body.starts_with("pub mod wl_test {\n\tuse crate::wl_seat;\n\tuse crate::wl_output;\n\n\tpub const VERSION"));
}

#[test]
fn checking_interfaces() {
    assert_eq!(check_interfaces(&vec![sample_interface()]), Ok(()));
    let mut bad = sample_interface();
    bad.events[0].args[0].summary = String::new();
    assert_eq!(check_interfaces(&vec![bad]), Err(OutputError::BadSummary));
    let mut bad = sample_interface();
    bad.requests[0].args[1].summary = "élan".to_string();
    assert_eq!(check_interfaces(&vec![bad]), Err(OutputError::BadSummary));
    let mut bad = sample_interface();
    bad.requests[0].args[0].enm = Some("a.b.c".to_string());
    assert_eq!(check_interfaces(&vec![sample_interface(), bad]), Err(OutputError::BadEnumRef));
}

#[test]
fn decoder_arm_takes_file_descriptors_from_their_own_list() {
    let re = reqevent(
        "create_pool",
        None,
        vec![
            new_id("id", "pool", None, Some("wl_shm_pool")),
            arg("fd", ArgType::Fd, "file descriptor", None),
            arg("size", ArgType::Int, "size", None),
        ],
    );
    let t5 = "\t\t\t\t\t";
    let expected = String::new()
        + "\t\t\t\t0 => {\n"
        + t5 + "let mut index = 0usize;\n"
        + t5 + "let fd_index = 0usize;\n"
        + t5 + "let id = args[index];\n"
        + t5 + "index += 1;\n"
        + t5 + "let fd = fds[fd_index];\n"
        + t5 + "let size = args[index] as i32;\n"
        + t5 + "Some(Request::CreatePool {\n"
        + "\t\t\t\t\t\tid,\n"
        + "\t\t\t\t\t\tfd,\n"
        + "\t\t\t\t\t\tsize,\n"
        + t5 + "})\n"
        + "\t\t\t\t}\n";
    assert_eq!(output_request_from_opcode(&re, 0), expected);
}

#[test]
fn decoder_arm_with_several_file_descriptors() {
    let re = reqevent(
        "pipe",
        None,
        vec![
            arg("a", ArgType::Fd, "a", None),
            arg("b", ArgType::Int, "b", None),
            arg("c", ArgType::Fd, "c", None),
        ],
    );
    let t5 = "\t\t\t\t\t";
    let expected = String::new()
        + "\t\t\t\t2 => {\n"
        + t5 + "let index = 0usize;\n"
        + t5 + "let mut fd_index = 0usize;\n"
        + t5 + "let a = fds[fd_index];\n"
        + t5 + "fd_index += 1;\n"
        + t5 + "let b = args[index] as i32;\n"
        + t5 + "let c = fds[fd_index];\n"
        + t5 + "Some(Request::Pipe {\n"
        + "\t\t\t\t\t\ta,\n"
        + "\t\t\t\t\t\tb,\n"
        + "\t\t\t\t\t\tc,\n"
        + t5 + "})\n"
        + "\t\t\t\t}\n";
    assert_eq!(output_request_from_opcode(&re, 2), expected);
}

#[test]
fn decoder_arm_reads_interface_and_version_before_an_untyped_new_id() {
    let re = reqevent(
        "bind",
        None,
        vec![
            arg("name", ArgType::Uint, "unique numeric name of the object", None),
            new_id("id", "bounded object", None, None),
        ],
    );
    let t5 = "\t\t\t\t\t";
    let expected = String::new()
        + "\t\t\t\t0 => {\n"
        + t5 + "let mut index = 0usize;\n"
        + t5 + "let name = args[index];\n"
        + t5 + "index += 1;\n"
        + t5 + "let id_interface_size: usize = args[index].try_into().unwrap();\n"
        + t5 + "let id_interface_count = id_interface_size.div_ceil(4);\n"
        + t5 + "let id_interface = crate::le_arr_to_string(&args[index + 1..index + 1 + id_interface_count], id_interface_size);\n"
        + t5 + "index += 1 + id_interface_count;\n"
        + t5 + "let id_version = args[index];\n"
        + t5 + "index += 1;\n"
        + t5 + "let id = args[index];\n"
        + t5 + "Some(Request::Bind {\n"
        + "\t\t\t\t\t\tname,\n"
        + "\t\t\t\t\t\tid_interface,\n"
        + "\t\t\t\t\t\tid_version,\n"
        + "\t\t\t\t\t\tid,\n"
        + t5 + "})\n"
        + "\t\t\t\t}\n";
    assert_eq!(output_request_from_opcode(&re, 0), expected);
}

#[test]
fn untyped_new_id_alone_makes_the_cursor_mutable() {
    let re = reqevent("bind", None, vec![new_id("id", "object", None, None)]);
    let out = output_request_from_opcode(&re, 1);
    assert!(out.contains("let mut index = 0usize;\n"));
    assert!(!out.contains("let index = 0usize;\n"));
}

#[test]
fn variant_of_an_untyped_new_id_carries_interface_and_version() {
    let re = reqevent("bind", None, vec![new_id("id", "bounded object", None, None)]);
    let expected = String::new()
        + "\t\tBind {\n"
        + "\t\t\t/// Interface of the new object.\n"
        + "\t\t\tid_interface: String,\n"
        + "\t\t\t/// Version of the new object.\n"
        + "\t\t\tid_version: u32,\n"
        + "\t\t\t/// Bounded object.\n"
        + "\t\t\tid: u32,\n"
        + "\t\t},\n";
    assert_eq!(output_reqevent(&re), expected);
}
