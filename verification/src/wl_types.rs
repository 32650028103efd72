//! The protocol description: interfaces, their requests, events and enums.
use vstd::prelude::*;
use crate::text::{append_all, decimal, decimal_string, lemma_append_all_ends, lemma_append_all_prefix, lemma_append_all_step, str_equal};

verus! {

/// Wire format
#[derive(Clone, Copy, Debug, PartialEq, Eq, Structural)]
pub enum ArgType {
    /// 32-bit signed integer
    Int,
    /// 32-bit unsigned integer
    Uint,
    /// Signed 24.8 decimal number
    Fixed,
    /// 32-bit length (incl. null terminator), followed by string contents, then
    /// null terminated, padded to 32-bit boundary. A null value is represented
    /// with a value of 0.
    String,
    /// 32-bit object ID. A null value is represented with an ID of 0.
    ObjectId,
    /// The 32-bit object ID. Generally, the interface used for the new object is
    /// inferred from the XML, but in the case where it's not specified, a new_id
    /// is preceded by a `string` specifying the interface name, and a `uint`
    /// specifying the version.
    NewId,
    /// Starts with 32-bit array size in bytes, followed by the array contents
    /// verbatim, and finally padding to a 32-bit boundary.
    Array,
    /// The file descriptor is not stored in the message buffer, but in the
    /// ancillary data of the UNIX domain socket message (msg_control).
    Fd,
}

/// The argument type that a protocol file names with `name`, if any.
pub open spec fn arg_type_named(name: Seq<char>) -> Option<ArgType> {
    if name == "int"@ {
        Some(ArgType::Int)
    } else if name == "uint"@ {
        Some(ArgType::Uint)
    } else if name == "fixed"@ {
        Some(ArgType::Fixed)
    } else if name == "string"@ {
        Some(ArgType::String)
    } else if name == "object"@ {
        Some(ArgType::ObjectId)
    } else if name == "new_id"@ {
        Some(ArgType::NewId)
    } else if name == "array"@ {
        Some(ArgType::Array)
    } else if name == "fd"@ {
        Some(ArgType::Fd)
    } else {
        None
    }
}

/// The Rust type that carries a value of wire type `t` in generated code.
pub open spec fn rust_type_name(t: ArgType) -> Seq<char> {
    match t {
        ArgType::Int => "i32"@,
        ArgType::Uint => "u32"@,
        ArgType::Fixed => "f32"@,
        ArgType::String => "String"@,
        ArgType::ObjectId => "u32"@,
        ArgType::NewId => "u32"@,
        ArgType::Array => "Vec<u32>"@,
        ArgType::Fd => "u32"@,
    }
}

/// The display name of wire type `t`.
pub open spec fn wire_type_label(t: ArgType) -> Seq<char> {
    match t {
        ArgType::Int => "int"@,
        ArgType::Uint => "uint"@,
        ArgType::Fixed => "float"@,
        ArgType::String => "string"@,
        ArgType::ObjectId => "object_id"@,
        ArgType::NewId => "new_id"@,
        ArgType::Array => "array"@,
        ArgType::Fd => "fd"@,
    }
}

impl ArgType {
    /// The argument type named `name` in a protocol file, or `None` for a name
    /// that is not a wire type.
    pub fn named(name: &str) -> (r: Option<ArgType>)
        ensures
            r == arg_type_named(name@),
    {
        if str_equal(name, "int") {
            Some(ArgType::Int)
        } else if str_equal(name, "uint") {
            Some(ArgType::Uint)
        } else if str_equal(name, "fixed") {
            Some(ArgType::Fixed)
        } else if str_equal(name, "string") {
            Some(ArgType::String)
        } else if str_equal(name, "object") {
            Some(ArgType::ObjectId)
        } else if str_equal(name, "new_id") {
            Some(ArgType::NewId)
        } else if str_equal(name, "array") {
            Some(ArgType::Array)
        } else if str_equal(name, "fd") {
            Some(ArgType::Fd)
        } else {
            None
        }
    }

    /// The argument type named `typ`; the name must be one of the eight wire
    /// type names.
    #[verifier::allow_in_spec]
    pub fn from_string(typ: String) -> ArgType
        requires
            arg_type_named(typ@) is Some,
        returns
            arg_type_named(typ@).unwrap(),
    {
        match ArgType::named(typ.as_str()) {
            Some(t) => t,
            None => ArgType::Int,
        }
    }

    /// The Rust type that carries a value of this wire type.
    pub fn to_rust_type_string(&self) -> (r: String)
        ensures
            r@ == rust_type_name(*self),
    {
        match self {
            ArgType::Int => String::from_str("i32"),
            ArgType::Uint => String::from_str("u32"),
            ArgType::Fixed => String::from_str("f32"),
            ArgType::String => String::from_str("String"),
            ArgType::ObjectId => String::from_str("u32"),
            ArgType::NewId => String::from_str("u32"),
            // This is hardcoded for now - there's only one instance of an
            // array type in the entire protocol. However, this might change -
            // ideally we'd have a more robust type system for arrays.
            ArgType::Array => String::from_str("Vec<u32>"),
            ArgType::Fd => String::from_str("u32"),
        }
    }

    /// The display name of this wire type.
    pub fn to_string(&self) -> (r: String)
        ensures
            r@ == wire_type_label(*self),
    {
        match self {
            ArgType::Int => String::from_str("int"),
            ArgType::Uint => String::from_str("uint"),
            ArgType::Fixed => String::from_str("float"),
            ArgType::String => String::from_str("string"),
            ArgType::ObjectId => String::from_str("object_id"),
            ArgType::NewId => String::from_str("new_id"),
            ArgType::Array => String::from_str("array"),
            ArgType::Fd => String::from_str("fd"),
        }
    }
}

/// A description: a one-line summary and, optionally, longer text.
pub struct Description {
    pub summary: String,
    pub content: Option<String>,
}

/// A request or an event of an interface.
pub struct RequestEvent {
    pub name: String,
    pub description: Option<Description>,
    pub args: Vec<Arg>,
}

/// One argument of a request or an event.
pub struct Arg {
    pub name: String,
    pub typ: ArgType,
    pub summary: String,
    pub enm: Option<String>,
    pub allow_null: bool,
    /// The interface of the object that a `new_id` argument creates, where
    /// the protocol file names it.
    pub interface: Option<String>,
}

/// An enumeration declared by an interface.
pub struct Enum {
    pub name: String,
    pub description: Option<Description>,
    pub values: Vec<EnumEntry>,
}

/// One entry of an enumeration.
pub struct EnumEntry {
    pub name: String,
    pub summary: Option<String>,
    pub value: String,
}

/// An interface with its requests, events and enums.
pub struct Interface {
    pub name: String,
    pub version: u32,
    pub description: Option<Description>,
    pub requests: Vec<RequestEvent>,
    pub events: Vec<RequestEvent>,
    pub enums: Vec<Enum>,
}

/// Model of a `Description`.
pub ghost struct DescriptionModel {
    pub summary: Seq<char>,
    pub content: Option<Seq<char>>,
}

/// Model of an `Arg`.
pub ghost struct ArgModel {
    pub name: Seq<char>,
    pub typ: ArgType,
    pub summary: Seq<char>,
    pub enm: Option<Seq<char>>,
    pub allow_null: bool,
    pub interface: Option<Seq<char>>,
}

/// Model of a `RequestEvent`.
pub ghost struct RequestEventModel {
    pub name: Seq<char>,
    pub description: Option<DescriptionModel>,
    pub args: Seq<ArgModel>,
}

/// Model of an `EnumEntry`.
pub ghost struct EnumEntryModel {
    pub name: Seq<char>,
    pub summary: Option<Seq<char>>,
    pub value: Seq<char>,
}

/// Model of an `Enum`.
pub ghost struct EnumModel {
    pub name: Seq<char>,
    pub description: Option<DescriptionModel>,
    pub values: Seq<EnumEntryModel>,
}

/// Model of an `Interface`.
pub ghost struct InterfaceModel {
    pub name: Seq<char>,
    pub version: u32,
    pub description: Option<DescriptionModel>,
    pub requests: Seq<RequestEventModel>,
    pub events: Seq<RequestEventModel>,
    pub enums: Seq<EnumModel>,
}

/// The characters of an optional string.
pub open spec fn opt_chars(s: Option<String>) -> Option<Seq<char>> {
    match s {
        Some(t) => Some(t@),
        None => None,
    }
}

/// Model of an optional description.
pub open spec fn opt_description(d: Option<Description>) -> Option<DescriptionModel> {
    match d {
        Some(x) => Some(x@),
        None => None,
    }
}

impl View for Description {
    type V = DescriptionModel;

    open spec fn view(&self) -> DescriptionModel {
        DescriptionModel { summary: self.summary@, content: opt_chars(self.content) }
    }
}

impl View for Arg {
    type V = ArgModel;

    open spec fn view(&self) -> ArgModel {
        ArgModel {
            name: self.name@,
            typ: self.typ,
            summary: self.summary@,
            enm: opt_chars(self.enm),
            allow_null: self.allow_null,
            interface: opt_chars(self.interface),
        }
    }
}

/// Models of a sequence of arguments.
pub open spec fn args_view(s: Seq<Arg>) -> Seq<ArgModel> {
    s.map_values(|a: Arg| a@)
}

impl View for RequestEvent {
    type V = RequestEventModel;

    open spec fn view(&self) -> RequestEventModel {
        RequestEventModel {
            name: self.name@,
            description: opt_description(self.description),
            args: args_view(self.args@),
        }
    }
}

impl View for EnumEntry {
    type V = EnumEntryModel;

    open spec fn view(&self) -> EnumEntryModel {
        EnumEntryModel { name: self.name@, summary: opt_chars(self.summary), value: self.value@ }
    }
}

/// Models of a sequence of enum entries.
pub open spec fn entries_view(s: Seq<EnumEntry>) -> Seq<EnumEntryModel> {
    s.map_values(|e: EnumEntry| e@)
}

impl View for Enum {
    type V = EnumModel;

    open spec fn view(&self) -> EnumModel {
        EnumModel {
            name: self.name@,
            description: opt_description(self.description),
            values: entries_view(self.values@),
        }
    }
}

/// Models of a sequence of requests or events.
pub open spec fn reqevents_view(s: Seq<RequestEvent>) -> Seq<RequestEventModel> {
    s.map_values(|r: RequestEvent| r@)
}

/// Models of a sequence of enums.
pub open spec fn enums_view(s: Seq<Enum>) -> Seq<EnumModel> {
    s.map_values(|e: Enum| e@)
}

impl View for Interface {
    type V = InterfaceModel;

    open spec fn view(&self) -> InterfaceModel {
        InterfaceModel {
            name: self.name@,
            version: self.version,
            description: opt_description(self.description),
            requests: reqevents_view(self.requests@),
            events: reqevents_view(self.events@),
            enums: enums_view(self.enums@),
        }
    }
}

/// Models of a sequence of interfaces.
pub open spec fn interfaces_view(s: Seq<Interface>) -> Seq<InterfaceModel> {
    s.map_values(|i: Interface| i@)
}

/// The one-line display text of an argument.
pub open spec fn arg_label(a: ArgModel) -> Seq<char> {
    (if a.allow_null { wire_type_label(a.typ) + "?"@ } else { wire_type_label(a.typ) }) + " "@
        + a.name + ": "@ + a.summary
}

/// The display line of an argument inside an interface listing.
pub open spec fn arg_line(a: ArgModel) -> Seq<char> {
    "   - "@ + arg_label(a) + "\n"@
}

/// The display lines of all arguments.
pub open spec fn arg_lines(args: Seq<ArgModel>) -> Seq<Seq<char>> {
    args.map_values(|a: ArgModel| arg_line(a))
}

/// The listing of a request: its name, summary and arguments.
pub open spec fn request_listing(r: RequestEventModel) -> Seq<char> {
    append_all(
        "  - "@ + r.name + ": "@ + r.description.unwrap().summary + ", with arguments:\n"@,
        arg_lines(r.args),
    )
}

/// The listing of an event: its name, summary and arguments.
pub open spec fn event_listing(e: RequestEventModel) -> Seq<char> {
    append_all("  - "@ + e.name + ": "@ + e.description.unwrap().summary + "\n"@, arg_lines(e.args))
}

/// The display text of an interface: a header line, then its requests, then
/// its events.
pub open spec fn interface_listing(i: InterfaceModel) -> Seq<char> {
    append_all(
        append_all(
            "Interface "@ + i.name + ", version "@ + decimal(i.version as nat) + "\n"@
                + " - Requests:\n"@,
            i.requests.map_values(|r: RequestEventModel| request_listing(r)),
        ) + "\n - Events:\n"@,
        i.events.map_values(|e: RequestEventModel| event_listing(e)),
    ) + "\n"@
}

/// Whether every request or event in `s` has a description.
pub open spec fn all_described(s: Seq<RequestEventModel>) -> bool {
    forall|k: int| 0 <= k < s.len() ==> (#[trigger] s[k]).description is Some
}

impl Arg {
    /// The one-line display text of this argument: its wire type, `?` where
    /// it may be null, its name and its summary.
    pub fn to_string(&self) -> (r: String)
        ensures
            r@ == arg_label(self@),
    {
        let mut s = self.typ.to_string();
        if self.allow_null {
            s.append("?");
        }
        s.append(" ");
        s.append(self.name.as_str());
        s.append(": ");
        s.append(self.summary.as_str());
        s
    }
}

/// Appends the display lines of `args` to `out`.
fn append_arg_lines(out: &mut String, args: &Vec<Arg>)
    ensures
        final(out)@ == append_all(old(out)@, arg_lines(args_view(args@))),
{
    let ghost base = out@;
    let ghost parts = arg_lines(args_view(args@));
    proof {
        lemma_append_all_ends(base, parts);
    }
    let mut k: usize = 0;
    while k < args.len()
        invariant
            k <= args@.len(),
            parts == arg_lines(args_view(args@)),
            parts.len() == args@.len(),
            out@ == append_all(base, parts.take(k as int)),
        decreases args@.len() - k,
    {
        proof {
            lemma_append_all_step(base, parts, k as int);
        }
        out.append("   - ");
        let label = args[k].to_string();
        out.append(label.as_str());
        out.append("\n");
        k = k + 1;
    }
    proof {
        lemma_append_all_ends(base, parts);
    }
}

impl Enum {
    /// The one-line display text of this enum: its name and summary. The enum
    /// must have a description.
    pub fn to_string(&self) -> (r: String)
        requires
            self.description is Some,
        ensures
            r@ == "Enum "@ + self.name@ + " - "@ + self.description.unwrap().summary@,
    {
        let mut s = String::from_str("Enum ");
        s.append(self.name.as_str());
        s.append(" - ");
        match &self.description {
            Some(d) => s.append(d.summary.as_str()),
            None => {},
        }
        s
    }
}

impl Interface {
    /// The display text of this interface: name and version, each request
    /// with its summary and arguments, then each event likewise. Every
    /// request and event must have a description.
    pub fn to_string(&self) -> (r: String)
        requires
            all_described(self@.requests),
            all_described(self@.events),
        ensures
            r@ == interface_listing(self@),
    {
        let ghost m = self@;
        let mut out = String::from_str("Interface ");
        out.append(self.name.as_str());
        out.append(", version ");
        let v = decimal_string(self.version as u64);
        out.append(v.as_str());
        out.append("\n");
        out.append(" - Requests:\n");
        let ghost base = out@;
        let ghost parts = m.requests.map_values(|r: RequestEventModel| request_listing(r));
        proof {
            lemma_append_all_ends(base, parts);
        }
        let mut k: usize = 0;
        while k < self.requests.len()
            invariant
                m == self@,
                all_described(m.requests),
                k <= self.requests@.len(),
                parts == m.requests.map_values(|r: RequestEventModel| request_listing(r)),
                parts.len() == self.requests@.len(),
                out@ == append_all(base, parts.take(k as int)),
            decreases self.requests@.len() - k,
        {
            proof {
                lemma_append_all_step(base, parts, k as int);
                assert(m.requests[k as int] == self.requests@[k as int]@);
                assert(m.requests[k as int].description is Some);
            }
            let r = &self.requests[k];
            out.append("  - ");
            out.append(r.name.as_str());
            out.append(": ");
            match &r.description {
                Some(d) => out.append(d.summary.as_str()),
                None => {},
            }
            out.append(", with arguments:\n");
            let ghost before = out@;
            append_arg_lines(&mut out, &r.args);
            proof {
                let rm = r@;
                let hd = "  - "@ + rm.name + ": "@ + rm.description.unwrap().summary + ", with arguments:\n"@;
                let pre = append_all(base, parts.take(k as int));
                assert(before =~= pre + hd);
                lemma_append_all_prefix(pre, hd, arg_lines(rm.args));
            }
            k = k + 1;
        }
        proof {
            lemma_append_all_ends(base, parts);
        }
        out.append("\n - Events:\n");
        let ghost base2 = out@;
        let ghost parts2 = m.events.map_values(|e: RequestEventModel| event_listing(e));
        proof {
            lemma_append_all_ends(base2, parts2);
        }
        let mut k: usize = 0;
        while k < self.events.len()
            invariant
                m == self@,
                all_described(m.events),
                k <= self.events@.len(),
                parts2 == m.events.map_values(|e: RequestEventModel| event_listing(e)),
                parts2.len() == self.events@.len(),
                out@ == append_all(base2, parts2.take(k as int)),
            decreases self.events@.len() - k,
        {
            proof {
                lemma_append_all_step(base2, parts2, k as int);
                assert(m.events[k as int] == self.events@[k as int]@);
                assert(m.events[k as int].description is Some);
            }
            let e = &self.events[k];
            out.append("  - ");
            out.append(e.name.as_str());
            out.append(": ");
            match &e.description {
                Some(d) => out.append(d.summary.as_str()),
                None => {},
            }
            out.append("\n");
            let ghost before = out@;
            append_arg_lines(&mut out, &e.args);
            proof {
                let rm = e@;
                let hd = "  - "@ + rm.name + ": "@ + rm.description.unwrap().summary + "\n"@;
                let pre = append_all(base2, parts2.take(k as int));
                assert(before =~= pre + hd);
                lemma_append_all_prefix(pre, hd, arg_lines(rm.args));
            }
            k = k + 1;
        }
        proof {
            lemma_append_all_ends(base2, parts2);
        }
        out.append("\n");
        out
    }
}

/// The name by which a protocol file gives wire type `t`.
pub open spec fn xml_type_name(t: ArgType) -> Seq<char> {
    match t {
        ArgType::Int => "int"@,
        ArgType::Uint => "uint"@,
        ArgType::Fixed => "fixed"@,
        ArgType::String => "string"@,
        ArgType::ObjectId => "object"@,
        ArgType::NewId => "new_id"@,
        ArgType::Array => "array"@,
        ArgType::Fd => "fd"@,
    }
}

/// Every wire type has exactly one name in protocol files: `from_string`
/// accepts the name of `t` and gives `t`, and any name that gives `t` is that
/// name.
pub proof fn lemma_arg_type_names(t: ArgType, name: Seq<char>)
    ensures
        arg_type_named(xml_type_name(t)) == Some(t),
        arg_type_named(name) == Some(t) ==> name == xml_type_name(t),
{
    reveal_strlit("int");
    reveal_strlit("uint");
    reveal_strlit("fixed");
    reveal_strlit("string");
    reveal_strlit("object");
    reveal_strlit("new_id");
    reveal_strlit("array");
    reveal_strlit("fd");
    let names = seq!["int"@, "uint"@, "fixed"@, "string"@, "object"@, "new_id"@, "array"@, "fd"@];
    assert forall|i: int, j: int| 0 <= i < j < 8 implies #[trigger] names[i] != #[trigger] names[j] by {
        let a = names[i];
        let b = names[j];
        if a.len() == b.len() {
            assert(a[0] != b[0] || a[1] != b[1]);
        }
    }
    assert(names[0] != names[1]);
    assert(names[0] != names[2]);
    assert(names[1] != names[2]);
}

/// Distinct wire types have distinct display names.
pub proof fn lemma_wire_type_labels_distinct(t1: ArgType, t2: ArgType)
    ensures
        t1 != t2 ==> wire_type_label(t1) != wire_type_label(t2),
{
    reveal_strlit("int");
    reveal_strlit("uint");
    reveal_strlit("float");
    reveal_strlit("string");
    reveal_strlit("object_id");
    reveal_strlit("new_id");
    reveal_strlit("array");
    reveal_strlit("fd");
    if t1 != t2 {
        let a = wire_type_label(t1);
        let b = wire_type_label(t2);
        if a.len() == b.len() {
            assert(a[0] != b[0] || a[1] != b[1] || a[a.len() - 1] != b[b.len() - 1]);
        }
    }
}


/// The listing of an event is its header line, `  - name: summary`, then
/// one line per argument, in the order of the arguments: `   - `, the
/// argument's label, a line break. A request's listing is the same with
/// `, with arguments:` ending its header line.
pub proof fn lemma_listing_has_a_line_per_argument(e: RequestEventModel)
    requires
        e.description is Some,
    ensures
        event_listing(e) == "  - "@ + e.name + ": "@ + e.description.unwrap().summary + "\n"@
            + append_all(seq![], Seq::new(e.args.len(), |k: int| "   - "@ + arg_label(e.args[k]) + "\n"@)),
        request_listing(e) == "  - "@ + e.name + ": "@ + e.description.unwrap().summary
            + ", with arguments:\n"@ + append_all(
            seq![],
            Seq::new(e.args.len(), |k: int| "   - "@ + arg_label(e.args[k]) + "\n"@),
        ),
{
    let lines = Seq::new(e.args.len(), |k: int| "   - "@ + arg_label(e.args[k]) + "\n"@);
    assert(arg_lines(e.args) =~= lines);
    let h1 = "  - "@ + e.name + ": "@ + e.description.unwrap().summary + "\n"@;
    let h2 = "  - "@ + e.name + ": "@ + e.description.unwrap().summary + ", with arguments:\n"@;
    lemma_append_all_prefix(h1, seq![], lines);
    lemma_append_all_prefix(h2, seq![], lines);
    assert(h1 + seq![] =~= h1);
    assert(h2 + seq![] =~= h2);
}


/// The listing of an interface ends with the listings of its events, one
/// after the other in the order of the events, then a blank line; the
/// listings of its requests stand before them, in order, right after the
/// header.
pub proof fn lemma_interface_listing_order(i: InterfaceModel)
    ensures
        (append_all(seq![], Seq::new(i.events.len(), |k: int| event_listing(i.events[k])))
            + "\n"@).is_suffix_of(interface_listing(i)),
        ("Interface "@ + i.name + ", version "@ + decimal(i.version as nat) + "\n"@ + " - Requests:\n"@
            + append_all(seq![], Seq::new(i.requests.len(), |k: int| request_listing(i.requests[k])))
            + "\n - Events:\n"@).is_prefix_of(interface_listing(i)),
{
    let evs = Seq::new(i.events.len(), |k: int| event_listing(i.events[k]));
    let rqs = Seq::new(i.requests.len(), |k: int| request_listing(i.requests[k]));
    assert(i.events.map_values(|e: RequestEventModel| event_listing(e)) =~= evs);
    assert(i.requests.map_values(|r: RequestEventModel| request_listing(r)) =~= rqs);
    let head = "Interface "@ + i.name + ", version "@ + decimal(i.version as nat) + "\n"@
        + " - Requests:\n"@;
    lemma_append_all_prefix(head, seq![], rqs);
    assert(head + seq![] =~= head);
    let mid = append_all(head, rqs) + "\n - Events:\n"@;
    lemma_append_all_prefix(mid, seq![], evs);
    assert(mid + seq![] =~= mid);
    let whole = interface_listing(i);
    let tail = append_all(seq![], evs) + "\n"@;
    assert(whole =~= mid + tail);
    assert(whole.subrange(whole.len() - tail.len(), whole.len() as int) =~= tail);
    assert(whole.subrange(0, mid.len() as int) =~= mid);
    assert(mid =~= head + append_all(seq![], rqs) + "\n - Events:\n"@);
}

} // verus!
