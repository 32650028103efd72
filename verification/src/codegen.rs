//! Generation of Rust source code from a protocol description.
use vstd::prelude::*;
use crate::format::{lemma_upper_camel_laws, snake_to_upper_camel, title_case, titleable, to_title, upper_camel};
use crate::text::{
    append_all, decimal, decimal_string, lemma_append_all_ends, lemma_append_all_prefix,
    lemma_append_all_step, lemma_split_on_nonempty, split_chars, split_on, str_equal, tabs, trim,
    trimmed,
};
use crate::wl_types::{
    args_view, enums_view, interfaces_view, opt_description, reqevents_view,
    rust_type_name, Arg, ArgModel, ArgType, Description, DescriptionModel, Enum, EnumEntryModel,
    EnumModel, Interface, InterfaceModel, RequestEvent, RequestEventModel,
};

verus! {

/// `count` tab characters.
pub fn t(count: usize) -> (r: String)
    ensures
        r@ == tabs(count as nat),
{
    let mut tabs_out = String::new();
    let mut k: usize = 0;
    while k < count
        invariant
            k <= count,
            tabs_out@ =~= tabs(k as nat),
        decreases count - k,
    {
        tabs_out.append("\t");
        proof {
            reveal_strlit("\t");
        }
        k = k + 1;
    }
    tabs_out
}

/// The helper function that every generated file starts with.
pub open spec fn conversion_text() -> Seq<char> {
    "fn le_arr_to_string(words: &[u32], length: usize) -> String {\n"@
        + "\tlet mut bytes: Vec<u8> = words.iter().flat_map(|w| w.to_le_bytes()).collect();\n"@
        + "\tbytes.truncate(length);\n"@ + "\tString::from_utf8_lossy(&bytes).to_string()\n"@
        + "}\n\n"@
}

/// The source of the helper that turns little-endian words into a string.
pub fn output_string_conversion() -> (r: String)
    ensures
        r@ == conversion_text(),
{
    let mut output = String::from_str(
        "fn le_arr_to_string(words: &[u32], length: usize) -> String {\n",
    );
    output.append(
        "\tlet mut bytes: Vec<u8> = words.iter().flat_map(|w| w.to_le_bytes()).collect();\n",
    );
    output.append("\tbytes.truncate(length);\n");
    output.append("\tString::from_utf8_lossy(&bytes).to_string()\n");
    output.append("}\n\n");
    output
}

/// Whether an enum reference has at most one `.`: a bare enum name, or a
/// module and an enum name.
pub open spec fn enum_ref_ok(enm: Seq<char>) -> bool {
    split_on(enm, '.').len() <= 2
}

/// The Rust type of the enum that `enm` names: `EnumName`, or
/// `module::EnumName` for `module.enum_name`.
pub open spec fn enum_type_name(enm: Seq<char>) -> Seq<char> {
    let parts = split_on(enm, '.');
    if parts.len() == 1 {
        upper_camel(parts[0])
    } else {
        parts[0] + "::"@ + upper_camel(parts[1])
    }
}

/// The Rust type of the enum that `enm` names; `enm` has at most one `.`.
pub fn string_enum_to_type(enm: &String) -> (r: String)
    requires
        enum_ref_ok(enm@),
    ensures
        r@ == enum_type_name(enm@),
{
    let parts = split_chars(enm.as_str(), '.');
    proof {
        lemma_split_on_nonempty(enm@, '.');
        assert(parts@.map_values(|x: String| x@).len() == parts@.len());
    }
    if parts.len() == 1 {
        assert(parts@[0]@ == parts@.map_values(|x: String| x@)[0]);
        snake_to_upper_camel(parts[0].as_str())
    } else {
        assert(parts@[0]@ == parts@.map_values(|x: String| x@)[0]);
        assert(parts@[1]@ == parts@.map_values(|x: String| x@)[1]);
        let mut out = parts[0].clone();
        out.append("::");
        let name = snake_to_upper_camel(parts[1].as_str());
        out.append(name.as_str());
        out
    }
}

/// One line of a documentation comment.
pub open spec fn doc_line(indent: Seq<char>, line: Seq<char>) -> Seq<char> {
    indent + "/// "@ + trim(line) + "\n"@
}

/// The documentation comment lines for a description: one per line of its
/// text, trimmed; none where there is no description or no text.
pub open spec fn doc_lines(desc: Option<DescriptionModel>, indent: Seq<char>) -> Seq<Seq<char>> {
    match desc {
        Some(d) => match d.content {
            Some(c) => split_on(c, '\n').map_values(|l: Seq<char>| doc_line(indent, l)),
            None => seq![],
        },
        None => seq![],
    }
}

/// Appends the documentation comment for `desc` to `out`.
fn append_doc(out: &mut String, desc: &Option<Description>, indent: &str)
    ensures
        final(out)@ == append_all(old(out)@, doc_lines(opt_description(*desc), indent@)),
{
    let ghost base = out@;
    let ghost parts = doc_lines(opt_description(*desc), indent@);
    let content = match desc {
        Some(d) => match &d.content {
            Some(c) => c,
            None => {
                assert(parts.len() == 0);
                return;
            },
        },
        None => {
            assert(parts.len() == 0);
            return;
        },
    };
    let lines = split_chars(content.as_str(), '\n');
    proof {
        lemma_append_all_ends(base, parts);
        assert(parts.len() == lines@.len());
    }
    let mut k: usize = 0;
    while k < lines.len()
        invariant
            k <= lines@.len(),
            parts.len() == lines@.len(),
            parts == split_on(content@, '\n').map_values(|l: Seq<char>| doc_line(indent@, l)),
            lines@.map_values(|x: String| x@) == split_on(content@, '\n'),
            out@ == append_all(base, parts.take(k as int)),
        decreases lines@.len() - k,
    {
        proof {
            lemma_append_all_step(base, parts, k as int);
            assert(lines@[k as int]@ == lines@.map_values(|x: String| x@)[k as int]);
        }
        out.append(indent);
        out.append("/// ");
        let line = trimmed(lines[k].as_str());
        out.append(line.as_str());
        out.append("\n");
        k = k + 1;
    }
    proof {
        lemma_append_all_ends(base, parts);
    }
}

/// The Rust type of an argument's field: its enum where it names one, else
/// the type that carries its wire type.
pub open spec fn field_type(a: ArgModel) -> Seq<char> {
    match a.enm {
        Some(e) => enum_type_name(e),
        None => rust_type_name(a.typ),
    }
}

/// Whether an argument can be written out: its summary starts with an ASCII
/// character and its enum reference, if any, has at most one `.`.
pub open spec fn arg_ok(a: ArgModel) -> bool {
    titleable(a.summary) && (a.enm matches Some(e) ==> enum_ref_ok(e))
}

/// Whether every argument of `re` can be written out.
pub open spec fn reqevent_ok(re: RequestEventModel) -> bool {
    forall|k: int| 0 <= k < re.args.len() ==> arg_ok(#[trigger] re.args[k])
}

/// Whether argument `a` creates an object whose interface the protocol file
/// does not name. On the wire such a `new_id` is preceded by the interface
/// name, a `string`, and the version, a `uint`.
pub open spec fn generic_new_id(a: ArgModel) -> bool {
    a.typ == ArgType::NewId && a.interface is None
}

/// The enum variant fields for an argument, with its summary as comment;
/// a `new_id` of no named interface first gets fields for the interface
/// name and the version that precede it.
pub open spec fn field_text(a: ArgModel) -> Seq<char> {
    let own = "\t\t\t/// "@ + title_case(a.summary) + ".\n"@ + "\t\t\t"@ + a.name + ": "@
        + field_type(a) + ",\n"@;
    if generic_new_id(a) {
        "\t\t\t/// Interface of the new object.\n"@ + "\t\t\t"@ + a.name + "_interface: String,\n"@
            + "\t\t\t/// Version of the new object.\n"@ + "\t\t\t"@ + a.name + "_version: u32,\n"@
            + own
    } else {
        own
    }
}

/// The enum variant for a request or an event: its documentation, then the
/// variant named in upper camel case with one field per argument.
pub open spec fn reqevent_text(re: RequestEventModel) -> Seq<char> {
    let head = append_all(seq![], doc_lines(re.description, "\t\t"@)) + "\t\t"@ + upper_camel(re.name);
    if re.args.len() == 0 {
        head + " {},\n"@
    } else {
        append_all(head + " {\n"@, re.args.map_values(|a: ArgModel| field_text(a))) + "\t\t},\n"@
    }
}

/// Whether argument `a` is a `new_id` of no named interface.
fn is_generic_new_id(a: &Arg) -> (r: bool)
    ensures
        r == generic_new_id(a@),
{
    match a.typ {
        ArgType::NewId => a.interface.is_none(),
        _ => false,
    }
}

/// The field for argument `a`.
fn output_field(a: &Arg) -> (r: String)
    requires
        arg_ok(a@),
    ensures
        r@ == field_text(a@),
{
    let mut out = String::new();
    if is_generic_new_id(a) {
        out.append("\t\t\t/// Interface of the new object.\n");
        out.append("\t\t\t");
        out.append(a.name.as_str());
        out.append("_interface: String,\n");
        out.append("\t\t\t/// Version of the new object.\n");
        out.append("\t\t\t");
        out.append(a.name.as_str());
        out.append("_version: u32,\n");
    }
    out.append("\t\t\t/// ");
    let title = to_title(&a.summary);
    out.append(title.as_str());
    out.append(".\n");
    out.append("\t\t\t");
    out.append(a.name.as_str());
    out.append(": ");
    let typ = match &a.enm {
        Some(enm) => string_enum_to_type(enm),
        None => a.typ.to_rust_type_string(),
    };
    out.append(typ.as_str());
    out.append(",\n");
    out
}

/// The enum variant for a request or an event.
pub fn output_reqevent(re: &RequestEvent) -> (r: String)
    requires
        reqevent_ok(re@),
    ensures
        r@ == reqevent_text(re@),
{
    let mut output = String::new();
    append_doc(&mut output, &re.description, "\t\t");
    output.append("\t\t");
    let name = snake_to_upper_camel(re.name.as_str());
    output.append(name.as_str());
    if re.args.len() == 0 {
        output.append(" {},\n");
    } else {
        output.append(" {\n");
        let ghost base = output@;
        let ghost parts = re@.args.map_values(|a: ArgModel| field_text(a));
        proof {
            lemma_append_all_ends(base, parts);
        }
        let mut k: usize = 0;
        while k < re.args.len()
            invariant
                k <= re.args@.len(),
                reqevent_ok(re@),
                parts == re@.args.map_values(|a: ArgModel| field_text(a)),
                parts.len() == re.args@.len(),
                output@ == append_all(base, parts.take(k as int)),
            decreases re.args@.len() - k,
        {
            proof {
                lemma_append_all_step(base, parts, k as int);
                assert(re@.args[k as int] == re.args@[k as int]@);
                assert(arg_ok(re@.args[k as int]));
            }
            let field = output_field(&re.args[k]);
            output.append(field.as_str());
            k = k + 1;
        }
        proof {
            lemma_append_all_ends(base, parts);
        }
        output.append("\t\t},\n");
    }
    output
}

/// Whether an argument of wire type `t` takes a single word of the message.
pub open spec fn single_word(t: ArgType) -> bool {
    !(t == ArgType::String || t == ArgType::Array)
}

/// Whether argument `a` is carried in the message words. A file descriptor
/// is not: it travels in the ancillary data of the socket message, and the
/// decoder takes it from its own list.
pub open spec fn takes_word(a: ArgModel) -> bool {
    a.typ != ArgType::Fd
}

/// How many reads out of the message words (`words`), or out of the
/// descriptor list (`!words`), argument `a` takes: three for a `new_id` of
/// no named interface, one for any other argument of that class.
pub open spec fn reads_of(a: ArgModel, words: bool) -> nat {
    if takes_word(a) != words {
        0
    } else if generic_new_id(a) {
        3
    } else {
        1
    }
}

/// The number of reads that the arguments `args` take out of the message
/// words (`words`), or out of the descriptor list (`!words`).
pub open spec fn count_class(args: Seq<ArgModel>, words: bool) -> nat
    decreases args.len(),
{
    if args.len() == 0 {
        0
    } else {
        count_class(args.drop_last(), words) + reads_of(args.last(), words)
    }
}

/// Whether no argument after position `k` is of the same class (message word
/// or file descriptor) as `words` says.
pub open spec fn last_in_class(args: Seq<ArgModel>, k: int, words: bool) -> bool {
    forall|j: int| k < j < args.len() ==> takes_word(#[trigger] args[j]) != words
}

/// The statements that read a string (`is_string`) or an array called
/// `name` out of the message words: its size in bytes, then as many words as
/// that takes. `last` tells whether no later read follows, in which case the
/// cursor is not advanced.
pub open spec fn sized_read_text(name: Seq<char>, is_string: bool, last: bool) -> Seq<char> {
    let conversion = if is_string {
        "crate::le_arr_to_string(&args[index + 1..index + 1 + "@
    } else {
        "crate::to_vec(&args[index + 1..index + 1 + "@
    };
    let read = tabs(5) + "let "@ + name + "_size: usize = args[index].try_into().unwrap();\n"@
        + tabs(5) + "let "@ + name + "_count = "@ + name + "_size.div_ceil(4);\n"@ + tabs(5)
        + "let "@ + name + " = "@ + conversion + name + "_count], "@ + name + "_size);\n"@;
    if last {
        read
    } else {
        read + tabs(5) + "index += 1 + "@ + name + "_count;\n"@
    }
}

/// The statements that read single-word argument `a` out of the message
/// words.
pub open spec fn word_read_text(a: ArgModel, last: bool) -> Seq<char> {
    let read = if a.typ == ArgType::Int {
        tabs(5) + "let "@ + a.name + " = args[index] as i32;\n"@
    } else if a.typ == ArgType::Uint && a.enm is Some {
        tabs(5) + "let "@ + a.name + " = "@ + enum_type_name(a.enm.unwrap())
            + "::from_u32(args[index]).unwrap();\n"@
    } else {
        tabs(5) + "let "@ + a.name + " = args[index];\n"@
    };
    if last {
        read
    } else {
        read + tabs(5) + "index += 1;\n"@
    }
}

/// The statements that read argument `a`: a file descriptor from the
/// descriptor list, anything else out of the message words; a `new_id` of
/// no named interface after the interface name and the version that precede
/// it. `last` tells whether no later argument reads from the same place, in
/// which case the cursor is not advanced.
pub open spec fn opcode_arg_text(a: ArgModel, last: bool) -> Seq<char> {
    if a.typ == ArgType::Fd {
        let read = tabs(5) + "let "@ + a.name + " = fds[fd_index];\n"@;
        if last {
            read
        } else {
            read + tabs(5) + "fd_index += 1;\n"@
        }
    } else if generic_new_id(a) {
        sized_read_text(a.name + "_interface"@, true, false) + tabs(5) + "let "@ + a.name
            + "_version = args[index];\n"@ + tabs(5) + "index += 1;\n"@ + word_read_text(a, last)
    } else if single_word(a.typ) {
        word_read_text(a, last)
    } else {
        sized_read_text(a.name, a.typ == ArgType::String, last)
    }
}

/// The statements that read every argument of a request.
pub open spec fn opcode_arg_parts(args: Seq<ArgModel>) -> Seq<Seq<char>> {
    args.map(|k: int, a: ArgModel| opcode_arg_text(a, last_in_class(args, k, takes_word(a))))
}

/// The declaration of a cursor after `acc`: immutable where it is used once,
/// mutable where more often, none where it is not used.
pub open spec fn cursor_text(acc: Seq<char>, uses: nat, one: Seq<char>, many: Seq<char>) -> Seq<char> {
    if uses == 1 {
        acc + tabs(5) + one
    } else if uses >= 1 {
        acc + tabs(5) + many
    } else {
        acc
    }
}

/// The fields that a decoded request is built from for argument `a`: the
/// argument itself, after the interface name and the version where it is a
/// `new_id` of no named interface.
pub open spec fn field_init_text(a: ArgModel) -> Seq<char> {
    let own = tabs(6) + a.name + ",\n"@;
    if generic_new_id(a) {
        tabs(6) + a.name + "_interface,\n"@ + tabs(6) + a.name + "_version,\n"@ + own
    } else {
        own
    }
}

/// The match arm that decodes request `re`, whose opcode is `index`: declare
/// the cursors into the message words and into the descriptor list, read
/// each argument, then build the request.
pub open spec fn opcode_text(re: RequestEventModel, index: nat) -> Seq<char> {
    let head = tabs(4) + decimal(index) + " => {\n"@;
    let h1 = cursor_text(
        cursor_text(
            head,
            count_class(re.args, true),
            "let index = 0usize;\n"@,
            "let mut index = 0usize;\n"@,
        ),
        count_class(re.args, false),
        "let fd_index = 0usize;\n"@,
        "let mut fd_index = 0usize;\n"@,
    );
    let h2 = append_all(h1, opcode_arg_parts(re.args)) + tabs(5) + "Some(Request::"@ + upper_camel(
        re.name,
    ) + " {\n"@;
    append_all(h2, re.args.map_values(|a: ArgModel| field_init_text(a))) + tabs(5) + "})\n"@
        + tabs(4) + "}\n"@
}

/// Whether every unsigned argument of `re` that names an enum names it with
/// at most one `.`.
pub open spec fn opcode_ok(re: RequestEventModel) -> bool {
    forall|k: int|
        0 <= k < re.args.len() ==> ((#[trigger] re.args[k]).typ == ArgType::Uint && re.args[k].enm
            is Some ==> enum_ref_ok(re.args[k].enm.unwrap()))
}

/// The number of reads that `args` take out of the message words (`words`),
/// or out of the descriptor list (`!words`), counted up to two.
fn count_args(args: &Vec<Arg>, words: bool) -> (r: usize)
    ensures
        r == if count_class(args_view(args@), words) >= 2 {
            2
        } else {
            count_class(args_view(args@), words)
        },
{
    let ghost av = args_view(args@);
    let mut count: usize = 0;
    let mut k: usize = 0;
    assert(av.take(0) =~= Seq::<ArgModel>::empty());
    while k < args.len()
        invariant
            k <= args@.len(),
            av == args_view(args@),
            count == if count_class(av.take(k as int), words) >= 2 {
                2
            } else {
                count_class(av.take(k as int), words)
            },
        decreases args@.len() - k,
    {
        assert(av.take(k + 1).drop_last() =~= av.take(k as int));
        assert(av.take(k + 1).last() == args@[k as int]@);
        let word = match args[k].typ {
            ArgType::Fd => false,
            _ => true,
        };
        let reads: usize = if word != words {
            0
        } else if is_generic_new_id(&args[k]) {
            3
        } else {
            1
        };
        count = if count + reads >= 2 {
            2
        } else {
            count + reads
        };
        k = k + 1;
    }
    assert(av.take(args@.len() as int) =~= av);
    count
}

/// Whether no argument after position `k` is of the class that `words`
/// names.
fn is_last_in_class(args: &Vec<Arg>, k: usize, words: bool) -> (r: bool)
    ensures
        r == last_in_class(args_view(args@), k as int, words),
{
    let ghost av = args_view(args@);
    if k >= args.len() {
        return true;
    }
    let mut j: usize = k + 1;
    while j < args.len()
        invariant
            k < j <= args@.len(),
            av == args_view(args@),
            forall|i: int| k < i < j ==> takes_word(#[trigger] av[i]) != words,
        decreases args@.len() - j,
    {
        let word = match args[j].typ {
            ArgType::Fd => false,
            _ => true,
        };
        assert(takes_word(av[j as int]) == word);
        if word == words {
            return false;
        }
        j = j + 1;
    }
    true
}

/// Appends the statements that read a string (`is_string`) or an array
/// called `name`.
fn append_sized_read(out: &mut String, name: &str, is_string: bool, last: bool)
    ensures
        final(out)@ == old(out)@ + sized_read_text(name@, is_string, last),
{
    let t5 = t(5);
    out.append(t5.as_str());
    out.append("let ");
    out.append(name);
    out.append("_size: usize = args[index].try_into().unwrap();\n");
    out.append(t5.as_str());
    out.append("let ");
    out.append(name);
    out.append("_count = ");
    out.append(name);
    out.append("_size.div_ceil(4);\n");
    out.append(t5.as_str());
    out.append("let ");
    out.append(name);
    out.append(" = ");
    if is_string {
        out.append("crate::le_arr_to_string(&args[index + 1..index + 1 + ");
    } else {
        out.append("crate::to_vec(&args[index + 1..index + 1 + ");
    }
    out.append(name);
    out.append("_count], ");
    out.append(name);
    out.append("_size);\n");
    if !last {
        out.append(t5.as_str());
        out.append("index += 1 + ");
        out.append(name);
        out.append("_count;\n");
    }
}

/// Appends the statements that read single-word argument `a`.
fn append_word_read(out: &mut String, a: &Arg, last: bool)
    requires
        a.typ == ArgType::Uint && a.enm is Some ==> enum_ref_ok(a@.enm.unwrap()),
    ensures
        final(out)@ == old(out)@ + word_read_text(a@, last),
{
    let t5 = t(5);
    out.append(t5.as_str());
    out.append("let ");
    out.append(a.name.as_str());
    match a.typ {
        ArgType::Int => out.append(" = args[index] as i32;\n"),
        ArgType::Uint => match &a.enm {
            Some(enm) => {
                out.append(" = ");
                let typ = string_enum_to_type(enm);
                out.append(typ.as_str());
                out.append("::from_u32(args[index]).unwrap();\n");
            },
            None => out.append(" = args[index];\n"),
        },
        _ => out.append(" = args[index];\n"),
    }
    if !last {
        out.append(t5.as_str());
        out.append("index += 1;\n");
    }
}

/// The statements that read argument `a`.
fn output_opcode_arg(a: &Arg, last: bool) -> (r: String)
    requires
        a.typ == ArgType::Uint && a.enm is Some ==> enum_ref_ok(a@.enm.unwrap()),
    ensures
        r@ == opcode_arg_text(a@, last),
{
    let mut output = String::new();
    match a.typ {
        ArgType::Fd => {
            let t5 = t(5);
            output.append(t5.as_str());
            output.append("let ");
            output.append(a.name.as_str());
            output.append(" = fds[fd_index];\n");
            if !last {
                output.append(t5.as_str());
                output.append("fd_index += 1;\n");
            }
        },
        ArgType::String => append_sized_read(&mut output, a.name.as_str(), true, last),
        ArgType::Array => append_sized_read(&mut output, a.name.as_str(), false, last),
        _ => {
            if is_generic_new_id(a) {
                let mut interface_name = String::new();
                interface_name.append(a.name.as_str());
                interface_name.append("_interface");
                append_sized_read(&mut output, interface_name.as_str(), true, false);
                let t5 = t(5);
                output.append(t5.as_str());
                output.append("let ");
                output.append(a.name.as_str());
                output.append("_version = args[index];\n");
                output.append(t5.as_str());
                output.append("index += 1;\n");
            }
            append_word_read(&mut output, a, last);
        },
    }
    output
}

/// The match arm that decodes request `re` with opcode `index`.
pub fn output_request_from_opcode(re: &RequestEvent, index: usize) -> (r: String)
    requires
        opcode_ok(re@),
    ensures
        r@ == opcode_text(re@, index as nat),
{
    let mut output = t(4);
    let number = decimal_string(index as u64);
    output.append(number.as_str());
    output.append(" => {\n");
    let n = re.args.len();
    let words = count_args(&re.args, true);
    if words == 1 {
        let t5 = t(5);
        output.append(t5.as_str());
        output.append("let index = 0usize;\n");
    } else if words >= 1 {
        let t5 = t(5);
        output.append(t5.as_str());
        output.append("let mut index = 0usize;\n");
    }
    let fds = count_args(&re.args, false);
    if fds == 1 {
        let t5 = t(5);
        output.append(t5.as_str());
        output.append("let fd_index = 0usize;\n");
    } else if fds >= 1 {
        let t5 = t(5);
        output.append(t5.as_str());
        output.append("let mut fd_index = 0usize;\n");
    }
    let ghost base = output@;
    let ghost parts = opcode_arg_parts(re@.args);
    proof {
        lemma_append_all_ends(base, parts);
    }
    let mut k: usize = 0;
    while k < n
        invariant
            n == re.args@.len(),
            k <= n,
            opcode_ok(re@),
            parts == opcode_arg_parts(re@.args),
            parts.len() == n,
            output@ == append_all(base, parts.take(k as int)),
        decreases n - k,
    {
        proof {
            lemma_append_all_step(base, parts, k as int);
            assert(re@.args[k as int] == re.args@[k as int]@);
        }
        let word = match re.args[k].typ {
            ArgType::Fd => false,
            _ => true,
        };
        let last = is_last_in_class(&re.args, k, word);
        let text = output_opcode_arg(&re.args[k], last);
        output.append(text.as_str());
        k = k + 1;
    }
    proof {
        lemma_append_all_ends(base, parts);
    }
    let t5 = t(5);
    output.append(t5.as_str());
    output.append("Some(Request::");
    let name = snake_to_upper_camel(re.name.as_str());
    output.append(name.as_str());
    output.append(" {\n");
    let ghost base2 = output@;
    let ghost parts2 = re@.args.map_values(|a: ArgModel| field_init_text(a));
    proof {
        lemma_append_all_ends(base2, parts2);
    }
    let t6 = t(6);
    let mut k: usize = 0;
    while k < n
        invariant
            n == re.args@.len(),
            k <= n,
            t6@ == tabs(6),
            parts2 == re@.args.map_values(|a: ArgModel| field_init_text(a)),
            parts2.len() == n,
            output@ == append_all(base2, parts2.take(k as int)),
        decreases n - k,
    {
        proof {
            lemma_append_all_step(base2, parts2, k as int);
            assert(re@.args[k as int] == re.args@[k as int]@);
        }
        if is_generic_new_id(&re.args[k]) {
            output.append(t6.as_str());
            output.append(re.args[k].name.as_str());
            output.append("_interface,\n");
            output.append(t6.as_str());
            output.append(re.args[k].name.as_str());
            output.append("_version,\n");
        }
        output.append(t6.as_str());
        output.append(re.args[k].name.as_str());
        output.append(",\n");
        k = k + 1;
    }
    proof {
        lemma_append_all_ends(base2, parts2);
    }
    output.append(t5.as_str());
    output.append("})\n");
    let t4 = t(4);
    output.append(t4.as_str());
    output.append("}\n");
    output
}

/// The module that an argument's enum reference names, where it names one
/// (`module.enum_name`).
pub open spec fn arg_module(a: ArgModel) -> Option<Seq<char>> {
    match a.enm {
        Some(e) => if split_on(e, '.').len() == 2 {
            Some(split_on(e, '.')[0])
        } else {
            None
        },
        None => None,
    }
}

/// `list` with `m` added at the end, unless it is absent or already there.
pub open spec fn add_module(list: Seq<Seq<char>>, m: Option<Seq<char>>) -> Seq<Seq<char>> {
    match m {
        Some(x) => if list.contains(x) {
            list
        } else {
            list.push(x)
        },
        None => list,
    }
}

/// `list` with the modules named by `args` added, in order, each once.
pub open spec fn modules_of_args(list: Seq<Seq<char>>, args: Seq<ArgModel>) -> Seq<Seq<char>>
    decreases args.len(),
{
    if args.len() == 0 {
        list
    } else {
        add_module(modules_of_args(list, args.drop_last()), arg_module(args.last()))
    }
}

/// `list` with the modules named by the arguments of `res` added, in order,
/// each once.
pub open spec fn modules_of(list: Seq<Seq<char>>, res: Seq<RequestEventModel>) -> Seq<Seq<char>>
    decreases res.len(),
{
    if res.len() == 0 {
        list
    } else {
        modules_of_args(modules_of(list, res.drop_last()), res.last().args)
    }
}

/// The other modules whose enums the requests and events of `i` use, in
/// order of first use, each once.
pub open spec fn interface_modules(i: InterfaceModel) -> Seq<Seq<char>> {
    modules_of(modules_of(seq![], i.requests), i.events)
}

/// Characters of a sequence of strings.
pub open spec fn strings_view(s: Seq<String>) -> Seq<Seq<char>> {
    s.map_values(|x: String| x@)
}

/// Adds `m` to `list` unless it is there already.
fn add_module_name(list: &mut Vec<String>, m: String)
    ensures
        strings_view(final(list)@) == add_module(strings_view(old(list)@), Some(m@)),
{
    let ghost v = strings_view(list@);
    let mut k: usize = 0;
    while k < list.len()
        invariant
            v == strings_view(list@),
            k <= list@.len(),
            forall|j: int| 0 <= j < k ==> v[j] != m@,
        decreases list@.len() - k,
    {
        if str_equal(list[k].as_str(), m.as_str()) {
            assert(v[k as int] == m@);
            return;
        }
        k = k + 1;
    }
    assert(!v.contains(m@));
    list.push(m);
    assert(strings_view(list@) =~= v.push(m@));
}

/// Adds the modules named by `args` to `list`.
fn add_arg_modules(list: &mut Vec<String>, args: &Vec<Arg>)
    ensures
        strings_view(final(list)@) == modules_of_args(strings_view(old(list)@), args_view(args@)),
{
    let ghost base = strings_view(list@);
    let ghost av = args_view(args@);
    let mut k: usize = 0;
    assert(av.take(0) =~= Seq::<ArgModel>::empty());
    while k < args.len()
        invariant
            k <= args@.len(),
            av == args_view(args@),
            strings_view(list@) == modules_of_args(base, av.take(k as int)),
        decreases args@.len() - k,
    {
        assert(av.take(k + 1).drop_last() =~= av.take(k as int));
        assert(av.take(k + 1).last() == args@[k as int]@);
        match &args[k].enm {
            Some(enm) => {
                let parts = split_chars(enm.as_str(), '.');
                assert(strings_view(parts@) == split_on(enm@, '.'));
                if parts.len() == 2 {
                    assert(parts@[0]@ == strings_view(parts@)[0]);
                    add_module_name(list, parts[0].clone());
                }
            },
            None => {},
        }
        k = k + 1;
    }
    assert(av.take(args@.len() as int) =~= av);
}

/// Adds the modules named by the arguments of `res` to `list`.
fn add_reqevent_modules(list: &mut Vec<String>, res: &Vec<RequestEvent>)
    ensures
        strings_view(final(list)@) == modules_of(strings_view(old(list)@), reqevents_view(res@)),
{
    let ghost base = strings_view(list@);
    let ghost rv = reqevents_view(res@);
    let mut k: usize = 0;
    assert(rv.take(0) =~= Seq::<RequestEventModel>::empty());
    while k < res.len()
        invariant
            k <= res@.len(),
            rv == reqevents_view(res@),
            strings_view(list@) == modules_of(base, rv.take(k as int)),
        decreases res@.len() - k,
    {
        assert(rv.take(k + 1).drop_last() =~= rv.take(k as int));
        assert(rv.take(k + 1).last() == res@[k as int]@);
        add_arg_modules(list, &res[k].args);
        k = k + 1;
    }
    assert(rv.take(res@.len() as int) =~= rv);
}

/// A variant line of a generated enum.
pub open spec fn entry_variant_text(n: Seq<char>, v: EnumEntryModel) -> Seq<char> {
    "\t\t"@ + upper_camel(v.name) + " = "@ + v.value + ",\n"@
}

/// A match arm of a generated enum's `from_u32`.
pub open spec fn entry_arm_text(n: Seq<char>, v: EnumEntryModel) -> Seq<char> {
    "\t\t\t\t"@ + v.value + " => Some("@ + n + "::"@ + upper_camel(v.name) + "),\n"@
}

/// The generated enum for `e`: its documentation, a `#[repr(u32)]` enum with
/// one variant per entry, and a `from_u32` that maps each value to its
/// variant; `more` adds a blank line for an enum that is not the last.
pub open spec fn enum_text(e: EnumModel, more: bool) -> Seq<char> {
    let n = upper_camel(e.name);
    let a = append_all(seq![], doc_lines(e.description, "\t"@)) + "\t#[repr(u32)]\n"@
        + "\tpub enum "@ + n + " {\n"@;
    let b = append_all(a, e.values.map_values(|v: EnumEntryModel| entry_variant_text(n, v)))
        + "\t}\n\n"@ + "\timpl "@ + n + " {\n"@
        + "\t\tpub fn from_u32(value: u32) -> Option<Self> {\n"@ + "\t\t\tmatch value {\n"@;
    let c = append_all(b, e.values.map_values(|v: EnumEntryModel| entry_arm_text(n, v)))
        + "\t\t\t\t_ => None,\n"@ + "\t\t\t}\n"@ + "\t\t}\n"@ + "\t}\n"@;
    if more {
        c + "\n"@
    } else {
        c
    }
}

/// The generated enum for `e`.
fn output_enum(e: &Enum, more: bool) -> (r: String)
    ensures
        r@ == enum_text(e@, more),
{
    let mut output = String::new();
    append_doc(&mut output, &e.description, "\t");
    let name = snake_to_upper_camel(e.name.as_str());
    output.append("\t#[repr(u32)]\n");
    output.append("\tpub enum ");
    output.append(name.as_str());
    output.append(" {\n");
    let ghost ev = e@;
    let ghost base = output@;
    let ghost parts = ev.values.map_values(|v: EnumEntryModel| entry_variant_text(name@, v));
    proof {
        lemma_append_all_ends(base, parts);
    }
    let n = e.values.len();
    let mut k: usize = 0;
    while k < n
        invariant
            n == e.values@.len(),
            ev == e@,
            k <= n,
            parts == ev.values.map_values(|v: EnumEntryModel| entry_variant_text(name@, v)),
            parts.len() == n,
            output@ == append_all(base, parts.take(k as int)),
        decreases n - k,
    {
        proof {
            lemma_append_all_step(base, parts, k as int);
            assert(ev.values[k as int] == e.values@[k as int]@);
        }
        let entry = &e.values[k];
        output.append("\t\t");
        let entry_name = snake_to_upper_camel(entry.name.as_str());
        output.append(entry_name.as_str());
        output.append(" = ");
        output.append(entry.value.as_str());
        output.append(",\n");
        k = k + 1;
    }
    proof {
        lemma_append_all_ends(base, parts);
    }
    output.append("\t}\n\n");
    output.append("\timpl ");
    output.append(name.as_str());
    output.append(" {\n");
    output.append("\t\tpub fn from_u32(value: u32) -> Option<Self> {\n");
    output.append("\t\t\tmatch value {\n");
    let ghost base2 = output@;
    let ghost parts2 = ev.values.map_values(|v: EnumEntryModel| entry_arm_text(name@, v));
    proof {
        lemma_append_all_ends(base2, parts2);
    }
    let mut k: usize = 0;
    while k < n
        invariant
            n == e.values@.len(),
            ev == e@,
            k <= n,
            parts2 == ev.values.map_values(|v: EnumEntryModel| entry_arm_text(name@, v)),
            parts2.len() == n,
            output@ == append_all(base2, parts2.take(k as int)),
        decreases n - k,
    {
        proof {
            lemma_append_all_step(base2, parts2, k as int);
            assert(ev.values[k as int] == e.values@[k as int]@);
        }
        let entry = &e.values[k];
        output.append("\t\t\t\t");
        output.append(entry.value.as_str());
        output.append(" => Some(");
        output.append(name.as_str());
        output.append("::");
        let entry_name = snake_to_upper_camel(entry.name.as_str());
        output.append(entry_name.as_str());
        output.append("),\n");
        k = k + 1;
    }
    proof {
        lemma_append_all_ends(base2, parts2);
    }
    output.append("\t\t\t\t_ => None,\n");
    output.append("\t\t\t}\n");
    output.append("\t\t}\n");
    output.append("\t}\n");
    if more {
        output.append("\n");
    }
    output
}

/// The `use` lines for the modules in `mods`, then a blank line; nothing
/// where there are none.
pub open spec fn uses_text(acc: Seq<char>, mods: Seq<Seq<char>>) -> Seq<char> {
    if mods.len() > 0 {
        append_all(acc, mods.map_values(|m: Seq<char>| "\tuse crate::"@ + m + ";\n"@)) + "\n"@
    } else {
        acc
    }
}

/// The `Request` enum and its `from_opcode` decoder; nothing where there are
/// no requests.
pub open spec fn requests_text(acc: Seq<char>, reqs: Seq<RequestEventModel>) -> Seq<char> {
    if reqs.len() > 0 {
        append_all(
            append_all(
                acc + "\n\tpub enum Request {\n"@,
                reqs.map_values(|r: RequestEventModel| reqevent_text(r)),
            ) + "\t}\n\n"@ + "\timpl Request {\n"@
                + "\t\tpub fn from_opcode(opcode: u16, args: &[u32], fds: &[u32]) -> Option<Self> {\n"@ + tabs(3)
                + "match opcode {\n"@,
            reqs.map(|k: int, r: RequestEventModel| opcode_text(r, k as nat)),
        ) + tabs(4) + "_ => None,\n"@ + tabs(3) + "}\n"@ + "\t\t}\n"@ + "\t}\n"@
    } else {
        acc
    }
}

/// The `Event` enum; nothing where there are no events.
pub open spec fn events_text(acc: Seq<char>, evs: Seq<RequestEventModel>) -> Seq<char> {
    if evs.len() > 0 {
        append_all(
            acc + "\n\tpub enum Event {\n"@,
            evs.map_values(|r: RequestEventModel| reqevent_text(r)),
        ) + "\t}\n"@
    } else {
        acc
    }
}

/// The generated enums, after a blank line where there are any.
pub open spec fn enums_text(acc: Seq<char>, enums: Seq<EnumModel>) -> Seq<char> {
    append_all(
        if enums.len() > 0 {
            acc + "\n"@
        } else {
            acc
        },
        enums.map(|k: int, e: EnumModel| enum_text(e, k < enums.len() - 1)),
    )
}

/// The module generated for interface `i`: documentation, `use` lines,
/// version, requests, events and enums; a blank line follows unless it is
/// the `last`.
pub open spec fn interface_text(i: InterfaceModel, last: bool) -> Seq<char> {
    let h = append_all(seq![], doc_lines(i.description, ""@)) + "pub mod "@ + i.name + " {\n"@;
    let h2 = uses_text(h, interface_modules(i)) + "\tpub const VERSION: u32 = "@ + decimal(
        i.version as nat,
    ) + ";\n"@;
    let h3 = enums_text(events_text(requests_text(h2, i.requests), i.events), i.enums) + "}\n"@;
    if last {
        h3
    } else {
        h3 + "\n"@
    }
}

/// Whether every request and event of `i` can be written out.
pub open spec fn interface_ok(i: InterfaceModel) -> bool {
    &&& forall|k: int| 0 <= k < i.requests.len() ==> reqevent_ok(#[trigger] i.requests[k])
    &&& forall|k: int| 0 <= k < i.events.len() ==> reqevent_ok(#[trigger] i.events[k])
}

/// A request or event that can be written out can also be decoded.
proof fn lemma_reqevent_ok_opcode_ok(re: RequestEventModel)
    requires
        reqevent_ok(re),
    ensures
        opcode_ok(re),
{
    assert forall|k: int|
        0 <= k < re.args.len() && (#[trigger] re.args[k]).typ == ArgType::Uint
            && re.args[k].enm is Some implies enum_ref_ok(re.args[k].enm.unwrap()) by {
        assert(arg_ok(re.args[k]));
    }
}

/// Appends the `use` lines of interface `i` to `out`.
fn append_uses(out: &mut String, i: &Interface)
    ensures
        final(out)@ == uses_text(old(out)@, interface_modules(i@)),
{
    let mut modules: Vec<String> = Vec::new();
    assert(strings_view(modules@) =~= Seq::<Seq<char>>::empty());
    add_reqevent_modules(&mut modules, &i.requests);
    add_reqevent_modules(&mut modules, &i.events);
    let ghost mods = strings_view(modules@);
    if modules.len() > 0 {
        let ghost base = out@;
        let ghost parts = mods.map_values(|m: Seq<char>| "\tuse crate::"@ + m + ";\n"@);
        proof {
            lemma_append_all_ends(base, parts);
        }
        let mut k: usize = 0;
        while k < modules.len()
            invariant
                k <= modules@.len(),
                mods == strings_view(modules@),
                parts == mods.map_values(|m: Seq<char>| "\tuse crate::"@ + m + ";\n"@),
                parts.len() == modules@.len(),
                out@ == append_all(base, parts.take(k as int)),
            decreases modules@.len() - k,
        {
            proof {
                lemma_append_all_step(base, parts, k as int);
                assert(mods[k as int] == modules@[k as int]@);
            }
            out.append("\tuse crate::");
            out.append(modules[k].as_str());
            out.append(";\n");
            k = k + 1;
        }
        proof {
            lemma_append_all_ends(base, parts);
        }
        out.append("\n");
    }
}

/// Appends the variants of `res` to `out`.
fn append_variants(out: &mut String, res: &Vec<RequestEvent>)
    requires
        forall|k: int| 0 <= k < res@.len() ==> reqevent_ok(#[trigger] res@[k]@),
    ensures
        final(out)@ == append_all(
            old(out)@,
            reqevents_view(res@).map_values(|r: RequestEventModel| reqevent_text(r)),
        ),
{
    let ghost base = out@;
    let ghost parts = reqevents_view(res@).map_values(|r: RequestEventModel| reqevent_text(r));
    proof {
        lemma_append_all_ends(base, parts);
    }
    let mut k: usize = 0;
    while k < res.len()
        invariant
            k <= res@.len(),
            forall|j: int| 0 <= j < res@.len() ==> reqevent_ok(#[trigger] res@[j]@),
            parts == reqevents_view(res@).map_values(|r: RequestEventModel| reqevent_text(r)),
            parts.len() == res@.len(),
            out@ == append_all(base, parts.take(k as int)),
        decreases res@.len() - k,
    {
        proof {
            lemma_append_all_step(base, parts, k as int);
        }
        let text = output_reqevent(&res[k]);
        out.append(text.as_str());
        k = k + 1;
    }
    proof {
        lemma_append_all_ends(base, parts);
    }
}

/// Appends the `Request` enum and its decoder to `out`.
fn append_requests(out: &mut String, reqs: &Vec<RequestEvent>)
    requires
        forall|k: int| 0 <= k < reqs@.len() ==> reqevent_ok(#[trigger] reqs@[k]@),
    ensures
        final(out)@ == requests_text(old(out)@, reqevents_view(reqs@)),
{
    if reqs.len() == 0 {
        return;
    }
    let ghost rv = reqevents_view(reqs@);
    out.append("\n\tpub enum Request {\n");
    append_variants(out, reqs);
    out.append("\t}\n\n");
    out.append("\timpl Request {\n");
    out.append("\t\tpub fn from_opcode(opcode: u16, args: &[u32], fds: &[u32]) -> Option<Self> {\n");
    let t3 = t(3);
    out.append(t3.as_str());
    out.append("match opcode {\n");
    let ghost base = out@;
    let ghost parts = rv.map(|k: int, r: RequestEventModel| opcode_text(r, k as nat));
    proof {
        lemma_append_all_ends(base, parts);
    }
    let mut k: usize = 0;
    while k < reqs.len()
        invariant
            k <= reqs@.len(),
            rv == reqevents_view(reqs@),
            forall|j: int| 0 <= j < reqs@.len() ==> reqevent_ok(#[trigger] reqs@[j]@),
            parts == rv.map(|k: int, r: RequestEventModel| opcode_text(r, k as nat)),
            parts.len() == reqs@.len(),
            out@ == append_all(base, parts.take(k as int)),
        decreases reqs@.len() - k,
    {
        proof {
            lemma_append_all_step(base, parts, k as int);
            lemma_reqevent_ok_opcode_ok(reqs@[k as int]@);
        }
        let text = output_request_from_opcode(&reqs[k], k);
        out.append(text.as_str());
        k = k + 1;
    }
    proof {
        lemma_append_all_ends(base, parts);
    }
    let t4 = t(4);
    out.append(t4.as_str());
    out.append("_ => None,\n");
    out.append(t3.as_str());
    out.append("}\n");
    out.append("\t\t}\n");
    out.append("\t}\n");
}

/// Appends the `Event` enum to `out`.
fn append_events(out: &mut String, evs: &Vec<RequestEvent>)
    requires
        forall|k: int| 0 <= k < evs@.len() ==> reqevent_ok(#[trigger] evs@[k]@),
    ensures
        final(out)@ == events_text(old(out)@, reqevents_view(evs@)),
{
    if evs.len() == 0 {
        return;
    }
    out.append("\n\tpub enum Event {\n");
    append_variants(out, evs);
    out.append("\t}\n");
}

/// Appends the generated enums to `out`.
fn append_enums(out: &mut String, enums: &Vec<Enum>)
    ensures
        final(out)@ == enums_text(old(out)@, enums_view(enums@)),
{
    let ghost ev = enums_view(enums@);
    let n = enums.len();
    if n > 0 {
        out.append("\n");
    }
    let ghost base = out@;
    let ghost parts = ev.map(|k: int, e: EnumModel| enum_text(e, k < ev.len() - 1));
    proof {
        lemma_append_all_ends(base, parts);
    }
    let mut k: usize = 0;
    while k < n
        invariant
            n == enums@.len(),
            k <= n,
            ev == enums_view(enums@),
            parts == ev.map(|k: int, e: EnumModel| enum_text(e, k < ev.len() - 1)),
            parts.len() == n,
            out@ == append_all(base, parts.take(k as int)),
        decreases n - k,
    {
        proof {
            lemma_append_all_step(base, parts, k as int);
        }
        let text = output_enum(&enums[k], k < n - 1);
        out.append(text.as_str());
        k = k + 1;
    }
    proof {
        lemma_append_all_ends(base, parts);
    }
}

/// The module generated for interface `i`.
fn output_interface(i: &Interface, last: bool) -> (r: String)
    requires
        interface_ok(i@),
    ensures
        r@ == interface_text(i@, last),
{
    let ghost iv = i@;
    let mut output = String::new();
    append_doc(&mut output, &i.description, "");
    output.append("pub mod ");
    output.append(i.name.as_str());
    output.append(" {\n");
    append_uses(&mut output, i);
    output.append("\tpub const VERSION: u32 = ");
    let version = decimal_string(i.version as u64);
    output.append(version.as_str());
    output.append(";\n");
    assert forall|k: int| 0 <= k < i.requests@.len() implies reqevent_ok(
        #[trigger] i.requests@[k]@,
    ) by {
        assert(iv.requests[k] == i.requests@[k]@);
    }
    append_requests(&mut output, &i.requests);
    assert forall|k: int| 0 <= k < i.events@.len() implies reqevent_ok(#[trigger] i.events@[k]@) by {
        assert(iv.events[k] == i.events@[k]@);
    }
    append_events(&mut output, &i.events);
    append_enums(&mut output, &i.enums);
    output.append("}\n");
    if !last {
        output.append("\n");
    }
    output
}

/// The generated source for all of `interfaces`: the string helper, then one
/// module per interface.
pub open spec fn output_text(interfaces: Seq<InterfaceModel>) -> Seq<char> {
    append_all(
        conversion_text(),
        interfaces.map(|k: int, i: InterfaceModel| interface_text(i, k == interfaces.len() - 1)),
    )
}

/// Generates the Rust source for `interfaces`. Every argument summary must
/// start with an ASCII character and every enum reference must have at most
/// one `.`.
pub fn build_output(interfaces: Vec<Interface>) -> (r: String)
    requires
        forall|k: int|
            0 <= k < interfaces@.len() ==> interface_ok(#[trigger] interfaces_view(interfaces@)[k]),
    ensures
        r@ == output_text(interfaces_view(interfaces@)),
{
    let ghost iv = interfaces_view(interfaces@);
    let mut output = String::new();
    let conversion = output_string_conversion();
    output.append(conversion.as_str());
    assert(output@ =~= conversion_text());
    let ghost base = output@;
    let ghost parts = iv.map(|k: int, i: InterfaceModel| interface_text(i, k == iv.len() - 1));
    proof {
        lemma_append_all_ends(base, parts);
    }
    let n = interfaces.len();
    let mut k: usize = 0;
    while k < n
        invariant
            n == interfaces@.len(),
            k <= n,
            iv == interfaces_view(interfaces@),
            forall|j: int| 0 <= j < n ==> interface_ok(#[trigger] iv[j]),
            parts == iv.map(|k: int, i: InterfaceModel| interface_text(i, k == iv.len() - 1)),
            parts.len() == n,
            output@ == append_all(base, parts.take(k as int)),
        decreases n - k,
    {
        proof {
            lemma_append_all_step(base, parts, k as int);
            assert(iv[k as int] == interfaces@[k as int]@);
        }
        let text = output_interface(&interfaces[k], k == n - 1);
        output.append(text.as_str());
        k = k + 1;
    }
    proof {
        lemma_append_all_ends(base, parts);
    }
    output
}

/// Why an interface cannot be written out.
#[derive(Clone, Copy, Debug, PartialEq, Eq, Structural)]
pub enum OutputError {
    /// An argument summary is empty or does not start with an ASCII
    /// character.
    BadSummary,
    /// An enum reference has two or more `.`.
    BadEnumRef,
}

/// What keeps argument `a` from being written out, if anything.
pub open spec fn arg_problem(a: ArgModel) -> Option<OutputError> {
    if !titleable(a.summary) {
        Some(OutputError::BadSummary)
    } else if a.enm matches Some(e) && !enum_ref_ok(e) {
        Some(OutputError::BadEnumRef)
    } else {
        None
    }
}

/// The first problem among `args`, in order.
pub open spec fn args_problem(args: Seq<ArgModel>) -> Option<OutputError>
    decreases args.len(),
{
    if args.len() == 0 {
        None
    } else {
        match args_problem(args.drop_last()) {
            Some(e) => Some(e),
            None => arg_problem(args.last()),
        }
    }
}

/// The first problem among the arguments of `res`, in order.
pub open spec fn reqevents_problem(res: Seq<RequestEventModel>) -> Option<OutputError>
    decreases res.len(),
{
    if res.len() == 0 {
        None
    } else {
        match reqevents_problem(res.drop_last()) {
            Some(e) => Some(e),
            None => args_problem(res.last().args),
        }
    }
}

/// The first problem of interface `i`: its requests, then its events.
pub open spec fn interface_problem(i: InterfaceModel) -> Option<OutputError> {
    match reqevents_problem(i.requests) {
        Some(e) => Some(e),
        None => reqevents_problem(i.events),
    }
}

/// The first problem among `interfaces`, in the order in which they are
/// written out.
pub open spec fn interfaces_problem(interfaces: Seq<InterfaceModel>) -> Option<OutputError>
    decreases interfaces.len(),
{
    if interfaces.len() == 0 {
        None
    } else {
        match interfaces_problem(interfaces.drop_last()) {
            Some(e) => Some(e),
            None => interface_problem(interfaces.last()),
        }
    }
}

proof fn lemma_args_problem(args: Seq<ArgModel>)
    ensures
        args_problem(args) is None <==> forall|k: int| 0 <= k < args.len() ==> arg_ok(#[trigger] args[k]),
    decreases args.len(),
{
    if args.len() > 0 {
        lemma_args_problem(args.drop_last());
        if args_problem(args) is None {
            assert forall|k: int| 0 <= k < args.len() implies arg_ok(#[trigger] args[k]) by {
                if k < args.len() - 1 {
                    assert(args.drop_last()[k] == args[k]);
                }
            }
        } else if forall|k: int| 0 <= k < args.len() ==> arg_ok(#[trigger] args[k]) {
            assert forall|k: int| 0 <= k < args.drop_last().len() implies arg_ok(
                #[trigger] args.drop_last()[k],
            ) by {
                assert(args.drop_last()[k] == args[k]);
            }
            assert(arg_ok(args[args.len() - 1]));
        }
    }
}

proof fn lemma_reqevents_problem(res: Seq<RequestEventModel>)
    ensures
        reqevents_problem(res) is None <==> forall|k: int| 0 <= k < res.len() ==> reqevent_ok(#[trigger] res[k]),
    decreases res.len(),
{
    if res.len() > 0 {
        lemma_reqevents_problem(res.drop_last());
        lemma_args_problem(res.last().args);
        if reqevents_problem(res) is None {
            assert forall|k: int| 0 <= k < res.len() implies reqevent_ok(#[trigger] res[k]) by {
                if k < res.len() - 1 {
                    assert(res.drop_last()[k] == res[k]);
                } else {
                    lemma_args_problem(res[k].args);
                }
            }
        } else if forall|k: int| 0 <= k < res.len() ==> reqevent_ok(#[trigger] res[k]) {
            assert forall|k: int| 0 <= k < res.drop_last().len() implies reqevent_ok(
                #[trigger] res.drop_last()[k],
            ) by {
                assert(res.drop_last()[k] == res[k]);
            }
            assert(reqevent_ok(res[res.len() - 1]));
        }
    }
}

proof fn lemma_interfaces_problem(interfaces: Seq<InterfaceModel>)
    ensures
        interfaces_problem(interfaces) is None <==> forall|k: int|
            0 <= k < interfaces.len() ==> interface_ok(#[trigger] interfaces[k]),
    decreases interfaces.len(),
{
    if interfaces.len() > 0 {
        let last = interfaces.last();
        lemma_interfaces_problem(interfaces.drop_last());
        lemma_reqevents_problem(last.requests);
        lemma_reqevents_problem(last.events);
        if interfaces_problem(interfaces) is None {
            assert forall|k: int| 0 <= k < interfaces.len() implies interface_ok(
                #[trigger] interfaces[k],
            ) by {
                if k < interfaces.len() - 1 {
                    assert(interfaces.drop_last()[k] == interfaces[k]);
                }
            }
        } else if forall|k: int| 0 <= k < interfaces.len() ==> interface_ok(#[trigger] interfaces[k]) {
            assert forall|k: int| 0 <= k < interfaces.drop_last().len() implies interface_ok(
                #[trigger] interfaces.drop_last()[k],
            ) by {
                assert(interfaces.drop_last()[k] == interfaces[k]);
            }
            assert(interface_ok(interfaces[interfaces.len() - 1]));
        }
    }
}

proof fn lemma_args_problem_prefix(s: Seq<ArgModel>, i: int)
    requires
        0 <= i <= s.len(),
        args_problem(s.take(i)) is Some,
    ensures
        args_problem(s) == args_problem(s.take(i)),
    decreases s.len(),
{
    if i == s.len() {
        assert(s.take(i) =~= s);
    } else {
        assert(s.drop_last().take(i) =~= s.take(i));
        lemma_args_problem_prefix(s.drop_last(), i);
    }
}

proof fn lemma_reqevents_problem_prefix(s: Seq<RequestEventModel>, i: int)
    requires
        0 <= i <= s.len(),
        reqevents_problem(s.take(i)) is Some,
    ensures
        reqevents_problem(s) == reqevents_problem(s.take(i)),
    decreases s.len(),
{
    if i == s.len() {
        assert(s.take(i) =~= s);
    } else {
        assert(s.drop_last().take(i) =~= s.take(i));
        lemma_reqevents_problem_prefix(s.drop_last(), i);
    }
}

proof fn lemma_interfaces_problem_prefix(s: Seq<InterfaceModel>, i: int)
    requires
        0 <= i <= s.len(),
        interfaces_problem(s.take(i)) is Some,
    ensures
        interfaces_problem(s) == interfaces_problem(s.take(i)),
    decreases s.len(),
{
    if i == s.len() {
        assert(s.take(i) =~= s);
    } else {
        assert(s.drop_last().take(i) =~= s.take(i));
        lemma_interfaces_problem_prefix(s.drop_last(), i);
    }
}

/// The first problem among `args`.
fn check_args(args: &Vec<Arg>) -> (r: Option<OutputError>)
    ensures
        r == args_problem(args_view(args@)),
{
    let ghost av = args_view(args@);
    let mut k: usize = 0;
    assert(av.take(0) =~= Seq::<ArgModel>::empty());
    while k < args.len()
        invariant
            k <= args@.len(),
            av == args_view(args@),
            args_problem(av.take(k as int)) is None,
        decreases args@.len() - k,
    {
        assert(av.take(k + 1).drop_last() =~= av.take(k as int));
        assert(av.take(k + 1).last() == args@[k as int]@);
        let a = &args[k];
        let summary = a.summary.as_str();
        if summary.unicode_len() == 0 || !(summary.get_char(0) < '\u{80}') {
            proof {
                lemma_args_problem_prefix(av, k + 1);
            }
            return Some(OutputError::BadSummary);
        }
        match &a.enm {
            Some(e) => {
                let parts = split_chars(e.as_str(), '.');
                assert(strings_view(parts@) == split_on(e@, '.'));
                if parts.len() > 2 {
                    proof {
                        lemma_args_problem_prefix(av, k + 1);
                    }
                    return Some(OutputError::BadEnumRef);
                }
            },
            None => {},
        }
        k = k + 1;
    }
    assert(av.take(args@.len() as int) =~= av);
    None
}

/// The first problem among the arguments of `res`.
fn check_reqevents(res: &Vec<RequestEvent>) -> (r: Option<OutputError>)
    ensures
        r == reqevents_problem(reqevents_view(res@)),
{
    let ghost rv = reqevents_view(res@);
    let mut k: usize = 0;
    assert(rv.take(0) =~= Seq::<RequestEventModel>::empty());
    while k < res.len()
        invariant
            k <= res@.len(),
            rv == reqevents_view(res@),
            reqevents_problem(rv.take(k as int)) is None,
        decreases res@.len() - k,
    {
        assert(rv.take(k + 1).drop_last() =~= rv.take(k as int));
        assert(rv.take(k + 1).last() == res@[k as int]@);
        match check_args(&res[k].args) {
            Some(e) => {
                proof {
                    lemma_reqevents_problem_prefix(rv, k + 1);
                }
                return Some(e);
            },
            None => {},
        }
        k = k + 1;
    }
    assert(rv.take(res@.len() as int) =~= rv);
    None
}

/// Checks that `build_output` can write out every interface: `Ok` exactly
/// when every argument summary starts with an ASCII character and every enum
/// reference has at most one `.`; otherwise the first problem in the order in
/// which the output is written.
pub fn check_interfaces(interfaces: &Vec<Interface>) -> (r: Result<(), OutputError>)
    ensures
        match interfaces_problem(interfaces_view(interfaces@)) {
            Some(e) => r == Err::<(), OutputError>(e),
            None => r is Ok,
        },
        r is Ok <==> forall|k: int|
            0 <= k < interfaces@.len() ==> interface_ok(#[trigger] interfaces_view(interfaces@)[k]),
{
    let ghost iv = interfaces_view(interfaces@);
    proof {
        lemma_interfaces_problem(iv);
    }
    let mut k: usize = 0;
    assert(iv.take(0) =~= Seq::<InterfaceModel>::empty());
    while k < interfaces.len()
        invariant
            k <= interfaces@.len(),
            iv == interfaces_view(interfaces@),
            interfaces_problem(iv.take(k as int)) is None,
        decreases interfaces@.len() - k,
    {
        assert(iv.take(k + 1).drop_last() =~= iv.take(k as int));
        assert(iv.take(k + 1).last() == interfaces@[k as int]@);
        match check_reqevents(&interfaces[k].requests) {
            Some(e) => {
                proof {
                    lemma_interfaces_problem_prefix(iv, k + 1);
                    lemma_interfaces_problem(iv);
                }
                return Err(e);
            },
            None => {},
        }
        match check_reqevents(&interfaces[k].events) {
            Some(e) => {
                proof {
                    lemma_interfaces_problem_prefix(iv, k + 1);
                    lemma_interfaces_problem(iv);
                }
                return Err(e);
            },
            None => {},
        }
        k = k + 1;
    }
    assert(iv.take(interfaces@.len() as int) =~= iv);
    Ok(())
}

/// Appending parts keeps the text appended to at the front.
proof fn lemma_append_all_keeps_front(acc: Seq<char>, parts: Seq<Seq<char>>)
    ensures
        append_all(acc, parts).len() >= acc.len(),
        append_all(acc, parts).take(acc.len() as int) == acc,
    decreases parts.len(),
{
    if parts.len() > 0 {
        lemma_append_all_keeps_front(acc, parts.drop_last());
        let p = append_all(acc, parts.drop_last());
        assert((p + parts.last()).take(acc.len() as int) =~= p.take(acc.len() as int));
    }
}

/// Every generated source starts with the string helper.
pub proof fn lemma_output_starts_with_conversion(interfaces: Seq<InterfaceModel>)
    ensures
        output_text(interfaces).len() >= conversion_text().len(),
        output_text(interfaces).take(conversion_text().len() as int) == conversion_text(),
{
    lemma_append_all_keeps_front(
        conversion_text(),
        interfaces.map(|k: int, i: InterfaceModel| interface_text(i, k == interfaces.len() - 1)),
    );
}

/// Whether some argument in `args` names module `m`.
pub open spec fn args_name_module(args: Seq<ArgModel>, m: Seq<char>) -> bool {
    exists|j: int| 0 <= j < args.len() && arg_module(#[trigger] args[j]) == Some(m)
}

/// Whether some argument of a request or event in `res` names module `m`.
pub open spec fn reqevents_name_module(res: Seq<RequestEventModel>, m: Seq<char>) -> bool {
    exists|k: int| 0 <= k < res.len() && args_name_module(#[trigger] res[k].args, m)
}

proof fn lemma_modules_of_args(list: Seq<Seq<char>>, args: Seq<ArgModel>)
    requires
        list.no_duplicates(),
    ensures
        modules_of_args(list, args).no_duplicates(),
        forall|m: Seq<char>|
            #[trigger] modules_of_args(list, args).contains(m) <==> (list.contains(m)
                || args_name_module(args, m)),
    decreases args.len(),
{
    if args.len() > 0 {
        let p = args.drop_last();
        lemma_modules_of_args(list, p);
        let l = modules_of_args(list, p);
        let r = modules_of_args(list, args);
        let am = arg_module(args.last());
        if am is Some {
            let x = am.unwrap();
            if !l.contains(x) {
                assert(r == l.push(x));
                assert forall|a: int, b: int| 0 <= a < b < r.len() implies r[a] != r[b] by {
                    if b == r.len() - 1 {
                        assert(r[a] == l[a]);
                    } else {
                        assert(r[a] == l[a] && r[b] == l[b]);
                    }
                }
            }
        }
        assert forall|m: Seq<char>| #[trigger] r.contains(m) <==> (list.contains(m)
            || args_name_module(args, m)) by {
            if args_name_module(args, m) && !args_name_module(p, m) {
                let j = choose|j: int| 0 <= j < args.len() && arg_module(#[trigger] args[j]) == Some(m);
                if j < p.len() {
                    assert(p[j] == args[j]);
                }
                assert(am == Some(m));
                if !l.contains(m) {
                    assert(r[r.len() - 1] == m);
                }
            }
            if args_name_module(p, m) {
                let j = choose|j: int| 0 <= j < p.len() && arg_module(#[trigger] p[j]) == Some(m);
                assert(args[j] == p[j]);
            }
            if r.contains(m) && !l.contains(m) {
                assert(am == Some(m));
                assert(arg_module(args[args.len() - 1]) == Some(m));
            }
            if l.contains(m) {
                let j = choose|j: int| 0 <= j < l.len() && l[j] == m;
                assert(r[j] == m);
            }
        }
    }
}

proof fn lemma_modules_of(list: Seq<Seq<char>>, res: Seq<RequestEventModel>)
    requires
        list.no_duplicates(),
    ensures
        modules_of(list, res).no_duplicates(),
        forall|m: Seq<char>|
            #[trigger] modules_of(list, res).contains(m) <==> (list.contains(m)
                || reqevents_name_module(res, m)),
    decreases res.len(),
{
    if res.len() > 0 {
        let p = res.drop_last();
        lemma_modules_of(list, p);
        let l = modules_of(list, p);
        lemma_modules_of_args(l, res.last().args);
        assert forall|m: Seq<char>| #[trigger] modules_of(list, res).contains(m) <==> (list.contains(
            m,
        ) || reqevents_name_module(res, m)) by {
            if reqevents_name_module(res, m) && !reqevents_name_module(p, m) {
                let k = choose|k: int| 0 <= k < res.len() && args_name_module(#[trigger] res[k].args, m);
                if k < p.len() {
                    assert(p[k] == res[k]);
                }
            }
            if reqevents_name_module(p, m) {
                let k = choose|k: int| 0 <= k < p.len() && args_name_module(#[trigger] p[k].args, m);
                assert(res[k] == p[k]);
            }
            if args_name_module(res.last().args, m) {
                assert(args_name_module(res[res.len() - 1].args, m));
            }
        }
    }
}

/// The modules that a generated interface module imports are each listed
/// once, and they are exactly the modules named by enum references of the
/// form `module.enum` in its requests and events.
pub proof fn lemma_interface_modules(i: InterfaceModel)
    ensures
        interface_modules(i).no_duplicates(),
        forall|m: Seq<char>|
            #[trigger] interface_modules(i).contains(m) <==> (reqevents_name_module(i.requests, m)
                || reqevents_name_module(i.events, m)),
{
    let e: Seq<Seq<char>> = seq![];
    assert(e.no_duplicates());
    lemma_modules_of(e, i.requests);
    lemma_modules_of(modules_of(e, i.requests), i.events);
}


/// A text ends with what is appended last.
proof fn lemma_suffix_of_append(x: Seq<char>, y: Seq<char>)
    ensures
        y.is_suffix_of(x + y),
{
    assert((x + y).subrange(x.len() as int, (x + y).len() as int) =~= y);
}

/// A text begins with what it was started with.
proof fn lemma_prefix_of_append(x: Seq<char>, y: Seq<char>)
    ensures
        x.is_prefix_of(x + y),
{
    assert((x + y).subrange(0, x.len() as int) =~= x);
}

/// The `from_opcode` decoder of a request enum holds one arm per request, in
/// the order of the interface's request list, and the arm of the request at
/// position `k` is written for opcode `k`: it begins with `k => {` and builds
/// that request.
pub proof fn lemma_request_opcodes_are_positions(acc: Seq<char>, reqs: Seq<RequestEventModel>)
    requires
        reqs.len() > 0,
    ensures
        (append_all(seq![], Seq::new(reqs.len(), |k: int| opcode_text(reqs[k], k as nat))) + tabs(4)
            + "_ => None,\n"@ + tabs(3) + "}\n"@ + "\t\t}\n"@ + "\t}\n"@).is_suffix_of(
            requests_text(acc, reqs),
        ),
        forall|k: int|
            0 <= k < reqs.len() ==> (tabs(4) + decimal(k as nat) + " => {\n"@).is_prefix_of(
                #[trigger] opcode_text(reqs[k], k as nat),
            ),
{
    let arms = Seq::new(reqs.len(), |k: int| opcode_text(reqs[k], k as nat));
    assert(reqs.map(|k: int, r: RequestEventModel| opcode_text(r, k as nat)) =~= arms);
    let pre = append_all(
        acc + "\n\tpub enum Request {\n"@,
        reqs.map_values(|r: RequestEventModel| reqevent_text(r)),
    ) + "\t}\n\n"@ + "\timpl Request {\n"@
        + "\t\tpub fn from_opcode(opcode: u16, args: &[u32], fds: &[u32]) -> Option<Self> {\n"@ + tabs(3)
        + "match opcode {\n"@;
    let post = tabs(4) + "_ => None,\n"@ + tabs(3) + "}\n"@ + "\t\t}\n"@ + "\t}\n"@;
    lemma_append_all_prefix(pre, seq![], arms);
    assert(pre + seq![] =~= pre);
    assert(requests_text(acc, reqs) =~= pre + (append_all(seq![], arms) + post));
    lemma_suffix_of_append(pre, append_all(seq![], arms) + post);
    assert(append_all(seq![], arms) + post =~= append_all(seq![], arms) + tabs(4) + "_ => None,\n"@
        + tabs(3) + "}\n"@ + "\t\t}\n"@ + "\t}\n"@);
    assert forall|k: int| 0 <= k < reqs.len() implies (tabs(4) + decimal(k as nat)
        + " => {\n"@).is_prefix_of(#[trigger] opcode_text(reqs[k], k as nat)) by {
        lemma_arm_starts_with_opcode(reqs[k], k as nat);
    }
}

/// A cursor declaration goes after the text before it.
proof fn lemma_cursor_text_extends(acc: Seq<char>, uses: nat, one: Seq<char>, many: Seq<char>)
    ensures
        acc.is_prefix_of(cursor_text(acc, uses, one, many)),
{
    lemma_prefix_of_append(acc, tabs(5) + one);
    lemma_prefix_of_append(acc, tabs(5) + many);
    assert(acc + tabs(5) + one =~= acc + (tabs(5) + one));
    assert(acc + tabs(5) + many =~= acc + (tabs(5) + many));
    assert(acc.subrange(0, acc.len() as int) =~= acc);
}

/// Prefixes of prefixes are prefixes.
proof fn lemma_prefix_trans(a: Seq<char>, b: Seq<char>, c: Seq<char>)
    requires
        a.is_prefix_of(b),
        b.is_prefix_of(c),
    ensures
        a.is_prefix_of(c),
{
    assert(c.subrange(0, a.len() as int) =~= b.subrange(0, a.len() as int));
}

/// Whatever is appended to a text keeps it in front.
proof fn lemma_append_all_prefix_of(acc: Seq<char>, parts: Seq<Seq<char>>)
    ensures
        acc.is_prefix_of(append_all(acc, parts)),
{
    lemma_append_all_keeps_front(acc, parts);
    assert(append_all(acc, parts).subrange(0, acc.len() as int) =~= append_all(acc, parts).take(
        acc.len() as int,
    ));
}

/// The decoder arm for opcode `n` begins with `n => {`.
proof fn lemma_arm_starts_with_opcode(r: RequestEventModel, n: nat)
    ensures
        (tabs(4) + decimal(n) + " => {\n"@).is_prefix_of(opcode_text(r, n)),
{
    let head = tabs(4) + decimal(n) + " => {\n"@;
    let c0 = cursor_text(head, count_class(r.args, true), "let index = 0usize;\n"@, "let mut index = 0usize;\n"@);
    lemma_cursor_text_extends(head, count_class(r.args, true), "let index = 0usize;\n"@, "let mut index = 0usize;\n"@);
    let h1 = cursor_text(c0, count_class(r.args, false), "let fd_index = 0usize;\n"@, "let mut fd_index = 0usize;\n"@);
    lemma_cursor_text_extends(c0, count_class(r.args, false), "let fd_index = 0usize;\n"@, "let mut fd_index = 0usize;\n"@);
    lemma_prefix_trans(head, c0, h1);
    let g = append_all(h1, opcode_arg_parts(r.args));
    lemma_append_all_prefix_of(h1, opcode_arg_parts(r.args));
    lemma_prefix_trans(head, h1, g);
    let h2 = g + tabs(5) + "Some(Request::"@ + upper_camel(r.name) + " {\n"@;
    assert(h2 =~= g + (tabs(5) + "Some(Request::"@ + upper_camel(r.name) + " {\n"@));
    lemma_prefix_of_append(g, tabs(5) + "Some(Request::"@ + upper_camel(r.name) + " {\n"@);
    lemma_prefix_trans(head, g, h2);
    let f = append_all(h2, r.args.map_values(|a: ArgModel| field_init_text(a)));
    lemma_append_all_prefix_of(h2, r.args.map_values(|a: ArgModel| field_init_text(a)));
    lemma_prefix_trans(head, h2, f);
    let tail = tabs(5) + "})\n"@ + tabs(4) + "}\n"@;
    assert(opcode_text(r, n) =~= f + tail);
    lemma_prefix_of_append(f, tail);
    lemma_prefix_trans(head, f, opcode_text(r, n));
}

/// An argument read out of the message words moves the cursor past the
/// words it read whenever a later argument reads the message words too: the
/// statements for it end with `index += 1;` for a single word and with
/// `index += 1 + <name>_count;` for a string or an array. Likewise a file
/// descriptor followed by another one moves the descriptor cursor. A plain
/// single-word argument is read into a binding of its own name.
pub proof fn lemma_reads_advance_the_cursor(args: Seq<ArgModel>, k: int)
    requires
        0 <= k < args.len(),
    ensures
        ({
            let a = args[k];
            let text = opcode_arg_parts(args)[k];
            &&& (takes_word(a) && exists|j: int| k < j < args.len() && #[trigger] takes_word(args[j]))
                ==> if single_word(a.typ) {
                (tabs(5) + "index += 1;\n"@).is_suffix_of(text)
            } else {
                (tabs(5) + "index += 1 + "@ + a.name + "_count;\n"@).is_suffix_of(text)
            }
            &&& (!takes_word(a) && exists|j: int| k < j < args.len() && !#[trigger] takes_word(args[j]))
                ==> (tabs(5) + "fd_index += 1;\n"@).is_suffix_of(text)
            &&& (takes_word(a) && single_word(a.typ) && !generic_new_id(a)) ==> (tabs(5) + "let "@
                + a.name).is_prefix_of(text)
        }),
{
    let a = args[k];
    let text = opcode_arg_parts(args)[k];
    if takes_word(a) && exists|j: int| k < j < args.len() && #[trigger] takes_word(args[j]) {
        let j = choose|j: int| k < j < args.len() && #[trigger] takes_word(args[j]);
        assert(!last_in_class(args, k, true));
        assert(text == opcode_arg_text(a, false));
        if single_word(a.typ) {
            let w = word_read_text(a, false);
            let read = w.subrange(0, w.len() - (tabs(5) + "index += 1;\n"@).len());
            assert(w =~= read + (tabs(5) + "index += 1;\n"@));
            lemma_suffix_of_append(read, tabs(5) + "index += 1;\n"@);
            if generic_new_id(a) {
                let pre = sized_read_text(a.name + "_interface"@, true, false) + tabs(5) + "let "@
                    + a.name + "_version = args[index];\n"@ + tabs(5) + "index += 1;\n"@;
                assert(text =~= pre + w);
                lemma_suffix_of_append(pre, w);
                assert((pre + w).subrange((pre + w).len() - (tabs(5) + "index += 1;\n"@).len(), (pre + w).len() as int)
                    =~= w.subrange(w.len() - (tabs(5) + "index += 1;\n"@).len(), w.len() as int));
            }
        } else {
            let adv = tabs(5) + "index += 1 + "@ + a.name + "_count;\n"@;
            let sr = sized_read_text(a.name, a.typ == ArgType::String, false);
            let read = sr.subrange(0, sr.len() - adv.len());
            assert(sr =~= read + adv);
            lemma_suffix_of_append(read, adv);
        }
    }
    if !takes_word(a) && exists|j: int| k < j < args.len() && !#[trigger] takes_word(args[j]) {
        let j = choose|j: int| k < j < args.len() && !#[trigger] takes_word(args[j]);
        assert(!last_in_class(args, k, false));
        let read = tabs(5) + "let "@ + a.name + " = fds[fd_index];\n"@;
        lemma_suffix_of_append(read, tabs(5) + "fd_index += 1;\n"@);
    }
    if takes_word(a) && single_word(a.typ) && !generic_new_id(a) {
        let last = last_in_class(args, k, true);
        let p = tabs(5) + "let "@ + a.name;
        let lit = if a.typ == ArgType::Int {
            " = args[index] as i32;\n"@
        } else if a.typ == ArgType::Uint && a.enm is Some {
            " = "@ + enum_type_name(a.enm.unwrap()) + "::from_u32(args[index]).unwrap();\n"@
        } else {
            " = args[index];\n"@
        };
        let tail = if last {
            lit
        } else {
            lit + tabs(5) + "index += 1;\n"@
        };
        assert(text == word_read_text(a, last));
        assert(text =~= p + tail);
        lemma_prefix_of_append(p, tail);
    }
}

/// `s` holds no `sep`, so it is one piece.
proof fn lemma_split_on_single(s: Seq<char>, sep: char)
    requires
        !s.contains(sep),
    ensures
        split_on(s, sep) == seq![s],
    decreases s.len(),
{
    if s.len() > 0 {
        assert(!s.drop_last().contains(sep)) by {
            if s.drop_last().contains(sep) {
                let i = choose|i: int| 0 <= i < s.drop_last().len() && s.drop_last()[i] == sep;
                assert(s[i] == sep);
            }
        }
        lemma_split_on_single(s.drop_last(), sep);
        assert(s[s.len() - 1] != sep);
        let p = split_on(s.drop_last(), sep);
        assert(p == seq![s.drop_last()]);
        assert(p.len() == 1);
        assert(p.last() == s.drop_last());
        assert(s.drop_last().push(s.last()) =~= s);
        assert(split_on(s, sep) == p.update(0, p.last().push(s.last())));
        assert(split_on(s, sep) =~= seq![s]);
    } else {
        assert(s =~= Seq::<char>::empty());
        assert(split_on(s, sep) =~= seq![s]);
    }
}

/// Splitting `x`, a `sep`, then `y` without `sep` gives the pieces of `x`
/// followed by `y`.
proof fn lemma_split_on_after_sep(x: Seq<char>, sep: char, y: Seq<char>)
    requires
        !y.contains(sep),
    ensures
        split_on(x + seq![sep] + y, sep) == split_on(x, sep).push(y),
    decreases y.len(),
{
    let s = x + seq![sep] + y;
    if y.len() == 0 {
        assert(s.drop_last() =~= x);
        assert(s.last() == sep);
        assert(y =~= Seq::<char>::empty());
        assert(split_on(s, sep) =~= split_on(x, sep).push(y));
    } else {
        assert(!y.drop_last().contains(sep)) by {
            if y.drop_last().contains(sep) {
                let i = choose|i: int| 0 <= i < y.drop_last().len() && y.drop_last()[i] == sep;
                assert(y[i] == sep);
            }
        }
        lemma_split_on_after_sep(x, sep, y.drop_last());
        assert(s.drop_last() =~= x + seq![sep] + y.drop_last());
        assert(y[y.len() - 1] != sep);
        assert(s.last() == y.last());
        assert(y.drop_last().push(y.last()) =~= y);
        lemma_split_on_nonempty(x, sep);
        let p = split_on(s.drop_last(), sep);
        assert(p == split_on(x, sep).push(y.drop_last()));
        assert(p.last() == y.drop_last());
        assert(split_on(s, sep) == p.update(p.len() - 1, p.last().push(s.last())));
        assert(split_on(s, sep) =~= split_on(x, sep).push(y));
    }
}

/// An enum reference names the type that the enum it refers to is declared
/// with. A bare reference `name` (no `.`) names `upper_camel(name)`, which
/// holds no underscore, and the generated declaration of the enum called
/// `name` reads `pub enum` followed by that same type name. A reference
/// `module.name` names `module::` followed by that type name.
pub proof fn lemma_enum_reference_names_declared_type(e: EnumModel, more: bool, module: Seq<char>)
    requires
        !e.name.contains('.'),
        !module.contains('.'),
    ensures
        enum_type_name(e.name) == upper_camel(e.name),
        forall|k: int|
            0 <= k < enum_type_name(e.name).len() ==> #[trigger] enum_type_name(e.name)[k] != '_',
        (append_all(seq![], doc_lines(e.description, "\t"@)) + "\t#[repr(u32)]\n"@ + "\tpub enum "@
            + enum_type_name(e.name) + " {\n"@).is_prefix_of(enum_text(e, more)),
        enum_type_name(module + "."@ + e.name) == module + "::"@ + enum_type_name(e.name),
{
    lemma_split_on_single(e.name, '.');
    lemma_upper_camel_laws(e.name);
    let n = upper_camel(e.name);
    let a = append_all(seq![], doc_lines(e.description, "\t"@)) + "\t#[repr(u32)]\n"@ + "\tpub enum "@
        + n + " {\n"@;
    let b0 = append_all(a, e.values.map_values(|v: EnumEntryModel| entry_variant_text(n, v)));
    lemma_append_all_keeps_front(a, e.values.map_values(|v: EnumEntryModel| entry_variant_text(n, v)));
    let b = b0 + "\t}\n\n"@ + "\timpl "@ + n + " {\n"@ + "\t\tpub fn from_u32(value: u32) -> Option<Self> {\n"@
        + "\t\t\tmatch value {\n"@;
    assert(b.subrange(0, a.len() as int) =~= a);
    let c0 = append_all(b, e.values.map_values(|v: EnumEntryModel| entry_arm_text(n, v)));
    lemma_append_all_keeps_front(b, e.values.map_values(|v: EnumEntryModel| entry_arm_text(n, v)));
    assert(c0.subrange(0, a.len() as int) =~= a);
    let c = c0 + "\t\t\t\t_ => None,\n"@ + "\t\t\t}\n"@ + "\t\t}\n"@ + "\t}\n"@;
    assert(c.subrange(0, a.len() as int) =~= a);
    assert((c + "\n"@).subrange(0, a.len() as int) =~= a);
    reveal_strlit(".");
    assert("."@ =~= seq!['.']);
    assert(module + "."@ + e.name =~= module + seq!['.'] + e.name);
    lemma_split_on_after_sep(module, '.', e.name);
    lemma_split_on_single(module, '.');
    assert(split_on(module + "."@ + e.name, '.') =~= seq![module, e.name]);
}

} // verus!
