//! Reading a protocol description from the events of an XML reader.
use vstd::prelude::*;
use vstd::utf8::{decode_utf8, valid_utf8};
use crate::format::{formatted_documentation, format_documentation, sanitize_enum_entry_name, sanitized_entry_name};
use crate::text::{parse_u32, parsed_u32, str_equal, trim_ascii, trim_ascii_bytes};
use crate::wl_types::{
    arg_type_named, args_view, entries_view, enums_view, interfaces_view, reqevents_view, Arg, ArgModel,
    ArgType, Description, DescriptionModel, Enum, EnumEntry, EnumEntryModel, EnumModel, Interface,
    InterfaceModel, RequestEvent, RequestEventModel,
};
use crate::xml::{attr_value, attrs_view, try_find_attr, utf8_string, XmlError};

verus! {

/// An element whose closing tag has not been read yet.
pub enum ElementType {
    Interface(Interface),
    ReqEvent(RequestEvent),
    Enum(Enum),
    Description(Description),
}

/// Model of an `ElementType`.
pub ghost enum ElementModel {
    Interface(InterfaceModel),
    ReqEvent(RequestEventModel),
    Enum(EnumModel),
    Description(DescriptionModel),
}

impl View for ElementType {
    type V = ElementModel;

    open spec fn view(&self) -> ElementModel {
        match self {
            ElementType::Interface(i) => ElementModel::Interface(i@),
            ElementType::ReqEvent(r) => ElementModel::ReqEvent(r@),
            ElementType::Enum(e) => ElementModel::Enum(e@),
            ElementType::Description(d) => ElementModel::Description(d@),
        }
    }
}

/// Models of a sequence of open elements.
pub open spec fn elements_view(s: Seq<ElementType>) -> Seq<ElementModel> {
    s.map_values(|e: ElementType| e@)
}

/// The four kinds of open element.
#[derive(Clone, Copy, Debug, PartialEq, Eq, Structural)]
pub enum ElementKind {
    Interface,
    ReqEvent,
    Enum,
    Description,
}

/// The kind of an open element.
pub open spec fn kind_of(e: ElementModel) -> ElementKind {
    match e {
        ElementModel::Interface(_) => ElementKind::Interface,
        ElementModel::ReqEvent(_) => ElementKind::ReqEvent,
        ElementModel::Enum(_) => ElementKind::Enum,
        ElementModel::Description(_) => ElementKind::Description,
    }
}

/// Position of the last element of kind `k`, or -1 if there is none.
pub open spec fn last_of_kind(elems: Seq<ElementModel>, k: ElementKind) -> int
    decreases elems.len(),
{
    if elems.len() == 0 {
        -1
    } else if kind_of(elems.last()) == k {
        elems.len() - 1
    } else {
        last_of_kind(elems.drop_last(), k)
    }
}

/// An attribute that a protocol element must carry.
#[derive(Clone, Copy, Debug, PartialEq, Eq, Structural)]
pub enum AttrName {
    Name,
    Version,
    Summary,
    Type,
    Value,
}

/// Why a protocol description could not be read.
#[derive(Clone, Copy, Debug, PartialEq, Eq, Structural)]
pub enum ScanError {
    /// A tag name or a text is not valid UTF-8.
    InvalidUtf8,
    /// The attributes of a tag could not be read.
    Attributes(XmlError),
    /// An interface version is not a decimal `u32`.
    InvalidVersion,
    /// A required attribute is missing.
    MissingAttribute(AttrName),
    /// An `allow-null` attribute is neither `true` nor `false`.
    InvalidAllowNull,
    /// An argument type is not one of the wire types.
    UnknownArgType,
    /// An enum entry has an empty name.
    EmptyEntryName,
    /// An argument stands outside any request or event.
    NoOpenRequestEvent,
    /// An enum entry stands outside any enum.
    NoOpenEnum,
    /// Text inside a description tag, with no open description.
    NoOpenDescription,
    /// A request, event or enum closes outside any interface.
    NoOpenInterface,
    /// An interface closes that was never opened.
    NoInterfaceToTake,
    /// A request or event closes that was never opened.
    NoRequestEventToTake,
    /// An enum closes that was never opened.
    NoEnumToTake,
    /// A description closes that was never opened.
    NoDescriptionToTake,
    /// A description closes with no element left to carry it.
    NoLastElement,
}

/// `e` with description `d`; a description is left as it is.
pub open spec fn with_description(e: ElementModel, d: DescriptionModel) -> ElementModel {
    match e {
        ElementModel::Interface(i) => ElementModel::Interface(
            InterfaceModel { description: Some(d), ..i },
        ),
        ElementModel::ReqEvent(r) => ElementModel::ReqEvent(
            RequestEventModel { description: Some(d), ..r },
        ),
        ElementModel::Enum(x) => ElementModel::Enum(EnumModel { description: Some(d), ..x }),
        ElementModel::Description(x) => ElementModel::Description(x),
    }
}

/// A request or event `e` with one more argument.
pub open spec fn with_arg(e: ElementModel, a: ArgModel) -> ElementModel {
    match e {
        ElementModel::ReqEvent(r) => ElementModel::ReqEvent(
            RequestEventModel { args: r.args.push(a), ..r },
        ),
        other => other,
    }
}

/// An enum `e` with one more entry.
pub open spec fn with_entry(e: ElementModel, x: EnumEntryModel) -> ElementModel {
    match e {
        ElementModel::Enum(n) => ElementModel::Enum(EnumModel { values: n.values.push(x), ..n }),
        other => other,
    }
}

/// A description `e` with its text set to `text`.
pub open spec fn with_content(e: ElementModel, text: Seq<char>) -> ElementModel {
    match e {
        ElementModel::Description(d) => ElementModel::Description(
            DescriptionModel { content: Some(text), ..d },
        ),
        other => other,
    }
}

/// An interface `e` with one more request.
pub open spec fn with_request(e: ElementModel, r: RequestEventModel) -> ElementModel {
    match e {
        ElementModel::Interface(i) => ElementModel::Interface(
            InterfaceModel { requests: i.requests.push(r), ..i },
        ),
        other => other,
    }
}

/// An interface `e` with one more event.
pub open spec fn with_event(e: ElementModel, r: RequestEventModel) -> ElementModel {
    match e {
        ElementModel::Interface(i) => ElementModel::Interface(
            InterfaceModel { events: i.events.push(r), ..i },
        ),
        other => other,
    }
}

/// An interface `e` with one more enum.
pub open spec fn with_enum(e: ElementModel, x: EnumModel) -> ElementModel {
    match e {
        ElementModel::Interface(i) => ElementModel::Interface(
            InterfaceModel { enums: i.enums.push(x), ..i },
        ),
        other => other,
    }
}

/// The last description is taken off the open elements and given to the
/// element that is then last.
pub open spec fn attach_description(elems: Seq<ElementModel>) -> Result<
    Seq<ElementModel>,
    ScanError,
> {
    let i = last_of_kind(elems, ElementKind::Description);
    if i < 0 {
        Err(ScanError::NoDescriptionToTake)
    } else {
        let rest = elems.remove(i);
        if rest.len() == 0 {
            Err(ScanError::NoLastElement)
        } else {
            Ok(
                rest.update(
                    rest.len() - 1,
                    with_description(rest.last(), elems[i]->Description_0),
                ),
            )
        }
    }
}

/// The open elements of a protocol description, innermost last, and the
/// interfaces read so far.
pub struct Stack {
    pub elements: Vec<ElementType>,
    pub interfaces: Vec<Interface>,
}

impl Stack {
    /// The position of the last open element of kind `kind`.
    pub fn last_position(&self, kind: ElementKind) -> (r: Option<usize>)
        ensures
            match r {
                Some(i) => i == last_of_kind(elements_view(self.elements@), kind),
                None => last_of_kind(elements_view(self.elements@), kind) == -1,
            },
    {
        let ghost v = elements_view(self.elements@);
        let mut i: usize = self.elements.len();
        assert(v.take(i as int) =~= v);
        while i > 0
            invariant
                v == elements_view(self.elements@),
                i <= self.elements@.len(),
                last_of_kind(v, kind) == last_of_kind(v.take(i as int), kind),
            decreases i,
        {
            let k = match &self.elements[i - 1] {
                ElementType::Interface(_) => ElementKind::Interface,
                ElementType::ReqEvent(_) => ElementKind::ReqEvent,
                ElementType::Enum(_) => ElementKind::Enum,
                ElementType::Description(_) => ElementKind::Description,
            };
            assert(v.take(i as int).last() == v[i - 1]);
            assert(v.take(i as int).drop_last() =~= v.take(i - 1));
            if k == kind {
                return Some(i - 1);
            }
            i = i - 1;
        }
        None
    }

    /// The innermost open element, to be changed in place; there must be one.
    pub fn last(&mut self) -> (r: &mut ElementType)
        requires
            old(self).elements@.len() > 0,
        ensures
            *r == old(self).elements@.last(),
            final(self).elements@ == old(self).elements@.update(
                old(self).elements@.len() - 1,
                *final(r),
            ),
            final(self).interfaces == old(self).interfaces,
    {
        let n = self.elements.len();
        &mut self.elements[n - 1]
    }

    /// The last open interface, to be changed in place; there must be one.
    pub fn last_interface(&mut self) -> (r: &mut Interface)
        requires
            last_of_kind(elements_view(old(self).elements@), ElementKind::Interface) >= 0,
        ensures
            ({
                let i = last_of_kind(elements_view(old(self).elements@), ElementKind::Interface);
                &&& elements_view(old(self).elements@)[i] == ElementModel::Interface(r@)
                &&& elements_view(final(self).elements@) == elements_view(
                    old(self).elements@,
                ).update(i, ElementModel::Interface(final(r)@))
            }),
            final(self).interfaces == old(self).interfaces,
    {
        let i = match self.last_position(ElementKind::Interface) {
            Some(i) => i,
            None => return unreached(),
        };
        proof { lemma_last_of_kind_is(elements_view(self.elements@), ElementKind::Interface); }
        match &mut self.elements[i] {
            ElementType::Interface(x) => x,
            _ => unreached(),
        }
    }

    /// The last open request or event, to be changed in place; there must be one.
    pub fn last_reqevent(&mut self) -> (r: &mut RequestEvent)
        requires
            last_of_kind(elements_view(old(self).elements@), ElementKind::ReqEvent) >= 0,
        ensures
            ({
                let i = last_of_kind(elements_view(old(self).elements@), ElementKind::ReqEvent);
                &&& elements_view(old(self).elements@)[i] == ElementModel::ReqEvent(r@)
                &&& elements_view(final(self).elements@) == elements_view(
                    old(self).elements@,
                ).update(i, ElementModel::ReqEvent(final(r)@))
            }),
            final(self).interfaces == old(self).interfaces,
    {
        let i = match self.last_position(ElementKind::ReqEvent) {
            Some(i) => i,
            None => return unreached(),
        };
        proof { lemma_last_of_kind_is(elements_view(self.elements@), ElementKind::ReqEvent); }
        match &mut self.elements[i] {
            ElementType::ReqEvent(x) => x,
            _ => unreached(),
        }
    }

    /// The last open enum, to be changed in place; there must be one.
    pub fn last_enum(&mut self) -> (r: &mut Enum)
        requires
            last_of_kind(elements_view(old(self).elements@), ElementKind::Enum) >= 0,
        ensures
            ({
                let i = last_of_kind(elements_view(old(self).elements@), ElementKind::Enum);
                &&& elements_view(old(self).elements@)[i] == ElementModel::Enum(r@)
                &&& elements_view(final(self).elements@) == elements_view(
                    old(self).elements@,
                ).update(i, ElementModel::Enum(final(r)@))
            }),
            final(self).interfaces == old(self).interfaces,
    {
        let i = match self.last_position(ElementKind::Enum) {
            Some(i) => i,
            None => return unreached(),
        };
        proof { lemma_last_of_kind_is(elements_view(self.elements@), ElementKind::Enum); }
        match &mut self.elements[i] {
            ElementType::Enum(x) => x,
            _ => unreached(),
        }
    }

    /// The last open description, to be changed in place; there must be one.
    pub fn last_description(&mut self) -> (r: &mut Description)
        requires
            last_of_kind(elements_view(old(self).elements@), ElementKind::Description) >= 0,
        ensures
            ({
                let i = last_of_kind(elements_view(old(self).elements@), ElementKind::Description);
                &&& elements_view(old(self).elements@)[i] == ElementModel::Description(r@)
                &&& elements_view(final(self).elements@) == elements_view(
                    old(self).elements@,
                ).update(i, ElementModel::Description(final(r)@))
            }),
            final(self).interfaces == old(self).interfaces,
    {
        let i = match self.last_position(ElementKind::Description) {
            Some(i) => i,
            None => return unreached(),
        };
        proof { lemma_last_of_kind_is(elements_view(self.elements@), ElementKind::Description); }
        match &mut self.elements[i] {
            ElementType::Description(x) => x,
            _ => unreached(),
        }
    }

    /// Removes and returns the open element at position `i`.
    fn take_at(&mut self, i: usize) -> (r: ElementType)
        requires
            i < old(self).elements@.len(),
        ensures
            r == old(self).elements@[i as int],
            final(self).elements@ == old(self).elements@.remove(i as int),
            elements_view(final(self).elements@) == elements_view(old(self).elements@).remove(
                i as int,
            ),
            final(self).interfaces == old(self).interfaces,
    {
        let r = self.elements.remove(i);
        assert(elements_view(self.elements@) =~= elements_view(old(self).elements@).remove(
            i as int,
        ));
        r
    }

    /// Removes and returns the last open interface; there must be one.
    pub fn take_last_interface(&mut self) -> (r: Interface)
        requires
            last_of_kind(elements_view(old(self).elements@), ElementKind::Interface) >= 0,
        ensures
            ({
                let i = last_of_kind(elements_view(old(self).elements@), ElementKind::Interface);
                &&& elements_view(old(self).elements@)[i] == ElementModel::Interface(r@)
                &&& elements_view(final(self).elements@) == elements_view(
                    old(self).elements@,
                ).remove(i)
            }),
            final(self).interfaces == old(self).interfaces,
    {
        let i = match self.last_position(ElementKind::Interface) {
            Some(i) => i,
            None => return unreached(),
        };
        proof { lemma_last_of_kind_is(elements_view(self.elements@), ElementKind::Interface); }
        match self.take_at(i) {
            ElementType::Interface(x) => x,
            _ => unreached(),
        }
    }

    /// Removes and returns the last open request or event; there must be one.
    pub fn take_last_reqevent(&mut self) -> (r: RequestEvent)
        requires
            last_of_kind(elements_view(old(self).elements@), ElementKind::ReqEvent) >= 0,
        ensures
            ({
                let i = last_of_kind(elements_view(old(self).elements@), ElementKind::ReqEvent);
                &&& elements_view(old(self).elements@)[i] == ElementModel::ReqEvent(r@)
                &&& elements_view(final(self).elements@) == elements_view(
                    old(self).elements@,
                ).remove(i)
            }),
            final(self).interfaces == old(self).interfaces,
    {
        let i = match self.last_position(ElementKind::ReqEvent) {
            Some(i) => i,
            None => return unreached(),
        };
        proof { lemma_last_of_kind_is(elements_view(self.elements@), ElementKind::ReqEvent); }
        match self.take_at(i) {
            ElementType::ReqEvent(x) => x,
            _ => unreached(),
        }
    }

    /// Removes and returns the last open enum; there must be one.
    pub fn take_last_enum(&mut self) -> (r: Enum)
        requires
            last_of_kind(elements_view(old(self).elements@), ElementKind::Enum) >= 0,
        ensures
            ({
                let i = last_of_kind(elements_view(old(self).elements@), ElementKind::Enum);
                &&& elements_view(old(self).elements@)[i] == ElementModel::Enum(r@)
                &&& elements_view(final(self).elements@) == elements_view(
                    old(self).elements@,
                ).remove(i)
            }),
            final(self).interfaces == old(self).interfaces,
    {
        let i = match self.last_position(ElementKind::Enum) {
            Some(i) => i,
            None => return unreached(),
        };
        proof { lemma_last_of_kind_is(elements_view(self.elements@), ElementKind::Enum); }
        match self.take_at(i) {
            ElementType::Enum(x) => x,
            _ => unreached(),
        }
    }

    /// Removes and returns the last open description; there must be one.
    pub fn take_last_description(&mut self) -> (r: Description)
        requires
            last_of_kind(elements_view(old(self).elements@), ElementKind::Description) >= 0,
        ensures
            ({
                let i = last_of_kind(elements_view(old(self).elements@), ElementKind::Description);
                &&& elements_view(old(self).elements@)[i] == ElementModel::Description(r@)
                &&& elements_view(final(self).elements@) == elements_view(
                    old(self).elements@,
                ).remove(i)
            }),
            final(self).interfaces == old(self).interfaces,
    {
        let i = match self.last_position(ElementKind::Description) {
            Some(i) => i,
            None => return unreached(),
        };
        proof { lemma_last_of_kind_is(elements_view(self.elements@), ElementKind::Description); }
        match self.take_at(i) {
            ElementType::Description(x) => x,
            _ => unreached(),
        }
    }

    /// Takes the last open description and gives it to the element that is
    /// then last (an interface, a request or event, or an enum; a description
    /// there is left unchanged). There must be an open description and at
    /// least one other open element.
    pub fn update_element_description(&mut self)
        requires
            last_of_kind(elements_view(old(self).elements@), ElementKind::Description) >= 0,
            old(self).elements@.len() >= 2,
        ensures
            attach_description(elements_view(old(self).elements@)) is Ok,
            elements_view(final(self).elements@) == attach_description(
                elements_view(old(self).elements@),
            )->Ok_0,
            final(self).interfaces == old(self).interfaces,
    {
        proof {
            lemma_last_of_kind_is(elements_view(self.elements@), ElementKind::Description);
        }
        let desc = self.take_last_description();
        let ghost before = self.elements@;
        let n = self.elements.len();
        match self.last() {
            ElementType::Interface(i) => {
                i.description = Some(desc);
            },
            ElementType::ReqEvent(re) => {
                re.description = Some(desc);
            },
            ElementType::Enum(e) => {
                e.description = Some(desc);
            },
            _ => {},
        }
        proof {
            assert(elements_view(self.elements@) =~= elements_view(before).update(
                n - 1,
                with_description(elements_view(before).last(), desc@),
            ));
        }
    }

    /// Gives the last open description to the element that is then last, or
    /// says why it cannot: there is no open description, or no other open
    /// element to carry it.
    fn attach_last_description(&mut self) -> (r: Result<(), ScanError>)
        ensures
            match attach_description(elements_view(old(self).elements@)) {
                Ok(e) => r is Ok && elements_view(final(self).elements@) == e,
                Err(e) => r == Err::<(), ScanError>(e),
            },
            final(self).interfaces == old(self).interfaces,
    {
        proof {
            lemma_last_of_kind_is(elements_view(self.elements@), ElementKind::Description);
        }
        if self.last_position(ElementKind::Description).is_none() {
            return Err(ScanError::NoDescriptionToTake);
        }
        if self.elements.len() < 2 {
            return Err(ScanError::NoLastElement);
        }
        self.update_element_description();
        Ok(())
    }
}

/// The last element of kind `k`, where there is one, is of kind `k`.
proof fn lemma_last_of_kind_is(elems: Seq<ElementModel>, k: ElementKind)
    ensures
        -1 <= last_of_kind(elems, k) < elems.len(),
        last_of_kind(elems, k) >= 0 ==> kind_of(elems[last_of_kind(elems, k)]) == k,
    decreases elems.len(),
{
    if elems.len() > 0 && kind_of(elems.last()) != k {
        lemma_last_of_kind_is(elems.drop_last(), k);
    }
}

/// There is an element of kind `k` exactly where `last_of_kind` finds one.
proof fn lemma_last_of_kind_present(elems: Seq<ElementModel>, k: ElementKind)
    ensures
        last_of_kind(elems, k) >= 0 <==> exists|j: int|
            0 <= j < elems.len() && #[trigger] kind_of(elems[j]) == k,
    decreases elems.len(),
{
    if elems.len() > 0 {
        let init = elems.drop_last();
        lemma_last_of_kind_present(init, k);
        if kind_of(elems.last()) != k {
            if exists|j: int| 0 <= j < elems.len() && #[trigger] kind_of(elems[j]) == k {
                let j = choose|j: int| 0 <= j < elems.len() && #[trigger] kind_of(elems[j]) == k;
                assert(kind_of(init[j]) == k);
            }
            if exists|j: int| 0 <= j < init.len() && #[trigger] kind_of(init[j]) == k {
                let j = choose|j: int| 0 <= j < init.len() && #[trigger] kind_of(init[j]) == k;
                assert(kind_of(elems[j]) == k);
            }
        } else {
            assert(kind_of(elems[elems.len() - 1]) == k);
        }
    }
}

/// Removing an element of another kind keeps whether one of kind `k` is open.
proof fn lemma_last_of_kind_after_remove(elems: Seq<ElementModel>, i: int, k: ElementKind)
    requires
        0 <= i < elems.len(),
        kind_of(elems[i]) != k,
    ensures
        (last_of_kind(elems.remove(i), k) >= 0) == (last_of_kind(elems, k) >= 0),
{
    let rest = elems.remove(i);
    lemma_last_of_kind_present(elems, k);
    lemma_last_of_kind_present(rest, k);
    if exists|j: int| 0 <= j < elems.len() && #[trigger] kind_of(elems[j]) == k {
        let j = choose|j: int| 0 <= j < elems.len() && #[trigger] kind_of(elems[j]) == k;
        if j < i {
            assert(kind_of(rest[j]) == k);
        } else {
            assert(kind_of(rest[j - 1]) == k);
        }
    }
    if exists|j: int| 0 <= j < rest.len() && #[trigger] kind_of(rest[j]) == k {
        let j = choose|j: int| 0 <= j < rest.len() && #[trigger] kind_of(rest[j]) == k;
        if j < i {
            assert(kind_of(elems[j]) == k);
        } else {
            assert(kind_of(elems[j + 1]) == k);
        }
    }
}

/// What comes after an event: more events, or the end of the document.
#[derive(Clone, Copy, Debug, PartialEq, Eq, Structural)]
pub enum Step {
    Continue,
    Finished,
}

/// An event of an XML reader, with the values that the scanner reads.
pub enum XmlEvent {
    /// An opening tag: its raw name, whether the tag's raw content is empty,
    /// and its attributes.
    Start {
        name: Vec<u8>,
        content_empty: bool,
        attributes: Result<Vec<(String, String)>, XmlError>,
    },
    /// An empty-element tag: its raw name and its attributes.
    Empty { name: Vec<u8>, attributes: Result<Vec<(String, String)>, XmlError> },
    /// Character data, raw.
    Text(Vec<u8>),
    /// A closing tag: its raw name.
    End(Vec<u8>),
    /// CDATA, a comment, a declaration, a processing instruction or a
    /// doctype.
    Other,
    /// The end of the document.
    Eof,
}

/// Model of the attributes carried by an event.
pub open spec fn attrs_result_view(a: Result<Vec<(String, String)>, XmlError>) -> Result<
    Seq<(Seq<char>, Seq<char>)>,
    XmlError,
> {
    match a {
        Ok(v) => Ok(attrs_view(v@)),
        Err(e) => Err(e),
    }
}

/// Model of an `XmlEvent`.
pub ghost enum XmlEventModel {
    Start {
        name: Seq<u8>,
        content_empty: bool,
        attributes: Result<Seq<(Seq<char>, Seq<char>)>, XmlError>,
    },
    Empty { name: Seq<u8>, attributes: Result<Seq<(Seq<char>, Seq<char>)>, XmlError> },
    Text(Seq<u8>),
    End(Seq<u8>),
    Other,
    Eof,
}

impl View for XmlEvent {
    type V = XmlEventModel;

    open spec fn view(&self) -> XmlEventModel {
        match self {
            XmlEvent::Start { name, content_empty, attributes } => XmlEventModel::Start {
                name: name@,
                content_empty: *content_empty,
                attributes: attrs_result_view(*attributes),
            },
            XmlEvent::Empty { name, attributes } => XmlEventModel::Empty {
                name: name@,
                attributes: attrs_result_view(*attributes),
            },
            XmlEvent::Text(b) => XmlEventModel::Text(b@),
            XmlEvent::End(b) => XmlEventModel::End(b@),
            XmlEvent::Other => XmlEventModel::Other,
            XmlEvent::Eof => XmlEventModel::Eof,
        }
    }
}

/// Model of a `Scanner`: the open elements, the interfaces read so far and
/// the names of the tags that are open.
pub ghost struct ScannerModel {
    pub elements: Seq<ElementModel>,
    pub interfaces: Seq<InterfaceModel>,
    pub open_tags: Seq<Seq<char>>,
}

/// Whether an opening tag called `tag` opens a protocol element.
pub open spec fn opens_element(tag: Seq<char>) -> bool {
    tag == "interface"@ || tag == "request"@ || tag == "event"@ || tag == "enum"@ || tag
        == "description"@
}

/// The element that the opening tag `tag` with attributes `a` opens; `tag`
/// is one of those that `opens_element` accepts.
pub open spec fn opened_element(tag: Seq<char>, a: Seq<(Seq<char>, Seq<char>)>) -> Result<
    ElementModel,
    ScanError,
> {
    if tag == "interface"@ {
        match attr_value(a, "name"@) {
            None => Err(ScanError::MissingAttribute(AttrName::Name)),
            Some(name) => match attr_value(a, "version"@) {
                None => Err(ScanError::MissingAttribute(AttrName::Version)),
                Some(v) => match parsed_u32(v) {
                    None => Err(ScanError::InvalidVersion),
                    Some(version) => Ok(
                        ElementModel::Interface(
                            InterfaceModel {
                                name,
                                version,
                                description: None,
                                requests: seq![],
                                events: seq![],
                                enums: seq![],
                            },
                        ),
                    ),
                },
            },
        }
    } else if tag == "request"@ || tag == "event"@ {
        match attr_value(a, "name"@) {
            None => Err(ScanError::MissingAttribute(AttrName::Name)),
            Some(name) => Ok(
                ElementModel::ReqEvent(RequestEventModel { name, description: None, args: seq![] }),
            ),
        }
    } else if tag == "enum"@ {
        match attr_value(a, "name"@) {
            None => Err(ScanError::MissingAttribute(AttrName::Name)),
            Some(name) => Ok(
                ElementModel::Enum(EnumModel { name, description: None, values: seq![] }),
            ),
        }
    } else {
        match attr_value(a, "summary"@) {
            None => Err(ScanError::MissingAttribute(AttrName::Summary)),
            Some(summary) => Ok(
                ElementModel::Description(DescriptionModel { summary, content: None }),
            ),
        }
    }
}

/// The effect of an opening tag.
pub open spec fn start_step(
    s: ScannerModel,
    name: Seq<u8>,
    content_empty: bool,
    attributes: Result<Seq<(Seq<char>, Seq<char>)>, XmlError>,
) -> Result<ScannerModel, ScanError> {
    if !valid_utf8(name) {
        Err(ScanError::InvalidUtf8)
    } else {
        let tag = decode_utf8(name);
        let s1 = if content_empty {
            s
        } else {
            ScannerModel { open_tags: s.open_tags.push(tag), ..s }
        };
        if opens_element(tag) {
            match attributes {
                Err(e) => Err(ScanError::Attributes(e)),
                Ok(a) => match opened_element(tag, a) {
                    Err(e) => Err(e),
                    Ok(el) => Ok(ScannerModel { elements: s1.elements.push(el), ..s1 }),
                },
            }
        } else {
            Ok(s1)
        }
    }
}

/// The `allow-null` attribute: `false` where it is absent.
pub open spec fn allow_null_value(a: Seq<(Seq<char>, Seq<char>)>) -> Result<bool, ScanError> {
    match attr_value(a, "allow-null"@) {
        None => Ok(false),
        Some(v) => if v == "true"@ {
            Ok(true)
        } else if v == "false"@ {
            Ok(false)
        } else {
            Err(ScanError::InvalidAllowNull)
        },
    }
}

/// The open elements after an `arg` tag with attributes `a`: the argument
/// goes to the last open request or event.
pub open spec fn arg_step(elems: Seq<ElementModel>, a: Seq<(Seq<char>, Seq<char>)>) -> Result<
    Seq<ElementModel>,
    ScanError,
> {
    match attr_value(a, "name"@) {
        None => Err(ScanError::MissingAttribute(AttrName::Name)),
        Some(name) => match attr_value(a, "type"@) {
            None => Err(ScanError::MissingAttribute(AttrName::Type)),
            Some(typ) => match attr_value(a, "summary"@) {
                None => Err(ScanError::MissingAttribute(AttrName::Summary)),
                Some(summary) => match allow_null_value(a) {
                    Err(e) => Err(e),
                    Ok(allow_null) => {
                        let j = last_of_kind(elems, ElementKind::ReqEvent);
                        if j < 0 {
                            Err(ScanError::NoOpenRequestEvent)
                        } else {
                            match arg_type_named(typ) {
                                None => Err(ScanError::UnknownArgType),
                                Some(t) => Ok(
                                    elems.update(
                                        j,
                                        with_arg(
                                            elems[j],
                                            ArgModel {
                                                name,
                                                typ: t,
                                                summary,
                                                enm: attr_value(a, "enum"@),
                                                allow_null,
                                                interface: attr_value(a, "interface"@),
                                            },
                                        ),
                                    ),
                                ),
                            }
                        }
                    },
                },
            },
        },
    }
}

/// The open elements after an `entry` tag with attributes `a`: the entry, its
/// name made an identifier, goes to the last open enum.
pub open spec fn entry_step(elems: Seq<ElementModel>, a: Seq<(Seq<char>, Seq<char>)>) -> Result<
    Seq<ElementModel>,
    ScanError,
> {
    match attr_value(a, "name"@) {
        None => Err(ScanError::MissingAttribute(AttrName::Name)),
        Some(name) => if name.len() == 0 {
            Err(ScanError::EmptyEntryName)
        } else {
            match attr_value(a, "value"@) {
                None => Err(ScanError::MissingAttribute(AttrName::Value)),
                Some(value) => {
                    let j = last_of_kind(elems, ElementKind::Enum);
                    if j < 0 {
                        Err(ScanError::NoOpenEnum)
                    } else {
                        Ok(
                            elems.update(
                                j,
                                with_entry(
                                    elems[j],
                                    EnumEntryModel {
                                        name: sanitized_entry_name(name),
                                        summary: attr_value(a, "summary"@),
                                        value,
                                    },
                                ),
                            ),
                        )
                    }
                },
            }
        },
    }
}

/// The open elements after an empty `description` tag with attributes `a`:
/// the description goes to the element that is last.
pub open spec fn empty_description_step(
    elems: Seq<ElementModel>,
    a: Seq<(Seq<char>, Seq<char>)>,
) -> Result<Seq<ElementModel>, ScanError> {
    match attr_value(a, "summary"@) {
        None => Err(ScanError::MissingAttribute(AttrName::Summary)),
        Some(summary) => attach_description(
            elems.push(ElementModel::Description(DescriptionModel { summary, content: None })),
        ),
    }
}

/// The effect of an empty-element tag.
pub open spec fn empty_step(
    s: ScannerModel,
    name: Seq<u8>,
    attributes: Result<Seq<(Seq<char>, Seq<char>)>, XmlError>,
) -> Result<ScannerModel, ScanError> {
    let tag = decode_utf8(name);
    if valid_utf8(name) && (tag == "arg"@ || tag == "entry"@ || tag == "description"@) {
        match attributes {
            Err(e) => Err(ScanError::Attributes(e)),
            Ok(a) => {
                let r = if tag == "arg"@ {
                    arg_step(s.elements, a)
                } else if tag == "entry"@ {
                    entry_step(s.elements, a)
                } else {
                    empty_description_step(s.elements, a)
                };
                match r {
                    Err(e) => Err(e),
                    Ok(elems) => Ok(ScannerModel { elements: elems, ..s }),
                }
            },
        }
    } else {
        Ok(s)
    }
}

/// The effect of character data: inside a `description` tag it becomes the
/// text of the last open description, tidied.
pub open spec fn text_step(s: ScannerModel, raw: Seq<u8>) -> Result<ScannerModel, ScanError> {
    let t = trim_ascii(raw);
    if !valid_utf8(t) {
        Err(ScanError::InvalidUtf8)
    } else if s.open_tags.len() > 0 && s.open_tags.last() == "description"@ {
        let j = last_of_kind(s.elements, ElementKind::Description);
        if j < 0 {
            Err(ScanError::NoOpenDescription)
        } else {
            Ok(
                ScannerModel {
                    elements: s.elements.update(
                        j,
                        with_content(s.elements[j], formatted_documentation(decode_utf8(t))),
                    ),
                    ..s
                },
            )
        }
    } else {
        Ok(s)
    }
}

/// The effect of closing a request (`as_request`) or an event: it is taken
/// off the open elements and added to the last open interface.
pub open spec fn close_reqevent(s: ScannerModel, as_request: bool) -> Result<ScannerModel, ScanError> {
    let i = last_of_kind(s.elements, ElementKind::ReqEvent);
    if i < 0 {
        Err(ScanError::NoRequestEventToTake)
    } else {
        let r = s.elements[i]->ReqEvent_0;
        let rest = s.elements.remove(i);
        let j = last_of_kind(rest, ElementKind::Interface);
        if j < 0 {
            Err(ScanError::NoOpenInterface)
        } else {
            let updated = if as_request {
                with_request(rest[j], r)
            } else {
                with_event(rest[j], r)
            };
            Ok(ScannerModel { elements: rest.update(j, updated), ..s })
        }
    }
}

/// The effect of closing an enum: it is taken off the open elements and added
/// to the last open interface.
pub open spec fn close_enum(s: ScannerModel) -> Result<ScannerModel, ScanError> {
    let i = last_of_kind(s.elements, ElementKind::Enum);
    if i < 0 {
        Err(ScanError::NoEnumToTake)
    } else {
        let x = s.elements[i]->Enum_0;
        let rest = s.elements.remove(i);
        let j = last_of_kind(rest, ElementKind::Interface);
        if j < 0 {
            Err(ScanError::NoOpenInterface)
        } else {
            Ok(ScannerModel { elements: rest.update(j, with_enum(rest[j], x)), ..s })
        }
    }
}

/// The effect of closing an interface: it is taken off the open elements and
/// added to the interfaces read.
pub open spec fn close_interface(s: ScannerModel) -> Result<ScannerModel, ScanError> {
    let i = last_of_kind(s.elements, ElementKind::Interface);
    if i < 0 {
        Err(ScanError::NoInterfaceToTake)
    } else {
        Ok(
            ScannerModel {
                elements: s.elements.remove(i),
                interfaces: s.interfaces.push(s.elements[i]->Interface_0),
                ..s
            },
        )
    }
}

/// The effect of a closing tag: the innermost open tag name is dropped, then
/// the element that the tag closes is put in place.
pub open spec fn end_step(s: ScannerModel, name: Seq<u8>) -> Result<ScannerModel, ScanError> {
    let s1 = if s.open_tags.len() > 0 {
        ScannerModel { open_tags: s.open_tags.drop_last(), ..s }
    } else {
        s
    };
    let tag = decode_utf8(name);
    if !valid_utf8(name) {
        Ok(s1)
    } else if tag == "interface"@ {
        close_interface(s1)
    } else if tag == "request"@ {
        close_reqevent(s1, true)
    } else if tag == "event"@ {
        close_reqevent(s1, false)
    } else if tag == "enum"@ {
        close_enum(s1)
    } else if tag == "description"@ {
        match attach_description(s1.elements) {
            Err(e) => Err(e),
            Ok(elems) => Ok(ScannerModel { elements: elems, ..s1 }),
        }
    } else {
        Ok(s1)
    }
}

/// The scanner state after event `e`, and whether the document goes on.
pub open spec fn next_state(s: ScannerModel, e: XmlEventModel) -> Result<
    (ScannerModel, Step),
    ScanError,
> {
    let r = match e {
        XmlEventModel::Start { name, content_empty, attributes } => start_step(
            s,
            name,
            content_empty,
            attributes,
        ),
        XmlEventModel::Empty { name, attributes } => empty_step(s, name, attributes),
        XmlEventModel::Text(raw) => text_step(s, raw),
        XmlEventModel::End(name) => end_step(s, name),
        XmlEventModel::Other => Ok(s),
        XmlEventModel::Eof => Ok(s),
    };
    match r {
        Err(err) => Err(err),
        Ok(s2) => Ok((s2, if e is Eof { Step::Finished } else { Step::Continue })),
    }
}

/// The error that a step fails with, if it fails.
pub open spec fn error_of(r: Result<(ScannerModel, Step), ScanError>) -> Option<ScanError> {
    match r {
        Ok(_) => None,
        Err(e) => Some(e),
    }
}

/// An error that a document can carry as such: a tag name or a text that is
/// not UTF-8, attributes that cannot be read, an interface version that is
/// not a number. Every other error means that the document breaks the
/// structure of a protocol description.
pub open spec fn is_read_error(e: ScanError) -> bool {
    e is InvalidUtf8 || e is Attributes || e is InvalidVersion
}

/// Whether reading event `e` in state `s` succeeds, or fails with a read
/// error.
pub open spec fn takes_event(s: ScannerModel, e: XmlEventModel) -> bool {
    match next_state(s, e) {
        Ok(_) => true,
        Err(err) => is_read_error(err),
    }
}

/// Names of the open tags.
pub open spec fn tags_view(s: Seq<String>) -> Seq<Seq<char>> {
    s.map_values(|t: String| t@)
}

/// Reads a protocol description from the events of an XML reader, one event
/// at a time.
pub struct Scanner {
    pub stack: Stack,
    pub element_stack: Vec<String>,
}

impl View for Scanner {
    type V = ScannerModel;

    open spec fn view(&self) -> ScannerModel {
        ScannerModel {
            elements: elements_view(self.stack.elements@),
            interfaces: interfaces_view(self.stack.interfaces@),
            open_tags: tags_view(self.element_stack@),
        }
    }
}

/// Whether a step that returned `r` and left the scanner as `new` did what
/// `spec` describes: on success the state it gives, else its error.
pub open spec fn step_outcome(
    spec: Result<ScannerModel, ScanError>,
    r: Result<(), ScanError>,
    new: ScannerModel,
) -> bool {
    match spec {
        Ok(s2) => r is Ok && new == s2,
        Err(e) => r == Err::<(), ScanError>(e),
    }
}

/// Whether an opening tag called `tag` opens a protocol element.
fn is_element_tag(tag: &str) -> (r: bool)
    ensures
        r == opens_element(tag@),
{
    str_equal(tag, "interface") || str_equal(tag, "request") || str_equal(tag, "event")
        || str_equal(tag, "enum") || str_equal(tag, "description")
}

/// The element that the opening tag `tag` with attributes `a` opens.
fn opened(tag: &str, a: &Vec<(String, String)>) -> (r: Result<ElementType, ScanError>)
    requires
        opens_element(tag@),
    ensures
        match opened_element(tag@, attrs_view(a@)) {
            Ok(el) => r matches Ok(x) && x@ == el,
            Err(e) => r == Err::<ElementType, ScanError>(e),
        },
{
    if str_equal(tag, "interface") {
        let name = match try_find_attr(a, "name") {
            Some(n) => n,
            None => return Err(ScanError::MissingAttribute(AttrName::Name)),
        };
        let version = match try_find_attr(a, "version") {
            Some(v) => v,
            None => return Err(ScanError::MissingAttribute(AttrName::Version)),
        };
        let version = match parse_u32(version.as_str()) {
            Some(v) => v,
            None => return Err(ScanError::InvalidVersion),
        };
        let x = Interface {
            name,
            version,
            description: None,
            requests: Vec::new(),
            events: Vec::new(),
            enums: Vec::new(),
        };
        assert(x@.requests =~= Seq::<RequestEventModel>::empty());
        assert(x@.events =~= Seq::<RequestEventModel>::empty());
        assert(x@.enums =~= Seq::<EnumModel>::empty());
        Ok(ElementType::Interface(x))
    } else if str_equal(tag, "request") || str_equal(tag, "event") {
        let name = match try_find_attr(a, "name") {
            Some(n) => n,
            None => return Err(ScanError::MissingAttribute(AttrName::Name)),
        };
        let x = RequestEvent { name, description: None, args: Vec::new() };
        assert(x@.args =~= Seq::<ArgModel>::empty());
        Ok(ElementType::ReqEvent(x))
    } else if str_equal(tag, "enum") {
        let name = match try_find_attr(a, "name") {
            Some(n) => n,
            None => return Err(ScanError::MissingAttribute(AttrName::Name)),
        };
        let x = Enum { name, description: None, values: Vec::new() };
        assert(x@.values =~= Seq::<EnumEntryModel>::empty());
        Ok(ElementType::Enum(x))
    } else {
        let summary = match try_find_attr(a, "summary") {
            Some(n) => n,
            None => return Err(ScanError::MissingAttribute(AttrName::Summary)),
        };
        Ok(ElementType::Description(Description { summary, content: None }))
    }
}

impl Scanner {
    /// A scanner that has read nothing yet.
    pub fn new() -> (r: Scanner)
        ensures
            r@.elements.len() == 0,
            r@.interfaces.len() == 0,
            r@.open_tags.len() == 0,
    {
        Scanner { stack: Stack { elements: Vec::new(), interfaces: Vec::new() }, element_stack: Vec::new() }
    }

    /// The interfaces read, in the order in which they were closed.
    pub fn into_interfaces(self) -> (r: Vec<Interface>)
        ensures
            interfaces_view(r@) == self@.interfaces,
    {
        self.stack.interfaces
    }

    /// Reads an opening tag.
    fn on_start(
        &mut self,
        name: Vec<u8>,
        content_empty: bool,
        attributes: Result<Vec<(String, String)>, XmlError>,
    ) -> (r: Result<(), ScanError>)
        ensures
            step_outcome(
                start_step(old(self)@, name@, content_empty, attrs_result_view(attributes)),
                r,
                final(self)@,
            ),
    {
        let ghost nv = name@;
        let tag = match utf8_string(name.as_slice()) {
            Some(t) => t,
            None => return Err(ScanError::InvalidUtf8),
        };
        if !content_empty {
            let ghost before = self.element_stack@;
            self.element_stack.push(tag.clone());
            assert(tags_view(self.element_stack@) =~= tags_view(before).push(tag@));
        }
        if !is_element_tag(tag.as_str()) {
            return Ok(());
        }
        let a = match attributes {
            Ok(a) => a,
            Err(e) => return Err(ScanError::Attributes(e)),
        };
        let element = match opened(tag.as_str(), &a) {
            Ok(x) => x,
            Err(e) => return Err(e),
        };
        let ghost before = self.stack.elements@;
        self.stack.elements.push(element);
        assert(elements_view(self.stack.elements@) =~= elements_view(before).push(element@));
        Ok(())
    }

    /// The argument that an `arg` tag with attributes `a` adds to the last
    /// open request or event.
    fn arg_of(&self, a: &Vec<(String, String)>) -> (r: Result<Arg, ScanError>)
        ensures
            match arg_step(self@.elements, attrs_view(a@)) {
                Ok(e) => r matches Ok(x) && ({
                    let j = last_of_kind(self@.elements, ElementKind::ReqEvent);
                    j >= 0 && e == self@.elements.update(j, with_arg(self@.elements[j], x@))
                }),
                Err(e) => r == Err::<Arg, ScanError>(e),
            },
    {
        let name = match try_find_attr(a, "name") {
            Some(n) => n,
            None => return Err(ScanError::MissingAttribute(AttrName::Name)),
        };
        let typ = match try_find_attr(a, "type") {
            Some(n) => n,
            None => return Err(ScanError::MissingAttribute(AttrName::Type)),
        };
        let summary = match try_find_attr(a, "summary") {
            Some(n) => n,
            None => return Err(ScanError::MissingAttribute(AttrName::Summary)),
        };
        let allow_null = match try_find_attr(a, "allow-null") {
            None => false,
            Some(v) => if str_equal(v.as_str(), "true") {
                true
            } else if str_equal(v.as_str(), "false") {
                false
            } else {
                return Err(ScanError::InvalidAllowNull);
            },
        };
        let enm = try_find_attr(a, "enum");
        let interface = try_find_attr(a, "interface");
        if self.stack.last_position(ElementKind::ReqEvent).is_none() {
            return Err(ScanError::NoOpenRequestEvent);
        }
        let t = match ArgType::named(typ.as_str()) {
            Some(t) => t,
            None => return Err(ScanError::UnknownArgType),
        };
        Ok(Arg { name, typ: t, summary, enm, allow_null, interface })
    }

    /// Reads an `arg` tag: the argument goes to the last open request or
    /// event.
    fn add_arg(&mut self, a: &Vec<(String, String)>) -> (r: Result<(), ScanError>)
        ensures
            step_outcome(
                match arg_step(old(self)@.elements, attrs_view(a@)) {
                    Ok(e) => Ok(ScannerModel { elements: e, ..old(self)@ }),
                    Err(e) => Err(e),
                },
                r,
                final(self)@,
            ),
    {
        let arg = match self.arg_of(a) {
            Ok(x) => x,
            Err(e) => return Err(e),
        };
        let ghost av = arg@;
        let re = self.stack.last_reqevent();
        let ghost old_args = re.args@;
        re.args.push(arg);
        assert(args_view(re.args@) =~= args_view(old_args).push(av));
        Ok(())
    }

    /// The entry that an `entry` tag with attributes `a` adds to the last
    /// open enum, its name made an identifier.
    fn entry_of(&self, a: &Vec<(String, String)>) -> (r: Result<EnumEntry, ScanError>)
        ensures
            match entry_step(self@.elements, attrs_view(a@)) {
                Ok(e) => r matches Ok(x) && ({
                    let j = last_of_kind(self@.elements, ElementKind::Enum);
                    j >= 0 && e == self@.elements.update(j, with_entry(self@.elements[j], x@))
                }),
                Err(e) => r == Err::<EnumEntry, ScanError>(e),
            },
    {
        let name = match try_find_attr(a, "name") {
            Some(n) => n,
            None => return Err(ScanError::MissingAttribute(AttrName::Name)),
        };
        if name.as_str().is_empty() {
            return Err(ScanError::EmptyEntryName);
        }
        let name = sanitize_enum_entry_name(name);
        let summary = try_find_attr(a, "summary");
        let value = match try_find_attr(a, "value") {
            Some(n) => n,
            None => return Err(ScanError::MissingAttribute(AttrName::Value)),
        };
        if self.stack.last_position(ElementKind::Enum).is_none() {
            return Err(ScanError::NoOpenEnum);
        }
        Ok(EnumEntry { name, summary, value })
    }

    /// Reads an `entry` tag: the entry goes to the last open enum.
    fn add_entry(&mut self, a: &Vec<(String, String)>) -> (r: Result<(), ScanError>)
        ensures
            step_outcome(
                match entry_step(old(self)@.elements, attrs_view(a@)) {
                    Ok(e) => Ok(ScannerModel { elements: e, ..old(self)@ }),
                    Err(e) => Err(e),
                },
                r,
                final(self)@,
            ),
    {
        let entry = match self.entry_of(a) {
            Ok(x) => x,
            Err(e) => return Err(e),
        };
        let ghost ev = entry@;
        let e = self.stack.last_enum();
        let ghost old_values = e.values@;
        e.values.push(entry);
        assert(entries_view(e.values@) =~= entries_view(old_values).push(ev));
        Ok(())
    }

    /// Reads an empty `description` tag: the description goes to the element
    /// that is last.
    fn add_description(&mut self, a: &Vec<(String, String)>) -> (r: Result<(), ScanError>)
        ensures
            step_outcome(
                match empty_description_step(old(self)@.elements, attrs_view(a@)) {
                    Ok(e) => Ok(ScannerModel { elements: e, ..old(self)@ }),
                    Err(e) => Err(e),
                },
                r,
                final(self)@,
            ),
    {
        let summary = match try_find_attr(a, "summary") {
            Some(n) => n,
            None => return Err(ScanError::MissingAttribute(AttrName::Summary)),
        };
        let d = ElementType::Description(Description { summary, content: None });
        let ghost before = self.stack.elements@;
        self.stack.elements.push(d);
        assert(elements_view(self.stack.elements@) =~= elements_view(before).push(d@));
        self.stack.attach_last_description()
    }

    /// Reads an empty-element tag.
    fn on_empty(&mut self, name: Vec<u8>, attributes: Result<Vec<(String, String)>, XmlError>) -> (r:
        Result<(), ScanError>)
        ensures
            step_outcome(empty_step(old(self)@, name@, attrs_result_view(attributes)), r, final(self)@),
    {
        let tag = match utf8_string(name.as_slice()) {
            Some(t) => t,
            None => return Ok(()),
        };
        let is_arg = str_equal(tag.as_str(), "arg");
        let is_entry = str_equal(tag.as_str(), "entry");
        let is_description = str_equal(tag.as_str(), "description");
        if !(is_arg || is_entry || is_description) {
            return Ok(());
        }
        let a = match attributes {
            Ok(a) => a,
            Err(e) => return Err(ScanError::Attributes(e)),
        };
        if is_arg {
            self.add_arg(&a)
        } else if is_entry {
            self.add_entry(&a)
        } else {
            self.add_description(&a)
        }
    }

    /// Reads character data.
    fn on_text(&mut self, raw: Vec<u8>) -> (r: Result<(), ScanError>)
        ensures
            step_outcome(text_step(old(self)@, raw@), r, final(self)@),
    {
        let trimmed = trim_ascii_bytes(&raw);
        let text = match utf8_string(trimmed.as_slice()) {
            Some(t) => t,
            None => return Err(ScanError::InvalidUtf8),
        };
        let doc = match format_documentation(text.as_str()) {
            Ok(d) => d,
            Err(_) => return unreached(),
        };
        let n = self.element_stack.len();
        if n == 0 {
            return Ok(());
        }
        assert(self@.open_tags.last() == self.element_stack@[n - 1]@);
        if !str_equal(self.element_stack[n - 1].as_str(), "description") {
            return Ok(());
        }
        if self.stack.last_position(ElementKind::Description).is_none() {
            return Err(ScanError::NoOpenDescription);
        }
        let d = self.stack.last_description();
        d.content = Some(doc);
        Ok(())
    }

    /// Reads a closing tag.
    fn on_end(&mut self, name: Vec<u8>) -> (r: Result<(), ScanError>)
        ensures
            step_outcome(end_step(old(self)@, name@), r, final(self)@),
    {
        let ghost before_tags = self.element_stack@;
        let _ = self.element_stack.pop();
        proof {
            if before_tags.len() > 0 {
                assert(tags_view(self.element_stack@) =~= tags_view(before_tags).drop_last());
            }
        }
        let tag = match utf8_string(name.as_slice()) {
            Some(t) => t,
            None => return Ok(()),
        };
        let t = tag.as_str();
        if str_equal(t, "interface") {
            if self.stack.last_position(ElementKind::Interface).is_none() {
                return Err(ScanError::NoInterfaceToTake);
            }
            let i = self.stack.take_last_interface();
            let ghost before = self.stack.interfaces@;
            self.stack.interfaces.push(i);
            assert(interfaces_view(self.stack.interfaces@) =~= interfaces_view(before).push(i@));
            Ok(())
        } else if str_equal(t, "request") || str_equal(t, "event") {
            let as_request = str_equal(t, "request");
            if self.stack.last_position(ElementKind::ReqEvent).is_none() {
                return Err(ScanError::NoRequestEventToTake);
            }
            let re = self.stack.take_last_reqevent();
            if self.stack.last_position(ElementKind::Interface).is_none() {
                return Err(ScanError::NoOpenInterface);
            }
            let ghost rv = re@;
            let itf = self.stack.last_interface();
            let ghost old_requests = itf.requests@;
            let ghost old_events = itf.events@;
            if as_request {
                itf.requests.push(re);
                assert(reqevents_view(itf.requests@) =~= reqevents_view(old_requests).push(rv));
            } else {
                itf.events.push(re);
                assert(reqevents_view(itf.events@) =~= reqevents_view(old_events).push(rv));
            }
            Ok(())
        } else if str_equal(t, "enum") {
            if self.stack.last_position(ElementKind::Enum).is_none() {
                return Err(ScanError::NoEnumToTake);
            }
            let x = self.stack.take_last_enum();
            if self.stack.last_position(ElementKind::Interface).is_none() {
                return Err(ScanError::NoOpenInterface);
            }
            let ghost xv = x@;
            let itf = self.stack.last_interface();
            let ghost old_enums = itf.enums@;
            itf.enums.push(x);
            assert(enums_view(itf.enums@) =~= enums_view(old_enums).push(xv));
            Ok(())
        } else if str_equal(t, "description") {
            self.stack.attach_last_description()
        } else {
            Ok(())
        }
    }

    /// What an opening tag would fail with, if anything.
    fn start_error(
        &self,
        name: &Vec<u8>,
        content_empty: bool,
        attributes: &Result<Vec<(String, String)>, XmlError>,
    ) -> (r: Option<ScanError>)
        ensures
            r == match start_step(self@, name@, content_empty, attrs_result_view(*attributes)) {
                Ok(_) => None,
                Err(e) => Some(e),
            },
    {
        let tag = match utf8_string(name.as_slice()) {
            Some(t) => t,
            None => return Some(ScanError::InvalidUtf8),
        };
        if !is_element_tag(tag.as_str()) {
            return None;
        }
        match attributes {
            Err(e) => Some(ScanError::Attributes(*e)),
            Ok(a) => match opened(tag.as_str(), a) {
                Ok(_) => None,
                Err(e) => Some(e),
            },
        }
    }

    /// What an empty-element tag would fail with, if anything.
    fn empty_error(&self, name: &Vec<u8>, attributes: &Result<Vec<(String, String)>, XmlError>) -> (r:
        Option<ScanError>)
        ensures
            r == match empty_step(self@, name@, attrs_result_view(*attributes)) {
                Ok(_) => None,
                Err(e) => Some(e),
            },
    {
        let tag = match utf8_string(name.as_slice()) {
            Some(t) => t,
            None => return None,
        };
        let is_arg = str_equal(tag.as_str(), "arg");
        let is_entry = str_equal(tag.as_str(), "entry");
        let is_description = str_equal(tag.as_str(), "description");
        if !(is_arg || is_entry || is_description) {
            return None;
        }
        let a = match attributes {
            Ok(a) => a,
            Err(e) => return Some(ScanError::Attributes(*e)),
        };
        if is_arg {
            match self.arg_of(a) {
                Ok(_) => None,
                Err(e) => Some(e),
            }
        } else if is_entry {
            match self.entry_of(a) {
                Ok(_) => None,
                Err(e) => Some(e),
            }
        } else {
            if try_find_attr(a, "summary").is_none() {
                return Some(ScanError::MissingAttribute(AttrName::Summary));
            }
            proof {
                let summary = attr_value(attrs_view(a@), "summary"@).unwrap();
                lemma_take_after_push(
                    self@.elements,
                    ElementModel::Description(DescriptionModel { summary, content: None }),
                );
            }
            if self.stack.elements.len() == 0 {
                Some(ScanError::NoLastElement)
            } else {
                None
            }
        }
    }

    /// What character data would fail with, if anything.
    fn text_error(&self, raw: &Vec<u8>) -> (r: Option<ScanError>)
        ensures
            r == match text_step(self@, raw@) {
                Ok(_) => None,
                Err(e) => Some(e),
            },
    {
        let trimmed = trim_ascii_bytes(raw);
        if utf8_string(trimmed.as_slice()).is_none() {
            return Some(ScanError::InvalidUtf8);
        }
        let n = self.element_stack.len();
        if n == 0 {
            return None;
        }
        assert(self@.open_tags.last() == self.element_stack@[n - 1]@);
        if !str_equal(self.element_stack[n - 1].as_str(), "description") {
            return None;
        }
        if self.stack.last_position(ElementKind::Description).is_none() {
            Some(ScanError::NoOpenDescription)
        } else {
            None
        }
    }

    /// What a closing tag would fail with, if anything.
    fn end_error(&self, name: &Vec<u8>) -> (r: Option<ScanError>)
        ensures
            r == match end_step(self@, name@) {
                Ok(_) => None,
                Err(e) => Some(e),
            },
    {
        let tag = match utf8_string(name.as_slice()) {
            Some(t) => t,
            None => return None,
        };
        let t = tag.as_str();
        let ghost elems = self@.elements;
        if str_equal(t, "interface") {
            if self.stack.last_position(ElementKind::Interface).is_none() {
                Some(ScanError::NoInterfaceToTake)
            } else {
                None
            }
        } else if str_equal(t, "request") || str_equal(t, "event") {
            match self.stack.last_position(ElementKind::ReqEvent) {
                None => Some(ScanError::NoRequestEventToTake),
                Some(i) => {
                    proof {
                        lemma_last_of_kind_is(elems, ElementKind::ReqEvent);
                        lemma_last_of_kind_after_remove(elems, i as int, ElementKind::Interface);
                    }
                    if self.stack.last_position(ElementKind::Interface).is_none() {
                        Some(ScanError::NoOpenInterface)
                    } else {
                        None
                    }
                },
            }
        } else if str_equal(t, "enum") {
            match self.stack.last_position(ElementKind::Enum) {
                None => Some(ScanError::NoEnumToTake),
                Some(i) => {
                    proof {
                        lemma_last_of_kind_is(elems, ElementKind::Enum);
                        lemma_last_of_kind_after_remove(elems, i as int, ElementKind::Interface);
                    }
                    if self.stack.last_position(ElementKind::Interface).is_none() {
                        Some(ScanError::NoOpenInterface)
                    } else {
                        None
                    }
                },
            }
        } else if str_equal(t, "description") {
            proof {
                lemma_last_of_kind_is(elems, ElementKind::Description);
            }
            if self.stack.last_position(ElementKind::Description).is_none() {
                Some(ScanError::NoDescriptionToTake)
            } else if self.stack.elements.len() < 2 {
                Some(ScanError::NoLastElement)
            } else {
                None
            }
        } else {
            None
        }
    }

    /// What reading `event` would fail with, if anything; the scanner is left
    /// as it is.
    pub fn event_error(&self, event: &XmlEvent) -> (r: Option<ScanError>)
        ensures
            r == error_of(next_state(self@, event@)),
    {
        match event {
            XmlEvent::Start { name, content_empty, attributes } => self.start_error(
                name,
                *content_empty,
                attributes,
            ),
            XmlEvent::Empty { name, attributes } => self.empty_error(name, attributes),
            XmlEvent::Text(raw) => self.text_error(raw),
            XmlEvent::End(name) => self.end_error(name),
            XmlEvent::Other => None,
            XmlEvent::Eof => None,
        }
    }

    /// Reads one event of the XML reader. `Finished` comes back for the end
    /// of the document, `Continue` for every other event that was read. An
    /// event that breaks the structure of a protocol description (see
    /// `event_error`) is not to be handed in.
    pub fn handle_event(&mut self, event: XmlEvent) -> (r: Result<Step, ScanError>)
        requires
            takes_event(old(self)@, event@),
        ensures
            match next_state(old(self)@, event@) {
                Ok((s2, step)) => r == Ok::<Step, ScanError>(step) && final(self)@ == s2,
                Err(e) => r == Err::<Step, ScanError>(e),
            },
    {
        let is_eof = match &event {
            XmlEvent::Eof => true,
            _ => false,
        };
        let ghost ev = event@;
        let r = match event {
            XmlEvent::Start { name, content_empty, attributes } => self.on_start(
                name,
                content_empty,
                attributes,
            ),
            XmlEvent::Empty { name, attributes } => self.on_empty(name, attributes),
            XmlEvent::Text(raw) => self.on_text(raw),
            XmlEvent::End(name) => self.on_end(name),
            XmlEvent::Other => Ok(()),
            XmlEvent::Eof => Ok(()),
        };
        match r {
            Err(e) => Err(e),
            Ok(()) => if is_eof {
                Ok(Step::Finished)
            } else {
                Ok(Step::Continue)
            },
        }
    }
}

/// An element just opened is the one that closing its kind takes, and taking
/// it leaves the other open elements as they were.
pub proof fn lemma_take_after_push(elems: Seq<ElementModel>, x: ElementModel)
    ensures
        last_of_kind(elems.push(x), kind_of(x)) == elems.len(),
        elems.push(x)[elems.len() as int] == x,
        elems.push(x).remove(elems.len() as int) == elems,
{
    assert(elems.push(x).drop_last() =~= elems);
    assert(elems.push(x).remove(elems.len() as int) =~= elems);
}

/// The interfaces read so far are never changed: an event either leaves
/// them as they are or adds one interface at the end.
pub proof fn lemma_interfaces_only_grow(s: ScannerModel, e: XmlEventModel)
    ensures
        next_state(s, e) matches Ok((s2, _)) ==> (s2.interfaces == s.interfaces || s2.interfaces
            == s.interfaces.push(s2.interfaces.last())),
{
}

/// Opening and at once closing an interface adds it, with the name and the
/// version that its attributes give and nothing in it, to the interfaces
/// read, and leaves the open elements and open tags as they were.
pub proof fn lemma_interface_roundtrip(
    s: ScannerModel,
    tag: Seq<u8>,
    a: Seq<(Seq<char>, Seq<char>)>,
    name: Seq<char>,
    version: Seq<char>,
)
    requires
        valid_utf8(tag),
        decode_utf8(tag) == "interface"@,
        attr_value(a, "name"@) == Some(name),
        attr_value(a, "version"@) == Some(version),
        parsed_u32(version) is Some,
    ensures
        ({
            let start = XmlEventModel::Start { name: tag, content_empty: false, attributes: Ok(a) };
            let opened = next_state(s, start);
            &&& opened is Ok
            &&& opened->Ok_0.1 == Step::Continue
            &&& next_state(opened->Ok_0.0, XmlEventModel::End(tag)) == Ok::<
                (ScannerModel, Step),
                ScanError,
            >(
                (
                    ScannerModel {
                        interfaces: s.interfaces.push(
                            InterfaceModel {
                                name,
                                version: parsed_u32(version).unwrap(),
                                description: None,
                                requests: seq![],
                                events: seq![],
                                enums: seq![],
                            },
                        ),
                        ..s
                    },
                    Step::Continue,
                ),
            )
        }),
{
    let x = ElementModel::Interface(
        InterfaceModel {
            name,
            version: parsed_u32(version).unwrap(),
            description: None,
            requests: seq![],
            events: seq![],
            enums: seq![],
        },
    );
    lemma_take_after_push(s.elements, x);
    let s1 = ScannerModel {
        elements: s.elements.push(x),
        open_tags: s.open_tags.push("interface"@),
        ..s
    };
    assert(s1.open_tags.drop_last() =~= s.open_tags);
    assert(start_step(s, tag, false, Ok(a)) == Ok::<ScannerModel, ScanError>(s1));
    assert(end_step(s1, tag) == Ok::<ScannerModel, ScanError>(
        ScannerModel { interfaces: s.interfaces.push(x->Interface_0), ..s },
    ));
}

/// An element that is not part of a protocol description, opened and closed
/// at once, leaves the scanner as it was.
pub proof fn lemma_other_element_roundtrip(s: ScannerModel, tag: Seq<u8>, attributes: Result<
    Seq<(Seq<char>, Seq<char>)>,
    XmlError,
>)
    requires
        valid_utf8(tag),
        !opens_element(decode_utf8(tag)),
    ensures
        ({
            let start = XmlEventModel::Start { name: tag, content_empty: false, attributes };
            let opened = next_state(s, start);
            &&& opened is Ok
            &&& next_state(opened->Ok_0.0, XmlEventModel::End(tag)) == Ok::<
                (ScannerModel, Step),
                ScanError,
            >((s, Step::Continue))
        }),
{
    let s1 = ScannerModel { open_tags: s.open_tags.push(decode_utf8(tag)), ..s };
    assert(s1.open_tags.drop_last() =~= s.open_tags);
    assert(start_step(s, tag, false, attributes) == Ok::<ScannerModel, ScanError>(s1));
}


/// The scanner state after the events `evs`, one after the other, or the
/// first error.
pub open spec fn scan_events(s: ScannerModel, evs: Seq<XmlEventModel>) -> Result<
    ScannerModel,
    ScanError,
>
    decreases evs.len(),
{
    if evs.len() == 0 {
        Ok(s)
    } else {
        match scan_events(s, evs.drop_last()) {
            Err(e) => Err(e),
            Ok(s1) => match next_state(s1, evs.last()) {
                Err(e) => Err(e),
                Ok((s2, _)) => Ok(s2),
            },
        }
    }
}

/// Over a whole run of events, the interfaces read before stay as they
/// were, in their places, and every interface read afterwards follows them:
/// interfaces come out in the order in which they are closed.
pub proof fn lemma_scan_keeps_interfaces(s: ScannerModel, evs: Seq<XmlEventModel>)
    ensures
        scan_events(s, evs) matches Ok(s2) ==> s2.interfaces.len() >= s.interfaces.len()
            && s2.interfaces.take(s.interfaces.len() as int) == s.interfaces,
    decreases evs.len(),
{
    if evs.len() > 0 {
        lemma_scan_keeps_interfaces(s, evs.drop_last());
        if let Ok(s1) = scan_events(s, evs.drop_last()) {
            lemma_interfaces_only_grow(s1, evs.last());
            if let Ok((s2, _)) = next_state(s1, evs.last()) {
                if s2.interfaces != s1.interfaces {
                    assert(s2.interfaces.take(s.interfaces.len() as int) =~= s1.interfaces.take(
                        s.interfaces.len() as int,
                    ));
                }
            }
        }
    }
}


/// The names of the tags that close protocol elements differ in length.
proof fn lemma_tag_name_lengths()
    ensures
        "interface"@.len() == 9,
        "request"@.len() == 7,
        "event"@.len() == 5,
        "enum"@.len() == 4,
        "description"@.len() == 11,
{
    reveal_strlit("interface");
    reveal_strlit("request");
    reveal_strlit("event");
    reveal_strlit("enum");
    reveal_strlit("description");
}

/// Closing a request (`as_request`) or an event inside an open interface
/// takes it off the open elements and appends it to that interface's
/// requests (events): those already there keep their places, the closed one
/// comes last, and nothing else of the interface, of the other open elements
/// or of the interfaces read changes.
#[verifier::spinoff_prover]
pub proof fn lemma_close_reqevent_appends(s: ScannerModel, tag: Seq<u8>, as_request: bool)
    requires
        valid_utf8(tag),
        decode_utf8(tag) == (if as_request {
            "request"@
        } else {
            "event"@
        }),
        last_of_kind(s.elements, ElementKind::ReqEvent) >= 0,
        last_of_kind(
            s.elements.remove(last_of_kind(s.elements, ElementKind::ReqEvent)),
            ElementKind::Interface,
        ) >= 0,
    ensures
        ({
            let i = last_of_kind(s.elements, ElementKind::ReqEvent);
            let rest = s.elements.remove(i);
            let j = last_of_kind(rest, ElementKind::Interface);
            let closed = s.elements[i]->ReqEvent_0;
            let r = next_state(s, XmlEventModel::End(tag));
            &&& r is Ok
            &&& r->Ok_0.0.interfaces == s.interfaces
            &&& r->Ok_0.0.elements.len() == rest.len()
            &&& forall|m: int|
                0 <= m < rest.len() && m != j ==> #[trigger] r->Ok_0.0.elements[m] == rest[m]
            &&& rest[j] matches ElementModel::Interface(before)
            &&& r->Ok_0.0.elements[j] matches ElementModel::Interface(after)
            &&& after.name == before.name && after.version == before.version
            &&& after.description == before.description && after.enums == before.enums
            &&& if as_request {
                &&& after.events == before.events
                &&& after.requests.len() == before.requests.len() + 1
                &&& after.requests.take(before.requests.len() as int) == before.requests
                &&& after.requests[before.requests.len() as int] == closed
            } else {
                &&& after.requests == before.requests
                &&& after.events.len() == before.events.len() + 1
                &&& after.events.take(before.events.len() as int) == before.events
                &&& after.events[before.events.len() as int] == closed
            }
        }),
{
    lemma_tag_name_lengths();
    let i = last_of_kind(s.elements, ElementKind::ReqEvent);
    lemma_last_of_kind_is(s.elements, ElementKind::ReqEvent);
    let rest = s.elements.remove(i);
    let j = last_of_kind(rest, ElementKind::Interface);
    lemma_last_of_kind_is(rest, ElementKind::Interface);
    let s1 = if s.open_tags.len() > 0 {
        ScannerModel { open_tags: s.open_tags.drop_last(), ..s }
    } else {
        s
    };
    assert(s1.elements == s.elements);
    let t = decode_utf8(tag);
    assert(t != "interface"@);
    if as_request {
        assert(t == "request"@);
    } else {
        assert(t != "request"@);
        assert(t == "event"@);
    }
    assert(end_step(s, tag) == close_reqevent(s1, as_request));
    let r = next_state(s, XmlEventModel::End(tag));
    assert(r == match close_reqevent(s1, as_request) {
        Err(err) => Err(err),
        Ok(s2) => Ok((s2, Step::Continue)),
    });
    let before = rest[j]->Interface_0;
    let closed = s.elements[i]->ReqEvent_0;
    if as_request {
        assert(before.requests.push(closed).take(before.requests.len() as int) =~= before.requests);
    } else {
        assert(before.events.push(closed).take(before.events.len() as int) =~= before.events);
    }
}

/// Closing an enum inside an open interface takes it off the open elements
/// and appends it to that interface's enums: those already there keep their
/// places, the closed one comes last, and nothing else of the interface, of
/// the other open elements or of the interfaces read changes.
#[verifier::spinoff_prover]
pub proof fn lemma_close_enum_appends(s: ScannerModel, tag: Seq<u8>)
    requires
        valid_utf8(tag),
        decode_utf8(tag) == "enum"@,
        last_of_kind(s.elements, ElementKind::Enum) >= 0,
        last_of_kind(
            s.elements.remove(last_of_kind(s.elements, ElementKind::Enum)),
            ElementKind::Interface,
        ) >= 0,
    ensures
        ({
            let i = last_of_kind(s.elements, ElementKind::Enum);
            let rest = s.elements.remove(i);
            let j = last_of_kind(rest, ElementKind::Interface);
            let closed = s.elements[i]->Enum_0;
            let r = next_state(s, XmlEventModel::End(tag));
            &&& r is Ok
            &&& r->Ok_0.0.interfaces == s.interfaces
            &&& r->Ok_0.0.elements.len() == rest.len()
            &&& forall|m: int|
                0 <= m < rest.len() && m != j ==> #[trigger] r->Ok_0.0.elements[m] == rest[m]
            &&& rest[j] matches ElementModel::Interface(before)
            &&& r->Ok_0.0.elements[j] matches ElementModel::Interface(after)
            &&& after.name == before.name && after.version == before.version
            &&& after.description == before.description
            &&& after.requests == before.requests && after.events == before.events
            &&& after.enums.len() == before.enums.len() + 1
            &&& after.enums.take(before.enums.len() as int) == before.enums
            &&& after.enums[before.enums.len() as int] == closed
        }),
{
    lemma_tag_name_lengths();
    let i = last_of_kind(s.elements, ElementKind::Enum);
    lemma_last_of_kind_is(s.elements, ElementKind::Enum);
    let rest = s.elements.remove(i);
    let j = last_of_kind(rest, ElementKind::Interface);
    lemma_last_of_kind_is(rest, ElementKind::Interface);
    let s1 = if s.open_tags.len() > 0 {
        ScannerModel { open_tags: s.open_tags.drop_last(), ..s }
    } else {
        s
    };
    assert(s1.elements == s.elements);
    let t = decode_utf8(tag);
    assert(t != "interface"@);
    assert(t != "request"@);
    assert(t != "event"@);
    assert(end_step(s, tag) == close_enum(s1));
    let r = next_state(s, XmlEventModel::End(tag));
    assert(r == match close_enum(s1) {
        Err(err) => Err(err),
        Ok(s2) => Ok((s2, Step::Continue)),
    });
    let before = rest[j]->Interface_0;
    let closed = s.elements[i]->Enum_0;
    assert(before.enums.push(closed).take(before.enums.len() as int) =~= before.enums);
}

} // verus!
