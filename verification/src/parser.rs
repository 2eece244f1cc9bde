//! Document formats, the XML tree model and format detection.

use vstd::prelude::*;
pub use crate::json_read::parse_json;
pub use crate::pretty::format_pretty;
pub use crate::xml_read::parse_xml;
use vstd::string::StringSliceAdditionalSpecFns;
use crate::text::{chars_of, decimal, join, lemma_join_push, str_eq, trim_bounds, trimmed, usize_text};

verus! {

/// Formats of the documents that can be compared.
#[derive(Debug, Clone, Copy, PartialEq, Eq, Structural)]
pub enum Format {
    Json,
    Xml,
}

/// Default limit on the size of an input, in bytes (10 MB).
pub const MAX_INPUT_SIZE: usize = 10485760;

/// Errors while reading a document.
#[derive(Debug, Clone, PartialEq, Eq)]
pub enum ParseError {
    InvalidJson(String),
    InvalidXml(String),
    UnknownFormat,
    EmptyInput,
    InputTooLarge { limit: usize, actual: usize },
}

/// A node of a parsed XML tree.
#[derive(Debug)]
pub struct XmlNode {
    /// Tag name.
    pub tag: String,
    /// Attributes as key/value pairs, in document order.
    pub attributes: Vec<(String, String)>,
    /// Text fragments and child nodes, in document order.
    pub children: Vec<XmlChild>,
}

/// A child of an XML node: a text fragment or a nested node.
#[derive(Debug)]
pub enum XmlChild {
    Text(String),
    Node(XmlNode),
}

/// The mathematical model of an XML node.
pub struct XmlNodeV {
    pub tag: Seq<char>,
    pub attributes: Seq<(Seq<char>, Seq<char>)>,
    pub children: Seq<XmlChildV>,
}

pub enum XmlChildV {
    Text(Seq<char>),
    Node(XmlNodeV),
}

pub open spec fn attrs_view(a: Seq<(String, String)>) -> Seq<(Seq<char>, Seq<char>)> {
    Seq::new(a.len(), |i: int| (a[i].0@, a[i].1@))
}

impl XmlNode {
    pub open spec fn view(&self) -> XmlNodeV
        decreases self,
    {
        XmlNodeV {
            tag: self.tag@,
            attributes: attrs_view(self.attributes@),
            children: Seq::new(
                self.children@.len(),
                |i: int|
                    if 0 <= i < self.children@.len() {
                        xml_child_view(self.children@[i])
                    } else {
                        XmlChildV::Text(Seq::empty())
                    },
            ),
        }
    }
}

pub open spec fn xml_child_view(c: XmlChild) -> XmlChildV
    decreases c,
{
    match c {
        XmlChild::Text(t) => XmlChildV::Text(t@),
        XmlChild::Node(n) => XmlChildV::Node(n.view()),
    }
}

/// The text fragments among the children, in order.
pub open spec fn child_texts(cs: Seq<XmlChildV>) -> Seq<Seq<char>>
    decreases cs.len(),
{
    if cs.len() == 0 {
        Seq::empty()
    } else {
        let rest = child_texts(cs.drop_last());
        match cs.last() {
            XmlChildV::Text(t) => rest.push(t),
            XmlChildV::Node(_) => rest,
        }
    }
}

/// The positions of the element children, in order.
pub open spec fn elem_positions(cs: Seq<XmlChildV>) -> Seq<int>
    decreases cs.len(),
{
    if cs.len() == 0 {
        Seq::empty()
    } else {
        let rest = elem_positions(cs.drop_last());
        match cs.last() {
            XmlChildV::Text(_) => rest,
            XmlChildV::Node(_) => rest.push(cs.len() - 1),
        }
    }
}

/// The element children, in order.
pub open spec fn child_elems(cs: Seq<XmlChildV>) -> Seq<XmlNodeV>
    decreases cs.len(),
{
    if cs.len() == 0 {
        Seq::empty()
    } else {
        let rest = child_elems(cs.drop_last());
        match cs.last() {
            XmlChildV::Text(_) => rest,
            XmlChildV::Node(n) => rest.push(n),
        }
    }
}

/// The direct text of a node: its text fragments joined by single spaces.
pub open spec fn direct_text(n: XmlNodeV) -> Seq<char> {
    join(child_texts(n.children), seq![' '])
}

/// The value of the first attribute with the given key.
pub open spec fn attr_lookup(attrs: Seq<(Seq<char>, Seq<char>)>, key: Seq<char>) -> Option<Seq<char>>
    decreases attrs.len(),
{
    if attrs.len() == 0 {
        None
    } else if attrs[0].0 == key {
        Some(attrs[0].1)
    } else {
        attr_lookup(attrs.drop_first(), key)
    }
}

/// The first element of `nodes` with the given tag.
pub open spec fn first_with_tag(nodes: Seq<XmlNodeV>, tag: Seq<char>) -> Option<XmlNodeV>
    decreases nodes.len(),
{
    if nodes.len() == 0 {
        None
    } else if nodes[0].tag == tag {
        Some(nodes[0])
    } else {
        first_with_tag(nodes.drop_first(), tag)
    }
}

pub proof fn lemma_child_elems_positions(cs: Seq<XmlChildV>)
    ensures
        child_elems(cs).len() == elem_positions(cs).len(),
        forall|k: int|
            0 <= k < elem_positions(cs).len() ==> {
                &&& 0 <= #[trigger] elem_positions(cs)[k] < cs.len()
                &&& cs[elem_positions(cs)[k]] == XmlChildV::Node(child_elems(cs)[k])
            },
        forall|k: int, m: int|
            0 <= k < m < elem_positions(cs).len() ==> #[trigger] elem_positions(cs)[k]
                < #[trigger] elem_positions(cs)[m],
    decreases cs.len(),
{
    if cs.len() > 0 {
        lemma_child_elems_positions(cs.drop_last());
    }
}

impl XmlNode {
    /// The direct text of this node (text fragments joined by a space).
    pub fn text_content(&self) -> (s: String)
        ensures
            s@ == direct_text(self@),
    {
        let mut s = String::new();
        let mut first = true;
        let mut i: usize = 0;
        while i < self.children.len()
            invariant
                i <= self.children.len(),
                s@ == join(child_texts(self@.children.take(i as int)), seq![' ']),
                first == (child_texts(self@.children.take(i as int)).len() == 0),
            decreases self.children.len() - i,
        {
            let ghost prefix = self@.children.take(i as int);
            assert(self@.children.take(i + 1).drop_last() =~= prefix);
            match &self.children[i] {
                XmlChild::Text(t) => {
                    proof {
                        lemma_join_push(child_texts(prefix), seq![' '], t@);
                    }
                    if !first {
                        s.push(' ');
                    }
                    s.append(t.as_str());
                    first = false;
                },
                XmlChild::Node(_) => {},
            }
            i = i + 1;
        }
        assert(self@.children.take(self.children.len() as int) =~= self@.children);
        s
    }

    /// The element children of this node, in order (text fragments left out).
    pub fn child_nodes(&self) -> (v: Vec<&XmlNode>)
        ensures
            v@.len() == child_elems(self@.children).len(),
            v@.len() == elem_positions(self@.children).len(),
            forall|k: int| 0 <= k < v@.len() ==> (#[trigger] v@[k])@ == child_elems(self@.children)[k],
            forall|k: int|
                0 <= k < v@.len() ==> {
                    &&& 0 <= #[trigger] elem_positions(self@.children)[k] < self.children@.len()
                    &&& self.children@[elem_positions(self@.children)[k]] == XmlChild::Node(*v@[k])
                },
    {
        let mut v: Vec<&XmlNode> = Vec::new();
        let mut i: usize = 0;
        while i < self.children.len()
            invariant
                i <= self.children.len(),
                v@.len() == child_elems(self@.children.take(i as int)).len(),
                v@.len() == elem_positions(self@.children.take(i as int)).len(),
                forall|k: int|
                    0 <= k < v@.len() ==> (#[trigger] v@[k])@ == child_elems(
                        self@.children.take(i as int),
                    )[k],
                forall|k: int|
                    0 <= k < v@.len() ==> {
                        &&& 0 <= #[trigger] elem_positions(self@.children.take(i as int))[k] < i
                        &&& self.children@[elem_positions(self@.children.take(i as int))[k]]
                            == XmlChild::Node(*v@[k])
                    },
            decreases self.children.len() - i,
        {
            assert(self@.children.take(i + 1).drop_last() =~= self@.children.take(i as int));
            match &self.children[i] {
                XmlChild::Node(n) => {
                    v.push(n);
                },
                XmlChild::Text(_) => {},
            }
            i = i + 1;
        }
        assert(self@.children.take(self.children.len() as int) =~= self@.children);
        v
    }

    /// The first element child with the given tag.
    pub fn find_child(&self, tag: &str) -> (r: Option<&XmlNode>)
        ensures
            match r {
                Some(n) => first_with_tag(child_elems(self@.children), tag@) == Some(n@),
                None => first_with_tag(child_elems(self@.children), tag@) is None,
            },
    {
        let nodes = self.child_nodes();
        let ghost elems = child_elems(self@.children);
        let mut i: usize = 0;
        assert(elems.skip(0) =~= elems);
        while i < nodes.len()
            invariant
                i <= nodes@.len(),
                elems == child_elems(self@.children),
                nodes@.len() == elems.len(),
                forall|k: int| 0 <= k < nodes@.len() ==> (#[trigger] nodes@[k])@ == elems[k],
                first_with_tag(elems, tag@) == first_with_tag(elems.skip(i as int), tag@),
            decreases nodes.len() - i,
        {
            assert(elems.skip(i as int).drop_first() =~= elems.skip(i + 1));
            if str_eq(nodes[i].tag.as_str(), tag) {
                let found = nodes[i];
                assert(elems.skip(i as int)[0] == found@);
                return Some(found);
            }
            i = i + 1;
        }
        None
    }

    /// The value of the first attribute with the given name.
    pub fn get_attribute(&self, name: &str) -> (r: Option<&str>)
        ensures
            match r {
                Some(v) => attr_lookup(self@.attributes, name@) == Some(v@),
                None => attr_lookup(self@.attributes, name@) is None,
            },
    {
        let ghost attrs = self@.attributes;
        let mut i: usize = 0;
        assert(attrs.skip(0) =~= attrs);
        while i < self.attributes.len()
            invariant
                i <= self.attributes.len(),
                attrs == attrs_view(self.attributes@),
                attr_lookup(attrs, name@) == attr_lookup(attrs.skip(i as int), name@),
            decreases self.attributes.len() - i,
        {
            assert(attrs.skip(i as int).drop_first() =~= attrs.skip(i + 1));
            if str_eq(self.attributes[i].0.as_str(), name) {
                return Some(self.attributes[i].1.as_str());
            }
            i = i + 1;
        }
        None
    }
}

/// The display name of a format.
pub open spec fn format_name(f: Format) -> Seq<char> {
    match f {
        Format::Json => seq!['J', 'S', 'O', 'N'],
        Format::Xml => seq!['X', 'M', 'L'],
    }
}

impl Format {
    /// "JSON" or "XML".
    pub fn name(&self) -> (s: String)
        ensures
            s@ == format_name(*self),
    {
        let mut s = String::new();
        match self {
            Format::Json => {
                s.push('J');
                s.push('S');
                s.push('O');
                s.push('N');
            },
            Format::Xml => {
                s.push('X');
                s.push('M');
                s.push('L');
            },
        }
        assert(s@ =~= format_name(*self));
        s
    }
}

/// The format a document's first significant character announces.
pub open spec fn detected_format(s: Seq<char>) -> Result<Format, ParseError> {
    let t = trimmed(s);
    if t.len() == 0 {
        Err(ParseError::EmptyInput)
    } else if t[0] == '{' || t[0] == '[' {
        Ok(Format::Json)
    } else if t[0] == '<' {
        Ok(Format::Xml)
    } else {
        Err(ParseError::UnknownFormat)
    }
}

/// Detects whether a text is JSON or XML by its first non-whitespace character:
/// `{` or `[` is JSON, `<` is XML, anything else is an unknown format.
pub fn auto_detect_format(input: &str) -> (r: Result<Format, ParseError>)
    ensures
        r == detected_format(input@),
{
    let v = chars_of(input);
    let (start, end) = trim_bounds(&v);
    if start == end {
        return Err(ParseError::EmptyInput);
    }
    let c = v[start];
    assert(trimmed(input@)[0] == v@[start as int]);
    if c == '{' || c == '[' {
        Ok(Format::Json)
    } else if c == '<' {
        Ok(Format::Xml)
    } else {
        Err(ParseError::UnknownFormat)
    }
}

/// The byte length of a text, as `str::len` gives it.
pub open spec fn byte_len(s: &str) -> usize {
    s.spec_bytes().len() as usize
}

/// Rejects inputs above `MAX_INPUT_SIZE` bytes.
pub fn validate_size(input: &str) -> (r: Result<(), ParseError>)
    ensures
        byte_len(input) > MAX_INPUT_SIZE ==> r == Err::<(), ParseError>(
            ParseError::InputTooLarge { limit: MAX_INPUT_SIZE, actual: byte_len(input) },
        ),
        byte_len(input) <= MAX_INPUT_SIZE ==> r is Ok,
{
    let n = input.len();
    if n > MAX_INPUT_SIZE {
        return Err(ParseError::InputTooLarge { limit: MAX_INPUT_SIZE, actual: n });
    }
    Ok(())
}

/// The message of an error.
pub open spec fn error_message(e: ParseError) -> Seq<char> {
    match e {
        ParseError::InvalidJson(m) => "invalid JSON: "@ + m@,
        ParseError::InvalidXml(m) => "invalid XML: "@ + m@,
        ParseError::UnknownFormat => "unknown format: the text does not look like valid JSON or XML"@,
        ParseError::EmptyInput => "the document is empty"@,
        ParseError::InputTooLarge { limit, actual } => "document exceeds the "@ + decimal(limit as nat)
            + "-byte limit (is "@ + decimal(actual as nat) + " bytes)"@,
    }
}

impl ParseError {
    /// The message of this error.
    pub fn message(&self) -> (s: String)
        ensures
            s@ == error_message(*self),
    {
        match self {
            ParseError::InvalidJson(m) => {
                let mut s = String::from_str("invalid JSON: ");
                s.append(m.as_str());
                s
            },
            ParseError::InvalidXml(m) => {
                let mut s = String::from_str("invalid XML: ");
                s.append(m.as_str());
                s
            },
            ParseError::UnknownFormat => String::from_str(
                "unknown format: the text does not look like valid JSON or XML",
            ),
            ParseError::EmptyInput => String::from_str("the document is empty"),
            ParseError::InputTooLarge { limit, actual } => {
                let mut s = String::from_str("document exceeds the ");
                s.append(usize_text(*limit).as_str());
                s.append("-byte limit (is ");
                s.append(usize_text(*actual).as_str());
                s.append(" bytes)");
                s
            },
        }
    }
}

impl XmlNode {
    /// A copy of this node.
    pub fn duplicate(&self) -> (r: XmlNode)
        ensures
            r@ == self@,
        decreases self,
    {
        let mut attributes: Vec<(String, String)> = Vec::new();
        let mut i: usize = 0;
        while i < self.attributes.len()
            invariant
                i <= self.attributes.len(),
                attributes@.len() == i,
                forall|m: int|
                    0 <= m < i ==> (#[trigger] attributes@[m]).0@ == self.attributes@[m].0@
                        && attributes@[m].1@ == self.attributes@[m].1@,
            decreases self.attributes.len() - i,
        {
            let k = self.attributes[i].0.clone();
            let v = self.attributes[i].1.clone();
            attributes.push((k, v));
            i = i + 1;
        }
        assert(attrs_view(attributes@) =~= attrs_view(self.attributes@));
        let mut children: Vec<XmlChild> = Vec::new();
        let mut j: usize = 0;
        while j < self.children.len()
            invariant
                j <= self.children.len(),
                children@.len() == j,
                forall|k: int| 0 <= k < j ==> xml_child_view(#[trigger] children@[k]) == xml_child_view(self.children@[k]),
            decreases self.children.len() - j,
        {
            let c = match &self.children[j] {
                XmlChild::Text(t) => XmlChild::Text(t.clone()),
                XmlChild::Node(n) => {
                    proof {
                        assert(decreases_to!(self => self.children@[j as int]));
                    }
                    XmlChild::Node(n.duplicate())
                },
            };
            children.push(c);
            j = j + 1;
        }
        let r = XmlNode { tag: self.tag.clone(), attributes, children };
        assert(r@.children =~= self@.children);
        r
    }
}

impl Clone for XmlNode {
    fn clone(&self) -> (r: Self)
        ensures
            r@ == self@,
    {
        self.duplicate()
    }
}

} // verus!
