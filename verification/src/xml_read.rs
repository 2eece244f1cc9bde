//! Reading XML text into an `XmlNode` tree, and re-indenting XML text.
//!
//! quick-xml tokenizes the text; the tree is built here from the events it
//! yields, with a stack of open elements.

use vstd::prelude::*;
use crate::parser::{ParseError, XmlChild, XmlChildV, XmlNode, XmlNodeV, attrs_view, byte_len, validate_size, MAX_INPUT_SIZE};
use crate::text::{chars_of, decimal, string_of, trim_chars, trimmed, u64_text};
use crate::xml_source::{
    AttrFailure, AttrFailureV, ReadStep, StartTag, XmlSource, XmlStep, XmlStepV, quick_xml_step,
    quick_xml_tag_attributes, quick_xml_tag_name, quick_xml_text, quick_xml_write, quick_xml_indented,
    utf8_decoding, xml_next, xml_reader_for, xml_reader_trim_text, xml_tag_attributes, xml_tag_name,
    xml_text_unescaped, xml_write, xml_writer, xml_written,
};

verus! {

/// An event of the XML text, as the tree builder reads it.
pub enum XmlEvent {
    /// An opening tag: the node, without children yet.
    Open(XmlNode),
    /// A self-closing tag.
    SelfClosing(XmlNode),
    /// A text fragment.
    Text(String),
    /// A closing tag.
    Close,
    /// The text could not be read; the message says why.
    Failed(String),
}

pub enum XmlEventV {
    Open(XmlNodeV),
    SelfClosing(XmlNodeV),
    Text(Seq<char>),
    Close,
    Failed(Seq<char>),
}

impl XmlEvent {
    pub open spec fn view(&self) -> XmlEventV {
        match self {
            XmlEvent::Open(n) => XmlEventV::Open(n@),
            XmlEvent::SelfClosing(n) => XmlEventV::SelfClosing(n@),
            XmlEvent::Text(t) => XmlEventV::Text(t@),
            XmlEvent::Close => XmlEventV::Close,
            XmlEvent::Failed(m) => XmlEventV::Failed(m@),
        }
    }
}

pub open spec fn events_view(evs: Seq<XmlEvent>) -> Seq<XmlEventV> {
    Seq::new(evs.len(), |i: int| evs[i]@)
}

/// The event for a start tag, given what decoding its name gave and what
/// reading its attributes gave: the element without children, or a failure
/// whose message says which of the two went wrong.
pub open spec fn start_event_spec(
    name: Result<Seq<char>, Seq<char>>,
    attrs: Result<Seq<(Seq<char>, Seq<char>)>, AttrFailureV>,
    self_closing: bool,
) -> XmlEventV {
    match name {
        Err(m) => XmlEventV::Failed("Error decodificando tag: "@ + m),
        Ok(tag) => match attrs {
            Err(AttrFailureV::Attribute(m)) => XmlEventV::Failed("Error en atributo: "@ + m),
            Err(AttrFailureV::Key(m)) => XmlEventV::Failed("Error en clave de atributo: "@ + m),
            Err(AttrFailureV::Value(m)) => XmlEventV::Failed("Error en valor de atributo: "@ + m),
            Ok(a) => {
                let n = XmlNodeV { tag, attributes: a, children: Seq::empty() };
                if self_closing {
                    XmlEventV::SelfClosing(n)
                } else {
                    XmlEventV::Open(n)
                }
            },
        },
    }
}

/// The event for a text fragment, given what unescaping it gave.
pub open spec fn text_event_spec(t: Result<Seq<char>, Seq<char>>) -> XmlEventV {
    match t {
        Ok(s) => XmlEventV::Text(s),
        Err(m) => XmlEventV::Failed("Error en texto: "@ + m),
    }
}

/// The message for a reader failure at a byte position.
pub open spec fn position_failure(position: u64, message: Seq<char>) -> Seq<char> {
    "Error en posición "@ + decimal(position as nat) + ": "@ + message
}

/// The message for a failure of the reader while re-indenting.
pub open spec fn pretty_read_failure(position: u64, message: Seq<char>) -> Seq<char> {
    "Error leyendo XML en posición "@ + decimal(position as nat) + ": "@ + message
}

/// The open elements and the root found so far.
pub struct BuildState {
    pub stack: Seq<XmlNodeV>,
    pub root: Option<XmlNodeV>,
}

pub open spec fn with_child(n: XmlNodeV, c: XmlChildV) -> XmlNodeV {
    XmlNodeV { tag: n.tag, attributes: n.attributes, children: n.children.push(c) }
}

/// A finished element goes into the innermost open element, or becomes
/// the root when none is open (the first root found is kept).
pub open spec fn place(st: BuildState, n: XmlNodeV) -> BuildState {
    if st.stack.len() > 0 {
        BuildState {
            stack: st.stack.update(st.stack.len() - 1, with_child(st.stack.last(), XmlChildV::Node(n))),
            root: st.root,
        }
    } else {
        BuildState { stack: st.stack, root: if st.root is Some { st.root } else { Some(n) } }
    }
}

pub open spec fn close_without_open_message() -> Seq<char> {
    "Etiqueta de cierre sin apertura"@
}

pub open spec fn no_root_message() -> Seq<char> {
    "No se encontró un nodo raíz"@
}

/// One event applied to the builder's state.
pub open spec fn build_step(st: BuildState, ev: XmlEventV) -> Result<BuildState, Seq<char>> {
    match ev {
        XmlEventV::Open(n) => Ok(BuildState { stack: st.stack.push(n), root: st.root }),
        XmlEventV::SelfClosing(n) => Ok(place(st, n)),
        XmlEventV::Text(t) => if trimmed(t).len() == 0 || st.stack.len() == 0 {
            Ok(st)
        } else {
            Ok(
                BuildState {
                    stack: st.stack.update(st.stack.len() - 1, with_child(st.stack.last(), XmlChildV::Text(t))),
                    root: st.root,
                },
            )
        },
        XmlEventV::Close => if st.stack.len() == 0 {
            Err(close_without_open_message())
        } else {
            Ok(place(BuildState { stack: st.stack.drop_last(), root: st.root }, st.stack.last()))
        },
        XmlEventV::Failed(m) => Err(m),
    }
}

/// The builder's state after the events, or the first error.
pub open spec fn build_run(evs: Seq<XmlEventV>) -> Result<BuildState, Seq<char>>
    decreases evs.len(),
{
    if evs.len() == 0 {
        Ok(BuildState { stack: Seq::empty(), root: None })
    } else {
        match build_run(evs.drop_last()) {
            Err(m) => Err(m),
            Ok(st) => build_step(st, evs.last()),
        }
    }
}

/// The tree the events describe: the first root element, or the error.
pub open spec fn xml_tree(evs: Seq<XmlEventV>) -> Result<XmlNodeV, Seq<char>> {
    match build_run(evs) {
        Err(m) => Err(m),
        Ok(st) => match st.root {
            Some(n) => Ok(n),
            None => Err(no_root_message()),
        },
    }
}

/// The outcome of reading, compared with the tree the events describe.
pub open spec fn tree_matches(r: Result<XmlNode, ParseError>, t: Result<XmlNodeV, Seq<char>>) -> bool {
    match r {
        Ok(n) => t == Ok::<XmlNodeV, Seq<char>>(n@),
        Err(ParseError::InvalidXml(m)) => t == Err::<XmlNodeV, Seq<char>>(m@),
        Err(_) => false,
    }
}

pub open spec fn state_of(s: Seq<XmlNode>, r: Option<XmlNode>) -> BuildState {
    BuildState { stack: stack_view(s), root: root_view(r) }
}

pub open spec fn stack_view(s: Seq<XmlNode>) -> Seq<XmlNodeV> {
    Seq::new(s.len(), |i: int| s[i]@)
}

pub open spec fn root_view(r: Option<XmlNode>) -> Option<XmlNodeV> {
    match r {
        Some(n) => Some(n@),
        None => None,
    }
}

fn add_child(n: XmlNode, c: XmlChild) -> (r: XmlNode)
    ensures
        r@ == with_child(n@, crate::parser::xml_child_view(c)),
{
    let XmlNode { tag, attributes, mut children } = n;
    let ghost old_children = children@;
    children.push(c);
    let r = XmlNode { tag, attributes, children };
    assert(r@.children =~= with_child(n@, crate::parser::xml_child_view(c)).children);
    r
}

fn place_exec(stack: &mut Vec<XmlNode>, root: &mut Option<XmlNode>, n: XmlNode)
    ensures
        state_of(final(stack)@, *final(root)) == place(state_of(old(stack)@, *old(root)), n@),
{
    let ghost st = BuildState { stack: stack_view(stack@), root: root_view(*root) };
    if stack.len() > 0 {
        let top = stack.pop().unwrap();
        let top2 = add_child(top, XmlChild::Node(n));
        stack.push(top2);
        assert(stack_view(stack@) =~= place(st, n@).stack);
    } else if root.is_none() {
        *root = Some(n);
        assert(stack_view(stack@) =~= place(st, n@).stack);
    } else {
        assert(stack_view(stack@) =~= place(st, n@).stack);
    }
}

/// Builds the tree that a sequence of events describes. Open elements are
/// kept on a stack; text that is only whitespace, or outside any element,
/// is left out; the first complete top-level element is the root.
#[verifier::loop_isolation(false)]
pub fn build_xml_tree(events: Vec<XmlEvent>) -> (r: Result<XmlNode, ParseError>)
    ensures
        tree_matches(r, xml_tree(events_view(events@))),
{
    let ghost evs = events_view(events@);
    let mut rev: Vec<XmlEvent> = Vec::new();
    let mut events = events;
    while events.len() > 0
        invariant
            events@.len() + rev@.len() == evs.len(),
            forall|k: int| 0 <= k < events@.len() ==> #[trigger] events@[k]@ == evs[k],
            forall|k: int| 0 <= k < rev@.len() ==> #[trigger] rev@[k]@ == evs[evs.len() - 1 - k],
        decreases events.len(),
    {
        let e = events.pop().unwrap();
        rev.push(e);
    }
    let mut stack: Vec<XmlNode> = Vec::new();
    let mut root: Option<XmlNode> = None;
    let ghost mut done: int = 0;
    assert(evs.take(0) =~= Seq::<XmlEventV>::empty());
    assert(stack_view(stack@) =~= Seq::<XmlNodeV>::empty());
    while rev.len() > 0
        invariant
            done + rev@.len() == evs.len(),
            0 <= done <= evs.len(),
            forall|k: int| 0 <= k < rev@.len() ==> #[trigger] rev@[k]@ == evs[evs.len() - 1 - k],
            build_run(evs.take(done)) == Ok::<BuildState, Seq<char>>(state_of(stack@, root)),
        decreases rev.len(),
    {
        let ev = rev.pop().unwrap();
        let ghost st = BuildState { stack: stack_view(stack@), root: root_view(root) };
        let ghost evv = ev@;
        proof {
            assert(evv == evs[done]);
            assert(evs.take(done + 1).drop_last() =~= evs.take(done));
        }
        match ev {
            XmlEvent::Open(n) => {
                stack.push(n);
                assert(stack_view(stack@) =~= st.stack.push(evv->Open_0));
            },
            XmlEvent::SelfClosing(n) => {
                place_exec(&mut stack, &mut root, n);
            },
            XmlEvent::Text(t) => {
                let tc = chars_of(t.as_str());
                let tt = trim_chars(&tc);
                if tt.len() > 0 && stack.len() > 0 {
                    let top = stack.pop().unwrap();
                    let top2 = add_child(top, XmlChild::Text(t));
                    stack.push(top2);
                    assert(stack_view(stack@) =~= st.stack.update(st.stack.len() - 1, with_child(st.stack.last(), XmlChildV::Text(evv->Text_0))));
                }
            },
            XmlEvent::Close => {
                if stack.len() == 0 {
                    proof {
                        assert(build_run(evs.take(done + 1)) == Err::<BuildState, Seq<char>>(close_without_open_message()));
                        lemma_run_err_sticks(evs, done + 1);
                    }
                    return Err(ParseError::InvalidXml(String::from_str("Etiqueta de cierre sin apertura")));
                }
                let finished = stack.pop().unwrap();
                assert(stack_view(stack@) =~= st.stack.drop_last());
                place_exec(&mut stack, &mut root, finished);
            },
            XmlEvent::Failed(m) => {
                proof {
                    assert(build_run(evs.take(done + 1)) == Err::<BuildState, Seq<char>>(m@));
                    lemma_run_err_sticks(evs, done + 1);
                }
                return Err(ParseError::InvalidXml(m));
            },
        }
        proof {
            done = done + 1;
        }
    }
    assert(evs.take(done) =~= evs);
    match root {
        Some(n) => Ok(n),
        None => Err(ParseError::InvalidXml(String::from_str("No se encontró un nodo raíz"))),
    }
}

/// Once the builder fails, later events do not change the error.
proof fn lemma_run_err_sticks(evs: Seq<XmlEventV>, k: int)
    requires
        0 <= k <= evs.len(),
        build_run(evs.take(k)) is Err,
    ensures
        build_run(evs) == build_run(evs.take(k)),
    decreases evs.len() - k,
{
    if k < evs.len() {
        assert(evs.take(k + 1).drop_last() =~= evs.take(k));
        lemma_run_err_sticks(evs, k + 1);
    } else {
        assert(evs.take(k) =~= evs);
    }
}

fn failure_message(prefix: &str, detail: &String) -> (s: String)
    ensures
        s@ == prefix@ + detail@,
{
    let mut s = String::from_str(prefix);
    s.append(detail.as_str());
    s
}

/// The builder's event for read `k` of the text: a start tag gives the
/// element (or the failure to read its name or attributes), a text event its
/// unescaped text, a closing tag `Close`, a failure of the reader its
/// position and message; other reads give none.
pub open spec fn event_at(text: Seq<char>, k: nat) -> Option<XmlEventV> {
    match quick_xml_step(text, k) {
        XmlStepV::Start => Some(
            start_event_spec(quick_xml_tag_name(text, k), quick_xml_tag_attributes(text, k), false),
        ),
        XmlStepV::Empty => Some(
            start_event_spec(quick_xml_tag_name(text, k), quick_xml_tag_attributes(text, k), true),
        ),
        XmlStepV::Text => Some(text_event_spec(quick_xml_text(text, k))),
        XmlStepV::End => Some(XmlEventV::Close),
        XmlStepV::Other => None,
        XmlStepV::Eof => None,
        XmlStepV::Failed { position, message } => Some(XmlEventV::Failed(position_failure(position, message))),
    }
}

/// The events of the first `k` reads of the text, and whether reading has
/// stopped: at the end of the text, or after the first failed event.
pub open spec fn reading(text: Seq<char>, k: nat) -> (Seq<XmlEventV>, bool)
    decreases k,
{
    if k == 0 {
        (Seq::empty(), false)
    } else {
        let prev = reading(text, (k - 1) as nat);
        if prev.1 {
            prev
        } else if quick_xml_step(text, (k - 1) as nat) is Eof {
            (prev.0, true)
        } else {
            match event_at(text, (k - 1) as nat) {
                None => (prev.0, false),
                Some(e) => (prev.0.push(e), e is Failed),
            }
        }
    }
}

/// The events of the text that at most `limit` reads give.
pub open spec fn xml_events(text: Seq<char>, limit: nat) -> Seq<XmlEventV> {
    reading(text, limit).0
}

/// How many reads a text of `n` bytes is given: two more than its length.
pub open spec fn read_limit(n: nat) -> nat {
    if n < usize::MAX - 2 {
        n + 2
    } else {
        usize::MAX as nat
    }
}

/// The tree that reading an XML document gives: the tree that the events
/// of its trimmed text describe, within two more reads than its length.
pub open spec fn xml_document(input: &str) -> Result<XmlNodeV, Seq<char>> {
    xml_tree(xml_events(trimmed(input@), read_limit(byte_len(input) as nat)))
}

/// No text child anywhere in the tree is blank.
pub open spec fn text_clean(n: XmlNodeV) -> bool
    decreases n,
{
    forall|i: int|
        0 <= i < n.children.len() ==> match #[trigger] n.children[i] {
            XmlChildV::Text(t) => trimmed(t).len() > 0,
            XmlChildV::Node(c) => text_clean(c),
        }
}

/// An event that brings no blank text: a tag's element has no children yet.
pub open spec fn event_clean(e: XmlEventV) -> bool {
    match e {
        XmlEventV::Open(n) => n.children.len() == 0,
        XmlEventV::SelfClosing(n) => n.children.len() == 0,
        _ => true,
    }
}

pub open spec fn state_clean(st: BuildState) -> bool {
    &&& forall|i: int| 0 <= i < st.stack.len() ==> text_clean(#[trigger] st.stack[i])
    &&& st.root matches Some(n) ==> text_clean(n)
}

proof fn lemma_with_child_clean(n: XmlNodeV, c: XmlChildV)
    requires
        text_clean(n),
        match c {
            XmlChildV::Text(t) => trimmed(t).len() > 0,
            XmlChildV::Node(m) => text_clean(m),
        },
    ensures
        text_clean(with_child(n, c)),
{
    let w = with_child(n, c);
    assert forall|i: int| 0 <= i < w.children.len() implies match #[trigger] w.children[i] {
        XmlChildV::Text(t) => trimmed(t).len() > 0,
        XmlChildV::Node(m) => text_clean(m),
    } by {
        if i < n.children.len() {
            assert(w.children[i] == n.children[i]);
        }
    }
}

proof fn lemma_place_clean(st: BuildState, n: XmlNodeV)
    requires
        state_clean(st),
        text_clean(n),
    ensures
        state_clean(place(st, n)),
{
    if st.stack.len() > 0 {
        let top = st.stack.last();
        lemma_with_child_clean(top, XmlChildV::Node(n));
        let p = place(st, n);
        assert forall|i: int| 0 <= i < p.stack.len() implies text_clean(#[trigger] p.stack[i]) by {
            if i < st.stack.len() - 1 {
                assert(p.stack[i] == st.stack[i]);
            }
        }
    }
}

proof fn lemma_build_run_clean(evs: Seq<XmlEventV>)
    requires
        forall|k: int| 0 <= k < evs.len() ==> event_clean(#[trigger] evs[k]),
    ensures
        build_run(evs) matches Ok(st) ==> state_clean(st),
    decreases evs.len(),
{
    if evs.len() > 0 {
        let init = evs.drop_last();
        assert forall|k: int| 0 <= k < init.len() implies event_clean(#[trigger] init[k]) by {
            assert(init[k] == evs[k]);
        }
        lemma_build_run_clean(init);
        if let Ok(st) = build_run(init) {
            let ev = evs.last();
            assert(event_clean(evs[evs.len() - 1]));
            match ev {
                XmlEventV::Open(n) => {
                    let s2 = BuildState { stack: st.stack.push(n), root: st.root };
                    assert forall|i: int| 0 <= i < s2.stack.len() implies text_clean(#[trigger] s2.stack[i]) by {
                        if i < st.stack.len() {
                            assert(s2.stack[i] == st.stack[i]);
                        }
                    }
                },
                XmlEventV::SelfClosing(n) => {
                    lemma_place_clean(st, n);
                },
                XmlEventV::Text(t) => {
                    if !(trimmed(t).len() == 0 || st.stack.len() == 0) {
                        lemma_with_child_clean(st.stack.last(), XmlChildV::Text(t));
                        let s2 = BuildState {
                            stack: st.stack.update(st.stack.len() - 1, with_child(st.stack.last(), XmlChildV::Text(t))),
                            root: st.root,
                        };
                        assert forall|i: int| 0 <= i < s2.stack.len() implies text_clean(#[trigger] s2.stack[i]) by {
                            if i < st.stack.len() - 1 {
                                assert(s2.stack[i] == st.stack[i]);
                            }
                        }
                    }
                },
                XmlEventV::Close => {
                    if st.stack.len() > 0 {
                        let s1 = BuildState { stack: st.stack.drop_last(), root: st.root };
                        assert forall|i: int| 0 <= i < s1.stack.len() implies text_clean(#[trigger] s1.stack[i]) by {
                            assert(s1.stack[i] == st.stack[i]);
                        }
                        lemma_place_clean(s1, st.stack.last());
                    }
                },
                XmlEventV::Failed(_) => {},
            }
        }
    }
}

proof fn lemma_reading_clean(text: Seq<char>, k: nat)
    ensures
        forall|i: int| 0 <= i < reading(text, k).0.len() ==> event_clean(#[trigger] reading(text, k).0[i]),
    decreases k,
{
    if k > 0 {
        let prev = reading(text, (k - 1) as nat);
        lemma_reading_clean(text, (k - 1) as nat);
        let cur = reading(text, k);
        assert forall|i: int| 0 <= i < cur.0.len() implies event_clean(#[trigger] cur.0[i]) by {
            if i < prev.0.len() {
                assert(event_clean(prev.0[i]));
            }
        }
    }
}

/// A tree read from an XML document has no blank text anywhere: text
/// that is only whitespace is left out.
pub proof fn lemma_xml_document_clean(input: &str)
    ensures
        xml_document(input) matches Ok(n) ==> text_clean(n),
{
    let evs = xml_events(trimmed(input@), read_limit(byte_len(input) as nat));
    lemma_reading_clean(trimmed(input@), read_limit(byte_len(input) as nat));
    lemma_build_run_clean(evs);
}

/// Once reading has stopped, further reads change nothing.
pub proof fn lemma_reading_stays(text: Seq<char>, k: nat, m: nat)
    requires
        k <= m,
        reading(text, k).1,
    ensures
        reading(text, m) == reading(text, k),
    decreases m - k,
{
    if m > k {
        lemma_reading_stays(text, k, (m - 1) as nat);
    }
}

pub open spec fn event_view(r: Option<XmlEvent>) -> Option<XmlEventV> {
    match r {
        Some(e) => Some(e@),
        None => None,
    }
}

/// The builder's event for one read; `None` for reads it ignores.
fn event_of<'a>(src: &XmlSource<'a>, s: ReadStep<'a>) -> (r: Option<XmlEvent>)
    requires
        s.tied(),
    ensures
        event_view(r) == event_at(s.source(), s.at()),
{
    match s.into_step() {
        XmlStep::Start(t) => {
            let ev = start_event(src, &t, false);
            Some(ev)
        },
        XmlStep::Empty(t) => {
            let ev = start_event(src, &t, true);
            Some(ev)
        },
        XmlStep::Text(t) => match xml_text_unescaped(&t) {
            Ok(x) => Some(XmlEvent::Text(x)),
            Err(m) => Some(XmlEvent::Failed(failure_message("Error en texto: ", &m))),
        },
        XmlStep::End(_) => Some(XmlEvent::Close),
        XmlStep::Other(_) => None,
        XmlStep::Eof => None,
        XmlStep::Failed { position, message } => {
            let mut f = String::from_str("Error en posición ");
            f.append(u64_text(position).as_str());
            f.append(": ");
            f.append(message.as_str());
            proof {
                assert(f@ =~= position_failure(position, message@));
            }
            Some(XmlEvent::Failed(f))
        },
    }
}

fn start_event<'a>(src: &XmlSource<'a>, t: &StartTag<'a>, self_closing: bool) -> (r: XmlEvent)
    ensures
        r@ == start_event_spec(
            quick_xml_tag_name(t.source(), t.at()),
            quick_xml_tag_attributes(t.source(), t.at()),
            self_closing,
        ),
{
    let tag = match xml_tag_name(src, t) {
        Ok(n) => n,
        Err(m) => {
            return XmlEvent::Failed(failure_message("Error decodificando tag: ", &m));
        },
    };
    let attributes = match xml_tag_attributes(src, t) {
        Ok(a) => a,
        Err(AttrFailure::Attribute(m)) => {
            return XmlEvent::Failed(failure_message("Error en atributo: ", &m));
        },
        Err(AttrFailure::Key(m)) => {
            return XmlEvent::Failed(failure_message("Error en clave de atributo: ", &m));
        },
        Err(AttrFailure::Value(m)) => {
            return XmlEvent::Failed(failure_message("Error en valor de atributo: ", &m));
        },
    };
    let ghost a = attrs_view(attributes@);
    assert(a =~= Seq::new(attributes@.len(), |i: int| (attributes@[i].0@, attributes@[i].1@)));
    let node = XmlNode { tag, attributes, children: Vec::new() };
    proof {
        assert(node@.children =~= Seq::<XmlChildV>::empty());
    }
    if self_closing {
        XmlEvent::SelfClosing(node)
    } else {
        XmlEvent::Open(node)
    }
}

/// The events of an XML text, up to its end or its first failed event, in
/// at most `limit` reads.
fn read_events(text: &str, limit: usize) -> (evs: Vec<XmlEvent>)
    ensures
        events_view(evs@) == xml_events(text@, limit as nat),
{
    let mut src = xml_reader_for(text);
    xml_reader_trim_text(&mut src);
    let mut evs: Vec<XmlEvent> = Vec::new();
    let mut reads: usize = 0;
    assert(events_view(evs@) =~= Seq::<XmlEventV>::empty());
    while reads < limit
        invariant
            reads <= limit,
            src.source() == text@,
            src.reads() == reads,
            src.trims(),
            !reading(text@, reads as nat).1,
            events_view(evs@) == reading(text@, reads as nat).0,
        decreases limit - reads,
    {
        let ghost before = evs@;
        let s = xml_next(&mut src);
        reads = reads + 1;
        if s.is_end() {
            proof {
                lemma_reading_stays(text@, reads as nat, limit as nat);
            }
            return evs;
        }
        match event_of(&src, s) {
            Some(XmlEvent::Failed(m)) => {
                evs.push(XmlEvent::Failed(m));
                proof {
                    assert(events_view(evs@) =~= events_view(before).push(evs@.last()@));
                    lemma_reading_stays(text@, reads as nat, limit as nat);
                }
                return evs;
            },
            Some(ev) => {
                evs.push(ev);
                proof {
                    assert(events_view(evs@) =~= events_view(before).push(evs@.last()@));
                }
            },
            None => {},
        }
    }
    evs
}

/// Parses an XML text into a tree. The text may not exceed
/// `MAX_INPUT_SIZE` bytes and may not be blank; the tree is the one that
/// the reader's events on the trimmed text describe (declarations and
/// comments are ignored).
pub fn parse_xml(input: &str) -> (r: Result<XmlNode, ParseError>)
    ensures
        byte_len(input) > MAX_INPUT_SIZE ==> r == Err::<XmlNode, ParseError>(
            ParseError::InputTooLarge { limit: MAX_INPUT_SIZE, actual: byte_len(input) },
        ),
        byte_len(input) <= MAX_INPUT_SIZE && trimmed(input@).len() == 0 ==> r
            == Err::<XmlNode, ParseError>(ParseError::EmptyInput),
        byte_len(input) <= MAX_INPUT_SIZE && trimmed(input@).len() > 0 ==> tree_matches(r, xml_document(input)),
        r matches Ok(n) ==> text_clean(n@),
{
    match validate_size(input) {
        Err(e) => {
            return Err(e);
        },
        Ok(()) => {},
    }
    let chars = chars_of(input);
    let t = trim_chars(&chars);
    if t.len() == 0 {
        return Err(ParseError::EmptyInput);
    }
    let text = string_of(&t);
    let limit: usize = if input.len() < usize::MAX - 2 { input.len() + 2 } else { usize::MAX };
    let evs = read_events(text.as_str(), limit);
    proof {
        lemma_xml_document_clean(input);
    }
    build_xml_tree(evs)
}

/// What re-indenting has come to after `k` reads of the text: still going
/// (every read so far written), finished when read `n` was the end, or
/// failed with a message.
pub enum IndentRun {
    Going,
    Done(nat),
    Failed(Seq<char>),
}

pub open spec fn indent_run(text: Seq<char>, k: nat) -> IndentRun
    decreases k,
{
    if k == 0 {
        IndentRun::Going
    } else {
        match indent_run(text, (k - 1) as nat) {
            IndentRun::Going => match quick_xml_step(text, (k - 1) as nat) {
                XmlStepV::Eof => IndentRun::Done((k - 1) as nat),
                XmlStepV::Failed { position, message } => IndentRun::Failed(
                    pretty_read_failure(position, message),
                ),
                _ => match quick_xml_write(text, (k - 1) as nat) {
                    Ok(()) => IndentRun::Going,
                    Err(m) => IndentRun::Failed("Error escribiendo XML: "@ + m),
                },
            },
            other => other,
        }
    }
}

/// The text that the writer holds once it has written `n` events, or why
/// it is not UTF-8.
pub open spec fn indented_text(text: Seq<char>, n: nat) -> Result<Seq<char>, Seq<char>> {
    match utf8_decoding(quick_xml_indented(text, n)) {
        Ok(s) => Ok(s),
        Err(m) => Err("XML resultante no es UTF-8 válido: "@ + m),
    }
}

/// The re-indented text within `limit` reads, or the failure's message.
pub open spec fn indented_xml(text: Seq<char>, limit: nat) -> Result<Seq<char>, Seq<char>> {
    match indent_run(text, limit) {
        IndentRun::Going => indented_text(text, limit),
        IndentRun::Done(n) => indented_text(text, n),
        IndentRun::Failed(m) => Err(m),
    }
}

/// Once re-indenting has finished or failed, further reads change nothing.
pub proof fn lemma_indent_stays(text: Seq<char>, k: nat, m: nat)
    requires
        k <= m,
        !(indent_run(text, k) is Going),
    ensures
        indent_run(text, m) == indent_run(text, k),
    decreases m - k,
{
    if m > k {
        lemma_indent_stays(text, k, (m - 1) as nat);
    }
}

/// Re-indents an XML text by two spaces per level: the trimmed text's reads
/// are written, in order, to an indenting writer until the end of the text.
pub(crate) fn pretty_print_xml(input: &str) -> (r: Result<String, ParseError>)
    ensures
        match indented_xml(trimmed(input@), read_limit(byte_len(input) as nat)) {
            Ok(s) => r matches Ok(t) && t@ == s,
            Err(m) => r matches Err(e) && e matches ParseError::InvalidXml(x) && x@ == m,
        },
{
    let chars = chars_of(input);
    let t = trim_chars(&chars);
    let text = string_of(&t);
    let mut src = xml_reader_for(text.as_str());
    xml_reader_trim_text(&mut src);
    let mut writer = xml_writer(text.as_str());
    let limit: usize = if input.len() < usize::MAX - 2 { input.len() + 2 } else { usize::MAX };
    let mut reads: usize = 0;
    while reads < limit
        invariant_except_break
            writer.written() == reads,
            indent_run(text@, reads as nat) is Going,
        invariant
            reads <= limit,
            text@ == trimmed(input@),
            limit as nat == read_limit(byte_len(input) as nat),
            src.source() == text@,
            src.reads() == reads,
            src.trims(),
            writer.source() == text@,
            writer.intact(),
        ensures
            writer.intact(),
            writer.source() == text@,
            match indent_run(text@, limit as nat) {
                IndentRun::Going => writer.written() == limit,
                IndentRun::Done(n) => writer.written() == n,
                IndentRun::Failed(_) => false,
            },
        decreases limit - reads,
    {
        let s = xml_next(&mut src);
        reads = reads + 1;
        if s.is_end() {
            proof {
                lemma_indent_stays(text@, reads as nat, limit as nat);
            }
            break;
        }
        if s.is_failure() {
            if let XmlStep::Failed { position, message } = s.into_step() {
                let mut f = String::from_str("Error leyendo XML en posición ");
                f.append(u64_text(position).as_str());
                f.append(": ");
                f.append(message.as_str());
                proof {
                    assert(f@ =~= pretty_read_failure(position, message@));
                    assert(indent_run(text@, reads as nat) == IndentRun::Failed(f@));
                    lemma_indent_stays(text@, reads as nat, limit as nat);
                }
                return Err(ParseError::InvalidXml(f));
            }
            proof {
                assert(false);
            }
            return Err(ParseError::InvalidXml(String::new()));
        }
        match xml_write(&mut writer, s) {
            Ok(()) => {},
            Err(m) => {
                let f = failure_message("Error escribiendo XML: ", &m);
                proof {
                    assert(indent_run(text@, reads as nat) == IndentRun::Failed(f@));
                    lemma_indent_stays(text@, reads as nat, limit as nat);
                }
                return Err(ParseError::InvalidXml(f));
            },
        }
    }
    match xml_written(writer) {
        Ok(s) => Ok(s),
        Err(m) => Err(ParseError::InvalidXml(failure_message("XML resultante no es UTF-8 válido: ", &m))),
    }
}

} // verus!
