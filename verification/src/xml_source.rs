//! quick-xml's reader and writer, as this library uses them.
//!
//! A reader over a text yields the same events every time it reads that
//! text, and a writer that is given the same events holds the same bytes.
//! So what each call gives is named below as a function of the text and of
//! how many events were read (or written) before it. The reader and the
//! writer keep that text and that count in ghost fields, which only the
//! functions of this module set.

use vstd::prelude::*;
use quick_xml::events::{BytesEnd, BytesStart, BytesText, Event};
use quick_xml::reader::Reader;
use quick_xml::writer::Writer;
use std::io::Cursor;

verus! {

#[verifier::external_type_specification]
#[verifier::external_body]
#[verifier::reject_recursive_types(R)]
pub struct ExReader<R>(Reader<R>);

#[verifier::external_type_specification]
#[verifier::external_body]
#[verifier::reject_recursive_types(W)]
pub struct ExWriter<W>(Writer<W>);

#[verifier::external_type_specification]
#[verifier::external_body]
#[verifier::reject_recursive_types(T)]
pub struct ExCursor<T>(Cursor<T>);

#[verifier::external_type_specification]
#[verifier::external_body]
pub struct ExBytesStart<'a>(BytesStart<'a>);

#[verifier::external_type_specification]
#[verifier::external_body]
pub struct ExBytesText<'a>(BytesText<'a>);

#[verifier::external_type_specification]
#[verifier::external_body]
pub struct ExBytesEnd<'a>(BytesEnd<'a>);

#[verifier::external_type_specification]
#[verifier::external_body]
pub struct ExEvent<'a>(Event<'a>);

/// Why the attributes of a tag could not be read.
pub enum AttrFailure {
    Attribute(String),
    Key(String),
    Value(String),
}

/// Why the attributes of a tag could not be read, as plain values.
pub enum AttrFailureV {
    Attribute(Seq<char>),
    Key(Seq<char>),
    Value(Seq<char>),
}

impl AttrFailure {
    pub open spec fn view(&self) -> AttrFailureV {
        match self {
            AttrFailure::Attribute(m) => AttrFailureV::Attribute(m@),
            AttrFailure::Key(m) => AttrFailureV::Key(m@),
            AttrFailure::Value(m) => AttrFailureV::Value(m@),
        }
    }
}

/// What one read of the reader gave, by kind.
pub enum XmlStepV {
    Start,
    Empty,
    Text,
    End,
    /// Declarations, comments, CDATA, processing instructions, doctypes.
    Other,
    Eof,
    /// The reader failed at `position` with the given message.
    Failed { position: u64, message: Seq<char> },
}

/// What the `k`-th call (counting from 0) of `Reader::read_event` gives on
/// a reader made by `Reader::from_str(text)` that trims whitespace at both
/// ends of text events: the event's kind, or the reader's `error_position`
/// and the error's message.
pub uninterp spec fn quick_xml_step(text: Seq<char>, k: nat) -> XmlStepV;

/// The name of the start tag that that `k`-th read gives, decoded as text,
/// or the decoding error's message.
pub uninterp spec fn quick_xml_tag_name(text: Seq<char>, k: nat) -> Result<Seq<char>, Seq<char>>;

/// The attributes of the start tag that that `k`-th read gives, each key
/// decoded and each value unescaped, in order; or the first error.
pub uninterp spec fn quick_xml_tag_attributes(text: Seq<char>, k: nat) -> Result<
    Seq<(Seq<char>, Seq<char>)>,
    AttrFailureV,
>;

/// The text event that that `k`-th read gives, unescaped, or the error's
/// message.
pub uninterp spec fn quick_xml_text(text: Seq<char>, k: nat) -> Result<Seq<char>, Seq<char>>;

/// What `Writer::write_event` gives when a writer made by
/// `Writer::new_with_indent(Cursor::new(Vec::new()), b' ', 2)`, which holds
/// the events of reads `0..k` of `text`, is given the event of read `k`.
pub uninterp spec fn quick_xml_write(text: Seq<char>, k: nat) -> Result<(), Seq<char>>;

/// The bytes such a writer holds once it has been given the events of reads
/// `0..k` of `text`.
pub uninterp spec fn quick_xml_indented(text: Seq<char>, k: nat) -> Seq<u8>;

/// The message of the error `String::from_utf8` gives for bytes that are
/// not UTF-8.
pub uninterp spec fn utf8_error(bytes: Seq<u8>) -> Seq<char>;

/// What `String::from_utf8` gives for the bytes: their text when they are
/// UTF-8, else its error's message.
pub open spec fn utf8_decoding(bytes: Seq<u8>) -> Result<Seq<char>, Seq<char>> {
    if vstd::utf8::valid_utf8(bytes) {
        Ok(vstd::utf8::decode_utf8(bytes))
    } else {
        Err(utf8_error(bytes))
    }
}

/// A start tag that a reader gave, with the text read and the read's number.
pub struct StartTag<'a>(BytesStart<'a>, Ghost<Seq<char>>, Ghost<nat>);

/// A text event that a reader gave, with the text read and the read's number.
pub struct TextPiece<'a>(BytesText<'a>, Ghost<Seq<char>>, Ghost<nat>);

impl<'a> StartTag<'a> {
    pub closed spec fn source(&self) -> Seq<char> {
        self.1@
    }

    pub closed spec fn at(&self) -> nat {
        self.2@
    }
}

impl<'a> TextPiece<'a> {
    pub closed spec fn source(&self) -> Seq<char> {
        self.1@
    }

    pub closed spec fn at(&self) -> nat {
        self.2@
    }
}

/// One read of the reader.
pub enum XmlStep<'a> {
    Start(StartTag<'a>),
    Empty(StartTag<'a>),
    Text(TextPiece<'a>),
    End(BytesEnd<'a>),
    /// Declarations, comments, CDATA, processing instructions, doctypes.
    Other(Event<'a>),
    Eof,
    /// The reader failed at `position` with the given message.
    Failed { position: u64, message: String },
}

pub open spec fn step_kind(s: XmlStep) -> XmlStepV {
    match s {
        XmlStep::Start(_) => XmlStepV::Start,
        XmlStep::Empty(_) => XmlStepV::Empty,
        XmlStep::Text(_) => XmlStepV::Text,
        XmlStep::End(_) => XmlStepV::End,
        XmlStep::Other(_) => XmlStepV::Other,
        XmlStep::Eof => XmlStepV::Eof,
        XmlStep::Failed { position, message } => XmlStepV::Failed { position, message: message@ },
    }
}

/// A read, with the text read and the read's number.
pub struct ReadStep<'a> {
    step: XmlStep<'a>,
    source: Ghost<Seq<char>>,
    at: Ghost<nat>,
}

impl<'a> ReadStep<'a> {
    pub closed spec fn step(&self) -> XmlStep<'a> {
        self.step
    }

    pub closed spec fn source(&self) -> Seq<char> {
        self.source@
    }

    pub closed spec fn at(&self) -> nat {
        self.at@
    }

    /// The read's step is the one named for this text and number, and a tag
    /// or text in it carries the same text and number.
    pub open spec fn tied(&self) -> bool {
        &&& step_kind(self.step()) == quick_xml_step(self.source(), self.at())
        &&& self.step() matches XmlStep::Start(t) ==> t.source() == self.source() && t.at() == self.at()
        &&& self.step() matches XmlStep::Empty(t) ==> t.source() == self.source() && t.at() == self.at()
        &&& self.step() matches XmlStep::Text(t) ==> t.source() == self.source() && t.at() == self.at()
    }

    /// Whether the read found the end of the text.
    pub fn is_end(&self) -> (b: bool)
        ensures
            b == self.step() is Eof,
    {
        match &self.step {
            XmlStep::Eof => true,
            _ => false,
        }
    }

    /// Whether the reader failed on this read.
    pub fn is_failure(&self) -> (b: bool)
        ensures
            b == self.step() is Failed,
    {
        match &self.step {
            XmlStep::Failed { .. } => true,
            _ => false,
        }
    }

    /// The read's step.
    pub fn into_step(self) -> (r: XmlStep<'a>)
        ensures
            r == self.step(),
    {
        self.step
    }
}

/// A quick-xml reader over a text, with that text, the number of reads made
/// and whether it trims text events.
pub struct XmlSource<'a> {
    reader: Reader<&'a [u8]>,
    source: Ghost<Seq<char>>,
    reads: Ghost<nat>,
    trims: Ghost<bool>,
}

impl<'a> XmlSource<'a> {
    pub closed spec fn source(&self) -> Seq<char> {
        self.source@
    }

    pub closed spec fn reads(&self) -> nat {
        self.reads@
    }

    pub closed spec fn trims(&self) -> bool {
        self.trims@
    }
}

/// A quick-xml writer into memory, with the text whose events it is given,
/// how many it holds, and whether every write so far succeeded.
pub struct XmlSink {
    writer: Writer<Cursor<Vec<u8>>>,
    source: Ghost<Seq<char>>,
    written: Ghost<nat>,
    intact: Ghost<bool>,
}

impl XmlSink {
    pub closed spec fn source(&self) -> Seq<char> {
        self.source@
    }

    pub closed spec fn written(&self) -> nat {
        self.written@
    }

    pub closed spec fn intact(&self) -> bool {
        self.intact@
    }
}

/// `Reader::from_str`: a reader over the text, before its first read.
#[verifier::external_body]
pub(crate) fn xml_reader_for<'a>(input: &'a str) -> (r: XmlSource<'a>)
    ensures
        r.source() == input@,
        r.reads() == 0,
        !r.trims(),
{
    XmlSource { reader: Reader::from_str(input), source: Ghost(input@), reads: Ghost(0), trims: Ghost(false) }
}

/// `Reader::config_mut`: makes the reader trim whitespace at both ends of
/// text events, before its first read.
#[verifier::external_body]
pub(crate) fn xml_reader_trim_text<'a>(src: &mut XmlSource<'a>)
    requires
        old(src).reads() == 0,
    ensures
        final(src).source() == old(src).source(),
        final(src).reads() == 0,
        final(src).trims(),
{
    src.reader.config_mut().trim_text_start = true;
    src.reader.config_mut().trim_text_end = true;
    src.trims = Ghost(true);
}

/// `Reader::read_event`: the next read, by the event's variant; on an
/// error, the reader's `error_position` and the error's message. It is the
/// read that `quick_xml_step` names.
#[verifier::external_body]
pub(crate) fn xml_next<'a>(src: &mut XmlSource<'a>) -> (r: ReadStep<'a>)
    requires
        old(src).trims(),
    ensures
        final(src).source() == old(src).source(),
        final(src).reads() == old(src).reads() + 1,
        final(src).trims(),
        r.source() == old(src).source(),
        r.at() == old(src).reads(),
        step_kind(r.step()) == quick_xml_step(old(src).source(), old(src).reads()),
        r.tied(),
{
    let (s, k) = (src.source, src.reads);
    let step = match src.reader.read_event() {
        Ok(Event::Start(e)) => XmlStep::Start(StartTag(e, s, k)),
        Ok(Event::Empty(e)) => XmlStep::Empty(StartTag(e, s, k)),
        Ok(Event::Text(e)) => XmlStep::Text(TextPiece(e, s, k)),
        Ok(Event::End(e)) => XmlStep::End(e),
        Ok(Event::Eof) => XmlStep::Eof,
        Ok(other) => XmlStep::Other(other),
        Err(e) => XmlStep::Failed { position: src.reader.error_position(), message: e.to_string() },
    };
    src.reads = Ghost(src.reads@ + 1);
    ReadStep { step, source: s, at: k }
}

/// `Decoder::decode` on a start tag's name: the name as text, or the
/// decoding error's message, as `quick_xml_tag_name` names them.
#[verifier::external_body]
pub(crate) fn xml_tag_name<'a>(src: &XmlSource<'a>, t: &StartTag<'a>) -> (r: Result<String, String>)
    ensures
        match r {
            Ok(n) => quick_xml_tag_name(t.source(), t.at()) == Ok::<Seq<char>, Seq<char>>(n@),
            Err(m) => quick_xml_tag_name(t.source(), t.at()) == Err::<Seq<char>, Seq<char>>(m@),
        },
{
    match src.reader.decoder().decode(t.0.name().as_ref()) {
        Ok(name) => Ok(name.to_string()),
        Err(err) => Err(err.to_string()),
    }
}

/// `BytesStart::attributes`, each key decoded and each value unescaped, in
/// order; or the first error, as `quick_xml_tag_attributes` names them.
#[verifier::external_body]
pub(crate) fn xml_tag_attributes<'a>(src: &XmlSource<'a>, t: &StartTag<'a>) -> (r: Result<
    Vec<(String, String)>,
    AttrFailure,
>)
    ensures
        match r {
            Ok(a) => quick_xml_tag_attributes(t.source(), t.at()) == Ok::<Seq<(Seq<char>, Seq<char>)>, AttrFailureV>(
                Seq::new(a@.len(), |i: int| (a@[i].0@, a@[i].1@)),
            ),
            Err(f) => quick_xml_tag_attributes(t.source(), t.at()) == Err::<Seq<(Seq<char>, Seq<char>)>, AttrFailureV>(f@),
        },
{
    let mut out = Vec::new();
    for attr in t.0.attributes() {
        let attr = attr.map_err(|err| AttrFailure::Attribute(err.to_string()))?;
        let key = src.reader.decoder().decode(attr.key.as_ref()).map_err(|err| AttrFailure::Key(err.to_string()))?;
        let value = attr.unescape_value().map_err(|err| AttrFailure::Value(err.to_string()))?;
        out.push((key.to_string(), value.to_string()));
    }
    Ok(out)
}

/// `BytesText::unescape`: the text with its entities replaced, or the
/// error's message, as `quick_xml_text` names them.
#[verifier::external_body]
pub(crate) fn xml_text_unescaped<'a>(t: &TextPiece<'a>) -> (r: Result<String, String>)
    ensures
        match r {
            Ok(s) => quick_xml_text(t.source(), t.at()) == Ok::<Seq<char>, Seq<char>>(s@),
            Err(m) => quick_xml_text(t.source(), t.at()) == Err::<Seq<char>, Seq<char>>(m@),
        },
{
    match t.0.unescape() {
        Ok(s) => Ok(s.to_string()),
        Err(err) => Err(err.to_string()),
    }
}

/// `Writer::new_with_indent`: a writer into memory indenting by two spaces,
/// for the events of the text.
#[verifier::external_body]
pub(crate) fn xml_writer(source: &str) -> (w: XmlSink)
    ensures
        w.source() == source@,
        w.written() == 0,
        w.intact(),
{
    XmlSink { writer: Writer::new_with_indent(Cursor::new(Vec::new()), b' ', 2), source: Ghost(source@), written: Ghost(0), intact: Ghost(true) }
}

/// `Writer::write_event` with the event of the next read of the same text;
/// what it gives is what `quick_xml_write` names.
#[verifier::external_body]
pub(crate) fn xml_write<'a>(w: &mut XmlSink, s: ReadStep<'a>) -> (r: Result<(), String>)
    requires
        old(w).intact(),
        s.source() == old(w).source(),
        s.at() == old(w).written(),
        !(s.step() is Eof || s.step() is Failed),
    ensures
        final(w).source() == old(w).source(),
        match r {
            Ok(()) => quick_xml_write(s.source(), s.at()) == Ok::<(), Seq<char>>(())
                && final(w).written() == old(w).written() + 1 && final(w).intact(),
            Err(m) => quick_xml_write(s.source(), s.at()) == Err::<(), Seq<char>>(m@) && !final(w).intact(),
        },
{
    let written = match s.step {
        XmlStep::Start(t) => w.writer.write_event(Event::Start(t.0)),
        XmlStep::Empty(t) => w.writer.write_event(Event::Empty(t.0)),
        XmlStep::Text(t) => w.writer.write_event(Event::Text(t.0)),
        XmlStep::End(e) => w.writer.write_event(Event::End(e)),
        XmlStep::Other(ev) => w.writer.write_event(ev),
        XmlStep::Eof | XmlStep::Failed { .. } => Ok(()),
    };
    if written.is_ok() { w.written = Ghost(w.written@ + 1); } else { w.intact = Ghost(false); }
    written.map_err(|err| err.to_string())
}

/// `Writer::into_inner`, then `String::from_utf8` on the bytes the writer
/// holds, as `utf8_decoding` and `quick_xml_indented` name them.
#[verifier::external_body]
pub(crate) fn xml_written(w: XmlSink) -> (r: Result<String, String>)
    requires
        w.intact(),
    ensures
        match r {
            Ok(s) => vstd::utf8::valid_utf8(quick_xml_indented(w.source(), w.written()))
                && s@ == vstd::utf8::decode_utf8(quick_xml_indented(w.source(), w.written())),
            Err(m) => !vstd::utf8::valid_utf8(quick_xml_indented(w.source(), w.written()))
                && m@ == utf8_error(quick_xml_indented(w.source(), w.written())),
        },
{
    String::from_utf8(w.writer.into_inner().into_inner()).map_err(|err| err.to_string())
}

} // verus!
