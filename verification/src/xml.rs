//! Reading the list of machines that `mame -listxml` prints.
//!
//! The XML is tokenized by `quick_xml`. Each `<machine>` start tag names a
//! machine and says whether it is a BIOS; `<description>` holds its
//! description; a `<driver>` tag whose `emulation` attribute is `good` makes
//! the machine playable, unless it is a BIOS.
use vstd::prelude::*;
use vstd::utf8::{decode_utf8, valid_utf8};
use quick_xml::events::Event;
use crate::config::Config;
use crate::games::RomEntry;
use crate::text::bytes_equal;

verus! {

/// Declares `quick_xml::Reader`, whose contents the proofs do not see.
#[verifier::external_type_specification]
#[verifier::external_body]
#[verifier::reject_recursive_types(R)]
pub struct ExXmlReader<R>(quick_xml::Reader<R>);

/// Declares `quick_xml::Error`, whose contents the proofs do not see.
#[verifier::external_type_specification]
#[verifier::external_body]
pub struct ExXmlError(quick_xml::Error);

/// Declares `quick_xml::events::BytesStart`, whose contents the proofs do not see.
#[verifier::external_type_specification]
#[verifier::external_body]
pub struct ExXmlBytesStart<'a>(quick_xml::events::BytesStart<'a>);

/// An attribute of a tag: its name and raw value.
#[derive(Debug)]
pub struct XmlAttribute {
    pub key: Vec<u8>,
    pub value: Vec<u8>,
}

/// A start or empty tag: its name and its attributes in order, `None`
/// standing for an attribute that could not be read.
#[derive(Debug)]
pub struct XmlTag {
    pub name: Vec<u8>,
    pub attributes: Vec<Option<XmlAttribute>>,
}

/// An event of the XML reader.
#[derive(Debug)]
pub enum XmlEvent {
    Start(XmlTag),
    End,
    Empty(XmlTag),
    Text,
    CData,
    Comment,
    Decl,
    PI,
    DocType,
    Eof,
}

impl XmlTag {
    /// Reads the name and the attributes of a tag through
    /// `quick_xml::events::BytesStart::name` and `BytesStart::attributes`.
    /// It changes the tag's type only; it is used by `XmlReader::next_event`.
    #[verifier::external_body]
    fn from_bytes_start(e: &quick_xml::events::BytesStart) -> XmlTag {
        XmlTag {
            name: e.name().as_ref().to_vec(),
            attributes: e.attributes().map(
                |a| a.ok().map(|a| XmlAttribute { key: a.key.as_ref().to_vec(), value: a.value.to_vec() }),
            ).collect(),
        }
    }
}

/// A call made on an XML reader: reading the next event, or reading the raw
/// text up to the end tag with the given name.
pub enum XmlCall {
    NextEvent,
    TextUntil(Seq<u8>),
}

/// An XML reader: the text it reads and the calls made on it so far.
pub struct XmlReaderView {
    pub text: Seq<char>,
    pub calls: Seq<XmlCall>,
}

/// A `quick_xml` reader over a text, which trims the whitespace around text
/// and does not check that end tags match start tags.
pub struct XmlReader<'a> {
    reader: quick_xml::Reader<&'a [u8]>,
    text: Ghost<Seq<char>>,
    calls: Ghost<Seq<XmlCall>>,
}

impl<'a> View for XmlReader<'a> {
    type V = XmlReaderView;

    closed spec fn view(&self) -> XmlReaderView {
        XmlReaderView { text: self.text@, calls: self.calls@ }
    }
}

/// The event that `quick_xml::Reader::read_event` yields on a reader over
/// `reader.text` after the calls `reader.calls`; `None` when it fails.
pub uninterp spec fn xml_event(reader: XmlReaderView) -> Option<XmlEvent>;

/// The raw text that `quick_xml::Reader::read_text` yields, up to the end tag
/// named `name`, on a reader over `reader.text` after the calls
/// `reader.calls`; `None` when it fails.
pub uninterp spec fn xml_text(reader: XmlReaderView, name: Seq<u8>) -> Option<Seq<char>>;

impl<'a> XmlReader<'a> {
    /// Calls `quick_xml::Reader::from_str` and `Reader::config_mut` to set
    /// `trim_text(true)` and `check_end_names = false`: a reader over `xml`
    /// on which no call has been made yet.
    #[verifier::external_body]
    fn new(xml: &'a str) -> (r: XmlReader<'a>)
        ensures
            r@ == (XmlReaderView { text: xml@, calls: Seq::empty() }),
    {
        let mut reader = quick_xml::Reader::from_str(xml);
        let config = reader.config_mut();
        config.trim_text(true);
        config.check_end_names = false;
        XmlReader { reader, text: Ghost(xml@), calls: Ghost(Seq::empty()) }
    }

    /// Calls `quick_xml::Reader::read_event` and tells the variants of the
    /// event apart. The event is the one the reader yields for its text after
    /// the calls made so far, a function of the two (`xml_event`).
    #[verifier::external_body]
    fn next_event(&mut self) -> (r: Result<XmlEvent, quick_xml::Error>)
        ensures
            final(self)@ == (XmlReaderView {
                text: old(self)@.text,
                calls: old(self)@.calls.push(XmlCall::NextEvent),
            }),
            r is Ok <==> xml_event(old(self)@) is Some,
            r matches Ok(e) ==> xml_event(old(self)@) == Some(e),
    {
        match self.reader.read_event()? {
            Event::Start(e) => Ok(XmlEvent::Start(XmlTag::from_bytes_start(&e))),
            Event::End(_) => Ok(XmlEvent::End),
            Event::Empty(e) => Ok(XmlEvent::Empty(XmlTag::from_bytes_start(&e))),
            Event::Text(_) => Ok(XmlEvent::Text),
            Event::CData(_) => Ok(XmlEvent::CData),
            Event::Comment(_) => Ok(XmlEvent::Comment),
            Event::Decl(_) => Ok(XmlEvent::Decl),
            Event::PI(_) => Ok(XmlEvent::PI),
            Event::DocType(_) => Ok(XmlEvent::DocType),
            Event::Eof => Ok(XmlEvent::Eof),
        }
    }

    /// Calls `quick_xml::Reader::read_text`: the raw text up to the end tag
    /// named `name`, the one the reader yields for its text after the calls
    /// made so far (`xml_text`).
    #[verifier::external_body]
    fn text_until(&mut self, name: &[u8]) -> (r: Result<String, quick_xml::Error>)
        ensures
            final(self)@ == (XmlReaderView {
                text: old(self)@.text,
                calls: old(self)@.calls.push(XmlCall::TextUntil(name@)),
            }),
            r is Ok <==> xml_text(old(self)@, name@) is Some,
            r matches Ok(t) ==> xml_text(old(self)@, name@) == Some(t@),
    {
        self.reader.read_text(quick_xml::name::QName(name)).map(|t| t.into_owned())
    }
}

/// Calls `String::from_utf8`: the text that `bytes` encode in UTF-8, if they
/// are valid UTF-8 (as std documents it).
#[verifier::external_body]
fn utf8_text(bytes: &[u8]) -> (r: Option<String>)
    ensures
        r is Some <==> valid_utf8(bytes@),
        r matches Some(s) ==> s@ == decode_utf8(bytes@),
{
    String::from_utf8(bytes.to_vec()).ok()
}

/// The tag name `machine`.
pub open spec fn machine_name() -> Seq<u8> {
    seq![109u8, 97, 99, 104, 105, 110, 101]
}

/// The tag name `description`.
pub open spec fn description_name() -> Seq<u8> {
    seq![100u8, 101, 115, 99, 114, 105, 112, 116, 105, 111, 110]
}

/// The tag name `driver`.
pub open spec fn driver_name() -> Seq<u8> {
    seq![100u8, 114, 105, 118, 101, 114]
}

/// The attribute name `name`.
pub open spec fn name_key() -> Seq<u8> {
    seq![110u8, 97, 109, 101]
}

/// The attribute name `isbios`.
pub open spec fn isbios_key() -> Seq<u8> {
    seq![105u8, 115, 98, 105, 111, 115]
}

/// The attribute name `emulation`.
pub open spec fn emulation_key() -> Seq<u8> {
    seq![101u8, 109, 117, 108, 97, 116, 105, 111, 110]
}

/// The attribute value `good`.
pub open spec fn good_value() -> Seq<u8> {
    seq![103u8, 111, 111, 100]
}

fn is_machine_name(b: &[u8]) -> (r: bool)
    ensures
        r == (b@ == machine_name()),
{
    let k: [u8; 7] = [109, 97, 99, 104, 105, 110, 101];
    assert(k@ =~= machine_name());
    bytes_equal(b, k.as_slice())
}

fn is_description_name(b: &[u8]) -> (r: bool)
    ensures
        r == (b@ == description_name()),
{
    let k: [u8; 11] = [100, 101, 115, 99, 114, 105, 112, 116, 105, 111, 110];
    assert(k@ =~= description_name());
    bytes_equal(b, k.as_slice())
}

fn is_driver_name(b: &[u8]) -> (r: bool)
    ensures
        r == (b@ == driver_name()),
{
    let k: [u8; 6] = [100, 114, 105, 118, 101, 114];
    assert(k@ =~= driver_name());
    bytes_equal(b, k.as_slice())
}

fn is_name_key(b: &[u8]) -> (r: bool)
    ensures
        r == (b@ == name_key()),
{
    let k: [u8; 4] = [110, 97, 109, 101];
    assert(k@ =~= name_key());
    bytes_equal(b, k.as_slice())
}

fn is_isbios_key(b: &[u8]) -> (r: bool)
    ensures
        r == (b@ == isbios_key()),
{
    let k: [u8; 6] = [105, 115, 98, 105, 111, 115];
    assert(k@ =~= isbios_key());
    bytes_equal(b, k.as_slice())
}

fn is_emulation_key(b: &[u8]) -> (r: bool)
    ensures
        r == (b@ == emulation_key()),
{
    let k: [u8; 9] = [101, 109, 117, 108, 97, 116, 105, 111, 110];
    assert(k@ =~= emulation_key());
    bytes_equal(b, k.as_slice())
}

fn is_good_value(b: &[u8]) -> (r: bool)
    ensures
        r == (b@ == good_value()),
{
    let k: [u8; 4] = [103, 111, 111, 100];
    assert(k@ =~= good_value());
    bytes_equal(b, k.as_slice())
}

/// The machine name and BIOS flag that the attributes of a `<machine>` tag
/// give: the last `name` that is valid UTF-8, and whether the last `isbios`
/// that is valid UTF-8 is `yes`.
pub open spec fn machine_attributes(attrs: Seq<Option<XmlAttribute>>) -> (Option<Seq<char>>, bool)
    decreases attrs.len(),
{
    if attrs.len() == 0 {
        (None, false)
    } else {
        let (m, b) = machine_attributes(attrs.drop_last());
        match attrs.last() {
            Some(a) => if a.key@ == name_key() && valid_utf8(a.value@) {
                (Some(decode_utf8(a.value@)), b)
            } else if a.key@ == isbios_key() && valid_utf8(a.value@) {
                (m, decode_utf8(a.value@) == "yes"@)
            } else {
                (m, b)
            },
            None => (m, b),
        }
    }
}

/// The value of the first readable `emulation` attribute, if any.
pub open spec fn emulation_value(attrs: Seq<Option<XmlAttribute>>) -> Option<Seq<u8>>
    decreases attrs.len(),
{
    if attrs.len() == 0 {
        None
    } else {
        match attrs[0] {
            Some(a) => if a.key@ == emulation_key() {
                Some(a.value@)
            } else {
                emulation_value(attrs.drop_first())
            },
            None => emulation_value(attrs.drop_first()),
        }
    }
}

/// What the scan of a machine list has seen so far.
pub struct ScanView {
    /// The name of the current machine.
    pub machine: Option<Seq<char>>,
    /// The last description read.
    pub description: Option<Seq<char>>,
    /// Whether the current machine is a BIOS.
    pub is_bios: bool,
    /// The playable machines found, ROM name and description.
    pub found: Seq<(Seq<char>, Seq<char>)>,
}

/// What the scan acts on: a `<machine>` tag, the text of a `<description>`,
/// a `<driver>` tag.
#[derive(Debug)]
pub enum ScanInput {
    MachineStart(XmlTag),
    Description(String),
    Driver(XmlTag),
}

/// What a scan input holds: the attributes of a `<machine>` tag, the text of
/// a `<description>`, the attributes of a `<driver>` tag.
pub enum ScanStep {
    MachineStart(Seq<Option<XmlAttribute>>),
    Description(Seq<char>),
    Driver(Seq<Option<XmlAttribute>>),
}

impl ScanInput {
    /// What the input holds.
    pub open spec fn step(self) -> ScanStep {
        match self {
            ScanInput::MachineStart(tag) => ScanStep::MachineStart(tag.attributes@),
            ScanInput::Description(text) => ScanStep::Description(text@),
            ScanInput::Driver(tag) => ScanStep::Driver(tag.attributes@),
        }
    }
}

/// What a sequence of scan inputs holds.
pub open spec fn steps_of(inputs: Seq<ScanInput>) -> Seq<ScanStep> {
    inputs.map_values(|i: ScanInput| i.step())
}

pub open spec fn scan_start() -> ScanView {
    ScanView { machine: None, description: None, is_bios: false, found: Seq::empty() }
}

/// One step of the scan. A `<machine>` tag sets the current machine and its
/// BIOS flag anew; a description replaces the last one; a `<driver>` tag whose
/// emulation is `good` adds the current machine with the last description,
/// when there are both and the machine is no BIOS.
pub open spec fn scan_step(s: ScanView, input: ScanStep) -> ScanView {
    match input {
        ScanStep::MachineStart(attributes) => {
            let (m, b) = machine_attributes(attributes);
            ScanView { machine: m, is_bios: b, ..s }
        },
        ScanStep::Description(text) => ScanView { description: Some(text), ..s },
        ScanStep::Driver(attributes) => {
            if s.machine is Some && !s.is_bios && emulation_value(attributes) == Some(
                good_value(),
            ) && s.description is Some {
                ScanView { found: s.found.push((s.machine->0, s.description->0)), ..s }
            } else {
                s
            }
        },
    }
}

/// The scan after a sequence of inputs.
pub open spec fn run_scan(inputs: Seq<ScanStep>) -> ScanView
    decreases inputs.len(),
{
    if inputs.len() == 0 {
        scan_start()
    } else {
        scan_step(run_scan(inputs.drop_last()), inputs.last())
    }
}

/// No readable attribute of `attrs` is named `key`.
pub open spec fn lacks_attribute(attrs: Seq<Option<XmlAttribute>>, key: Seq<u8>) -> bool {
    forall|i: int| 0 <= i < attrs.len() && (#[trigger] attrs[i]) is Some ==> attrs[i]->0.key@ != key
}

/// A `<machine>` tag without an `isbios` attribute gives no BIOS.
proof fn lemma_no_isbios_no_bios(attrs: Seq<Option<XmlAttribute>>)
    requires
        lacks_attribute(attrs, isbios_key()),
    ensures
        !machine_attributes(attrs).1,
    decreases attrs.len(),
{
    if attrs.len() > 0 {
        let init = attrs.drop_last();
        assert forall|i: int| 0 <= i < init.len() && (#[trigger] init[i]) is Some implies init[i]->0.key@
            != isbios_key() by {
            assert(init[i] == attrs[i]);
        }
        lemma_no_isbios_no_bios(init);
        assert(attrs.last() == attrs[attrs.len() - 1]);
    }
}

/// A `<machine>` tag sets the current machine and its BIOS flag anew: what
/// they are after the tag depends on the tag alone, not on the machines seen
/// before, and a tag without an `isbios` attribute is no BIOS, whatever the
/// machine before it was.
pub proof fn lemma_machine_start_sets_bios_anew(
    s1: ScanView,
    s2: ScanView,
    attrs: Seq<Option<XmlAttribute>>,
)
    ensures
        scan_step(s1, ScanStep::MachineStart(attrs)).is_bios == scan_step(
            s2,
            ScanStep::MachineStart(attrs),
        ).is_bios,
        scan_step(s1, ScanStep::MachineStart(attrs)).machine == scan_step(
            s2,
            ScanStep::MachineStart(attrs),
        ).machine,
        scan_step(s1, ScanStep::MachineStart(attrs)).description == s1.description,
        scan_step(s1, ScanStep::MachineStart(attrs)).found == s1.found,
        lacks_attribute(attrs, isbios_key()) ==> !scan_step(
            s1,
            ScanStep::MachineStart(attrs),
        ).is_bios,
{
    if lacks_attribute(attrs, isbios_key()) {
        lemma_no_isbios_no_bios(attrs);
    }
}

/// Whatever machines came before, a machine whose tag names it and says
/// nothing of a BIOS, followed by its description and a driver whose
/// emulation is `good`, is found with that name and description.
pub proof fn lemma_good_machine_is_found(
    before: Seq<ScanStep>,
    machine: Seq<Option<XmlAttribute>>,
    description: Seq<char>,
    driver: Seq<Option<XmlAttribute>>,
)
    requires
        machine.len() == 1,
        machine[0] is Some,
        machine[0]->0.key@ == name_key(),
        valid_utf8(machine[0]->0.value@),
        driver.len() >= 1,
        driver[0] is Some,
        driver[0]->0.key@ == emulation_key(),
        driver[0]->0.value@ == good_value(),
    ensures
        run_scan(
            before + seq![
                ScanStep::MachineStart(machine),
                ScanStep::Description(description),
                ScanStep::Driver(driver),
            ],
        ).found == run_scan(before).found.push((decode_utf8(machine[0]->0.value@), description)),
{
    let s1 = before.push(ScanStep::MachineStart(machine));
    let s2 = s1.push(ScanStep::Description(description));
    let s3 = s2.push(ScanStep::Driver(driver));
    assert(s3 =~= before + seq![
        ScanStep::MachineStart(machine),
        ScanStep::Description(description),
        ScanStep::Driver(driver),
    ]);
    assert(s3.drop_last() =~= s2);
    assert(s2.drop_last() =~= s1);
    assert(s1.drop_last() =~= before);
    assert(machine.drop_last() =~= Seq::<Option<XmlAttribute>>::empty());
    assert(machine_attributes(machine.drop_last()) == (None::<Seq<char>>, false));
    assert(machine.last() == machine[0]);
    let name = decode_utf8(machine[0]->0.value@);
    assert(machine_attributes(machine) == (Some(name), false));
    assert(emulation_value(driver) == Some(good_value()));
    let start = run_scan(before);
    let after_machine = scan_step(start, ScanStep::MachineStart(machine));
    assert(run_scan(s1) == after_machine);
    assert(after_machine.machine == Some(name) && !after_machine.is_bios);
    let after_description = scan_step(after_machine, ScanStep::Description(description));
    assert(run_scan(s2) == after_description);
    assert(run_scan(s3) == scan_step(after_description, ScanStep::Driver(driver)));
}

/// Whatever machines came before, a machine whose tag names it and marks it
/// as a BIOS (`isbios="yes"`) is not found, whatever its description and
/// driver.
pub proof fn lemma_bios_machine_not_found(
    before: Seq<ScanStep>,
    machine: Seq<Option<XmlAttribute>>,
    description: Seq<char>,
    driver: Seq<Option<XmlAttribute>>,
)
    requires
        machine.len() == 2,
        machine[0] is Some,
        machine[0]->0.key@ == name_key(),
        valid_utf8(machine[0]->0.value@),
        machine[1] is Some,
        machine[1]->0.key@ == isbios_key(),
        valid_utf8(machine[1]->0.value@),
        decode_utf8(machine[1]->0.value@) == "yes"@,
    ensures
        run_scan(
            before + seq![
                ScanStep::MachineStart(machine),
                ScanStep::Description(description),
                ScanStep::Driver(driver),
            ],
        ).found == run_scan(before).found,
{
    let s1 = before.push(ScanStep::MachineStart(machine));
    let s2 = s1.push(ScanStep::Description(description));
    let s3 = s2.push(ScanStep::Driver(driver));
    assert(s3 =~= before + seq![
        ScanStep::MachineStart(machine),
        ScanStep::Description(description),
        ScanStep::Driver(driver),
    ]);
    assert(s3.drop_last() =~= s2);
    assert(s2.drop_last() =~= s1);
    assert(s1.drop_last() =~= before);
    let first = machine.drop_last();
    assert(first.drop_last() =~= Seq::<Option<XmlAttribute>>::empty());
    assert(machine_attributes(first.drop_last()) == (None::<Seq<char>>, false));
    assert(first.last() == machine[0]);
    assert(machine.last() == machine[1]);
    assert(name_key() != isbios_key());
    assert(machine_attributes(machine).1);
    let after_machine = scan_step(run_scan(before), ScanStep::MachineStart(machine));
    assert(run_scan(s1) == after_machine);
    let after_description = scan_step(after_machine, ScanStep::Description(description));
    assert(run_scan(s2) == after_description);
    assert(after_description.is_bios);
}

/// A driver whose first attribute is an `emulation` other than `good` adds
/// no machine.
pub proof fn lemma_driver_not_good_adds_nothing(s: ScanView, driver: Seq<Option<XmlAttribute>>)
    requires
        driver.len() >= 1,
        driver[0] is Some,
        driver[0]->0.key@ == emulation_key(),
        driver[0]->0.value@ != good_value(),
    ensures
        scan_step(s, ScanStep::Driver(driver)) == s,
{
}

/// The machines found only grow: reading more of the list keeps those found
/// so far, in order, and adds at most one per step.
pub proof fn lemma_found_only_grows(a: Seq<ScanStep>, b: Seq<ScanStep>)
    ensures
        run_scan(a).found.len() <= run_scan(a + b).found.len() <= run_scan(a).found.len() + b.len(),
        run_scan(a + b).found.subrange(0, run_scan(a).found.len() as int) == run_scan(a).found,
    decreases b.len(),
{
    if b.len() == 0 {
        assert(a + b =~= a);
        assert(run_scan(a).found.subrange(0, run_scan(a).found.len() as int) =~= run_scan(a).found);
    } else {
        let init = b.drop_last();
        lemma_found_only_grows(a, init);
        assert((a + b).drop_last() =~= a + init);
        assert((a + b).last() == b.last());
        let mid = run_scan(a + init).found;
        let end = run_scan(a + b).found;
        let n = run_scan(a).found.len() as int;
        if end != mid {
            assert(end == mid.push(end.last()));
            assert(end.subrange(0, n) =~= mid.subrange(0, n));
        }
    }
}

/// The ROM names and descriptions of entries.
pub open spec fn entries_view(s: Seq<RomEntry>) -> Seq<(Seq<char>, Seq<char>)> {
    s.map_values(|e: RomEntry| (e.rom@, e.description@))
}

/// The state of a scan of a machine list.
pub struct MachineScan {
    machine: Option<String>,
    description: Option<String>,
    is_bios: bool,
    found: Vec<RomEntry>,
}

impl View for MachineScan {
    type V = ScanView;

    closed spec fn view(&self) -> ScanView {
        ScanView {
            machine: match self.machine {
                Some(m) => Some(m@),
                None => None,
            },
            description: match self.description {
                Some(d) => Some(d@),
                None => None,
            },
            is_bios: self.is_bios,
            found: entries_view(self.found@),
        }
    }
}

impl MachineScan {
    /// A scan that has seen nothing.
    pub fn new() -> (s: MachineScan)
        ensures
            s@ == scan_start(),
    {
        let s = MachineScan { machine: None, description: None, is_bios: false, found: Vec::new() };
        assert(s@.found =~= Seq::<(Seq<char>, Seq<char>)>::empty());
        s
    }

    fn start_machine(&mut self, tag: &XmlTag)
        ensures
            final(self)@ == scan_step(old(self)@, ScanStep::MachineStart(tag.attributes@)),
    {
        self.machine = None;
        self.is_bios = false;
        let mut i: usize = 0;
        let ghost attrs = tag.attributes@;
        while i < tag.attributes.len()
            invariant
                attrs == tag.attributes@,
                i <= attrs.len(),
                self.description == old(self).description,
                self.found == old(self).found,
                machine_attributes(attrs.take(i as int)) == (
                    match self.machine {
                        Some(m) => Some(m@),
                        None => None,
                    },
                    self.is_bios,
                ),
            decreases attrs.len() - i,
        {
            assert(attrs.take(i + 1).drop_last() =~= attrs.take(i as int));
            match &tag.attributes[i] {
                Some(a) => {
                    if is_name_key(a.key.as_slice()) {
                        match utf8_text(a.value.as_slice()) {
                            Some(name) => {
                                self.machine = Some(name);
                            },
                            None => {},
                        }
                    } else if is_isbios_key(a.key.as_slice()) {
                        match utf8_text(a.value.as_slice()) {
                            Some(v) => {
                                let yes = String::from_str("yes");
                                self.is_bios = v == yes;
                            },
                            None => {},
                        }
                    }
                },
                None => {},
            }
            i = i + 1;
        }
        assert(attrs.take(attrs.len() as int) =~= attrs);
    }

    fn read_description(&mut self, text: String)
        ensures
            final(self)@ == scan_step(old(self)@, ScanStep::Description(text@)),
    {
        self.description = Some(text);
    }

    fn see_driver(&mut self, tag: &XmlTag)
        ensures
            final(self)@ == scan_step(old(self)@, ScanStep::Driver(tag.attributes@)),
    {
        let machine = match &self.machine {
            Some(m) => m,
            None => {
                return;
            },
        };
        if self.is_bios {
            return;
        }
        let ghost attrs = tag.attributes@;
        let mut i: usize = 0;
        assert(attrs.skip(0) =~= attrs);
        while i < tag.attributes.len()
            invariant
                attrs == tag.attributes@,
                i <= attrs.len(),
                emulation_value(attrs) == emulation_value(attrs.skip(i as int)),
                *self == *old(self),
                self.machine == Some(*machine),
                !self.is_bios,
            decreases attrs.len() - i,
        {
            assert(attrs.skip(i as int).drop_first() =~= attrs.skip(i + 1));
            assert(attrs.skip(i as int)[0] == attrs[i as int]);
            match &tag.attributes[i] {
                Some(a) => {
                    if is_emulation_key(a.key.as_slice()) {
                        if is_good_value(a.value.as_slice()) {
                            match &self.description {
                                Some(description) => {
                                    let entry = RomEntry {
                                        rom: machine.clone(),
                                        description: description.clone(),
                                    };
                                    let ghost old_found = self.found@;
                                    self.found.push(entry);
                                    assert(entries_view(self.found@) =~= entries_view(
                                        old_found,
                                    ).push((entry.rom@, entry.description@)));
                                },
                                None => {},
                            }
                        }
                        return;
                    }
                },
                None => {},
            }
            i = i + 1;
        }
        assert(attrs.skip(attrs.len() as int) =~= Seq::<Option<XmlAttribute>>::empty());
    }

    /// Takes one input into account.
    pub fn apply(&mut self, input: &ScanInput)
        ensures
            final(self)@ == scan_step(old(self)@, input.step()),
    {
        match input {
            ScanInput::MachineStart(tag) => self.start_machine(tag),
            ScanInput::Description(text) => self.read_description(text.clone()),
            ScanInput::Driver(tag) => self.see_driver(tag),
        }
    }

    /// The playable machines found.
    pub fn into_found(self) -> (r: Vec<RomEntry>)
        ensures
            entries_view(r@) == self@.found,
    {
        self.found
    }
}

/// The playable machines that a sequence of scan inputs yields.
pub fn scan_inputs(inputs: &Vec<ScanInput>) -> (r: Vec<RomEntry>)
    ensures
        entries_view(r@) == run_scan(steps_of(inputs@)).found,
{
    let mut scan = MachineScan::new();
    let mut i: usize = 0;
    while i < inputs.len()
        invariant
            i <= inputs@.len(),
            scan@ == run_scan(steps_of(inputs@.take(i as int))),
        decreases inputs@.len() - i,
    {
        assert(steps_of(inputs@.take(i + 1)).drop_last() =~= steps_of(inputs@.take(i as int)));
        assert(steps_of(inputs@.take(i + 1)).last() == inputs@[i as int].step());
        scan.apply(&inputs[i]);
        i = i + 1;
    }
    assert(inputs@.take(inputs@.len() as int) =~= inputs@);
    scan.into_found()
}

/// What can go wrong when the machine list is read.
#[derive(Debug)]
pub enum RomListError {
    /// The configuration names no ROMs directory.
    MissingRomsPathConfig,
    /// The XML could not be read.
    Xml(quick_xml::Error),
    /// The reader went on producing events past the end of the text.
    UnfinishedDocument,
}

/// The number of `<description>` start tags among `events`.
pub open spec fn description_count(events: Seq<XmlEvent>) -> nat
    decreases events.len(),
{
    if events.len() == 0 {
        0
    } else {
        let before = description_count(events.drop_last());
        match events.last() {
            XmlEvent::Start(tag) => if tag.name@ == description_name() {
                before + 1
            } else {
                before
            },
            _ => before,
        }
    }
}

/// What the scan acts on, given the events read (`Eof` excluded) and the
/// texts read for the `<description>` tags among them, in order: a
/// `<machine>` start tag, the text of a `<description>` start tag, a
/// `<driver>` start or empty tag. Other events are passed over.
pub open spec fn scan_inputs_of(events: Seq<XmlEvent>, texts: Seq<Seq<char>>) -> Seq<ScanStep>
    decreases events.len(),
{
    if events.len() == 0 {
        Seq::empty()
    } else {
        let init = events.drop_last();
        match events.last() {
            XmlEvent::Start(tag) => if tag.name@ == machine_name() {
                scan_inputs_of(init, texts).push(ScanStep::MachineStart(tag.attributes@))
            } else if tag.name@ == description_name() {
                scan_inputs_of(init, texts.drop_last()).push(ScanStep::Description(texts.last()))
            } else if tag.name@ == driver_name() {
                scan_inputs_of(init, texts).push(ScanStep::Driver(tag.attributes@))
            } else {
                scan_inputs_of(init, texts)
            },
            XmlEvent::Empty(tag) => if tag.name@ == driver_name() {
                scan_inputs_of(init, texts).push(ScanStep::Driver(tag.attributes@))
            } else {
                scan_inputs_of(init, texts)
            },
            _ => scan_inputs_of(init, texts),
        }
    }
}

/// How reading a machine list ends.
pub enum DocumentRead {
    /// The reader reached the end of the text: the events read before it
    /// (`Eof` excluded) and the texts read for the `<description>` tags.
    Read { events: Seq<XmlEvent>, texts: Seq<Seq<char>> },
    /// The reader failed.
    Failed,
    /// The reader went on producing events past the given number.
    Unfinished,
}

/// Whether an event is the start of a `<description>` tag.
pub open spec fn is_description_start(e: XmlEvent) -> bool {
    e matches XmlEvent::Start(tag) && tag.name@ == description_name()
}

/// Reads events from `reader` up to the end of its text, reading the raw text
/// of each `<description>` tag; `events` and `texts` hold what was read
/// before, and at most `budget` more events besides the end are read.
pub open spec fn read_document(
    reader: XmlReaderView,
    events: Seq<XmlEvent>,
    texts: Seq<Seq<char>>,
    budget: nat,
) -> DocumentRead
    decreases budget,
{
    match xml_event(reader) {
        None => DocumentRead::Failed,
        Some(XmlEvent::Eof) => DocumentRead::Read { events, texts },
        Some(e) => {
            let after_event = XmlReaderView {
                text: reader.text,
                calls: reader.calls.push(XmlCall::NextEvent),
            };
            if is_description_start(e) {
                let name = e->Start_0.name@;
                match xml_text(after_event, name) {
                    None => DocumentRead::Failed,
                    Some(t) => if budget == 0 {
                        DocumentRead::Unfinished
                    } else {
                        read_document(
                            XmlReaderView {
                                text: reader.text,
                                calls: after_event.calls.push(XmlCall::TextUntil(name)),
                            },
                            events.push(e),
                            texts.push(t),
                            (budget - 1) as nat,
                        )
                    },
                }
            } else if budget == 0 {
                DocumentRead::Unfinished
            } else {
                read_document(after_event, events.push(e), texts, (budget - 1) as nat)
            }
        },
    }
}

/// How reading the machine list `xml` ends: at most one event per byte of
/// the text is read besides the end, since every event takes up some of it.
pub open spec fn read_machine_list(xml: &str) -> DocumentRead {
    read_document(
        XmlReaderView { text: xml@, calls: Seq::empty() },
        Seq::empty(),
        Seq::empty(),
        xml.len() as nat,
    )
}

/// Reads the machine list that `mame -listxml` printed and returns the
/// machines that MAME emulates well and that are no BIOS, with their
/// descriptions, in the order of the list. Fails when the configuration
/// names no ROMs directory, or when the XML cannot be read.
pub fn scan_machines(config: &Config, xml: &str) -> (r: Result<Vec<RomEntry>, RomListError>)
    ensures
        (config.roms_path@.len() == 0) <==> (r matches Err(RomListError::MissingRomsPathConfig)),
        config.roms_path@.len() > 0 ==> match read_machine_list(xml) {
            DocumentRead::Read { events, texts } => r matches Ok(found) && entries_view(found@)
                == run_scan(scan_inputs_of(events, texts)).found,
            DocumentRead::Failed => r matches Err(RomListError::Xml(_)),
            DocumentRead::Unfinished => r matches Err(RomListError::UnfinishedDocument),
        },
{
    if config.roms_path.as_str().is_empty() {
        return Err(RomListError::MissingRomsPathConfig);
    }
    let mut reader = XmlReader::new(xml);
    let mut scan = MachineScan::new();
    let ghost mut events: Seq<XmlEvent> = Seq::empty();
    let ghost mut texts: Seq<Seq<char>> = Seq::empty();
    let ghost whole = read_machine_list(xml);
    let mut budget: usize = xml.len();
    loop
        invariant_except_break
            whole == read_document(reader@, events, texts, budget as nat),
        invariant
            config.roms_path@.len() > 0,
            whole == read_machine_list(xml),
            reader@.text == xml@,
            description_count(events) == texts.len(),
            scan@ == run_scan(scan_inputs_of(events, texts)),
        ensures
            whole == (DocumentRead::Read { events, texts }),
        decreases budget,
    {
        let ghost before = reader@;
        let ghost old_events = events;
        let ghost old_texts = texts;
        let event = reader.next_event();
        match event {
            Ok(XmlEvent::Eof) => {
                break ;
            },
            Err(e) => {
                return Err(RomListError::Xml(e));
            },
            Ok(event) => {
                let ghost after_event = reader@;
                match &event {
                    XmlEvent::Start(tag) => {
                        if is_machine_name(tag.name.as_slice()) {
                            scan.start_machine(tag);
                        } else if is_description_name(tag.name.as_slice()) {
                            match reader.text_until(tag.name.as_slice()) {
                                Ok(text) => {
                                    proof {
                                        texts = texts.push(text@);
                                        assert(texts.drop_last() =~= old_texts);
                                    }
                                    scan.read_description(text);
                                },
                                Err(e) => {
                                    return Err(RomListError::Xml(e));
                                },
                            }
                        } else if is_driver_name(tag.name.as_slice()) {
                            scan.see_driver(tag);
                        }
                    },
                    XmlEvent::Empty(tag) => {
                        if is_driver_name(tag.name.as_slice()) {
                            scan.see_driver(tag);
                        }
                    },
                    _ => {},
                }
                proof {
                    events = events.push(event);
                    assert(events.drop_last() =~= old_events);
                    let inputs_before = scan_inputs_of(old_events, old_texts);
                    let inputs_after = scan_inputs_of(events, texts);
                    match event {
                        XmlEvent::Start(tag) => {
                            if tag.name@ == machine_name() || tag.name@ == description_name()
                                || tag.name@ == driver_name() {
                                assert(inputs_after.drop_last() =~= inputs_before);
                            } else {
                                assert(inputs_after == inputs_before);
                            }
                        },
                        XmlEvent::Empty(tag) => {
                            if tag.name@ == driver_name() {
                                assert(inputs_after.drop_last() =~= inputs_before);
                            } else {
                                assert(inputs_after == inputs_before);
                            }
                        },
                        _ => {
                            assert(inputs_after == inputs_before);
                        },
                    }
                }
                if budget == 0 {
                    return Err(RomListError::UnfinishedDocument);
                }
                budget = budget - 1;
            },
        }
    }
    let found = scan.into_found();
    Ok(found)
}

} // verus!
