//! Parts as the descriptor database describes them: the pins of a part, the
//! signals of each pin, and how each signal is routed to its pin.

use crate::error::{Failure, FailureModel};
use crate::gpio::{find_gpio_pin, find_mapping, gpio_table, lemma_gpio_table_uniform,
    lemma_mapping_among, load_gpios, mapping_among, pin_named, signals_of_pin, GpioPin,
    GpioPinModel};
use crate::pattern::{regex_compiles, regex_is_match, regex_refusal, Pattern};
use crate::scan::{collect, greatest, is_greatest, least, lemma_collect_map_fault,
    lemma_collect_ok, lemma_collect_step, lemma_filter_step, lemma_least_absent,
    lemma_least_found, result_model};
use crate::text::{chars_of, matches_at, occurs_at};
use crate::xml::{attribute, attribute_or_error, children_with_tag, has_tag, is_child,
    root_element, subtree_end, xml_nodes, NodeModel, XmlDocument};
use std::io::Read;
use vstd::prelude::*;

verus! {

/// How a signal is mapped to a pin.
#[derive(Debug)]
pub enum SignalMap {
    /// Alternate function, with its AF number.
    AF(u8),
    /// Additional function, no AF setup to do.
    AddF,
    /// Remap, used on older parts without the AF system. The signal can be
    /// available on several remaps.
    Remap(Vec<u8>),
}

/// Mode of GPIO mapping, one for the whole part.
#[derive(Clone, Copy, Debug, PartialEq, Eq, Structural)]
pub enum GpioMode {
    /// Alternate function based mapping.
    AF,
    /// Remap based mapping.
    Remap,
}

/// Information about one signal.
#[derive(Debug)]
pub struct SignalInfo {
    /// Name.
    pub name: String,
    /// Mapping information.
    pub map: SignalMap,
}

/// Information about one pin.
#[derive(Debug)]
pub struct PinInfo {
    /// Name.
    pub name: String,
    /// Position in package. This can be a number or a letter with a number.
    pub position: String,
    /// Signals.
    pub signals: Vec<SignalInfo>,
}

/// Information about a part.
#[derive(Debug)]
pub struct PartInfo {
    /// Part.
    pub part: String,
    /// Product line.
    pub line: String,
    /// Package.
    pub package: String,
    /// GPIO mapping mode.
    pub gpio_mode: GpioMode,
    /// Information for all pins.
    pub pins: Vec<PinInfo>,
}

/// What the root of a part descriptor says of the part.
#[derive(Debug)]
pub struct PartHeader {
    /// Product line.
    pub line: String,
    /// Package.
    pub package: String,
    /// Version of the GPIO IP block, which names the part's GPIO descriptor.
    pub gpio_version: String,
}

/// A `SignalMap` with its list as a sequence.
pub enum SignalMapModel {
    AF(u8),
    AddF,
    Remap(Seq<u8>),
}

/// A `SignalInfo` with its name as a sequence of characters.
pub struct SignalModel {
    pub name: Seq<char>,
    pub map: SignalMapModel,
}

/// A `PinInfo` with its strings as sequences of characters.
pub struct PinModel {
    pub name: Seq<char>,
    pub position: Seq<char>,
    pub signals: Seq<SignalModel>,
}

/// A `PartInfo` with its strings as sequences of characters.
pub struct PartModel {
    pub part: Seq<char>,
    pub line: Seq<char>,
    pub package: Seq<char>,
    pub gpio_mode: GpioMode,
    pub pins: Seq<PinModel>,
}

/// A `PartHeader` with its strings as sequences of characters.
pub struct HeaderModel {
    pub line: Seq<char>,
    pub package: Seq<char>,
    pub gpio_version: Seq<char>,
}

impl DeepView for SignalMap {
    type V = SignalMapModel;

    open spec fn deep_view(&self) -> SignalMapModel {
        match self {
            SignalMap::AF(n) => SignalMapModel::AF(*n),
            SignalMap::AddF => SignalMapModel::AddF,
            SignalMap::Remap(remaps) => SignalMapModel::Remap(remaps@),
        }
    }
}

impl DeepView for SignalInfo {
    type V = SignalModel;

    open spec fn deep_view(&self) -> SignalModel {
        SignalModel { name: self.name@, map: self.map.deep_view() }
    }
}

impl DeepView for PinInfo {
    type V = PinModel;

    open spec fn deep_view(&self) -> PinModel {
        PinModel {
            name: self.name@,
            position: self.position@,
            signals: self.signals.deep_view(),
        }
    }
}

impl DeepView for PartInfo {
    type V = PartModel;

    open spec fn deep_view(&self) -> PartModel {
        PartModel {
            part: self.part@,
            line: self.line@,
            package: self.package@,
            gpio_mode: self.gpio_mode,
            pins: self.pins.deep_view(),
        }
    }
}

impl DeepView for PartHeader {
    type V = HeaderModel;

    open spec fn deep_view(&self) -> HeaderModel {
        HeaderModel {
            line: self.line@,
            package: self.package@,
            gpio_version: self.gpio_version@,
        }
    }
}

impl Clone for SignalMap {
    fn clone(&self) -> (r: SignalMap)
        ensures
            r.deep_view() == self.deep_view(),
    {
        match self {
            SignalMap::AF(n) => SignalMap::AF(*n),
            SignalMap::AddF => SignalMap::AddF,
            SignalMap::Remap(remaps) => SignalMap::Remap(remaps.clone()),
        }
    }
}

/// Whether a mapping is one that a part of the mode `mode` can hold: an
/// additional function, or a mapping of the mode's own kind.
pub open spec fn of_mode(map: SignalMapModel, mode: GpioMode) -> bool {
    match map {
        SignalMapModel::AF(_) => mode is AF,
        SignalMapModel::AddF => true,
        SignalMapModel::Remap(_) => mode is Remap,
    }
}

/// Every signal of every pin holds a mapping that the part's mode allows.
pub open spec fn uniform(part: PartModel) -> bool {
    forall|i: int, j: int|
        0 <= i < part.pins.len() && 0 <= j < part.pins[i].signals.len() ==> of_mode(
            #[trigger] part.pins[i].signals[j].map,
            part.gpio_mode,
        )
}

/// Every AF number is one of the 17 columns.
pub open spec fn slots_in_range(pins: Seq<PinModel>) -> bool {
    forall|i: int, j: int|
        0 <= i < pins.len() && 0 <= j < pins[i].signals.len() ==> (
        #[trigger] pins[i].signals[j].map matches SignalMapModel::AF(n) ==> n <= 16)
}

/// The error type of `std::io`.
#[verifier::external_type_specification]
#[verifier::external_body]
pub struct ExIoError(std::io::Error);

/// What the `Display` of an error of `std::io` writes.
pub uninterp spec fn io_error_text(e: std::io::Error) -> Seq<char>;

/// The text that `flate2::read::GzDecoder` inflates `bytes` to, or the words
/// of the error where the stream is malformed or what it holds is not UTF-8.
pub uninterp spec fn gunzip_text(bytes: Seq<u8>) -> Result<Seq<char>, Seq<char>>;

/// Reads `bytes` to their end through `flate2::read::GzDecoder`, with
/// `read_to_string`. The contract claims that what comes out, text or error,
/// depends on the bytes alone.
#[verifier::external_body]
fn gunzip(bytes: &[u8]) -> (r: Result<String, std::io::Error>)
    ensures
        gunzip_text(bytes@) == (match r {
            Ok(text) => Ok::<Seq<char>, Seq<char>>(text@),
            Err(e) => Err(io_error_text(e)),
        }),
{
    let mut text = String::new();
    flate2::read::GzDecoder::new(bytes).read_to_string(&mut text)?;
    Ok(text)
}

/// Calls `to_string` on an error of `std::io`, which writes it with its
/// `Display`.
#[verifier::external_body]
fn io_error_words(e: &std::io::Error) -> (r: String)
    ensures
        r@ == io_error_text(*e),
{
    e.to_string()
}

/// The document that a gzip-compressed descriptor holds.
pub open spec fn descriptor_of(bytes: Seq<u8>) -> Result<Seq<NodeModel>, FailureModel> {
    match gunzip_text(bytes) {
        Err(words) => Err(FailureModel::Gzip(words)),
        Ok(text) => match xml_nodes(text) {
            Err(words) => Err(FailureModel::Xml(words)),
            Ok(nodes) => Ok(nodes),
        },
    }
}

/// Where the descriptor of the part `part` lies below the database's root.
pub open spec fn part_path(part: Seq<char>) -> Seq<char> {
    "mcu/"@ + part + ".xml.gz"@
}

/// Where the GPIO descriptor of version `version` lies below the database's
/// root.
pub open spec fn gpio_path(version: Seq<char>) -> Seq<char> {
    "mcu/IP/GPIO-"@ + version + "_Modes"@ + ".xml.gz"@
}

/// The test for a child of node `root` that is the `IP` element named `GPIO`.
pub open spec fn gpio_ip(doc: Seq<NodeModel>, root: int) -> spec_fn(int) -> bool {
    |j: int|
        is_child(doc, root, j) && has_tag(doc, j, "IP"@) && attribute(doc[j], "Name"@) == Some(
            "GPIO"@,
        )
}

/// What the root element of a part descriptor says: the product line, the
/// package, and the version of the `IP` element named `GPIO`.
pub open spec fn part_header(doc: Seq<NodeModel>) -> Result<HeaderModel, FailureModel> {
    match root_element(doc) {
        None => Err(FailureModel::NoRootElement),
        Some(root) => match attribute_or_error(doc, root, "Line"@) {
            Err(e) => Err(e),
            Ok(line) => match attribute_or_error(doc, root, "Package"@) {
                Err(e) => Err(e),
                Ok(package) => match least(root, subtree_end(doc, root), gpio_ip(doc, root)) {
                    None => Err(FailureModel::MissingGpio),
                    Some(ip) => match attribute_or_error(doc, ip, "Version"@) {
                        Err(e) => Err(e),
                        Ok(gpio_version) => Ok(HeaderModel { line, package, gpio_version }),
                    },
                },
            },
        },
    }
}

/// The test for a `Signal` element that is not the pin's own `GPIO` entry.
pub open spec fn not_named_gpio(doc: Seq<NodeModel>) -> spec_fn(usize) -> bool {
    |s: usize| attribute(doc[s as int], "Name"@) != Some("GPIO"@)
}

/// The `Signal` children of the pin at node `n` that count as signals.
pub open spec fn listed_signals(doc: Seq<NodeModel>, n: int) -> Seq<usize> {
    children_with_tag(doc, n, "Signal"@).filter(not_named_gpio(doc))
}

/// The signal at node `s` of a part descriptor; `known` is what the GPIO
/// descriptor lists for the pin.
pub open spec fn part_signal(
    doc: Seq<NodeModel>,
    s: int,
    known: Option<Seq<SignalModel>>,
) -> Result<SignalModel, FailureModel> {
    match attribute_or_error(doc, s, "Name"@) {
        Err(e) => Err(e),
        Ok(name) => Ok(SignalModel { name, map: mapping_among(known, name) }),
    }
}

/// `part_signal` as a function of the node alone.
pub open spec fn part_signal_of(doc: Seq<NodeModel>, known: Option<Seq<SignalModel>>) -> spec_fn(
    usize,
) -> Result<SignalModel, FailureModel> {
    |s: usize| part_signal(doc, s as int, known)
}

/// The pin at node `n` of a part descriptor, its signals mapped as `gpios`
/// says.
pub open spec fn part_pin(doc: Seq<NodeModel>, n: int, gpios: Seq<GpioPinModel>) -> Result<
    PinModel,
    FailureModel,
> {
    match attribute_or_error(doc, n, "Name"@) {
        Err(e) => Err(e),
        Ok(name) => match attribute_or_error(doc, n, "Position"@) {
            Err(e) => Err(e),
            Ok(position) => match collect(
                listed_signals(doc, n).map_values(part_signal_of(doc, signals_of_pin(gpios, name))),
            ) {
                Err(e) => Err(e),
                Ok(signals) => Ok(PinModel { name, position, signals }),
            },
        },
    }
}

/// `part_pin` as a function of the node alone.
pub open spec fn part_pin_of(doc: Seq<NodeModel>, gpios: Seq<GpioPinModel>) -> spec_fn(
    usize,
) -> Result<PinModel, FailureModel> {
    |n: usize| part_pin(doc, n as int, gpios)
}

/// The part named `part` that the part descriptor `doc` and the GPIO
/// descriptor `gpio_doc` describe, or the first fault: one of the header, else
/// one of the GPIO descriptor, else one of the pins.
pub open spec fn part_model(
    part: Seq<char>,
    doc: Seq<NodeModel>,
    gpio_doc: Seq<NodeModel>,
) -> Result<PartModel, FailureModel> {
    match part_header(doc) {
        Err(e) => Err(e),
        Ok(header) => match gpio_table(gpio_doc) {
            Err(e) => Err(e),
            Ok((gpio_mode, gpios)) => match collect(
                children_with_tag(doc, root_element(doc)->0, "Pin"@).map_values(
                    part_pin_of(doc, gpios),
                ),
            ) {
                Err(e) => Err(e),
                Ok(pins) => Ok(
                    PartModel {
                        part,
                        line: header.line,
                        package: header.package,
                        gpio_mode,
                        pins,
                    },
                ),
            },
        },
    }
}

/// The part named `part` that the two compressed descriptors hold, or the
/// first fault: one of the part descriptor's stream, text or header, else one
/// of the GPIO descriptor's stream or text, else one of `part_model`.
pub open spec fn loaded_part(part: Seq<char>, descriptor: Seq<u8>, gpio: Seq<u8>) -> Result<
    PartModel,
    FailureModel,
> {
    match descriptor_of(descriptor) {
        Err(e) => Err(e),
        Ok(doc) => match part_header(doc) {
            Err(e) => Err(e),
            Ok(_) => match descriptor_of(gpio) {
                Err(e) => Err(e),
                Ok(gpio_doc) => part_model(part, doc, gpio_doc),
            },
        },
    }
}

/// The one-line summary of a part.
pub open spec fn summary_of(part: PartModel) -> Seq<char> {
    part.part + ": "@ + part.line + " "@ + part.package
}

/// The part that a file of the `mcu` directory describes: the file's name
/// without `.xml.gz`, where it ends so.
pub open spec fn part_of_file(name: Seq<char>) -> Option<Seq<char>> {
    let ext = ".xml.gz"@;
    if occurs_at(name, ext, name.len() - ext.len()) {
        Some(name.take(name.len() - ext.len()))
    } else {
        None
    }
}

/// The parts of the files `names` that the regex `pattern` matches, in the
/// order of `names`.
pub open spec fn matching_parts(names: Seq<Seq<char>>, pattern: Seq<char>) -> Seq<Seq<char>>
    decreases names.len(),
{
    if names.len() == 0 {
        Seq::empty()
    } else {
        let before = matching_parts(names.drop_last(), pattern);
        match part_of_file(names.last()) {
            Some(part) if regex_is_match(pattern, part) => before.push(part),
            _ => before,
        }
    }
}

/// The text of a gzip-compressed descriptor.
pub fn read_gziped(bytes: &[u8]) -> (r: Result<String, Failure>)
    ensures
        result_model(r) == (match gunzip_text(bytes@) {
            Ok(text) => Ok(text),
            Err(words) => Err(FailureModel::Gzip(words)),
        }),
{
    match gunzip(bytes) {
        Ok(text) => Ok(text),
        Err(e) => Err(Failure::Gzip(io_error_words(&e))),
    }
}

/// Inflates a descriptor and parses it.
pub fn read_descriptor(bytes: &[u8]) -> (r: Result<XmlDocument, Failure>)
    ensures
        result_model(r) == descriptor_of(bytes@),
{
    match read_gziped(bytes) {
        Err(e) => Err(e),
        Ok(text) => XmlDocument::parse(text.as_str()),
    }
}

/// The path of a part's descriptor, from the database's root.
pub fn part_descriptor_path(part: &str) -> (r: String)
    ensures
        r@ == part_path(part@),
{
    let mut out: String = String::from_str("mcu/");
    out.append(part);
    out.append(".xml.gz");
    out
}

/// The path of the GPIO descriptor of a version, from the database's root.
pub fn gpio_descriptor_path(version: &str) -> (r: String)
    ensures
        r@ == gpio_path(version@),
{
    let mut out: String = String::from_str("mcu/IP/GPIO-");
    out.append(version);
    out.append("_Modes");
    out.append(".xml.gz");
    out
}

/// Decodes the signal at node `s` of a part descriptor.
fn parse_signal(doc: &XmlDocument, s: usize, known: Option<&GpioPin>) -> (r: Result<
    SignalInfo,
    Failure,
>)
    requires
        s < doc.nodes.len(),
    ensures
        result_model(r) == part_signal(
            doc.deep_view(),
            s as int,
            match known {
                Some(pin) => Some(pin.signals.deep_view()),
                None => None,
            },
        ),
{
    match doc.attribute_or_error(s, "Name") {
        Err(e) => Err(e),
        Ok(name) => {
            let map: SignalMap = find_mapping(known, &name);
            Ok(SignalInfo { name, map })
        },
    }
}

/// The `Signal` children of the pin at node `n` that count as signals.
fn signal_nodes(doc: &XmlDocument, n: usize) -> (r: Vec<usize>)
    requires
        n < doc.nodes.len(),
    ensures
        r@ == listed_signals(doc.deep_view(), n as int),
        forall|j: int| 0 <= j < r.len() ==> (#[trigger] r[j]) < doc.nodes.len(),
{
    let nodes: Vec<usize> = doc.children_with_tag(n, "Signal");
    let own: String = String::from_str("GPIO");
    let ghost q = not_named_gpio(doc.deep_view());
    let mut out: Vec<usize> = Vec::new();
    let mut k: usize = 0;
    proof {
        reveal(Seq::filter);
        assert(nodes@.take(0).filter(q) =~= Seq::empty());
    }
    while k < nodes.len()
        invariant
            k <= nodes.len(),
            own@ == "GPIO"@,
            q == not_named_gpio(doc.deep_view()),
            forall|j: int| 0 <= j < nodes.len() ==> (#[trigger] nodes[j]) < doc.nodes.len(),
            forall|j: int| 0 <= j < out.len() ==> (#[trigger] out[j]) < doc.nodes.len(),
            out@ == nodes@.take(k as int).filter(q),
        decreases nodes.len() - k,
    {
        proof {
            lemma_filter_step(nodes@, q, k as int);
        }
        let skip: bool = match doc.attribute(nodes[k], "Name") {
            Some(name) => name == own,
            None => false,
        };
        if !skip {
            out.push(nodes[k]);
        }
        k += 1;
    }
    assert(nodes@.take(k as int) == nodes@);
    out
}

/// Decodes the pin at node `n` of a part descriptor.
fn parse_pin(doc: &XmlDocument, n: usize, gpios: &Vec<GpioPin>) -> (r: Result<PinInfo, Failure>)
    requires
        n < doc.nodes.len(),
    ensures
        result_model(r) == part_pin(doc.deep_view(), n as int, gpios.deep_view()),
{
    let name: String = match doc.attribute_or_error(n, "Name") {
        Err(e) => {
            return Err(e);
        },
        Ok(name) => name,
    };
    let position: String = match doc.attribute_or_error(n, "Position") {
        Err(e) => {
            return Err(e);
        },
        Ok(position) => position,
    };
    let known: Option<&GpioPin> = find_gpio_pin(gpios, &name);
    let ghost known_signals = signals_of_pin(gpios.deep_view(), name@);
    let nodes: Vec<usize> = signal_nodes(doc, n);
    let ghost f = part_signal_of(doc.deep_view(), known_signals);
    let mut signals: Vec<SignalInfo> = Vec::new();
    let mut k: usize = 0;
    assert(nodes@.take(0).map_values(f) =~= Seq::empty());
    assert(signals.deep_view() =~= Seq::empty());
    while k < nodes.len()
        invariant
            k <= nodes.len(),
            f == part_signal_of(doc.deep_view(), known_signals),
            known_signals == signals_of_pin(gpios.deep_view(), name@),
            known_signals == (match known {
                Some(pin) => Some(pin.signals.deep_view()),
                None => None,
            }),
            nodes@ == listed_signals(doc.deep_view(), n as int),
            attribute_or_error(doc.deep_view(), n as int, "Name"@) == Ok::<
                Seq<char>,
                FailureModel,
            >(name@),
            attribute_or_error(doc.deep_view(), n as int, "Position"@) == Ok::<
                Seq<char>,
                FailureModel,
            >(position@),
            forall|j: int| 0 <= j < nodes.len() ==> (#[trigger] nodes[j]) < doc.nodes.len(),
            collect(nodes@.take(k as int).map_values(f)) == Ok::<Seq<SignalModel>, FailureModel>(
                signals.deep_view(),
            ),
        decreases nodes.len() - k,
    {
        proof {
            lemma_collect_step(nodes@, f, k as int);
        }
        match parse_signal(doc, nodes[k], known) {
            Err(e) => {
                proof {
                    lemma_collect_map_fault(nodes@, f, k + 1);
                }
                return Err(e);
            },
            Ok(signal) => {
                let ghost before = signals.deep_view();
                signals.push(signal);
                assert(signals.deep_view() =~= before.push(signal.deep_view()));
            },
        }
        k += 1;
    }
    assert(nodes@.take(k as int) == nodes@);
    Ok(PinInfo { name, position, signals })
}

impl PartHeader {
    /// Reads the header off the root element of a part descriptor.
    pub fn read(doc: &XmlDocument) -> (r: Result<PartHeader, Failure>)
        ensures
            result_model(r) == part_header(doc.deep_view()),
    {
        let root: usize = match doc.root_element() {
            None => {
                return Err(Failure::NoRootElement);
            },
            Some(root) => root,
        };
        let line: String = match doc.attribute_or_error(root, "Line") {
            Err(e) => {
                return Err(e);
            },
            Ok(line) => line,
        };
        let package: String = match doc.attribute_or_error(root, "Package") {
            Err(e) => {
                return Err(e);
            },
            Ok(package) => package,
        };
        let name: String = String::from_str("GPIO");
        let tag: String = String::from_str("IP");
        let end: usize = doc.subtree_end(root);
        let ghost p = gpio_ip(doc.deep_view(), root as int);
        let mut j: usize = root;
        while j < end
            invariant
                root <= j,
                end <= doc.nodes.len(),
                end == subtree_end(doc.deep_view(), root as int),
                p == gpio_ip(doc.deep_view(), root as int),
                name@ == "GPIO"@,
                tag@ == "IP"@,
                root_element(doc.deep_view()) == Some(root as int),
                attribute_or_error(doc.deep_view(), root as int, "Line"@) == Ok::<
                    Seq<char>,
                    FailureModel,
                >(line@),
                attribute_or_error(doc.deep_view(), root as int, "Package"@) == Ok::<
                    Seq<char>,
                    FailureModel,
                >(package@),
                forall|k: int| root <= k < j ==> !#[trigger] p(k),
            decreases end - j,
        {
            let child: bool = j > root && match doc.nodes[j].parent {
                Some(parent) => parent == root,
                None => false,
            };
            let named: bool = child && doc.has_tag(j, &tag) && match doc.attribute(j, "Name") {
                Some(value) => value == name,
                None => false,
            };
            if named {
                proof {
                    assert(p(j as int));
                    lemma_least_found(root as int, end as int, p, j as int);
                }
                return match doc.attribute_or_error(j, "Version") {
                    Err(e) => Err(e),
                    Ok(gpio_version) => Ok(PartHeader { line, package, gpio_version }),
                };
            }
            assert(!p(j as int));
            j += 1;
        }
        proof {
            lemma_least_absent(root as int, end as int, p);
        }
        Err(Failure::MissingGpio)
    }
}

impl PartInfo {
    /// Builds the part named `part` from its descriptor and from the GPIO
    /// descriptor that the descriptor's header names. The part's mode is that
    /// of the GPIO descriptor; a signal that the GPIO descriptor does not list
    /// for its pin is an additional function.
    pub fn new(part: &str, descriptor: &XmlDocument, gpio: &XmlDocument) -> (r: Result<
        PartInfo,
        Failure,
    >)
        ensures
            result_model(r) == part_model(part@, descriptor.deep_view(), gpio.deep_view()),
            r matches Ok(built) ==> uniform(built.deep_view()),
    {
        proof {
            if part_model(part@, descriptor.deep_view(), gpio.deep_view()) is Ok {
                lemma_part_model_uniform(part@, descriptor.deep_view(), gpio.deep_view());
            }
        }
        let header: PartHeader = match PartHeader::read(descriptor) {
            Err(e) => {
                return Err(e);
            },
            Ok(header) => header,
        };
        let (gpio_mode, gpios) = match load_gpios(gpio) {
            Err(e) => {
                return Err(e);
            },
            Ok(table) => table,
        };
        let root: usize = match descriptor.root_element() {
            None => {
                return Err(Failure::NoRootElement);
            },
            Some(root) => root,
        };
        let nodes: Vec<usize> = descriptor.children_with_tag(root, "Pin");
        let ghost doc = descriptor.deep_view();
        let ghost f = part_pin_of(doc, gpios.deep_view());
        let mut pins: Vec<PinInfo> = Vec::new();
        let mut k: usize = 0;
        assert(nodes@.take(0).map_values(f) =~= Seq::empty());
        assert(pins.deep_view() =~= Seq::empty());
        while k < nodes.len()
            invariant
                k <= nodes.len(),
                doc == descriptor.deep_view(),
                f == part_pin_of(doc, gpios.deep_view()),
                part_header(doc) == Ok::<HeaderModel, FailureModel>(header.deep_view()),
                gpio_table(gpio.deep_view()) == Ok::<(GpioMode, Seq<GpioPinModel>), FailureModel>(
                    (gpio_mode, gpios.deep_view()),
                ),
                root_element(doc) == Some(root as int),
                nodes@ == children_with_tag(doc, root as int, "Pin"@),
                forall|j: int|
                    0 <= j < nodes.len() ==> (#[trigger] nodes[j]) < descriptor.nodes.len(),
                collect(nodes@.take(k as int).map_values(f)) == Ok::<Seq<PinModel>, FailureModel>(
                    pins.deep_view(),
                ),
            decreases nodes.len() - k,
        {
            proof {
                lemma_collect_step(nodes@, f, k as int);
            }
            match parse_pin(descriptor, nodes[k], &gpios) {
                Err(e) => {
                    proof {
                        lemma_collect_map_fault(nodes@, f, k + 1);
                    }
                    return Err(e);
                },
                Ok(pin) => {
                    let ghost before = pins.deep_view();
                    pins.push(pin);
                    assert(pins.deep_view() =~= before.push(pin.deep_view()));
                },
            }
            k += 1;
        }
        assert(nodes@.take(k as int) == nodes@);
        Ok(
            PartInfo {
                part: String::from_str(part),
                line: header.line,
                package: header.package,
                gpio_mode,
                pins,
            },
        )
    }

    /// Produce a one-line part summary.
    pub fn summary(&self) -> (r: String)
        ensures
            r@ == summary_of(self.deep_view()),
    {
        let mut out: String = self.part.clone();
        out.append(": ");
        out.append(self.line.as_str());
        out.append(" ");
        out.append(self.package.as_str());
        out
    }

    /// Whether every AF number of the part is one of the 17 columns of the
    /// alternate-function layout.
    pub fn slots_in_range(&self) -> (r: bool)
        ensures
            r == slots_in_range(self.deep_view().pins),
    {
        let ghost pins = self.pins.deep_view();
        let mut i: usize = 0;
        while i < self.pins.len()
            invariant
                i <= self.pins.len(),
                pins == self.pins.deep_view(),
                forall|k: int, l: int|
                    0 <= k < i && 0 <= l < pins[k].signals.len() ==> (
                    #[trigger] pins[k].signals[l].map matches SignalMapModel::AF(n) ==> n <= 16),
            decreases self.pins.len() - i,
        {
            let signals: &Vec<SignalInfo> = &self.pins[i].signals;
            assert(pins[i as int].signals == signals.deep_view());
            let mut j: usize = 0;
            while j < signals.len()
                invariant
                    j <= signals.len(),
                    i < self.pins.len(),
                    pins == self.pins.deep_view(),
                    pins[i as int].signals == signals.deep_view(),
                    forall|l: int|
                        0 <= l < j ==> (
                        #[trigger] pins[i as int].signals[l].map matches SignalMapModel::AF(n)
                            ==> n <= 16),
                decreases signals.len() - j,
            {
                assert(pins[i as int].signals[j as int] == signals[j as int].deep_view());
                match signals[j].map {
                    SignalMap::AF(n) => {
                        if n > 16 {
                            assert(pins[i as int].signals[j as int].map == SignalMapModel::AF(n));
                            return false;
                        }
                    },
                    _ => {},
                }
                j += 1;
            }
            i += 1;
        }
        true
    }
}

/// Builds the part named `part` from the bytes of its descriptor and of the
/// GPIO descriptor that the descriptor's header names.
pub fn load(part: &str, descriptor: &[u8], gpio: &[u8]) -> (r: Result<PartInfo, Failure>)
    ensures
        result_model(r) == loaded_part(part@, descriptor@, gpio@),
        r matches Ok(built) ==> uniform(built.deep_view()),
{
    let doc: XmlDocument = match read_descriptor(descriptor) {
        Err(e) => {
            return Err(e);
        },
        Ok(doc) => doc,
    };
    match PartHeader::read(&doc) {
        Err(e) => {
            return Err(e);
        },
        Ok(_) => {},
    }
    let gpio_doc: XmlDocument = match read_descriptor(gpio) {
        Err(e) => {
            return Err(e);
        },
        Ok(gpio_doc) => gpio_doc,
    };
    PartInfo::new(part, &doc, &gpio_doc)
}

/// List all parts among the file names of the `mcu` directory that match a
/// given regex.
pub fn list_parts(names: &Vec<String>, pattern: &str) -> (r: Result<Vec<String>, Failure>)
    ensures
        result_model(r) == (match regex_refusal(pattern@) {
            None => Ok(matching_parts(names.deep_view(), pattern@)),
            Some(words) => Err(FailureModel::Pattern(words)),
        }),
{
    let re: Pattern = match Pattern::new(pattern) {
        Err(e) => {
            return Err(e);
        },
        Ok(re) => re,
    };
    let ext: Vec<char> = chars_of(".xml.gz");
    proof {
        reveal_strlit(".xml.gz");
    }
    let mut list: Vec<String> = Vec::new();
    let mut k: usize = 0;
    assert(names.deep_view().take(0) =~= Seq::empty());
    assert(list.deep_view() =~= Seq::empty());
    while k < names.len()
        invariant
            k <= names.len(),
            ext@ == ".xml.gz"@,
            ext@.len() == 7,
            regex_compiles(pattern@),
            re.source() == pattern@,
            list.deep_view() == matching_parts(names.deep_view().take(k as int), pattern@),
        decreases names.len() - k,
    {
        let ghost upto = names.deep_view().take(k + 1);
        assert(upto.drop_last() == names.deep_view().take(k as int));
        assert(upto.last() == names[k as int]@);
        let name: &str = names[k].as_str();
        let chars: Vec<char> = chars_of(name);
        if chars.len() >= 7 && matches_at(&chars, &ext, chars.len() - 7) {
            let part: &str = name.substring_char(0, chars.len() - 7);
            if re.is_match(part) {
                let ghost before = list.deep_view();
                list.push(String::from_str(part));
                assert(list.deep_view() =~= before.push(part@));
            }
        }
        k += 1;
    }
    assert(names.deep_view().take(k as int) == names.deep_view());
    Ok(list)
}

/// A part built from its descriptors is uniform: in a part of the
/// alternate-function mode no signal is mapped by remap, and in a part of the
/// remap mode none by alternate function.
pub proof fn lemma_part_model_uniform(
    part: Seq<char>,
    doc: Seq<NodeModel>,
    gpio_doc: Seq<NodeModel>,
)
    requires
        part_model(part, doc, gpio_doc) is Ok,
    ensures
        uniform(part_model(part, doc, gpio_doc)->Ok_0),
{
    let built = part_model(part, doc, gpio_doc)->Ok_0;
    let (mode, gpios) = gpio_table(gpio_doc)->Ok_0;
    let nodes = children_with_tag(doc, root_element(doc)->0, "Pin"@);
    lemma_gpio_table_uniform(gpio_doc);
    lemma_collect_ok(nodes.map_values(part_pin_of(doc, gpios)));
    assert forall|i: int, j: int|
        0 <= i < built.pins.len() && 0 <= j < built.pins[i].signals.len() implies of_mode(
        #[trigger] built.pins[i].signals[j].map,
        built.gpio_mode,
    ) by {
        let n = nodes[i] as int;
        assert(nodes.map_values(part_pin_of(doc, gpios))[i] == part_pin(doc, n, gpios));
        let name = built.pins[i].name;
        let known = signals_of_pin(gpios, name);
        let listed = listed_signals(doc, n);
        lemma_collect_ok(listed.map_values(part_signal_of(doc, known)));
        assert(listed.map_values(part_signal_of(doc, known))[j] == part_signal(
            doc,
            listed[j] as int,
            known,
        ));
        let signal = built.pins[i].signals[j];
        assert(signal.map == mapping_among(known, signal.name));
        lemma_mapping_among(known, signal.name);
        if !(signal.map is AddF) {
            let l = choose|l: int|
                0 <= l < known->0.len() && (#[trigger] known->0[l]).map == signal.map;
            let p = pin_named(gpios, name);
            let k = greatest(gpios.len() as int, p)->0;
            assert(is_greatest(gpios.len() as int, p, k));
            assert(known->0 == gpios[k].signals);
            assert(of_mode(gpios[k].signals[l].map, mode));
        }
    }
}

/// Loading is a function of the bytes: two parts loaded from the same name
/// and the same two streams are the same part, and one load that fails makes
/// the other fail with the same fault.
pub proof fn lemma_load_deterministic(
    part: &str,
    descriptor: &[u8],
    gpio: &[u8],
    first: Result<PartInfo, Failure>,
    second: Result<PartInfo, Failure>,
)
    requires
        result_model(first) == loaded_part(part@, descriptor@, gpio@),
        result_model(second) == loaded_part(part@, descriptor@, gpio@),
    ensures
        result_model(first) == result_model(second),
{
}

} // verus!
