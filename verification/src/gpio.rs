//! The GPIO descriptor of a part: which signals each pin can carry, how each
//! is mapped, and whether the part maps by alternate function or by remap.

use crate::db::{of_mode, GpioMode, SignalInfo, SignalMap, SignalMapModel, SignalModel};
use crate::error::{Failure, FailureModel};
use crate::scan::{collect, greatest, is_greatest, least, lemma_collect_map_fault,
    lemma_collect_ok, lemma_collect_step, lemma_greatest_absent, lemma_greatest_found,
    lemma_least_absent, lemma_least_found, result_model};
use crate::text::{chars_of, find_char, first_index, has_prefix, last_occurrence, parse_u8,
    parse_u8_range, rfind};
use crate::xml::{attribute_or_error, children_with_tag, first_descendant_with_tag, root_element,
    NodeModel, XmlDocument};
use vstd::prelude::*;

verus! {

/// The signals that the GPIO descriptor lists for one pin.
#[derive(Debug)]
pub struct GpioPin {
    /// Name of the pin.
    pub name: String,
    /// Its signals, in document order.
    pub signals: Vec<SignalInfo>,
}

/// A `GpioPin` with its name as a sequence of characters.
pub struct GpioPinModel {
    pub name: Seq<char>,
    pub signals: Seq<SignalModel>,
}

impl DeepView for GpioPin {
    type V = GpioPinModel;

    open spec fn deep_view(&self) -> GpioPinModel {
        GpioPinModel { name: self.name@, signals: self.signals.deep_view() }
    }
}

/// The AF number that the text of a `PossibleValue` element names: the text
/// begins with `GPIO_AF`, and the number stands between that and the next
/// underscore.
pub open spec fn alternate_function(text: Seq<char>) -> Result<u8, FailureModel> {
    let marker = "GPIO_AF"@;
    if !marker.is_prefix_of(text) {
        Err(FailureModel::NotAlternateFunction)
    } else {
        let rest = text.skip(marker.len() as int);
        match first_index(rest, '_') {
            None => Err(FailureModel::NotAlternateFunction),
            Some(i) => match parse_u8(rest.take(i)) {
                Err(fault) => Err(FailureModel::BadNumber(fault)),
                Ok(n) => Ok(n),
            },
        }
    }
}

/// The remap number that the name of a `RemapBlock` element ends with: what
/// follows the last `REMAP` in it.
pub open spec fn remap_index(name: Seq<char>) -> Result<u8, FailureModel> {
    let marker = "REMAP"@;
    match last_occurrence(name, marker) {
        None => Err(FailureModel::MissingRemap),
        Some(i) => match parse_u8(name.skip(i + marker.len())) {
            Err(fault) => Err(FailureModel::BadNumber(fault)),
            Ok(n) => Ok(n),
        },
    }
}

/// The mapping of the signal at node `s` of an alternate-function part.
pub open spec fn af_mapping(doc: Seq<NodeModel>, s: int) -> Result<SignalMapModel, FailureModel> {
    match first_descendant_with_tag(doc, s, "PossibleValue"@) {
        None => Err(FailureModel::NoAlternateFunction),
        Some(d) => match doc[d].text {
            None => Err(FailureModel::NoAlternateFunctionText),
            Some(text) => match alternate_function(text) {
                Err(e) => Err(e),
                Ok(n) => Ok(SignalMapModel::AF(n)),
            },
        },
    }
}

/// The remap number of the remap block at node `b`.
pub open spec fn remap_of_block(doc: Seq<NodeModel>, b: int) -> Result<u8, FailureModel> {
    match attribute_or_error(doc, b, "Name"@) {
        Err(e) => Err(e),
        Ok(name) => remap_index(name),
    }
}

/// `remap_of_block` as a function of the node alone.
pub open spec fn remap_of(doc: Seq<NodeModel>) -> spec_fn(usize) -> Result<u8, FailureModel> {
    |b: usize| remap_of_block(doc, b as int)
}

/// The mapping of the signal at node `s` of a remap part: the numbers of its
/// remap blocks, in document order.
pub open spec fn remap_mapping(doc: Seq<NodeModel>, s: int) -> Result<
    SignalMapModel,
    FailureModel,
> {
    match collect(children_with_tag(doc, s, "RemapBlock"@).map_values(remap_of(doc))) {
        Err(e) => Err(e),
        Ok(remaps) => Ok(SignalMapModel::Remap(remaps)),
    }
}

/// The signal at node `s` of the GPIO descriptor, decoded as `mode` asks.
pub open spec fn gpio_signal(doc: Seq<NodeModel>, s: int, mode: GpioMode) -> Result<
    SignalModel,
    FailureModel,
> {
    let map = match mode {
        GpioMode::AF => af_mapping(doc, s),
        GpioMode::Remap => remap_mapping(doc, s),
    };
    match map {
        Err(e) => Err(e),
        Ok(map) => match attribute_or_error(doc, s, "Name"@) {
            Err(e) => Err(e),
            Ok(name) => Ok(SignalModel { name, map }),
        },
    }
}

/// `gpio_signal` as a function of the node alone.
pub open spec fn gpio_signal_of(doc: Seq<NodeModel>, mode: GpioMode) -> spec_fn(usize) -> Result<
    SignalModel,
    FailureModel,
> {
    |s: usize| gpio_signal(doc, s as int, mode)
}

/// The pin at node `p` of the GPIO descriptor with its signals, in document
/// order.
pub open spec fn gpio_pin(doc: Seq<NodeModel>, p: int, mode: GpioMode) -> Result<
    GpioPinModel,
    FailureModel,
> {
    match attribute_or_error(doc, p, "Name"@) {
        Err(e) => Err(e),
        Ok(name) => match collect(
            children_with_tag(doc, p, "PinSignal"@).map_values(gpio_signal_of(doc, mode)),
        ) {
            Err(e) => Err(e),
            Ok(signals) => Ok(GpioPinModel { name, signals }),
        },
    }
}

/// `gpio_pin` as a function of the node alone.
pub open spec fn gpio_pin_of(doc: Seq<NodeModel>, mode: GpioMode) -> spec_fn(usize) -> Result<
    GpioPinModel,
    FailureModel,
> {
    |p: usize| gpio_pin(doc, p as int, mode)
}

/// The test for a pin, by its place in `pins`, that has a signal.
pub open spec fn has_signal(doc: Seq<NodeModel>, pins: Seq<usize>) -> spec_fn(int) -> bool {
    |k: int| children_with_tag(doc, pins[k] as int, "PinSignal"@).len() > 0
}

/// The mode of the part: that of the first signal of the first pin that has
/// one. A signal with a remap block makes it `Remap`; any other signal, or
/// none at all, makes it `AF`.
pub open spec fn inferred_mode(doc: Seq<NodeModel>, pins: Seq<usize>) -> GpioMode {
    match least(0, pins.len() as int, has_signal(doc, pins)) {
        None => GpioMode::AF,
        Some(k) => {
            let first = children_with_tag(doc, pins[k] as int, "PinSignal"@)[0];
            if children_with_tag(doc, first as int, "RemapBlock"@).len() > 0 {
                GpioMode::Remap
            } else {
                GpioMode::AF
            }
        },
    }
}

/// What a GPIO descriptor says: the mode, and each `GPIO_Pin` of the root
/// element with its signals, in document order; or the first fault.
pub open spec fn gpio_table(doc: Seq<NodeModel>) -> Result<
    (GpioMode, Seq<GpioPinModel>),
    FailureModel,
> {
    match root_element(doc) {
        None => Err(FailureModel::NoRootElement),
        Some(root) => {
            let pins = children_with_tag(doc, root, "GPIO_Pin"@);
            let mode = inferred_mode(doc, pins);
            match collect(pins.map_values(gpio_pin_of(doc, mode))) {
                Err(e) => Err(e),
                Ok(list) => Ok((mode, list)),
            }
        },
    }
}

/// The test for an entry of `pins` named `name`.
pub open spec fn pin_named(pins: Seq<GpioPinModel>, name: Seq<char>) -> spec_fn(int) -> bool {
    |k: int| pins[k].name == name
}

/// The test for an entry of `signals` named `name`.
pub open spec fn signal_named(signals: Seq<SignalModel>, name: Seq<char>) -> spec_fn(int) -> bool {
    |k: int| signals[k].name == name
}

/// The signals of the last entry of `gpios` for the pin `pin`.
pub open spec fn signals_of_pin(gpios: Seq<GpioPinModel>, pin: Seq<char>) -> Option<
    Seq<SignalModel>,
> {
    match greatest(gpios.len() as int, pin_named(gpios, pin)) {
        None => None,
        Some(k) => Some(gpios[k].signals),
    }
}

/// The mapping of the last entry of `signals` named `name`; a signal without
/// an entry is an additional function.
pub open spec fn mapping_among(
    signals: Option<Seq<SignalModel>>,
    name: Seq<char>,
) -> SignalMapModel {
    match signals {
        None => SignalMapModel::AddF,
        Some(signals) => match greatest(signals.len() as int, signal_named(signals, name)) {
            None => SignalMapModel::AddF,
            Some(k) => signals[k].map,
        },
    }
}

/// Reads the AF number out of the text of a `PossibleValue` element.
pub fn alternate_function_number(text: &str) -> (r: Result<u8, Failure>)
    ensures
        result_model(r) == alternate_function(text@),
{
    let chars: Vec<char> = chars_of(text);
    let marker: Vec<char> = chars_of("GPIO_AF");
    proof {
        reveal_strlit("GPIO_AF");
    }
    if !has_prefix(&chars, &marker) {
        return Err(Failure::NotAlternateFunction);
    }
    match find_char(&chars, 7, '_') {
        None => Err(Failure::NotAlternateFunction),
        Some(i) => {
            assert(chars@.subrange(7, 7 + i) == chars@.skip(7).take(i as int));
            match parse_u8_range(&chars, 7, 7 + i) {
                Err(fault) => Err(Failure::BadNumber(fault)),
                Ok(n) => Ok(n),
            }
        },
    }
}

/// Reads the remap number off the end of the name of a `RemapBlock` element.
pub fn remap_number(name: &str) -> (r: Result<u8, Failure>)
    ensures
        result_model(r) == remap_index(name@),
{
    let chars: Vec<char> = chars_of(name);
    let marker: Vec<char> = chars_of("REMAP");
    proof {
        reveal_strlit("REMAP");
    }
    match rfind(&chars, &marker) {
        None => Err(Failure::MissingRemap),
        Some(i) => {
            assert(chars@.subrange(i + 5, chars@.len() as int) == chars@.skip(i + 5));
            match parse_u8_range(&chars, i + 5, chars.len()) {
                Err(fault) => Err(Failure::BadNumber(fault)),
                Ok(n) => Ok(n),
            }
        },
    }
}

/// Decodes the signal at node `s` of `doc` as an alternate function.
fn parse_af(doc: &XmlDocument, s: usize) -> (r: Result<SignalMap, Failure>)
    requires
        s < doc.nodes.len(),
    ensures
        result_model(r) == af_mapping(doc.deep_view(), s as int),
{
    match doc.first_descendant_with_tag(s, "PossibleValue") {
        None => Err(Failure::NoAlternateFunction),
        Some(d) => {
            assert(doc.deep_view()[d as int] == doc.nodes[d as int].deep_view());
            match &doc.nodes[d].text {
                None => Err(Failure::NoAlternateFunctionText),
                Some(text) => match alternate_function_number(text.as_str()) {
                    Err(e) => Err(e),
                    Ok(n) => Ok(SignalMap::AF(n)),
                },
            }
        },
    }
}

/// Decodes the remap block at node `b` of `doc`.
fn parse_remap(doc: &XmlDocument, b: usize) -> (r: Result<u8, Failure>)
    requires
        b < doc.nodes.len(),
    ensures
        result_model(r) == remap_of_block(doc.deep_view(), b as int),
{
    match doc.attribute_or_error(b, "Name") {
        Err(e) => Err(e),
        Ok(name) => remap_number(name.as_str()),
    }
}

/// Decodes the signal at node `s` of `doc` by its remap blocks.
fn parse_remaps(doc: &XmlDocument, s: usize) -> (r: Result<SignalMap, Failure>)
    requires
        s < doc.nodes.len(),
    ensures
        result_model(r) == remap_mapping(doc.deep_view(), s as int),
{
    let blocks: Vec<usize> = doc.children_with_tag(s, "RemapBlock");
    let ghost f = remap_of(doc.deep_view());
    let mut remaps: Vec<u8> = Vec::new();
    let mut k: usize = 0;
    assert(blocks@.take(0).map_values(f) =~= Seq::empty());
    while k < blocks.len()
        invariant
            k <= blocks.len(),
            f == remap_of(doc.deep_view()),
            blocks@ == children_with_tag(doc.deep_view(), s as int, "RemapBlock"@),
            forall|j: int| 0 <= j < blocks.len() ==> (#[trigger] blocks[j]) < doc.nodes.len(),
            collect(blocks@.take(k as int).map_values(f)) == Ok::<Seq<u8>, FailureModel>(remaps@),
        decreases blocks.len() - k,
    {
        proof {
            lemma_collect_step(blocks@, f, k as int);
        }
        match parse_remap(doc, blocks[k]) {
            Err(e) => {
                proof {
                    lemma_collect_map_fault(blocks@, f, k + 1);
                }
                return Err(e);
            },
            Ok(n) => {
                remaps.push(n);
            },
        }
        k += 1;
    }
    assert(blocks@.take(k as int) == blocks@);
    Ok(SignalMap::Remap(remaps))
}

/// Decodes the signal at node `s` of the GPIO descriptor.
fn parse_gpio_signal(doc: &XmlDocument, s: usize, mode: GpioMode) -> (r: Result<
    SignalInfo,
    Failure,
>)
    requires
        s < doc.nodes.len(),
    ensures
        result_model(r) == gpio_signal(doc.deep_view(), s as int, mode),
{
    let parsed: Result<SignalMap, Failure> = match mode {
        GpioMode::AF => parse_af(doc, s),
        GpioMode::Remap => parse_remaps(doc, s),
    };
    match parsed {
        Err(e) => Err(e),
        Ok(map) => match doc.attribute_or_error(s, "Name") {
            Err(e) => Err(e),
            Ok(name) => Ok(SignalInfo { name, map }),
        },
    }
}

/// Decodes the pin at node `p` of the GPIO descriptor.
fn parse_gpio_pin(doc: &XmlDocument, p: usize, mode: GpioMode) -> (r: Result<GpioPin, Failure>)
    requires
        p < doc.nodes.len(),
    ensures
        result_model(r) == gpio_pin(doc.deep_view(), p as int, mode),
{
    let name: String = match doc.attribute_or_error(p, "Name") {
        Err(e) => {
            return Err(e);
        },
        Ok(name) => name,
    };
    let nodes: Vec<usize> = doc.children_with_tag(p, "PinSignal");
    let ghost f = gpio_signal_of(doc.deep_view(), mode);
    let mut signals: Vec<SignalInfo> = Vec::new();
    let mut k: usize = 0;
    assert(nodes@.take(0).map_values(f) =~= Seq::empty());
    assert(signals.deep_view() =~= Seq::empty());
    while k < nodes.len()
        invariant
            k <= nodes.len(),
            f == gpio_signal_of(doc.deep_view(), mode),
            nodes@ == children_with_tag(doc.deep_view(), p as int, "PinSignal"@),
            attribute_or_error(doc.deep_view(), p as int, "Name"@) == Ok::<
                Seq<char>,
                FailureModel,
            >(name@),
            forall|j: int| 0 <= j < nodes.len() ==> (#[trigger] nodes[j]) < doc.nodes.len(),
            collect(nodes@.take(k as int).map_values(f)) == Ok::<Seq<SignalModel>, FailureModel>(
                signals.deep_view(),
            ),
        decreases nodes.len() - k,
    {
        proof {
            lemma_collect_step(nodes@, f, k as int);
        }
        match parse_gpio_signal(doc, nodes[k], mode) {
            Err(e) => {
                proof {
                    lemma_collect_map_fault(nodes@, f, k + 1);
                }
                return Err(e);
            },
            Ok(signal) => {
                let ghost before = signals.deep_view();
                signals.push(signal);
                assert(signals.deep_view() =~= before.push(signal.deep_view()));
            },
        }
        k += 1;
    }
    assert(nodes@.take(k as int) == nodes@);
    Ok(GpioPin { name, signals })
}

/// Finds the mode of the part in its GPIO descriptor, whose pins are `pins`.
fn infer_mode(doc: &XmlDocument, pins: &Vec<usize>) -> (r: GpioMode)
    requires
        forall|j: int| 0 <= j < pins.len() ==> (#[trigger] pins[j]) < doc.nodes.len(),
    ensures
        r == inferred_mode(doc.deep_view(), pins@),
{
    let ghost p = has_signal(doc.deep_view(), pins@);
    let mut mode: Option<GpioMode> = None;
    let mut k: usize = 0;
    while k < pins.len() && mode.is_none()
        invariant
            k <= pins.len(),
            p == has_signal(doc.deep_view(), pins@),
            forall|j: int| 0 <= j < pins.len() ==> (#[trigger] pins[j]) < doc.nodes.len(),
            mode is None ==> forall|j: int| 0 <= j < k ==> !#[trigger] p(j),
            mode matches Some(m) ==> m == inferred_mode(doc.deep_view(), pins@),
        decreases pins.len() - k, (if mode is None { 1int } else { 0int }),
    {
        let signals: Vec<usize> = doc.children_with_tag(pins[k], "PinSignal");
        if signals.len() > 0 {
            let blocks: Vec<usize> = doc.children_with_tag(signals[0], "RemapBlock");
            proof {
                assert(p(k as int));
                lemma_least_found(0, pins.len() as int, p, k as int);
            }
            mode = if blocks.len() > 0 {
                Some(GpioMode::Remap)
            } else {
                Some(GpioMode::AF)
            };
        } else {
            assert(!p(k as int));
            k += 1;
        }
    }
    match mode {
        Some(m) => m,
        None => {
            proof {
                lemma_least_absent(0, pins.len() as int, p);
            }
            GpioMode::AF
        },
    }
}

/// Decodes a GPIO descriptor: the part's mode, and for each pin its signals
/// with their mappings.
pub fn load_gpios(doc: &XmlDocument) -> (r: Result<(GpioMode, Vec<GpioPin>), Failure>)
    ensures
        gpio_table(doc.deep_view()) == (match r {
            Ok((mode, pins)) => Ok((mode, pins.deep_view())),
            Err(e) => Err(e.deep_view()),
        }),
{
    let root: usize = match doc.root_element() {
        None => {
            return Err(Failure::NoRootElement);
        },
        Some(root) => root,
    };
    let nodes: Vec<usize> = doc.children_with_tag(root, "GPIO_Pin");
    let mode: GpioMode = infer_mode(doc, &nodes);
    let ghost f = gpio_pin_of(doc.deep_view(), mode);
    let mut gpios: Vec<GpioPin> = Vec::new();
    let mut k: usize = 0;
    assert(nodes@.take(0).map_values(f) =~= Seq::empty());
    assert(gpios.deep_view() =~= Seq::empty());
    while k < nodes.len()
        invariant
            k <= nodes.len(),
            f == gpio_pin_of(doc.deep_view(), mode),
            root_element(doc.deep_view()) == Some(root as int),
            nodes@ == children_with_tag(doc.deep_view(), root as int, "GPIO_Pin"@),
            mode == inferred_mode(doc.deep_view(), nodes@),
            forall|j: int| 0 <= j < nodes.len() ==> (#[trigger] nodes[j]) < doc.nodes.len(),
            collect(nodes@.take(k as int).map_values(f)) == Ok::<Seq<GpioPinModel>, FailureModel>(
                gpios.deep_view(),
            ),
        decreases nodes.len() - k,
    {
        proof {
            lemma_collect_step(nodes@, f, k as int);
        }
        match parse_gpio_pin(doc, nodes[k], mode) {
            Err(e) => {
                proof {
                    lemma_collect_map_fault(nodes@, f, k + 1);
                }
                return Err(e);
            },
            Ok(pin) => {
                let ghost before = gpios.deep_view();
                gpios.push(pin);
                assert(gpios.deep_view() =~= before.push(pin.deep_view()));
            },
        }
        k += 1;
    }
    assert(nodes@.take(k as int) == nodes@);
    Ok((mode, gpios))
}

/// The entry of `gpios` that counts for the pin named `name`: the last one.
pub fn find_gpio_pin<'a>(gpios: &'a Vec<GpioPin>, name: &String) -> (r: Option<&'a GpioPin>)
    ensures
        r.deep_view() == (match greatest(
            gpios.deep_view().len() as int,
            pin_named(gpios.deep_view(), name@),
        ) {
            None => None,
            Some(k) => Some(gpios.deep_view()[k]),
        }),
{
    let ghost p = pin_named(gpios.deep_view(), name@);
    let mut k: usize = gpios.len();
    while k > 0
        invariant
            k <= gpios.len(),
            p == pin_named(gpios.deep_view(), name@),
            forall|j: int| k <= j < gpios.len() ==> !#[trigger] p(j),
        decreases k,
    {
        k -= 1;
        if gpios[k].name == *name {
            proof {
                assert(gpios.deep_view()[k as int] == gpios[k as int].deep_view());
                assert(p(k as int));
                lemma_greatest_found(gpios.len() as int, p, k as int);
            }
            return Some(&gpios[k]);
        }
        assert(!p(k as int));
    }
    proof {
        lemma_greatest_absent(gpios.len() as int, p);
    }
    None
}

/// The mapping that counts for the signal named `name` among `known`.
pub fn find_mapping(known: Option<&GpioPin>, name: &String) -> (r: SignalMap)
    ensures
        r.deep_view() == mapping_among(
            match known {
                Some(pin) => Some(pin.signals.deep_view()),
                None => None,
            },
            name@,
        ),
{
    match known {
        None => SignalMap::AddF,
        Some(pin) => {
            let ghost signals = pin.signals.deep_view();
            let ghost p = signal_named(signals, name@);
            let mut k: usize = pin.signals.len();
            while k > 0
                invariant
                    k <= pin.signals.len(),
                    known == Some(pin),
                    signals == pin.signals.deep_view(),
                    p == signal_named(signals, name@),
                    forall|j: int| k <= j < pin.signals.len() ==> !#[trigger] p(j),
                decreases k,
            {
                k -= 1;
                if pin.signals[k].name == *name {
                    proof {
                        assert(signals[k as int] == pin.signals[k as int].deep_view());
                        assert(p(k as int));
                        lemma_greatest_found(signals.len() as int, p, k as int);
                    }
                    return pin.signals[k].map.clone();
                }
                assert(!p(k as int));
            }
            proof {
                lemma_greatest_absent(signals.len() as int, p);
            }
            SignalMap::AddF
        },
    }
}

/// Every signal that a GPIO descriptor lists is mapped in the descriptor's
/// mode.
pub proof fn lemma_gpio_table_uniform(doc: Seq<NodeModel>)
    requires
        gpio_table(doc) is Ok,
    ensures
        forall|k: int, l: int|
            0 <= k < gpio_table(doc)->Ok_0.1.len() && 0 <= l < gpio_table(
                doc,
            )->Ok_0.1[k].signals.len() ==> of_mode(
                #[trigger] gpio_table(doc)->Ok_0.1[k].signals[l].map,
                gpio_table(doc)->Ok_0.0,
            ) && !(gpio_table(doc)->Ok_0.1[k].signals[l].map is AddF),
{
    let root = root_element(doc)->0;
    let nodes = children_with_tag(doc, root, "GPIO_Pin"@);
    let mode = inferred_mode(doc, nodes);
    let pins = gpio_table(doc)->Ok_0.1;
    lemma_collect_ok(nodes.map_values(gpio_pin_of(doc, mode)));
    assert forall|k: int, l: int|
        0 <= k < pins.len() && 0 <= l < pins[k].signals.len() implies of_mode(
        #[trigger] pins[k].signals[l].map,
        mode,
    ) && !(pins[k].signals[l].map is AddF) by {
        let p = nodes[k] as int;
        assert(nodes.map_values(gpio_pin_of(doc, mode))[k] == gpio_pin(doc, p, mode));
        let signals = children_with_tag(doc, p, "PinSignal"@);
        lemma_collect_ok(signals.map_values(gpio_signal_of(doc, mode)));
        assert(signals.map_values(gpio_signal_of(doc, mode))[l] == gpio_signal(
            doc,
            signals[l] as int,
            mode,
        ));
    }
}

/// A signal is mapped as an additional function or as an entry of what the
/// GPIO descriptor lists for its pin.
pub proof fn lemma_mapping_among(known: Option<Seq<SignalModel>>, name: Seq<char>)
    ensures
        mapping_among(known, name) is AddF || (known is Some && exists|k: int|
            0 <= k < known->0.len() && (#[trigger] known->0[k]).map == mapping_among(known, name)),
{
    match known {
        None => {},
        Some(signals) => {
            let p = signal_named(signals, name);
            match greatest(signals.len() as int, p) {
                None => {},
                Some(k) => {
                    assert(is_greatest(signals.len() as int, p, k));
                    assert(signals[k].map == mapping_among(known, name));
                },
            }
        },
    }
}

/// A signal that the GPIO descriptor does not list for the pin is an
/// additional function.
pub proof fn lemma_unlisted_is_additional(known: Option<Seq<SignalModel>>, name: Seq<char>)
    requires
        known matches Some(signals) ==> forall|k: int|
            0 <= k < signals.len() ==> (#[trigger] signals[k]).name != name,
    ensures
        mapping_among(known, name) == SignalMapModel::AddF,
{
    match known {
        None => {},
        Some(signals) => {
            let p = signal_named(signals, name);
            assert forall|k: int| 0 <= k < signals.len() implies !#[trigger] p(k) by {
                assert(signals[k].name != name);
            }
            lemma_greatest_absent(signals.len() as int, p);
        },
    }
}

} // verus!
