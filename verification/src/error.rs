//! What can go wrong while a part is decoded and its table is rendered.

use crate::text::NumberFault;
use vstd::prelude::*;

verus! {

/// The first fault met; every stage stops at it and hands it on unchanged.
#[derive(Debug)]
pub enum Failure {
    /// The compressed stream does not inflate to UTF-8 text; with the words
    /// of the decoder.
    Gzip(String),
    /// The text is not a well-formed XML document; with the words of the
    /// parser.
    Xml(String),
    /// The document has no root element.
    NoRootElement,
    /// An element lacks an attribute that it must have.
    MissingAttribute { tag: String, attribute: String },
    /// The part descriptor has no `IP` element named `GPIO`.
    MissingGpio,
    /// A signal of an alternate-function part has no `PossibleValue` element.
    NoAlternateFunction,
    /// The `PossibleValue` element of a signal has no text.
    NoAlternateFunctionText,
    /// The text of a `PossibleValue` element is not of the form `GPIO_AF<n>_...`.
    NotAlternateFunction,
    /// The name of a remap block holds no `REMAP` marker.
    MissingRemap,
    /// An index is not a decimal number from 0 to 255.
    BadNumber(NumberFault),
    /// A signal's mapping is not of the kind that the part's mode asks for.
    ModeMismatch,
    /// An exclusion fragment, or a rule of the filter, is no regular
    /// expression; with the words of the `regex` crate.
    Pattern(String),
    /// A row could not be written as a CSV record; with the words of the
    /// writer.
    Csv(String),
}

/// The families of faults.
#[derive(Debug, Clone, Copy, PartialEq, Eq, Structural)]
pub enum FailureKind {
    /// A malformed stream, document or descriptor text.
    Decode,
    /// A required attribute or element is absent.
    Structure,
    /// The database contradicts the mode inferred for the part.
    ModeInference,
    /// A malformed regular expression.
    Pattern,
    /// The table could not be written out.
    Output,
}

/// A `Failure` with its strings as sequences of characters.
pub enum FailureModel {
    Gzip(Seq<char>),
    Xml(Seq<char>),
    NoRootElement,
    MissingAttribute { tag: Seq<char>, attribute: Seq<char> },
    MissingGpio,
    NoAlternateFunction,
    NoAlternateFunctionText,
    NotAlternateFunction,
    MissingRemap,
    BadNumber(NumberFault),
    ModeMismatch,
    Pattern(Seq<char>),
    Csv(Seq<char>),
}

impl DeepView for Failure {
    type V = FailureModel;

    open spec fn deep_view(&self) -> FailureModel {
        match self {
            Failure::Gzip(text) => FailureModel::Gzip(text@),
            Failure::Xml(text) => FailureModel::Xml(text@),
            Failure::NoRootElement => FailureModel::NoRootElement,
            Failure::MissingAttribute { tag, attribute } => FailureModel::MissingAttribute {
                tag: tag@,
                attribute: attribute@,
            },
            Failure::MissingGpio => FailureModel::MissingGpio,
            Failure::NoAlternateFunction => FailureModel::NoAlternateFunction,
            Failure::NoAlternateFunctionText => FailureModel::NoAlternateFunctionText,
            Failure::NotAlternateFunction => FailureModel::NotAlternateFunction,
            Failure::MissingRemap => FailureModel::MissingRemap,
            Failure::BadNumber(fault) => FailureModel::BadNumber(*fault),
            Failure::ModeMismatch => FailureModel::ModeMismatch,
            Failure::Pattern(text) => FailureModel::Pattern(text@),
            Failure::Csv(text) => FailureModel::Csv(text@),
        }
    }
}

impl FailureModel {
    /// The family that the fault belongs to.
    pub open spec fn kind(self) -> FailureKind {
        match self {
            FailureModel::Gzip(_)
            | FailureModel::Xml(_)
            | FailureModel::NoAlternateFunction
            | FailureModel::NoAlternateFunctionText
            | FailureModel::NotAlternateFunction
            | FailureModel::MissingRemap
            | FailureModel::BadNumber(_) => FailureKind::Decode,
            FailureModel::MissingAttribute { .. }
            | FailureModel::MissingGpio
            | FailureModel::NoRootElement => FailureKind::Structure,
            FailureModel::ModeMismatch => FailureKind::ModeInference,
            FailureModel::Pattern(_) => FailureKind::Pattern,
            FailureModel::Csv(_) => FailureKind::Output,
        }
    }

    /// The fault in words.
    pub open spec fn message(self) -> Seq<char> {
        match self {
            FailureModel::Gzip(text) => text,
            FailureModel::Xml(text) => text,
            FailureModel::NoRootElement => "missing root element"@,
            FailureModel::MissingAttribute { tag, attribute } => tag + " missing a "@ + attribute
                + " attribute"@,
            FailureModel::MissingGpio => "missing GPIO"@,
            FailureModel::NoAlternateFunction => "no AF found"@,
            FailureModel::NoAlternateFunctionText => "no AF text"@,
            FailureModel::NotAlternateFunction => "not an AF"@,
            FailureModel::MissingRemap => "missing REMAP"@,
            FailureModel::BadNumber(fault) => match fault {
                NumberFault::Empty => "cannot parse integer from empty string"@,
                NumberFault::InvalidDigit => "invalid digit found in string"@,
                NumberFault::TooLarge => "number too large to fit in target type"@,
            },
            FailureModel::ModeMismatch => "bad signal map"@,
            FailureModel::Pattern(text) => text,
            FailureModel::Csv(text) => text,
        }
    }
}

impl Failure {
    /// The family that the fault belongs to.
    pub fn kind(&self) -> (r: FailureKind)
        ensures
            r == self.deep_view().kind(),
    {
        match self {
            Failure::Gzip(_)
            | Failure::Xml(_)
            | Failure::NoAlternateFunction
            | Failure::NoAlternateFunctionText
            | Failure::NotAlternateFunction
            | Failure::MissingRemap
            | Failure::BadNumber(_) => FailureKind::Decode,
            Failure::MissingAttribute { .. }
            | Failure::MissingGpio
            | Failure::NoRootElement => FailureKind::Structure,
            Failure::ModeMismatch => FailureKind::ModeInference,
            Failure::Pattern(_) => FailureKind::Pattern,
            Failure::Csv(_) => FailureKind::Output,
        }
    }

    /// The fault in words, for the one who reads the report.
    pub fn message(&self) -> (r: String)
        ensures
            r@ == self.deep_view().message(),
    {
        match self {
            Failure::Gzip(text) => text.clone(),
            Failure::Xml(text) => text.clone(),
            Failure::NoRootElement => String::from_str("missing root element"),
            Failure::MissingAttribute { tag, attribute } => {
                let mut out: String = tag.clone();
                out.append(" missing a ");
                out.append(attribute.as_str());
                out.append(" attribute");
                out
            },
            Failure::MissingGpio => String::from_str("missing GPIO"),
            Failure::NoAlternateFunction => String::from_str("no AF found"),
            Failure::NoAlternateFunctionText => String::from_str("no AF text"),
            Failure::NotAlternateFunction => String::from_str("not an AF"),
            Failure::MissingRemap => String::from_str("missing REMAP"),
            Failure::BadNumber(fault) => match fault {
                NumberFault::Empty => String::from_str("cannot parse integer from empty string"),
                NumberFault::InvalidDigit => String::from_str("invalid digit found in string"),
                NumberFault::TooLarge => String::from_str("number too large to fit in target type"),
            },
            Failure::ModeMismatch => String::from_str("bad signal map"),
            Failure::Pattern(text) => text.clone(),
            Failure::Csv(text) => text.clone(),
        }
    }
}

} // verus!
