//! The shared indexed-error taxonomy used by the router, the binder and the
//! console loop.
//!
//! Every internal error carries the 1-based dispatch index at the point of
//! failure; the index is used only for the error message, never for control
//! flow.

use vstd::prelude::*;
use crate::text::concat_strs;
use crate::text::dec_str;
use crate::text::usize_to_string;

verus! {

/// Which kind of argument an error is about.
#[derive(Debug, Clone, Copy, PartialEq, Eq, Structural)]
pub enum ArgType {
    Scope,
    Arg,
    Flag,
}

/// A token that could not be converted, and what it was being read as.
#[derive(Debug, Clone, PartialEq, Eq)]
pub struct ParseErr {
    pub arg: String,
    pub parse_type: ArgType,
}

/// The taxonomy of internal (malformed-input) errors.
#[derive(Debug, Clone, PartialEq, Eq)]
pub enum ErrorType {
    /// Residual input remained after binding, with no trail field to absorb
    /// it.
    Unexpected(String),
    /// Input ran out where a scope, argument or flag value was needed.
    Expected(ArgType),
    /// A token was present but could not be matched or converted.
    Parse(ParseErr),
    /// A flag marker matched no declared flag; carries the attempted
    /// flag name, without the `--` marker.
    InvalidFlag(String),
}

/// An internal error with the dispatch index at the failure point.
#[derive(Debug, Clone, PartialEq, Eq)]
pub struct InternalError {
    pub index: usize,
    pub variant: ErrorType,
}

/// The public result type of a dispatched command: an internal error from
/// parsing, or an error the application action itself reported after a
/// fully successful bind.  The two are structurally distinct so a caller
/// can tell "the input was malformed" from "the command ran and failed".
#[derive(Debug, Clone, PartialEq, Eq)]
pub enum Error<E> {
    Internal(InternalError),
    User(E),
}

/// The specification-level value of a `ParseErr`.
pub struct ParseErrModel {
    pub arg: Seq<char>,
    pub parse_type: ArgType,
}

/// The specification-level value of an `ErrorType`.
pub enum ErrorTypeModel {
    Unexpected(Seq<char>),
    Expected(ArgType),
    Parse(ParseErrModel),
    InvalidFlag(Seq<char>),
}

/// The specification-level value of an `InternalError`.
pub struct InternalErrorModel {
    pub index: int,
    pub variant: ErrorTypeModel,
}

impl View for ParseErr {
    type V = ParseErrModel;

    open spec fn view(&self) -> ParseErrModel {
        ParseErrModel { arg: self.arg@, parse_type: self.parse_type }
    }
}

impl View for ErrorType {
    type V = ErrorTypeModel;

    open spec fn view(&self) -> ErrorTypeModel {
        match self {
            ErrorType::Unexpected(s) => ErrorTypeModel::Unexpected(s@),
            ErrorType::Expected(a) => ErrorTypeModel::Expected(*a),
            ErrorType::Parse(p) => ErrorTypeModel::Parse(p@),
            ErrorType::InvalidFlag(s) => ErrorTypeModel::InvalidFlag(s@),
        }
    }
}

impl View for InternalError {
    type V = InternalErrorModel;

    open spec fn view(&self) -> InternalErrorModel {
        InternalErrorModel { index: self.index as int, variant: self.variant@ }
    }
}

/// The model of an error for an argument kind that was needed but missing.
pub open spec fn expected_model(index: int, which: ArgType) -> InternalErrorModel {
    InternalErrorModel { index, variant: ErrorTypeModel::Expected(which) }
}

/// The model of an error for a token that failed to match or convert.
pub open spec fn parse_model(index: int, arg: Seq<char>, which: ArgType) -> InternalErrorModel {
    InternalErrorModel {
        index,
        variant: ErrorTypeModel::Parse(ParseErrModel { arg, parse_type: which }),
    }
}

/// The model of an error for residual input with nothing left to bind.
pub open spec fn unexpected_model(index: int, arg: Seq<char>) -> InternalErrorModel {
    InternalErrorModel { index, variant: ErrorTypeModel::Unexpected(arg) }
}

/// The model of an error for a flag marker that matches no declared flag.
pub open spec fn invalid_flag_model(index: int, arg: Seq<char>) -> InternalErrorModel {
    InternalErrorModel { index, variant: ErrorTypeModel::InvalidFlag(arg) }
}

/// Whether an error renders to a message.  A failed conversion is reported
/// for scopes and arguments only: no flag marker is ever itself converted,
/// so the binder never produces a `Parse` error about a flag.
pub open spec fn renderable(v: ErrorTypeModel) -> bool {
    match v {
        ErrorTypeModel::Parse(p) => p.parse_type != ArgType::Flag,
        _ => true,
    }
}

/// The display text of an internal error, exactly as the console prints it.
pub open spec fn message_spec(e: InternalErrorModel) -> Seq<char> {
    let idx = dec_str(e.index as nat);
    match e.variant {
        ErrorTypeModel::Expected(ArgType::Scope) => "Expected a scope ("@ + idx + ")"@,
        ErrorTypeModel::Expected(ArgType::Arg) => "Expected an argument ("@ + idx + ")"@,
        ErrorTypeModel::Expected(ArgType::Flag) => "Expected a flag ("@ + idx + ")"@,
        ErrorTypeModel::Parse(p) => (match p.parse_type {
            ArgType::Scope => "Scope \""@ + p.arg + "\" does not exist ("@ + idx + ")"@,
            ArgType::Arg => "Unable to cast argument \""@ + p.arg + "\" ("@ + idx + ")"@,
            ArgType::Flag => Seq::empty(),
        }),
        ErrorTypeModel::InvalidFlag(f) => "Flag \"--"@ + f + "\" does not exist ("@ + idx
            + ")"@,
        ErrorTypeModel::Unexpected(u) => "Did not expect an argument \""@ + u + "\" ("@ + idx
            + ")"@,
    }
}

impl InternalError {
    /// Renders this error as the console's diagnostic line (without the
    /// configurable error prefix).
    pub fn message(&self) -> (r: String)
        requires
            renderable(self@.variant),
        ensures
            r@ == message_spec(self@),
    {
        let idx = usize_to_string(self.index);
        let r = match &self.variant {
            ErrorType::Expected(a) => {
                let head = match a {
                    ArgType::Scope => "Expected a scope (",
                    ArgType::Arg => "Expected an argument (",
                    ArgType::Flag => "Expected a flag (",
                };
                concat_strs(concat_strs(head, idx.as_str()).as_str(), ")")
            },
            ErrorType::Parse(p) => {
                let head = match p.parse_type {
                    ArgType::Scope => "Scope \"",
                    _ => "Unable to cast argument \"",
                };
                let mid = match p.parse_type {
                    ArgType::Scope => "\" does not exist (",
                    _ => "\" (",
                };
                let a = concat_strs(head, p.arg.as_str());
                let b = concat_strs(a.as_str(), mid);
                let c = concat_strs(b.as_str(), idx.as_str());
                concat_strs(c.as_str(), ")")
            },
            ErrorType::InvalidFlag(f) => {
                let a = concat_strs("Flag \"--", f.as_str());
                let b = concat_strs(a.as_str(), "\" does not exist (");
                let c = concat_strs(b.as_str(), idx.as_str());
                concat_strs(c.as_str(), ")")
            },
            ErrorType::Unexpected(u) => {
                let a = concat_strs("Did not expect an argument \"", u.as_str());
                let b = concat_strs(a.as_str(), "\" (");
                let c = concat_strs(b.as_str(), idx.as_str());
                concat_strs(c.as_str(), ")")
            },
        };
        assert(r@ == message_spec(self@));
        r
    }
}

} // verus!
