//! The errors of capability checking and the messages that describe them.
use vstd::prelude::*;

use crate::format::{capability_text, format_capability};
use crate::models::{ModelLookupError, Namespace};

verus! {

/// Why a capability could not be accepted.
#[derive(Clone, Debug, PartialEq, Eq)]
pub enum Error {
    /// The text is not a capability path; the message says what was expected.
    InvalidCapabilityPath { message: String },
    /// The namespace of the path is not `param`, `input` or `output`.
    UnknownNamespace { unknown: String },
    /// The models data could not be consulted.
    ModelLookup(ModelLookupError),
    /// No model supports a capability of that name; the suggestion names a
    /// likely intended one, or lists the known names.
    UnknownCapability { namespace: Namespace, name: String, suggestion: String },
}

/// A lookup error with its text as characters.
pub enum LookupFailure {
    UnknownModel,
    InvalidModelsJson(Seq<char>),
}

/// An error with its texts as characters.
pub enum ErrorView {
    InvalidCapabilityPath(Seq<char>),
    UnknownNamespace(Seq<char>),
    ModelLookup(LookupFailure),
    UnknownCapability(Namespace, Seq<char>, Seq<char>),
}

impl View for ModelLookupError {
    type V = LookupFailure;

    open spec fn view(&self) -> LookupFailure {
        match self {
            ModelLookupError::UnknownModel => LookupFailure::UnknownModel,
            ModelLookupError::InvalidModelsJson(message) => LookupFailure::InvalidModelsJson(
                message@,
            ),
        }
    }
}

impl View for Error {
    type V = ErrorView;

    open spec fn view(&self) -> ErrorView {
        match self {
            Error::InvalidCapabilityPath { message } => ErrorView::InvalidCapabilityPath(message@),
            Error::UnknownNamespace { unknown } => ErrorView::UnknownNamespace(unknown@),
            Error::ModelLookup(e) => ErrorView::ModelLookup(e@),
            Error::UnknownCapability { namespace, name, suggestion } => ErrorView::UnknownCapability(
                *namespace,
                name@,
                suggestion@,
            ),
        }
    }
}

/// The message of a lookup error.
pub open spec fn lookup_failure_message(e: LookupFailure) -> Seq<char> {
    match e {
        LookupFailure::InvalidModelsJson(message) => "invalid embedded OpenRouter models JSON: "@
            + message,
        LookupFailure::UnknownModel => "failed to load OpenRouter capability names"@,
    }
}

/// The message of an error.
pub open spec fn error_message(e: ErrorView) -> Seq<char> {
    match e {
        ErrorView::InvalidCapabilityPath(message) => message,
        ErrorView::UnknownNamespace(unknown) => "unknown OpenRouter capability namespace `"@ + unknown
            + "`; expected one of: param, input, output"@,
        ErrorView::ModelLookup(e) => lookup_failure_message(e),
        ErrorView::UnknownCapability(namespace, name, suggestion) =>
            "unknown OpenRouter capability `"@ + capability_text((namespace, name)) + "`"@
                + suggestion,
    }
}

impl Error {
    pub(crate) fn invalid_capability_path(message: String) -> (e: Self)
        ensures
            e@ == ErrorView::InvalidCapabilityPath(message@),
    {
        Error::InvalidCapabilityPath { message }
    }

    pub(crate) fn unknown_namespace(unknown: &str) -> (e: Self)
        ensures
            e@ == ErrorView::UnknownNamespace(unknown@),
    {
        Error::UnknownNamespace { unknown: unknown.to_owned() }
    }

    pub(crate) fn unknown_capability(namespace: Namespace, name: &str, suggestion: String) -> (e:
        Self)
        ensures
            e@ == ErrorView::UnknownCapability(namespace, name@, suggestion@),
    {
        Error::UnknownCapability { namespace, name: name.to_owned(), suggestion }
    }

    /// The message that describes the error.
    pub fn to_string(&self) -> (message: String)
        ensures
            message@ == error_message(self@),
    {
        match self {
            Error::InvalidCapabilityPath { message } => message.clone(),
            Error::UnknownNamespace { unknown } => {
                let mut text = String::new();
                text.append("unknown OpenRouter capability namespace `");
                text.append(unknown.as_str());
                text.append("`; expected one of: param, input, output");
                text
            },
            Error::ModelLookup(e) => format_model_lookup_error(e),
            Error::UnknownCapability { namespace, name, suggestion } => {
                let mut text = String::new();
                text.append("unknown OpenRouter capability `");
                let capability = format_capability(*namespace, name.as_str());
                text.append(capability.as_str());
                text.append("`");
                text.append(suggestion.as_str());
                text
            },
        }
    }
}

/// The message of a lookup error.
pub fn format_model_lookup_error(error: &ModelLookupError) -> (message: String)
    ensures
        message@ == lookup_failure_message(error@),
{
    match error {
        ModelLookupError::InvalidModelsJson(message) => {
            let mut text = String::new();
            text.append("invalid embedded OpenRouter models JSON: ");
            text.append(message.as_str());
            text
        },
        ModelLookupError::UnknownModel => "failed to load OpenRouter capability names".to_owned(),
    }
}

} // verus!
