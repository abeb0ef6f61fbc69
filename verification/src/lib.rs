pub mod check;
pub mod error;
pub mod expand;
pub mod format;
pub mod literal;
pub mod models;
pub mod names;
pub mod parse;
pub mod suggest;
pub mod text;

pub use crate::check::{check, Diagnostic, DiagnosticKind};
pub use crate::error::{format_model_lookup_error, Error};
pub use crate::expand::{
    model_supports, parse_capabilities, parse_capability_path, CapabilityPath, CompileError,
    ErrorSpan, PathPart, PathSegment, RequiredCapability,
};
pub use crate::format::{format_capabilities, format_capability, sorted_names};
pub use crate::literal::model_parameter;
pub use crate::models::{
    known_capability_names, missing_model_capabilities, missing_model_parameters,
    model_supports_parameter, normalize_model_id_for_lookup, owned_capabilities, LoadedModels,
    ModelIndex, ModelLookupError, ModelRecord, Namespace,
};
pub use crate::names::NameSet;
pub use crate::parse::{
    parse_capability, parse_namespace, unknown_capability_suggestion, validate_capability_name,
    CAPABILITY_PATH_MESSAGE,
};
pub use crate::suggest::{closest_name, edit_distance};
pub use crate::text::str_chars;
