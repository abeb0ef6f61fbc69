//! What `model_supports!` decides when it lists capability paths: whether its
//! model literal expands to itself, or to a compile error at some place of
//! the input.
use vstd::prelude::*;

use crate::check::{
    capability_problem, capability_valid, duplicate_message, invalid_models_message,
    lemma_capability_diagnostics, missing_message, unknown_model_message,
};
use crate::error::{error_message, ErrorView};
use crate::format::{format_capabilities, format_capability, join};
use crate::models::{
    borrow_capabilities, contains_capability, known_in, missing_model_capabilities, owned_views,
    spec_missing_model_capabilities, CapabilityView, LoadedModels, ModelLookupError, Namespace,
};
use crate::parse::{
    parse_namespace, spec_parse_capability, spec_parse_namespace, spec_validate_capability_name,
    validate_capability_name, CAPABILITY_PATH_MESSAGE,
};

verus! {

/// What a capability path may not carry.
pub const GENERIC_ARGUMENTS_MESSAGE: &'static str =
    "OpenRouter capability paths cannot contain generic arguments";

/// One segment of a path: its identifier, and whether generic arguments
/// follow it.
#[derive(Clone, Debug)]
pub struct PathSegment {
    pub ident: String,
    pub has_arguments: bool,
}

/// A path as written among the required capabilities of the macro.
#[derive(Clone, Debug)]
pub struct CapabilityPath {
    pub leading_colon: bool,
    pub segments: Vec<PathSegment>,
}

/// A path with its identifiers as characters.
pub type PathView = (bool, Seq<(Seq<char>, bool)>);

impl View for CapabilityPath {
    type V = PathView;

    open spec fn view(&self) -> PathView {
        (self.leading_colon, self.segments@.map_values(|s: PathSegment| (s.ident@, s.has_arguments)))
    }
}

/// The character views of a list of paths.
pub open spec fn path_views(paths: Seq<CapabilityPath>) -> Seq<PathView> {
    paths.map_values(|p: CapabilityPath| p@)
}

/// The part of a path that an error points at.
#[derive(Clone, Copy, Debug, PartialEq, Eq, Structural)]
pub enum PathPart {
    Whole,
    Namespace,
    Name,
}

/// Where in the macro input a compile error points.
#[derive(Clone, Copy, Debug, PartialEq, Eq, Structural)]
pub enum ErrorSpan {
    /// The model id literal.
    ModelLiteral,
    /// A part of the capability path at `index`.
    Capability { index: usize, part: PathPart },
}

/// A compile error: where it points and what it says.
#[derive(Clone, Debug)]
pub struct CompileError {
    pub span: ErrorSpan,
    pub message: String,
}

/// A compile error with its message as characters.
pub type CompileErrorView = (ErrorSpan, Seq<char>);

impl View for CompileError {
    type V = CompileErrorView;

    open spec fn view(&self) -> CompileErrorView {
        (self.span, self.message@)
    }
}

/// A required capability read from the macro input.
#[derive(Clone, Debug)]
pub struct RequiredCapability {
    pub namespace: Namespace,
    pub name: String,
}

/// The character views of required capabilities.
pub open spec fn required_views(capabilities: Seq<RequiredCapability>) -> Seq<CapabilityView> {
    capabilities.map_values(|c: RequiredCapability| (c.namespace, c.name@))
}

/// What reading one capability path gives: exactly two segments and no
/// leading `::`, no generic arguments, a known namespace and a known name.
pub open spec fn spec_parse_capability_path(models: LoadedModels, path: PathView) -> Result<
    CapabilityView,
    (PathPart, Seq<char>),
> {
    let segments = path.1;
    if path.0 || segments.len() != 2 {
        Err((PathPart::Whole, CAPABILITY_PATH_MESSAGE@))
    } else if segments[0].1 || segments[1].1 {
        Err((PathPart::Whole, GENERIC_ARGUMENTS_MESSAGE@))
    } else {
        match spec_parse_namespace(segments[0].0) {
            None => Err((PathPart::Namespace, error_message(ErrorView::UnknownNamespace(segments[0].0)))),
            Some(namespace) => match spec_validate_capability_name(models, namespace, segments[1].0) {
                Err(e) => Err((PathPart::Name, error_message(e))),
                Ok(()) => Ok((namespace, segments[1].0)),
            },
        }
    }
}

/// What reading the capability paths gives: the capabilities in order, or
/// the first error, at the position of its path. A capability required twice
/// is an error at its second path.
pub open spec fn spec_parse_capabilities(models: LoadedModels, paths: Seq<PathView>) -> Result<
    Seq<CapabilityView>,
    (int, PathPart, Seq<char>),
>
    decreases paths.len(),
{
    if paths.len() == 0 {
        Ok(Seq::empty())
    } else {
        match spec_parse_capabilities(models, paths.drop_last()) {
            Err(e) => Err(e),
            Ok(parsed) => {
                let index = paths.len() - 1;
                match spec_parse_capability_path(models, paths.last()) {
                    Err((part, message)) => Err((index, part, message)),
                    Ok(capability) => if parsed.contains(capability) {
                        Err((index, PathPart::Whole, duplicate_message(capability)))
                    } else {
                        Ok(parsed.push(capability))
                    },
                }
            },
        }
    }
}

/// What `model_supports!` decides: expand to the model literal, or report a
/// compile error.
pub open spec fn spec_model_supports(
    models: LoadedModels,
    model_id: Seq<char>,
    paths: Seq<PathView>,
) -> Result<(), CompileErrorView> {
    match spec_parse_capabilities(models, paths) {
        Err((index, part, message)) => Err(
            (ErrorSpan::Capability { index: index as usize, part }, message),
        ),
        Ok(required) => match spec_missing_model_capabilities(models, model_id, required) {
            Ok(missing) => if missing.len() == 0 {
                Ok(())
            } else {
                Err((ErrorSpan::ModelLiteral, missing_message(model_id, missing)))
            },
            Err(ModelLookupError::UnknownModel) => Err(
                (ErrorSpan::ModelLiteral, unknown_model_message(model_id)),
            ),
            Err(ModelLookupError::InvalidModelsJson(message)) => Err(
                (ErrorSpan::ModelLiteral, invalid_models_message(message@)),
            ),
        },
    }
}

/// The views of what reading a path gives.
pub open spec fn path_result_view(r: Result<(Namespace, String), (PathPart, String)>) -> Result<
    CapabilityView,
    (PathPart, Seq<char>),
> {
    match r {
        Ok((namespace, name)) => Ok((namespace, name@)),
        Err((part, message)) => Err((part, message@)),
    }
}

/// The views of what reading the paths gives.
pub open spec fn capabilities_result_view(r: Result<Vec<RequiredCapability>, CompileError>) -> Result<
    Seq<CapabilityView>,
    (int, PathPart, Seq<char>),
> {
    match r {
        Ok(v) => Ok(required_views(v@)),
        Err(e) => match e.span {
            ErrorSpan::Capability { index, part } => Err((index as int, part, e.message@)),
            ErrorSpan::ModelLiteral => Err((-1, PathPart::Whole, e.message@)),
        },
    }
}

/// The views of a decision.
pub open spec fn decision_view(r: Result<(), CompileError>) -> Result<(), CompileErrorView> {
    match r {
        Ok(()) => Ok(()),
        Err(e) => Err(e@),
    }
}

/// Reads one capability path as `namespace::name`.
pub fn parse_capability_path(models: &LoadedModels, path: &CapabilityPath) -> (capability: Result<
    (Namespace, String),
    (PathPart, String),
>)
    ensures
        path_result_view(capability) == spec_parse_capability_path(*models, path@),
{
    if path.leading_colon || path.segments.len() != 2 {
        return Err((PathPart::Whole, CAPABILITY_PATH_MESSAGE.to_owned()));
    }
    let namespace_segment = &path.segments[0];
    let name_segment = &path.segments[1];
    proof {
        assert(path@.1[0] == (namespace_segment.ident@, namespace_segment.has_arguments));
        assert(path@.1[1] == (name_segment.ident@, name_segment.has_arguments));
    }
    if namespace_segment.has_arguments || name_segment.has_arguments {
        return Err((PathPart::Whole, GENERIC_ARGUMENTS_MESSAGE.to_owned()));
    }
    let namespace = match parse_namespace(namespace_segment.ident.as_str()) {
        Ok(namespace) => namespace,
        Err(error) => return Err((PathPart::Namespace, error.to_string())),
    };
    let name = name_segment.ident.clone();
    match validate_capability_name(models, namespace, name.as_str()) {
        Ok(()) => Ok((namespace, name)),
        Err(error) => Err((PathPart::Name, error.to_string())),
    }
}

/// An error that stops reading the paths stays the answer for longer lists.
proof fn lemma_parse_capabilities_stops(models: LoadedModels, paths: Seq<PathView>, k: int)
    requires
        0 <= k <= paths.len(),
        spec_parse_capabilities(models, paths.take(k)) is Err,
    ensures
        spec_parse_capabilities(models, paths) == spec_parse_capabilities(models, paths.take(k)),
    decreases paths.len(),
{
    if k == paths.len() {
        assert(paths.take(k) =~= paths);
    } else {
        assert(paths.drop_last().take(k) =~= paths.take(k));
        lemma_parse_capabilities_stops(models, paths.drop_last(), k);
    }
}

/// The views of what reading the paths gives, the capabilities held as
/// owned pairs.
pub open spec fn owned_result_view(r: Result<Vec<(Namespace, String)>, CompileError>) -> Result<
    Seq<CapabilityView>,
    (int, PathPart, Seq<char>),
> {
    match r {
        Ok(v) => Ok(owned_views(v@)),
        Err(e) => match e.span {
            ErrorSpan::Capability { index, part } => Err((index as int, part, e.message@)),
            ErrorSpan::ModelLiteral => Err((-1, PathPart::Whole, e.message@)),
        },
    }
}

/// Reads the capability paths in order, stopping at the first error.
fn read_capabilities(models: &LoadedModels, capabilities: &[CapabilityPath]) -> (parsed: Result<
    Vec<(Namespace, String)>,
    CompileError,
>)
    ensures
        owned_result_view(parsed) == spec_parse_capabilities(*models, path_views(capabilities@)),
        parsed matches Err(e) ==> e.span matches ErrorSpan::Capability { .. },
{
    let ghost paths = path_views(capabilities@);
    let mut parsed: Vec<(Namespace, String)> = Vec::new();
    assert(paths.take(0) =~= Seq::<PathView>::empty());
    assert(owned_views(parsed@) =~= Seq::<CapabilityView>::empty());
    let n = capabilities.len();
    let mut i: usize = 0;
    while i < n
        invariant
            n == capabilities@.len(),
            paths == path_views(capabilities@),
            i <= n,
            spec_parse_capabilities(*models, paths.take(i as int)) == Ok::<
                Seq<CapabilityView>,
                (int, PathPart, Seq<char>),
            >(owned_views(parsed@)),
        decreases n - i,
    {
        let ghost before = parsed@;
        proof {
            let prefix = paths.take(i + 1);
            assert(prefix.drop_last() =~= paths.take(i as int));
            assert(prefix.last() == capabilities@[i as int]@);
        }
        match parse_capability_path(models, &capabilities[i]) {
            Err((part, message)) => {
                let error = CompileError {
                    span: ErrorSpan::Capability { index: i, part },
                    message,
                };
                proof {
                    lemma_parse_capabilities_stops(*models, paths, i + 1);
                }
                return Err(error);
            },
            Ok((namespace, name)) => {
                if contains_capability(&parsed, namespace, name.as_str()) {
                    let mut message = String::new();
                    message.append("duplicate OpenRouter capability `");
                    let text = format_capability(namespace, name.as_str());
                    message.append(text.as_str());
                    message.append("`");
                    let error = CompileError {
                        span: ErrorSpan::Capability { index: i, part: PathPart::Whole },
                        message,
                    };
                    proof {
                        lemma_parse_capabilities_stops(*models, paths, i + 1);
                    }
                    return Err(error);
                }
                let ghost name_view = name@;
                parsed.push((namespace, name));
                assert(owned_views(parsed@) =~= owned_views(before).push((namespace, name_view)));
            },
        }
        i = i + 1;
    }
    assert(paths.take(n as int) =~= paths);
    Ok(parsed)
}

/// Reads the capability paths in order, stopping at the first error.
pub fn parse_capabilities(models: &LoadedModels, capabilities: &[CapabilityPath]) -> (parsed: Result<
    Vec<RequiredCapability>,
    CompileError,
>)
    ensures
        capabilities_result_view(parsed) == spec_parse_capabilities(
            *models,
            path_views(capabilities@),
        ),
        parsed matches Err(e) ==> e.span matches ErrorSpan::Capability { .. },
{
    let read = match read_capabilities(models, capabilities) {
        Ok(read) => read,
        Err(error) => return Err(error),
    };
    let mut required: Vec<RequiredCapability> = Vec::new();
    let n = read.len();
    let mut i: usize = 0;
    while i < n
        invariant
            n == read@.len(),
            i <= n,
            required_views(required@) == owned_views(read@).take(i as int),
        decreases n - i,
    {
        let ghost before = required@;
        let name = read[i].1.clone();
        required.push(RequiredCapability { namespace: read[i].0, name });
        proof {
            assert(required_views(required@) =~= required_views(before).push(
                (read@[i as int].0, read@[i as int].1@),
            ));
            assert(owned_views(read@).take(i + 1) =~= owned_views(read@).take(i as int).push(
                (read@[i as int].0, read@[i as int].1@),
            ));
        }
        i = i + 1;
    }
    assert(owned_views(read@).take(n as int) =~= owned_views(read@));
    Ok(required)
}

/// Decides `model_supports!(model_id, capabilities...)`: `Ok` when the model
/// literal may stand, else the compile error to report.
pub fn model_supports(models: &LoadedModels, model_id: &str, capabilities: &[CapabilityPath]) -> (decision:
    Result<(), CompileError>)
    ensures
        decision_view(decision) == spec_model_supports(*models, model_id@, path_views(capabilities@)),
{
    let required_capabilities = match read_capabilities(models, capabilities) {
        Ok(required) => required,
        Err(error) => return Err(error),
    };
    let required_capability_refs = borrow_capabilities(&required_capabilities);
    match missing_model_capabilities(models, model_id, required_capability_refs.as_slice()) {
        Ok(missing) => {
            if missing.len() == 0 {
                Ok(())
            } else {
                let missing_refs = borrow_capabilities(&missing);
                let mut message = String::new();
                message.append("OpenRouter model `");
                message.append(model_id);
                message.append("` does not support required capability(s): ");
                let listed = format_capabilities(missing_refs.as_slice());
                message.append(listed.as_str());
                Err(CompileError { span: ErrorSpan::ModelLiteral, message })
            }
        },
        Err(ModelLookupError::UnknownModel) => {
            let mut message = String::new();
            message.append("unknown OpenRouter model `");
            message.append(model_id);
            message.append("`");
            Err(CompileError { span: ErrorSpan::ModelLiteral, message })
        },
        Err(ModelLookupError::InvalidModelsJson(text)) => {
            let mut message = String::new();
            message.append("invalid embedded OpenRouter models JSON: ");
            message.append(text.as_str());
            Err(CompileError { span: ErrorSpan::ModelLiteral, message })
        },
    }
}

/// Whether a segment is an identifier without generic arguments: non-empty
/// and holding no `:`, as Rust identifiers never do.
pub open spec fn is_identifier_segment(segment: (Seq<char>, bool)) -> bool {
    &&& !segment.1
    &&& segment.0.len() > 0
    &&& forall|t: int| 0 <= t < segment.0.len() ==> #[trigger] segment.0[t] != ':'
}

/// Whether every segment of a path is an identifier without generic
/// arguments, whatever the number of segments and the leading `::`.
pub open spec fn is_generic_free_path(path: PathView) -> bool {
    forall|s: int| 0 <= s < path.1.len() ==> is_identifier_segment(#[trigger] path.1[s])
}

/// The identifiers of a path's segments, in order.
pub open spec fn path_idents(path: PathView) -> Seq<Seq<char>> {
    path.1.map_values(|s: (Seq<char>, bool)| s.0)
}

/// A path written out as text: `::` where it has a leading one, then its
/// identifiers joined by `::`.
pub open spec fn path_text(path: PathView) -> Seq<char> {
    if path.0 {
        "::"@ + join(path_idents(path), "::"@)
    } else {
        join(path_idents(path), "::"@)
    }
}

/// The capability that each path reads as (meaningful where it reads).
pub open spec fn parsed_paths(models: LoadedModels, paths: Seq<PathView>) -> Seq<CapabilityView> {
    paths.map_values(|p: PathView| spec_parse_capability_path(models, p)->Ok_0)
}

/// The paths read without error exactly when each reads and no two read as
/// the same capability; the capabilities are then those read, in order.
/// Otherwise the error is at the first path that does not read or reads as
/// a capability read before it: all paths before it read, as distinct
/// capabilities, and the error is that path's own error, or the report of a
/// repeat over the whole path.
pub proof fn lemma_parse_capabilities_clean(models: LoadedModels, paths: Seq<PathView>)
    ensures
        spec_parse_capabilities(models, paths) is Ok <==> (forall|i: int|
            0 <= i < paths.len() ==> #[trigger] spec_parse_capability_path(models, paths[i]) is Ok)
            && (forall|i: int, j: int|
            0 <= i < j < paths.len() ==> #[trigger] parsed_paths(models, paths)[i]
                != #[trigger] parsed_paths(models, paths)[j]),
        spec_parse_capabilities(models, paths) is Ok ==> spec_parse_capabilities(models, paths)->Ok_0
            == parsed_paths(models, paths),
        spec_parse_capabilities(models, paths) is Err ==> ({
            let (k, part, message) = spec_parse_capabilities(models, paths)->Err_0;
            let parsed = parsed_paths(models, paths);
            &&& 0 <= k < paths.len()
            &&& forall|i: int|
                0 <= i < k ==> #[trigger] spec_parse_capability_path(models, paths[i]) is Ok
            &&& forall|i: int, j: int| 0 <= i < j < k ==> #[trigger] parsed[i] != #[trigger] parsed[j]
            &&& match spec_parse_capability_path(models, paths[k]) {
                Err(e) => e == (part, message),
                Ok(c) => (exists|j: int| 0 <= j < k && #[trigger] parsed[j] == c) && part
                    == PathPart::Whole && message == duplicate_message(c),
            }
        }),
    decreases paths.len(),
{
    let parsed = parsed_paths(models, paths);
    if paths.len() == 0 {
        assert(parsed =~= Seq::<CapabilityView>::empty());
    } else {
        let pre = paths.drop_last();
        let n = paths.len() - 1;
        lemma_parse_capabilities_clean(models, pre);
        let pre_parsed = parsed_paths(models, pre);
        assert(pre_parsed =~= parsed.take(n));
        assert forall|i: int| 0 <= i < n implies pre[i] == paths[i] by {}
        assert(paths.last() == paths[n]);
        let all_read = forall|i: int|
            0 <= i < paths.len() ==> #[trigger] spec_parse_capability_path(models, paths[i]) is Ok;
        let distinct = forall|i: int, j: int|
            0 <= i < j < paths.len() ==> #[trigger] parsed[i] != #[trigger] parsed[j];
        if all_read && distinct {
            assert forall|i: int|
                0 <= i < pre.len() implies #[trigger] spec_parse_capability_path(models, pre[i]) is Ok by {
                assert(spec_parse_capability_path(models, paths[i]) is Ok);
            }
            assert forall|i: int, j: int|
                0 <= i < j < pre.len() implies #[trigger] pre_parsed[i] != #[trigger] pre_parsed[j] by {
                assert(parsed[i] != parsed[j]);
            }
            let r = spec_parse_capabilities(models, pre)->Ok_0;
            assert(spec_parse_capability_path(models, paths[n]) is Ok);
            let c = parsed[n];
            assert(!r.contains(c)) by {
                if r.contains(c) {
                    let k = choose|k: int| 0 <= k < r.len() && r[k] == c;
                    assert(parsed[k] != parsed[n]);
                }
            }
            assert(parsed =~= pre_parsed.push(c));
        } else if spec_parse_capabilities(models, pre) is Ok {
            let r = spec_parse_capabilities(models, pre)->Ok_0;
            if spec_parse_capability_path(models, paths[n]) is Ok {
                let c = parsed[n];
                assert(all_read) by {
                    assert forall|i: int|
                        0 <= i < paths.len() implies #[trigger] spec_parse_capability_path(
                        models,
                        paths[i],
                    ) is Ok by {
                        if i < n {
                            assert(spec_parse_capability_path(models, pre[i]) is Ok);
                        }
                    }
                }
                let (i, j) = choose|i: int, j: int|
                    0 <= i < j < paths.len() && #[trigger] parsed[i] == #[trigger] parsed[j];
                if j < n {
                    assert(pre_parsed[i] == pre_parsed[j]);
                } else {
                    assert(r[i] == c);
                    assert(r.contains(c));
                }
            }
        }
        if spec_parse_capabilities(models, paths) is Err {
            if spec_parse_capabilities(models, pre) is Ok {
                let r = spec_parse_capabilities(models, pre)->Ok_0;
                assert forall|i: int|
                    0 <= i < n implies #[trigger] spec_parse_capability_path(models, paths[i]) is Ok by {
                    assert(spec_parse_capability_path(models, pre[i]) is Ok);
                }
                assert forall|i: int, j: int| 0 <= i < j < n implies #[trigger] parsed[i]
                    != #[trigger] parsed[j] by {
                    assert(pre_parsed[i] != pre_parsed[j]);
                }
                if spec_parse_capability_path(models, paths[n]) is Ok {
                    let c = spec_parse_capability_path(models, paths[n])->Ok_0;
                    assert(r.contains(c));
                    let j = choose|j: int| 0 <= j < r.len() && r[j] == c;
                    assert(parsed[j] == c);
                }
            } else {
                let (k, part, message) = spec_parse_capabilities(models, pre)->Err_0;
                assert(paths[k] == pre[k]);
                assert forall|i: int|
                    0 <= i < k implies #[trigger] spec_parse_capability_path(models, paths[i]) is Ok by {
                    assert(spec_parse_capability_path(models, pre[i]) is Ok);
                }
                assert forall|i: int, j: int| 0 <= i < j < k implies #[trigger] parsed[i]
                    != #[trigger] parsed[j] by {
                    assert(pre_parsed[i] != pre_parsed[j]);
                }
                if spec_parse_capability_path(models, paths[k]) is Ok {
                    let c = spec_parse_capability_path(models, paths[k])->Ok_0;
                    let j = choose|j: int| 0 <= j < k && #[trigger] pre_parsed[j] == c;
                    assert(parsed[j] == c);
                }
            }
        }
    }
}

/// Text made of an identifier, `::` and anything after is cut at that `::`.
proof fn lemma_cut_after_identifier(first: Seq<char>, rest: Seq<char>)
    requires
        first.len() > 0,
        forall|t: int| 0 <= t < first.len() ==> #[trigger] first[t] != ':',
    ensures
        ({
            let text = first + "::"@ + rest;
            &&& crate::parse::first_separator(text) == Some(first.len() as int)
            &&& text.take(first.len() as int) == first
            &&& text.skip(first.len() as int + 2) == rest
        }),
{
    let text = first + "::"@ + rest;
    let l = first.len() as int;
    reveal_strlit("::");
    assert(text[l] == ':' && text[l + 1] == ':');
    crate::parse::lemma_first_separator(text);
    match crate::parse::first_separator(text) {
        Some(p) => {
            if p < l {
                assert(text[p] == first[p]);
            } else if p > l {
                assert(crate::parse::separator_at(text, l));
            }
        },
        None => {
            assert(crate::parse::separator_at(text, l));
        },
    }
    assert(text.take(l) =~= first);
    assert(text.skip(l + 2) =~= rest);
}

/// Text that holds no `:` holds no `::`.
proof fn lemma_no_separator(text: Seq<char>)
    requires
        forall|t: int| 0 <= t < text.len() ==> #[trigger] text[t] != ':',
    ensures
        crate::parse::first_separator(text) is None,
{
    crate::parse::lemma_first_separator(text);
    if let Some(p) = crate::parse::first_separator(text) {
        assert(text[p] == ':');
    }
}

/// Joining two or more items puts the first, the separator, then the
/// others joined.
proof fn lemma_join_first(items: Seq<Seq<char>>, separator: Seq<char>)
    requires
        items.len() >= 2,
    ensures
        join(items, separator) == items[0] + separator + join(items.drop_first(), separator),
    decreases items.len(),
{
    let rest = items.drop_first();
    if items.len() == 2 {
        assert(items.drop_last().len() == 1);
        assert(join(items.drop_last(), separator) == items[0]);
        assert(rest.len() == 1);
        assert(join(rest, separator) == items[1]);
    } else {
        lemma_join_first(items.drop_last(), separator);
        assert(rest.drop_last() =~= items.drop_last().drop_first());
        assert(rest.last() == items.last());
        assert(join(rest, separator) == join(rest.drop_last(), separator) + separator + rest.last());
        assert(join(items, separator) =~= items[0] + separator + join(rest, separator));
    }
}

/// A path without a leading `::` and with two identifier segments, written
/// as text, reads as the capability its segments name when its first segment
/// names a namespace, and otherwise fails with the message about that
/// unknown namespace.
proof fn lemma_plain_path_text(models: LoadedModels, path: PathView)
    requires
        is_generic_free_path(path),
        !path.0,
        path.1.len() == 2,
    ensures
        spec_parse_capability(path_text(path)) == match spec_parse_namespace(path.1[0].0) {
            Some(namespace) => Ok((namespace, path.1[1].0)),
            None => Err(
                ErrorView::InvalidCapabilityPath(
                    error_message(ErrorView::UnknownNamespace(path.1[0].0)),
                ),
            ),
        },
{
    let first = path.1[0].0;
    let second = path.1[1].0;
    assert(is_identifier_segment(path.1[0]) && is_identifier_segment(path.1[1]));
    let idents = path_idents(path);
    lemma_join_first(idents, "::"@);
    assert(idents.drop_first().len() == 1);
    assert(join(idents.drop_first(), "::"@) == second);
    assert(path_text(path) == first + "::"@ + second);
    lemma_cut_after_identifier(first, second);
    lemma_no_separator(second);
}

/// Any other path without generic arguments, written as text, fails to read
/// with the message about the form of a capability path, as the path itself
/// does.
proof fn lemma_irregular_path_text(path: PathView)
    requires
        is_generic_free_path(path),
        path.0 || path.1.len() != 2,
    ensures
        spec_parse_capability(path_text(path)) == Err::<CapabilityView, ErrorView>(
            ErrorView::InvalidCapabilityPath(CAPABILITY_PATH_MESSAGE@),
        ),
{
    let text = path_text(path);
    let idents = path_idents(path);
    reveal_strlit("::");
    if path.0 {
        // The text starts with `::`, so what precedes it is empty.
        assert(text.len() >= 2 && text[0] == ':' && text[1] == ':');
        assert(crate::parse::first_separator(text) == Some(0int));
        assert(text.take(0).len() == 0);
    } else if path.1.len() == 0 {
        assert(text.len() == 0);
    } else if path.1.len() == 1 {
        assert(is_identifier_segment(path.1[0]));
        assert(text == idents[0]);
        lemma_no_separator(text);
    } else {
        // Three or more segments: the name after the first `::` holds another.
        let rest = idents.drop_first();
        assert(is_identifier_segment(path.1[0]) && is_identifier_segment(path.1[1]));
        lemma_join_first(idents, "::"@);
        lemma_join_first(rest, "::"@);
        let name = join(rest, "::"@);
        assert(text == idents[0] + "::"@ + name);
        lemma_cut_after_identifier(idents[0], name);
        assert(name == rest[0] + "::"@ + join(rest.drop_first(), "::"@));
        let l = rest[0].len() as int;
        assert(crate::parse::separator_at(name, l));
        crate::parse::lemma_first_separator(name);
    }
}

/// What reading a path without generic arguments gives agrees with reading
/// its text and checking the name: the same capability, or an error with the
/// same message.
proof fn lemma_path_text(models: LoadedModels, path: PathView)
    requires
        is_generic_free_path(path),
    ensures
        ({
            let read = spec_parse_capability_path(models, path);
            let text = spec_parse_capability(path_text(path));
            &&& read is Ok <==> (text is Ok && spec_validate_capability_name(
                models,
                text->Ok_0.0,
                text->Ok_0.1,
            ) is Ok)
            &&& read is Ok ==> text == Ok::<CapabilityView, ErrorView>(read->Ok_0)
            &&& read is Err ==> match text {
                Err(e) => error_message(e) == read->Err_0.1,
                Ok(c) => spec_validate_capability_name(models, c.0, c.1) is Err && error_message(
                    spec_validate_capability_name(models, c.0, c.1)->Err_0,
                ) == read->Err_0.1,
            }
        }),
{
    if !path.0 && path.1.len() == 2 {
        assert(is_identifier_segment(path.1[0]) && is_identifier_segment(path.1[1]));
        lemma_plain_path_text(models, path);
    } else {
        lemma_irregular_path_text(path);
    }
}

/// On paths without generic arguments, `model_supports!` expands to its
/// model literal exactly when `check` accepts the same model and the paths
/// written as text; when
/// it does not, its compile error says what the first diagnostic of `check`
/// says, and points at the path of that diagnostic, or at the model literal
/// when the diagnostic is about the model.
pub proof fn lemma_macro_agrees_with_check(
    models: LoadedModels,
    model_id: Seq<char>,
    paths: Seq<PathView>,
)
    requires
        paths.len() <= usize::MAX,
        forall|i: int| 0 <= i < paths.len() ==> is_generic_free_path(#[trigger] paths[i]),
    ensures
        spec_model_supports(models, model_id, paths) is Ok <==> crate::check::spec_check(
            models,
            model_id,
            paths.map_values(|p: PathView| path_text(p)),
        ) is Ok,
        spec_model_supports(models, model_id, paths) is Err ==> ({
            let (span, message) = spec_model_supports(models, model_id, paths)->Err_0;
            let diagnostics = crate::check::spec_check(
                models,
                model_id,
                paths.map_values(|p: PathView| path_text(p)),
            )->Err_0;
            &&& diagnostics.len() > 0
            &&& diagnostics[0].0 == message
            &&& match span {
                ErrorSpan::ModelLiteral => diagnostics[0].2 is None,
                ErrorSpan::Capability { index, part: _ } => diagnostics[0].2 == Some(index),
            }
        }),
{
    let texts = paths.map_values(|p: PathView| path_text(p));
    lemma_parse_capabilities_clean(models, paths);
    assert forall|i: int| 0 <= i < paths.len() implies #[trigger] texts[i] == path_text(paths[i]) by {}
    match models {
        Err(_) => {
            crate::check::lemma_scan_without_models(models, texts);
            if paths.len() > 0 {
                assert(spec_parse_capability_path(models, paths[0]) is Err);
            }
        },
        Ok(index) => {
            crate::check::lemma_scan_clean(models, texts);
            let parsed = parsed_paths(models, paths);
            let text_parsed = crate::check::parsed_capabilities(texts);
            assert forall|i: int| 0 <= i < paths.len() implies (#[trigger] spec_parse_capability_path(
                models,
                paths[i],
            ) is Ok <==> spec_parse_capability(texts[i]) is Ok && known_in(
                index@,
                text_parsed[i].0,
            ).contains(text_parsed[i].1)) && (spec_parse_capability_path(models, paths[i]) is Ok
                ==> parsed[i] == text_parsed[i]) by {
                lemma_path_text(models, paths[i]);
            }
            let clean_paths = spec_parse_capabilities(models, paths) is Ok;
            let clean_texts = crate::check::scan_capabilities(models, texts).0.len() == 0;
            if clean_paths {
                assert forall|i: int| 0 <= i < texts.len() implies #[trigger] spec_parse_capability(
                    texts[i],
                ) is Ok && known_in(index@, text_parsed[i].0).contains(text_parsed[i].1) by {
                    assert(spec_parse_capability_path(models, paths[i]) is Ok);
                }
                assert forall|i: int, j: int|
                    0 <= i < j < texts.len() implies #[trigger] text_parsed[i]
                    != #[trigger] text_parsed[j] by {
                    assert(spec_parse_capability_path(models, paths[i]) is Ok);
                    assert(spec_parse_capability_path(models, paths[j]) is Ok);
                    assert(parsed[i] != parsed[j]);
                }
                assert(clean_texts);
                assert(parsed =~= text_parsed);
            }
            if clean_texts {
                assert forall|i: int| 0 <= i < paths.len() implies #[trigger] spec_parse_capability_path(
                    models,
                    paths[i],
                ) is Ok by {
                    assert(spec_parse_capability(texts[i]) is Ok);
                }
                assert forall|i: int, j: int|
                    0 <= i < j < paths.len() implies #[trigger] parsed[i] != #[trigger] parsed[j] by {
                    assert(spec_parse_capability_path(models, paths[i]) is Ok);
                    assert(spec_parse_capability_path(models, paths[j]) is Ok);
                    assert(text_parsed[i] != text_parsed[j]);
                }
                assert(clean_paths);
                assert(parsed =~= text_parsed);
            }
        },
    }
    let parsed = parsed_paths(models, paths);
    assert forall|i: int| 0 <= i < paths.len() implies {
        &&& (#[trigger] spec_parse_capability_path(models, paths[i]) is Ok <==> capability_valid(
            models,
            texts,
            i,
        ))
        &&& (spec_parse_capability_path(models, paths[i]) is Ok ==> spec_parse_capability(texts[i])
            == Ok::<CapabilityView, ErrorView>(parsed[i]))
        &&& (spec_parse_capability_path(models, paths[i]) is Err ==> capability_problem(
            models,
            texts,
            i,
        ) is Some && (capability_problem(models, texts, i)->0).0 == spec_parse_capability_path(
            models,
            paths[i],
        )->Err_0.1)
    } by {
        lemma_path_text(models, paths[i]);
    }
    lemma_capability_diagnostics(models, texts);
    if spec_parse_capabilities(models, paths) is Err {
        let (k, part, message) = spec_parse_capabilities(models, paths)->Err_0;
        let d = crate::check::scan_capabilities(models, texts).0;
        // Every capability before the first bad path earns no diagnostic.
        assert forall|j: int| 0 <= j < k implies capability_problem(models, texts, j) is None by {
            assert(spec_parse_capability_path(models, paths[j]) is Ok);
            let c = parsed[j];
            if crate::check::required_before(models, texts, j, c) {
                let i = choose|i: int|
                    0 <= i < j && #[trigger] capability_valid(models, texts, i)
                        && spec_parse_capability(texts[i]) == Ok::<CapabilityView, ErrorView>(c);
                assert(spec_parse_capability_path(models, paths[i]) is Ok);
                assert(parsed[i] != parsed[j]);
            }
        }
        // The first bad path earns a diagnostic with the macro's message.
        assert(capability_problem(models, texts, k) is Some && (capability_problem(
            models,
            texts,
            k,
        )->0).0 == message) by {
            if spec_parse_capability_path(models, paths[k]) is Ok {
                let c = parsed[k];
                let j = choose|j: int| 0 <= j < k && #[trigger] parsed[j] == c;
                assert(spec_parse_capability_path(models, paths[j]) is Ok);
                assert(capability_valid(models, texts, j));
                assert(crate::check::required_before(models, texts, k, c));
            }
        }
        let p = choose|p: int| 0 <= p < d.len() && (#[trigger] d[p]).2 == Some(k as usize);
        assert(capability_problem(models, texts, d[0].2->0 as int) == Some(d[0]));
        if p > 0 {
            assert(d[0].2->0 < d[p].2->0);
        }
        assert(d[0].2 == Some(k as usize));
    }
}

} // verus!
