//! Checking a model id and the capability paths it must support, reporting
//! every problem found as a diagnostic.
use vstd::prelude::*;

use crate::error::{error_message, Error, ErrorView, LookupFailure};
use crate::names::lemma_push_contains;
use crate::format::{capability_text, format_capabilities, format_capability, join};
use crate::models::{
    borrow_capabilities, borrowed_views, contains_capability, known_in, lemma_missing_from, lookup_id, missing_model_capabilities,
    owned_views, spec_missing_model_capabilities, str_views, CapabilityView, LoadedModels,
    ModelLookupError, Namespace,
};
use crate::parse::{
    parse_capability, spec_parse_capability, spec_validate_capability_name,
    validate_capability_name,
};

verus! {

/// A problem found by `check`.
#[derive(Clone, Debug, PartialEq, Eq)]
pub struct Diagnostic {
    pub message: String,
    pub kind: DiagnosticKind,
    /// The position of the capability concerned; none for the model as a whole.
    pub source_index: Option<usize>,
}

/// What kind of problem a diagnostic reports.
#[derive(Clone, Copy, Debug, PartialEq, Eq, Structural)]
pub enum DiagnosticKind {
    DuplicateCapability,
    InvalidCapabilityPath,
    InvalidModelsJson,
    MissingCapability,
    UnknownCapability,
    UnknownModel,
    UnknownNamespace,
}

/// A diagnostic with its message as characters.
pub type DiagnosticView = (Seq<char>, DiagnosticKind, Option<usize>);

impl View for Diagnostic {
    type V = DiagnosticView;

    open spec fn view(&self) -> DiagnosticView {
        (self.message@, self.kind, self.source_index)
    }
}

/// The character views of a list of diagnostics.
pub open spec fn diagnostic_views(diagnostics: Seq<Diagnostic>) -> Seq<DiagnosticView> {
    diagnostics.map_values(|d: Diagnostic| d@)
}

/// The kind of diagnostic that reports an error.
pub open spec fn spec_diagnostic_kind(error: ErrorView) -> DiagnosticKind {
    match error {
        ErrorView::InvalidCapabilityPath(_) => DiagnosticKind::InvalidCapabilityPath,
        ErrorView::UnknownNamespace(_) => DiagnosticKind::UnknownNamespace,
        ErrorView::ModelLookup(LookupFailure::InvalidModelsJson(_)) => DiagnosticKind::InvalidModelsJson,
        ErrorView::ModelLookup(LookupFailure::UnknownModel) => DiagnosticKind::UnknownModel,
        ErrorView::UnknownCapability(..) => DiagnosticKind::UnknownCapability,
    }
}

/// The diagnostic for an error about the capability at `index`.
pub open spec fn error_diagnostic(error: ErrorView, index: int) -> DiagnosticView {
    (error_message(error), spec_diagnostic_kind(error), Some(index as usize))
}

/// The message about a capability required twice.
pub open spec fn duplicate_message(capability: CapabilityView) -> Seq<char> {
    "duplicate OpenRouter capability `"@ + capability_text(capability) + "`"@
}

/// The message about capabilities that the model lacks.
pub open spec fn missing_message(model: Seq<char>, missing: Seq<CapabilityView>) -> Seq<char> {
    "OpenRouter model `"@ + model + "` does not support required capability(s): "@ + join(
        missing.map_values(|c| capability_text(c)),
        ", "@,
    )
}

/// The message about a model that the index does not hold.
pub open spec fn unknown_model_message(model: Seq<char>) -> Seq<char> {
    "unknown OpenRouter model `"@ + model + "`"@
}

/// The message about models data that could not be read.
pub open spec fn invalid_models_message(message: Seq<char>) -> Seq<char> {
    "invalid embedded OpenRouter models JSON: "@ + message
}

/// The diagnostics about the capabilities, in order, and the capabilities
/// that passed, in order. A capability passes when its path reads, its name
/// is known and it was not required before.
pub open spec fn scan_capabilities(models: LoadedModels, capabilities: Seq<Seq<char>>) -> (
    Seq<DiagnosticView>,
    Seq<CapabilityView>,
)
    decreases capabilities.len(),
{
    if capabilities.len() == 0 {
        (Seq::empty(), Seq::empty())
    } else {
        let (diagnostics, required) = scan_capabilities(models, capabilities.drop_last());
        let index = capabilities.len() - 1;
        match spec_parse_capability(capabilities.last()) {
            Err(e) => (diagnostics.push(error_diagnostic(e, index)), required),
            Ok(capability) => match spec_validate_capability_name(
                models,
                capability.0,
                capability.1,
            ) {
                Err(e) => (diagnostics.push(error_diagnostic(e, index)), required),
                Ok(()) => if required.contains(capability) {
                    (
                        diagnostics.push(
                            (
                                duplicate_message(capability),
                                DiagnosticKind::DuplicateCapability,
                                Some(index as usize),
                            ),
                        ),
                        required,
                    )
                } else {
                    (diagnostics, required.push(capability))
                },
            },
        }
    }
}

/// What `check` reports once the capabilities have passed, given what looking
/// up the model gave: nothing, or the one diagnostic about the model.
pub open spec fn model_diagnostic(
    model: Seq<char>,
    lookup: Result<Seq<CapabilityView>, ModelLookupError>,
) -> Result<(), Seq<DiagnosticView>> {
    match lookup {
        Ok(missing) => if missing.len() == 0 {
            Ok(())
        } else {
            Err(seq![(missing_message(model, missing), DiagnosticKind::MissingCapability, None)])
        },
        Err(ModelLookupError::UnknownModel) => Err(
            seq![(unknown_model_message(model), DiagnosticKind::UnknownModel, None)],
        ),
        Err(ModelLookupError::InvalidModelsJson(message)) => Err(
            seq![(invalid_models_message(message@), DiagnosticKind::InvalidModelsJson, None)],
        ),
    }
}

/// What `check` reports: the diagnostics about the capabilities if there are
/// any; otherwise the single diagnostic about the model, if it lacks some
/// capability or cannot be looked up.
pub open spec fn spec_check(models: LoadedModels, model: Seq<char>, capabilities: Seq<Seq<char>>) -> Result<
    (),
    Seq<DiagnosticView>,
> {
    let (diagnostics, required) = scan_capabilities(models, capabilities);
    if diagnostics.len() > 0 {
        Err(diagnostics)
    } else {
        model_diagnostic(model, spec_missing_model_capabilities(models, model, required))
    }
}

/// The character views of what `check` returns.
pub open spec fn check_view(result: Result<(), Vec<Diagnostic>>) -> Result<(), Seq<DiagnosticView>> {
    match result {
        Ok(()) => Ok(()),
        Err(d) => Err(diagnostic_views(d@)),
    }
}

/// The kind of diagnostic that reports `error`.
pub fn diagnostic_kind(error: &Error) -> (kind: DiagnosticKind)
    ensures
        kind == spec_diagnostic_kind(error@),
{
    match error {
        Error::InvalidCapabilityPath { .. } => DiagnosticKind::InvalidCapabilityPath,
        Error::UnknownNamespace { .. } => DiagnosticKind::UnknownNamespace,
        Error::ModelLookup(ModelLookupError::InvalidModelsJson(_)) => {
            DiagnosticKind::InvalidModelsJson
        },
        Error::ModelLookup(ModelLookupError::UnknownModel) => DiagnosticKind::UnknownModel,
        Error::UnknownCapability { .. } => DiagnosticKind::UnknownCapability,
    }
}

/// The diagnostic for an error about the capability at `source_index`.
fn diagnostic_for(error: &Error, source_index: usize) -> (diagnostic: Diagnostic)
    ensures
        diagnostic@ == error_diagnostic(error@, source_index as int),
{
    Diagnostic {
        message: error.to_string(),
        kind: diagnostic_kind(error),
        source_index: Some(source_index),
    }
}

/// Checks that each capability path reads, names a known capability and is
/// not repeated, and then that the model exists and supports them all.
/// Problems with the capabilities are all reported, each with its position;
/// only when there are none is the model looked up.
pub fn check(models: &LoadedModels, model: &str, capabilities: &[&str]) -> (result: Result<
    (),
    Vec<Diagnostic>,
>)
    ensures
        check_view(result) == spec_check(*models, model@, str_views(capabilities@)),
{
    let ghost paths = str_views(capabilities@);
    let mut diagnostics: Vec<Diagnostic> = Vec::new();
    let mut required_capabilities: Vec<(Namespace, String)> = Vec::new();
    let n = capabilities.len();
    let mut source_index: usize = 0;
    while source_index < n
        invariant
            n == capabilities@.len(),
            paths == str_views(capabilities@),
            source_index <= n,
            scan_capabilities(*models, paths.take(source_index as int)) == (
                diagnostic_views(diagnostics@),
                owned_views(required_capabilities@),
            ),
        decreases n - source_index,
    {
        let capability = capabilities[source_index];
        let ghost diagnostics_before = diagnostics@;
        let ghost required_before = required_capabilities@;
        proof {
            let prefix = paths.take(source_index + 1);
            assert(prefix.drop_last() =~= paths.take(source_index as int));
            assert(prefix.last() == capability@);
            assert(prefix.len() - 1 == source_index);
        }
        match parse_capability(capability) {
            Err(error) => {
                diagnostics.push(diagnostic_for(&error, source_index));
                assert(diagnostic_views(diagnostics@) =~= diagnostic_views(diagnostics_before).push(
                    error_diagnostic(error@, source_index as int),
                ));
            },
            Ok((namespace, name)) => {
                match validate_capability_name(models, namespace, name.as_str()) {
                    Err(error) => {
                        diagnostics.push(diagnostic_for(&error, source_index));
                        assert(diagnostic_views(diagnostics@) =~= diagnostic_views(
                            diagnostics_before,
                        ).push(error_diagnostic(error@, source_index as int)));
                    },
                    Ok(()) => {
                        if contains_capability(&required_capabilities, namespace, name.as_str()) {
                            let mut message = String::new();
                            message.append("duplicate OpenRouter capability `");
                            let text = format_capability(namespace, name.as_str());
                            message.append(text.as_str());
                            message.append("`");
                            diagnostics.push(
                                Diagnostic {
                                    message,
                                    kind: DiagnosticKind::DuplicateCapability,
                                    source_index: Some(source_index),
                                },
                            );
                            assert(diagnostic_views(diagnostics@) =~= diagnostic_views(
                                diagnostics_before,
                            ).push(
                                (
                                    duplicate_message((namespace, name@)),
                                    DiagnosticKind::DuplicateCapability,
                                    Some(source_index),
                                ),
                            ));
                        } else {
                            let ghost name_view = name@;
                            required_capabilities.push((namespace, name));
                            assert(owned_views(required_capabilities@) =~= owned_views(
                                required_before,
                            ).push((namespace, name_view)));
                        }
                    },
                }
            },
        }
        source_index = source_index + 1;
    }
    assert(paths.take(n as int) =~= paths);
    if diagnostics.len() > 0 {
        return Err(diagnostics);
    }
    let required_capability_refs = borrow_capabilities(&required_capabilities);
    match missing_model_capabilities(models, model, required_capability_refs.as_slice()) {
        Ok(missing) => {
            if missing.len() == 0 {
                Ok(())
            } else {
                let missing_refs = borrow_capabilities(&missing);
                let mut message = String::new();
                message.append("OpenRouter model `");
                message.append(model);
                message.append("` does not support required capability(s): ");
                let listed = format_capabilities(missing_refs.as_slice());
                message.append(listed.as_str());
                let mut reported: Vec<Diagnostic> = Vec::new();
                reported.push(
                    Diagnostic { message, kind: DiagnosticKind::MissingCapability, source_index: None },
                );
                proof {
                    assert(borrowed_views(missing_refs@) == owned_views(missing@));
                    assert(diagnostic_views(reported@) =~= seq![
                        (missing_message(model@, owned_views(missing@)), DiagnosticKind::MissingCapability, None),
                    ]);
                }
                Err(reported)
            }
        },
        Err(ModelLookupError::UnknownModel) => {
            let mut message = String::new();
            message.append("unknown OpenRouter model `");
            message.append(model);
            message.append("`");
            let mut reported: Vec<Diagnostic> = Vec::new();
            reported.push(
                Diagnostic { message, kind: DiagnosticKind::UnknownModel, source_index: None },
            );
            assert(diagnostic_views(reported@) =~= seq![
                (unknown_model_message(model@), DiagnosticKind::UnknownModel, None),
            ]);
            Err(reported)
        },
        Err(ModelLookupError::InvalidModelsJson(text)) => {
            let mut message = String::new();
            message.append("invalid embedded OpenRouter models JSON: ");
            message.append(text.as_str());
            let mut reported: Vec<Diagnostic> = Vec::new();
            reported.push(
                Diagnostic { message, kind: DiagnosticKind::InvalidModelsJson, source_index: None },
            );
            assert(diagnostic_views(reported@) =~= seq![
                (invalid_models_message(text@), DiagnosticKind::InvalidModelsJson, None),
            ]);
            Err(reported)
        },
    }
}


/// The capability that each path reads as (meaningful where it reads).
pub open spec fn parsed_capabilities(capabilities: Seq<Seq<char>>) -> Seq<CapabilityView> {
    capabilities.map_values(|c: Seq<char>| spec_parse_capability(c)->Ok_0)
}

/// Whether each path reads, names a capability known in the index, and no
/// two paths read as the same capability.
pub open spec fn capabilities_acceptable(index: Map<Seq<char>, Set<CapabilityView>>, capabilities: Seq<Seq<char>>) -> bool {
    let parsed = parsed_capabilities(capabilities);
    &&& forall|i: int|
        0 <= i < capabilities.len() ==> #[trigger] spec_parse_capability(capabilities[i]) is Ok
            && known_in(index, parsed[i].0).contains(parsed[i].1)
    &&& forall|i: int, j: int|
        0 <= i < j < capabilities.len() ==> #[trigger] parsed[i] != #[trigger] parsed[j]
}

/// Whether the models were loaded, know the model, and the model supports
/// each capability, each named by exactly one path.
pub open spec fn model_supports_all(models: LoadedModels, model: Seq<char>, capabilities: Seq<Seq<char>>) -> bool {
    match models {
        Err(_) => false,
        Ok(index) => {
            let parsed = parsed_capabilities(capabilities);
            &&& index@.contains_key(lookup_id(model))
            &&& forall|i: int|
                0 <= i < capabilities.len() ==> #[trigger] spec_parse_capability(capabilities[i]) is Ok
                    && index@[lookup_id(model)].contains(parsed[i])
            &&& forall|i: int, j: int|
                0 <= i < j < capabilities.len() ==> #[trigger] parsed[i] != #[trigger] parsed[j]
        },
    }
}

/// When the models cannot be consulted, every capability gets a diagnostic.
pub proof fn lemma_scan_without_models(models: LoadedModels, capabilities: Seq<Seq<char>>)
    requires
        models is Err,
    ensures
        scan_capabilities(models, capabilities).0.len() == capabilities.len(),
    decreases capabilities.len(),
{
    if capabilities.len() > 0 {
        lemma_scan_without_models(models, capabilities.drop_last());
    }
}

/// The capability diagnostics are empty exactly when the capabilities are
/// acceptable, and then the capabilities that passed are all of them.
pub proof fn lemma_scan_clean(models: LoadedModels, capabilities: Seq<Seq<char>>)
    requires
        models is Ok,
    ensures
        scan_capabilities(models, capabilities).0.len() == 0 <==> capabilities_acceptable(
            models->Ok_0@,
            capabilities,
        ),
        scan_capabilities(models, capabilities).0.len() == 0 ==> scan_capabilities(
            models,
            capabilities,
        ).1 == parsed_capabilities(capabilities),
    decreases capabilities.len(),
{
    let index = models->Ok_0@;
    let parsed = parsed_capabilities(capabilities);
    if capabilities.len() == 0 {
        assert(parsed =~= Seq::<CapabilityView>::empty());
    } else {
        let pre = capabilities.drop_last();
        let n = capabilities.len() - 1;
        lemma_scan_clean(models, pre);
        let (d, r) = scan_capabilities(models, pre);
        let pre_parsed = parsed_capabilities(pre);
        assert(pre_parsed =~= parsed.take(n));
        assert forall|i: int| 0 <= i < n implies pre[i] == capabilities[i] by {}
        if capabilities_acceptable(index, capabilities) {
            assert forall|i: int|
                0 <= i < pre.len() implies #[trigger] spec_parse_capability(pre[i]) is Ok
                && known_in(index, pre_parsed[i].0).contains(pre_parsed[i].1) by {
                assert(spec_parse_capability(capabilities[i]) is Ok);
            }
            assert forall|i: int, j: int|
                0 <= i < j < pre.len() implies #[trigger] pre_parsed[i] != #[trigger] pre_parsed[j] by {
                assert(parsed[i] != parsed[j]);
            }
            assert(spec_parse_capability(capabilities[n]) is Ok);
            let c = parsed[n];
            assert(capabilities.last() == capabilities[n]);
            assert(!r.contains(c)) by {
                if r.contains(c) {
                    let k = choose|k: int| 0 <= k < r.len() && r[k] == c;
                    assert(parsed[k] != parsed[n]);
                }
            }
            assert(parsed =~= pre_parsed.push(c));
        } else if d.len() == 0 {
            assert(r == pre_parsed);
            let last = capabilities.last();
            assert(last == capabilities[n]);
            if spec_parse_capability(last) is Ok {
                let c = parsed[n];
                if known_in(index, c.0).contains(c.1) {
                    // The only way left to fail is a repeat.
                    let ok_prefix = forall|i: int|
                        0 <= i < pre.len() ==> #[trigger] spec_parse_capability(pre[i]) is Ok
                            && known_in(index, pre_parsed[i].0).contains(pre_parsed[i].1);
                    assert(ok_prefix);
                    assert(forall|i: int|
                        0 <= i < capabilities.len() ==> #[trigger] spec_parse_capability(
                            capabilities[i],
                        ) is Ok && known_in(index, parsed[i].0).contains(parsed[i].1)) by {
                        assert forall|i: int|
                            0 <= i < capabilities.len() implies #[trigger] spec_parse_capability(
                            capabilities[i],
                        ) is Ok && known_in(index, parsed[i].0).contains(parsed[i].1) by {
                            if i < n {
                                assert(spec_parse_capability(pre[i]) is Ok);
                            }
                        }
                    }
                    let (i, j) = choose|i: int, j: int|
                        0 <= i < j < capabilities.len() && #[trigger] parsed[i] == #[trigger] parsed[j];
                    if j < n {
                        assert(pre_parsed[i] == pre_parsed[j]);
                    } else {
                        assert(r[i] == c);
                        assert(r.contains(c));
                    }
                }
            }
        }
    }
}

/// `check` reports nothing exactly when the models were loaded, know the
/// model, and the model supports each capability, each named by one path.
pub proof fn lemma_check_passes_iff_supported(
    models: LoadedModels,
    model: Seq<char>,
    capabilities: Seq<Seq<char>>,
)
    ensures
        spec_check(models, model, capabilities) is Ok <==> model_supports_all(
            models,
            model,
            capabilities,
        ),
{
    let parsed = parsed_capabilities(capabilities);
    match models {
        Err(_) => {
            lemma_scan_without_models(models, capabilities);
        },
        Ok(index) => {
            lemma_scan_clean(models, capabilities);
            let (d, r) = scan_capabilities(models, capabilities);
            let id = lookup_id(model);
            if model_supports_all(models, model, capabilities) {
                assert forall|i: int|
                    0 <= i < capabilities.len() implies #[trigger] spec_parse_capability(
                    capabilities[i],
                ) is Ok && known_in(index@, parsed[i].0).contains(parsed[i].1) by {
                    assert(index@[id].contains(parsed[i]));
                    assert(index@.contains_key(id) && index@[id].contains((parsed[i].0, parsed[i].1)));
                }
                assert(d.len() == 0);
                lemma_missing_from(parsed, index@[id]);
                assert forall|i: int| 0 <= i < parsed.len() implies index@[id].contains(
                    #[trigger] parsed[i],
                ) by {
                    assert(spec_parse_capability(capabilities[i]) is Ok);
                }
            }
            if spec_check(models, model, capabilities) is Ok {
                assert(d.len() == 0);
                assert(index@.contains_key(id));
                lemma_missing_from(parsed, index@[id]);
                assert forall|i: int|
                    0 <= i < capabilities.len() implies #[trigger] spec_parse_capability(
                    capabilities[i],
                ) is Ok && index@[id].contains(parsed[i]) by {
                    assert(index@[id].contains(parsed[i]));
                }
            }
        },
    }
}


/// Each capability gets at most one diagnostic; the diagnostics come in the
/// order of the capabilities, each with the position of its capability.
pub proof fn lemma_diagnostic_positions(models: LoadedModels, capabilities: Seq<Seq<char>>)
    requires
        capabilities.len() <= usize::MAX,
    ensures
        ({
            let diagnostics = scan_capabilities(models, capabilities).0;
            &&& diagnostics.len() <= capabilities.len()
            &&& forall|k: int|
                0 <= k < diagnostics.len() ==> (#[trigger] diagnostics[k]).2 is Some
                    && diagnostics[k].2->0 < capabilities.len()
            &&& forall|k: int, l: int|
                0 <= k < l < diagnostics.len() ==> (#[trigger] diagnostics[k]).2->0
                    < (#[trigger] diagnostics[l]).2->0
        }),
    decreases capabilities.len(),
{
    if capabilities.len() > 0 {
        let pre = capabilities.drop_last();
        lemma_diagnostic_positions(models, pre);
        let before = scan_capabilities(models, pre).0;
        let after = scan_capabilities(models, capabilities).0;
        let n = capabilities.len() - 1;
        if after.len() > before.len() {
            assert(after =~= before.push(after.last()));
            assert(after.last().2 == Some(n as usize));
            assert forall|k: int, l: int|
                0 <= k < l < after.len() implies (#[trigger] after[k]).2->0 < (
                #[trigger] after[l]).2->0 by {
                if l < before.len() {
                    assert(after[k] == before[k] && after[l] == before[l]);
                } else {
                    assert(after[k] == before[k]);
                }
            }
            assert forall|k: int| 0 <= k < after.len() implies (#[trigger] after[k]).2 is Some
                && after[k].2->0 < capabilities.len() by {
                if k < before.len() {
                    assert(after[k] == before[k]);
                }
            }
        }
    }
}


/// Whether the capability at position `i` reads and names a known capability.
pub open spec fn capability_valid(models: LoadedModels, capabilities: Seq<Seq<char>>, i: int) -> bool {
    match spec_parse_capability(capabilities[i]) {
        Ok(c) => spec_validate_capability_name(models, c.0, c.1) is Ok,
        Err(_) => false,
    }
}

/// Whether a valid capability before position `i` reads as `capability`.
pub open spec fn required_before(
    models: LoadedModels,
    capabilities: Seq<Seq<char>>,
    i: int,
    capability: CapabilityView,
) -> bool {
    exists|j: int|
        0 <= j < i && #[trigger] capability_valid(models, capabilities, j) && spec_parse_capability(
            capabilities[j],
        ) == Ok::<CapabilityView, ErrorView>(capability)
}

/// The diagnostic that the capability at position `i` earns, if any: the
/// error of its path, else the error of its name, else the report of a
/// repeat when a valid capability before it reads the same.
pub open spec fn capability_problem(models: LoadedModels, capabilities: Seq<Seq<char>>, i: int) -> Option<
    DiagnosticView,
> {
    match spec_parse_capability(capabilities[i]) {
        Err(e) => Some(error_diagnostic(e, i)),
        Ok(c) => match spec_validate_capability_name(models, c.0, c.1) {
            Err(e) => Some(error_diagnostic(e, i)),
            Ok(()) => if required_before(models, capabilities, i, c) {
                Some((duplicate_message(c), DiagnosticKind::DuplicateCapability, Some(i as usize)))
            } else {
                None
            },
        },
    }
}

/// What a position's diagnostic depends on is unchanged by dropping a later
/// capability.
proof fn lemma_problem_prefix(models: LoadedModels, capabilities: Seq<Seq<char>>, i: int)
    requires
        0 <= i < capabilities.len() - 1,
    ensures
        capability_valid(models, capabilities, i) == capability_valid(
            models,
            capabilities.drop_last(),
            i,
        ),
        capability_problem(models, capabilities, i) == capability_problem(
            models,
            capabilities.drop_last(),
            i,
        ),
{
    let pre = capabilities.drop_last();
    assert(pre[i] == capabilities[i]);
    lemma_required_prefix(models, capabilities, i);
}

/// Whether a capability was required before position `m` is unchanged by
/// dropping a later capability.
proof fn lemma_required_prefix(models: LoadedModels, capabilities: Seq<Seq<char>>, m: int)
    requires
        0 <= m < capabilities.len(),
    ensures
        forall|c: CapabilityView|
            #[trigger] required_before(models, capabilities, m, c) == required_before(
                models,
                capabilities.drop_last(),
                m,
                c,
            ),
{
    let pre = capabilities.drop_last();
    assert forall|c: CapabilityView|
        #[trigger] required_before(models, capabilities, m, c) == required_before(
            models,
            pre,
            m,
            c,
        ) by {
        if required_before(models, capabilities, m, c) {
            let j = choose|j: int|
                0 <= j < m && #[trigger] capability_valid(models, capabilities, j)
                    && spec_parse_capability(capabilities[j]) == Ok::<
                    CapabilityView,
                    ErrorView,
                >(c);
            assert(pre[j] == capabilities[j]);
            assert(capability_valid(models, pre, j));
        }
        if required_before(models, pre, m, c) {
            let j = choose|j: int|
                0 <= j < m && #[trigger] capability_valid(models, pre, j) && spec_parse_capability(
                    pre[j],
                ) == Ok::<CapabilityView, ErrorView>(c);
            assert(pre[j] == capabilities[j]);
            assert(capability_valid(models, capabilities, j));
        }
    }
}

/// The diagnostics about the capabilities are, in the order of the
/// capabilities, exactly the diagnostics that the capabilities earn: one
/// for each capability that earns one, carrying its position. The
/// capabilities required of the model are those that passed. When there is
/// any such diagnostic, `check` reports those and nothing else, whatever the
/// model.
pub proof fn lemma_capability_diagnostics(models: LoadedModels, capabilities: Seq<Seq<char>>)
    requires
        capabilities.len() <= usize::MAX,
    ensures
        ({
            let (diagnostics, required) = scan_capabilities(models, capabilities);
            &&& forall|k: int|
                0 <= k < diagnostics.len() ==> (#[trigger] diagnostics[k]).2 is Some
                    && diagnostics[k].2->0 < capabilities.len() && capability_problem(
                    models,
                    capabilities,
                    diagnostics[k].2->0 as int,
                ) == Some(diagnostics[k])
            &&& forall|i: int|
                0 <= i < capabilities.len() && #[trigger] capability_problem(
                    models,
                    capabilities,
                    i,
                ) is Some ==> exists|k: int|
                    0 <= k < diagnostics.len() && (#[trigger] diagnostics[k]).2 == Some(i as usize)
            &&& forall|k: int, l: int|
                0 <= k < l < diagnostics.len() ==> (#[trigger] diagnostics[k]).2->0
                    < (#[trigger] diagnostics[l]).2->0
            &&& forall|c: CapabilityView|
                #[trigger] required.contains(c) <==> required_before(
                    models,
                    capabilities,
                    capabilities.len() as int,
                    c,
                )
            &&& diagnostics.len() > 0 ==> forall|other: Seq<char>|
                #[trigger] spec_check(models, other, capabilities) == Err::<(), Seq<DiagnosticView>>(
                    diagnostics,
                )
        }),
    decreases capabilities.len(),
{
    lemma_diagnostic_positions(models, capabilities);
    let (d, r) = scan_capabilities(models, capabilities);
    if capabilities.len() == 0 {
        assert forall|c: CapabilityView| #[trigger] r.contains(c) <==> required_before(
            models,
            capabilities,
            0,
            c,
        ) by {}
    } else {
        let pre = capabilities.drop_last();
        let n = capabilities.len() - 1;
        lemma_capability_diagnostics(models, pre);
        lemma_required_prefix(models, capabilities, n);
        let (d0, r0) = scan_capabilities(models, pre);
        assert(capabilities.last() == capabilities[n]);
        assert forall|i: int| 0 <= i < n implies #[trigger] capability_problem(
            models,
            capabilities,
            i,
        ) == capability_problem(models, pre, i) && capability_valid(models, capabilities, i)
            == capability_valid(models, pre, i) by {
            lemma_problem_prefix(models, capabilities, i);
        }
        // What the last capability adds to the required ones.
        assert forall|c: CapabilityView| #[trigger] r.contains(c) <==> required_before(
            models,
            capabilities,
            capabilities.len() as int,
            c,
        ) by {
            assert(r0.contains(c) <==> required_before(models, capabilities, n, c));
            if required_before(models, capabilities, n + 1, c) && !required_before(
                models,
                capabilities,
                n,
                c,
            ) {
                let j = choose|j: int|
                    0 <= j < n + 1 && #[trigger] capability_valid(models, capabilities, j)
                        && spec_parse_capability(capabilities[j]) == Ok::<
                        CapabilityView,
                        ErrorView,
                    >(c);
                assert(j == n);
            }
            if required_before(models, capabilities, n, c) {
                let j = choose|j: int|
                    0 <= j < n && #[trigger] capability_valid(models, capabilities, j)
                        && spec_parse_capability(capabilities[j]) == Ok::<
                        CapabilityView,
                        ErrorView,
                    >(c);
                assert(capability_valid(models, capabilities, j));
            }
            if capability_valid(models, capabilities, n) && spec_parse_capability(capabilities[n])
                == Ok::<CapabilityView, ErrorView>(c) {
                assert(capability_valid(models, capabilities, n));
                lemma_push_contains(r0, c, c);
            }
            match spec_parse_capability(capabilities[n]) {
                Ok(c0) => {
                    lemma_push_contains(r0, c0, c);
                },
                Err(_) => {},
            }
        }
        // The last capability's diagnostic, if any, is the last one.
        assert(d.len() > d0.len() ==> d =~= d0.push(d.last()));
        assert(d.len() > d0.len() ==> d.last().2 == Some(n as usize) && capability_problem(
            models,
            capabilities,
            n,
        ) == Some(d.last())) by {
            match spec_parse_capability(capabilities[n]) {
                Ok(c0) => {
                    assert(r0.contains(c0) <==> required_before(models, capabilities, n, c0));
                },
                Err(_) => {},
            }
        }
        assert(d.len() == d0.len() ==> d == d0 && capability_problem(models, capabilities, n) is None) by {
            match spec_parse_capability(capabilities[n]) {
                Ok(c0) => {
                    assert(r0.contains(c0) <==> required_before(models, capabilities, n, c0));
                },
                Err(_) => {},
            }
        }
        assert forall|k: int| 0 <= k < d.len() implies (#[trigger] d[k]).2 is Some && d[k].2->0
            < capabilities.len() && capability_problem(models, capabilities, d[k].2->0 as int)
            == Some(d[k]) by {
            if k < d0.len() {
                assert(d[k] == d0[k]);
            }
        }
        assert forall|i: int|
            0 <= i < capabilities.len() && #[trigger] capability_problem(
                models,
                capabilities,
                i,
            ) is Some implies exists|k: int|
            0 <= k < d.len() && (#[trigger] d[k]).2 == Some(i as usize) by {
            if i < n {
                assert(capability_problem(models, pre, i) is Some);
                let k = choose|k: int| 0 <= k < d0.len() && (#[trigger] d0[k]).2 == Some(i as usize);
                assert(d[k] == d0[k]);
            } else {
                assert(d[d.len() - 1].2 == Some(i as usize));
            }
        }
    }
}

/// Once every capability reads, is known and is required once, `check`
/// reports what looking up the model with those capabilities gives: nothing
/// when the model supports them all, else one diagnostic about the model
/// (the capabilities it lacks, an unknown model, or models data that could
/// not be read). With no capabilities at all the same holds whatever the
/// models.
pub proof fn lemma_check_model_diagnostic(
    models: LoadedModels,
    model: Seq<char>,
    capabilities: Seq<Seq<char>>,
)
    requires
        capabilities.len() == 0 || (models is Ok && capabilities_acceptable(
            models->Ok_0@,
            capabilities,
        )),
    ensures
        spec_check(models, model, capabilities) == model_diagnostic(
            model,
            spec_missing_model_capabilities(models, model, parsed_capabilities(capabilities)),
        ),
{
    if capabilities.len() == 0 {
        assert(parsed_capabilities(capabilities) =~= Seq::<CapabilityView>::empty());
    } else {
        lemma_scan_clean(models, capabilities);
    }
}

} // verus!
