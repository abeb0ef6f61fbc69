use openrouter_toolkit::{
    closest_name, edit_distance, format_capabilities, format_capability, model_parameter,
    model_supports, parse_capabilities, parse_capability_path, sorted_names, CapabilityPath,
    ErrorSpan, ModelIndex, ModelLookupError, ModelRecord, NameSet, Namespace, PathPart,
    PathSegment,
};

fn names(list: &[&str]) -> Option<Vec<String>> {
    Some(list.iter().map(|name| (*name).to_owned()).collect())
}

fn name_set(list: &[&str]) -> NameSet {
    NameSet::from_names(list.iter().map(|name| (*name).to_owned()).collect())
}

/// The capability names known to the macros in these scenarios.
fn models() -> Result<ModelIndex, ModelLookupError> {
    Ok(ModelIndex::from_records(vec![
        ModelRecord {
            id: "qwen/qwen3.7-max".to_owned(),
            supported_parameters: names(&["tools", "structured_outputs", "response_format"]),
            input_modalities: names(&["text"]),
            output_modalities: names(&["text"]),
        },
        ModelRecord {
            id: "openai/gpt-5.4-image-2".to_owned(),
            supported_parameters: names(&["tools", "seed"]),
            input_modalities: names(&["text", "image"]),
            output_modalities: names(&["text", "image"]),
        },
        ModelRecord {
            id: "openrouter/pareto-code".to_owned(),
            supported_parameters: names(&["seed"]),
            input_modalities: names(&["text"]),
            output_modalities: names(&["text"]),
        },
    ]))
}

/// A path written `first::second`, optionally with a leading `::`.
fn path(leading_colon: bool, segments: &[(&str, bool)]) -> CapabilityPath {
    CapabilityPath {
        leading_colon,
        segments: segments
            .iter()
            .map(|(ident, has_arguments)| PathSegment {
                ident: (*ident).to_owned(),
                has_arguments: *has_arguments,
            })
            .collect(),
    }
}

/// A plain path made of the `::`-separated identifiers of `text`.
fn parse_path(text: &str) -> CapabilityPath {
    path(false, &text.split("::").map(|ident| (ident, false)).collect::<Vec<_>>())
}

fn parse_path_list(paths: &[&str]) -> Vec<CapabilityPath> {
    paths.iter().map(|text| parse_path(text)).collect()
}

#[test]
fn computes_edit_distance_both_empty() {
    assert_eq!(edit_distance("", ""), 0);
}

#[test]
fn computes_edit_distance_left_empty() {
    assert_eq!(edit_distance("", "abc"), 3);
}

#[test]
fn computes_edit_distance_right_empty() {
    assert_eq!(edit_distance("abc", ""), 3);
}

#[test]
fn computes_edit_distance_same() {
    assert_eq!(edit_distance("abc", "abc"), 0);
}

#[test]
fn computes_edit_distance_insert() {
    assert_eq!(edit_distance("tool", "tools"), 1);
}

#[test]
fn computes_edit_distance_delete() {
    assert_eq!(edit_distance("tools", "tool"), 1);
}

#[test]
fn computes_edit_distance_substitute() {
    assert_eq!(edit_distance("tools", "toolz"), 1);
}

#[test]
fn computes_edit_distance_unrelated() {
    assert_eq!(edit_distance("alpha", "omega"), 4);
}

#[test]
fn computes_edit_distance_unicode() {
    assert_eq!(edit_distance("éé", "ee"), 2);
}

#[test]
fn finds_closest_name_empty() {
    assert_eq!(closest_name("tools", &name_set(&[])), None);
}

#[test]
fn finds_closest_name_too_far() {
    assert_eq!(closest_name("tools", &name_set(&["omega"])), None);
}

#[test]
fn finds_closest_name_shorter_tie() {
    assert_eq!(closest_name("ac", &name_set(&["abcd", "ab"])), Some("ab"));
}

fn known_param_names() -> NameSet {
    name_set(&["tools", "tool", "response_format", "structured_outputs", "seed"])
}

#[test]
fn finds_closest_known_param_name_exact() {
    assert_eq!(closest_name("tools", &known_param_names()), Some("tools"));
}

#[test]
fn finds_closest_known_param_name_suggestion() {
    assert_eq!(closest_name("toolz", &known_param_names()), Some("tool"));
}

#[test]
fn finds_closest_known_param_name_too_distant() {
    assert_eq!(closest_name("completely_different", &known_param_names()), None);
}

#[test]
fn parses_capability_path_param() {
    let parsed = parse_capability_path(&models(), &parse_path("param::tools")).expect("path should parse");
    assert_eq!(parsed, (Namespace::Param, "tools".to_owned()));
}

#[test]
fn parses_capability_path_input() {
    let parsed = parse_capability_path(&models(), &parse_path("input::image")).expect("path should parse");
    assert_eq!(parsed, (Namespace::Input, "image".to_owned()));
}

#[test]
fn parses_capability_path_output() {
    let parsed = parse_capability_path(&models(), &parse_path("output::text")).expect("path should parse");
    assert_eq!(parsed, (Namespace::Output, "text".to_owned()));
}

fn rejected_message(path: &CapabilityPath) -> (PathPart, String) {
    parse_capability_path(&models(), path).expect_err("path should be invalid")
}

#[test]
fn rejects_invalid_capability_path_leading_colon() {
    let (part, message) = rejected_message(&path(true, &[("param", false), ("tools", false)]));
    assert_eq!(part, PathPart::Whole);
    assert!(message.contains("expected OpenRouter capability path"));
}

#[test]
fn rejects_invalid_capability_path_single_segment() {
    let (part, message) = rejected_message(&parse_path("tools"));
    assert_eq!(part, PathPart::Whole);
    assert!(message.contains("expected OpenRouter capability path"));
}

#[test]
fn rejects_invalid_capability_path_too_many_segments() {
    let (part, message) = rejected_message(&parse_path("param::cap::tools"));
    assert_eq!(part, PathPart::Whole);
    assert!(message.contains("expected OpenRouter capability path"));
}

#[test]
fn rejects_invalid_capability_path_generic_arguments() {
    let (part, message) = rejected_message(&path(false, &[("param", true), ("tools", false)]));
    assert_eq!(part, PathPart::Whole);
    assert!(message.contains("OpenRouter capability paths cannot contain generic arguments"));
}

#[test]
fn rejects_invalid_capability_path_unknown_namespace() {
    let (part, message) = rejected_message(&parse_path("weird::tools"));
    assert_eq!(part, PathPart::Namespace);
    assert!(message.contains(
        "unknown OpenRouter capability namespace `weird`; expected one of: param, input, output"
    ));
}

#[test]
fn rejects_invalid_capability_path_unknown_name_suggestion() {
    let (part, message) = rejected_message(&parse_path("param::toolz"));
    assert_eq!(part, PathPart::Name);
    assert!(message.contains(
        "unknown OpenRouter capability `param::toolz`; did you mean `param::tools`?"
    ));
}

#[test]
fn rejects_duplicate_capabilities_in_same_namespace() {
    let paths = parse_path_list(&["param::tools", "param::tools"]);
    let error = parse_capabilities(&models(), &paths).expect_err("duplicates should fail");

    assert_eq!(error.message, "duplicate OpenRouter capability `param::tools`");
    assert_eq!(error.span, ErrorSpan::Capability { index: 1, part: PathPart::Whole });
}

#[test]
fn accepts_same_name_in_different_namespaces() {
    let paths = parse_path_list(&["input::image", "output::image"]);
    let parsed = parse_capabilities(&models(), &paths).expect("cross-namespace names are distinct");
    let actual: Vec<_> = parsed
        .iter()
        .map(|capability| (capability.namespace, capability.name.as_str()))
        .collect();

    assert_eq!(
        actual,
        vec![(Namespace::Input, "image"), (Namespace::Output, "image")]
    );
}

#[test]
fn preserves_capability_order() {
    let paths = parse_path_list(&["output::text", "param::tools", "input::image"]);
    let parsed = parse_capabilities(&models(), &paths).expect("paths should parse");
    let actual: Vec<_> = parsed
        .iter()
        .map(|capability| (capability.namespace, capability.name.as_str()))
        .collect();

    assert_eq!(
        actual,
        vec![
            (Namespace::Output, "text"),
            (Namespace::Param, "tools"),
            (Namespace::Input, "image"),
        ],
    );
}

#[test]
fn formats_capability_param() {
    assert_eq!(format_capability(Namespace::Param, "tools"), "param::tools");
}

#[test]
fn formats_capability_input() {
    assert_eq!(format_capability(Namespace::Input, "image"), "input::image");
}

#[test]
fn formats_capability_output() {
    assert_eq!(format_capability(Namespace::Output, "text"), "output::text");
}

#[test]
fn formats_multiple_capabilities() {
    assert_eq!(
        format_capabilities(&[(Namespace::Param, "tools"), (Namespace::Input, "image")]),
        "param::tools, input::image",
    );
}

#[test]
fn sorts_names() {
    let names = name_set(&["zeta", "alpha", "beta"]);

    assert_eq!(sorted_names(&names), vec!["alpha", "beta", "zeta"]);
}

#[test]
fn model_supports_accepts_supported_capabilities() {
    let paths = parse_path_list(&["param::structured_outputs", "param::tools"]);
    assert!(model_supports(&models(), "qwen/qwen3.7-max", &paths).is_ok());
}

#[test]
fn model_supports_accepts_same_name_across_namespaces() {
    let paths = parse_path_list(&["input::image", "output::image"]);
    assert!(model_supports(&models(), "openai/gpt-5.4-image-2", &paths).is_ok());
}

#[test]
fn model_supports_reports_all_missing_at_the_model() {
    let paths = parse_path_list(&["param::structured_outputs", "param::tools"]);
    let error = model_supports(&models(), "openrouter/pareto-code", &paths).unwrap_err();
    assert_eq!(error.span, ErrorSpan::ModelLiteral);
    assert_eq!(
        error.message,
        "OpenRouter model `openrouter/pareto-code` does not support required capability(s): param::structured_outputs, param::tools"
    );
}

#[test]
fn model_supports_reports_unknown_model() {
    let paths = parse_path_list(&["param::tools"]);
    let error = model_supports(&models(), "example/not-a-real-model", &paths).unwrap_err();
    assert_eq!(error.span, ErrorSpan::ModelLiteral);
    assert_eq!(error.message, "unknown OpenRouter model `example/not-a-real-model`");
}

#[test]
fn model_supports_reports_unknown_namespace_at_its_segment() {
    let paths = parse_path_list(&["param::tools", "capability::tools"]);
    let error = model_supports(&models(), "qwen/qwen3.7-max", &paths).unwrap_err();
    assert_eq!(error.span, ErrorSpan::Capability { index: 1, part: PathPart::Namespace });
}

#[test]
fn model_supports_reports_invalid_models_data() {
    let broken: Result<ModelIndex, ModelLookupError> =
        Err(ModelLookupError::InvalidModelsJson("EOF while parsing".to_owned()));
    let error = model_supports(&broken, "qwen/qwen3.7-max", &[]).unwrap_err();
    assert_eq!(error.span, ErrorSpan::ModelLiteral);
    assert_eq!(error.message, "invalid embedded OpenRouter models JSON: EOF while parsing");
}

#[test]
fn model_parameter_accepts_dynamic_variant() {
    assert_eq!(model_parameter(&models(), "qwen/qwen3.7-max:nitro", "response_format"), Ok(()));
}

#[test]
fn model_parameter_reports_unsupported_parameter() {
    assert_eq!(
        model_parameter(&models(), "openrouter/pareto-code", "structured_outputs"),
        Err("OpenRouter model `openrouter/pareto-code` does not support `structured_outputs`".to_owned())
    );
}

#[test]
fn model_parameter_reports_unknown_model() {
    assert_eq!(
        model_parameter(&models(), "qwen/qwen3.7-max:free", "tools"),
        Err("unknown OpenRouter model `qwen/qwen3.7-max:free`".to_owned())
    );
}

#[test]
fn literal_model_supports_lists_missing_parameters() {
    assert_eq!(
        openrouter_toolkit::literal::model_supports(
            &models(),
            "openrouter/pareto-code",
            &["structured_outputs", "seed", "tools"],
        ),
        Err("OpenRouter model `openrouter/pareto-code` does not support required parameter(s): structured_outputs, tools".to_owned())
    );
    assert_eq!(
        openrouter_toolkit::literal::model_supports(&models(), "qwen/qwen3.7-max", &["tools"]),
        Ok(())
    );
}
