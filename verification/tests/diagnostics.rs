use openrouter_toolkit::{
    check, format_capability, parse_namespace, validate_capability_name, DiagnosticKind,
    ModelIndex, ModelLookupError, ModelRecord, Namespace,
};

fn names(list: &[&str]) -> Option<Vec<String>> {
    Some(list.iter().map(|name| (*name).to_owned()).collect())
}

/// The models that these scenarios speak of, as the embedded models data
/// describes them; together they know exactly the parameters listed in
/// `formats_unknown_capability_with_known_names`.
fn catalog() -> Result<ModelIndex, ModelLookupError> {
    Ok(ModelIndex::from_records(vec![
        ModelRecord {
            id: "qwen/qwen3.7-max".to_owned(),
            supported_parameters: names(&[
                "tools",
                "tool_choice",
                "structured_outputs",
                "response_format",
                "max_tokens",
                "temperature",
                "top_p",
                "seed",
                "stop",
                "presence_penalty",
                "frequency_penalty",
                "reasoning",
                "include_reasoning",
            ]),
            input_modalities: names(&["text"]),
            output_modalities: names(&["text"]),
        },
        ModelRecord {
            id: "perceptron/perceptron-mk1".to_owned(),
            supported_parameters: names(&[
                "max_tokens",
                "temperature",
                "top_k",
                "top_a",
                "min_p",
                "repetition_penalty",
                "logit_bias",
                "logprobs",
                "top_logprobs",
            ]),
            input_modalities: names(&["text", "image"]),
            output_modalities: names(&["text"]),
        },
        ModelRecord {
            id: "openrouter/pareto-code".to_owned(),
            supported_parameters: names(&[
                "max_completion_tokens",
                "parallel_tool_calls",
                "reasoning_effort",
                "verbosity",
                "web_search_options",
            ]),
            input_modalities: names(&["text"]),
            output_modalities: names(&["text"]),
        },
    ]))
}

#[test]
fn formats_unknown_model() {
    let models = catalog();
    let diagnostics = check(&models, "example/not-a-real-model", &["param::tools"]).unwrap_err();

    assert_eq!(diagnostics[0].kind, DiagnosticKind::UnknownModel);
    assert_eq!(
        diagnostics[0].message,
        "unknown OpenRouter model `example/not-a-real-model`"
    );
}

#[test]
fn formats_unknown_namespace() {
    let error = parse_namespace("capability").unwrap_err();

    assert_eq!(
        error.to_string(),
        "unknown OpenRouter capability namespace `capability`; expected one of: param, input, output"
    );
}

#[test]
fn formats_unknown_capability_with_suggestion() {
    let models = catalog();
    let error = validate_capability_name(&models, Namespace::Param, "toolz").unwrap_err();

    assert_eq!(
        error.to_string(),
        "unknown OpenRouter capability `param::toolz`; did you mean `param::tools`?"
    );
}

#[test]
fn formats_unknown_capability_with_known_names() {
    let models = catalog();
    let error = validate_capability_name(&models, Namespace::Param, "zzzzzzzzzz").unwrap_err();

    assert_eq!(
        error.to_string(),
        "unknown OpenRouter capability `param::zzzzzzzzzz`; known param capabilities: frequency_penalty, include_reasoning, logit_bias, logprobs, max_completion_tokens, max_tokens, min_p, parallel_tool_calls, presence_penalty, reasoning, reasoning_effort, repetition_penalty, response_format, seed, stop, structured_outputs, temperature, tool_choice, tools, top_a, top_k, top_logprobs, top_p, verbosity, web_search_options"
    );
}

#[test]
fn formats_duplicate_capability() {
    let models = catalog();
    let diagnostics =
        check(&models, "qwen/qwen3.7-max", &["param::tools", "param::tools"]).unwrap_err();

    assert_eq!(diagnostics[0].kind, DiagnosticKind::DuplicateCapability);
    assert_eq!(
        diagnostics[0].message,
        format!(
            "duplicate OpenRouter capability `{}`",
            format_capability(Namespace::Param, "tools")
        )
    );
}

#[test]
fn formats_single_missing_capability() {
    let models = catalog();
    let diagnostics = check(&models, "perceptron/perceptron-mk1", &["param::tools"]).unwrap_err();

    assert_eq!(diagnostics[0].kind, DiagnosticKind::MissingCapability);
    assert_eq!(
        diagnostics[0].message,
        "OpenRouter model `perceptron/perceptron-mk1` does not support required capability(s): param::tools"
    );
}

#[test]
fn formats_multiple_missing_capabilities() {
    let models = catalog();
    let diagnostics = check(
        &models,
        "openrouter/pareto-code",
        &["param::structured_outputs", "param::tools"],
    )
    .unwrap_err();

    assert_eq!(diagnostics[0].kind, DiagnosticKind::MissingCapability);
    assert_eq!(
        diagnostics[0].message,
        "OpenRouter model `openrouter/pareto-code` does not support required capability(s): param::structured_outputs, param::tools"
    );
}
