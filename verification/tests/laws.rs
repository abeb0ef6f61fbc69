use openrouter_toolkit::{
    check, edit_distance, format_capability, model_supports, model_supports_parameter,
    parse_capabilities, parse_capability, parse_namespace, unknown_capability_suggestion,
    validate_capability_name, CapabilityPath, Diagnostic, DiagnosticKind, Error, ErrorSpan,
    ModelIndex, ModelLookupError, ModelRecord, NameSet, Namespace, PathPart, PathSegment,
    CAPABILITY_PATH_MESSAGE,
};

fn names(list: &[&str]) -> Option<Vec<String>> {
    Some(list.iter().map(|name| (*name).to_owned()).collect())
}

fn models() -> Result<ModelIndex, ModelLookupError> {
    Ok(ModelIndex::from_records(vec![
        ModelRecord {
            id: "x-ai/grok-build-0.1".to_owned(),
            supported_parameters: names(&["tools", "seed"]),
            input_modalities: names(&["text", "image"]),
            output_modalities: names(&["text"]),
        },
        ModelRecord {
            id: "moonshotai/kimi-k2-0905".to_owned(),
            supported_parameters: names(&["tools"]),
            input_modalities: names(&["text"]),
            output_modalities: names(&["text"]),
        },
    ]))
}

fn broken() -> Result<ModelIndex, ModelLookupError> {
    Err(ModelLookupError::InvalidModelsJson("EOF while parsing a value".to_owned()))
}

fn plain(text: &str) -> CapabilityPath {
    CapabilityPath {
        leading_colon: false,
        segments: text
            .split("::")
            .map(|ident| PathSegment { ident: ident.to_owned(), has_arguments: false })
            .collect(),
    }
}

#[test]
fn formatted_capability_reads_back() {
    let text = format_capability(Namespace::Input, "image");
    assert_eq!(parse_capability(&text), Ok((Namespace::Input, "image".to_owned())));
}

#[test]
fn read_capability_is_its_formatted_text() {
    let (namespace, name) = parse_capability("output:::x").unwrap();
    assert_eq!(format_capability(namespace, &name), "output:::x");
}

#[test]
fn namespace_reads_back_from_its_name() {
    for namespace in [Namespace::Param, Namespace::Input, Namespace::Output] {
        assert_eq!(parse_namespace(namespace.as_str()), Ok(namespace));
    }
}

#[test]
fn rejects_path_without_separator() {
    assert_eq!(
        parse_capability("tools"),
        Err(Error::InvalidCapabilityPath { message: CAPABILITY_PATH_MESSAGE.to_owned() })
    );
}

#[test]
fn rejects_path_with_three_segments() {
    assert_eq!(
        parse_capability("param::::tools").unwrap_err().to_string(),
        CAPABILITY_PATH_MESSAGE
    );
}

#[test]
fn rejects_path_with_empty_name() {
    assert!(parse_capability("param::").is_err());
    assert!(parse_capability("::tools").is_err());
}

#[test]
fn unknown_namespace_in_path_is_an_invalid_path() {
    assert_eq!(
        parse_capability("weird::tools").unwrap_err().to_string(),
        "unknown OpenRouter capability namespace `weird`; expected one of: param, input, output"
    );
    assert!(matches!(
        parse_capability("weird::tools"),
        Err(Error::InvalidCapabilityPath { .. })
    ));
}

#[test]
fn edit_distance_is_symmetric_and_zero_on_equal_names() {
    assert_eq!(edit_distance("kitten", "sitting"), 3);
    assert_eq!(edit_distance("sitting", "kitten"), 3);
    assert_eq!(edit_distance("structured_outputs", "structured_outputs"), 0);
}

#[test]
fn validation_reports_models_that_cannot_be_read() {
    let error = validate_capability_name(&broken(), Namespace::Param, "tools").unwrap_err();
    assert_eq!(
        error,
        Error::ModelLookup(ModelLookupError::InvalidModelsJson("EOF while parsing a value".to_owned()))
    );
    assert_eq!(
        error.to_string(),
        "invalid embedded OpenRouter models JSON: EOF while parsing a value"
    );
}

#[test]
fn validation_accepts_known_names_of_any_model() {
    assert_eq!(validate_capability_name(&models(), Namespace::Param, "seed"), Ok(()));
    assert_eq!(validate_capability_name(&models(), Namespace::Input, "image"), Ok(()));
}

#[test]
fn check_passes_when_the_model_supports_everything() {
    assert_eq!(
        check(&models(), "x-ai/grok-build-0.1", &["param::tools", "input::image", "output::text"]),
        Ok(())
    );
}

#[test]
fn check_passes_for_dynamic_variant() {
    assert_eq!(check(&models(), "moonshotai/kimi-k2-0905:exacto", &["param::tools"]), Ok(()));
}

#[test]
fn check_rejects_static_variant_as_unknown_model() {
    let diagnostics = check(&models(), "moonshotai/kimi-k2-0905:free", &["param::tools"]).unwrap_err();
    assert_eq!(diagnostics.len(), 1);
    assert_eq!(diagnostics[0].kind, DiagnosticKind::UnknownModel);
    assert_eq!(diagnostics[0].source_index, None);
}

#[test]
fn check_reports_each_bad_capability_at_its_position() {
    let diagnostics = check(
        &models(),
        "x-ai/grok-build-0.1",
        &["param::tools", "tools", "capability::tools", "param::toolz", "param::tools", "input::image"],
    )
    .unwrap_err();
    let found: Vec<_> = diagnostics.iter().map(|d| (d.kind, d.source_index)).collect();
    assert_eq!(
        found,
        vec![
            (DiagnosticKind::InvalidCapabilityPath, Some(1)),
            (DiagnosticKind::InvalidCapabilityPath, Some(2)),
            (DiagnosticKind::UnknownCapability, Some(3)),
            (DiagnosticKind::DuplicateCapability, Some(4)),
        ]
    );
    assert_eq!(
        diagnostics[2].message,
        "unknown OpenRouter capability `param::toolz`; did you mean `param::tools`?"
    );
}

#[test]
fn check_reports_invalid_models_for_each_capability() {
    let diagnostics = check(&broken(), "x-ai/grok-build-0.1", &["param::tools", "input::image"]).unwrap_err();
    assert_eq!(diagnostics.len(), 2);
    assert!(diagnostics.iter().all(|d| d.kind == DiagnosticKind::InvalidModelsJson));
    assert_eq!(diagnostics[1].source_index, Some(1));
}

#[test]
fn check_reports_invalid_models_once_without_capabilities() {
    let diagnostics = check(&broken(), "x-ai/grok-build-0.1", &[]).unwrap_err();
    assert_eq!(diagnostics.len(), 1);
    assert_eq!(diagnostics[0].kind, DiagnosticKind::InvalidModelsJson);
    assert_eq!(diagnostics[0].message, "invalid embedded OpenRouter models JSON: EOF while parsing a value");
}

#[test]
fn check_reports_unknown_namespace_kind() {
    let diagnostics = check(&models(), "x-ai/grok-build-0.1", &["capability::tools"]).unwrap_err();
    assert_eq!(diagnostics[0].kind, DiagnosticKind::InvalidCapabilityPath);
}

#[test]
fn macro_and_check_agree() {
    let cases: [(&str, &[&str]); 4] = [
        ("x-ai/grok-build-0.1", &["param::tools", "input::image"]),
        ("x-ai/grok-build-0.1", &["param::tools", "param::tools"]),
        ("moonshotai/kimi-k2-0905", &["input::image"]),
        ("example/not-a-real-model", &["param::tools"]),
    ];
    for (model, capabilities) in cases {
        let paths: Vec<CapabilityPath> = capabilities.iter().map(|text| plain(text)).collect();
        assert_eq!(
            model_supports(&models(), model, &paths).is_ok(),
            check(&models(), model, capabilities).is_ok()
        );
    }
}

#[test]
fn single_parameter_agrees_with_missing_capabilities() {
    let loaded = models();
    let index = loaded.as_ref().unwrap();
    assert_eq!(model_supports_parameter(&loaded, "moonshotai/kimi-k2-0905", "seed"), Ok(false));
    assert_eq!(
        index.missing_capabilities("moonshotai/kimi-k2-0905", &[(Namespace::Param, "seed")]),
        Ok(vec![(Namespace::Param, "seed".to_owned())])
    );
    assert_eq!(
        index.supports_parameters("moonshotai/kimi-k2-0905", &["seed", "tools"]),
        Ok(vec!["seed".to_owned()])
    );
}

#[test]
fn capability_diagnostics_do_not_depend_on_the_model() {
    let capabilities = ["param::toolz", "param::tools", "param::tools", "bogus", "output::text"];
    let expected = vec![
        Diagnostic {
            message: "unknown OpenRouter capability `param::toolz`; did you mean `param::tools`?"
                .to_owned(),
            kind: DiagnosticKind::UnknownCapability,
            source_index: Some(0),
        },
        Diagnostic {
            message: "duplicate OpenRouter capability `param::tools`".to_owned(),
            kind: DiagnosticKind::DuplicateCapability,
            source_index: Some(2),
        },
        Diagnostic {
            message: CAPABILITY_PATH_MESSAGE.to_owned(),
            kind: DiagnosticKind::InvalidCapabilityPath,
            source_index: Some(3),
        },
    ];
    for model in ["x-ai/grok-build-0.1", "moonshotai/kimi-k2-0905", "no/such-model"] {
        assert_eq!(check(&models(), model, &capabilities), Err(expected.clone()));
    }
}

#[test]
fn repeat_of_an_invalid_capability_is_not_a_duplicate() {
    let diagnostics = check(&models(), "x-ai/grok-build-0.1", &["param::toolz", "param::toolz"])
        .unwrap_err();
    let kinds: Vec<_> = diagnostics.iter().map(|d| (d.kind, d.source_index)).collect();
    assert_eq!(
        kinds,
        vec![
            (DiagnosticKind::UnknownCapability, Some(0)),
            (DiagnosticKind::UnknownCapability, Some(1)),
        ]
    );
}

#[test]
fn model_diagnostic_follows_the_lookup() {
    assert_eq!(
        check(&models(), "no/such-model", &["param::tools"]),
        Err(vec![Diagnostic {
            message: "unknown OpenRouter model `no/such-model`".to_owned(),
            kind: DiagnosticKind::UnknownModel,
            source_index: None,
        }])
    );
    assert_eq!(
        check(&models(), "moonshotai/kimi-k2-0905", &["param::seed", "input::text", "input::image"]),
        Err(vec![Diagnostic {
            message: "OpenRouter model `moonshotai/kimi-k2-0905` does not support required capability(s): param::seed, input::image".to_owned(),
            kind: DiagnosticKind::MissingCapability,
            source_index: None,
        }])
    );
    assert_eq!(check(&models(), "moonshotai/kimi-k2-0905", &["param::tools"]), Ok(()));
    assert_eq!(
        check(&broken(), "moonshotai/kimi-k2-0905", &[]),
        Err(vec![Diagnostic {
            message: "invalid embedded OpenRouter models JSON: EOF while parsing a value".to_owned(),
            kind: DiagnosticKind::InvalidModelsJson,
            source_index: None,
        }])
    );
}

#[test]
fn macro_error_carries_the_first_check_message() {
    let cases: [(&str, &[&str], ErrorSpan); 4] = [
        (
            "x-ai/grok-build-0.1",
            &["param::tools", "param::toolz", "param::tools", "bogus::x"],
            ErrorSpan::Capability { index: 1, part: PathPart::Name },
        ),
        (
            "x-ai/grok-build-0.1",
            &["input::text", "bogus::x"],
            ErrorSpan::Capability { index: 1, part: PathPart::Namespace },
        ),
        (
            "x-ai/grok-build-0.1",
            &["input::text", "param::seed", "input::text"],
            ErrorSpan::Capability { index: 2, part: PathPart::Whole },
        ),
        ("moonshotai/kimi-k2-0905", &["param::seed"], ErrorSpan::ModelLiteral),
    ];
    for (model, capabilities, span) in cases {
        let paths: Vec<CapabilityPath> = capabilities.iter().map(|text| plain(text)).collect();
        let error = model_supports(&models(), model, &paths).unwrap_err();
        let diagnostics = check(&models(), model, capabilities).unwrap_err();
        assert_eq!(error.span, span);
        assert_eq!(error.message, diagnostics[0].message);
        let expected_index = match span {
            ErrorSpan::ModelLiteral => None,
            ErrorSpan::Capability { index, .. } => Some(index),
        };
        assert_eq!(diagnostics[0].source_index, expected_index);
    }
}

#[test]
fn reading_paths_stops_at_the_first_bad_path() {
    let paths: Vec<CapabilityPath> =
        ["param::tools", "param::seed", "param::tools", "bogus::x"].iter().map(|t| plain(t)).collect();
    let error = parse_capabilities(&models(), &paths).unwrap_err();
    assert_eq!(error.span, ErrorSpan::Capability { index: 2, part: PathPart::Whole });
    assert_eq!(error.message, "duplicate OpenRouter capability `param::tools`");
    let parsed = parse_capabilities(&models(), &paths[..2]).unwrap();
    let read: Vec<_> = parsed.iter().map(|c| (c.namespace, c.name.as_str())).collect();
    assert_eq!(read, vec![(Namespace::Param, "tools"), (Namespace::Param, "seed")]);
}

#[test]
fn suggestion_names_the_nearest_or_lists_all() {
    let known = NameSet::from_names(vec!["tools".to_owned(), "seed".to_owned()]);
    assert_eq!(
        unknown_capability_suggestion(Namespace::Param, "toolz", &known),
        "; did you mean `param::tools`?"
    );
    assert_eq!(
        unknown_capability_suggestion(Namespace::Param, "temperature", &known),
        "; known param capabilities: seed, tools"
    );
}

#[test]
fn macro_and_check_agree_on_every_path_shape() {
    let rooted = CapabilityPath {
        leading_colon: true,
        segments: vec![
            PathSegment { ident: "param".to_owned(), has_arguments: false },
            PathSegment { ident: "tools".to_owned(), has_arguments: false },
        ],
    };
    let cases: Vec<(Vec<CapabilityPath>, Vec<&str>, ErrorSpan)> = vec![
        (
            vec![plain("param::tools"), rooted],
            vec!["param::tools", "::param::tools"],
            ErrorSpan::Capability { index: 1, part: PathPart::Whole },
        ),
        (
            vec![plain("tools")],
            vec!["tools"],
            ErrorSpan::Capability { index: 0, part: PathPart::Whole },
        ),
        (
            vec![plain("input::text"), plain("param::tools::extra")],
            vec!["input::text", "param::tools::extra"],
            ErrorSpan::Capability { index: 1, part: PathPart::Whole },
        ),
    ];
    for (paths, texts, span) in cases {
        let error = model_supports(&models(), "x-ai/grok-build-0.1", &paths).unwrap_err();
        let diagnostics = check(&models(), "x-ai/grok-build-0.1", &texts).unwrap_err();
        assert_eq!(error.span, span);
        assert_eq!(error.message, CAPABILITY_PATH_MESSAGE);
        assert_eq!(error.message, diagnostics[0].message);
        let ErrorSpan::Capability { index, .. } = span else { unreachable!() };
        assert_eq!(diagnostics[0].source_index, Some(index));
    }
}
