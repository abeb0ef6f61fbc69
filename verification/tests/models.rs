use openrouter_toolkit::{
    known_capability_names, missing_model_capabilities, missing_model_parameters,
    model_supports_parameter, normalize_model_id_for_lookup, owned_capabilities, ModelIndex,
    ModelLookupError, ModelRecord, Namespace,
};

fn names(list: &[&str]) -> Option<Vec<String>> {
    Some(list.iter().map(|name| (*name).to_owned()).collect())
}

fn record(
    id: &str,
    parameters: Option<Vec<String>>,
    inputs: Option<Vec<String>>,
    outputs: Option<Vec<String>>,
) -> ModelRecord {
    ModelRecord {
        id: id.to_owned(),
        supported_parameters: parameters,
        input_modalities: inputs,
        output_modalities: outputs,
    }
}

/// The models of the parameter-only fixture.
fn parameter_index() -> ModelIndex {
    ModelIndex::from_records(vec![
        record("model/full", names(&["structured_outputs", "tools", "response_format"]), None, None),
        record("model/empty", names(&[]), None, None),
        record("model/null", None, None, None),
        record("model/absent", None, None, None),
    ])
}

/// The models of the synthetic fixture.
fn synthetic_index() -> ModelIndex {
    ModelIndex::from_records(vec![
        record(
            "model/full",
            names(&["structured_outputs", "tools", "response_format"]),
            names(&["text", "image"]),
            names(&["text", "image"]),
        ),
        record("model/empty", names(&[]), names(&[]), names(&[])),
        record("model/null", None, None, None),
        record("model/missing_modalities", names(&["tools"]), None, None),
        record("model/absent", None, None, None),
    ])
}

fn check_missing_parameters(model_id: &str, required: &[&str], expected: &[&str]) {
    let index = parameter_index();
    assert_eq!(
        index.supports_parameters(model_id, required),
        Ok(expected.iter().map(|parameter| (*parameter).to_owned()).collect()),
    );
}

#[test]
fn reports_missing_parameters_single_supported() {
    check_missing_parameters("model/full", &["tools"], &[]);
}

#[test]
fn reports_missing_parameters_all_supported() {
    check_missing_parameters("model/full", &["tools", "response_format"], &[]);
}

#[test]
fn reports_missing_parameters_one_missing() {
    check_missing_parameters("model/full", &["seed"], &["seed"]);
}

#[test]
fn reports_missing_parameters_keeps_order() {
    check_missing_parameters("model/full", &["seed", "tools", "top_p"], &["seed", "top_p"]);
}

#[test]
fn reports_missing_parameters_empty_list() {
    check_missing_parameters("model/empty", &["tools"], &["tools"]);
}

#[test]
fn reports_missing_parameters_null_list() {
    check_missing_parameters("model/null", &["tools"], &["tools"]);
}

#[test]
fn reports_missing_parameters_absent_list() {
    check_missing_parameters("model/absent", &["tools"], &["tools"]);
}

#[test]
fn reports_unknown_model() {
    let index = parameter_index();

    assert_eq!(
        index.supports_parameters("model/unknown", &["tools"]),
        Err(ModelLookupError::UnknownModel),
    );
}

fn check_missing_capabilities(
    model_id: &str,
    required: &[(Namespace, &str)],
    expected: &[(Namespace, &str)],
) {
    assert_eq!(
        synthetic_index().missing_capabilities(model_id, required),
        Ok(owned_capabilities(expected)),
    );
}

#[test]
fn reports_missing_capabilities_single_param() {
    check_missing_capabilities("model/full", &[(Namespace::Param, "tools")], &[]);
}

#[test]
fn reports_missing_capabilities_exacto_variant() {
    check_missing_capabilities("model/full:exacto", &[(Namespace::Param, "tools")], &[]);
}

#[test]
fn reports_missing_capabilities_nitro_variant() {
    check_missing_capabilities("model/full:nitro", &[(Namespace::Param, "tools")], &[]);
}

#[test]
fn reports_missing_capabilities_floor_variant() {
    check_missing_capabilities("model/full:floor", &[(Namespace::Param, "tools")], &[]);
}

#[test]
fn reports_missing_capabilities_online_variant() {
    check_missing_capabilities("model/full:online", &[(Namespace::Input, "image")], &[]);
}

#[test]
fn reports_missing_capabilities_all_namespaces() {
    check_missing_capabilities(
        "model/full",
        &[
            (Namespace::Param, "tools"),
            (Namespace::Param, "response_format"),
            (Namespace::Input, "image"),
            (Namespace::Output, "text"),
        ],
        &[],
    );
}

#[test]
fn reports_missing_capabilities_missing_param() {
    check_missing_capabilities(
        "model/full",
        &[(Namespace::Param, "seed")],
        &[(Namespace::Param, "seed")],
    );
}

#[test]
fn reports_missing_capabilities_missing_input_variant() {
    check_missing_capabilities(
        "model/full:exacto",
        &[(Namespace::Input, "audio")],
        &[(Namespace::Input, "audio")],
    );
}

#[test]
fn reports_missing_capabilities_mixed_missing_preserves_order() {
    check_missing_capabilities(
        "model/full",
        &[(Namespace::Param, "seed"), (Namespace::Param, "tools"), (Namespace::Output, "audio")],
        &[(Namespace::Param, "seed"), (Namespace::Output, "audio")],
    );
}

#[test]
fn reports_missing_capabilities_empty_model() {
    check_missing_capabilities(
        "model/empty",
        &[(Namespace::Param, "tools")],
        &[(Namespace::Param, "tools")],
    );
}

#[test]
fn reports_missing_capabilities_null_fields() {
    check_missing_capabilities(
        "model/null",
        &[(Namespace::Input, "image")],
        &[(Namespace::Input, "image")],
    );
}

#[test]
fn reports_missing_capabilities_missing_architecture() {
    check_missing_capabilities(
        "model/absent",
        &[(Namespace::Output, "text")],
        &[(Namespace::Output, "text")],
    );
}

#[test]
fn reports_missing_capabilities_missing_modality_arrays() {
    check_missing_capabilities(
        "model/missing_modalities",
        &[(Namespace::Param, "tools"), (Namespace::Input, "text")],
        &[(Namespace::Input, "text")],
    );
}

fn check_unknown_model(model_id: &str) {
    assert_eq!(
        synthetic_index().missing_capabilities(model_id, &[(Namespace::Param, "tools")]),
        Err(ModelLookupError::UnknownModel),
    );
}

#[test]
fn reports_unknown_model_unknown_base() {
    check_unknown_model("model/unknown");
}

#[test]
fn reports_unknown_model_unknown_dynamic_variant() {
    check_unknown_model("model/unknown:exacto");
}

#[test]
fn reports_unknown_model_static_variant_is_not_stripped() {
    check_unknown_model("model/full:free");
}

fn check_known_names(namespace: Namespace, expected_names: &[&str]) {
    let index = synthetic_index();
    for expected_name in expected_names {
        assert!(
            index.known_names(namespace).contains(expected_name),
            "expected {namespace:?} to include {expected_name}",
        );
    }
}

#[test]
fn tracks_known_capability_names_param() {
    check_known_names(Namespace::Param, &["response_format", "structured_outputs", "tools"]);
}

#[test]
fn tracks_known_capability_names_input() {
    check_known_names(Namespace::Input, &["image", "text"]);
}

#[test]
fn tracks_known_capability_names_output() {
    check_known_names(Namespace::Output, &["image", "text"]);
}

#[test]
fn known_names_hold_nothing_unsupported() {
    let index = synthetic_index();
    assert_eq!(index.known_names(Namespace::Param).len(), 3);
    assert!(!index.known_names(Namespace::Input).contains("audio"));
}

#[test]
fn normalizes_dynamic_variants_bare() {
    assert_eq!(normalize_model_id_for_lookup("model/full"), "model/full");
}

#[test]
fn normalizes_dynamic_variants_exacto() {
    assert_eq!(normalize_model_id_for_lookup("model/full:exacto"), "model/full");
}

#[test]
fn normalizes_dynamic_variants_nitro() {
    assert_eq!(normalize_model_id_for_lookup("model/full:nitro"), "model/full");
}

#[test]
fn normalizes_dynamic_variants_floor() {
    assert_eq!(normalize_model_id_for_lookup("model/full:floor"), "model/full");
}

#[test]
fn normalizes_dynamic_variants_online() {
    assert_eq!(normalize_model_id_for_lookup("model/full:online"), "model/full");
}

#[test]
fn normalizes_dynamic_variants_static_variant() {
    assert_eq!(normalize_model_id_for_lookup("model/full:free"), "model/full:free");
}

#[test]
fn normalizes_dynamic_variants_suffix_only() {
    assert_eq!(normalize_model_id_for_lookup(":nitro"), "");
}

#[test]
fn normalizes_dynamic_variants_multi_suffix() {
    assert_eq!(normalize_model_id_for_lookup("model/full:exacto:nitro"), "model/full:exacto");
}

#[test]
fn duplicate_model_ids_use_last_entry() {
    let index = ModelIndex::from_records(vec![
        record("model/duplicate", names(&["tools"]), names(&["text"]), names(&["text"])),
        record("model/duplicate", names(&["seed"]), names(&["image"]), names(&["image"])),
    ]);

    assert_eq!(
        index.missing_capabilities(
            "model/duplicate",
            &[(Namespace::Param, "tools"), (Namespace::Param, "seed")],
        ),
        Ok(owned_capabilities(&[(Namespace::Param, "tools")])),
    );
}

#[test]
fn loaded_models_report_their_load_error() {
    let broken: Result<ModelIndex, ModelLookupError> =
        Err(ModelLookupError::InvalidModelsJson("expected value".to_owned()));
    assert_eq!(
        missing_model_capabilities(&broken, "model/full", &[(Namespace::Param, "tools")]),
        Err(ModelLookupError::InvalidModelsJson("expected value".to_owned())),
    );
    assert!(known_capability_names(&broken, Namespace::Param).is_err());
    assert_eq!(
        missing_model_parameters(&broken, "model/full", &["tools"]),
        Err(ModelLookupError::InvalidModelsJson("expected value".to_owned())),
    );
}

#[test]
fn model_supports_parameter_answers_for_one_parameter() {
    let loaded: Result<ModelIndex, ModelLookupError> = Ok(synthetic_index());
    assert_eq!(model_supports_parameter(&loaded, "model/full:nitro", "tools"), Ok(true));
    assert_eq!(model_supports_parameter(&loaded, "model/empty", "tools"), Ok(false));
    assert_eq!(
        model_supports_parameter(&loaded, "model/missing", "tools"),
        Err(ModelLookupError::UnknownModel)
    );
}
