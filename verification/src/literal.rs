//! What the macros whose arguments are all string literals decide: the form
//! of `model_supports!` that lists parameter names, and the single-parameter
//! macros such as `structured_model!`. Each expands to its model literal or
//! reports a compile error at it.
use vstd::prelude::*;

use crate::check::{invalid_models_message, unknown_model_message};
use crate::format::{join, join_names};
use crate::models::{
    lemma_dynamic_variant_lookup, lemma_missing_from, lemma_parameters_are_param_capabilities,
    lookup_id, missing_model_parameters, model_supports_parameter, spec_missing_model_parameters, str_views,
    LoadedModels, ModelLookupError, Namespace,
};
use crate::names::string_views;

verus! {

/// The message about a model that lacks one parameter.
pub open spec fn unsupported_parameter_message(model_id: Seq<char>, parameter: Seq<char>) -> Seq<
    char,
> {
    "OpenRouter model `"@ + model_id + "` does not support `"@ + parameter + "`"@
}

/// What a single-parameter macro decides: expand to the model literal, or
/// report the message of a compile error at it.
pub open spec fn spec_model_parameter(
    models: LoadedModels,
    model_id: Seq<char>,
    parameter: Seq<char>,
) -> Result<(), Seq<char>> {
    match models {
        Err(ModelLookupError::UnknownModel) => Err(unknown_model_message(model_id)),
        Err(ModelLookupError::InvalidModelsJson(message)) => Err(invalid_models_message(message@)),
        Ok(index) => if !index@.contains_key(crate::models::lookup_id(model_id)) {
            Err(unknown_model_message(model_id))
        } else if index@[crate::models::lookup_id(model_id)].contains(
            (Namespace::Param, parameter),
        ) {
            Ok(())
        } else {
            Err(unsupported_parameter_message(model_id, parameter))
        },
    }
}

/// Decides a single-parameter macro such as `structured_model!(model_id)`:
/// `Ok` when the model supports `required_parameter`, else the message of
/// the compile error to report at the model literal.
pub fn model_parameter(models: &LoadedModels, model_id: &str, required_parameter: &str) -> (decision:
    Result<(), String>)
    ensures
        match (decision, spec_model_parameter(*models, model_id@, required_parameter@)) {
            (Ok(()), Ok(())) => true,
            (Err(message), Err(expected)) => message@ == expected,
            _ => false,
        },
{
    match model_supports_parameter(models, model_id, required_parameter) {
        Ok(true) => Ok(()),
        Ok(false) => {
            let mut message = String::new();
            message.append("OpenRouter model `");
            message.append(model_id);
            message.append("` does not support `");
            message.append(required_parameter);
            message.append("`");
            Err(message)
        },
        Err(ModelLookupError::UnknownModel) => {
            let mut message = String::new();
            message.append("unknown OpenRouter model `");
            message.append(model_id);
            message.append("`");
            Err(message)
        },
        Err(ModelLookupError::InvalidModelsJson(text)) => {
            let mut message = String::new();
            message.append("invalid embedded OpenRouter models JSON: ");
            message.append(text.as_str());
            Err(message)
        },
    }
}

/// The message about parameters that a model lacks.
pub open spec fn missing_parameters_message(model_id: Seq<char>, missing: Seq<Seq<char>>) -> Seq<
    char,
> {
    "OpenRouter model `"@ + model_id + "` does not support required parameter(s): "@ + join(
        missing,
        ", "@,
    )
}

/// What the form of `model_supports!` that lists parameter names as string
/// literals decides: expand to the model literal, or report the message of a
/// compile error at it.
pub open spec fn spec_model_supports(
    models: LoadedModels,
    model_id: Seq<char>,
    parameters: Seq<Seq<char>>,
) -> Result<(), Seq<char>> {
    match spec_missing_model_parameters(models, model_id, parameters) {
        Ok(missing) => if missing.len() == 0 {
            Ok(())
        } else {
            Err(missing_parameters_message(model_id, missing))
        },
        Err(ModelLookupError::UnknownModel) => Err(unknown_model_message(model_id)),
        Err(ModelLookupError::InvalidModelsJson(message)) => Err(invalid_models_message(message@)),
    }
}

/// Decides `model_supports!(model_id, "parameter", ...)`, the form that lists
/// parameter names as string literals: `Ok` when the model supports them all,
/// else the message of the compile error to report at the model literal.
pub fn model_supports(
    models: &LoadedModels,
    model_id: &str,
    required_parameters: &[&str],
) -> (decision: Result<(), String>)
    ensures
        match (decision, spec_model_supports(
            *models,
            model_id@,
            str_views(required_parameters@),
        )) {
            (Ok(()), Ok(())) => true,
            (Err(message), Err(expected)) => message@ == expected,
            _ => false,
        },
{
    match missing_model_parameters(models, model_id, required_parameters) {
        Ok(missing) => {
            if missing.len() == 0 {
                Ok(())
            } else {
                let mut missing_refs: Vec<&str> = Vec::new();
                let n = missing.len();
                let mut i: usize = 0;
                while i < n
                    invariant
                        n == missing@.len(),
                        i <= n,
                        str_views(missing_refs@) == string_views(missing@).take(i as int),
                    decreases n - i,
                {
                    let ghost before = missing_refs@;
                    let name = missing[i].as_str();
                    missing_refs.push(name);
                    proof {
                        assert(str_views(missing_refs@) =~= str_views(before).push(name@));
                        assert(string_views(missing@).take(i + 1) =~= string_views(missing@).take(
                            i as int,
                        ).push(missing@[i as int]@));
                    }
                    i = i + 1;
                }
                assert(string_views(missing@).take(n as int) =~= string_views(missing@));
                let mut message = String::new();
                message.append("OpenRouter model `");
                message.append(model_id);
                message.append("` does not support required parameter(s): ");
                let listed = join_names(&missing_refs, ", ");
                message.append(listed.as_str());
                Err(message)
            }
        },
        Err(ModelLookupError::UnknownModel) => {
            let mut message = String::new();
            message.append("unknown OpenRouter model `");
            message.append(model_id);
            message.append("`");
            Err(message)
        },
        Err(ModelLookupError::InvalidModelsJson(text)) => {
            let mut message = String::new();
            message.append("invalid embedded OpenRouter models JSON: ");
            message.append(text.as_str());
            Err(message)
        },
    }
}

/// Looking up the model gives what is known of the model the id names:
/// whether the models could be read, whether the id names an indexed model,
/// and that model's parameters.
pub open spec fn param_supported(models: LoadedModels, model_id: Seq<char>, parameter: Seq<char>) -> bool {
    match models {
        Ok(index) => index@.contains_key(lookup_id(model_id)) && index@[lookup_id(model_id)].contains(
            (Namespace::Param, parameter),
        ),
        Err(_) => false,
    }
}

/// The form of `model_supports!` that lists parameter names expands to its
/// model literal exactly when the models were read, the id names an indexed
/// model, and that model supports every listed parameter; a single missing
/// parameter makes it a compile error, which then names the missing ones.
pub proof fn lemma_model_supports_accepts_exactly_supported(
    models: LoadedModels,
    model_id: Seq<char>,
    parameters: Seq<Seq<char>>,
)
    ensures
        spec_model_supports(models, model_id, parameters) is Ok <==> (models is Ok && models->Ok_0@.contains_key(
            lookup_id(model_id),
        ) && forall|i: int|
            0 <= i < parameters.len() ==> #[trigger] param_supported(models, model_id, parameters[i])),
        spec_model_supports(models, model_id, parameters) is Ok <==> spec_missing_model_parameters(
            models,
            model_id,
            parameters,
        ) == Ok::<Seq<Seq<char>>, ModelLookupError>(Seq::empty()),
{
    if let Ok(index) = models {
        if index@.contains_key(lookup_id(model_id)) {
            let supported = index@[lookup_id(model_id)];
            let tagged = parameters.map_values(|p: Seq<char>| (Namespace::Param, p));
            lemma_parameters_are_param_capabilities(parameters, supported);
            lemma_missing_from(tagged, supported);
            let missing = crate::models::missing_parameters_from(parameters, supported);
            assert(missing.len() == crate::models::missing_from(tagged, supported).len());
            if missing.len() == 0 {
                assert(missing =~= Seq::<Seq<char>>::empty());
                assert forall|i: int| 0 <= i < parameters.len() implies #[trigger] param_supported(
                    models,
                    model_id,
                    parameters[i],
                ) by {
                    assert(supported.contains(tagged[i]));
                }
            }
            if forall|i: int|
                0 <= i < parameters.len() ==> #[trigger] param_supported(models, model_id, parameters[i]) {
                assert forall|i: int| 0 <= i < tagged.len() implies supported.contains(
                    #[trigger] tagged[i],
                ) by {
                    assert(param_supported(models, model_id, parameters[i]));
                }
            }
        }
    }
}

/// A single-parameter macro decides as the form of `model_supports!` that
/// lists that one parameter: it expands to the model literal exactly when the
/// models were read, the id names an indexed model, and that model supports
/// the parameter; otherwise both report an error, with the same message when
/// the model could not be looked up.
pub proof fn lemma_model_parameter_agrees_with_model_supports(
    models: LoadedModels,
    model_id: Seq<char>,
    parameter: Seq<char>,
)
    ensures
        spec_model_parameter(models, model_id, parameter) is Ok <==> param_supported(
            models,
            model_id,
            parameter,
        ),
        spec_model_parameter(models, model_id, parameter) is Ok <==> spec_model_supports(
            models,
            model_id,
            seq![parameter],
        ) is Ok,
        !param_supported(models, model_id, parameter) && !(models is Ok
            && models->Ok_0@.contains_key(lookup_id(model_id))) ==> spec_model_parameter(
            models,
            model_id,
            parameter,
        ) == spec_model_supports(models, model_id, seq![parameter]),
{
    lemma_model_supports_accepts_exactly_supported(models, model_id, seq![parameter]);
    if param_supported(models, model_id, parameter) {
        assert(seq![parameter][0] == parameter);
    }
    if spec_model_supports(models, model_id, seq![parameter]) is Ok {
        assert(param_supported(models, model_id, seq![parameter][0]));
    }
}

/// A dynamic variant of a model (the model id followed by `:exacto`,
/// `:nitro`, `:floor` or `:online`) is accepted by a single-parameter macro,
/// and by the form of `model_supports!` that lists parameter names, exactly
/// when the model itself, indexed under that id, supports the parameters: a
/// variant has no capability its model lacks.
pub proof fn lemma_variant_decides_as_its_model(
    models: LoadedModels,
    base: Seq<char>,
    variant: Seq<char>,
    parameters: Seq<Seq<char>>,
)
    requires
        variant == "exacto"@ || variant == "nitro"@ || variant == "floor"@ || variant == "online"@,
    ensures
        ({
            let id = base + seq![':'] + variant;
            &&& forall|p: Seq<char>|
                #[trigger] spec_model_parameter(models, id, p) is Ok <==> (models is Ok
                    && models->Ok_0@.contains_key(base) && models->Ok_0@[base].contains(
                    (Namespace::Param, p),
                ))
            &&& spec_model_supports(models, id, parameters) is Ok <==> (models is Ok
                && models->Ok_0@.contains_key(base) && forall|i: int|
                0 <= i < parameters.len() ==> models->Ok_0@[base].contains(
                    (Namespace::Param, #[trigger] parameters[i]),
                ))
        }),
{
    let id = base + seq![':'] + variant;
    lemma_dynamic_variant_lookup(base, variant);
    lemma_model_supports_accepts_exactly_supported(models, id, parameters);
    assert forall|p: Seq<char>|
        #[trigger] spec_model_parameter(models, id, p) is Ok <==> (models is Ok
            && models->Ok_0@.contains_key(base) && models->Ok_0@[base].contains(
            (Namespace::Param, p),
        )) by {
        lemma_model_parameter_agrees_with_model_supports(models, id, p);
    }
    if spec_model_supports(models, id, parameters) is Ok {
        assert forall|i: int| 0 <= i < parameters.len() implies models->Ok_0@[base].contains(
            (Namespace::Param, #[trigger] parameters[i]),
        ) by {
            assert(param_supported(models, id, parameters[i]));
        }
    }
    if models is Ok && models->Ok_0@.contains_key(base) && forall|i: int|
        0 <= i < parameters.len() ==> models->Ok_0@[base].contains(
            (Namespace::Param, #[trigger] parameters[i]),
        ) {
        assert forall|i: int| 0 <= i < parameters.len() implies #[trigger] param_supported(
            models,
            id,
            parameters[i],
        ) by {
            assert(models->Ok_0@[base].contains((Namespace::Param, parameters[i])));
        }
    }
}

} // verus!
