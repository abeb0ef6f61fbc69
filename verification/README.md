# openrouter_toolkit

Checks OpenRouter model ids and the capabilities they must support
(`param::*` request parameters, `input::*` and `output::*` modalities)
against an index of OpenRouter models. The checking logic, and what the
macros decide for a given input, is specified and proved in Verus; reading
the macro tokens and emitting the result as tokens is ordinary Rust, not
verified.

- `src/` is the verified library: the model index and dynamic-variant lookup
  (`models`), capability-path reading and name validation with suggestions
  (`parse`, `suggest`), message formatting (`format`, `error`), the
  diagnostic-collecting `check`, and what the `model_supports!` family of
  macros decides for a given input (`expand` for capability paths,
  `literal` for the macros that take string literals).
- `app/` holds what stays outside: deserializing the models JSON with serde,
  and the token side of the macros (parsing input with `syn`, emitting the
  model literal or a compile error with `quote`).
- `tests/` runs the library on concrete models.
