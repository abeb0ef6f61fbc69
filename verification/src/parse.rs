//! Reading capability paths (`namespace::name`) and checking capability names
//! against the names that the models support.
use vstd::prelude::*;

use crate::error::{error_message, Error, ErrorView};
use crate::format::{capability_text, format_capability, join, join_names, sorted_names, sorted_seq};
use crate::models::{known_capability_names, spec_known_capability_names, LoadedModels, Namespace};
use crate::names::NameSet;
use crate::suggest::{closest_name, closest_spec};
use crate::text::{str_chars, str_eq};

verus! {

/// What a capability path must look like.
pub const CAPABILITY_PATH_MESSAGE: &'static str =
    "expected OpenRouter capability path in the form `param::name`, `input::name`, or `output::name`";

/// The namespace that `text` names, if any.
pub open spec fn spec_parse_namespace(text: Seq<char>) -> Option<Namespace> {
    if text == "param"@ {
        Some(Namespace::Param)
    } else if text == "input"@ {
        Some(Namespace::Input)
    } else if text == "output"@ {
        Some(Namespace::Output)
    } else {
        None
    }
}

/// The position of the first `::` in `s`, if any.
pub open spec fn first_separator(s: Seq<char>) -> Option<int>
    decreases s.len(),
{
    if s.len() < 2 {
        None
    } else if s[0] == ':' && s[1] == ':' {
        Some(0)
    } else {
        match first_separator(s.drop_first()) {
            Some(p) => Some(p + 1),
            None => None,
        }
    }
}

/// What reading `path` as a capability path gives: the text is cut at each
/// `::`; there must be exactly two pieces, neither empty, and the first must
/// name a namespace.
pub open spec fn spec_parse_capability(path: Seq<char>) -> Result<(Namespace, Seq<char>), ErrorView> {
    let invalid = ErrorView::InvalidCapabilityPath(CAPABILITY_PATH_MESSAGE@);
    match first_separator(path) {
        None => Err(invalid),
        Some(p) => {
            let namespace = path.take(p);
            let name = path.skip(p + 2);
            if namespace.len() == 0 || name.len() == 0 || first_separator(name) is Some {
                Err(invalid)
            } else {
                match spec_parse_namespace(namespace) {
                    Some(ns) => Ok((ns, name)),
                    None => Err(
                        ErrorView::InvalidCapabilityPath(
                            error_message(ErrorView::UnknownNamespace(namespace)),
                        ),
                    ),
                }
            }
        },
    }
}

/// The suggestion appended to the message about an unknown capability: the
/// nearest known name, or else all known names of the namespace in order.
pub open spec fn suggestion_text(namespace: Namespace, name: Seq<char>, known: Set<Seq<char>>) -> Seq<
    char,
> {
    match closest_spec(name, known) {
        Some(k) => "; did you mean `"@ + capability_text((namespace, k)) + "`?"@,
        None => "; known "@ + namespace.spec_as_str() + " capabilities: "@ + join(
            sorted_seq(known),
            ", "@,
        ),
    }
}

/// What checking the name of a capability against the models gives.
pub open spec fn spec_validate_capability_name(
    models: LoadedModels,
    namespace: Namespace,
    name: Seq<char>,
) -> Result<(), ErrorView> {
    match spec_known_capability_names(models, namespace) {
        Err(e) => Err(ErrorView::ModelLookup(e@)),
        Ok(known) => if known.contains(name) {
            Ok(())
        } else {
            Err(ErrorView::UnknownCapability(namespace, name, suggestion_text(namespace, name, known)))
        },
    }
}

/// The character views of a parsed capability.
pub open spec fn parsed_view(r: Result<(Namespace, String), Error>) -> Result<
    (Namespace, Seq<char>),
    ErrorView,
> {
    match r {
        Ok((ns, name)) => Ok((ns, name@)),
        Err(e) => Err(e@),
    }
}

/// The error view of a result without a value.
pub open spec fn unit_view(r: Result<(), Error>) -> Result<(), ErrorView> {
    match r {
        Ok(()) => Ok(()),
        Err(e) => Err(e@),
    }
}

/// The namespace that `text` names.
pub fn parse_namespace(text: &str) -> (namespace: Result<Namespace, Error>)
    ensures
        match (namespace, spec_parse_namespace(text@)) {
            (Ok(ns), Some(expected)) => ns == expected,
            (Err(e), None) => e@ == ErrorView::UnknownNamespace(text@),
            _ => false,
        },
{
    if str_eq(text, "param") {
        Ok(Namespace::Param)
    } else if str_eq(text, "input") {
        Ok(Namespace::Input)
    } else if str_eq(text, "output") {
        Ok(Namespace::Output)
    } else {
        Err(Error::unknown_namespace(text))
    }
}

/// Whether `::` starts at position `t` of `s`.
pub open spec fn separator_at(s: Seq<char>, t: int) -> bool {
    s[t] == ':' && s[t + 1] == ':'
}

pub proof fn lemma_first_separator(s: Seq<char>)
    ensures
        match first_separator(s) {
            Some(p) => 0 <= p && p + 1 < s.len() && separator_at(s, p) && forall|t: int|
                0 <= t < p ==> !#[trigger] separator_at(s, t),
            None => forall|t: int| 0 <= t && t + 1 < s.len() ==> !#[trigger] separator_at(s, t),
        },
    decreases s.len(),
{
    if s.len() >= 2 && !(s[0] == ':' && s[1] == ':') {
        lemma_first_separator(s.drop_first());
        match first_separator(s.drop_first()) {
            Some(p) => {
                assert forall|t: int| 0 <= t < p + 1 implies !#[trigger] separator_at(s, t) by {
                    if t > 0 {
                        assert(!separator_at(s.drop_first(), t - 1));
                        assert(s.drop_first()[t - 1] == s[t]);
                        assert(s.drop_first()[t] == s[t + 1]);
                    }
                }
            },
            None => {
                assert forall|t: int| 0 <= t && t + 1 < s.len() implies !#[trigger] separator_at(s, t) by {
                    if t > 0 {
                        assert(!separator_at(s.drop_first(), t - 1));
                        assert(s.drop_first()[t - 1] == s[t]);
                        assert(s.drop_first()[t] == s[t + 1]);
                    }
                }
            },
        }
    }
}

/// The position of the first `::` in `chars[from..]`, counted from `from`.
fn find_separator(chars: &Vec<char>, from: usize) -> (position: Option<usize>)
    requires
        from <= chars@.len(),
    ensures
        match first_separator(chars@.skip(from as int)) {
            Some(p) => 0 <= p && position == Some((from + p) as usize) && from + p + 1 < chars@.len(),
            None => position is None,
        },
{
    let ghost s = chars@.skip(from as int);
    proof {
        lemma_first_separator(s);
    }
    let n = chars.len();
    let mut i = from;
    while n - i >= 2
        invariant
            n == chars@.len(),
            from <= i,
            i <= n,
            s == chars@.skip(from as int),
            forall|t: int| from <= t < i ==> !#[trigger] separator_at(chars@, t),
        decreases n - i,
    {
        if chars[i] == ':' && chars[i + 1] == ':' {
            proof {
                lemma_first_separator(s);
                assert(separator_at(chars@, i as int));
                assert(s[i - from] == chars@[i as int]);
                assert(s[i - from + 1] == chars@[i + 1]);
                assert(separator_at(s, i - from));
                match first_separator(s) {
                    Some(p) => {
                        if p < i - from {
                            assert(s[p] == chars@[from + p]);
                            assert(s[p + 1] == chars@[from + p + 1]);
                            assert(separator_at(chars@, from + p));
                        }
                    },
                    None => {},
                }
            }
            return Some(i);
        }
        i = i + 1;
    }
    proof {
        lemma_first_separator(s);
        match first_separator(s) {
            Some(p) => {
                assert(s[p] == chars@[from + p]);
                assert(s[p + 1] == chars@[from + p + 1]);
                assert(separator_at(chars@, from + p));
            },
            None => {},
        }
    }
    None
}

/// Reads a capability path `namespace::name`.
pub fn parse_capability(path: &str) -> (capability: Result<(Namespace, String), Error>)
    ensures
        parsed_view(capability) == spec_parse_capability(path@),
{
    let chars = str_chars(path);
    let n = chars.len();
    assert(chars@.skip(0) =~= chars@);
    let found = find_separator(&chars, 0);
    let separator = match found {
        Some(p) => p,
        None => {
            assert(chars@.skip(0) =~= chars@);
            return Err(Error::invalid_capability_path(CAPABILITY_PATH_MESSAGE.to_owned()));
        },
    };
    proof {
        match first_separator(chars@.skip(0)) {
            Some(p) => {
                assert(found == Some((0 + p) as usize));
                assert(separator as int == p);
            },
            None => {},
        }
        assert(separator + 1 < n);
    }
    let name_start = separator + 2;
    let rest = find_separator(&chars, name_start);
    let namespace_text = path.substring_char(0, separator);
    let name = path.substring_char(name_start, n);
    proof {
        assert(namespace_text@ =~= path@.take(separator as int));
        assert(name@ =~= path@.skip(name_start as int));
    }
    if separator == 0 || name_start == n || rest.is_some() {
        return Err(Error::invalid_capability_path(CAPABILITY_PATH_MESSAGE.to_owned()));
    }
    match parse_namespace(namespace_text) {
        Ok(namespace) => Ok((namespace, name.to_owned())),
        Err(error) => Err(Error::invalid_capability_path(error.to_string())),
    }
}

/// Checks that some model supports a capability called `name` in
/// `namespace`; if none does, the error suggests the intended name.
pub fn validate_capability_name(models: &LoadedModels, namespace: Namespace, name: &str) -> (valid:
    Result<(), Error>)
    ensures
        unit_view(valid) == spec_validate_capability_name(*models, namespace, name@),
{
    let known_names = match known_capability_names(models, namespace) {
        Ok(names) => names,
        Err(e) => return Err(Error::ModelLookup(e)),
    };
    if !known_names.contains(name) {
        return Err(
            Error::unknown_capability(
                namespace,
                name,
                unknown_capability_suggestion(namespace, name, known_names),
            ),
        );
    }
    Ok(())
}

/// The suggestion appended to the message about an unknown capability name:
/// the nearest known name as a capability path, or else all the known names
/// of the namespace in order.
pub fn unknown_capability_suggestion(namespace: Namespace, name: &str, known_names: &NameSet) -> (text:
    String)
    ensures
        text@ == suggestion_text(namespace, name@, known_names@),
{
    match closest_name(name, known_names) {
        Some(known_name) => {
            let mut text = String::new();
            text.append("; did you mean `");
            let capability = format_capability(namespace, known_name);
            text.append(capability.as_str());
            text.append("`?");
            text
        },
        None => {
            let mut text = String::new();
            text.append("; known ");
            text.append(namespace.as_str());
            text.append(" capabilities: ");
            let sorted = sorted_names(known_names);
            let listed = join_names(&sorted, ", ");
            text.append(listed.as_str());
            text
        },
    }
}


/// Each namespace reads back from its own name, which holds no `:`.
pub proof fn lemma_namespace_text(namespace: Namespace)
    ensures
        namespace.spec_as_str().len() > 0,
        forall|t: int|
            0 <= t < namespace.spec_as_str().len() ==> #[trigger] namespace.spec_as_str()[t] != ':',
        spec_parse_namespace(namespace.spec_as_str()) == Some(namespace),
{
    reveal_strlit("param");
    reveal_strlit("input");
    reveal_strlit("output");
    assert("param"@[0] == 'p');
    assert("input"@[0] == 'i');
    assert("output"@[0] == 'o');
    assert("param"@ != "input"@);
    assert("param"@ != "output"@);
    assert("input"@ != "output"@);
}

/// Reading back a formatted capability gives it again, when its name is not
/// empty and holds no `::`.
pub proof fn lemma_parse_format_roundtrip(namespace: Namespace, name: Seq<char>)
    requires
        name.len() > 0,
        first_separator(name) is None,
    ensures
        spec_parse_capability(capability_text((namespace, name))) == Ok::<
            (Namespace, Seq<char>),
            ErrorView,
        >((namespace, name)),
{
    let ns = namespace.spec_as_str();
    let s = capability_text((namespace, name));
    let l = ns.len() as int;
    lemma_namespace_text(namespace);
    reveal_strlit("::");
    assert(s =~= ns + "::"@ + name);
    assert(s[l] == ':' && s[l + 1] == ':');
    lemma_first_separator(s);
    match first_separator(s) {
        Some(p) => {
            if p < l {
                assert(s[p] == ns[p]);
            } else if p > l {
                assert(separator_at(s, l));
            }
        },
        None => {
            assert(separator_at(s, l));
        },
    }
    assert(s.take(l) =~= ns);
    assert(s.skip(l + 2) =~= name);
}

/// A capability path that reads is exactly the formatted capability.
pub proof fn lemma_format_parse_roundtrip(path: Seq<char>)
    requires
        spec_parse_capability(path) is Ok,
    ensures
        ({
            let (namespace, name) = spec_parse_capability(path)->Ok_0;
            path == capability_text((namespace, name)) && name.len() > 0 && first_separator(
                name,
            ) is None
        }),
{
    let p = first_separator(path)->0;
    lemma_first_separator(path);
    let ns_text = path.take(p);
    let (namespace, name) = spec_parse_capability(path)->Ok_0;
    reveal_strlit("param");
    reveal_strlit("input");
    reveal_strlit("output");
    reveal_strlit("::");
    assert(namespace.spec_as_str() == ns_text);
    assert(path =~= ns_text + "::"@ + path.skip(p + 2));
}

} // verus!
