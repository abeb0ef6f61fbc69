//! The index of OpenRouter models and the capabilities that each supports:
//! request parameters, input modalities and output modalities.
use vstd::prelude::*;

use crate::names::{lemma_push_contains, string_views, NameSet};
use crate::text::{str_chars, str_eq};

verus! {

/// The kind of a capability: a request parameter, an input modality or an
/// output modality.
#[derive(Clone, Copy, Debug, PartialEq, Eq, Hash, Structural)]
pub enum Namespace {
    Param,
    Input,
    Output,
}

impl Namespace {
    /// The name of the namespace as written in a capability path.
    pub open spec fn spec_as_str(self) -> Seq<char> {
        match self {
            Namespace::Param => "param"@,
            Namespace::Input => "input"@,
            Namespace::Output => "output"@,
        }
    }

    /// The name of the namespace as written in a capability path.
    pub fn as_str(&self) -> (name: &'static str)
        ensures
            name@ == self.spec_as_str(),
    {
        match self {
            Namespace::Param => "param",
            Namespace::Input => "input",
            Namespace::Output => "output",
        }
    }
}

/// Why a model's capabilities could not be looked up.
#[derive(Clone, Debug, PartialEq, Eq)]
pub enum ModelLookupError {
    /// No model with the given id is in the index.
    UnknownModel,
    /// The models data could not be read; the text says why.
    InvalidModelsJson(String),
}

impl ModelLookupError {
    /// An equal copy of this error.
    pub fn duplicate(&self) -> (copy: Self)
        ensures
            copy == *self,
    {
        match self {
            ModelLookupError::UnknownModel => ModelLookupError::UnknownModel,
            ModelLookupError::InvalidModelsJson(message) => ModelLookupError::InvalidModelsJson(
                message.clone(),
            ),
        }
    }
}

/// One model as the models data describes it. A list that the data leaves
/// out or sets to null is `None`.
#[derive(Clone, Debug)]
pub struct ModelRecord {
    pub id: String,
    pub supported_parameters: Option<Vec<String>>,
    pub input_modalities: Option<Vec<String>>,
    pub output_modalities: Option<Vec<String>>,
}

/// A capability: its namespace and its name.
pub type CapabilityView = (Namespace, Seq<char>);

/// The names that an optional list holds; none when it is absent.
pub open spec fn listed_names(list: Option<Vec<String>>) -> Seq<Seq<char>> {
    match list {
        Some(v) => string_views(v@),
        None => Seq::empty(),
    }
}

/// The capabilities that a record declares.
pub open spec fn record_capabilities(record: ModelRecord) -> Set<CapabilityView> {
    Set::new(
        |c: CapabilityView|
            match c.0 {
                Namespace::Param => listed_names(record.supported_parameters).contains(c.1),
                Namespace::Input => listed_names(record.input_modalities).contains(c.1),
                Namespace::Output => listed_names(record.output_modalities).contains(c.1),
            },
    )
}

/// The capabilities of the last record with the given id, if there is one.
pub open spec fn last_record_capabilities(records: Seq<ModelRecord>, id: Seq<char>) -> Option<
    Set<CapabilityView>,
>
    decreases records.len(),
{
    if records.len() == 0 {
        None
    } else if records.last().id@ == id {
        Some(record_capabilities(records.last()))
    } else {
        last_record_capabilities(records.drop_last(), id)
    }
}

/// The index that a list of records describes: each id maps to the
/// capabilities of the last record with that id.
pub open spec fn records_index(records: Seq<ModelRecord>) -> Map<Seq<char>, Set<CapabilityView>> {
    Map::new(
        |id: Seq<char>| last_record_capabilities(records, id) is Some,
        |id: Seq<char>| last_record_capabilities(records, id)->0,
    )
}

/// The names that some model of the index supports in a namespace.
pub open spec fn known_in(index: Map<Seq<char>, Set<CapabilityView>>, namespace: Namespace) -> Set<
    Seq<char>,
> {
    Set::new(
        |name: Seq<char>|
            exists|id: Seq<char>| index.contains_key(id) && #[trigger] index[id].contains((namespace, name)),
    )
}

/// The capabilities in `required` that `supported` lacks, in their order.
pub open spec fn missing_from(required: Seq<CapabilityView>, supported: Set<CapabilityView>) -> Seq<
    CapabilityView,
> {
    required.filter(|c: CapabilityView| !supported.contains(c))
}

/// The parameters in `required` that `supported` lacks, in their order.
pub open spec fn missing_parameters_from(required: Seq<Seq<char>>, supported: Set<CapabilityView>) -> Seq<
    Seq<char>,
> {
    required.filter(|p: Seq<char>| !supported.contains((Namespace::Param, p)))
}

/// The character views of owned capabilities.
pub open spec fn owned_views(caps: Seq<(Namespace, String)>) -> Seq<CapabilityView> {
    caps.map_values(|c: (Namespace, String)| (c.0, c.1@))
}

/// The character views of borrowed capabilities.
pub open spec fn borrowed_views(caps: Seq<(Namespace, &str)>) -> Seq<CapabilityView> {
    caps.map_values(|c: (Namespace, &str)| (c.0, c.1@))
}

/// The character views of borrowed names.
pub open spec fn str_views(names: Seq<&str>) -> Seq<Seq<char>> {
    names.map_values(|s: &str| s@)
}

/// The index of the last `:` in `s`, if any.
pub open spec fn last_colon(s: Seq<char>) -> Option<int>
    decreases s.len(),
{
    if s.len() == 0 {
        None
    } else if s.last() == ':' {
        Some(s.len() - 1)
    } else {
        last_colon(s.drop_last())
    }
}

/// The suffixes that name a dynamic variant, routed to the base model.
pub open spec fn is_dynamic_variant(suffix: Seq<char>) -> bool {
    ||| suffix == "exacto"@
    ||| suffix == "nitro"@
    ||| suffix == "floor"@
    ||| suffix == "online"@
}

/// The id under which a model id is looked up: a final `:variant` suffix is
/// dropped when it names a dynamic variant; any other id is kept as it is.
pub open spec fn lookup_id(model_id: Seq<char>) -> Seq<char> {
    match last_colon(model_id) {
        Some(p) => if is_dynamic_variant(model_id.skip(p + 1)) {
            model_id.take(p)
        } else {
            model_id
        },
        None => model_id,
    }
}

pub proof fn lemma_last_colon(s: Seq<char>)
    ensures
        match last_colon(s) {
            Some(p) => 0 <= p < s.len() && s[p] == ':' && forall|t: int|
                p < t < s.len() ==> s[t] != ':',
            None => forall|t: int| 0 <= t < s.len() ==> s[t] != ':',
        },
    decreases s.len(),
{
    if s.len() > 0 && s.last() != ':' {
        lemma_last_colon(s.drop_last());
        match last_colon(s.drop_last()) {
            Some(p) => {
                assert forall|t: int| p < t < s.len() implies s[t] != ':' by {
                    if t < s.len() - 1 {
                        assert(s.drop_last()[t] == s[t]);
                    }
                }
            },
            None => {
                assert forall|t: int| 0 <= t < s.len() implies s[t] != ':' by {
                    if t < s.len() - 1 {
                        assert(s.drop_last()[t] == s[t]);
                    }
                }
            },
        }
    }
}

/// The model id to look up for `model_id`: a trailing `:exacto`, `:nitro`,
/// `:floor` or `:online` selects a dynamic variant of the base model and is
/// dropped; anything else is kept.
pub fn normalize_model_id_for_lookup(model_id: &str) -> (lookup: &str)
    ensures
        lookup@ == lookup_id(model_id@),
        lookup@ == model_id@ || ({
            let variant = model_id@.skip(lookup@.len() as int + 1);
            &&& model_id@ == lookup@ + seq![':'] + variant
            &&& (variant == "exacto"@ || variant == "nitro"@ || variant == "floor"@ || variant
                == "online"@)
        }),
{
    proof {
        lemma_lookup_drops_only_dynamic_suffix(model_id@);
    }
    let chars = str_chars(model_id);
    let n = chars.len();
    let mut i = n;
    while i > 0 && chars[i - 1] != ':'
        invariant
            chars@ == model_id@,
            n == chars@.len(),
            i <= n,
            forall|t: int| i <= t < n ==> chars@[t] != ':',
        decreases i,
    {
        i = i - 1;
    }
    proof {
        lemma_last_colon(model_id@);
    }
    if i == 0 {
        proof {
            if let Some(p) = last_colon(model_id@) {
                assert(chars@[p] == ':');
            }
        }
        return model_id;
    }
    let colon = i - 1;
    proof {
        match last_colon(model_id@) {
            Some(p) => {
                if p < colon {
                    assert(chars@[colon as int] == ':');
                } else if p > colon {
                    assert(chars@[p] == ':');
                }
            },
            None => {
                assert(chars@[colon as int] == ':');
            },
        }
        assert(last_colon(model_id@) == Some(colon as int));
    }
    let suffix = model_id.substring_char(i, n);
    if str_eq(suffix, "exacto") || str_eq(suffix, "nitro") || str_eq(suffix, "floor") || str_eq(
        suffix,
        "online",
    ) {
        let base = model_id.substring_char(0, colon);
        assert(base@ =~= model_id@.take(colon as int));
        assert(suffix@ =~= model_id@.skip(i as int));
        base
    } else {
        assert(suffix@ =~= model_id@.skip(i as int));
        model_id
    }
}

/// A later record replaces what an earlier record with the same id said.
pub proof fn lemma_last_record_wins(records: Seq<ModelRecord>, record: ModelRecord)
    ensures
        records_index(records.push(record)) == records_index(records).insert(
            record.id@,
            record_capabilities(record),
        ),
{
    let pushed = records.push(record);
    assert(pushed.drop_last() =~= records);
    assert forall|id: Seq<char>|
        #![trigger last_record_capabilities(pushed, id)]
        last_record_capabilities(pushed, id) == if id == record.id@ {
            Some(record_capabilities(record))
        } else {
            last_record_capabilities(records, id)
        } by {}
    assert(records_index(pushed) =~= records_index(records).insert(
        record.id@,
        record_capabilities(record),
    ));
}

/// A dynamic variant of a model is looked up as the base model.
pub proof fn lemma_dynamic_variant_lookup(base: Seq<char>, variant: Seq<char>)
    requires
        variant == "exacto"@ || variant == "nitro"@ || variant == "floor"@ || variant == "online"@,
    ensures
        lookup_id(base + seq![':'] + variant) == base,
{
    reveal_strlit("exacto");
    reveal_strlit("nitro");
    reveal_strlit("floor");
    reveal_strlit("online");
    let id = base + seq![':'] + variant;
    let p = base.len() as int;
    assert(forall|t: int| 0 <= t < variant.len() ==> variant[t] != ':');
    assert(id[p] == ':');
    lemma_last_colon(id);
    match last_colon(id) {
        Some(q) => {
            if q > p {
                assert(id[q] == variant[q - p - 1]);
            } else if q < p {
                assert(id[p] != ':');
            }
        },
        None => {
            assert(id[p] != ':');
        },
    }
    assert(id.skip(p + 1) =~= variant);
    assert(id.take(p) =~= base);
}

/// Looking a model id up changes it only by dropping a final `:exacto`,
/// `:nitro`, `:floor` or `:online`: the id looked up is the id itself, or the
/// id is the id looked up followed by `:` and one of those four words. So an
/// id whose text after its last `:` is anything else, or that holds no `:`,
/// is looked up as it is.
pub proof fn lemma_lookup_drops_only_dynamic_suffix(model_id: Seq<char>)
    ensures
        lookup_id(model_id) == model_id || ({
            let base = lookup_id(model_id);
            let variant = model_id.skip(base.len() as int + 1);
            &&& model_id == base + seq![':'] + variant
            &&& (variant == "exacto"@ || variant == "nitro"@ || variant == "floor"@ || variant
                == "online"@)
        }),
{
    lemma_last_colon(model_id);
    if let Some(p) = last_colon(model_id) {
        if is_dynamic_variant(model_id.skip(p + 1)) {
            assert(model_id =~= model_id.take(p) + seq![':'] + model_id.skip(p + 1));
        }
    }
}

/// The missing capabilities are exactly the required ones that are not
/// supported; none is missing exactly when all are supported.
pub proof fn lemma_missing_from(required: Seq<CapabilityView>, supported: Set<CapabilityView>)
    ensures
        forall|c: CapabilityView|
            #[trigger] missing_from(required, supported).contains(c) <==> required.contains(c)
                && !supported.contains(c),
        missing_from(required, supported).len() == 0 <==> forall|i: int|
            0 <= i < required.len() ==> supported.contains(#[trigger] required[i]),
    decreases required.len(),
{
    reveal_with_fuel(Seq::<_>::filter, 1);
    if required.len() > 0 {
        let rest = required.drop_last();
        lemma_missing_from(rest, supported);
        let last = required.last();
        assert forall|c: CapabilityView|
            #[trigger] missing_from(required, supported).contains(c) <==> required.contains(c)
                && !supported.contains(c) by {
            lemma_push_contains(rest, last, c);
            lemma_push_contains(missing_from(rest, supported), last, c);
            assert(rest.push(last) =~= required);
        }
        if missing_from(required, supported).len() == 0 {
            assert forall|i: int| 0 <= i < required.len() implies supported.contains(
                #[trigger] required[i],
            ) by {
                assert(required.contains(required[i]));
                if !supported.contains(required[i]) {
                    assert(missing_from(required, supported).contains(required[i]));
                }
            }
        }
        if forall|i: int| 0 <= i < required.len() ==> supported.contains(#[trigger] required[i]) {
            assert(supported.contains(required[required.len() - 1]));
            assert forall|i: int| 0 <= i < rest.len() implies supported.contains(#[trigger] rest[i]) by {
                assert(rest[i] == required[i]);
            }
        }
    }
}

/// Missing parameters are the names of the missing `param` capabilities.
pub proof fn lemma_parameters_are_param_capabilities(
    required: Seq<Seq<char>>,
    supported: Set<CapabilityView>,
)
    ensures
        missing_parameters_from(required, supported) == missing_from(
            required.map_values(|p: Seq<char>| (Namespace::Param, p)),
            supported,
        ).map_values(|c: CapabilityView| c.1),
    decreases required.len(),
{
    reveal_with_fuel(Seq::<_>::filter, 1);
    let tagged = required.map_values(|p: Seq<char>| (Namespace::Param, p));
    if required.len() > 0 {
        lemma_parameters_are_param_capabilities(required.drop_last(), supported);
        assert(tagged.drop_last() =~= required.drop_last().map_values(
            |p: Seq<char>| (Namespace::Param, p),
        ));
        let m = missing_from(tagged.drop_last(), supported);
        assert(m.push(tagged.last()).map_values(|c: CapabilityView| c.1) =~= m.map_values(
            |c: CapabilityView| c.1,
        ).push(required.last()));
    } else {
        assert(missing_from(tagged, supported).map_values(|c: CapabilityView| c.1) =~= Seq::<
            Seq<char>,
        >::empty());
    }
}

/// One model of the index: its id and the capabilities it supports.
#[derive(Debug)]
struct ModelEntry {
    id: String,
    capabilities: Vec<(Namespace, String)>,
}

spec fn entry_capabilities(entry: ModelEntry) -> Set<CapabilityView> {
    owned_views(entry.capabilities@).to_set()
}

/// The capabilities of the first entry with the given id.
spec fn entry_lookup(entries: Seq<ModelEntry>, id: Seq<char>) -> Option<Set<CapabilityView>>
    decreases entries.len(),
{
    if entries.len() == 0 {
        None
    } else if entries[0].id@ == id {
        Some(entry_capabilities(entries[0]))
    } else {
        entry_lookup(entries.drop_first(), id)
    }
}

spec fn ids_distinct(entries: Seq<ModelEntry>) -> bool {
    forall|p: int, q: int|
        0 <= p < entries.len() && 0 <= q < entries.len() && p != q ==> #[trigger] entries[p].id@
            != #[trigger] entries[q].id@
}

proof fn lemma_entry_lookup(entries: Seq<ModelEntry>, id: Seq<char>)
    ensures
        entry_lookup(entries, id) is None <==> forall|t: int|
            0 <= t < entries.len() ==> #[trigger] entries[t].id@ != id,
        entry_lookup(entries, id) is Some ==> exists|t: int|
            0 <= t < entries.len() && #[trigger] entries[t].id@ == id && entry_lookup(entries, id)
                == Some(entry_capabilities(entries[t])),
    decreases entries.len(),
{
    if entries.len() > 0 {
        lemma_entry_lookup(entries.drop_first(), id);
        if entries[0].id@ != id {
            if entry_lookup(entries, id) is None {
                assert forall|t: int| 0 <= t < entries.len() implies #[trigger] entries[t].id@ != id by {
                    if t > 0 {
                        assert(entries.drop_first()[t - 1] == entries[t]);
                    }
                }
            } else {
                let t = choose|t: int|
                    0 <= t < entries.drop_first().len() && #[trigger] entries.drop_first()[t].id@
                        == id && entry_lookup(entries.drop_first(), id) == Some(
                        entry_capabilities(entries.drop_first()[t]),
                    );
                assert(entries[t + 1] == entries.drop_first()[t]);
            }
            if forall|t: int| 0 <= t < entries.len() ==> #[trigger] entries[t].id@ != id {
                assert forall|t: int|
                    0 <= t < entries.drop_first().len() implies #[trigger] entries.drop_first()[t].id@
                    != id by {
                    assert(entries.drop_first()[t] == entries[t + 1]);
                }
            }
        } else {
            assert(entries[0].id@ == id);
        }
    }
}

/// With distinct ids, each entry is what its id looks up.
proof fn lemma_entry_lookup_at(entries: Seq<ModelEntry>, t: int)
    requires
        ids_distinct(entries),
        0 <= t < entries.len(),
    ensures
        entry_lookup(entries, entries[t].id@) == Some(entry_capabilities(entries[t])),
    decreases entries.len(),
{
    if t > 0 {
        assert(entries[0].id@ != entries[t].id@);
        assert(entries.drop_first()[t - 1] == entries[t]);
        assert(ids_distinct(entries.drop_first())) by {
            assert forall|p: int, q: int|
                0 <= p < entries.drop_first().len() && 0 <= q < entries.drop_first().len() && p
                    != q implies #[trigger] entries.drop_first()[p].id@
                    != #[trigger] entries.drop_first()[q].id@ by {
                assert(entries.drop_first()[p] == entries[p + 1]);
                assert(entries.drop_first()[q] == entries[q + 1]);
            }
        }
        lemma_entry_lookup_at(entries.drop_first(), t - 1);
    }
}

/// Appending an entry with a new id only adds that id.
proof fn lemma_entry_lookup_push(entries: Seq<ModelEntry>, e: ModelEntry, id: Seq<char>)
    requires
        forall|t: int| 0 <= t < entries.len() ==> #[trigger] entries[t].id@ != e.id@,
    ensures
        entry_lookup(entries.push(e), id) == if id == e.id@ {
            Some(entry_capabilities(e))
        } else {
            entry_lookup(entries, id)
        },
    decreases entries.len(),
{
    if entries.len() == 0 {
        assert(entries.push(e).drop_first() =~= entries);
    } else {
        assert(entries.push(e).drop_first() =~= entries.drop_first().push(e));
        assert(entries[0].id@ != e.id@);
        assert forall|t: int| 0 <= t < entries.drop_first().len() implies #[trigger] entries.drop_first()[t].id@
            != e.id@ by {
            assert(entries.drop_first()[t] == entries[t + 1]);
        }
        lemma_entry_lookup_push(entries.drop_first(), e, id);
    }
}

/// Replacing the first entry with some id only changes that id.
proof fn lemma_entry_lookup_update(entries: Seq<ModelEntry>, k: int, e: ModelEntry, id: Seq<char>)
    requires
        0 <= k < entries.len(),
        entries[k].id@ == e.id@,
        forall|t: int| 0 <= t < k ==> #[trigger] entries[t].id@ != e.id@,
    ensures
        entry_lookup(entries.update(k, e), id) == if id == e.id@ {
            Some(entry_capabilities(e))
        } else {
            entry_lookup(entries, id)
        },
    decreases entries.len(),
{
    if k > 0 {
        assert(entries.update(k, e).drop_first() =~= entries.drop_first().update(k - 1, e));
        assert(entries[0].id@ != e.id@);
        assert forall|t: int| 0 <= t < k - 1 implies #[trigger] entries.drop_first()[t].id@ != e.id@ by {
            assert(entries.drop_first()[t] == entries[t + 1]);
        }
        lemma_entry_lookup_update(entries.drop_first(), k - 1, e, id);
    } else {
        assert(entries.update(k, e).drop_first() =~= entries.drop_first());
    }
}

/// The index of models: each model id maps to the set of capabilities that
/// model supports. The names known in each namespace are kept beside it.
#[derive(Debug)]
pub struct ModelIndex {
    entries: Vec<ModelEntry>,
    known_params: NameSet,
    known_inputs: NameSet,
    known_outputs: NameSet,
}

impl View for ModelIndex {
    type V = Map<Seq<char>, Set<CapabilityView>>;

    closed spec fn view(&self) -> Map<Seq<char>, Set<CapabilityView>> {
        Map::new(
            |id: Seq<char>| entry_lookup(self.entries@, id) is Some,
            |id: Seq<char>| entry_lookup(self.entries@, id)->0,
        )
    }
}

/// The names that some entry supports in a namespace.
spec fn entries_known(entries: Seq<ModelEntry>, namespace: Namespace) -> Set<Seq<char>> {
    Set::new(
        |name: Seq<char>|
            exists|t: int|
                0 <= t < entries.len() && #[trigger] entry_capabilities(entries[t]).contains(
                    (namespace, name),
                ),
    )
}

impl ModelIndex {
    #[verifier::type_invariant]
    closed spec fn well_formed(self) -> bool {
        &&& ids_distinct(self.entries@)
        &&& self.known_params@ == entries_known(self.entries@, Namespace::Param)
        &&& self.known_inputs@ == entries_known(self.entries@, Namespace::Input)
        &&& self.known_outputs@ == entries_known(self.entries@, Namespace::Output)
    }

    /// The known names of a namespace are those that some model supports.
    proof fn lemma_known(self, namespace: Namespace)
        requires
            ids_distinct(self.entries@),
        ensures
            entries_known(self.entries@, namespace) == known_in(self@, namespace),
    {
        let es = self.entries@;
        assert forall|name: Seq<char>|
            entries_known(es, namespace).contains(name) <==> known_in(self@, namespace).contains(
                name,
            ) by {
            if entries_known(es, namespace).contains(name) {
                let t = choose|t: int|
                    0 <= t < es.len() && #[trigger] entry_capabilities(es[t]).contains(
                        (namespace, name),
                    );
                lemma_entry_lookup_at(es, t);
                assert(self@.contains_key(es[t].id@));
                assert(self@[es[t].id@].contains((namespace, name)));
            }
            if known_in(self@, namespace).contains(name) {
                let id = choose|id: Seq<char>|
                    self@.contains_key(id) && #[trigger] self@[id].contains((namespace, name));
                lemma_entry_lookup(es, id);
                let t = choose|t: int|
                    0 <= t < es.len() && #[trigger] es[t].id@ == id && entry_lookup(es, id) == Some(
                        entry_capabilities(es[t]),
                    );
                assert(entry_capabilities(es[t]).contains((namespace, name)));
            }
        }
        assert(entries_known(es, namespace) =~= known_in(self@, namespace));
    }

    /// Builds the index from the records of the models data. A later record
    /// with the same id as an earlier one takes its place; an absent list
    /// counts as empty.
    pub fn from_records(records: Vec<ModelRecord>) -> (index: Self)
        ensures
            index@ == records_index(records@),
    {
        let mut entries: Vec<ModelEntry> = Vec::new();
        let n = records.len();
        let mut i: usize = 0;
        while i < n
            invariant
                n == records@.len(),
                i <= n,
                ids_distinct(entries@),
                forall|id: Seq<char>|
                    #![trigger entry_lookup(entries@, id)]
                    entry_lookup(entries@, id) == last_record_capabilities(
                        records@.take(i as int),
                        id,
                    ),
            decreases n - i,
        {
            let record = &records[i];
            let entry = ModelEntry { id: record.id.clone(), capabilities: record_entry(record) };
            let mut k: usize = 0;
            let mut found = false;
            while !found && k < entries.len()
                invariant
                    k <= entries@.len(),
                    found ==> k < entries@.len() && entries@[k as int].id@ == entry.id@,
                    entry.id@ == records@[i as int].id@,
                    forall|t: int| 0 <= t < k ==> #[trigger] entries@[t].id@ != entry.id@,
                decreases entries@.len() - k + if found { 0int } else { 1int },
            {
                if str_eq(entries[k].id.as_str(), entry.id.as_str()) {
                    found = true;
                } else {
                    k = k + 1;
                }
            }
            let ghost before = entries@;
            proof {
                let prefix = records@.take(i + 1);
                assert(prefix.drop_last() =~= records@.take(i as int));
                assert(prefix.last() == records@[i as int]);
            }
            if found {
                proof {
                    assert forall|id: Seq<char>|
                        #![trigger entry_lookup(before.update(k as int, entry), id)]
                        entry_lookup(before.update(k as int, entry), id)
                            == last_record_capabilities(records@.take(i + 1), id) by {
                        lemma_entry_lookup_update(before, k as int, entry, id);
                    }
                }
                entries.set(k, entry);
                proof {
                    assert forall|p: int, q: int|
                        0 <= p < entries@.len() && 0 <= q < entries@.len() && p
                            != q implies #[trigger] entries@[p].id@ != #[trigger] entries@[q].id@ by {
                        if p != k && q != k {
                            assert(before[p].id@ != before[q].id@);
                        } else if p == k {
                            assert(before[k as int].id@ != before[q].id@);
                        } else {
                            assert(before[k as int].id@ != before[p].id@);
                        }
                    }
                }
            } else {
                proof {
                    assert forall|id: Seq<char>|
                        #![trigger entry_lookup(before.push(entry), id)]
                        entry_lookup(before.push(entry), id) == last_record_capabilities(
                            records@.take(i + 1),
                            id,
                        ) by {
                        lemma_entry_lookup_push(before, entry, id);
                    }
                }
                entries.push(entry);
                proof {
                    assert forall|p: int, q: int|
                        0 <= p < entries@.len() && 0 <= q < entries@.len() && p
                            != q implies #[trigger] entries@[p].id@ != #[trigger] entries@[q].id@ by {
                        if p < before.len() && q < before.len() {
                            assert(before[p].id@ != before[q].id@);
                        }
                    }
                }
            }
            i = i + 1;
        }
        let known_params = collect_known(&entries, Namespace::Param);
        let known_inputs = collect_known(&entries, Namespace::Input);
        let known_outputs = collect_known(&entries, Namespace::Output);
        let index = ModelIndex { entries, known_params, known_inputs, known_outputs };
        proof {
            assert(records@.take(n as int) =~= records@);
            assert(index@ =~= records_index(records@));
        }
        index
    }
}

impl ModelIndex {
    /// The position of the entry with id `id`, if there is one.
    fn find(&self, id: &str) -> (position: Option<usize>)
        ensures
            match position {
                Some(t) => t < self.entries@.len() && self.entries@[t as int].id@ == id@
                    && self@.contains_key(id@) && self@[id@] == entry_capabilities(
                    self.entries@[t as int],
                ),
                None => !self@.contains_key(id@),
            },
    {
        proof {
            use_type_invariant(self);
            lemma_entry_lookup(self.entries@, id@);
        }
        let n = self.entries.len();
        let mut t: usize = 0;
        while t < n
            invariant
                n == self.entries@.len(),
                ids_distinct(self.entries@),
                t <= n,
                forall|u: int| 0 <= u < t ==> #[trigger] self.entries@[u].id@ != id@,
            decreases n - t,
        {
            if str_eq(self.entries[t].id.as_str(), id) {
                proof {
                    lemma_entry_lookup_at(self.entries@, t as int);
                }
                return Some(t);
            }
            t = t + 1;
        }
        None
    }

    /// The capabilities in `required` that the model `model_id` does not
    /// support, in the order given. A dynamic variant suffix of the id is
    /// dropped before the lookup.
    pub fn missing_capabilities(&self, model_id: &str, required: &[(Namespace, &str)]) -> (missing:
        Result<Vec<(Namespace, String)>, ModelLookupError>)
        ensures
            match missing {
                Ok(m) => self@.contains_key(lookup_id(model_id@)) && owned_views(m@) == missing_from(
                    borrowed_views(required@),
                    self@[lookup_id(model_id@)],
                ),
                Err(e) => !self@.contains_key(lookup_id(model_id@)) && e
                    == ModelLookupError::UnknownModel,
            },
    {
        let key = normalize_model_id_for_lookup(model_id);
        let position = match self.find(key) {
            Some(t) => t,
            None => return Err(ModelLookupError::UnknownModel),
        };
        let entry = &self.entries[position];
        let ghost supported = entry_capabilities(*entry);
        let ghost wanted = borrowed_views(required@);
        let mut missing: Vec<(Namespace, String)> = Vec::new();
        let n = required.len();
        let mut i: usize = 0;
        while i < n
            invariant
                n == required@.len(),
                wanted == borrowed_views(required@),
                supported == entry_capabilities(*entry),
                i <= n,
                owned_views(missing@) == missing_from(wanted.take(i as int), supported),
            decreases n - i,
        {
            let (namespace, name) = required[i];
            let supports = contains_capability(&entry.capabilities, namespace, name);
            let ghost before = owned_views(missing@);
            proof {
                reveal_with_fuel(Seq::<_>::filter, 1);
                assert(wanted.take(i + 1).drop_last() =~= wanted.take(i as int));
                assert(wanted.take(i + 1).last() == (namespace, name@));
            }
            if !supports {
                missing.push((namespace, name.to_owned()));
                assert(owned_views(missing@) =~= before.push((namespace, name@)));
            }
            i = i + 1;
        }
        proof {
            assert(wanted.take(n as int) =~= wanted);
        }
        Ok(missing)
    }

    /// The parameters in `required_parameters` that the model `model_id` does
    /// not support, in the order given.
    pub fn supports_parameters(&self, model_id: &str, required_parameters: &[&str]) -> (missing:
        Result<Vec<String>, ModelLookupError>)
        ensures
            match missing {
                Ok(m) => self@.contains_key(lookup_id(model_id@)) && string_views(m@)
                    == missing_parameters_from(
                    str_views(required_parameters@),
                    self@[lookup_id(model_id@)],
                ),
                Err(e) => !self@.contains_key(lookup_id(model_id@)) && e
                    == ModelLookupError::UnknownModel,
            },
    {
        let key = normalize_model_id_for_lookup(model_id);
        let position = match self.find(key) {
            Some(t) => t,
            None => return Err(ModelLookupError::UnknownModel),
        };
        let entry = &self.entries[position];
        let ghost supported = entry_capabilities(*entry);
        let ghost wanted = str_views(required_parameters@);
        let mut missing: Vec<String> = Vec::new();
        let n = required_parameters.len();
        let mut i: usize = 0;
        while i < n
            invariant
                n == required_parameters@.len(),
                wanted == str_views(required_parameters@),
                supported == entry_capabilities(*entry),
                i <= n,
                string_views(missing@) == missing_parameters_from(wanted.take(i as int), supported),
            decreases n - i,
        {
            let name = required_parameters[i];
            let supports = contains_capability(&entry.capabilities, Namespace::Param, name);
            let ghost before = string_views(missing@);
            proof {
                reveal_with_fuel(Seq::<_>::filter, 1);
                assert(wanted.take(i + 1).drop_last() =~= wanted.take(i as int));
                assert(wanted.take(i + 1).last() == name@);
            }
            if !supports {
                missing.push(name.to_owned());
                assert(string_views(missing@) =~= before.push(name@));
            }
            i = i + 1;
        }
        proof {
            assert(wanted.take(n as int) =~= wanted);
        }
        Ok(missing)
    }

    /// The names that some model of the index supports in `namespace`.
    pub fn known_names(&self, namespace: Namespace) -> (known: &NameSet)
        ensures
            known@ == known_in(self@, namespace),
    {
        proof {
            use_type_invariant(self);
            self.lemma_known(namespace);
        }
        match namespace {
            Namespace::Param => &self.known_params,
            Namespace::Input => &self.known_inputs,
            Namespace::Output => &self.known_outputs,
        }
    }
}

/// The models data as loaded: the index, or why it could not be built.
pub type LoadedModels = Result<ModelIndex, ModelLookupError>;

/// The known names of `namespace`, or the error that loading the models met.
pub open spec fn spec_known_capability_names(models: LoadedModels, namespace: Namespace) -> Result<
    Set<Seq<char>>,
    ModelLookupError,
> {
    match models {
        Ok(index) => Ok(known_in(index@, namespace)),
        Err(e) => Err(e),
    }
}

/// What looking up the missing capabilities of `model_id` gives.
pub open spec fn spec_missing_model_capabilities(
    models: LoadedModels,
    model_id: Seq<char>,
    required: Seq<CapabilityView>,
) -> Result<Seq<CapabilityView>, ModelLookupError> {
    match models {
        Ok(index) => if index@.contains_key(lookup_id(model_id)) {
            Ok(missing_from(required, index@[lookup_id(model_id)]))
        } else {
            Err(ModelLookupError::UnknownModel)
        },
        Err(e) => Err(e),
    }
}

/// What looking up the missing parameters of `model_id` gives.
pub open spec fn spec_missing_model_parameters(
    models: LoadedModels,
    model_id: Seq<char>,
    required: Seq<Seq<char>>,
) -> Result<Seq<Seq<char>>, ModelLookupError> {
    match models {
        Ok(index) => if index@.contains_key(lookup_id(model_id)) {
            Ok(missing_parameters_from(required, index@[lookup_id(model_id)]))
        } else {
            Err(ModelLookupError::UnknownModel)
        },
        Err(e) => Err(e),
    }
}

/// The character views of a result that holds owned capabilities.
pub open spec fn owned_result_views<E>(r: Result<Vec<(Namespace, String)>, E>) -> Result<
    Seq<CapabilityView>,
    E,
> {
    match r {
        Ok(v) => Ok(owned_views(v@)),
        Err(e) => Err(e),
    }
}

/// The known names of `namespace` in the loaded models.
pub fn known_capability_names(models: &LoadedModels, namespace: Namespace) -> (known: Result<
    &NameSet,
    ModelLookupError,
>)
    ensures
        match (known, spec_known_capability_names(*models, namespace)) {
            (Ok(names), Ok(expected)) => names@ == expected,
            (Err(e), Err(expected)) => e == expected,
            _ => false,
        },
{
    match models {
        Ok(index) => Ok(index.known_names(namespace)),
        Err(e) => Err(e.duplicate()),
    }
}

/// The capabilities in `required` that the model `model_id` of the loaded
/// models does not support, in the order given.
pub fn missing_model_capabilities(
    models: &LoadedModels,
    model_id: &str,
    required: &[(Namespace, &str)],
) -> (missing: Result<Vec<(Namespace, String)>, ModelLookupError>)
    ensures
        owned_result_views(missing) == spec_missing_model_capabilities(
            *models,
            model_id@,
            borrowed_views(required@),
        ),
{
    match models {
        Ok(index) => index.missing_capabilities(model_id, required),
        Err(e) => Err(e.duplicate()),
    }
}

/// The parameters in `required_parameters` that the model `model_id` of the
/// loaded models does not support, in the order given.
pub fn missing_model_parameters(
    models: &LoadedModels,
    model_id: &str,
    required_parameters: &[&str],
) -> (missing: Result<Vec<String>, ModelLookupError>)
    ensures
        match (missing, spec_missing_model_parameters(
            *models,
            model_id@,
            str_views(required_parameters@),
        )) {
            (Ok(m), Ok(expected)) => string_views(m@) == expected,
            (Err(e), Err(expected)) => e == expected,
            _ => false,
        },
{
    match models {
        Ok(index) => index.supports_parameters(model_id, required_parameters),
        Err(e) => Err(e.duplicate()),
    }
}

/// Whether the model `model_id` of the loaded models supports the parameter.
pub fn model_supports_parameter(
    models: &LoadedModels,
    model_id: &str,
    required_parameter: &str,
) -> (supports: Result<bool, ModelLookupError>)
    ensures
        match (supports, *models) {
            (Ok(b), Ok(index)) => index@.contains_key(lookup_id(model_id@)) && b == index@[lookup_id(
                model_id@,
            )].contains((Namespace::Param, required_parameter@)),
            (Err(e), Ok(index)) => !index@.contains_key(lookup_id(model_id@)) && e
                == ModelLookupError::UnknownModel,
            (Err(e), Err(expected)) => e == expected,
            _ => false,
        },
{
    let required = [required_parameter];
    let missing = missing_model_parameters(models, model_id, &required);
    proof {
        reveal_with_fuel(Seq::<_>::filter, 2);
        assert(str_views(required@) =~= seq![required_parameter@]);
        assert(seq![required_parameter@].drop_last() =~= Seq::<Seq<char>>::empty());
    }
    match missing {
        Ok(m) => Ok(m.len() == 0),
        Err(e) => Err(e),
    }
}

/// Owned copies of the capabilities, in the same order.
pub fn owned_capabilities(capabilities: &[(Namespace, &str)]) -> (owned: Vec<(Namespace, String)>)
    ensures
        owned_views(owned@) == borrowed_views(capabilities@),
{
    let mut owned: Vec<(Namespace, String)> = Vec::new();
    let n = capabilities.len();
    let mut i: usize = 0;
    while i < n
        invariant
            n == capabilities@.len(),
            i <= n,
            owned_views(owned@) == borrowed_views(capabilities@).take(i as int),
        decreases n - i,
    {
        let (namespace, name) = capabilities[i];
        let ghost before = owned@;
        let copy = name.to_owned();
        owned.push((namespace, copy));
        proof {
            assert(owned@ == before.push((namespace, copy)));
            assert(capabilities@[i as int] == (namespace, name));
            assert(owned_views(owned@) =~= owned_views(before).push((namespace, name@)));
            assert(borrowed_views(capabilities@).take(i + 1) =~= borrowed_views(capabilities@).take(
                i as int,
            ).push((namespace, name@)));
        }
        i = i + 1;
    }
    assert(borrowed_views(capabilities@).take(n as int) =~= borrowed_views(capabilities@));
    owned
}

/// Whether `(namespace, name)` is among the capabilities.
pub(crate) fn contains_capability(
    capabilities: &Vec<(Namespace, String)>,
    namespace: Namespace,
    name: &str,
) -> (found: bool)
    ensures
        found == owned_views(capabilities@).contains((namespace, name@)),
{
    let n = capabilities.len();
    let mut t: usize = 0;
    while t < n
        invariant
            n == capabilities@.len(),
            t <= n,
            forall|u: int|
                0 <= u < t ==> #[trigger] owned_views(capabilities@)[u] != (namespace, name@),
        decreases n - t,
    {
        if capabilities[t].0 == namespace && str_eq(capabilities[t].1.as_str(), name) {
            assert(owned_views(capabilities@)[t as int] == (namespace, name@));
            return true;
        }
        t = t + 1;
    }
    false
}

/// Borrowed views of owned capabilities, in the same order.
pub(crate) fn borrow_capabilities(capabilities: &Vec<(Namespace, String)>) -> (borrowed: Vec<
    (Namespace, &str),
>)
    ensures
        borrowed_views(borrowed@) == owned_views(capabilities@),
{
    let mut borrowed: Vec<(Namespace, &str)> = Vec::new();
    let n = capabilities.len();
    let mut i: usize = 0;
    while i < n
        invariant
            n == capabilities@.len(),
            i <= n,
            borrowed_views(borrowed@) == owned_views(capabilities@).take(i as int),
        decreases n - i,
    {
        let ghost before = borrowed@;
        let name = capabilities[i].1.as_str();
        borrowed.push((capabilities[i].0, name));
        proof {
            assert(borrowed@ == before.push((capabilities@[i as int].0, name)));
            assert(borrowed_views(borrowed@) =~= borrowed_views(before).push(
                (capabilities@[i as int].0, name@),
            ));
            assert(owned_views(capabilities@).take(i + 1) =~= owned_views(capabilities@).take(
                i as int,
            ).push((capabilities@[i as int].0, capabilities@[i as int].1@)));
        }
        i = i + 1;
    }
    assert(owned_views(capabilities@).take(n as int) =~= owned_views(capabilities@));
    borrowed
}

/// The capabilities that a record declares, as an entry holds them.
fn record_entry(record: &ModelRecord) -> (capabilities: Vec<(Namespace, String)>)
    ensures
        owned_views(capabilities@).to_set() == record_capabilities(*record),
{
    let mut capabilities: Vec<(Namespace, String)> = Vec::new();
    push_listed(&mut capabilities, Namespace::Param, &record.supported_parameters);
    push_listed(&mut capabilities, Namespace::Input, &record.input_modalities);
    push_listed(&mut capabilities, Namespace::Output, &record.output_modalities);
    proof {
        let caps = owned_views(capabilities@);
        assert forall|c: CapabilityView|
            caps.to_set().contains(c) <==> record_capabilities(*record).contains(c) by {
            assert(caps.to_set().contains(c) == caps.contains(c));
        }
        assert(caps.to_set() =~= record_capabilities(*record));
    }
    capabilities
}

/// Appends the names of `list`, tagged with `namespace`.
fn push_listed(
    capabilities: &mut Vec<(Namespace, String)>,
    namespace: Namespace,
    list: &Option<Vec<String>>,
)
    ensures
        forall|c: CapabilityView|
            #![trigger owned_views(final(capabilities)@).contains(c)]
            owned_views(final(capabilities)@).contains(c) <==> owned_views(
                old(capabilities)@,
            ).contains(c) || (c.0 == namespace && listed_names(*list).contains(c.1)),
{
    match list {
        Some(names) => {
            let n = names.len();
            let mut i: usize = 0;
            while i < n
                invariant
                    n == names@.len(),
                    i <= n,
                    forall|c: CapabilityView|
                        #![trigger owned_views(capabilities@).contains(c)]
                        owned_views(capabilities@).contains(c) <==> owned_views(
                            old(capabilities)@,
                        ).contains(c) || (c.0 == namespace && string_views(
                            names@.take(i as int),
                        ).contains(c.1)),
                decreases n - i,
            {
                let ghost before = owned_views(capabilities@);
                capabilities.push((namespace, names[i].clone()));
                proof {
                    let after = owned_views(capabilities@);
                    assert(after =~= before.push((namespace, names@[i as int]@)));
                    let taken = string_views(names@.take(i + 1));
                    assert(taken =~= string_views(names@.take(i as int)).push(names@[i as int]@));
                    assert forall|c: CapabilityView|
                        #![trigger owned_views(capabilities@).contains(c)]
                        owned_views(capabilities@).contains(c) <==> owned_views(
                            old(capabilities)@,
                        ).contains(c) || (c.0 == namespace && taken.contains(c.1)) by {
                        lemma_push_contains(before, (namespace, names@[i as int]@), c);
                        lemma_push_contains(
                            string_views(names@.take(i as int)),
                            names@[i as int]@,
                            c.1,
                        );
                    }
                }
                i = i + 1;
            }
            proof {
                assert(names@.take(n as int) =~= names@);
            }
        },
        None => {},
    }
}

/// The set of names that the entries support in `namespace`.
fn collect_known(entries: &Vec<ModelEntry>, namespace: Namespace) -> (known: NameSet)
    ensures
        known@ == entries_known(entries@, namespace),
{
    let mut known = NameSet::new();
    let n = entries.len();
    let mut t: usize = 0;
    while t < n
        invariant
            n == entries@.len(),
            t <= n,
            known@ == entries_known(entries@.take(t as int), namespace),
        decreases n - t,
    {
        let caps = &entries[t].capabilities;
        let m = caps.len();
        let mut j: usize = 0;
        while j < m
            invariant
                n == entries@.len(),
                t < n,
                *caps == entries@[t as int].capabilities,
                m == caps@.len(),
                j <= m,
                known@ == entries_known(entries@.take(t as int), namespace).union(
                    Set::new(
                        |name: Seq<char>|
                            owned_views(caps@.take(j as int)).contains((namespace, name)),
                    ),
                ),
            decreases m - j,
        {
            let ghost before = known@;
            if caps[j].0 == namespace {
                known.insert(caps[j].1.clone());
            }
            proof {
                let now = owned_views(caps@.take(j + 1));
                assert(now =~= owned_views(caps@.take(j as int)).push(
                    (caps@[j as int].0, caps@[j as int].1@),
                ));
                assert forall|name: Seq<char>|
                    #![trigger known@.contains(name)]
                    known@.contains(name) <==> entries_known(entries@.take(t as int), namespace).contains(name)
                        || now.contains((namespace, name)) by {
                    lemma_push_contains(
                        owned_views(caps@.take(j as int)),
                        (caps@[j as int].0, caps@[j as int].1@),
                        (namespace, name),
                    );
                }
                assert(known@ =~= entries_known(entries@.take(t as int), namespace).union(
                    Set::new(|name: Seq<char>| now.contains((namespace, name))),
                ));
            }
            j = j + 1;
        }
        proof {
            assert(caps@.take(m as int) =~= caps@);
            let es = entries@.take(t + 1);
            assert forall|name: Seq<char>|
                #![trigger known@.contains(name)]
                known@.contains(name) <==> entries_known(es, namespace).contains(name) by {
                if entries_known(es, namespace).contains(name) {
                    let u = choose|u: int|
                        0 <= u < es.len() && #[trigger] entry_capabilities(es[u]).contains(
                            (namespace, name),
                        );
                    if u < t {
                        assert(entries@.take(t as int)[u] == es[u]);
                        assert(entries_known(entries@.take(t as int), namespace).contains(name));
                    } else {
                        assert(owned_views(caps@).to_set().contains((namespace, name)));
                    }
                }
                if entries_known(entries@.take(t as int), namespace).contains(name) {
                    let u = choose|u: int|
                        0 <= u < t && #[trigger] entry_capabilities(entries@.take(t as int)[u]).contains(
                            (namespace, name),
                        );
                    assert(es[u] == entries@.take(t as int)[u]);
                }
                if owned_views(caps@).contains((namespace, name)) {
                    assert(es[t as int] == entries@[t as int]);
                    assert(entry_capabilities(es[t as int]).contains((namespace, name)));
                }
            }
            assert(known@ =~= entries_known(es, namespace));
        }
        t = t + 1;
    }
    proof {
        assert(entries@.take(n as int) =~= entries@);
    }
    known
}

} // verus!
