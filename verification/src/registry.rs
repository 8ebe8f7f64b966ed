//! Which configured LLM providers a registry sets up, with their models.

use vstd::prelude::*;
use std::collections::HashMap;
use std::path::PathBuf;
use crate::text::{chars_eq, chars_of, lit, lowercase, string_of, sviews, to_lowercase};

verus! {

/// A filesystem path (for the wire log).
#[verifier::external_type_specification]
#[verifier::external_body]
pub struct ExPathBuf(PathBuf);

/// A provider as listed to the user.
#[derive(Debug, Clone, PartialEq)]
pub struct ProviderInfo {
    pub name: String,
    pub provider_type: String,
    pub models: Vec<String>,
    pub default_model: String,
}

/// A configured provider.
#[derive(Debug, Clone)]
pub struct ProviderSpec {
    pub provider_type: String,
    pub name: String,
    pub api_key: String,
    pub model: String,
    pub models: Vec<String>,
    pub endpoint: Option<String>,
    pub metadata: HashMap<String, String>,
    pub category: Option<String>,
}

/// The providers to set up and how to log their traffic.
#[derive(Debug, Clone)]
pub struct ProviderRegistryConfig {
    pub providers: Vec<ProviderSpec>,
    pub verbose_logging: bool,
    pub wire_log_path: Option<PathBuf>,
}

/// The client implementation a provider type selects.
#[derive(Debug, Clone, Copy, PartialEq, Eq, Structural)]
pub enum ProviderKind {
    OpenAi,
    Anthropic,
}

/// A provider the registry sets up: which configured entry it comes from,
/// its client, and how it is listed.
#[derive(Debug, Clone, PartialEq)]
pub struct PlannedProvider {
    pub spec_index: usize,
    pub kind: ProviderKind,
    pub info: ProviderInfo,
}

/// Client for a lowercased provider type: `openai` and `openrouter` use the
/// OpenAI client, `anthropic` the Anthropic one; other types are skipped.
pub open spec fn kind_of(lowered: Seq<char>) -> Option<ProviderKind> {
    if lowered == "openai"@ || lowered == "openrouter"@ {
        Some(ProviderKind::OpenAi)
    } else if lowered == "anthropic"@ {
        Some(ProviderKind::Anthropic)
    } else {
        None
    }
}

pub fn provider_kind(lowered: &str) -> (r: Option<ProviderKind>)
    ensures
        r == kind_of(lowered@),
{
    let v = chars_of(lowered);
    if chars_eq(&v, &chars_of("openai")) || chars_eq(&v, &chars_of("openrouter")) {
        Some(ProviderKind::OpenAi)
    } else if chars_eq(&v, &chars_of("anthropic")) {
        Some(ProviderKind::Anthropic)
    } else {
        None
    }
}

/// Models of a configured provider: its list, or its single model when
/// the list is empty.
pub open spec fn model_list_of(s: ProviderSpec) -> Seq<Seq<char>> {
    if s.models@.len() == 0 {
        seq![s.model@]
    } else {
        sviews(s.models@)
    }
}

/// Default model: the configured one, or the first of the list when none
/// is configured.
pub open spec fn default_model_of(s: ProviderSpec) -> Seq<char> {
    if s.model@.len() == 0 {
        model_list_of(s)[0]
    } else {
        s.model@
    }
}

/// The entries a registry sets up from `specs`, in order: every spec whose
/// lowercased type selects a client.
pub open spec fn planned_from(specs: Seq<ProviderSpec>) -> Seq<(nat, ProviderKind, Seq<char>, Seq<char>, Seq<Seq<char>>, Seq<char>)>
    decreases specs.len(),
{
    if specs.len() == 0 {
        Seq::empty()
    } else {
        let acc = planned_from(specs.drop_last());
        let s = specs.last();
        let i = (specs.len() - 1) as nat;
        match kind_of(lowercase(s.provider_type@)) {
            Some(k) => acc.push(
                (i, k, s.name@, lowercase(s.provider_type@), model_list_of(s), default_model_of(s)),
            ),
            None => acc,
        }
    }
}

pub open spec fn planned_view(p: PlannedProvider) -> (nat, ProviderKind, Seq<char>, Seq<char>, Seq<Seq<char>>, Seq<char>) {
    (
        p.spec_index as nat,
        p.kind,
        p.info.name@,
        p.info.provider_type@,
        sviews(p.info.models@),
        p.info.default_model@,
    )
}

fn copy_strings(v: &Vec<String>) -> (r: Vec<String>)
    ensures
        sviews(r@) == sviews(v@),
{
    let mut out: Vec<String> = Vec::new();
    let mut i: usize = 0;
    while i < v.len()
        invariant
            i <= v.len(),
            sviews(out@) == sviews(v@).take(i as int),
        decreases v.len() - i,
    {
        let s = lit(v[i].as_str());
        let ghost before = sviews(out@);
        out.push(s);
        assert(sviews(out@) =~= before.push(s@));
        assert(sviews(v@).take(i + 1) =~= sviews(v@).take(i as int).push(v@[i as int]@));
        i = i + 1;
    }
    assert(sviews(v@).take(v.len() as int) =~= sviews(v@));
    out
}

/// The providers a registry sets up from `config`, in order; the first of
/// them is the default one.
pub fn plan_providers(config: &ProviderRegistryConfig) -> (r: Vec<PlannedProvider>)
    ensures
        r@.map_values(|p: PlannedProvider| planned_view(p)) == planned_from(config.providers@),
{
    let specs = &config.providers;
    let ghost all = specs@;
    let mut out: Vec<PlannedProvider> = Vec::new();
    let mut i: usize = 0;
    assert(all.take(0) =~= Seq::<ProviderSpec>::empty());
    assert(out@.map_values(|p: PlannedProvider| planned_view(p)) =~= Seq::<
        (nat, ProviderKind, Seq<char>, Seq<char>, Seq<Seq<char>>, Seq<char>),
    >::empty());
    while i < specs.len()
        invariant
            i <= specs.len(),
            all == specs@,
            out@.map_values(|p: PlannedProvider| planned_view(p)) == planned_from(all.take(i as int)),
        decreases specs.len() - i,
    {
        proof {
            assert(all.take(i + 1).drop_last() =~= all.take(i as int));
            assert(all.take(i + 1).last() == all[i as int]);
        }
        let s = &specs[i];
        let lowered = to_lowercase(s.provider_type.as_str());
        match provider_kind(lowered.as_str()) {
            Some(kind) => {
                let models = if s.models.len() == 0 {
                    let mut one: Vec<String> = Vec::new();
                    one.push(lit(s.model.as_str()));
                    assert(sviews(one@) =~= seq![s.model@]);
                    one
                } else {
                    copy_strings(&s.models)
                };
                assert(sviews(models@) == model_list_of(*s));
                assert(sviews(models@).len() == models@.len());
                assert(models@.len() > 0);
                let default_model = if chars_of(s.model.as_str()).len() == 0 {
                    lit(models[0].as_str())
                } else {
                    lit(s.model.as_str())
                };
                assert(default_model@ == default_model_of(*s)) by {
                    if s.model@.len() == 0 {
                        assert(sviews(models@)[0] == models@[0]@);
                    }
                }
                let p = PlannedProvider {
                    spec_index: i,
                    kind,
                    info: ProviderInfo {
                        name: lit(s.name.as_str()),
                        provider_type: lowered,
                        models,
                        default_model,
                    },
                };
                let ghost before = out@.map_values(|p: PlannedProvider| planned_view(p));
                out.push(p);
                assert(out@.map_values(|p: PlannedProvider| planned_view(p)) =~= before.push(
                    planned_view(p),
                ));
            },
            None => {},
        }
        i = i + 1;
    }
    assert(all.take(all.len() as int) =~= all);
    out
}

/// The position of the first planned provider named `name`.
pub open spec fn entry_named(ps: Seq<PlannedProvider>, name: Seq<char>) -> Option<int>
    decreases ps.len(),
{
    if ps.len() == 0 {
        None
    } else if ps[0].info.name@ == name {
        Some(0)
    } else {
        match entry_named(ps.drop_first(), name) {
            Some(i) => Some(i + 1),
            None => None,
        }
    }
}

proof fn lemma_entry_named(ps: Seq<PlannedProvider>, name: Seq<char>)
    ensures
        entry_named(ps, name) matches Some(i) ==> 0 <= i < ps.len() && ps[i].info.name@ == name,
    decreases ps.len(),
{
    if ps.len() > 0 && ps[0].info.name@ != name {
        lemma_entry_named(ps.drop_first(), name);
    }
}

/// The first planned provider named `name`, if any.
pub fn find_entry(ps: &Vec<PlannedProvider>, name: &str) -> (r: Option<usize>)
    ensures
        match r {
            Some(i) => entry_named(ps@, name@) == Some(i as int),
            None => entry_named(ps@, name@) is None,
        },
{
    let mut i: usize = 0;
    assert(ps@.skip(0) =~= ps@);
    while i < ps.len()
        invariant
            i <= ps@.len(),
            entry_named(ps@, name@) == match entry_named(ps@.skip(i as int), name@) {
                Some(j) => Some(j + i),
                None => None,
            },
        decreases ps.len() - i,
    {
        assert(ps@.skip(i as int).drop_first() =~= ps@.skip(i + 1));
        assert(ps@.skip(i as int)[0] == ps@[i as int]);
        if chars_eq(&chars_of(ps[i].info.name.as_str()), &chars_of(name)) {
            return Some(i);
        }
        i = i + 1;
    }
    assert(ps@.skip(i as int) =~= Seq::<PlannedProvider>::empty());
    None
}

/// The model a request runs on: the one it names, else the default model
/// of its provider, else the empty string when the provider is unknown.
pub open spec fn resolved_model(ps: Seq<PlannedProvider>, provider: Seq<char>, model: Seq<char>) -> Seq<char> {
    if model.len() > 0 {
        model
    } else {
        match entry_named(ps, provider) {
            Some(i) => ps[i].info.default_model@,
            None => Seq::empty(),
        }
    }
}

/// The model a request for `provider_name` runs on (see `resolved_model`).
pub fn resolve_model(ps: &Vec<PlannedProvider>, provider_name: &str, model: &str) -> (r: String)
    ensures
        r@ == resolved_model(ps@, provider_name@, model@),
{
    if chars_of(model).len() > 0 {
        return lit(model);
    }
    proof {
        lemma_entry_named(ps@, provider_name@);
    }
    match find_entry(ps, provider_name) {
        Some(i) => lit(ps[i].info.default_model.as_str()),
        None => string_of(Vec::<char>::new().as_slice()),
    }
}

/// The name of the default provider: the first one set up.
pub fn default_name(ps: &Vec<PlannedProvider>) -> (r: Option<String>)
    ensures
        match r {
            Some(n) => ps@.len() > 0 && n@ == ps@[0].info.name@,
            None => ps@.len() == 0,
        },
{
    if ps.len() == 0 {
        None
    } else {
        Some(lit(ps[0].info.name.as_str()))
    }
}


/// The registry lists exactly the accepted configured entries: an entry of
/// `specs` is listed (once, under its index) exactly when its lowercased
/// type selects a client, and the listed entries keep the configured order.
pub proof fn law_registry_lists_exactly_the_accepted_entries(specs: Seq<ProviderSpec>)
    ensures
        forall|j: int| 0 <= j < planned_from(specs).len() ==> (#[trigger] planned_from(specs)[j]).0 < specs.len(),
        forall|j: int, k: int|
            0 <= j < k < planned_from(specs).len() ==> (#[trigger] planned_from(specs)[j]).0
                < (#[trigger] planned_from(specs)[k]).0,
        forall|i: int|
            0 <= i < specs.len() ==> ((exists|j: int|
                0 <= j < planned_from(specs).len() && (#[trigger] planned_from(specs)[j]).0 == i) <==> kind_of(
                lowercase((#[trigger] specs[i]).provider_type@),
            ) is Some),
    decreases specs.len(),
{
    if specs.len() > 0 {
        let init = specs.drop_last();
        law_registry_lists_exactly_the_accepted_entries(init);
        let acc = planned_from(init);
        let p = planned_from(specs);
        let n = (specs.len() - 1) as nat;
        assert forall|i: int| 0 <= i < init.len() implies #[trigger] specs[i] == init[i] by {}
        match kind_of(lowercase(specs.last().provider_type@)) {
            Some(k) => {
                assert(p == acc.push((n, k, specs.last().name@, lowercase(specs.last().provider_type@), model_list_of(specs.last()), default_model_of(specs.last()))));
                assert forall|i: int| 0 <= i < specs.len() implies ((exists|j: int|
                    0 <= j < p.len() && (#[trigger] p[j]).0 == i) <==> kind_of(
                    lowercase((#[trigger] specs[i]).provider_type@),
                ) is Some) by {
                    if i < n {
                        assert(specs[i] == init[i]);
                        if exists|j: int| 0 <= j < p.len() && (#[trigger] p[j]).0 == i {
                            let j = choose|j: int| 0 <= j < p.len() && (#[trigger] p[j]).0 == i;
                            assert(j < acc.len());
                            assert(acc[j] == p[j]);
                        }
                        if exists|j: int| 0 <= j < acc.len() && (#[trigger] acc[j]).0 == i {
                            let j = choose|j: int| 0 <= j < acc.len() && (#[trigger] acc[j]).0 == i;
                            assert(p[j] == acc[j]);
                        }
                    } else {
                        assert(p[acc.len() as int].0 == i);
                    }
                }
            },
            None => {
                assert(p == acc);
                assert forall|i: int| 0 <= i < specs.len() implies ((exists|j: int|
                    0 <= j < p.len() && (#[trigger] p[j]).0 == i) <==> kind_of(
                    lowercase((#[trigger] specs[i]).provider_type@),
                ) is Some) by {
                    if i < n {
                        assert(specs[i] == init[i]);
                    }
                }
            },
        }
    }
}

} // verus!
