//! Skills and workflows: definitions merged from the built-in, user and
//! project sources (a later source replaces an earlier definition with the
//! same id), and the tokens they are stored as.

use vstd::prelude::*;
use crate::text::{chars_eq, chars_of, lit};
use crate::types::NewTokenSpec;

verus! {

/// A skill, as defined in a `.toml` file.
#[derive(Debug, Clone, PartialEq)]
pub struct SkillDef {
    pub id: String,
    pub short_desc: String,
    pub full_desc: String,
}

/// A workflow, as defined in a `.toml` file.
#[derive(Debug, Clone, PartialEq)]
pub struct WorkflowDef {
    pub id: String,
    pub short_desc: String,
    pub full_desc: String,
}

/// A definition as `(id, short_desc, full_desc)`.
pub type Def = (Seq<char>, Seq<char>, Seq<char>);

/// Position of the entry with id `id`.
pub open spec fn index_of_id(acc: Seq<Def>, id: Seq<char>) -> Option<int>
    decreases acc.len(),
{
    if acc.len() == 0 {
        None
    } else if acc.last().0 == id {
        Some(acc.len() - 1)
    } else {
        index_of_id(acc.drop_last(), id)
    }
}

/// Definitions merged in order: a definition replaces the earlier one with
/// the same id (keeping its place), otherwise it is appended.
pub open spec fn merged_defs(defs: Seq<Def>) -> Seq<Def>
    decreases defs.len(),
{
    if defs.len() == 0 {
        Seq::empty()
    } else {
        let acc = merged_defs(defs.drop_last());
        let d = defs.last();
        match index_of_id(acc, d.0) {
            Some(i) => acc.update(i, d),
            None => acc.push(d),
        }
    }
}

pub open spec fn skill_view(s: SkillDef) -> Def {
    (s.id@, s.short_desc@, s.full_desc@)
}

pub open spec fn workflow_view(w: WorkflowDef) -> Def {
    (w.id@, w.short_desc@, w.full_desc@)
}

type DefStrings = (String, String, String);

spec fn dviews(v: Seq<DefStrings>) -> Seq<Def> {
    v.map_values(|d: DefStrings| (d.0@, d.1@, d.2@))
}

fn find_id(acc: &Vec<DefStrings>, id: &Vec<char>) -> (r: Option<usize>)
    ensures
        match r {
            Some(i) => index_of_id(dviews(acc@), id@) == Some(i as int),
            None => index_of_id(dviews(acc@), id@) is None,
        },
{
    let ghost all = dviews(acc@);
    let mut k = acc.len();
    assert(all.take(k as int) =~= all);
    while k > 0
        invariant
            k <= acc.len(),
            all == dviews(acc@),
            index_of_id(all, id@) == index_of_id(all.take(k as int), id@),
        decreases k,
    {
        assert(all.take(k as int).last() == all[k - 1]);
        assert(all.take(k as int).drop_last() =~= all.take(k - 1));
        if chars_eq(&chars_of(acc[k - 1].0.as_str()), id) {
            return Some(k - 1);
        }
        k = k - 1;
    }
    None
}

proof fn lemma_index_in_range(acc: Seq<Def>, id: Seq<char>)
    ensures
        index_of_id(acc, id) matches Some(i) ==> 0 <= i < acc.len() && acc[i].0 == id,
    decreases acc.len(),
{
    if acc.len() > 0 && acc.last().0 != id {
        lemma_index_in_range(acc.drop_last(), id);
    }
}

fn merge_strings(defs: &Vec<DefStrings>) -> (r: Vec<DefStrings>)
    ensures
        dviews(r@) == merged_defs(dviews(defs@)),
{
    let ghost all = dviews(defs@);
    let mut acc: Vec<DefStrings> = Vec::new();
    let mut i: usize = 0;
    assert(all.take(0) =~= Seq::<Def>::empty());
    assert(dviews(acc@) =~= Seq::<Def>::empty());
    while i < defs.len()
        invariant
            i <= defs.len(),
            all == dviews(defs@),
            dviews(acc@) == merged_defs(all.take(i as int)),
        decreases defs.len() - i,
    {
        proof {
            assert(all.take(i + 1).drop_last() =~= all.take(i as int));
            assert(all.take(i + 1).last() == all[i as int]);
        }
        let d = (lit(defs[i].0.as_str()), lit(defs[i].1.as_str()), lit(defs[i].2.as_str()));
        let ghost before = dviews(acc@);
        match find_id(&acc, &chars_of(defs[i].0.as_str())) {
            Some(k) => {
                proof {
                    lemma_index_in_range(before, all[i as int].0);
                }
                acc.set(k, d);
                assert(dviews(acc@) =~= before.update(k as int, (d.0@, d.1@, d.2@)));
            },
            None => {
                acc.push(d);
                assert(dviews(acc@) =~= before.push((d.0@, d.1@, d.2@)));
            },
        }
        i = i + 1;
    }
    assert(all.take(all.len() as int) =~= all);
    acc
}

fn append_defs(all: &mut Vec<DefStrings>, more: &Vec<DefStrings>)
    ensures
        dviews(final(all)@) == dviews(old(all)@) + dviews(more@),
{
    let ghost start = dviews(all@);
    let mut k: usize = 0;
    while k < more.len()
        invariant
            k <= more.len(),
            dviews(all@) == start + dviews(more@).take(k as int),
        decreases more.len() - k,
    {
        let d = (lit(more[k].0.as_str()), lit(more[k].1.as_str()), lit(more[k].2.as_str()));
        let ghost b = dviews(all@);
        all.push(d);
        assert(dviews(all@) =~= b.push((d.0@, d.1@, d.2@)));
        assert(start + dviews(more@).take(k + 1) =~= (start + dviews(more@).take(k as int)).push(
            dviews(more@)[k as int],
        ));
        k = k + 1;
    }
    assert(dviews(more@).take(more.len() as int) =~= dviews(more@));
}

fn skill_strings(v: &Vec<SkillDef>) -> (r: Vec<DefStrings>)
    ensures
        dviews(r@) == v@.map_values(|s: SkillDef| skill_view(s)),
{
    let mut out: Vec<DefStrings> = Vec::new();
    let mut i: usize = 0;
    while i < v.len()
        invariant
            i <= v.len(),
            dviews(out@) == v@.map_values(|s: SkillDef| skill_view(s)).take(i as int),
        decreases v.len() - i,
    {
        let d = (lit(v[i].id.as_str()), lit(v[i].short_desc.as_str()), lit(v[i].full_desc.as_str()));
        let ghost b = dviews(out@);
        out.push(d);
        assert(dviews(out@) =~= b.push((d.0@, d.1@, d.2@)));
        assert(v@.map_values(|s: SkillDef| skill_view(s)).take(i + 1) =~= v@.map_values(
            |s: SkillDef| skill_view(s),
        ).take(i as int).push(skill_view(v@[i as int])));
        i = i + 1;
    }
    assert(v@.map_values(|s: SkillDef| skill_view(s)).take(v.len() as int) =~= v@.map_values(
        |s: SkillDef| skill_view(s),
    ));
    out
}

fn workflow_strings(v: &Vec<WorkflowDef>) -> (r: Vec<DefStrings>)
    ensures
        dviews(r@) == v@.map_values(|w: WorkflowDef| workflow_view(w)),
{
    let mut out: Vec<DefStrings> = Vec::new();
    let mut i: usize = 0;
    while i < v.len()
        invariant
            i <= v.len(),
            dviews(out@) == v@.map_values(|w: WorkflowDef| workflow_view(w)).take(i as int),
        decreases v.len() - i,
    {
        let d = (lit(v[i].id.as_str()), lit(v[i].short_desc.as_str()), lit(v[i].full_desc.as_str()));
        let ghost b = dviews(out@);
        out.push(d);
        assert(dviews(out@) =~= b.push((d.0@, d.1@, d.2@)));
        assert(v@.map_values(|w: WorkflowDef| workflow_view(w)).take(i + 1) =~= v@.map_values(
            |w: WorkflowDef| workflow_view(w),
        ).take(i as int).push(workflow_view(v@[i as int])));
        i = i + 1;
    }
    assert(v@.map_values(|w: WorkflowDef| workflow_view(w)).take(v.len() as int) =~= v@.map_values(
        |w: WorkflowDef| workflow_view(w),
    ));
    out
}

/// Skills from the built-in, user and project sources, merged by id (a
/// later source wins).
pub fn merge_skills(builtin: &Vec<SkillDef>, user: &Vec<SkillDef>, project: &Vec<SkillDef>) -> (r:
    Vec<SkillDef>)
    ensures
        r@.map_values(|s: SkillDef| skill_view(s)) == merged_defs(
            builtin@.map_values(|s: SkillDef| skill_view(s)) + user@.map_values(
                |s: SkillDef| skill_view(s),
            ) + project@.map_values(|s: SkillDef| skill_view(s)),
        ),
{
    let mut all = skill_strings(builtin);
    append_defs(&mut all, &skill_strings(user));
    append_defs(&mut all, &skill_strings(project));
    let merged = merge_strings(&all);
    let mut out: Vec<SkillDef> = Vec::new();
    let mut i: usize = 0;
    while i < merged.len()
        invariant
            i <= merged.len(),
            out@.map_values(|s: SkillDef| skill_view(s)) == dviews(merged@).take(i as int),
        decreases merged.len() - i,
    {
        let s = SkillDef {
            id: lit(merged[i].0.as_str()),
            short_desc: lit(merged[i].1.as_str()),
            full_desc: lit(merged[i].2.as_str()),
        };
        let ghost b = out@.map_values(|s: SkillDef| skill_view(s));
        out.push(s);
        assert(out@.map_values(|s: SkillDef| skill_view(s)) =~= b.push(skill_view(s)));
        assert(dviews(merged@).take(i + 1) =~= dviews(merged@).take(i as int).push(
            dviews(merged@)[i as int],
        ));
        i = i + 1;
    }
    assert(dviews(merged@).take(merged.len() as int) =~= dviews(merged@));
    out
}

/// Workflows from the built-in, user and project sources, merged by id (a
/// later source wins).
pub fn merge_workflows(builtin: &Vec<WorkflowDef>, user: &Vec<WorkflowDef>, project: &Vec<WorkflowDef>) -> (r:
    Vec<WorkflowDef>)
    ensures
        r@.map_values(|w: WorkflowDef| workflow_view(w)) == merged_defs(
            builtin@.map_values(|w: WorkflowDef| workflow_view(w)) + user@.map_values(
                |w: WorkflowDef| workflow_view(w),
            ) + project@.map_values(|w: WorkflowDef| workflow_view(w)),
        ),
{
    let mut all = workflow_strings(builtin);
    append_defs(&mut all, &workflow_strings(user));
    append_defs(&mut all, &workflow_strings(project));
    let merged = merge_strings(&all);
    let mut out: Vec<WorkflowDef> = Vec::new();
    let mut i: usize = 0;
    while i < merged.len()
        invariant
            i <= merged.len(),
            out@.map_values(|w: WorkflowDef| workflow_view(w)) == dviews(merged@).take(i as int),
        decreases merged.len() - i,
    {
        let w = WorkflowDef {
            id: lit(merged[i].0.as_str()),
            short_desc: lit(merged[i].1.as_str()),
            full_desc: lit(merged[i].2.as_str()),
        };
        let ghost b = out@.map_values(|w: WorkflowDef| workflow_view(w));
        out.push(w);
        assert(out@.map_values(|w: WorkflowDef| workflow_view(w)) =~= b.push(workflow_view(w)));
        assert(dviews(merged@).take(i + 1) =~= dviews(merged@).take(i as int).push(
            dviews(merged@)[i as int],
        ));
        i = i + 1;
    }
    assert(dviews(merged@).take(merged.len() as int) =~= dviews(merged@));
    out
}

/// After a merge every id occurs once, and each entry is the last
/// definition given for its id.
pub proof fn law_merge_later_source_wins(defs: Seq<Def>)
    ensures
        forall|i: int, j: int|
            0 <= i < j < merged_defs(defs).len() ==> (#[trigger] merged_defs(defs)[i]).0 != (
            #[trigger] merged_defs(defs)[j]).0,
        forall|k: int|
            0 <= k < defs.len() ==> index_of_id(merged_defs(defs), (#[trigger] defs[k]).0) is Some,
        forall|i: int|
            0 <= i < merged_defs(defs).len() ==> last_def(defs, (#[trigger] merged_defs(defs)[i]).0)
                == Some(merged_defs(defs)[i]),
    decreases defs.len(),
{
    if defs.len() > 0 {
        let prev = defs.drop_last();
        law_merge_later_source_wins(prev);
        let acc = merged_defs(prev);
        let d = defs.last();
        lemma_index_in_range(acc, d.0);
        lemma_index_none(acc, d.0);
        let m = merged_defs(defs);
        assert forall|k: int| 0 <= k < defs.len() implies index_of_id(m, (#[trigger] defs[k]).0) is Some by {
            if k < defs.len() - 1 {
                assert(defs[k] == prev[k]);
                let p = index_of_id(acc, prev[k].0)->0;
                lemma_index_in_range(acc, prev[k].0);
                assert(m[p].0 == defs[k].0);
                lemma_index_found(m, defs[k].0, p);
            } else {
                lemma_index_in_range(m, d.0);
                match index_of_id(acc, d.0) {
                    Some(i) => {
                        assert(m[i].0 == d.0);
                        lemma_index_found(m, d.0, i);
                    },
                    None => {
                        assert(m[m.len() - 1].0 == d.0);
                        lemma_index_found(m, d.0, m.len() - 1);
                    },
                }
            }
        }
        assert forall|i: int| 0 <= i < m.len() implies last_def(defs, (#[trigger] m[i]).0) == Some(m[i]) by {
            if m[i].0 == d.0 {
                assert(last_def(defs, d.0) == Some(d));
                match index_of_id(acc, d.0) {
                    Some(p) => {
                        if i != p {
                            assert(acc[i].0 == acc[p].0);
                        }
                    },
                    None => {
                        if i < acc.len() {
                            assert(acc[i].0 == d.0);
                        }
                    },
                }
            } else {
                assert(last_def(defs, m[i].0) == last_def(prev, m[i].0));
                assert(m[i] == acc[i]);
            }
        }
    }
}

/// The last definition in `defs` with id `id`.
pub open spec fn last_def(defs: Seq<Def>, id: Seq<char>) -> Option<Def>
    decreases defs.len(),
{
    if defs.len() == 0 {
        None
    } else if defs.last().0 == id {
        Some(defs.last())
    } else {
        last_def(defs.drop_last(), id)
    }
}

proof fn lemma_index_none(acc: Seq<Def>, id: Seq<char>)
    ensures
        index_of_id(acc, id) is None ==> forall|i: int| 0 <= i < acc.len() ==> (#[trigger] acc[i]).0 != id,
    decreases acc.len(),
{
    if acc.len() > 0 && acc.last().0 != id {
        lemma_index_none(acc.drop_last(), id);
        assert forall|i: int| 0 <= i < acc.len() - 1 implies acc[i] == acc.drop_last()[i] by {}
    }
}

proof fn lemma_index_found(acc: Seq<Def>, id: Seq<char>, p: int)
    requires
        0 <= p < acc.len(),
        acc[p].0 == id,
    ensures
        index_of_id(acc, id) is Some,
    decreases acc.len(),
{
    if acc.last().0 != id {
        assert(p < acc.len() - 1);
        assert(acc.drop_last()[p] == acc[p]);
        lemma_index_found(acc.drop_last(), id, p);
    }
}

/// The token a skill is stored as: type `skill`, its full text as full
/// description.
pub fn skill_token(sk: &SkillDef) -> (r: NewTokenSpec)
    ensures
        r.id@ == sk.id@,
        r.token_type@ == "skill"@,
        r.short_desc@ == sk.short_desc@,
        r.full_desc matches Some(f) && f@ == sk.full_desc@,
        r.endpoint is None,
        r.ranges@.len() == 0,
{
    NewTokenSpec {
        id: lit(sk.id.as_str()),
        token_type: lit("skill"),
        short_desc: lit(sk.short_desc.as_str()),
        full_desc: Some(lit(sk.full_desc.as_str())),
        endpoint: None,
        ranges: Vec::new(),
    }
}

/// The token a workflow is stored as: type `workflow`, its full text as
/// full description.
pub fn workflow_token(wf: &WorkflowDef) -> (r: NewTokenSpec)
    ensures
        r.id@ == wf.id@,
        r.token_type@ == "workflow"@,
        r.short_desc@ == wf.short_desc@,
        r.full_desc matches Some(f) && f@ == wf.full_desc@,
        r.endpoint is None,
        r.ranges@.len() == 0,
{
    NewTokenSpec {
        id: lit(wf.id.as_str()),
        token_type: lit("workflow"),
        short_desc: lit(wf.short_desc.as_str()),
        full_desc: Some(lit(wf.full_desc.as_str())),
        endpoint: None,
        ranges: Vec::new(),
    }
}


/// The ids of the built-in skills, in the order they are loaded.
pub open spec fn builtin_skill_id_list() -> Seq<Seq<char>> {
    seq!["SK_CreateSkill"@, "SK_CreateWorkflow"@]
}

/// The ids of the built-in skills, in the order they are loaded.
pub fn builtin_skill_ids() -> (r: Vec<String>)
    ensures
        crate::text::sviews(r@) == builtin_skill_id_list(),
{
    let r = vec![lit("SK_CreateSkill"), lit("SK_CreateWorkflow")];
    proof {
        reveal_strlit("SK_CreateSkill");
        reveal_strlit("SK_CreateWorkflow");
    }
    assert(crate::text::sviews(r@) =~= builtin_skill_id_list());
    r
}

/// Why the built-in skill file `id` parsed as `p` cannot be loaded, if it
/// cannot: it did not parse, or it defines another id.
pub open spec fn skill_problem(id: Seq<char>, p: Result<SkillDef, String>) -> Option<Seq<char>> {
    match p {
        Err(e) => Some("squire_skills: invalid built-in skill "@ + id + ": "@ + e@),
        Ok(d) => if d.id@ == id {
            None
        } else {
            Some("squire_skills: built-in skill id mismatch: file has '"@ + d.id@ + "', expected '"@ + id + "'"@)
        },
    }
}

/// Checks the parsed built-in skill files, listed in the order of
/// `builtin_skill_ids`: every file must have parsed and define the id it is
/// listed under. Returns the definitions in order, or the problem with the
/// first file that fails.
pub fn load_builtin_skills(parsed: &Vec<Result<SkillDef, String>>) -> (r: Result<Vec<SkillDef>, String>)
    requires
        parsed@.len() == builtin_skill_id_list().len(),
    ensures
        r is Ok <==> forall|i: int| 0 <= i < parsed@.len() ==> #[trigger] skill_problem(builtin_skill_id_list()[i], parsed@[i]) is None,
        r matches Ok(v) ==> v@.len() == parsed@.len() && forall|i: int| 0 <= i < v@.len()
            ==> skill_view(#[trigger] v@[i]) == skill_view(parsed@[i]->Ok_0),
        r matches Err(m) ==> exists|k: int| {
            &&& 0 <= k < parsed@.len()
            &&& forall|i: int| 0 <= i < k ==> #[trigger] skill_problem(builtin_skill_id_list()[i], parsed@[i]) is None
            &&& skill_problem(builtin_skill_id_list()[k], parsed@[k]) == Some(m@)
        },
{
    let ids = builtin_skill_ids();
    let ghost idl = builtin_skill_id_list();
    let mut out: Vec<SkillDef> = Vec::new();
    let mut i: usize = 0;
    while i < parsed.len()
        invariant
            crate::text::sviews(ids@) == idl,
            idl == builtin_skill_id_list(),
            parsed@.len() == idl.len(),
            i <= parsed@.len(),
            out@.len() == i,
            forall|j: int| 0 <= j < i ==> #[trigger] skill_problem(idl[j], parsed@[j]) is None,
            forall|j: int| 0 <= j < i ==> skill_view(#[trigger] out@[j]) == skill_view(parsed@[j]->Ok_0),
        decreases parsed.len() - i,
    {
        assert(ids@[i as int]@ == idl[i as int]);
        match &parsed[i] {
            Err(e) => {
                let mut v = chars_of("squire_skills: invalid built-in skill ");
                crate::text::push_all(&mut v, &chars_of(ids[i].as_str()));
                crate::text::push_all(&mut v, &chars_of(": "));
                crate::text::push_all(&mut v, &chars_of(e.as_str()));
                let msg = crate::text::string_of(v.as_slice());
                proof {
                    assert(skill_problem(idl[i as int], parsed@[i as int]) == Some(msg@));
                    assert(!(skill_problem(idl[i as int], parsed@[i as int]) is None));
                }
                return Err(msg);
            },
            Ok(d) => {
                if !chars_eq(&chars_of(d.id.as_str()), &chars_of(ids[i].as_str())) {
                    let mut v = chars_of("squire_skills: built-in skill id mismatch: file has '");
                    crate::text::push_all(&mut v, &chars_of(d.id.as_str()));
                    crate::text::push_all(&mut v, &chars_of("', expected '"));
                    crate::text::push_all(&mut v, &chars_of(ids[i].as_str()));
                    crate::text::push_all(&mut v, &chars_of("'"));
                    let msg = crate::text::string_of(v.as_slice());
                    proof {
                        assert(skill_problem(idl[i as int], parsed@[i as int]) == Some(msg@));
                        assert(!(skill_problem(idl[i as int], parsed@[i as int]) is None));
                    }
                    return Err(msg);
                }
                out.push(SkillDef { id: lit(d.id.as_str()), short_desc: lit(d.short_desc.as_str()), full_desc: lit(d.full_desc.as_str()) });
            },
        }
        i = i + 1;
    }
    Ok(out)
}

/// The ids of the built-in workflows, in the order they are loaded.
pub open spec fn builtin_workflow_id_list() -> Seq<Seq<char>> {
    seq!["WF_SimpleQA"@, "WF_FriendlyChat"@, "WF_WaterfallDesign"@, "WF_InteractiveDiscovery"@, "WF_TaskExecution"@, "WF_Debugging"@, "WF_DecisionTree"@, "WF_UseSubagent"@, "WF_DebugTesting"@]
}

/// The ids of the built-in workflows, in the order they are loaded.
pub fn builtin_workflow_ids() -> (r: Vec<String>)
    ensures
        crate::text::sviews(r@) == builtin_workflow_id_list(),
{
    let r = vec![lit("WF_SimpleQA"), lit("WF_FriendlyChat"), lit("WF_WaterfallDesign"), lit("WF_InteractiveDiscovery"), lit("WF_TaskExecution"), lit("WF_Debugging"), lit("WF_DecisionTree"), lit("WF_UseSubagent"), lit("WF_DebugTesting")];
    proof {
        reveal_strlit("WF_SimpleQA");
        reveal_strlit("WF_FriendlyChat");
        reveal_strlit("WF_WaterfallDesign");
        reveal_strlit("WF_InteractiveDiscovery");
        reveal_strlit("WF_TaskExecution");
        reveal_strlit("WF_Debugging");
        reveal_strlit("WF_DecisionTree");
        reveal_strlit("WF_UseSubagent");
        reveal_strlit("WF_DebugTesting");
    }
    assert(crate::text::sviews(r@) =~= builtin_workflow_id_list());
    r
}

/// Why the built-in workflow file `id` parsed as `p` cannot be loaded, if it
/// cannot: it did not parse, or it defines another id.
pub open spec fn workflow_problem(id: Seq<char>, p: Result<WorkflowDef, String>) -> Option<Seq<char>> {
    match p {
        Err(e) => Some("squire_workflows: invalid built-in workflow "@ + id + ": "@ + e@),
        Ok(d) => if d.id@ == id {
            None
        } else {
            Some("squire_workflows: built-in workflow id mismatch: file has '"@ + d.id@ + "', expected '"@ + id + "'"@)
        },
    }
}

/// Checks the parsed built-in workflow files, listed in the order of
/// `builtin_workflow_ids`: every file must have parsed and define the id it is
/// listed under. Returns the definitions in order, or the problem with the
/// first file that fails.
pub fn load_builtin_workflows(parsed: &Vec<Result<WorkflowDef, String>>) -> (r: Result<Vec<WorkflowDef>, String>)
    requires
        parsed@.len() == builtin_workflow_id_list().len(),
    ensures
        r is Ok <==> forall|i: int| 0 <= i < parsed@.len() ==> #[trigger] workflow_problem(builtin_workflow_id_list()[i], parsed@[i]) is None,
        r matches Ok(v) ==> v@.len() == parsed@.len() && forall|i: int| 0 <= i < v@.len()
            ==> workflow_view(#[trigger] v@[i]) == workflow_view(parsed@[i]->Ok_0),
        r matches Err(m) ==> exists|k: int| {
            &&& 0 <= k < parsed@.len()
            &&& forall|i: int| 0 <= i < k ==> #[trigger] workflow_problem(builtin_workflow_id_list()[i], parsed@[i]) is None
            &&& workflow_problem(builtin_workflow_id_list()[k], parsed@[k]) == Some(m@)
        },
{
    let ids = builtin_workflow_ids();
    let ghost idl = builtin_workflow_id_list();
    let mut out: Vec<WorkflowDef> = Vec::new();
    let mut i: usize = 0;
    while i < parsed.len()
        invariant
            crate::text::sviews(ids@) == idl,
            idl == builtin_workflow_id_list(),
            parsed@.len() == idl.len(),
            i <= parsed@.len(),
            out@.len() == i,
            forall|j: int| 0 <= j < i ==> #[trigger] workflow_problem(idl[j], parsed@[j]) is None,
            forall|j: int| 0 <= j < i ==> workflow_view(#[trigger] out@[j]) == workflow_view(parsed@[j]->Ok_0),
        decreases parsed.len() - i,
    {
        assert(ids@[i as int]@ == idl[i as int]);
        match &parsed[i] {
            Err(e) => {
                let mut v = chars_of("squire_workflows: invalid built-in workflow ");
                crate::text::push_all(&mut v, &chars_of(ids[i].as_str()));
                crate::text::push_all(&mut v, &chars_of(": "));
                crate::text::push_all(&mut v, &chars_of(e.as_str()));
                let msg = crate::text::string_of(v.as_slice());
                proof {
                    assert(workflow_problem(idl[i as int], parsed@[i as int]) == Some(msg@));
                    assert(!(workflow_problem(idl[i as int], parsed@[i as int]) is None));
                }
                return Err(msg);
            },
            Ok(d) => {
                if !chars_eq(&chars_of(d.id.as_str()), &chars_of(ids[i].as_str())) {
                    let mut v = chars_of("squire_workflows: built-in workflow id mismatch: file has '");
                    crate::text::push_all(&mut v, &chars_of(d.id.as_str()));
                    crate::text::push_all(&mut v, &chars_of("', expected '"));
                    crate::text::push_all(&mut v, &chars_of(ids[i].as_str()));
                    crate::text::push_all(&mut v, &chars_of("'"));
                    let msg = crate::text::string_of(v.as_slice());
                    proof {
                        assert(workflow_problem(idl[i as int], parsed@[i as int]) == Some(msg@));
                        assert(!(workflow_problem(idl[i as int], parsed@[i as int]) is None));
                    }
                    return Err(msg);
                }
                out.push(WorkflowDef { id: lit(d.id.as_str()), short_desc: lit(d.short_desc.as_str()), full_desc: lit(d.full_desc.as_str()) });
            },
        }
        i = i + 1;
    }
    Ok(out)
}

} // verus!
