//! System prompts: each prompt file comes from the first of project, user,
//! built-in-on-disk and embedded content that is present; lookups before
//! any seeding fall back to the embedded content.

use vstd::prelude::*;
use crate::text::{chars_eq, chars_of, lit};

verus! {

pub open spec fn system_prompt_name() -> Seq<char> {
    "system-prompt.md"@
}

pub open spec fn phase2_prompt_name() -> Seq<char> {
    "system-prompt-phase2.md"@
}

/// The prompt files that can be overridden, by file name.
pub fn prompt_file_names() -> (r: Vec<&'static str>)
    ensures
        r@.len() == 3,
        r@[0]@ == "system-prompt.md"@,
        r@[1]@ == "system-prompt-phase2.md"@,
        r@[2]@ == "system-prompt-formatter.md"@,
{
    let mut v: Vec<&'static str> = Vec::new();
    v.push("system-prompt.md");
    v.push("system-prompt-phase2.md");
    v.push("system-prompt-formatter.md");
    v
}

pub open spec fn opt_seq(o: Option<String>) -> Option<Seq<char>> {
    match o {
        Some(s) => Some(s@),
        None => None,
    }
}

/// The content of one prompt file: the project override, else the user
/// override, else the built-in file read from disk, else the embedded copy.
pub open spec fn merged_prompt(
    builtin_disk: Option<Seq<char>>,
    embedded: Seq<char>,
    user: Option<Seq<char>>,
    project: Option<Seq<char>>,
) -> Seq<char> {
    match project {
        Some(p) => p,
        None => match user {
            Some(u) => u,
            None => match builtin_disk {
                Some(b) => b,
                None => embedded,
            },
        },
    }
}

pub fn merge_prompt(
    builtin_disk: Option<String>,
    embedded: &str,
    user: Option<String>,
    project: Option<String>,
) -> (r: String)
    ensures
        r@ == merged_prompt(opt_seq(builtin_disk), embedded@, opt_seq(user), opt_seq(project)),
{
    let mut content = match builtin_disk {
        Some(b) => b,
        None => lit(embedded),
    };
    if let Some(u) = user {
        content = u;
    }
    if let Some(p) = project {
        content = p;
    }
    content
}

pub type Named = (Seq<char>, Seq<char>);

pub open spec fn named_views(v: Seq<(String, String)>) -> Seq<Named> {
    v.map_values(|p: (String, String)| (p.0@, p.1@))
}

/// Content of the first entry named `name`.
pub open spec fn lookup(v: Seq<Named>, name: Seq<char>) -> Option<Seq<char>>
    decreases v.len(),
{
    if v.len() == 0 {
        None
    } else if v[0].0 == name {
        Some(v[0].1)
    } else {
        lookup(v.drop_first(), name)
    }
}

fn lookup_exec(v: &Vec<(String, String)>, name: &str) -> (r: Option<String>)
    ensures
        opt_seq(r) == lookup(named_views(v@), name@),
{
    let ghost all = named_views(v@);
    let n = chars_of(name);
    let mut i: usize = 0;
    assert(all.skip(0) =~= all);
    while i < v.len()
        invariant
            i <= v.len(),
            all == named_views(v@),
            n@ == name@,
            lookup(all, name@) == lookup(all.skip(i as int), name@),
        decreases v.len() - i,
    {
        assert(all.skip(i as int)[0] == all[i as int]);
        assert(all.skip(i as int).drop_first() =~= all.skip(i + 1));
        if chars_eq(&chars_of(v[i].0.as_str()), &n) {
            return Some(lit(v[i].1.as_str()));
        }
        i = i + 1;
    }
    assert(all.skip(all.len() as int) =~= Seq::<Named>::empty());
    None
}

/// Prompt contents by file name: the merged contents once seeded, and the
/// embedded contents used until then (or for a name the merge lacks).
pub struct PromptStore {
    pub merged: Option<Vec<(String, String)>>,
    pub builtin: Vec<(String, String)>,
}

/// What `get_prompt` answers for `name`.
pub open spec fn prompt_of(s: PromptStore, name: Seq<char>) -> Seq<char> {
    let from_merged = match s.merged {
        Some(m) => lookup(named_views(m@), name),
        None => None,
    };
    match from_merged {
        Some(c) => c,
        None => match lookup(named_views(s.builtin@), name) {
            Some(c) => c,
            None => Seq::empty(),
        },
    }
}

impl PromptStore {
    /// A store holding only the embedded contents.
    pub fn new(builtin: Vec<(String, String)>) -> (r: Self)
        ensures
            r.merged is None,
            r.builtin == builtin,
    {
        PromptStore { merged: None, builtin }
    }

    /// Replaces the merged contents.
    pub fn seed(&mut self, merged: Vec<(String, String)>)
        ensures
            final(self).merged == Some(merged),
            final(self).builtin == old(self).builtin,
    {
        self.merged = Some(merged);
    }

    /// The prompt named `name`: merged content, else embedded content, else
    /// empty.
    pub fn get_prompt(&self, name: &str) -> (r: String)
        ensures
            r@ == prompt_of(*self, name@),
    {
        if let Some(m) = &self.merged {
            if let Some(c) = lookup_exec(m, name) {
                return c;
            }
        }
        match lookup_exec(&self.builtin, name) {
            Some(c) => c,
            None => String::new(),
        }
    }

    /// The phase-1 system prompt.
    pub fn system_prompt(&self) -> (r: String)
        ensures
            r@ == prompt_of(*self, system_prompt_name()),
    {
        self.get_prompt("system-prompt.md")
    }

    /// The phase-2 (token generation) system prompt.
    pub fn system_prompt_phase2(&self) -> (r: String)
        ensures
            r@ == prompt_of(*self, phase2_prompt_name()),
    {
        self.get_prompt("system-prompt-phase2.md")
    }
}

/// Once seeded with content for a name, `get_prompt` returns that content,
/// whatever the embedded copy says.
pub proof fn law_seeded_prompt_wins(s: PromptStore, merged: Vec<(String, String)>, name: Seq<char>)
    requires
        lookup(named_views(merged@), name) is Some,
    ensures
        prompt_of(PromptStore { merged: Some(merged), builtin: s.builtin }, name) == lookup(
            named_views(merged@),
            name,
        )->0,
{
}


/// A prompt file's content comes from the project override when there is
/// one, else from the user override, else from the built-in file on disk,
/// else from the embedded copy.
pub proof fn law_prompt_precedence(
    builtin_disk: Option<Seq<char>>,
    embedded: Seq<char>,
    user: Option<Seq<char>>,
    project: Option<Seq<char>>,
)
    ensures
        project matches Some(p) ==> merged_prompt(builtin_disk, embedded, user, project) == p,
        project is None ==> (user matches Some(u) ==> merged_prompt(builtin_disk, embedded, user, project) == u),
        project is None && user is None ==> (builtin_disk matches Some(b) ==> merged_prompt(
            builtin_disk,
            embedded,
            user,
            project,
        ) == b),
        project is None && user is None && builtin_disk is None ==> merged_prompt(
            builtin_disk,
            embedded,
            user,
            project,
        ) == embedded,
{
}

} // verus!
