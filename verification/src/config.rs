//! The configuration: projects (name to prefix), statuses, sync entries, and
//! the lookups between project names and prefixes.
use vstd::prelude::*;
use crate::text::{chars_of, chars_eq};

verus! {

/// The configured statuses and the default one.
#[derive(Debug, Clone)]
pub struct StatusConfig {
    pub values: Vec<String>,
    pub default: String,
}

/// One `[[sync]]` entry: a project synced with a repository of a provider.
#[derive(Debug, Clone)]
pub struct SyncConfig {
    pub project: String,
    pub provider: String,
    pub repo: String,
}

/// The configuration file's content, and where it was read from.
#[derive(Debug, Clone)]
pub struct Config {
    pub default_author: String,
    pub notes_dir: String,
    pub statuses: StatusConfig,
    /// Project name and its ticket id prefix.
    pub projects: Vec<(String, String)>,
    pub sync: Vec<SyncConfig>,
    pub config_path: String,
}

/// The projects as (name, prefix) pairs of character sequences.
pub open spec fn project_pairs(ps: Seq<(String, String)>) -> Seq<(Seq<char>, Seq<char>)> {
    ps.map_values(|p: (String, String)| (p.0@, p.1@))
}

/// Index of the first project named `name` at or after `i`, or the number of projects.
pub open spec fn find_name(ps: Seq<(Seq<char>, Seq<char>)>, name: Seq<char>, i: int) -> int
    decreases ps.len() - i,
{
    if i >= ps.len() {
        ps.len() as int
    } else if i >= 0 && ps[i].0 == name {
        i
    } else {
        find_name(ps, name, i + 1)
    }
}

/// Index of the first project with prefix `prefix` at or after `i`, or the number of projects.
pub open spec fn find_prefix(ps: Seq<(Seq<char>, Seq<char>)>, prefix: Seq<char>, i: int) -> int
    decreases ps.len() - i,
{
    if i >= ps.len() {
        ps.len() as int
    } else if i >= 0 && ps[i].1 == prefix {
        i
    } else {
        find_prefix(ps, prefix, i + 1)
    }
}

/// The prefix of the project named `name`.
pub open spec fn prefix_of(ps: Seq<(Seq<char>, Seq<char>)>, name: Seq<char>) -> Option<Seq<char>> {
    let i = find_name(ps, name, 0);
    if 0 <= i < ps.len() {
        Some(ps[i].1)
    } else {
        None
    }
}

/// The name of the (first) project that uses `prefix`.
pub open spec fn name_of(ps: Seq<(Seq<char>, Seq<char>)>, prefix: Seq<char>) -> Option<Seq<char>> {
    let i = find_prefix(ps, prefix, 0);
    if 0 <= i < ps.len() {
        Some(ps[i].0)
    } else {
        None
    }
}

/// A project name, else a prefix in use, resolved to a prefix.
pub open spec fn resolved_prefix(ps: Seq<(Seq<char>, Seq<char>)>, input: Seq<char>) -> Option<
    Seq<char>,
> {
    match prefix_of(ps, input) {
        Some(p) => Some(p),
        None => if name_of(ps, input) is Some {
            Some(input)
        } else {
            None
        },
    }
}

pub proof fn lemma_find_name(ps: Seq<(Seq<char>, Seq<char>)>, name: Seq<char>, i: int)
    requires
        0 <= i <= ps.len(),
    ensures
        i <= find_name(ps, name, i) <= ps.len(),
        forall|k: int| i <= k < find_name(ps, name, i) ==> (#[trigger] ps[k]).0 != name,
        find_name(ps, name, i) < ps.len() ==> ps[find_name(ps, name, i)].0 == name,
    decreases ps.len() - i,
{
    if i < ps.len() && ps[i].0 != name {
        lemma_find_name(ps, name, i + 1);
    }
}

pub proof fn lemma_find_prefix(ps: Seq<(Seq<char>, Seq<char>)>, prefix: Seq<char>, i: int)
    requires
        0 <= i <= ps.len(),
    ensures
        i <= find_prefix(ps, prefix, i) <= ps.len(),
        forall|k: int| i <= k < find_prefix(ps, prefix, i) ==> (#[trigger] ps[k]).1 != prefix,
        find_prefix(ps, prefix, i) < ps.len() ==> ps[find_prefix(ps, prefix, i)].1 == prefix,
    decreases ps.len() - i,
{
    if i < ps.len() && ps[i].1 != prefix {
        lemma_find_prefix(ps, prefix, i + 1);
    }
}

impl Config {
    pub open spec fn pairs(&self) -> Seq<(Seq<char>, Seq<char>)> {
        project_pairs(self.projects@)
    }

    /// Project names are distinct, as the keys of the `[projects]` table are.
    pub open spec fn wf(&self) -> bool {
        forall|i: int, j: int|
            0 <= i < j < self.projects@.len() ==> #[trigger] self.projects@[i].0@ != #[trigger] self.projects@[j].0@
    }

    /// Whether no two projects have the same name.
    pub fn has_distinct_names(&self) -> (r: bool)
        ensures
            r == self.wf(),
    {
        let mut i: usize = 0;
        while i < self.projects.len()
            invariant
                i <= self.projects.len(),
                forall|a: int, b: int|
                    0 <= a < b < self.projects@.len() && a < i ==> #[trigger] self.projects@[a].0@
                        != #[trigger] self.projects@[b].0@,
            decreases self.projects.len() - i,
        {
            let x = chars_of(self.projects[i].0.as_str());
            let mut j: usize = i + 1;
            while j < self.projects.len()
                invariant
                    i < j <= self.projects.len(),
                    x@ == self.projects@[i as int].0@,
                    forall|a: int, b: int|
                        0 <= a < b < self.projects@.len() && a < i ==> #[trigger] self.projects@[a].0@
                            != #[trigger] self.projects@[b].0@,
                    forall|b: int| i < b < j ==> self.projects@[i as int].0@ != #[trigger] self.projects@[b].0@,
                decreases self.projects.len() - j,
            {
                let y = chars_of(self.projects[j].0.as_str());
                if chars_eq(&x, &y) {
                    assert(self.projects@[i as int].0@ == self.projects@[j as int].0@);
                    return false;
                }
                j = j + 1;
            }
            i = i + 1;
        }
        true
    }

    fn name_index(&self, name: &str) -> (r: usize)
        ensures
            r as int == find_name(self.pairs(), name@, 0),
    {
        let n = chars_of(name);
        let mut i: usize = 0;
        proof {
            lemma_find_name(self.pairs(), name@, 0);
        }
        while i < self.projects.len()
            invariant
                i <= self.projects.len(),
                n@ == name@,
                find_name(self.pairs(), name@, i as int) == find_name(self.pairs(), name@, 0),
            decreases self.projects.len() - i,
        {
            let k = chars_of(self.projects[i].0.as_str());
            if chars_eq(&k, &n) {
                return i;
            }
            i = i + 1;
        }
        i
    }

    fn prefix_index(&self, prefix: &str) -> (r: usize)
        ensures
            r as int == find_prefix(self.pairs(), prefix@, 0),
    {
        let n = chars_of(prefix);
        let mut i: usize = 0;
        proof {
            lemma_find_prefix(self.pairs(), prefix@, 0);
        }
        while i < self.projects.len()
            invariant
                i <= self.projects.len(),
                n@ == prefix@,
                find_prefix(self.pairs(), prefix@, i as int) == find_prefix(self.pairs(), prefix@, 0),
            decreases self.projects.len() - i,
        {
            let k = chars_of(self.projects[i].1.as_str());
            if chars_eq(&k, &n) {
                return i;
            }
            i = i + 1;
        }
        i
    }

    /// The prefix of the project named `project`.
    pub fn prefix_for_project(&self, project: &str) -> (r: Option<&str>)
        requires
            self.wf(),
        ensures
            match prefix_of(self.pairs(), project@) {
                Some(p) => r matches Some(s) && s@ == p,
                None => r is None,
            },
    {
        let i = self.name_index(project);
        if i < self.projects.len() {
            Some(self.projects[i].1.as_str())
        } else {
            None
        }
    }

    /// The name of a project that uses `prefix` (the first one listed).
    pub fn project_name_for_prefix(&self, prefix: &str) -> (r: Option<&str>)
        requires
            self.wf(),
        ensures
            match name_of(self.pairs(), prefix@) {
                Some(n) => r matches Some(s) && s@ == n,
                None => r is None,
            },
    {
        let i = self.prefix_index(prefix);
        if i < self.projects.len() {
            Some(self.projects[i].0.as_str())
        } else {
            None
        }
    }

    /// Resolves a project name or a prefix to a prefix: a project name first,
    /// then a prefix that some project uses.
    pub fn resolve_prefix(&self, input: &str) -> (r: Option<String>)
        requires
            self.wf(),
        ensures
            match resolved_prefix(self.pairs(), input@) {
                Some(p) => r matches Some(s) && s@ == p,
                None => r is None,
            },
    {
        if let Some(p) = self.prefix_for_project(input) {
            return Some(p.to_string());
        }
        if self.project_name_for_prefix(input).is_some() {
            return Some(input.to_string());
        }
        None
    }
}

} // verus!
