//! The decisions of the command-line commands: checking their arguments,
//! resolving projects, the tickets they create or change, and which tickets
//! a listing or a search shows.
use vstd::prelude::*;
use crate::text::{chars_of, string_from_chars, push_all, str_eq, has_at, slice_chars, starts_with};
use crate::store::{named_ticket, name_views, find_file, ticket_file};
use crate::timestamp::{minute_text, format_minute_text};
use crate::config::{Config, prefix_of, name_of, resolved_prefix, project_pairs};
use crate::ticket::{TicketId, Ticket, Comment, ticket_id_from_text, valid_prefix, is_valid_prefix, id_text, comment_views};
use crate::timestamp::Timestamp;

verus! {

/// `a` followed by `b`.
pub fn concat(a: &str, b: &str) -> (r: String)
    ensures
        r@ == a@ + b@,
{
    let mut x = chars_of(a);
    let y = chars_of(b);
    push_all(&mut x, &y);
    string_from_chars(&x)
}

/// Why a command refuses its arguments.
#[derive(Debug)]
pub enum CommandError {
    /// The text is no ticket id.
    InvalidTicketId(String),
    /// Neither a project name nor a prefix in use; with the known projects.
    UnknownProjectOrPrefix { input: String, known: String },
    /// No project of this name.
    UnknownProject(String),
    /// No project of this name or prefix; with the known projects.
    UnknownProjectKnown { input: String, known: String },
    /// `modify` without a target.
    NoTarget,
    /// `modify` with both a project and a prefix.
    BothTargets,
    /// `rename-project` without a new name or prefix.
    NothingToRename,
    /// The prefix is in use by no project.
    NoProjectForPrefix(String),
    /// The prefix is in use by another project.
    PrefixInUse { prefix: String, project: String },
    /// A project of this name exists.
    ProjectExists(String),
    /// The prefix is not an upper-case letter followed by upper-case letters and digits.
    InvalidPrefix(String),
    /// A sync provider other than `github`.
    UnknownSyncProvider(String),
    /// This sync entry exists.
    SyncExists { project: String, provider: String, repo: String },
    /// A ticket with the new id exists already.
    RenameConflict { new_id: String, old_id: String },
}

pub open spec fn command_error_text(e: CommandError) -> Seq<char> {
    match e {
        CommandError::InvalidTicketId(t) => "Invalid ticket ID: "@ + t@,
        CommandError::UnknownProjectOrPrefix { input, known } => "Unknown project or prefix: "@ + input@
            + ". Known: "@ + known@,
        CommandError::UnknownProject(p) => "Unknown project: "@ + p@,
        CommandError::UnknownProjectKnown { input, known } => "Unknown project: "@ + input@ + ". Known: "@
            + known@,
        CommandError::NoTarget => "Provide --project or --prefix."@,
        CommandError::BothTargets => "Provide either --project or --prefix, not both."@,
        CommandError::NothingToRename => "Provide at least one of --name or --prefix."@,
        CommandError::NoProjectForPrefix(p) => "No project name found for prefix "@ + p@,
        CommandError::PrefixInUse { prefix, project } => "Prefix "@ + prefix@ + " is already used by project "@
            + project@,
        CommandError::ProjectExists(n) => "Project name "@ + n@ + " already exists"@,
        CommandError::InvalidPrefix(p) => "Invalid prefix: "@ + p@
            + ". Must start with an uppercase letter and contain only uppercase letters and digits."@,
        CommandError::UnknownSyncProvider(p) => "Unknown sync provider: "@ + p@ + ". Supported: github"@,
        CommandError::SyncExists { project, provider, repo } => "Sync already configured for project "@
            + project@ + " with "@ + provider@ + " ("@ + repo@ + ")"@,
        CommandError::RenameConflict { new_id, old_id } => "Conflict: "@ + new_id@
            + " already exists, cannot rename "@ + old_id@ + " -> "@ + new_id@,
    }
}

impl CommandError {
    /// The error as a sentence.
    pub fn message(&self) -> (r: String)
        ensures
            r@ == command_error_text(*self),
    {
        match self {
            CommandError::InvalidTicketId(t) => concat("Invalid ticket ID: ", t.as_str()),
            CommandError::UnknownProjectOrPrefix { input, known } => {
                let a = concat("Unknown project or prefix: ", input.as_str());
                let b = concat(a.as_str(), ". Known: ");
                concat(b.as_str(), known.as_str())
            },
            CommandError::UnknownProject(p) => concat("Unknown project: ", p.as_str()),
            CommandError::UnknownProjectKnown { input, known } => {
                let a = concat("Unknown project: ", input.as_str());
                let b = concat(a.as_str(), ". Known: ");
                concat(b.as_str(), known.as_str())
            },
            CommandError::NoTarget => "Provide --project or --prefix.".to_string(),
            CommandError::BothTargets => "Provide either --project or --prefix, not both.".to_string(),
            CommandError::NothingToRename => "Provide at least one of --name or --prefix.".to_string(),
            CommandError::NoProjectForPrefix(p) => concat("No project name found for prefix ", p.as_str()),
            CommandError::PrefixInUse { prefix, project } => {
                let a = concat("Prefix ", prefix.as_str());
                let b = concat(a.as_str(), " is already used by project ");
                concat(b.as_str(), project.as_str())
            },
            CommandError::ProjectExists(n) => {
                let a = concat("Project name ", n.as_str());
                concat(a.as_str(), " already exists")
            },
            CommandError::InvalidPrefix(p) => {
                let a = concat("Invalid prefix: ", p.as_str());
                concat(
                    a.as_str(),
                    ". Must start with an uppercase letter and contain only uppercase letters and digits.",
                )
            },
            CommandError::UnknownSyncProvider(p) => {
                let a = concat("Unknown sync provider: ", p.as_str());
                concat(a.as_str(), ". Supported: github")
            },
            CommandError::SyncExists { project, provider, repo } => {
                let a = concat("Sync already configured for project ", project.as_str());
                let b = concat(a.as_str(), " with ");
                let c = concat(b.as_str(), provider.as_str());
                let d = concat(c.as_str(), " (");
                let e = concat(d.as_str(), repo.as_str());
                concat(e.as_str(), ")")
            },
            CommandError::RenameConflict { new_id, old_id } => {
                let a = concat("Conflict: ", new_id.as_str());
                let b = concat(a.as_str(), " already exists, cannot rename ");
                let c = concat(b.as_str(), old_id.as_str());
                let d = concat(c.as_str(), " -> ");
                concat(d.as_str(), new_id.as_str())
            },
        }
    }
}

/// `Name (PREFIX)` for each project, separated by `, `.
pub open spec fn known_text(ps: Seq<(Seq<char>, Seq<char>)>) -> Seq<char>
    decreases ps.len(),
{
    if ps.len() == 0 {
        seq![]
    } else if ps.len() == 1 {
        ps[0].0 + seq![' ', '('] + ps[0].1 + seq![')']
    } else {
        known_text(ps.drop_last()) + seq![',', ' '] + ps.last().0 + seq![' ', '('] + ps.last().1 + seq![')']
    }
}

/// The known projects, as error messages list them.
pub fn known_projects(config: &Config) -> (r: String)
    ensures
        r@ == known_text(config.pairs()),
{
    let mut out: Vec<char> = Vec::new();
    let mut i: usize = 0;
    while i < config.projects.len()
        invariant
            i <= config.projects.len(),
            out@ == known_text(config.pairs().take(i as int)),
        decreases config.projects.len() - i,
    {
        let ghost t = config.pairs().take(i + 1);
        assert(t.drop_last() =~= config.pairs().take(i as int));
        assert(t.last() == (config.projects@[i as int].0@, config.projects@[i as int].1@));
        if i > 0 {
            out.push(',');
            out.push(' ');
        }
        let n = chars_of(config.projects[i].0.as_str());
        let p = chars_of(config.projects[i].1.as_str());
        push_all(&mut out, &n);
        out.push(' ');
        out.push('(');
        push_all(&mut out, &p);
        out.push(')');
        proof {
            if i == 0 {
                assert(t.len() == 1);
            }
        }
        assert(out@ =~= known_text(t));
        i = i + 1;
    }
    assert(config.pairs().take(config.projects.len() as int) =~= config.pairs());
    string_from_chars(&out)
}

/// Reads a ticket id given on the command line.
pub fn parse_ticket_id(text: &str) -> (r: Result<TicketId, CommandError>)
    ensures
        match ticket_id_from_text(text@) {
            Some((p, n)) => r matches Ok(id) && id.prefix@ == p && id.number == n,
            None => r matches Err(CommandError::InvalidTicketId(t)) && t@ == text@,
        },
{
    match TicketId::parse(text) {
        Some(id) => Ok(id),
        None => Err(CommandError::InvalidTicketId(text.to_string())),
    }
}

/// The prefix a project name or prefix stands for; an error naming the known
/// projects when it stands for none.
pub fn resolve_or_explain(config: &Config, input: &str) -> (r: Result<String, CommandError>)
    requires
        config.wf(),
    ensures
        match resolved_prefix(config.pairs(), input@) {
            Some(p) => r matches Ok(s) && s@ == p,
            None => r matches Err(CommandError::UnknownProjectOrPrefix { input: i, known: k }) && i@ == input@
                && k@ == known_text(config.pairs()),
        },
{
    match config.resolve_prefix(input) {
        Some(p) => Ok(p),
        None => Err(CommandError::UnknownProjectOrPrefix { input: input.to_string(), known: known_projects(config) }),
    }
}

/// A new ticket: the configured default status, no frontmatter or preamble,
/// and one empty comment by the default author at `now`.
pub open spec fn new_ticket_view(
    config: Config,
    prefix: Seq<char>,
    number: u32,
    title: Seq<char>,
    now: Timestamp,
) -> crate::ticket::TicketView {
    crate::ticket::TicketView {
        prefix,
        number,
        title,
        status: Some(config.statuses.default@),
        frontmatter: None,
        preamble: seq![],
        comments: seq![
            crate::ticket::CommentView { author: config.default_author@, timestamp: Some(now), body: seq![] },
        ],
        is_closed: false,
    }
}

/// The ticket `create` writes.
pub fn new_ticket(config: &Config, prefix: &str, number: u32, title: &str, now: Timestamp) -> (r: Ticket)
    requires
        now.wf(),
    ensures
        r@ == new_ticket_view(*config, prefix@, number, title@, now),
        r.times_wf(),
{
    let c = Comment { author: config.default_author.clone(), timestamp: Some(now), body: String::new() };
    let comments = vec![c];
    let r = Ticket {
        id: TicketId { prefix: prefix.to_string(), number },
        title: title.to_string(),
        status: Some(config.statuses.default.clone()),
        frontmatter: None,
        preamble: String::new(),
        comments,
        is_closed: false,
    };
    assert(r@.comments =~= new_ticket_view(*config, prefix@, number, title@, now).comments);
    r
}

/// The ticket with a comment by `author` at `now` appended.
pub fn with_comment(ticket: &Ticket, author: &str, now: Timestamp, text: &str) -> (r: Ticket)
    requires
        now.wf(),
        ticket.times_wf(),
    ensures
        r@ == (crate::ticket::TicketView {
            comments: ticket@.comments.push(
                crate::ticket::CommentView { author: author@, timestamp: Some(now), body: text@ },
            ),
            ..ticket@
        }),
        r.times_wf(),
{
    let mut r = ticket.duplicate();
    let c = Comment { author: author.to_string(), timestamp: Some(now), body: text.to_string() };
    let ghost before = r.comments@;
    r.comments.push(c);
    assert(comment_views(r.comments@) =~= comment_views(before).push(c@));
    assert forall|i: int| 0 <= i < r.comments@.len() implies ((#[trigger] r.comments@[i]).timestamp matches Some(
        t,
    ) ==> t.wf()) by {
        if i < before.len() {
            assert(r.comments@[i] == before[i]);
        }
    }
    r
}

/// The arguments of `modify`: exactly one of a project and a prefix, a
/// readable ticket id, and a target that resolves to a prefix.
pub fn check_modify(config: &Config, ticket_id: &str, project: Option<&str>, prefix: Option<&str>) -> (r: Result<
    (TicketId, String),
    CommandError,
>)
    requires
        config.wf(),
    ensures
        project is None && prefix is None ==> r matches Err(CommandError::NoTarget),
        project is Some && prefix is Some ==> r matches Err(CommandError::BothTargets),
        project is Some != prefix is Some ==> {
            let input = match project {
                Some(p) => p@,
                None => prefix.unwrap()@,
            };
            match ticket_id_from_text(ticket_id@) {
                None => r matches Err(CommandError::InvalidTicketId(t)) && t@ == ticket_id@,
                Some((ip, n)) => match resolved_prefix(config.pairs(), input) {
                    Some(p) => r matches Ok((id, s)) && id.prefix@ == ip && id.number == n && s@ == p,
                    None => r matches Err(CommandError::UnknownProjectOrPrefix { input: i, known: k })
                        && i@ == input && k@ == known_text(config.pairs()),
                },
            }
        },
{
    let input = match (project, prefix) {
        (None, None) => {
            return Err(CommandError::NoTarget);
        },
        (Some(_), Some(_)) => {
            return Err(CommandError::BothTargets);
        },
        (Some(p), None) => p,
        (None, Some(p)) => p,
    };
    let id = parse_ticket_id(ticket_id)?;
    let p = resolve_or_explain(config, input)?;
    Ok((id, p))
}

/// A new project's name and prefix: the prefix must be an upper-case letter
/// followed by upper-case letters and digits, and neither may be in use.
pub fn check_new_project(config: &Config, name: &str, prefix: &str) -> (r: Result<(), CommandError>)
    requires
        config.wf(),
    ensures
        !valid_prefix(prefix@) ==> (r matches Err(CommandError::InvalidPrefix(p)) && p@ == prefix@),
        valid_prefix(prefix@) && prefix_of(config.pairs(), name@) is Some ==> (r matches Err(
            CommandError::ProjectExists(n),
        ) && n@ == name@),
        valid_prefix(prefix@) && prefix_of(config.pairs(), name@) is None && name_of(config.pairs(), prefix@) is Some
            ==> (r matches Err(CommandError::PrefixInUse { prefix: p, project: q }) && p@ == prefix@ && q@ == name_of(
            config.pairs(),
            prefix@,
        ).unwrap()),
        r is Ok <==> valid_prefix(prefix@) && prefix_of(config.pairs(), name@) is None && name_of(
            config.pairs(),
            prefix@,
        ) is None,
{
    let pc = chars_of(prefix);
    if !is_valid_prefix(&pc) {
        return Err(CommandError::InvalidPrefix(prefix.to_string()));
    }
    if config.prefix_for_project(name).is_some() {
        return Err(CommandError::ProjectExists(name.to_string()));
    }
    match config.project_name_for_prefix(prefix) {
        Some(q) => Err(CommandError::PrefixInUse { prefix: prefix.to_string(), project: q.to_string() }),
        None => Ok(()),
    }
}

/// The prefix a listing is restricted to: that of the named project (an
/// error if there is none), else the prefix given, else none.
pub fn list_filter(config: &Config, prefix: Option<&str>, project: Option<&str>) -> (r: Result<
    Option<String>,
    CommandError,
>)
    requires
        config.wf(),
    ensures
        match project {
            Some(p) => match prefix_of(config.pairs(), p@) {
                Some(q) => r matches Ok(Some(s)) && s@ == q,
                None => r matches Err(CommandError::UnknownProject(n)) && n@ == p@,
            },
            None => match prefix {
                Some(q) => r matches Ok(Some(s)) && s@ == q@,
                None => r matches Ok(None),
            },
        },
{
    match project {
        Some(p) => match config.prefix_for_project(p) {
            Some(q) => Ok(Some(q.to_string())),
            None => Err(CommandError::UnknownProject(p.to_string())),
        },
        None => match prefix {
            Some(q) => Ok(Some(q.to_string())),
            None => Ok(None),
        },
    }
}

/// The arguments of `sync init`: the provider must be `github`, the project
/// must resolve (the error names the known projects), and the same entry must
/// not exist yet. Gives the project's prefix.
pub fn check_sync_init(config: &Config, provider: &str, repo: &str, project: &str) -> (r: Result<String, CommandError>)
    requires
        config.wf(),
    ensures
        provider@ != "github"@ ==> (r matches Err(CommandError::UnknownSyncProvider(p)) && p@ == provider@),
        provider@ == "github"@ && resolved_prefix(config.pairs(), project@) is None ==> (r matches Err(
            CommandError::UnknownProjectKnown { input: i, known: k },
        ) && i@ == project@ && k@ == known_text(config.pairs())),
        provider@ == "github"@ && resolved_prefix(config.pairs(), project@) is Some ==> {
            let dup = exists|i: int|
                0 <= i < config.sync@.len() && (#[trigger] config.sync@[i]).project@ == project@
                    && config.sync@[i].provider@ == provider@ && config.sync@[i].repo@ == repo@;
            &&& dup ==> (r matches Err(CommandError::SyncExists { project: a, provider: b, repo: c }) && a@
                == project@ && b@ == provider@ && c@ == repo@)
            &&& !dup ==> (r matches Ok(s) && s@ == resolved_prefix(config.pairs(), project@).unwrap())
        },
{
    if !str_eq(provider, "github") {
        return Err(CommandError::UnknownSyncProvider(provider.to_string()));
    }
    let prefix = match config.resolve_prefix(project) {
        Some(p) => p,
        None => {
            return Err(CommandError::UnknownProjectKnown { input: project.to_string(), known: known_projects(config) });
        },
    };
    let mut i: usize = 0;
    while i < config.sync.len()
        invariant
            i <= config.sync.len(),
            provider@ == "github"@,
            resolved_prefix(config.pairs(), project@) == Some(prefix@),
            forall|k: int|
                0 <= k < i ==> !((#[trigger] config.sync@[k]).project@ == project@ && config.sync@[k].provider@
                    == provider@ && config.sync@[k].repo@ == repo@),
        decreases config.sync.len() - i,
    {
        let sc = &config.sync[i];
        if str_eq(sc.project.as_str(), project) && str_eq(sc.provider.as_str(), provider) && str_eq(
            sc.repo.as_str(),
            repo,
        ) {
            return Err(
                CommandError::SyncExists {
                    project: project.to_string(),
                    provider: provider.to_string(),
                    repo: repo.to_string(),
                },
            );
        }
        i = i + 1;
    }
    Ok(prefix)
}


// ---------------------------------------------------------------------------
// Renaming a project
// ---------------------------------------------------------------------------
/// A project's name and prefix before and after `rename-project`.
#[derive(Debug)]
pub struct ProjectRename {
    pub old_name: String,
    pub old_prefix: String,
    pub new_name: String,
    pub new_prefix: String,
}

/// The arguments of `rename-project`: at least one of a new name and a new
/// prefix; `current` resolves to a prefix that a project uses; a new prefix
/// is not used by another project and a new name not taken.
pub fn plan_project_rename(config: &Config, current: &str, new_name: Option<&str>, new_prefix: Option<&str>) -> (r:
    Result<ProjectRename, CommandError>)
    requires
        config.wf(),
    ensures
        new_name is None && new_prefix is None ==> (r matches Err(CommandError::NothingToRename)),
        !(new_name is None && new_prefix is None) ==> match resolved_prefix(config.pairs(), current@) {
            None => r matches Err(CommandError::UnknownProjectOrPrefix { input: i, known: k }) && i@ == current@
                && k@ == known_text(config.pairs()),
            Some(op) => match name_of(config.pairs(), op) {
                None => r matches Err(CommandError::NoProjectForPrefix(p)) && p@ == op,
                Some(on) => {
                    let tp = match new_prefix {
                        Some(p) => p@,
                        None => op,
                    };
                    let tn = match new_name {
                        Some(n) => n@,
                        None => on,
                    };
                    if tp != op && name_of(config.pairs(), tp) is Some {
                        r matches Err(CommandError::PrefixInUse { prefix: p, project: q }) && p@ == tp && q@
                            == name_of(config.pairs(), tp).unwrap()
                    } else if tn != on && prefix_of(config.pairs(), tn) is Some {
                        r matches Err(CommandError::ProjectExists(n)) && n@ == tn
                    } else {
                        r matches Ok(pr) && pr.old_name@ == on && pr.old_prefix@ == op && pr.new_name@ == tn
                            && pr.new_prefix@ == tp
                    }
                },
            },
        },
{
    if new_name.is_none() && new_prefix.is_none() {
        return Err(CommandError::NothingToRename);
    }
    let old_prefix = resolve_or_explain(config, current)?;
    let old_name = match config.project_name_for_prefix(old_prefix.as_str()) {
        Some(n) => n.to_string(),
        None => {
            return Err(CommandError::NoProjectForPrefix(old_prefix));
        },
    };
    let target_prefix = match new_prefix {
        Some(p) => p.to_string(),
        None => old_prefix.clone(),
    };
    let target_name = match new_name {
        Some(n) => n.to_string(),
        None => old_name.clone(),
    };
    if !str_eq(target_prefix.as_str(), old_prefix.as_str()) {
        if let Some(existing) = config.project_name_for_prefix(target_prefix.as_str()) {
            return Err(CommandError::PrefixInUse { prefix: target_prefix, project: existing.to_string() });
        }
    }
    if !str_eq(target_name.as_str(), old_name.as_str()) {
        if config.prefix_for_project(target_name.as_str()).is_some() {
            return Err(CommandError::ProjectExists(target_name));
        }
    }
    Ok(ProjectRename { old_name, old_prefix, new_name: target_name, new_prefix: target_prefix })
}

/// The report of a project rename.
pub open spec fn rename_report(pr: ProjectRename) -> Seq<char> {
    let prefix_changed = pr.new_prefix@ != pr.old_prefix@;
    let name_changed = pr.new_name@ != pr.old_name@;
    if prefix_changed && name_changed {
        "Renamed project "@ + pr.old_name@ + " ("@ + pr.old_prefix@ + ") -> "@ + pr.new_name@ + " ("@
            + pr.new_prefix@ + ")"@
    } else if prefix_changed {
        "Changed prefix for "@ + pr.new_name@ + ": "@ + pr.old_prefix@ + " -> "@ + pr.new_prefix@
    } else {
        "Renamed project "@ + pr.old_name@ + " -> "@ + pr.new_name@ + " (prefix "@ + pr.old_prefix@
            + " unchanged)"@
    }
}

impl ProjectRename {
    /// The sentence that reports the rename.
    pub fn report(&self) -> (r: String)
        ensures
            r@ == rename_report(*self),
    {
        let prefix_changed = !str_eq(self.new_prefix.as_str(), self.old_prefix.as_str());
        let name_changed = !str_eq(self.new_name.as_str(), self.old_name.as_str());
        if prefix_changed && name_changed {
            let a = concat("Renamed project ", self.old_name.as_str());
            let b = concat(a.as_str(), " (");
            let c = concat(b.as_str(), self.old_prefix.as_str());
            let d = concat(c.as_str(), ") -> ");
            let e = concat(d.as_str(), self.new_name.as_str());
            let f = concat(e.as_str(), " (");
            let g = concat(f.as_str(), self.new_prefix.as_str());
            concat(g.as_str(), ")")
        } else if prefix_changed {
            let a = concat("Changed prefix for ", self.new_name.as_str());
            let b = concat(a.as_str(), ": ");
            let c = concat(b.as_str(), self.old_prefix.as_str());
            let d = concat(c.as_str(), " -> ");
            concat(d.as_str(), self.new_prefix.as_str())
        } else {
            let a = concat("Renamed project ", self.old_name.as_str());
            let b = concat(a.as_str(), " -> ");
            let c = concat(b.as_str(), self.new_name.as_str());
            let d = concat(c.as_str(), " (prefix ");
            let e = concat(d.as_str(), self.old_prefix.as_str());
            concat(e.as_str(), " unchanged)")
        }
    }
}

// ---------------------------------------------------------------------------
// Replacing text
// ---------------------------------------------------------------------------
/// Index of the first occurrence of `f` in `s` at or after `i`, or `s.len()`.
pub open spec fn find_sub(s: Seq<char>, f: Seq<char>, i: int) -> int
    decreases s.len() - i,
{
    if i < 0 || i + f.len() > s.len() {
        s.len() as int
    } else if s.subrange(i, i + f.len()) == f {
        i
    } else if i >= s.len() {
        s.len() as int
    } else {
        find_sub(s, f, i + 1)
    }
}

/// `str::replacen(from, to, 1)`: the first occurrence of `from` replaced.
pub open spec fn replace_first(s: Seq<char>, from: Seq<char>, to: Seq<char>) -> Seq<char> {
    let p = find_sub(s, from, 0);
    if p + from.len() <= s.len() {
        s.take(p) + to + s.skip(p + from.len())
    } else {
        s
    }
}

/// `str::replace(from, to)` for a non-empty `from`: every occurrence, found
/// from the left without overlap, replaced.
pub open spec fn replace_all(s: Seq<char>, from: Seq<char>, to: Seq<char>) -> Seq<char>
    decreases s.len(),
{
    let p = find_sub(s, from, 0);
    if from.len() > 0 && 0 <= p && p + from.len() <= s.len() {
        s.take(p) + to + replace_all(s.skip(p + from.len()), from, to)
    } else {
        s
    }
}

proof fn lemma_find_sub(s: Seq<char>, f: Seq<char>, i: int)
    requires
        0 <= i,
    ensures
        find_sub(s, f, i) == s.len() || (i <= find_sub(s, f, i) && find_sub(s, f, i) + f.len() <= s.len()),
        find_sub(s, f, i) >= i || find_sub(s, f, i) == s.len(),
    decreases s.len() - i,
{
    if i + f.len() <= s.len() && s.subrange(i, i + f.len()) != f && i < s.len() {
        lemma_find_sub(s, f, i + 1);
    }
}

/// The first occurrence of `f` in `s` at or after `from`.
fn find_sub_exec(s: &Vec<char>, f: &Vec<char>, from: usize) -> (r: usize)
    requires
        from <= s.len(),
    ensures
        r as int == find_sub(s@, f@, from as int),
{
    let mut i = from;
    while f.len() <= s.len() - i
        invariant
            from <= i <= s.len(),
            find_sub(s@, f@, i as int) == find_sub(s@, f@, from as int),
        decreases s.len() - i,
    {
        if has_at(s, i, f) {
            assert(s@.skip(i as int).take(f@.len() as int) =~= s@.subrange(i as int, i + f@.len()));
            return i;
        }
        assert(s@.skip(i as int).take(f@.len() as int) =~= s@.subrange(i as int, i + f@.len()));
        assert(f@.len() > 0) by {
            if f@.len() == 0 {
                assert(s@.skip(i as int).take(0) =~= f@);
            }
        }
        i = i + 1;
    }
    s.len()
}

/// Replaces the first occurrence of `from` in `s` with `to`.
pub fn replace_first_text(s: &str, from: &str, to: &str) -> (r: String)
    ensures
        r@ == replace_first(s@, from@, to@),
{
    let cs = chars_of(s);
    let fc = chars_of(from);
    let tc = chars_of(to);
    let p = find_sub_exec(&cs, &fc, 0);
    proof {
        lemma_find_sub(cs@, fc@, 0);
    }
    if fc.len() <= cs.len() - p {
        let mut out = slice_chars(&cs, 0, p);
        push_all(&mut out, &tc);
        let rest = slice_chars(&cs, p + fc.len(), cs.len());
        push_all(&mut out, &rest);
        assert(out@ =~= replace_first(s@, from@, to@));
        string_from_chars(&out)
    } else {
        string_from_chars(&cs)
    }
}

/// Replaces every occurrence of the non-empty `from` in `s` with `to`.
pub fn replace_all_text(s: &str, from: &str, to: &str) -> (r: String)
    requires
        from@.len() > 0,
    ensures
        r@ == replace_all(s@, from@, to@),
{
    let cs = chars_of(s);
    let fc = chars_of(from);
    let tc = chars_of(to);
    let mut out: Vec<char> = Vec::new();
    let mut i: usize = 0;
    assert(cs@.skip(0) =~= cs@);
    while i < cs.len()
        invariant
            i <= cs.len(),
            fc@ == from@,
            fc@.len() > 0,
            tc@ == to@,
            out@ + replace_all(cs@.skip(i as int), fc@, tc@) == replace_all(s@, from@, to@),
        decreases cs.len() - i,
    {
        let rest = slice_chars(&cs, i, cs.len());
        assert(rest@ =~= cs@.skip(i as int));
        let p = find_sub_exec(&rest, &fc, 0);
        proof {
            lemma_find_sub(rest@, fc@, 0);
        }
        if fc.len() <= rest.len() - p {
            let head = slice_chars(&rest, 0, p);
            push_all(&mut out, &head);
            push_all(&mut out, &tc);
            assert(rest@.skip(p + fc@.len()) =~= cs@.skip(i + p + fc@.len()));
            assert(out@ + replace_all(cs@.skip(i + p + fc@.len()), fc@, tc@) =~= replace_all(s@, from@, to@));
            i = i + p + fc.len();
        } else {
            push_all(&mut out, &rest);
            assert(out@ + replace_all(cs@.skip(cs@.len() as int), fc@, tc@) =~= replace_all(s@, from@, to@));
            i = cs.len();
        }
    }
    assert(cs@.skip(cs@.len() as int) =~= Seq::<char>::empty());
    assert(out@ =~= replace_all(s@, from@, to@));
    string_from_chars(&out)
}

// ---------------------------------------------------------------------------
// Renaming the files of a prefix
// ---------------------------------------------------------------------------
/// One ticket file to rename: where it is, its id before and after, and its new name.
#[derive(Debug)]
pub struct FileRename {
    pub closed: bool,
    pub index: usize,
    pub old_id: TicketId,
    pub new_id: TicketId,
    pub new_name: String,
}

/// Indices below `n` of the file names of tickets with prefix `prefix`.
pub open spec fn prefix_files(names: Seq<Seq<char>>, prefix: Seq<char>, n: int) -> Seq<int>
    decreases n,
{
    if n <= 0 {
        seq![]
    } else if named_ticket(names[n - 1]) matches Some((p, _, _)) && p == prefix {
        prefix_files(names, prefix, n - 1).push(n - 1)
    } else {
        prefix_files(names, prefix, n - 1)
    }
}

/// Files to rename, in order: the open ones, then those in `done/`, as
/// (closed, index) pairs.
pub open spec fn rename_entries(open: Seq<Seq<char>>, done: Seq<Seq<char>>, old_prefix: Seq<char>) -> Seq<(bool, int)> {
    prefix_files(open, old_prefix, open.len() as int).map_values(|i: int| (false, i)) + prefix_files(
        done,
        old_prefix,
        done.len() as int,
    ).map_values(|i: int| (true, i))
}

pub open spec fn entry_name(open: Seq<Seq<char>>, done: Seq<Seq<char>>, e: (bool, int)) -> Seq<char> {
    if e.0 {
        done[e.1]
    } else {
        open[e.1]
    }
}

pub open spec fn entry_number(open: Seq<Seq<char>>, done: Seq<Seq<char>>, e: (bool, int)) -> u32 {
    named_ticket(entry_name(open, done, e)).unwrap().1
}

/// A file of either directory names the ticket `prefix-number`.
pub open spec fn id_taken(open: Seq<Seq<char>>, done: Seq<Seq<char>>, prefix: Seq<char>, number: u32) -> bool {
    (exists|k: int| 0 <= k < open.len() && crate::store::names_ticket(#[trigger] open[k], prefix, number))
        || (exists|k: int| 0 <= k < done.len() && crate::store::names_ticket(#[trigger] done[k], prefix, number))
}


/// A project rename is refused (the condition for `Ok` of
/// `plan_file_renames` fails) whenever a file in the open directory or in
/// `done/` already names the new id of a ticket being renamed.
pub proof fn law_rename_refused_when_target_exists(
    open: Seq<Seq<char>>,
    done: Seq<Seq<char>>,
    old_prefix: Seq<char>,
    new_prefix: Seq<char>,
    k: int,
    closed: bool,
    j: int,
)
    requires
        0 <= k < rename_entries(open, done, old_prefix).len(),
        if closed {
            0 <= j < done.len() && crate::store::names_ticket(
                done[j],
                new_prefix,
                entry_number(open, done, rename_entries(open, done, old_prefix)[k]),
            )
        } else {
            0 <= j < open.len() && crate::store::names_ticket(
                open[j],
                new_prefix,
                entry_number(open, done, rename_entries(open, done, old_prefix)[k]),
            )
        },
    ensures
        !(forall|q: int|
            0 <= q < rename_entries(open, done, old_prefix).len() ==> !id_taken(
                open,
                done,
                new_prefix,
                entry_number(open, done, #[trigger] rename_entries(open, done, old_prefix)[q]),
            )),
{
    let es = rename_entries(open, done, old_prefix);
    assert(id_taken(open, done, new_prefix, entry_number(open, done, es[k])));
}

/// `fr` renames the file of entry `e` from `old_prefix` to `new_prefix`.
pub open spec fn renames_entry(
    fr: FileRename,
    open: Seq<Seq<char>>,
    done: Seq<Seq<char>>,
    e: (bool, int),
    old_prefix: Seq<char>,
    new_prefix: Seq<char>,
) -> bool {
    let n = entry_number(open, done, e);
    &&& fr.closed == e.0
    &&& fr.index == e.1
    &&& fr.old_id.prefix@ == old_prefix && fr.old_id.number == n
    &&& fr.new_id.prefix@ == new_prefix && fr.new_id.number == n
    &&& fr.new_name@ == replace_first(entry_name(open, done, e), id_text(old_prefix, n), id_text(new_prefix, n))
}

/// The first entry whose new id is taken is entry `k`.
pub open spec fn first_conflict(
    open: Seq<Seq<char>>,
    done: Seq<Seq<char>>,
    es: Seq<(bool, int)>,
    new_prefix: Seq<char>,
    k: int,
) -> bool {
    &&& 0 <= k < es.len()
    &&& id_taken(open, done, new_prefix, entry_number(open, done, es[k]))
    &&& forall|j: int| 0 <= j < k ==> !id_taken(open, done, new_prefix, entry_number(open, done, #[trigger] es[j]))
}

proof fn lemma_prefix_files(names: Seq<Seq<char>>, prefix: Seq<char>, n: int)
    requires
        0 <= n <= names.len(),
    ensures
        forall|k: int|
            0 <= k < prefix_files(names, prefix, n).len() ==> (0 <= #[trigger] prefix_files(names, prefix, n)[k] < n
                && (named_ticket(names[prefix_files(names, prefix, n)[k]]) matches Some((p, _, _)) && p == prefix)),
    decreases n,
{
    if n > 0 {
        lemma_prefix_files(names, prefix, n - 1);
    }
}

/// The rename of one file name, when it names a ticket with `old_prefix`
/// (`None` otherwise); an error when the new id is taken.
fn plan_one(
    name: &String,
    closed: bool,
    index: usize,
    open: &Vec<String>,
    done: &Vec<String>,
    old_prefix: &str,
    new_prefix: &str,
) -> (r: Result<Option<FileRename>, CommandError>)
    ensures
        ({
            let ov = name_views(open@);
            let dv = name_views(done@);
            match named_ticket(name@) {
                Some((p, n, _)) => if p == old_prefix@ {
                    if id_taken(ov, dv, new_prefix@, n) {
                        r matches Err(CommandError::RenameConflict { new_id: a, old_id: b }) && a@ == id_text(
                            new_prefix@,
                            n,
                        ) && b@ == id_text(old_prefix@, n)
                    } else {
                        r matches Ok(Some(fr)) && fr.closed == closed && fr.index == index && fr.old_id.prefix@
                            == old_prefix@ && fr.old_id.number == n && fr.new_id.prefix@ == new_prefix@
                            && fr.new_id.number == n && fr.new_name@ == replace_first(
                            name@,
                            id_text(old_prefix@, n),
                            id_text(new_prefix@, n),
                        )
                    }
                } else {
                    r matches Ok(None)
                },
                None => r matches Ok(None),
            }
        }),
{
    let ghost ov = name_views(open@);
    let ghost dv = name_views(done@);
    match ticket_file(name.as_str()) {
        Some((id, _)) => {
            if !str_eq(id.prefix.as_str(), old_prefix) {
                return Ok(None);
            }
            let ghost n = id.number;
            let new_id = TicketId { prefix: new_prefix.to_string(), number: id.number };
            let fo = find_file(open, &new_id);
            let fd = find_file(done, &new_id);
            proof {
                match fo {
                    Some(k) => {
                        assert(ov[k as int] == open@[k as int]@);
                    },
                    None => {
                        match fd {
                            Some(k) => {
                                assert(dv[k as int] == done@[k as int]@);
                            },
                            None => {
                                assert forall|k: int| 0 <= k < ov.len() implies !crate::store::names_ticket(
                                    #[trigger] ov[k],
                                    new_prefix@,
                                    n,
                                ) by {
                                    assert(ov[k] == open@[k]@);
                                }
                                assert forall|k: int| 0 <= k < dv.len() implies !crate::store::names_ticket(
                                    #[trigger] dv[k],
                                    new_prefix@,
                                    n,
                                ) by {
                                    assert(dv[k] == done@[k]@);
                                }
                            },
                        }
                    },
                }
            }
            if fo.is_some() || fd.is_some() {
                return Err(CommandError::RenameConflict { new_id: new_id.to_string(), old_id: id.to_string() });
            }
            let old_text = id.to_string();
            let new_text = new_id.to_string();
            let new_name = replace_first_text(name.as_str(), old_text.as_str(), new_text.as_str());
            Ok(Some(FileRename { closed, index, old_id: id, new_id, new_name }))
        },
        None => Ok(None),
    }
}

/// Plans the renames of one directory's files, appending them to `out`.
fn plan_dir(
    names: &Vec<String>,
    closed: bool,
    open: &Vec<String>,
    done: &Vec<String>,
    old_prefix: &str,
    new_prefix: &str,
    out: &mut Vec<FileRename>,
) -> (r: Result<(), CommandError>)
    requires
        names@ == (if closed {
            done@
        } else {
            open@
        }),
    ensures
        ({
            let ov = name_views(open@);
            let dv = name_views(done@);
            let es = prefix_files(name_views(names@), old_prefix@, names@.len() as int).map_values(
                |i: int| (closed, i),
            );
            &&& r is Ok <==> forall|k: int|
                0 <= k < es.len() ==> !id_taken(ov, dv, new_prefix@, entry_number(ov, dv, #[trigger] es[k]))
            &&& r is Ok ==> final(out)@.len() == old(out)@.len() + es.len() && final(out)@.take(
                old(out)@.len() as int,
            ) == old(out)@ && forall|k: int|
                0 <= k < es.len() ==> renames_entry(
                    #[trigger] final(out)@[old(out)@.len() + k],
                    ov,
                    dv,
                    es[k],
                    old_prefix@,
                    new_prefix@,
                )
            &&& r matches Err(e) ==> exists|k: int|
                first_conflict(ov, dv, es, new_prefix@, k) && (e matches CommandError::RenameConflict {
                    new_id: a,
                    old_id: b,
                } && a@ == id_text(new_prefix@, entry_number(ov, dv, es[k])) && b@ == id_text(
                    old_prefix@,
                    entry_number(ov, dv, es[k]),
                ))
        }),
{
    let ghost ov = name_views(open@);
    let ghost dv = name_views(done@);
    let ghost nv = name_views(names@);
    let ghost start = out@;
    let ghost full = prefix_files(nv, old_prefix@, names@.len() as int).map_values(|i: int| (closed, i));
    let mut i: usize = 0;
    while i < names.len()
        invariant
            i <= names.len(),
            nv == name_views(names@),
            ov == name_views(open@),
            dv == name_views(done@),
            names@ == (if closed {
                done@
            } else {
                open@
            }),
            full == prefix_files(nv, old_prefix@, names@.len() as int).map_values(|i: int| (closed, i)),
            forall|k: int|
                0 <= k < prefix_files(nv, old_prefix@, i as int).len() ==> !id_taken(
                    ov,
                    dv,
                    new_prefix@,
                    entry_number(ov, dv, (closed, #[trigger] prefix_files(nv, old_prefix@, i as int)[k])),
                ),
            out@.len() == start.len() + prefix_files(nv, old_prefix@, i as int).len(),
            out@.take(start.len() as int) == start,
            forall|k: int|
                0 <= k < prefix_files(nv, old_prefix@, i as int).len() ==> renames_entry(
                    #[trigger] out@[start.len() + k],
                    ov,
                    dv,
                    (closed, prefix_files(nv, old_prefix@, i as int)[k]),
                    old_prefix@,
                    new_prefix@,
                ),
        decreases names.len() - i,
    {
        let ghost p0 = prefix_files(nv, old_prefix@, i as int);
        let ghost p1 = prefix_files(nv, old_prefix@, i + 1);
        assert(nv[i as int] == names@[i as int]@);
        assert(entry_name(ov, dv, (closed, i as int)) == nv[i as int]);
        let step = plan_one(&names[i], closed, i, open, done, old_prefix, new_prefix);
        match step {
            Err(e) => {
                proof {
                    assert(p1 == p0.push(i as int));
                    lemma_prefix_files_extend(nv, old_prefix@, i + 1, names@.len() as int);
                    let pf_full = prefix_files(nv, old_prefix@, names@.len() as int);
                    assert(pf_full.take(p1.len() as int) == p1);
                    assert(pf_full[p0.len() as int] == p1[p0.len() as int]);
                    assert forall|j: int| 0 <= j < p0.len() implies !id_taken(
                        ov,
                        dv,
                        new_prefix@,
                        entry_number(ov, dv, #[trigger] full[j]),
                    ) by {
                        assert(pf_full[j] == p1[j]);
                        assert(p1[j] == p0[j]);
                    }
                    assert(first_conflict(ov, dv, full, new_prefix@, p0.len() as int));
                }
                return Err(e);
            },
            Ok(None) => {
                assert(p1 == p0);
            },
            Ok(Some(fr)) => {
                assert(p1 == p0.push(i as int));
                let ghost before = out@;
                out.push(fr);
                assert(out@.take(start.len() as int) =~= start) by {
                    assert(before.take(start.len() as int) == start);
                }
                assert forall|k: int| 0 <= k < p1.len() implies renames_entry(
                    #[trigger] out@[start.len() + k],
                    ov,
                    dv,
                    (closed, p1[k]),
                    old_prefix@,
                    new_prefix@,
                ) by {
                    if k < p0.len() {
                        assert(out@[start.len() + k] == before[start.len() + k]);
                        assert(p1[k] == p0[k]);
                    }
                }
                assert forall|k: int| 0 <= k < p1.len() implies !id_taken(
                    ov,
                    dv,
                    new_prefix@,
                    entry_number(ov, dv, (closed, #[trigger] p1[k])),
                ) by {
                    if k < p0.len() {
                        assert(p1[k] == p0[k]);
                    }
                }
            },
        }
        i = i + 1;
    }
    Ok(())
}

proof fn lemma_prefix_files_extend(names: Seq<Seq<char>>, prefix: Seq<char>, a: int, b: int)
    requires
        0 <= a <= b <= names.len(),
    ensures
        prefix_files(names, prefix, b).take(prefix_files(names, prefix, a).len() as int) == prefix_files(
            names,
            prefix,
            a,
        ),
        prefix_files(names, prefix, a).len() <= prefix_files(names, prefix, b).len(),
    decreases b - a,
{
    if a < b {
        lemma_prefix_files_extend(names, prefix, a, b - 1);
        let pa = prefix_files(names, prefix, a);
        let pb1 = prefix_files(names, prefix, b - 1);
        let pb = prefix_files(names, prefix, b);
        if named_ticket(names[b - 1]) matches Some((p, _, _)) && p == prefix {
            assert(pb == pb1.push(b - 1));
            assert(pb.take(pa.len() as int) =~= pb1.take(pa.len() as int));
        } else {
            assert(pb == pb1);
        }
    } else {
        assert(prefix_files(names, prefix, b).take(prefix_files(names, prefix, a).len() as int) =~= prefix_files(
            names,
            prefix,
            a,
        ));
    }
}


/// The ticket files to rename when prefix `old_prefix` becomes `new_prefix`:
/// every `.md` file of a ticket with the old prefix, the open ones first, each
/// keeping its number and getting its name's first occurrence of the old id
/// replaced by the new one. An error names the first file whose new id a file
/// of either directory already has.
pub fn plan_file_renames(
    open_names: &Vec<String>,
    done_names: &Vec<String>,
    old_prefix: &str,
    new_prefix: &str,
) -> (r: Result<Vec<FileRename>, CommandError>)
    ensures
        ({
            let ov = name_views(open_names@);
            let dv = name_views(done_names@);
            let es = rename_entries(ov, dv, old_prefix@);
            &&& r is Ok <==> forall|k: int|
                0 <= k < es.len() ==> !id_taken(ov, dv, new_prefix@, entry_number(ov, dv, #[trigger] es[k]))
            &&& r matches Ok(v) ==> v@.len() == es.len() && forall|k: int|
                0 <= k < es.len() ==> renames_entry(#[trigger] v@[k], ov, dv, es[k], old_prefix@, new_prefix@)
            &&& r matches Err(e) ==> exists|k: int|
                first_conflict(ov, dv, es, new_prefix@, k) && (e matches CommandError::RenameConflict {
                    new_id: a,
                    old_id: b,
                } && a@ == id_text(new_prefix@, entry_number(ov, dv, es[k])) && b@ == id_text(
                    old_prefix@,
                    entry_number(ov, dv, es[k]),
                ))
        }),
{
    let ghost ov = name_views(open_names@);
    let ghost dv = name_views(done_names@);
    let ghost eo = prefix_files(ov, old_prefix@, ov.len() as int).map_values(|i: int| (false, i));
    let ghost ed = prefix_files(dv, old_prefix@, dv.len() as int).map_values(|i: int| (true, i));
    let ghost es = rename_entries(ov, dv, old_prefix@);
    assert(es == eo + ed);
    let mut out: Vec<FileRename> = Vec::new();
    let r1 = plan_dir(open_names, false, open_names, done_names, old_prefix, new_prefix, &mut out);
    match r1 {
        Err(e) => {
            proof {
                let k = choose|k: int|
                    first_conflict(ov, dv, eo, new_prefix@, k) && (e matches CommandError::RenameConflict {
                        new_id: a,
                        old_id: b,
                    } && a@ == id_text(new_prefix@, entry_number(ov, dv, eo[k])) && b@ == id_text(
                        old_prefix@,
                        entry_number(ov, dv, eo[k]),
                    ));
                assert(es[k] == eo[k]);
                assert forall|j: int| 0 <= j < k implies !id_taken(
                    ov,
                    dv,
                    new_prefix@,
                    entry_number(ov, dv, #[trigger] es[j]),
                ) by {
                    assert(es[j] == eo[j]);
                }
                assert(first_conflict(ov, dv, es, new_prefix@, k));
                assert(!id_taken(ov, dv, new_prefix@, entry_number(ov, dv, es[k])) ==> false);
            }
            return Err(e);
        },
        Ok(()) => {},
    }
    let ghost mid = out@;
    let r2 = plan_dir(done_names, true, open_names, done_names, old_prefix, new_prefix, &mut out);
    match r2 {
        Err(e) => {
            proof {
                let k = choose|k: int|
                    first_conflict(ov, dv, ed, new_prefix@, k) && (e matches CommandError::RenameConflict {
                        new_id: a,
                        old_id: b,
                    } && a@ == id_text(new_prefix@, entry_number(ov, dv, ed[k])) && b@ == id_text(
                        old_prefix@,
                        entry_number(ov, dv, ed[k]),
                    ));
                let kk = eo.len() + k;
                assert(es[kk] == ed[k]);
                assert forall|j: int| 0 <= j < kk implies !id_taken(
                    ov,
                    dv,
                    new_prefix@,
                    entry_number(ov, dv, #[trigger] es[j]),
                ) by {
                    if j < eo.len() {
                        assert(es[j] == eo[j]);
                    } else {
                        assert(es[j] == ed[j - eo.len()]);
                    }
                }
                assert(first_conflict(ov, dv, es, new_prefix@, kk));
            }
            Err(e)
        },
        Ok(()) => {
            proof {
                assert forall|k: int| 0 <= k < es.len() implies !id_taken(
                    ov,
                    dv,
                    new_prefix@,
                    entry_number(ov, dv, #[trigger] es[k]),
                ) by {
                    if k < eo.len() {
                        assert(es[k] == eo[k]);
                    } else {
                        assert(es[k] == ed[k - eo.len()]);
                    }
                }
                assert forall|k: int| 0 <= k < es.len() implies renames_entry(
                    #[trigger] out@[k],
                    ov,
                    dv,
                    es[k],
                    old_prefix@,
                    new_prefix@,
                ) by {
                    assert(mid.len() == eo.len());
                    if k < eo.len() {
                        assert(es[k] == eo[k]);
                        assert(out@.take(mid.len() as int)[k] == mid[k]);
                        assert(out@[k] == mid[k]);
                        assert(renames_entry(mid[0 + k], ov, dv, eo[k], old_prefix@, new_prefix@));
                    } else {
                        let j = k - eo.len();
                        assert(es[k] == ed[j]);
                        assert(renames_entry(out@[mid.len() + j], ov, dv, ed[j], old_prefix@, new_prefix@));
                    }
                }
            }
            Ok(out)
        },
    }
}


/// A ticket file's text with every occurrence of the old id replaced by the
/// new one (the simple swap a prefix rename makes).
pub fn rewrite_ids(content: &str, old_id: &TicketId, new_id: &TicketId) -> (r: String)
    ensures
        r@ == replace_all(content@, id_text(old_id.prefix@, old_id.number), id_text(new_id.prefix@, new_id.number)),
{
    let a = old_id.to_string();
    let b = new_id.to_string();
    assert(a@.len() > 0) by {
        assert(a@ == id_text(old_id.prefix@, old_id.number));
        assert(a@[old_id.prefix@.len() as int] == '-');
    }
    replace_all_text(content, a.as_str(), b.as_str())
}

// ---------------------------------------------------------------------------
// Search
// ---------------------------------------------------------------------------
/// `str::to_lowercase` of the text.
pub uninterp spec fn lowercase(s: Seq<char>) -> Seq<char>;

/// `str::to_lowercase`: std's Unicode lower-casing of the text (a character
/// may become several, and a word-final capital sigma becomes `ς`). The
/// contract names the result and says nothing more of it.
#[verifier::external_body]
fn to_lowercase(s: &str) -> (r: String)
    ensures
        r@ == lowercase(s@),
{
    s.to_lowercase()
}

/// `needle` occurs in `hay`.
pub open spec fn contains_text(hay: Seq<char>, needle: Seq<char>) -> bool {
    exists|p: int| 0 <= p && p + needle.len() <= hay.len() && #[trigger] hay.subrange(p, p + needle.len()) == needle
}

/// Whether `needle` occurs in `hay`.
pub fn contains(hay: &str, needle: &str) -> (r: bool)
    ensures
        r == contains_text(hay@, needle@),
{
    let h = chars_of(hay);
    let n = chars_of(needle);
    let mut i: usize = 0;
    while n.len() <= h.len() - i
        invariant
            i <= h.len(),
            h@ == hay@,
            n@ == needle@,
            forall|p: int| 0 <= p < i ==> #[trigger] h@.subrange(p, p + n@.len()) != n@,
        decreases h.len() - i,
    {
        if has_at(&h, i, &n) {
            assert(h@.skip(i as int).take(n@.len() as int) =~= h@.subrange(i as int, i + n@.len()));
            return true;
        }
        assert(h@.skip(i as int).take(n@.len() as int) =~= h@.subrange(i as int, i + n@.len()));
        assert(n@.len() > 0) by {
            if n@.len() == 0 {
                assert(h@.skip(i as int).take(0) =~= n@);
            }
        }
        i = i + 1;
    }
    false
}

/// The ticket matches a lower-case query: it occurs in the lower-cased title,
/// preamble or the body of a comment.
pub open spec fn matches_query(t: Ticket, needle_lower: Seq<char>) -> bool {
    ||| contains_text(lowercase(t.title@), needle_lower)
    ||| contains_text(lowercase(t.preamble@), needle_lower)
    ||| exists|i: int| 0 <= i < t.comments@.len() && contains_text(lowercase(#[trigger] t.comments@[i].body@), needle_lower)
}

/// Whether the ticket matches a lower-case query (title, preamble, then comment bodies).
pub fn ticket_matches(ticket: &Ticket, needle_lower: &str) -> (r: bool)
    ensures
        r == matches_query(*ticket, needle_lower@),
{
    let t = to_lowercase(ticket.title.as_str());
    if contains(t.as_str(), needle_lower) {
        return true;
    }
    let p = to_lowercase(ticket.preamble.as_str());
    if contains(p.as_str(), needle_lower) {
        return true;
    }
    let mut i: usize = 0;
    while i < ticket.comments.len()
        invariant
            i <= ticket.comments.len(),
            forall|k: int| 0 <= k < i ==> !contains_text(lowercase(#[trigger] ticket.comments@[k].body@), needle_lower@),
        decreases ticket.comments.len() - i,
    {
        let b = to_lowercase(ticket.comments[i].body.as_str());
        if contains(b.as_str(), needle_lower) {
            return true;
        }
        i = i + 1;
    }
    false
}

/// Search is case-insensitive on the title, the preamble and every comment
/// body alike: a ticket matches a lower-case query whenever the query occurs
/// in the lower-cased text of any of them, and only then.
pub proof fn law_search_covers_all_texts(t: Ticket, needle_lower: Seq<char>, i: int)
    ensures
        contains_text(lowercase(t.title@), needle_lower) ==> matches_query(t, needle_lower),
        contains_text(lowercase(t.preamble@), needle_lower) ==> matches_query(t, needle_lower),
        0 <= i < t.comments@.len() && contains_text(lowercase(t.comments@[i].body@), needle_lower) ==> matches_query(
            t,
            needle_lower,
        ),
        matches_query(t, needle_lower) ==> contains_text(lowercase(t.title@), needle_lower) || contains_text(
            lowercase(t.preamble@),
            needle_lower,
        ) || exists|k: int|
            0 <= k < t.comments@.len() && contains_text(lowercase(#[trigger] t.comments@[k].body@), needle_lower),
{
}

/// Indices below `n` of the tickets that match the lower-case query.
pub open spec fn matching_upto(ts: Seq<Ticket>, needle_lower: Seq<char>, n: int) -> Seq<int>
    decreases n,
{
    if n <= 0 {
        seq![]
    } else if matches_query(ts[n - 1], needle_lower) {
        matching_upto(ts, needle_lower, n - 1).push(n - 1)
    } else {
        matching_upto(ts, needle_lower, n - 1)
    }
}

/// Indices, in order, of the tickets matching `query` case-insensitively
/// (the query is lower-cased too).
pub fn matching_tickets(tickets: &Vec<Ticket>, query: &str) -> (r: Vec<usize>)
    ensures
        r@.map_values(|x: usize| x as int) == matching_upto(tickets@, lowercase(query@), tickets@.len() as int),
        forall|k: int| 0 <= k < r@.len() ==> (#[trigger] r@[k]) < tickets@.len(),
{
    let needle = to_lowercase(query);
    let mut out: Vec<usize> = Vec::new();
    let mut i: usize = 0;
    while i < tickets.len()
        invariant
            i <= tickets.len(),
            needle@ == lowercase(query@),
            out@.map_values(|x: usize| x as int) == matching_upto(tickets@, lowercase(query@), i as int),
            forall|k: int| 0 <= k < out@.len() ==> (#[trigger] out@[k]) < i,
        decreases tickets.len() - i,
    {
        if ticket_matches(&tickets[i], needle.as_str()) {
            let ghost before = out@;
            out.push(i);
            assert(out@.map_values(|x: usize| x as int) =~= before.map_values(|x: usize| x as int).push(i as int));
        }
        i = i + 1;
    }
    out
}

// ---------------------------------------------------------------------------
// What `list` and `show` print
// ---------------------------------------------------------------------------
/// The status a listing shows: the ticket's, or `-`.
pub fn listed_status(ticket: &Ticket) -> (r: String)
    ensures
        r@ == match ticket.status {
            Some(s) => s@,
            None => "-"@,
        },
{
    match &ticket.status {
        Some(s) => s.clone(),
        None => "-".to_string(),
    }
}

/// The title a listing shows: the ticket's, or `(no title)` when it is empty.
pub fn listed_title(ticket: &Ticket) -> (r: String)
    ensures
        r@ == if ticket.title@.len() == 0 {
            "(no title)"@
        } else {
            ticket.title@
        },
{
    let t = chars_of(ticket.title.as_str());
    if t.len() == 0 {
        "(no title)".to_string()
    } else {
        ticket.title.clone()
    }
}

/// The heading `show` prints: `ID Title`, or `ID` without a title.
pub fn shown_heading(ticket: &Ticket) -> (r: String)
    ensures
        r@ == if ticket.title@.len() == 0 {
            id_text(ticket.id.prefix@, ticket.id.number)
        } else {
            id_text(ticket.id.prefix@, ticket.id.number) + " "@ + ticket.title@
        },
{
    let id = ticket.id.to_string();
    let t = chars_of(ticket.title.as_str());
    if t.len() == 0 {
        id
    } else {
        let a = concat(id.as_str(), " ");
        concat(a.as_str(), ticket.title.as_str())
    }
}

/// The status `show` prints: the ticket's, or `(no status)`.
pub fn shown_status(ticket: &Ticket) -> (r: String)
    ensures
        r@ == match ticket.status {
            Some(s) => s@,
            None => "(no status)"@,
        },
{
    match &ticket.status {
        Some(s) => s.clone(),
        None => "(no status)".to_string(),
    }
}

/// A comment's heading as `show` prints it: `Author (YYYY-MM-DD HH:MM)`, or the author alone.
pub fn shown_comment_heading(comment: &Comment) -> (r: String)
    requires
        comment.timestamp matches Some(t) ==> t.wf(),
    ensures
        r@ == match comment.timestamp {
            Some(t) => comment.author@ + " ("@ + minute_text(t) + ")"@,
            None => comment.author@,
        },
{
    match &comment.timestamp {
        Some(t) => {
            let ts = format_minute_text(t);
            let a = concat(comment.author.as_str(), " (");
            let b = concat(a.as_str(), ts.as_str());
            concat(b.as_str(), ")")
        },
        None => comment.author.clone(),
    }
}

} // verus!
