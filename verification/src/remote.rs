//! Remote issue trackers: what a remote issue holds, the GitHub provider's
//! identity, choosing sync entries and providers, and turning the fields that
//! the `gh` CLI reports into remote issues.
use vstd::prelude::*;
use crate::config::{Config, SyncConfig};
use crate::text::{chars_of, chars_eq, string_from_chars, push_all, decimal, decimal_chars};
use crate::timestamp::{UtcInstant, parse_rfc3339, rfc3339_instant};

verus! {

/// Whether a remote issue is open.
#[derive(Debug, Clone, Copy, PartialEq, Eq, Structural)]
pub enum RemoteState {
    Open,
    Closed,
}

#[derive(Debug, Clone)]
pub struct RemoteComment {
    pub author: String,
    pub body: String,
    pub created_at: UtcInstant,
}

#[derive(Debug, Clone)]
pub struct RemoteIssue {
    pub remote_id: String,
    pub title: String,
    pub state: RemoteState,
    pub body: String,
    pub author: String,
    pub created_at: UtcInstant,
    pub comments: Vec<RemoteComment>,
    pub updated_at: UtcInstant,
}

impl RemoteIssue {
    /// Its instants are well formed.
    pub open spec fn wf(&self) -> bool {
        &&& self.created_at.wf()
        &&& self.updated_at.wf()
        &&& forall|i: int| 0 <= i < self.comments@.len() ==> (#[trigger] self.comments@[i]).created_at.wf()
    }
}

/// What creating an issue gives back.
#[derive(Debug, Clone)]
pub struct CreatedIssue {
    pub remote_id: String,
    pub updated_at: UtcInstant,
}

/// Errors of choosing and talking to sync providers.
#[derive(Debug, Clone)]
pub enum SyncError {
    /// A provider other than `github` was named.
    UnknownProvider(String),
    /// No `[[sync]]` entry names this project.
    NoSyncConfiguration(String),
    /// A date in the provider's answer could not be read.
    BadDatetime(String),
}

pub open spec fn sync_error_text(e: SyncError) -> Seq<char> {
    match e {
        SyncError::UnknownProvider(p) => "Unknown sync provider: "@ + p@,
        SyncError::NoSyncConfiguration(p) => "No sync configuration found for project: "@ + p@,
        SyncError::BadDatetime(s) => "Failed to parse datetime: "@ + s@,
    }
}

impl SyncError {
    /// The error as a sentence.
    pub fn message(&self) -> (r: String)
        ensures
            r@ == sync_error_text(*self),
    {
        let (head, arg) = match self {
            SyncError::UnknownProvider(p) => ("Unknown sync provider: ", p),
            SyncError::NoSyncConfiguration(p) => ("No sync configuration found for project: ", p),
            SyncError::BadDatetime(s) => ("Failed to parse datetime: ", s),
        };
        let mut out = chars_of(head);
        let a = chars_of(arg.as_str());
        push_all(&mut out, &a);
        string_from_chars(&out)
    }
}

/// The GitHub provider of a repository (`owner/name`), driven through the `gh` CLI.
#[derive(Debug, Clone)]
pub struct GitHubProvider {
    pub repo: String,
}

pub open spec fn github_name() -> Seq<char> {
    seq!['g', 'i', 't', 'h', 'u', 'b']
}

fn github_chars() -> (r: Vec<char>)
    ensures
        r@ == github_name(),
{
    let r = vec!['g', 'i', 't', 'h', 'u', 'b'];
    assert(r@ =~= github_name());
    r
}

impl GitHubProvider {
    pub fn new(repo: &str) -> (r: GitHubProvider)
        ensures
            r.repo@ == repo@,
    {
        GitHubProvider { repo: repo.to_string() }
    }

    /// The provider's name as sync metadata records it: `github`.
    pub fn name(&self) -> (r: String)
        ensures
            r@ == github_name(),
    {
        string_from_chars(&github_chars())
    }
}

/// The sync entries of `project`, or all entries when no project is named.
pub open spec fn selected_syncs(syncs: Seq<SyncConfig>, project: Option<Seq<char>>) -> Seq<SyncConfig> {
    match project {
        Some(p) => syncs.filter(|s: SyncConfig| s.project@ == p),
        None => syncs,
    }
}

/// The sync entries to run: those of `project` (an error if there are none), or all.
pub fn resolve_sync_configs<'a>(config: &'a Config, project: Option<&str>) -> (r: Result<
    Vec<&'a SyncConfig>,
    SyncError,
>)
    ensures
        match project {
            Some(p) => {
                let sel = selected_syncs(config.sync@, Some(p@));
                &&& sel.len() == 0 ==> (r matches Err(SyncError::NoSyncConfiguration(q)) && q@ == p@)
                &&& sel.len() > 0 ==> (r matches Ok(v) && v@.map_values(|s: &SyncConfig| *s) == sel)
            },
            None => r matches Ok(v) && v@.map_values(|s: &SyncConfig| *s) == config.sync@,
        },
{
    let mut out: Vec<&'a SyncConfig> = Vec::new();
    let want = match project {
        Some(p) => Some(chars_of(p)),
        None => None,
    };
    let mut i: usize = 0;
    while i < config.sync.len()
        invariant
            i <= config.sync.len(),
            want matches Some(w) ==> project matches Some(p) && w@ == p@,
            want is None ==> project is None,
            out@.map_values(|s: &SyncConfig| *s) == selected_syncs(
                config.sync@.take(i as int),
                match project {
                    Some(p) => Some(p@),
                    None => None,
                },
            ),
        decreases config.sync.len() - i,
    {
        let sc = &config.sync[i];
        let keep = match &want {
            Some(w) => {
                let pc = chars_of(sc.project.as_str());
                chars_eq(&pc, w)
            },
            None => true,
        };
        let ghost before = out@;
        proof {
            let t = config.sync@.take(i + 1);
            assert(t.drop_last() =~= config.sync@.take(i as int));
            reveal_with_fuel(Seq::filter, 1);
        }
        if keep {
            out.push(sc);
        }
        proof {
            assert(out@.map_values(|s: &SyncConfig| *s) =~= selected_syncs(
                config.sync@.take(i + 1),
                match project {
                    Some(p) => Some(p@),
                    None => None,
                },
            )) by {
                reveal_with_fuel(Seq::filter, 1);
                let t = config.sync@.take(i + 1);
                assert(t.drop_last() =~= config.sync@.take(i as int));
                assert(t.last() == *sc);
            }
        }
        i = i + 1;
    }
    assert(config.sync@.take(config.sync.len() as int) =~= config.sync@);
    match project {
        Some(p) => {
            if out.len() == 0 {
                return Err(SyncError::NoSyncConfiguration(p.to_string()));
            }
            Ok(out)
        },
        None => Ok(out),
    }
}

/// The provider of a sync entry: `github` is the only one.
pub fn create_provider(sync_config: &SyncConfig) -> (r: Result<GitHubProvider, SyncError>)
    ensures
        sync_config.provider@ == github_name() ==> (r matches Ok(g) && g.repo@ == sync_config.repo@),
        sync_config.provider@ != github_name() ==> (r matches Err(SyncError::UnknownProvider(q))
            && q@ == sync_config.provider@),
{
    let pc = chars_of(sync_config.provider.as_str());
    if chars_eq(&pc, &github_chars()) {
        Ok(GitHubProvider::new(sync_config.repo.as_str()))
    } else {
        Err(SyncError::UnknownProvider(sync_config.provider.clone()))
    }
}

// ---------------------------------------------------------------------------
// Issues as the `gh` CLI reports them
// ---------------------------------------------------------------------------
/// A comment in `gh issue view --json` output.
#[derive(Debug, Clone)]
pub struct GhComment {
    pub author: String,
    pub body: String,
    pub created_at: String,
}

/// An issue in `gh issue list/view --json` output.
#[derive(Debug, Clone)]
pub struct GhIssue {
    pub number: u64,
    pub title: String,
    pub state: String,
    pub body: String,
    pub updated_at: String,
    pub created_at: String,
    pub author: String,
    pub comments: Option<Vec<GhComment>>,
}

pub open spec fn open_word() -> Seq<char> {
    seq!['O', 'P', 'E', 'N']
}

/// Reads an RFC 3339 date of the provider's answer.
pub fn parse_datetime(s: &str) -> (r: Result<UtcInstant, SyncError>)
    ensures
        r is Ok <==> rfc3339_instant(s@) is Some,
        r matches Ok(u) ==> rfc3339_instant(s@) == Some((u.secs as int, u.nanos as int)) && u.wf(),
        r matches Err(e) ==> e matches SyncError::BadDatetime(t) && t@ == s@,
{
    match parse_rfc3339(s) {
        Some(u) => Ok(u),
        None => Err(SyncError::BadDatetime(s.to_string())),
    }
}

fn clone_string(s: &String) -> (r: String)
    ensures
        r@ == s@,
{
    s.clone()
}

/// All dates of a reported issue can be read.
pub open spec fn gh_readable(gh: GhIssue) -> bool {
    &&& rfc3339_instant(gh.updated_at@) is Some
    &&& rfc3339_instant(gh.created_at@) is Some
    &&& (gh.comments matches Some(cs) ==> forall|i: int|
        0 <= i < cs@.len() ==> rfc3339_instant((#[trigger] cs@[i]).created_at@) is Some)
}

/// A remote comment holds what the reported comment holds.
pub open spec fn gh_comment_converted(c: GhComment, rc: RemoteComment) -> bool {
    &&& rc.author@ == c.author@
    &&& rc.body@ == c.body@
    &&& rfc3339_instant(c.created_at@) == Some((rc.created_at.secs as int, rc.created_at.nanos as int))
    &&& rc.created_at.wf()
}

/// A remote issue holds what the reported issue holds: `OPEN` is open and any
/// other state closed, the number is the remote id, dates are read as RFC 3339.
pub open spec fn gh_converted(gh: GhIssue, ri: RemoteIssue) -> bool {
    &&& ri.remote_id@ == decimal(gh.number as nat)
    &&& ri.title@ == gh.title@
    &&& ri.state == (if gh.state@ == open_word() {
        RemoteState::Open
    } else {
        RemoteState::Closed
    })
    &&& ri.body@ == gh.body@
    &&& ri.author@ == gh.author@
    &&& rfc3339_instant(gh.created_at@) == Some((ri.created_at.secs as int, ri.created_at.nanos as int))
    &&& rfc3339_instant(gh.updated_at@) == Some((ri.updated_at.secs as int, ri.updated_at.nanos as int))
    &&& ri.created_at.wf() && ri.updated_at.wf()
    &&& ri.comments@.len() == match gh.comments {
        Some(cs) => cs@.len(),
        None => 0,
    }
    &&& forall|i: int|
        0 <= i < ri.comments@.len() ==> (gh.comments matches Some(cs) && gh_comment_converted(
            cs@[i],
            #[trigger] ri.comments@[i],
        ))
}

/// A reported issue as a remote issue; an unreadable date (updated, created,
/// then each comment's, the first one) is the error.
pub fn gh_issue_to_remote(gh: &GhIssue) -> (r: Result<RemoteIssue, SyncError>)
    ensures
        r is Ok <==> gh_readable(*gh),
        r matches Ok(ri) ==> gh_converted(*gh, ri) && ri.wf(),
        r matches Err(e) ==> e is BadDatetime,
{
    let st = chars_of(gh.state.as_str());
    let ow = vec!['O', 'P', 'E', 'N'];
    assert(ow@ =~= open_word());
    let state = if chars_eq(&st, &ow) {
        RemoteState::Open
    } else {
        RemoteState::Closed
    };
    let updated_at = parse_datetime(gh.updated_at.as_str())?;
    let created_at = parse_datetime(gh.created_at.as_str())?;
    let mut comments: Vec<RemoteComment> = Vec::new();
    match &gh.comments {
        Some(cs) => {
            let mut i: usize = 0;
            while i < cs.len()
                invariant
                    i <= cs.len(),
                    gh.comments == Some(*cs),
                    comments@.len() == i,
                    forall|k: int| 0 <= k < i ==> rfc3339_instant((#[trigger] cs@[k]).created_at@) is Some,
                    forall|k: int| 0 <= k < i ==> gh_comment_converted(cs@[k], #[trigger] comments@[k]),
                decreases cs.len() - i,
            {
                let c = &cs[i];
                let at = match parse_datetime(c.created_at.as_str()) {
                    Ok(u) => u,
                    Err(e) => {
                        return Err(e);
                    },
                };
                comments.push(
                    RemoteComment { author: clone_string(&c.author), body: clone_string(&c.body), created_at: at },
                );
                i = i + 1;
            }
        },
        None => {},
    }
    let id = decimal_chars(gh.number);
    Ok(
        RemoteIssue {
            remote_id: string_from_chars(&id),
            title: clone_string(&gh.title),
            state,
            body: clone_string(&gh.body),
            author: clone_string(&gh.author),
            created_at,
            comments,
            updated_at,
        },
    )
}

/// Every reported issue as a remote issue; the first that fails is the error.
pub fn gh_issues_to_remote(issues: &Vec<GhIssue>) -> (r: Result<Vec<RemoteIssue>, SyncError>)
    ensures
        r is Ok <==> forall|i: int| 0 <= i < issues@.len() ==> gh_readable(#[trigger] issues@[i]),
        r matches Ok(v) ==> v@.len() == issues@.len() && forall|i: int|
            0 <= i < v@.len() ==> gh_converted(issues@[i], #[trigger] v@[i]) && v@[i].wf(),
        r matches Err(e) ==> e is BadDatetime,
{
    let mut out: Vec<RemoteIssue> = Vec::new();
    let mut i: usize = 0;
    while i < issues.len()
        invariant
            i <= issues.len(),
            out@.len() == i,
            forall|k: int| 0 <= k < i ==> gh_readable(#[trigger] issues@[k]),
            forall|k: int| 0 <= k < i ==> gh_converted(issues@[k], #[trigger] out@[k]) && out@[k].wf(),
        decreases issues.len() - i,
    {
        let ri = gh_issue_to_remote(&issues[i])?;
        out.push(ri);
        i = i + 1;
    }
    Ok(out)
}


/// What `gh issue create` reports back: the new issue's number (its remote
/// id) and its update time, read as RFC 3339.
pub fn created_issue(number: u64, updated_at: &str) -> (r: Result<CreatedIssue, SyncError>)
    ensures
        r is Ok <==> rfc3339_instant(updated_at@) is Some,
        r matches Ok(c) ==> c.remote_id@ == decimal(number as nat) && rfc3339_instant(updated_at@) == Some(
            (c.updated_at.secs as int, c.updated_at.nanos as int),
        ) && c.updated_at.wf(),
        r matches Err(e) ==> e matches SyncError::BadDatetime(t) && t@ == updated_at@,
{
    let u = parse_datetime(updated_at)?;
    let id = decimal_chars(number);
    Ok(CreatedIssue { remote_id: string_from_chars(&id), updated_at: u })
}

} // verus!
