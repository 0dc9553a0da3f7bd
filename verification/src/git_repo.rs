//! The state of a git checkout, as recorded: the guard that decides whether an
//! observation may be recorded, and the record.
use vstd::prelude::*;
use crate::chars;
use crate::text;

verus! {

/// Status entries that are kept as a sample.
pub const DIRTY_SAMPLE: usize = 5;

/// Identity and last observed state of a checkout.
#[derive(Debug, PartialEq, Eq)]
pub struct RepoState {
    pub repo_key: String,
    /// The root of the worktree.
    pub root: String,
    pub remote_url: Option<String>,
    pub trunk_branch: String,
    /// The branch that is checked out, if any.
    pub current_branch: Option<String>,
    pub on_trunk: bool,
    pub head_sha: String,
    pub dirty: bool,
    /// When it was recorded; empty before that.
    pub synced_at: String,
}

/// What is uncommitted.
#[derive(Debug, PartialEq, Eq)]
pub struct DirtyDetails {
    pub changed_paths: usize,
    /// The first few status entries.
    pub sample: Vec<String>,
}

impl DirtyDetails {
    /// A copy.
    pub fn copy(&self) -> (r: DirtyDetails)
        ensures
            r.changed_paths == self.changed_paths,
            text::str_views(r.sample@) == text::str_views(self.sample@),
    {
        let sample = first(&self.sample, self.sample.len());
        assert(text::str_views(sample@) =~= text::str_views(self.sample@));
        DirtyDetails { changed_paths: self.changed_paths, sample }
    }
}

fn first(v: &Vec<String>, n: usize) -> (r: Vec<String>)
    ensures
        text::str_views(r@) == text::str_views(v@).take(if n < v@.len() {
            n as int
        } else {
            v@.len() as int
        }),
{
    let mut out: Vec<String> = Vec::new();
    let mut i: usize = 0;
    while i < v.len() && i < n
        invariant
            i <= v@.len(),
            i <= n,
            out@.len() == i,
            forall|j: int| 0 <= j < i ==> (#[trigger] out@[j])@ == v@[j]@,
        decreases v@.len() - i,
    {
        out.push(v[i].clone());
        i += 1;
    }
    assert(text::str_views(out@) =~= text::str_views(v@).take(i as int));
    out
}

/// Why a sync failed.
#[derive(Debug)]
pub enum GitError {
    NotAGitRepo,
    DetachedHead,
    NotOnTrunk { current_branch: String, trunk: String },
    Dirty(DirtyDetails),
    Io(String),
}

impl GitError {
    /// The error for humans.
    pub fn message(&self) -> (r: String)
        ensures
            r@ == (match self {
                GitError::NotAGitRepo => "not a git repository"@,
                GitError::DetachedHead => "detached HEAD — no current branch to check"@,
                GitError::NotOnTrunk { current_branch, trunk } => "on branch `"@ + current_branch@
                    + "`, not the trunk `"@ + trunk@ + "` — refusing to sync repo state"@,
                GitError::Dirty(d) => "working tree has "@ + chars::dec(d.changed_paths as nat)
                    + " uncommitted change(s)"@,
                GitError::Io(e) => "git io error: "@ + e@,
            }),
    {
        match self {
            GitError::NotAGitRepo => "not a git repository".to_owned(),
            GitError::DetachedHead => "detached HEAD — no current branch to check".to_owned(),
            GitError::NotOnTrunk { current_branch, trunk } => {
                let mut out = "on branch `".to_owned();
                out.push_str(current_branch.as_str());
                out.push_str("`, not the trunk `");
                out.push_str(trunk.as_str());
                out.push_str("` — refusing to sync repo state");
                out
            },
            GitError::Dirty(d) => {
                let mut out = "working tree has ".to_owned();
                text::push_usize(&mut out, d.changed_paths);
                out.push_str(" uncommitted change(s)");
                out
            },
            GitError::Io(e) => {
                let mut out = "git io error: ".to_owned();
                out.push_str(e.as_str());
                out
            },
        }
    }
}

/// How strict a sync is.
#[derive(Clone, Copy, Debug, PartialEq, Eq, Structural)]
pub struct SyncOptions {
    /// Only the trunk is recorded.
    pub require_trunk: bool,
    /// Only a clean tree is recorded.
    pub require_clean: bool,
}

impl Default for SyncOptions {
    /// Only the trunk is recorded.
    fn default() -> (r: SyncOptions)
        ensures
            r == (SyncOptions { require_trunk: true, require_clean: false }),
    {
        SyncOptions { require_trunk: true, require_clean: false }
    }
}

impl SyncOptions {
    /// Everything is recorded.
    pub fn permissive() -> (r: SyncOptions)
        ensures
            r == (SyncOptions { require_trunk: false, require_clean: false }),
    {
        SyncOptions { require_trunk: false, require_clean: false }
    }
}

/// Decides whether an observation may be recorded: the trunk before the clean tree.
pub fn evaluate_guard(
    detached: bool,
    current_branch: Option<&str>,
    trunk: &str,
    on_trunk: bool,
    dirty_details: Option<&DirtyDetails>,
    opts: SyncOptions,
) -> (r: Result<(), GitError>)
    ensures
        match r {
            Ok(_) => (opts.require_trunk ==> !detached && on_trunk) && (opts.require_clean
                ==> dirty_details is None),
            Err(GitError::DetachedHead) => opts.require_trunk && detached,
            Err(GitError::NotOnTrunk { current_branch: b, trunk: t }) => opts.require_trunk
                && !detached && !on_trunk && t@ == trunk@ && b@ == (match current_branch {
                Some(c) => c@,
                None => ""@,
            }),
            Err(GitError::Dirty(d)) => (opts.require_trunk ==> !detached && on_trunk)
                && opts.require_clean && dirty_details is Some && d.changed_paths
                == dirty_details->0.changed_paths && text::str_views(d.sample@) == text::str_views(
                dirty_details->0.sample@,
            ),
            Err(_) => false,
        },
{
    if opts.require_trunk {
        if detached {
            return Err(GitError::DetachedHead);
        }
        if !on_trunk {
            let b = match current_branch {
                Some(c) => c,
                None => "",
            };
            return Err(
                GitError::NotOnTrunk { current_branch: b.to_owned(), trunk: trunk.to_owned() },
            );
        }
    }
    if opts.require_clean {
        if let Some(d) = dirty_details {
            return Err(GitError::Dirty(d.copy()));
        }
    }
    Ok(())
}

/// What was observed of a checkout.
#[derive(Debug)]
pub struct Observation {
    pub repo_key: String,
    /// The path that was asked about.
    pub path: String,
    pub toplevel: Option<String>,
    pub remote_url: Option<String>,
    pub trunk_branch: String,
    pub current_branch: Option<String>,
    pub head_sha: Option<String>,
    /// The status entries.
    pub porcelain: Vec<String>,
}

impl Observation {
    /// Whether the trunk is checked out.
    pub open spec fn on_trunk(self) -> bool {
        self.current_branch matches Some(b) && b@ == self.trunk_branch@
    }

    /// The state that the observation records.
    pub open spec fn records(self, s: RepoState) -> bool {
        &&& s.repo_key == self.repo_key
        &&& s.root == (match self.toplevel {
            Some(t) => t,
            None => self.path,
        })
        &&& s.remote_url == self.remote_url
        &&& s.trunk_branch == self.trunk_branch
        &&& s.current_branch == self.current_branch
        &&& s.on_trunk == self.on_trunk()
        &&& s.head_sha@ == (match self.head_sha {
            Some(h) => h@,
            None => seq![],
        })
        &&& s.dirty == (self.porcelain@.len() > 0)
        &&& s.synced_at@.len() == 0
    }

    /// Whether the observation may be recorded.
    pub open spec fn passes(self, opts: SyncOptions) -> bool {
        (opts.require_trunk ==> self.on_trunk()) && (opts.require_clean ==> self.porcelain@.len()
            == 0)
    }

    /// The state to record, or why nothing is recorded.
    pub fn resolve(self, opts: SyncOptions) -> (r: Result<RepoState, GitError>)
        ensures
            match r {
                Ok(s) => self.passes(opts) && self.records(s),
                Err(GitError::DetachedHead) => opts.require_trunk && self.current_branch is None,
                Err(GitError::NotOnTrunk { current_branch, trunk }) => opts.require_trunk
                    && !self.on_trunk() && (self.current_branch matches Some(b) && current_branch@
                    == b@) && trunk@ == self.trunk_branch@,
                Err(GitError::Dirty(d)) => (opts.require_trunk ==> self.on_trunk())
                    && opts.require_clean && d.changed_paths == self.porcelain@.len()
                    && d.changed_paths > 0 && text::str_views(d.sample@) == text::str_views(
                    self.porcelain@,
                ).take(
                    if self.porcelain@.len() > DIRTY_SAMPLE {
                        DIRTY_SAMPLE as int
                    } else {
                        self.porcelain@.len() as int
                    },
                ),
                Err(_) => false,
            },
            r matches Err(GitError::Dirty(d)) ==> text::str_views(d.sample@).len() == (if d.changed_paths
                > 5 {
                5
            } else {
                d.changed_paths as int
            }),
    {
        let detached = self.current_branch.is_none();
        let on_trunk = match &self.current_branch {
            Some(b) => text::eq(b.as_str(), self.trunk_branch.as_str()),
            None => false,
        };
        let dirty = self.porcelain.len() > 0;
        let details: Option<DirtyDetails> = if dirty {
            Some(
                DirtyDetails {
                    changed_paths: self.porcelain.len(),
                    sample: first(&self.porcelain, DIRTY_SAMPLE),
                },
            )
        } else {
            None
        };
        let branch: Option<&str> = match &self.current_branch {
            Some(b) => Some(b.as_str()),
            None => None,
        };
        let guard = evaluate_guard(
            detached,
            branch,
            self.trunk_branch.as_str(),
            on_trunk,
            details.as_ref(),
            opts,
        );
        if let Err(e) = guard {
            return Err(e);
        }
        let synced_at = String::new();
        let head_sha = match self.head_sha {
            Some(h) => h,
            None => String::new(),
        };
        assert(self.head_sha is None ==> head_sha@ =~= seq![]);
        Ok(
            RepoState {
                repo_key: self.repo_key,
                root: match self.toplevel {
                    Some(t) => t,
                    None => self.path,
                },
                remote_url: self.remote_url,
                trunk_branch: self.trunk_branch,
                current_branch: self.current_branch,
                on_trunk,
                head_sha,
                dirty,
                synced_at,
            },
        )
    }
}

/// Law: what a strict sync records is on its trunk; what a permissive one records
/// says whether it is.
pub proof fn recorded_state_is_honest(o: Observation, opts: SyncOptions, s: RepoState)
    requires
        o.passes(opts),
        o.records(s),
    ensures
        opts.require_trunk ==> s.on_trunk,
        s.on_trunk <==> (s.current_branch matches Some(b) && b@ == s.trunk_branch@),
        opts.require_clean ==> !s.dirty,
{
}

/// Law: what is recorded is what was seen: the same repository and branches, rooted at the
/// top of the checkout where that is known, dirty exactly when an entry has changed.
pub proof fn recorded_state_is_what_was_seen(o: Observation, s: RepoState, entry: String)
    requires
        o.records(s),
    ensures
        s.repo_key@ == o.repo_key@,
        s.trunk_branch@ == o.trunk_branch@,
        s.current_branch == o.current_branch,
        s.remote_url == o.remote_url,
        o.toplevel matches Some(t) ==> s.root@ == t@,
        o.toplevel is None ==> s.root@ == o.path@,
        o.head_sha matches Some(h) ==> s.head_sha@ == h@,
        o.head_sha is None ==> s.head_sha@.len() == 0,
        o.porcelain@.contains(entry) ==> s.dirty,
        o.porcelain@ == Seq::<String>::empty() ==> !s.dirty,
{
}

/// Law: a sync that asks for nothing records whatever it sees; one that asks for the trunk
/// refuses a checkout without a branch.
pub proof fn only_what_is_asked_for_refuses(o: Observation, opts: SyncOptions, entry: String)
    ensures
        !opts.require_trunk && !opts.require_clean ==> o.passes(opts),
        opts.require_trunk && o.current_branch is None ==> !o.passes(opts),
        opts.require_clean && o.porcelain@.contains(entry) ==> !o.passes(opts),
        o.on_trunk() && o.porcelain@.len() == 0 ==> o.passes(opts),
{
}

} // verus!
