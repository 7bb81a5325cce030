//! Toggl Track data model: time entries with their effective durations,
//! project display metadata, and a client whose memoizing project cache and
//! request URLs are verified; the HTTP transport itself stays outside.
use vstd::prelude::*;
use vstd::string::StringExecFns;
use crate::text::dec_rep;
use crate::time_utils::Date;

verus! {

/// A single tracked interval as the service reports it.
pub struct TimeEntry {
    /// Free-form text; may be empty.
    pub description: String,
    pub workspace_id: u32,
    /// Absent means "no project".
    pub project_id: Option<u32>,
    /// Seconds; a negative value marks an entry still running.
    pub duration: i32,
    /// Start of the interval, seconds since the Unix epoch.
    pub start: i64,
}

/// An RGB color with alpha, one byte per channel.
#[derive(Clone, Copy, PartialEq, Eq, Structural, Debug)]
pub struct Color {
    pub r: u8,
    pub g: u8,
    pub b: u8,
    pub a: u8,
}

/// Display metadata for a project.
#[derive(Clone)]
pub struct Project {
    pub name: String,
    pub color: Color,
}

/// The effective duration of an entry in seconds at wall-clock time `now`:
/// the recorded value when it is final (non-negative), else the time elapsed
/// since the entry started, clamped into `u32`.
pub open spec fn spec_effective_duration(e: TimeEntry, now: i64) -> u32 {
    if e.duration >= 0 {
        e.duration as u32
    } else if now <= e.start {
        0u32
    } else if now - e.start >= u32::MAX {
        u32::MAX
    } else {
        (now - e.start) as u32
    }
}

impl TimeEntry {
    /// The pair that decides which group an entry belongs to.
    pub open spec fn spec_key(self) -> (u32, Option<u32>) {
        (self.workspace_id, self.project_id)
    }

    /// The entry's effective duration if the wall clock reads `now`.
    pub fn effective_duration_at(&self, now: i64) -> (r: u32)
        ensures
            r == spec_effective_duration(*self, now),
    {
        if self.duration >= 0 {
            self.duration as u32
        } else {
            let diff: i128 = (now as i128) - (self.start as i128);
            if diff <= 0 {
                0
            } else if diff >= u32::MAX as i128 {
                u32::MAX
            } else {
                diff as u32
            }
        }
    }

    /// The entry's effective duration now: the recorded seconds, or for a
    /// running entry the seconds elapsed since it started.
    pub fn duration_seconds(&self) -> (r: u32)
        ensures
            self.duration >= 0 ==> r == self.duration as u32,
            exists|now: i64| r == spec_effective_duration(*self, now),
    {
        let now = now_epoch_seconds();
        let r = self.effective_duration_at(now);
        proof {
            assert(r == spec_effective_duration(*self, now));
        }
        r
    }
}

/// Relies on chrono::Local::now().timestamp(): the number of non-leap
/// seconds since the Unix epoch, provided the system clock reads 1970 or
/// later (chrono refuses an earlier clock). The result depends on the
/// clock, so nothing is promised of its value.
#[verifier::external_body]
fn now_epoch_seconds() -> i64 {
    chrono::Local::now().timestamp()
}

struct CachedProject {
    workspace_id: u32,
    project_id: u32,
    project: Project,
}

spec fn cache_key(c: CachedProject) -> (u32, u32) {
    (c.workspace_id, c.project_id)
}

spec fn cache_map_of(s: Seq<CachedProject>) -> Map<(u32, u32), Project>
    decreases s.len(),
{
    if s.len() == 0 {
        Map::empty()
    } else {
        cache_map_of(s.drop_last()).insert(cache_key(s.last()), s.last().project)
    }
}

spec fn cache_keys_unique(s: Seq<CachedProject>) -> bool {
    forall|i: int, j: int| 0 <= i < j < s.len() ==> cache_key(s[i]) != cache_key(s[j])
}

proof fn lemma_cache_map_contains(s: Seq<CachedProject>, k: (u32, u32))
    ensures
        cache_map_of(s).contains_key(k) <==> exists|i: int|
            0 <= i < s.len() && cache_key(s[i]) == k,
    decreases s.len(),
{
    if s.len() == 0 {
    } else {
        lemma_cache_map_contains(s.drop_last(), k);
        if cache_key(s.last()) == k {
            assert(cache_key(s[s.len() - 1]) == k);
        } else if cache_map_of(s).contains_key(k) {
            let i = choose|i: int| 0 <= i < s.drop_last().len() && cache_key(s.drop_last()[i]) == k;
            assert(cache_key(s[i]) == k);
        } else if exists|i: int| 0 <= i < s.len() && cache_key(s[i]) == k {
            let i = choose|i: int| 0 <= i < s.len() && cache_key(s[i]) == k;
            assert(i < s.len() - 1);
            assert(cache_key(s.drop_last()[i]) == k);
        }
    }
}

proof fn lemma_cache_map_at(s: Seq<CachedProject>, i: int)
    requires
        cache_keys_unique(s),
        0 <= i < s.len(),
    ensures
        cache_map_of(s).contains_key(cache_key(s[i])),
        cache_map_of(s)[cache_key(s[i])] == s[i].project,
    decreases s.len(),
{
    if i == s.len() - 1 {
    } else {
        assert(cache_keys_unique(s.drop_last())) by {
            assert(forall|a: int, b: int|
                0 <= a < b < s.drop_last().len() ==> cache_key(s.drop_last()[a]) == cache_key(s[a])
                    && cache_key(s.drop_last()[b]) == cache_key(s[b]));
        }
        lemma_cache_map_at(s.drop_last(), i);
        assert(cache_key(s[i]) != cache_key(s.last()));
        assert(s.drop_last()[i] == s[i]);
    }
}

/// Remote-client state for one run: the API credential and the per-run
/// memoizing cache of resolved projects.
pub struct TogglClient {
    api_token: String,
    projects: Vec<CachedProject>,
}

impl TogglClient {
    /// The cache, seen as a map from (workspace id, project id) to the
    /// project resolved for that key.
    pub closed spec fn cache(self) -> Map<(u32, u32), Project> {
        cache_map_of(self.projects@)
    }

    /// The configured API credential.
    pub closed spec fn token(self) -> Seq<char> {
        self.api_token@
    }

    /// Cache entries never repeat a key.
    pub closed spec fn wf(self) -> bool {
        cache_keys_unique(self.projects@)
    }

    /// A remote project fetch is owed only for a present project id whose
    /// key the cache has not resolved yet.
    pub open spec fn spec_needs_fetch(self, workspace_id: u32, project_id: Option<u32>) -> bool {
        &&& project_id is Some
        &&& !self.cache().contains_key((workspace_id, project_id->0))
    }

    /// A fresh client with an empty project cache.
    pub fn new(api_token: String) -> (r: TogglClient)
        ensures
            r.wf(),
            r.cache() == Map::<(u32, u32), Project>::empty(),
            r.token() == api_token@,
    {
        let r = TogglClient { api_token, projects: Vec::new() };
        proof {
            assert(r.cache() =~= Map::<(u32, u32), Project>::empty());
        }
        r
    }

    /// The credential to present as the HTTP Basic username.
    pub fn api_token(&self) -> (r: &String)
        ensures
            r@ == self.token(),
    {
        &self.api_token
    }

    /// The project the cache holds for a key, if any.
    pub fn lookup_project(&self, workspace_id: u32, project_id: u32) -> (r: Option<&Project>)
        requires
            self.wf(),
        ensures
            match r {
                Some(p) => self.cache().contains_key((workspace_id, project_id)) && *p
                    == self.cache()[(workspace_id, project_id)],
                None => !self.cache().contains_key((workspace_id, project_id)),
            },
    {
        let n = self.projects.len();
        let mut i: usize = 0;
        while i < n
            invariant
                self.wf(),
                n == self.projects@.len(),
                i <= n,
                forall|j: int| 0 <= j < i ==> cache_key(self.projects@[j]) != (
                workspace_id,
                project_id,
                ),
            decreases n - i,
        {
            let c = &self.projects[i];
            if c.workspace_id == workspace_id && c.project_id == project_id {
                proof {
                    lemma_cache_map_at(self.projects@, i as int);
                }
                return Some(&c.project);
            }
            i += 1;
        }
        proof {
            lemma_cache_map_contains(self.projects@, (workspace_id, project_id));
        }
        None
    }

    /// Whether printing this group's row still needs a remote project
    /// lookup: only for a present project id whose key is not cached yet.
    pub fn needs_project_fetch(&self, workspace_id: u32, project_id: Option<u32>) -> (r: bool)
        requires
            self.wf(),
        ensures
            r == self.spec_needs_fetch(workspace_id, project_id),
    {
        match project_id {
            None => false,
            Some(pid) => match self.lookup_project(workspace_id, pid) {
                None => true,
                Some(_) => false,
            },
        }
    }

    /// Resolves a key into the cache: a key already present keeps its
    /// project (at-most-one resolution per key per run); a new key is added
    /// with the given project.
    pub fn store_project(&mut self, workspace_id: u32, project_id: u32, project: Project)
        requires
            old(self).wf(),
        ensures
            final(self).wf(),
            final(self).token() == old(self).token(),
            old(self).cache().contains_key((workspace_id, project_id)) ==> final(self).cache()
                == old(self).cache(),
            !old(self).cache().contains_key((workspace_id, project_id)) ==> final(self).cache()
                == old(self).cache().insert((workspace_id, project_id), project),
    {
        let n = self.projects.len();
        let mut i: usize = 0;
        while i < n
            invariant
                self.wf(),
                n == self.projects@.len(),
                i <= n,
                forall|j: int| 0 <= j < i ==> cache_key(self.projects@[j]) != (
                workspace_id,
                project_id,
                ),
            decreases n - i,
        {
            let c = &self.projects[i];
            if c.workspace_id == workspace_id && c.project_id == project_id {
                proof {
                    lemma_cache_map_contains(self.projects@, (workspace_id, project_id));
                }
                return ;
            }
            i += 1;
        }
        proof {
            lemma_cache_map_contains(self.projects@, (workspace_id, project_id));
        }
        let ghost before = self.projects@;
        self.projects.push(CachedProject { workspace_id, project_id, project });
        proof {
            assert(self.projects@.drop_last() =~= before);
            assert(forall|j: int|
                0 <= j < before.len() ==> cache_key(self.projects@[j]) == cache_key(before[j]));
        }
    }
}

/// A key the cache has resolved never needs a second remote fetch: at
/// most one lookup per distinct (workspace, project) key per run.
pub proof fn lemma_fetch_at_most_once(c: TogglClient, workspace_id: u32, project_id: u32)
    requires
        c.cache().contains_key((workspace_id, project_id)),
    ensures
        !c.spec_needs_fetch(workspace_id, Some(project_id)),
{
}

/// An entry without a project never triggers a remote project fetch.
pub proof fn lemma_no_project_no_fetch(c: TogglClient, workspace_id: u32)
    ensures
        !c.spec_needs_fetch(workspace_id, None::<u32>),
{
}

/// The URL that lists the time entries whose start falls in
/// [`start`, `end`): the fixed endpoint with both dates as ISO query
/// parameters.
pub open spec fn spec_time_entries_url(start: Date, end: Date) -> Seq<char> {
    "https://api.track.toggl.com/api/v9/me/time_entries?start_date="@ + start.spec_iso()
        + "&end_date="@ + end.spec_iso()
}

/// Builds the time-entry listing URL for a date range.
pub fn time_entries_url(start: &Date, end: &Date) -> (r: String)
    requires
        start.valid(),
        end.valid(),
    ensures
        r@ == spec_time_entries_url(*start, *end),
{
    let mut s = "https://api.track.toggl.com/api/v9/me/time_entries?start_date=".to_owned();
    s.append(start.format_iso().as_str());
    s.append("&end_date=");
    s.append(end.format_iso().as_str());
    s
}

/// The URL that fetches one project's display metadata.
pub open spec fn spec_project_url(workspace_id: u32, project_id: u32) -> Seq<char> {
    "https://api.track.toggl.com/api/v9/workspaces/"@ + dec_rep(workspace_id as int)
        + "/projects/"@ + dec_rep(project_id as int)
}

/// Builds the project-fetch URL for a (workspace, project) key.
pub fn project_url(workspace_id: u32, project_id: u32) -> (r: String)
    ensures
        r@ == spec_project_url(workspace_id, project_id),
{
    let mut s = "https://api.track.toggl.com/api/v9/workspaces/".to_owned();
    s.append(crate::text::dec_u64(workspace_id as u64).as_str());
    s.append("/projects/");
    s.append(crate::text::dec_u64(project_id as u64).as_str());
    s
}

} // verus!
