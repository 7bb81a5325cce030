//! The summary pipeline: resolving the effective date range, partitioning
//! time entries into (workspace, project) groups, aggregating effective
//! durations, collecting sorted unique descriptions, and rendering rows.
use vstd::prelude::*;
use vstd::string::StringExecFns;
use crate::text::{
    lemma_lex_lt_connected, lemma_lex_lt_irreflexive, lemma_lex_lt_transitive, lex_lt, str_lt,
};
use crate::time_utils::{spec_format_duration, today, Date, TimeResolution};
use crate::toggl::{spec_effective_duration, Color, Project, TimeEntry};

verus! {

/// One output row's worth of aggregated entries: everything sharing one
/// (workspace, project-or-absent) key.
pub struct Group {
    pub workspace_id: u32,
    /// Absent means the sentinel "(no project)" row.
    pub project_id: Option<u32>,
    /// Sum of the members' effective durations, in seconds.
    pub total_seconds: u64,
    /// The members' non-empty descriptions, deduplicated and sorted.
    pub descriptions: Vec<String>,
}

impl Group {
    pub open spec fn spec_key(self) -> (u32, Option<u32>) {
        (self.workspace_id, self.project_id)
    }
}

/// Order on optional project ids: absent sorts before every present id.
pub open spec fn opt_lt(a: Option<u32>, b: Option<u32>) -> bool {
    match (a, b) {
        (Option::None, Option::Some(_)) => true,
        (Option::Some(x), Option::Some(y)) => x < y,
        _ => false,
    }
}

/// Strict order on group keys: by workspace id, then by project id with
/// absent before present.
pub open spec fn key_lt(a: (u32, Option<u32>), b: (u32, Option<u32>)) -> bool {
    a.0 < b.0 || (a.0 == b.0 && opt_lt(a.1, b.1))
}

fn opt_eq(a: Option<u32>, b: Option<u32>) -> (r: bool)
    ensures
        r == (a == b),
{
    match (a, b) {
        (Option::None, Option::None) => true,
        (Option::Some(x), Option::Some(y)) => x == y,
        _ => false,
    }
}

fn group_before_entry(gs: &Vec<Group>, p: usize, e: &TimeEntry) -> (r: bool)
    requires
        p < gs@.len(),
    ensures
        r == key_lt(gs@[p as int].spec_key(), e.spec_key()),
{
    key_lt_exec(gs[p].workspace_id, gs[p].project_id, e.workspace_id, e.project_id)
}

fn key_lt_exec(aw: u32, ap: Option<u32>, bw: u32, bp: Option<u32>) -> (r: bool)
    ensures
        r == key_lt((aw, ap), (bw, bp)),
{
    if aw < bw {
        true
    } else if aw == bw {
        match (ap, bp) {
            (Option::None, Option::Some(_)) => true,
            (Option::Some(x), Option::Some(y)) => x < y,
            _ => false,
        }
    } else {
        false
    }
}

/// The sum of the effective durations (at wall-clock `now`) of the entries
/// in `s` whose key is `k`.
pub open spec fn sum_for_key(s: Seq<TimeEntry>, k: (u32, Option<u32>), now: i64) -> int
    decreases s.len(),
{
    if s.len() == 0 {
        0
    } else {
        sum_for_key(s.drop_last(), k, now) + if s.last().spec_key() == k {
            spec_effective_duration(s.last(), now) as int
        } else {
            0int
        }
    }
}

/// Some entry in `s` carries key `k`.
pub open spec fn key_in_entries(s: Seq<TimeEntry>, k: (u32, Option<u32>)) -> bool {
    exists|i: int| 0 <= i < s.len() && s[i].spec_key() == k
}

/// Some group in `gs` carries key `k`.
pub open spec fn key_in_groups(gs: Seq<Group>, k: (u32, Option<u32>)) -> bool {
    exists|j: int| 0 <= j < gs.len() && gs[j].spec_key() == k
}

/// Some string in `ds` reads `d`.
pub open spec fn descs_contain(ds: Seq<String>, d: Seq<char>) -> bool {
    exists|i: int| 0 <= i < ds.len() && ds[i]@ == d
}

/// `d` is the non-empty description of some entry in `s` with key `k`.
pub open spec fn desc_among(s: Seq<TimeEntry>, k: (u32, Option<u32>), d: Seq<char>) -> bool {
    d.len() > 0 && exists|i: int|
        0 <= i < s.len() && s[i].spec_key() == k && s[i].description@ == d
}

/// Strictly ascending in lexicographic order, hence free of duplicates.
pub open spec fn descs_strictly_sorted(ds: Seq<String>) -> bool {
    forall|i: int, j: int| 0 <= i < j < ds.len() ==> lex_lt(ds[i]@, ds[j]@)
}

/// Strictly ascending group keys, hence each key on exactly one group.
pub open spec fn groups_strictly_sorted(gs: Seq<Group>) -> bool {
    forall|i: int, j: int| 0 <= i < j < gs.len() ==> key_lt(gs[i].spec_key(), gs[j].spec_key())
}

/// A group faithfully summarizes the entries of `s` carrying its key: the
/// total is the sum of their effective durations, and the descriptions are
/// exactly their non-empty descriptions, sorted and deduplicated.
pub open spec fn group_matches(s: Seq<TimeEntry>, g: Group, now: i64) -> bool {
    &&& g.total_seconds as int == sum_for_key(s, g.spec_key(), now)
    &&& descs_strictly_sorted(g.descriptions@)
    &&& forall|d: Seq<char>|
        #![trigger descs_contain(g.descriptions@, d)]
        #![trigger desc_among(s, g.spec_key(), d)]
        descs_contain(g.descriptions@, d) <==> desc_among(s, g.spec_key(), d)
}

proof fn lemma_sum_for_key_bound(s: Seq<TimeEntry>, k: (u32, Option<u32>), now: i64)
    ensures
        0 <= sum_for_key(s, k, now) <= s.len() * (u32::MAX as int),
    decreases s.len(),
{
    if s.len() == 0 {
    } else {
        lemma_sum_for_key_bound(s.drop_last(), k, now);
    }
}

proof fn lemma_sum_for_key_push(s: Seq<TimeEntry>, e: TimeEntry, k: (u32, Option<u32>), now: i64)
    ensures
        sum_for_key(s.push(e), k, now) == sum_for_key(s, k, now) + if e.spec_key() == k {
            spec_effective_duration(e, now) as int
        } else {
            0int
        },
{
    assert(s.push(e).drop_last() =~= s);
}

proof fn lemma_key_in_entries_push(s: Seq<TimeEntry>, e: TimeEntry, k: (u32, Option<u32>))
    ensures
        key_in_entries(s.push(e), k) <==> (key_in_entries(s, k) || e.spec_key() == k),
{
    if key_in_entries(s, k) {
        let i = choose|i: int| 0 <= i < s.len() && s[i].spec_key() == k;
        assert(s.push(e)[i].spec_key() == k);
    }
    if e.spec_key() == k {
        assert(s.push(e)[s.len() as int].spec_key() == k);
    }
    if key_in_entries(s.push(e), k) && !(e.spec_key() == k) {
        let i = choose|i: int| 0 <= i < s.push(e).len() && s.push(e)[i].spec_key() == k;
        assert(i < s.len());
        assert(s[i].spec_key() == k);
    }
}

proof fn lemma_desc_among_push(
    s: Seq<TimeEntry>,
    e: TimeEntry,
    k: (u32, Option<u32>),
    d: Seq<char>,
)
    ensures
        desc_among(s.push(e), k, d) <==> (desc_among(s, k, d) || (d.len() > 0 && e.spec_key() == k
            && e.description@ == d)),
{
    if desc_among(s, k, d) {
        let i = choose|i: int| 0 <= i < s.len() && s[i].spec_key() == k && s[i].description@ == d;
        assert(s.push(e)[i].spec_key() == k && s.push(e)[i].description@ == d);
    }
    if d.len() > 0 && e.spec_key() == k && e.description@ == d {
        assert(s.push(e)[s.len() as int].spec_key() == k);
    }
    if desc_among(s.push(e), k, d) && !(d.len() > 0 && e.spec_key() == k && e.description@ == d) {
        let i = choose|i: int|
            0 <= i < s.push(e).len() && s.push(e)[i].spec_key() == k && s.push(e)[i].description@
                == d;
        assert(i < s.len());
        assert(s[i].spec_key() == k && s[i].description@ == d);
    }
}

/// Inserts `d` into a strictly sorted description list, keeping it strictly
/// sorted; a string already present is left alone (deduplication).
fn insert_description(ds: &mut Vec<String>, d: &String)
    requires
        descs_strictly_sorted(old(ds)@),
    ensures
        descs_strictly_sorted(final(ds)@),
        forall|x: Seq<char>|
            #![trigger descs_contain(final(ds)@, x)]
            #![trigger descs_contain(old(ds)@, x)]
            descs_contain(final(ds)@, x) <==> (descs_contain(old(ds)@, x) || x == d@),
{
    let n = ds.len();
    let mut p: usize = 0;
    while p < n && str_lt(ds[p].as_str(), d.as_str())
        invariant
            descs_strictly_sorted(ds@),
            ds@ == old(ds)@,
            n == ds@.len(),
            p <= n,
            forall|q: int| 0 <= q < p ==> lex_lt(ds@[q]@, d@),
        decreases n - p,
    {
        p += 1;
    }
    if p < n && ds[p].eq(d) {
        proof {
            assert(descs_contain(ds@, d@)) by {
                assert(ds@[p as int]@ == d@);
            }
            assert forall|x: Seq<char>|
                descs_contain(ds@, x) <==> (descs_contain(old(ds)@, x) || x == d@) by {
                if x == d@ {
                    assert(ds@[p as int]@ == x);
                    assert(descs_contain(ds@, x));
                }
            }
        }
        return ;
    }
    proof {
        if p < n {
            assert(!lex_lt(ds@[p as int]@, d@));
            assert(ds@[p as int]@ != d@);
            if !lex_lt(d@, ds@[p as int]@) {
                lemma_lex_lt_connected(ds@[p as int]@, d@);
                assert(false);
            }
        }
    }
    let ghost before = ds@;
    ds.insert(p, d.clone());
    proof {
        assert(ds@ == before.insert(p as int, *d) || ds@[p as int] == *d);
        assert(ds@.len() == before.len() + 1);
        assert(forall|q: int| 0 <= q < p ==> ds@[q] == before[q]);
        assert(ds@[p as int]@ == d@);
        assert(forall|q: int| p < q < ds@.len() ==> ds@[q] == before[q - 1]);
        // strict sortedness around the insertion point
        assert forall|i: int, j: int| 0 <= i < j < ds@.len() implies lex_lt(ds@[i]@, ds@[j]@) by {
            if i < p && j < p {
            } else if j == p {
                assert(lex_lt(ds@[i]@, d@));
            } else if i == p {
                assert(ds@[j]@ == before[j - 1]@);
                if j - 1 == p {
                    assert(lex_lt(d@, ds@[j]@));
                } else {
                    assert(lex_lt(before[p as int]@, before[j - 1]@));
                    lemma_lex_lt_transitive(d@, before[p as int]@, before[j - 1]@);
                }
            } else if i > p && j > p {
                assert(lex_lt(before[i - 1]@, before[j - 1]@));
            } else {
                // i < p < j
                assert(lex_lt(before[i as int]@, d@));
                if j - 1 == p {
                    assert(lex_lt(d@, ds@[j]@));
                    lemma_lex_lt_transitive(ds@[i]@, d@, ds@[j]@);
                } else {
                    assert(lex_lt(d@, before[p as int]@));
                    assert(lex_lt(before[p as int]@, before[j - 1]@));
                    lemma_lex_lt_transitive(d@, before[p as int]@, before[j - 1]@);
                    lemma_lex_lt_transitive(ds@[i]@, d@, ds@[j]@);
                }
            }
        }
        // membership
        assert forall|x: Seq<char>|
            descs_contain(ds@, x) <==> (descs_contain(before, x) || x == d@) by {
            if descs_contain(ds@, x) {
                let q = choose|q: int| 0 <= q < ds@.len() && ds@[q]@ == x;
                if q < p {
                    assert(before[q]@ == x);
                } else if q == p {
                } else {
                    assert(before[q - 1]@ == x);
                }
            }
            if descs_contain(before, x) {
                let q = choose|q: int| 0 <= q < before.len() && before[q]@ == x;
                if q < p {
                    assert(ds@[q]@ == x);
                } else {
                    assert(ds@[q + 1]@ == x);
                }
            }
            if x == d@ {
                assert(ds@[p as int]@ == x);
            }
        }
    }
}

/// Partitions the entries into groups keyed by (workspace id, project id or
/// absent), orders the groups by key (absent project first), and aggregates
/// each group: the total of the members' effective durations at wall-clock
/// `now`, and their non-empty descriptions, deduplicated and sorted.
///
/// Every entry lands in exactly one group, and every group covers at least
/// one entry.
pub fn summarize_entries(entries: &Vec<TimeEntry>, now: i64) -> (r: Vec<Group>)
    requires
        entries@.len() <= u32::MAX,
    ensures
        groups_strictly_sorted(r@),
        forall|j: int| 0 <= j < r@.len() ==> key_in_entries(entries@, #[trigger] r@[j].spec_key()),
        forall|i: int|
            0 <= i < entries@.len() ==> key_in_groups(r@, #[trigger] entries@[i].spec_key()),
        forall|j: int| 0 <= j < r@.len() ==> group_matches(entries@, #[trigger] r@[j], now),
{
    let mut groups: Vec<Group> = Vec::new();
    let n = entries.len();
    let mut i: usize = 0;
    while i < n
        invariant
            entries@.len() <= u32::MAX,
            n == entries@.len(),
            i <= n,
            groups_strictly_sorted(groups@),
            forall|j: int|
                0 <= j < groups@.len() ==> key_in_entries(
                    entries@.take(i as int),
                    #[trigger] groups@[j].spec_key(),
                ),
            forall|ii: int|
                0 <= ii < i ==> key_in_groups(groups@, #[trigger] entries@[ii].spec_key()),
            forall|j: int|
                0 <= j < groups@.len() ==> group_matches(
                    entries@.take(i as int),
                    #[trigger] groups@[j],
                    now,
                ),
        decreases n - i,
    {
        let ghost prefix = entries@.take(i as int);
        let e = &entries[i];
        let eff = e.effective_duration_at(now);
        let glen = groups.len();
        let mut p: usize = 0;
        while p < glen && group_before_entry(&groups, p, e)
            invariant
                glen == groups@.len(),
                p <= glen,
                0 <= i < entries@.len(),
                *e == entries@[i as int],
                forall|q: int| 0 <= q < p ==> key_lt(#[trigger] groups@[q].spec_key(), e.spec_key()),
            decreases glen - p,
        {
            p += 1;
        }
        proof {
            assert(entries@.take(i + 1) =~= prefix.push(entries@[i as int]));
            lemma_sum_for_key_bound(prefix, e.spec_key(), now);
        }
        let same_key = if p < glen {
            groups[p].workspace_id == e.workspace_id && opt_eq(groups[p].project_id, e.project_id)
        } else {
            false
        };
        let ghost before = groups@;
        if same_key {
            let mut g = groups.remove(p);
            let ghost gold = g;
            proof {
                assert(gold == before[p as int]);
                assert(gold.spec_key() == e.spec_key());
                assert(g.total_seconds as int == sum_for_key(prefix, e.spec_key(), now));
                assert(g.total_seconds as int + eff as int <= (i as int) * (u32::MAX as int) + (
                u32::MAX as int));
                assert((i as int) * (u32::MAX as int) + (u32::MAX as int) <= (u32::MAX as int) * (
                u32::MAX as int) + (u32::MAX as int)) by (nonlinear_arith)
                    requires
                        0 <= i as int <= u32::MAX as int,
                ;
            }
            g.total_seconds = g.total_seconds + eff as u64;
            if !e.description.as_str().is_empty() {
                insert_description(&mut g.descriptions, &e.description);
            }
            groups.insert(p, g);
            proof {
                let gs = groups@;
                let gnew = gs[p as int];
                assert(gs =~= before.update(p as int, gnew));
                assert(gnew.spec_key() == e.spec_key());
                assert(forall|q: int| 0 <= q < gs.len() && q != p ==> gs[q] == before[q]);
                assert(forall|q: int|
                    0 <= q < gs.len() ==> (#[trigger] gs[q].spec_key()) == before[q].spec_key());
                assert(groups_strictly_sorted(gs));
                assert forall|j: int| 0 <= j < gs.len() implies group_matches(
                    entries@.take(i + 1),
                    #[trigger] gs[j],
                    now,
                ) by {
                    lemma_sum_for_key_push(prefix, entries@[i as int], gs[j].spec_key(), now);
                    if j != p {
                        assert(gs[j] == before[j]);
                        assert(gs[j].spec_key() != e.spec_key()) by {
                            if j < p {
                                assert(key_lt(before[j].spec_key(), e.spec_key()));
                            } else {
                                assert(key_lt(before[p as int].spec_key(), before[j].spec_key()));
                            }
                            lemma_key_lt_irreflexive(e.spec_key());
                        }
                        assert(group_matches(prefix, gs[j], now));
                        assert forall|d: Seq<char>|
                            descs_contain(gs[j].descriptions@, d) <==> desc_among(
                                entries@.take(i + 1),
                                gs[j].spec_key(),
                                d,
                            ) by {
                            lemma_desc_among_push(prefix, entries@[i as int], gs[j].spec_key(), d);
                        }
                    } else {
                        assert(gs[p as int].total_seconds as int == sum_for_key(
                            entries@.take(i + 1),
                            gs[p as int].spec_key(),
                            now,
                        ));
                        assert forall|d: Seq<char>|
                            descs_contain(gs[p as int].descriptions@, d) <==> desc_among(
                                entries@.take(i + 1),
                                gs[p as int].spec_key(),
                                d,
                            ) by {
                            lemma_desc_among_push(prefix, entries@[i as int], e.spec_key(), d);
                            if e.description@.len() == 0 && d == e.description@ {
                                assert(!desc_among(entries@.take(i + 1), e.spec_key(), d));
                            }
                        }
                    }
                }
                assert forall|j: int| 0 <= j < gs.len() implies key_in_entries(
                    entries@.take(i + 1),
                    #[trigger] gs[j].spec_key(),
                ) by {
                    lemma_key_in_entries_push(prefix, entries@[i as int], gs[j].spec_key());
                    if j != p {
                        assert(key_in_entries(prefix, before[j].spec_key()));
                    }
                }
                assert forall|ii: int| 0 <= ii < i + 1 implies key_in_groups(
                    gs,
                    #[trigger] entries@[ii].spec_key(),
                ) by {
                    if ii < i {
                        let j = choose|j: int|
                            0 <= j < before.len() && before[j].spec_key()
                                == entries@[ii].spec_key();
                        assert(gs[j].spec_key() == entries@[ii].spec_key());
                    } else {
                        assert(gs[p as int].spec_key() == entries@[ii].spec_key());
                    }
                }
            }
        } else {
            let mut ds: Vec<String> = Vec::new();
            if !e.description.as_str().is_empty() {
                ds.push(e.description.clone());
            }
            let g = Group {
                workspace_id: e.workspace_id,
                project_id: e.project_id,
                total_seconds: eff as u64,
                descriptions: ds,
            };
            proof {
                if p < glen {
                    assert(!key_lt(before[p as int].spec_key(), e.spec_key()));
                    assert(before[p as int].spec_key() != e.spec_key());
                    assert(key_lt(e.spec_key(), before[p as int].spec_key()));
                }
                // the new key occurs nowhere among the existing groups
                assert(!key_in_groups(before, e.spec_key())) by {
                    if key_in_groups(before, e.spec_key()) {
                        let j = choose|j: int|
                            0 <= j < before.len() && before[j].spec_key() == e.spec_key();
                        if j < p {
                            assert(key_lt(before[j].spec_key(), e.spec_key()));
                        } else if j == p {
                            assert(key_lt(e.spec_key(), before[p as int].spec_key()));
                        } else {
                            assert(key_lt(before[p as int].spec_key(), before[j].spec_key()));
                            lemma_key_lt_transitive(
                                e.spec_key(),
                                before[p as int].spec_key(),
                                before[j].spec_key(),
                            );
                        }
                        lemma_key_lt_irreflexive(e.spec_key());
                        assert(false);
                    }
                }
                assert(!key_in_entries(prefix, e.spec_key())) by {
                    if key_in_entries(prefix, e.spec_key()) {
                        let ii = choose|ii: int|
                            0 <= ii < prefix.len() && prefix[ii].spec_key() == e.spec_key();
                        assert(prefix[ii] == entries@[ii]);
                        assert(key_in_groups(before, entries@[ii].spec_key()));
                        assert(false);
                    }
                }
                assert(sum_for_key(prefix, e.spec_key(), now) == 0) by {
                    if sum_for_key(prefix, e.spec_key(), now) != 0 {
                        lemma_sum_nonzero_key_present(prefix, e.spec_key(), now);
                        assert(false);
                    }
                }
            }
            groups.insert(p, g);
            proof {
                let gs = groups@;
                assert(gs.len() == before.len() + 1);
                assert(forall|q: int| 0 <= q < p ==> gs[q] == before[q]);
                assert(gs[p as int] == g);
                assert(forall|q: int| p < q < gs.len() ==> gs[q] == before[q - 1]);
                assert(groups_strictly_sorted(gs)) by {
                    assert forall|a: int, b: int| 0 <= a < b < gs.len() implies key_lt(
                        gs[a].spec_key(),
                        gs[b].spec_key(),
                    ) by {
                        if b == p {
                            assert(key_lt(gs[a].spec_key(), e.spec_key()));
                        } else if a == p {
                            if b - 1 == p {
                                assert(key_lt(e.spec_key(), gs[b].spec_key()));
                            } else {
                                assert(key_lt(e.spec_key(), before[p as int].spec_key()));
                                assert(key_lt(
                                    before[p as int].spec_key(),
                                    before[b - 1].spec_key(),
                                ));
                                lemma_key_lt_transitive(
                                    e.spec_key(),
                                    before[p as int].spec_key(),
                                    before[b - 1].spec_key(),
                                );
                            }
                        } else if a < p && b > p {
                            if b - 1 == p {
                                assert(key_lt(gs[a].spec_key(), e.spec_key()));
                                assert(key_lt(e.spec_key(), gs[b].spec_key()));
                                lemma_key_lt_transitive(
                                    gs[a].spec_key(),
                                    e.spec_key(),
                                    gs[b].spec_key(),
                                );
                            } else {
                                assert(key_lt(before[a as int].spec_key(), before[b - 1].spec_key()));
                            }
                        }
                    }
                }
                assert forall|j: int| 0 <= j < gs.len() implies group_matches(
                    entries@.take(i + 1),
                    #[trigger] gs[j],
                    now,
                ) by {
                    lemma_sum_for_key_push(prefix, entries@[i as int], gs[j].spec_key(), now);
                    if j == p {
                        assert(gs[j].spec_key() == e.spec_key());
                        assert(gs[j].total_seconds as int == sum_for_key(
                            entries@.take(i + 1),
                            e.spec_key(),
                            now,
                        ));
                        assert forall|d: Seq<char>|
                            descs_contain(gs[j].descriptions@, d) <==> desc_among(
                                entries@.take(i + 1),
                                e.spec_key(),
                                d,
                            ) by {
                            lemma_desc_among_push(prefix, entries@[i as int], e.spec_key(), d);
                            assert(!desc_among(prefix, e.spec_key(), d));
                            if e.description@.len() > 0 && d == e.description@ {
                                assert(gs[j].descriptions@[0]@ == d);
                                assert(descs_contain(gs[j].descriptions@, d));
                            }
                            if descs_contain(gs[j].descriptions@, d) {
                                let q = choose|q: int|
                                    0 <= q < gs[j].descriptions@.len() && gs[j].descriptions@[q]@
                                        == d;
                                assert(q == 0);
                                assert(d == e.description@ && d.len() > 0);
                            }
                        }
                        assert(descs_strictly_sorted(gs[j].descriptions@));
                    } else {
                        let jo = if j < p {
                            j
                        } else {
                            j - 1
                        };
                        assert(gs[j] == before[jo]);
                        assert(gs[j].spec_key() != e.spec_key()) by {
                            assert(key_in_groups(before, before[jo].spec_key()));
                            if before[jo].spec_key() == e.spec_key() {
                                assert(key_in_groups(before, e.spec_key()));
                            }
                        }
                        assert(group_matches(prefix, gs[j], now));
                        assert forall|d: Seq<char>|
                            descs_contain(gs[j].descriptions@, d) <==> desc_among(
                                entries@.take(i + 1),
                                gs[j].spec_key(),
                                d,
                            ) by {
                            lemma_desc_among_push(prefix, entries@[i as int], gs[j].spec_key(), d);
                        }
                    }
                }
                assert forall|j: int| 0 <= j < gs.len() implies key_in_entries(
                    entries@.take(i + 1),
                    #[trigger] gs[j].spec_key(),
                ) by {
                    lemma_key_in_entries_push(prefix, entries@[i as int], gs[j].spec_key());
                    if j != p {
                        let jo = if j < p {
                            j
                        } else {
                            j - 1
                        };
                        assert(gs[j] == before[jo]);
                        assert(key_in_entries(prefix, before[jo].spec_key()));
                    }
                }
                assert forall|ii: int| 0 <= ii < i + 1 implies key_in_groups(
                    gs,
                    #[trigger] entries@[ii].spec_key(),
                ) by {
                    if ii < i {
                        let j = choose|j: int|
                            0 <= j < before.len() && before[j].spec_key()
                                == entries@[ii].spec_key();
                        if j < p {
                            assert(gs[j].spec_key() == entries@[ii].spec_key());
                        } else {
                            assert(gs[j + 1].spec_key() == entries@[ii].spec_key());
                        }
                    } else {
                        assert(gs[p as int].spec_key() == entries@[ii].spec_key());
                    }
                }
            }
        }
        i += 1;
        proof {
            assert(entries@.take(i as int) =~= prefix.push(entries@[i - 1]));
        }
    }
    proof {
        assert(entries@.take(n as int) =~= entries@);
    }
    groups
}

proof fn lemma_key_lt_transitive(a: (u32, Option<u32>), b: (u32, Option<u32>), c: (u32, Option<u32>))
    requires
        key_lt(a, b),
        key_lt(b, c),
    ensures
        key_lt(a, c),
{
}

proof fn lemma_key_lt_irreflexive(a: (u32, Option<u32>))
    ensures
        !key_lt(a, a),
{
}

proof fn lemma_sum_nonzero_key_present(s: Seq<TimeEntry>, k: (u32, Option<u32>), now: i64)
    requires
        sum_for_key(s, k, now) != 0,
    ensures
        key_in_entries(s, k),
    decreases s.len(),
{
    if s.len() > 0 {
        if s.last().spec_key() == k {
            assert(s[s.len() - 1].spec_key() == k);
        } else {
            lemma_sum_nonzero_key_present(s.drop_last(), k, now);
            let i = choose|i: int| 0 <= i < s.drop_last().len() && s.drop_last()[i].spec_key() == k;
            assert(s[i].spec_key() == k);
        }
    }
}


/// The arguments the summary runs on, with dates already parsed.
pub struct SummaryArgs {
    /// Explicit start date, if one was given.
    pub start_date: Option<Date>,
    /// Explicit end date, if one was given.
    pub end_date: Option<Date>,
    pub time_resolution: TimeResolution,
}

impl SummaryArgs {
    /// Any date given explicitly is a real one, far enough from the year
    /// limits to step past.
    pub open spec fn wf(self) -> bool {
        &&& (self.start_date is Some ==> self.start_date->0.valid() && self.start_date->0.year
            < 400000)
        &&& (self.end_date is Some ==> self.end_date->0.valid())
    }

    /// The effective start date: the explicit one if given, else `today`.
    pub fn start_date_or(&self, today: Date) -> (r: Date)
        requires
            self.wf(),
            today.valid(),
            today.year < 400000,
        ensures
            self.start_date is Some ==> r == self.start_date->0,
            self.start_date is None ==> r == today,
            r.valid(),
            r.year < 400000,
    {
        match self.start_date {
            Some(d) => d,
            None => today,
        }
    }

    /// The effective end date: the explicit one if given, else the day
    /// after `start` (making the default range mean "just this day").
    pub fn end_date_or(&self, start: Date) -> (r: Date)
        requires
            self.wf(),
            start.valid(),
            start.year < 400000,
        ensures
            self.end_date is Some ==> r == self.end_date->0,
            self.end_date is None ==> r == start.spec_next_day(),
            r.valid(),
    {
        match self.end_date {
            Some(d) => d,
            None => start.next_day(),
        }
    }

    /// The effective start date against the local clock's today.
    pub fn start_date(&self) -> (r: Date)
        requires
            self.wf(),
        ensures
            self.start_date is Some ==> r == self.start_date->0,
            r.valid(),
            r.year < 400000,
    {
        let t = today();
        self.start_date_or(t)
    }

    /// The effective end date against the local clock's today.
    pub fn end_date(&self) -> (r: Date)
        requires
            self.wf(),
        ensures
            self.end_date is Some ==> r == self.end_date->0,
            self.end_date is None && self.start_date is Some ==> r
                == self.start_date->0.spec_next_day(),
            r.valid(),
    {
        let s = self.start_date();
        self.end_date_or(s)
    }
}

/// The sentinel shown for entries without a project: a fixed name and a
/// neutral gray.
pub fn default_project() -> (r: Project)
    ensures
        r.name@ == "(no project)"@,
        r.color == (Color { r: 0x7f, g: 0x7f, b: 0x7f, a: 0xff }),
{
    Project {
        name: "(no project)".to_owned(),
        color: Color { r: 0x7f, g: 0x7f, b: 0x7f, a: 0xff },
    }
}

/// The descriptions joined with a comma and a space between neighbours.
pub open spec fn spec_join_descs(ds: Seq<String>) -> Seq<char>
    decreases ds.len(),
{
    if ds.len() == 0 {
        Seq::empty()
    } else if ds.len() == 1 {
        ds[0]@
    } else {
        spec_join_descs(ds.drop_last()) + ", "@ + ds.last()@
    }
}

/// Joins a group's descriptions with ", ".
pub fn join_descriptions(ds: &Vec<String>) -> (r: String)
    ensures
        r@ == spec_join_descs(ds@),
{
    let mut s = String::new();
    let n = ds.len();
    let mut i: usize = 0;
    while i < n
        invariant
            n == ds@.len(),
            i <= n,
            s@ == spec_join_descs(ds@.take(i as int)),
        decreases n - i,
    {
        if i > 0 {
            s.append(", ");
        }
        s.append(ds[i].as_str());
        proof {
            reveal_strlit(", ");
            assert(ds@.take(i + 1).drop_last() =~= ds@.take(i as int));
            assert(ds@.take(i + 1).last() == ds@[i as int]);
            assert(s@ =~= spec_join_descs(ds@.take(i + 1)));
        }
        i += 1;
    }
    proof {
        assert(ds@.take(n as int) =~= ds@);
    }
    s
}

/// How one output row reads: the formatted total, the project name, and
/// the joined descriptions, separated by single spaces.
pub open spec fn spec_render_row(res: TimeResolution, g: Group, name: Seq<char>) -> Seq<char> {
    spec_format_duration(res, g.total_seconds as int) + " "@ + name + " "@ + spec_join_descs(
        g.descriptions@,
    )
}

/// Renders one group as its output row, with the display name already
/// resolved.
pub fn render_row(resolution: TimeResolution, g: &Group, project_name: &String) -> (r: String)
    ensures
        r@ == spec_render_row(resolution, *g, project_name@),
{
    let mut s = resolution.format_duration(g.total_seconds);
    s.append(" ");
    s.append(project_name.as_str());
    s.append(" ");
    s.append(join_descriptions(&g.descriptions).as_str());
    proof {
        assert(s@ =~= spec_render_row(resolution, *g, project_name@));
    }
    s
}

/// Entries sharing a key land in exactly one group: distinct groups of a
/// summary never repeat a key.
pub proof fn lemma_unique_group_per_key(gs: Seq<Group>, i: int, j: int)
    requires
        groups_strictly_sorted(gs),
        0 <= i < gs.len(),
        0 <= j < gs.len(),
        i != j,
    ensures
        gs[i].spec_key() != gs[j].spec_key(),
{
    if i < j {
        assert(key_lt(gs[i].spec_key(), gs[j].spec_key()));
    } else {
        assert(key_lt(gs[j].spec_key(), gs[i].spec_key()));
    }
    lemma_key_lt_irreflexive(gs[i].spec_key());
}

/// A strictly sorted description list never repeats a string.
pub proof fn lemma_descriptions_unique(ds: Seq<String>, i: int, j: int)
    requires
        descs_strictly_sorted(ds),
        0 <= i < ds.len(),
        0 <= j < ds.len(),
        i != j,
    ensures
        ds[i]@ != ds[j]@,
{
    if i < j {
        assert(lex_lt(ds[i]@, ds[j]@));
    } else {
        assert(lex_lt(ds[j]@, ds[i]@));
    }
    lemma_lex_lt_irreflexive(ds[i]@);
}

} // verus!
