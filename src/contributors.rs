//! The contributor report: for every author, what they changed under each
//! owner group. A change counts for the first owner of its path only, or for
//! the `<unowned>` group when its path has none.

use vstd::prelude::*;
use crate::analyze::{change_events, share_views, CommitShare};
use crate::order::{lemma_text_lt_irreflexive, lemma_text_lt_total, lemma_text_lt_transitive, text_cmp, text_less, text_lt};
use crate::owner::{owners_of, CommitInfoWithCodeowner, FileChangeWithCodeowner};

verus! {

/// The group of changes whose path has no owner.
pub open spec fn unowned() -> Seq<char> {
    "<unowned>"@
}

/// The group a change counts for in the contributor report.
pub open spec fn first_owner(ch: FileChangeWithCodeowner) -> Seq<char> {
    if owners_of(ch).len() > 0 { owners_of(ch)[0] } else { unowned() }
}

/// Insertions of a commit's changes that count for group `b`.
pub open spec fn group_insertions(chs: Seq<FileChangeWithCodeowner>, b: Seq<char>) -> nat
    decreases chs.len(),
{
    if chs.len() == 0 {
        0
    } else {
        group_insertions(chs.drop_last(), b) + if first_owner(chs.last()) == b { chs.last().insertions as nat } else { 0 }
    }
}

/// Insertions of all of a commit's changes.
pub open spec fn plain_insertions(chs: Seq<FileChangeWithCodeowner>) -> nat
    decreases chs.len(),
{
    if chs.len() == 0 {
        0
    } else {
        plain_insertions(chs.drop_last()) + chs.last().insertions as nat
    }
}

/// One change, as the contributor report counts it.
pub struct ContributionEvent {
    pub name: Seq<char>,
    pub email: Seq<char>,
    pub owner: Seq<char>,
    pub insertions: nat,
    pub deletions: nat,
    pub owner_insertions: nat,
    pub commit_insertions: nat,
}

pub open spec fn contribution_event(c: CommitInfoWithCodeowner, ch: FileChangeWithCodeowner) -> ContributionEvent {
    ContributionEvent {
        name: c.author.name@,
        email: c.author.email@,
        owner: first_owner(ch),
        insertions: ch.insertions as nat,
        deletions: ch.deletions as nat,
        owner_insertions: group_insertions(c.file_changes@, first_owner(ch)),
        commit_insertions: plain_insertions(c.file_changes@),
    }
}

pub open spec fn commit_contributions(c: CommitInfoWithCodeowner) -> Seq<ContributionEvent> {
    c.file_changes@.map_values(|ch: FileChangeWithCodeowner| contribution_event(c, ch))
}

pub open spec fn contribution_events(cs: Seq<CommitInfoWithCodeowner>) -> Seq<ContributionEvent>
    decreases cs.len(),
{
    if cs.len() == 0 {
        Seq::empty()
    } else {
        contribution_events(cs.drop_last()) + commit_contributions(cs.last())
    }
}

pub open spec fn in_group(e: ContributionEvent, name: Seq<char>, email: Seq<char>, b: Seq<char>) -> bool {
    e.name == name && e.email == email && e.owner == b
}

pub open spec fn group_sum_insertions(evs: Seq<ContributionEvent>, name: Seq<char>, email: Seq<char>, b: Seq<char>) -> nat
    decreases evs.len(),
{
    if evs.len() == 0 {
        0
    } else {
        group_sum_insertions(evs.drop_last(), name, email, b) + if in_group(evs.last(), name, email, b) { evs.last().insertions } else { 0 }
    }
}

pub open spec fn group_sum_deletions(evs: Seq<ContributionEvent>, name: Seq<char>, email: Seq<char>, b: Seq<char>) -> nat
    decreases evs.len(),
{
    if evs.len() == 0 {
        0
    } else {
        group_sum_deletions(evs.drop_last(), name, email, b) + if in_group(evs.last(), name, email, b) { evs.last().deletions } else { 0 }
    }
}

pub open spec fn group_sum_commits(evs: Seq<ContributionEvent>, name: Seq<char>, email: Seq<char>, b: Seq<char>) -> nat
    decreases evs.len(),
{
    if evs.len() == 0 {
        0
    } else {
        group_sum_commits(evs.drop_last(), name, email, b) + if in_group(evs.last(), name, email, b) { 1nat } else { 0 }
    }
}

pub open spec fn group_shares(evs: Seq<ContributionEvent>, name: Seq<char>, email: Seq<char>, b: Seq<char>) -> Seq<(nat, nat)>
    decreases evs.len(),
{
    if evs.len() == 0 {
        Seq::empty()
    } else if in_group(evs.last(), name, email, b) {
        group_shares(evs.drop_last(), name, email, b).push((evs.last().owner_insertions, evs.last().commit_insertions))
    } else {
        group_shares(evs.drop_last(), name, email, b)
    }
}

pub open spec fn has_contributor(evs: Seq<ContributionEvent>, name: Seq<char>, email: Seq<char>) -> bool {
    exists|i: int| 0 <= i < evs.len() && (#[trigger] evs[i]).name == name && evs[i].email == email
}

pub open spec fn has_group(evs: Seq<ContributionEvent>, name: Seq<char>, email: Seq<char>, b: Seq<char>) -> bool {
    exists|i: int| 0 <= i < evs.len() && in_group(#[trigger] evs[i], name, email, b)
}

pub open spec fn contribution_budget(evs: Seq<ContributionEvent>) -> nat
    decreases evs.len(),
{
    if evs.len() == 0 {
        0
    } else {
        contribution_budget(evs.drop_last()) + evs.last().insertions + evs.last().deletions + 1
    }
}

/// What one author changed under one group.
#[derive(Clone, Debug)]
pub struct ContributionsByOwnerInfo {
    pub owner: String,
    pub total_insertions: u64,
    pub total_deletions: u64,
    pub total_commits: u64,
    pub adjusted_changes: u64,
    /// The commit weights whose sum is the adjusted commit count.
    pub adjusted_commits: Vec<CommitShare>,
}

/// One row of the contributor report.
#[derive(Clone, Debug)]
pub struct ContributorInfo {
    pub author_name: String,
    pub author_email: String,
    pub contributions: Vec<ContributionsByOwnerInfo>,
}

/// Order of contributions: more changes counted first, then by group name.
pub open spec fn contribution_before(a: ContributionsByOwnerInfo, b: ContributionsByOwnerInfo) -> bool {
    a.total_commits > b.total_commits || (a.total_commits == b.total_commits && text_lt(a.owner@, b.owner@))
}

/// Order of contributors: by name, then by email.
pub open spec fn author_before(n1: Seq<char>, e1: Seq<char>, n2: Seq<char>, e2: Seq<char>) -> bool {
    text_lt(n1, n2) || (n1 == n2 && text_lt(e1, e2))
}

pub open spec fn contribution_ok(c: ContributionsByOwnerInfo, evs: Seq<ContributionEvent>, name: Seq<char>, email: Seq<char>, adjusted: bool) -> bool {
    let b = c.owner@;
    &&& has_group(evs, name, email, b)
    &&& c.total_insertions == group_sum_insertions(evs, name, email, b)
    &&& c.total_deletions == group_sum_deletions(evs, name, email, b)
    &&& c.total_commits == group_sum_commits(evs, name, email, b)
    &&& c.adjusted_changes == if adjusted { group_sum_insertions(evs, name, email, b) } else { 0 }
    &&& share_views(c.adjusted_commits@) == if adjusted { group_shares(evs, name, email, b) } else { Seq::empty() }
}

/// The contributions of one author: one per group, each with its tallies.
pub open spec fn contributions_ok(cs: Seq<ContributionsByOwnerInfo>, evs: Seq<ContributionEvent>, name: Seq<char>, email: Seq<char>, adjusted: bool) -> bool {
    &&& forall|i: int, j: int| 0 <= i < j < cs.len() ==> cs[i].owner@ != cs[j].owner@
    &&& forall|i: int| 0 <= i < cs.len() ==> contribution_ok(#[trigger] cs[i], evs, name, email, adjusted)
    &&& forall|b: Seq<char>| #[trigger] has_group(evs, name, email, b) ==> exists|i: int| 0 <= i < cs.len() && (#[trigger] cs[i]).owner@ == b
}

/// The contributor report over `evs`: one row per author, in author order,
/// each with its contributions in contribution order.
pub open spec fn contributor_report(rows: Seq<ContributorInfo>, evs: Seq<ContributionEvent>, adjusted: bool) -> bool {
    &&& forall|i: int, j: int| 0 <= i < j < rows.len() ==>
        author_before(rows[i].author_name@, rows[i].author_email@, rows[j].author_name@, rows[j].author_email@)
    &&& forall|i: int| 0 <= i < rows.len() ==> {
        &&& has_contributor(evs, (#[trigger] rows[i]).author_name@, rows[i].author_email@)
        &&& contributions_ok(rows[i].contributions@, evs, rows[i].author_name@, rows[i].author_email@, adjusted)
        &&& forall|a: int, b: int| 0 <= a < b < rows[i].contributions@.len() ==>
            contribution_before(rows[i].contributions@[a], rows[i].contributions@[b])
    }
    &&& forall|name: Seq<char>, email: Seq<char>| #[trigger] has_contributor(evs, name, email) ==>
        exists|i: int| 0 <= i < rows.len() && (#[trigger] rows[i]).author_name@ == name && rows[i].author_email@ == email
}

/// Every tally of the contributor report fits in a `u64`.
pub open spec fn contributor_totals_fit(cs: Seq<CommitInfoWithCodeowner>) -> bool {
    &&& contribution_budget(contribution_events(cs)) <= u64::MAX
    &&& forall|i: int| 0 <= i < cs.len() ==> plain_insertions((#[trigger] cs[i]).file_changes@) <= u64::MAX
}


proof fn lemma_group_le_plain(chs: Seq<FileChangeWithCodeowner>, b: Seq<char>, k: int)
    requires
        0 <= k <= chs.len(),
    ensures
        group_insertions(chs.take(k), b) <= plain_insertions(chs),
        plain_insertions(chs.take(k)) <= plain_insertions(chs),
    decreases chs.len(),
{
    if k < chs.len() {
        assert(chs.drop_last().take(k) =~= chs.take(k));
        lemma_group_le_plain(chs.drop_last(), b, k);
    } else {
        assert(chs.take(k) =~= chs);
        if chs.len() > 0 {
            lemma_group_le_plain(chs.drop_last(), b, chs.len() - 1);
            assert(chs.drop_last().take(chs.len() - 1) =~= chs.drop_last());
        }
    }
}

/// The first owner of a change, or `<unowned>`.
fn first_owner_of(ch: &FileChangeWithCodeowner) -> (r: String)
    ensures
        r@ == first_owner(*ch),
{
    match &ch.codeowners {
        Some(v) => {
            if v.len() > 0 {
                return v[0].clone();
            }
        },
        None => {},
    }
    let r = String::from_str("<unowned>");
    r
}

/// Insertions of all of a commit's changes.
fn commit_insertions(chs: &Vec<FileChangeWithCodeowner>) -> (r: u64)
    requires
        plain_insertions(chs@) <= u64::MAX,
    ensures
        r == plain_insertions(chs@),
{
    let mut t: u64 = 0;
    let mut k: usize = 0;
    while k < chs.len()
        invariant
            k <= chs@.len(),
            t == plain_insertions(chs@.take(k as int)),
            plain_insertions(chs@) <= u64::MAX,
        decreases chs@.len() - k,
    {
        proof {
            assert(chs@.take(k + 1).drop_last() =~= chs@.take(k as int));
            assert(chs@.take(k + 1).last() == chs@[k as int]);
            lemma_group_le_plain(chs@, Seq::empty(), k + 1);
        }
        t = t + chs[k].insertions as u64;
        k += 1;
    }
    proof {
        assert(chs@.take(k as int) =~= chs@);
    }
    t
}

/// A commit's insertions that count for one group.
struct GroupInsertions {
    owner: String,
    insertions: u64,
}

spec fn group_covered(t: Seq<GroupInsertions>, b: Seq<char>) -> bool {
    exists|i: int| 0 <= i < t.len() && (#[trigger] t[i]).owner@ == b
}

/// `t` holds, once for every group of the commit's changes, the insertions
/// that count for it.
spec fn group_table_ok(t: Seq<GroupInsertions>, chs: Seq<FileChangeWithCodeowner>) -> bool {
    &&& forall|i: int, j: int| 0 <= i < j < t.len() ==> t[i].owner@ != t[j].owner@
    &&& forall|i: int| 0 <= i < t.len() ==> (#[trigger] t[i]).insertions == group_insertions(chs, t[i].owner@)
    &&& forall|k: int| 0 <= k < chs.len() ==> group_covered(t, #[trigger] first_owner(chs[k]))
}

proof fn lemma_group_absent(chs: Seq<FileChangeWithCodeowner>, b: Seq<char>)
    requires
        forall|k: int| 0 <= k < chs.len() ==> first_owner(chs[k]) != b,
    ensures
        group_insertions(chs, b) == 0,
    decreases chs.len(),
{
    if chs.len() > 0 {
        let t = chs.drop_last();
        assert forall|k: int| 0 <= k < t.len() implies first_owner(t[k]) != b by {
            assert(t[k] == chs[k]);
        }
        lemma_group_absent(t, b);
        assert(first_owner(chs[chs.len() - 1]) != b);
    }
}

/// The insertions that count for each group of the commit (its first pass).
fn group_table(chs: &Vec<FileChangeWithCodeowner>) -> (t: Vec<GroupInsertions>)
    requires
        plain_insertions(chs@) <= u64::MAX,
    ensures
        group_table_ok(t@, chs@),
{
    let mut t: Vec<GroupInsertions> = Vec::new();
    let mut k: usize = 0;
    while k < chs.len()
        invariant
            k <= chs@.len(),
            plain_insertions(chs@) <= u64::MAX,
            forall|i: int, j: int| 0 <= i < j < t@.len() ==> t@[i].owner@ != t@[j].owner@,
            forall|i: int| 0 <= i < t@.len() ==> (#[trigger] t@[i]).insertions == group_insertions(chs@.take(k as int), t@[i].owner@),
            forall|k2: int| 0 <= k2 < k ==> group_covered(t@, #[trigger] first_owner(chs@[k2])),
        decreases chs@.len() - k,
    {
        let ch = &chs[k];
        let o = first_owner_of(ch);
        proof {
            assert(chs@.take(k + 1).drop_last() =~= chs@.take(k as int));
            assert(chs@.take(k + 1).last() == chs@[k as int]);
            lemma_group_le_plain(chs@, o@, k + 1);
        }
        let mut i: usize = 0;
        while i < t.len()
            invariant
                i <= t@.len(),
                forall|q: int| 0 <= q < i ==> t@[q].owner@ != o@,
            ensures
                i <= t@.len(),
                forall|q: int| 0 <= q < i ==> t@[q].owner@ != o@,
                i < t@.len() ==> t@[i as int].owner@ == o@,
            decreases t@.len() - i,
        {
            if t[i].owner == o {
                break;
            }
            i += 1;
        }
        let ghost before = t@;
        if i < t.len() {
            let v = t[i].insertions;
            t[i].insertions = v + ch.insertions as u64;
            proof {
                assert forall|q: int| 0 <= q < t@.len() implies (#[trigger] t@[q]).insertions == group_insertions(chs@.take(k + 1), t@[q].owner@) by {
                    if q != i {
                        assert(t@[q] == before[q]);
                        assert(before[q].owner@ != before[i as int].owner@);
                    }
                }
                assert forall|k2: int| 0 <= k2 < k + 1 implies group_covered(t@, #[trigger] first_owner(chs@[k2])) by {
                    if k2 < k {
                        let i2 = choose|i2: int| 0 <= i2 < before.len() && (#[trigger] before[i2]).owner@ == first_owner(chs@[k2]);
                        assert(t@[i2].owner@ == before[i2].owner@);
                    } else {
                        assert(t@[i as int].owner@ == first_owner(chs@[k2]));
                    }
                }
                assert forall|q: int, q2: int| 0 <= q < q2 < t@.len() implies t@[q].owner@ != t@[q2].owner@ by {
                    assert(t@[q].owner@ == before[q].owner@);
                    assert(t@[q2].owner@ == before[q2].owner@);
                }
            }
        } else {
            proof {
                assert forall|k2: int| 0 <= k2 < chs@.take(k as int).len() implies first_owner(chs@.take(k as int)[k2]) != o@ by {
                    assert(chs@.take(k as int)[k2] == chs@[k2]);
                    if first_owner(chs@[k2]) == o@ {
                        let i2 = choose|i2: int| 0 <= i2 < before.len() && (#[trigger] before[i2]).owner@ == first_owner(chs@[k2]);
                    }
                }
                lemma_group_absent(chs@.take(k as int), o@);
            }
            t.push(GroupInsertions { owner: o, insertions: ch.insertions as u64 });
            proof {
                let n = before.len() as int;
                assert forall|q: int| 0 <= q < t@.len() implies (#[trigger] t@[q]).insertions == group_insertions(chs@.take(k + 1), t@[q].owner@) by {
                    if q < n {
                        assert(t@[q] == before[q]);
                    }
                }
                assert forall|k2: int| 0 <= k2 < k + 1 implies group_covered(t@, #[trigger] first_owner(chs@[k2])) by {
                    if k2 < k {
                        let i2 = choose|i2: int| 0 <= i2 < before.len() && (#[trigger] before[i2]).owner@ == first_owner(chs@[k2]);
                        assert(t@[i2] == before[i2]);
                    } else {
                        assert(t@[n].owner@ == first_owner(chs@[k2]));
                    }
                }
                assert forall|q: int, q2: int| 0 <= q < q2 < t@.len() implies t@[q].owner@ != t@[q2].owner@ by {
                    if q2 == n {
                        assert(t@[q] == before[q]);
                    }
                }
            }
        }
        k += 1;
    }
    proof {
        assert(chs@.take(k as int) =~= chs@);
    }
    t
}

/// The insertions that count for `b`, the group of the `k`-th change.
fn group_lookup(t: &Vec<GroupInsertions>, b: &String, Ghost(chs): Ghost<Seq<FileChangeWithCodeowner>>, Ghost(k): Ghost<int>) -> (r: u64)
    requires
        group_table_ok(t@, chs),
        0 <= k < chs.len(),
        first_owner(chs[k]) == b@,
    ensures
        r == group_insertions(chs, b@),
{
    let mut i: usize = 0;
    while i < t.len()
        invariant
            group_table_ok(t@, chs),
            i <= t@.len(),
            forall|q: int| 0 <= q < i ==> t@[q].owner@ != b@,
        decreases t@.len() - i,
    {
        if t[i].owner == *b {
            assert(t@[i as int].insertions == group_insertions(chs, t@[i as int].owner@));
            return t[i].insertions;
        }
        i += 1;
    }
    proof {
        assert(group_covered(t@, first_owner(chs[k])));
    }
    0
}

proof fn lemma_push_unfold(evs: Seq<ContributionEvent>, e: ContributionEvent)
    ensures
        evs.push(e).drop_last() == evs,
        evs.push(e).last() == e,
{
    assert(evs.push(e).drop_last() =~= evs);
}

proof fn lemma_group_le_budget(evs: Seq<ContributionEvent>, name: Seq<char>, email: Seq<char>, b: Seq<char>)
    ensures
        group_sum_insertions(evs, name, email, b) <= contribution_budget(evs),
        group_sum_deletions(evs, name, email, b) <= contribution_budget(evs),
        group_sum_commits(evs, name, email, b) <= contribution_budget(evs),
    decreases evs.len(),
{
    if evs.len() > 0 {
        lemma_group_le_budget(evs.drop_last(), name, email, b);
    }
}

proof fn lemma_no_group_zero(evs: Seq<ContributionEvent>, name: Seq<char>, email: Seq<char>, b: Seq<char>)
    requires
        !has_group(evs, name, email, b),
    ensures
        group_sum_insertions(evs, name, email, b) == 0,
        group_sum_deletions(evs, name, email, b) == 0,
        group_sum_commits(evs, name, email, b) == 0,
        group_shares(evs, name, email, b) == Seq::<(nat, nat)>::empty(),
    decreases evs.len(),
{
    if evs.len() > 0 {
        assert(!in_group(evs[evs.len() - 1], name, email, b));
        assert forall|i: int| 0 <= i < evs.drop_last().len() implies !in_group(#[trigger] evs.drop_last()[i], name, email, b) by {
            assert(evs.drop_last()[i] == evs[i]);
        }
        lemma_no_group_zero(evs.drop_last(), name, email, b);
    }
}

/// A change of another author or group leaves a contribution's tallies as they were.
proof fn lemma_contribution_other(c: ContributionsByOwnerInfo, evs: Seq<ContributionEvent>, e: ContributionEvent,
    name: Seq<char>, email: Seq<char>, adjusted: bool)
    requires
        contribution_ok(c, evs, name, email, adjusted),
        !in_group(e, name, email, c.owner@),
    ensures
        contribution_ok(c, evs.push(e), name, email, adjusted),
{
    lemma_push_unfold(evs, e);
    let w = choose|w: int| 0 <= w < evs.len() && in_group(#[trigger] evs[w], name, email, c.owner@);
    assert(evs.push(e)[w] == evs[w]);
}

/// Adds a change to its group among one author's contributions.
fn group_add(cs: &mut Vec<ContributionsByOwnerInfo>, owner: &String, insertions: u32, deletions: u32, share: CommitShare,
    adjusted: bool, Ghost(evs): Ghost<Seq<ContributionEvent>>, Ghost(e): Ghost<ContributionEvent>)
    requires
        contributions_ok(old(cs)@, evs, e.name, e.email, adjusted),
        e.owner == owner@,
        e.insertions == insertions,
        e.deletions == deletions,
        adjusted ==> e.owner_insertions == share.owner_insertions && e.commit_insertions == share.commit_insertions,
        contribution_budget(evs.push(e)) <= u64::MAX,
    ensures
        contributions_ok(final(cs)@, evs.push(e), e.name, e.email, adjusted),
{
    let ghost evs2 = evs.push(e);
    let ghost name = e.name;
    let ghost email = e.email;
    proof {
        lemma_push_unfold(evs, e);
        lemma_group_le_budget(evs2, name, email, owner@);
    }
    let mut i: usize = 0;
    while i < cs.len()
        invariant
            i <= cs@.len(),
            forall|k: int| 0 <= k < i ==> (#[trigger] cs@[k]).owner@ != owner@,
        ensures
            i <= cs@.len(),
            forall|k: int| 0 <= k < i ==> (#[trigger] cs@[k]).owner@ != owner@,
            i < cs@.len() ==> cs@[i as int].owner@ == owner@,
        decreases cs@.len() - i,
    {
        if cs[i].owner == *owner {
            break;
        }
        i += 1;
    }
    let ghost before = cs@;
    if i < cs.len() {
        let a = cs[i].total_insertions;
        let d = cs[i].total_deletions;
        let n = cs[i].total_commits;
        cs[i].total_insertions = a + insertions as u64;
        cs[i].total_deletions = d + deletions as u64;
        cs[i].total_commits = n + 1;
        if adjusted {
            let x = cs[i].adjusted_changes;
            cs[i].adjusted_changes = x + insertions as u64;
            let ghost sh = cs@[i as int].adjusted_commits@;
            cs[i].adjusted_commits.push(share);
            proof {
                assert(share_views(cs@[i as int].adjusted_commits@) =~= share_views(sh).push((e.owner_insertions, e.commit_insertions)));
            }
        }
        proof {
            let a = cs@;
            assert forall|k: int| 0 <= k < a.len() implies contribution_ok(#[trigger] a[k], evs2, name, email, adjusted) by {
                if k == i {
                    assert(evs2[evs.len() as int] == e);
                } else {
                    assert(a[k] == before[k]);
                    lemma_contribution_other(before[k], evs, e, name, email, adjusted);
                }
            }
            assert forall|b: Seq<char>| #[trigger] has_group(evs2, name, email, b) implies exists|k: int| 0 <= k < a.len() && (#[trigger] a[k]).owner@ == b by {
                if b == owner@ {
                    assert(a[i as int].owner@ == b);
                } else {
                    let w = choose|w: int| 0 <= w < evs2.len() && in_group(#[trigger] evs2[w], name, email, b);
                    assert(w < evs.len());
                    assert(evs2[w] == evs[w]);
                    assert(has_group(evs, name, email, b));
                    let k = choose|k: int| 0 <= k < before.len() && (#[trigger] before[k]).owner@ == b;
                    assert(a[k].owner@ == b);
                }
            }
        }
    } else {
        proof {
            if has_group(evs, name, email, owner@) {
                let k = choose|k: int| 0 <= k < before.len() && (#[trigger] before[k]).owner@ == owner@;
                assert(false);
            }
            lemma_no_group_zero(evs, name, email, owner@);
        }
        let mut shares: Vec<CommitShare> = Vec::new();
        if adjusted {
            shares.push(share);
        }
        let c = ContributionsByOwnerInfo {
            owner: owner.clone(),
            total_insertions: insertions as u64,
            total_deletions: deletions as u64,
            total_commits: 1,
            adjusted_changes: if adjusted { insertions as u64 } else { 0 },
            adjusted_commits: shares,
        };
        cs.push(c);
        proof {
            let a = cs@;
            let last = a.len() - 1;
            assert(in_group(evs2[evs.len() as int], name, email, owner@));
            if adjusted {
                assert(share_views(c.adjusted_commits@) =~= seq![(e.owner_insertions, e.commit_insertions)]);
                assert(group_shares(evs2, name, email, owner@) =~= seq![(e.owner_insertions, e.commit_insertions)]);
            } else {
                assert(share_views(c.adjusted_commits@) =~= Seq::<(nat, nat)>::empty());
            }
            assert forall|k: int| 0 <= k < a.len() implies contribution_ok(#[trigger] a[k], evs2, name, email, adjusted) by {
                if k < last {
                    assert(a[k] == before[k]);
                    lemma_contribution_other(before[k], evs, e, name, email, adjusted);
                }
            }
            assert forall|b: Seq<char>| #[trigger] has_group(evs2, name, email, b) implies exists|k: int| 0 <= k < a.len() && (#[trigger] a[k]).owner@ == b by {
                if b == owner@ {
                    assert(a[last].owner@ == b);
                } else {
                    let w = choose|w: int| 0 <= w < evs2.len() && in_group(#[trigger] evs2[w], name, email, b);
                    assert(w < evs.len());
                    assert(evs2[w] == evs[w]);
                    assert(has_group(evs, name, email, b));
                    let k = choose|k: int| 0 <= k < before.len() && (#[trigger] before[k]).owner@ == b;
                    assert(a[k] == before[k]);
                }
            }
            assert forall|k1: int, k2: int| 0 <= k1 < k2 < a.len() implies a[k1].owner@ != a[k2].owner@ by {
                if k2 == last {
                    assert(a[k1] == before[k1]);
                }
            }
        }
    }
}


proof fn lemma_contribution_before_facts(a: ContributionsByOwnerInfo, b: ContributionsByOwnerInfo, c: ContributionsByOwnerInfo)
    ensures
        !contribution_before(a, a),
        contribution_before(a, b) && contribution_before(b, c) ==> contribution_before(a, c),
        a.owner@ != b.owner@ ==> contribution_before(a, b) || contribution_before(b, a),
        contribution_before(a, b) ==> !contribution_before(b, a),
{
    lemma_text_lt_irreflexive(a.owner@);
    if contribution_before(a, b) && contribution_before(b, c) && a.total_commits == b.total_commits && b.total_commits == c.total_commits {
        lemma_text_lt_transitive(a.owner@, b.owner@, c.owner@);
    }
    if a.owner@ != b.owner@ {
        lemma_text_lt_total(a.owner@, b.owner@);
    }
    if contribution_before(a, b) && contribution_before(b, a) {
        lemma_text_lt_transitive(a.owner@, b.owner@, a.owner@);
    }
}

fn contribution_less(a: &ContributionsByOwnerInfo, b: &ContributionsByOwnerInfo) -> (r: bool)
    ensures
        r == contribution_before(*a, *b),
{
    if a.total_commits != b.total_commits {
        return a.total_commits > b.total_commits;
    }
    text_less(a.owner.as_str(), b.owner.as_str())
}

spec fn occurs_in(x: ContributionsByOwnerInfo, s: Seq<ContributionsByOwnerInfo>, lo: int) -> bool {
    exists|j: int| lo <= j < s.len() && s[j] == x
}

/// The contributions in contribution order.
fn sort_contributions(v: Vec<ContributionsByOwnerInfo>) -> (r: Vec<ContributionsByOwnerInfo>)
    requires
        forall|i: int, j: int| 0 <= i < j < v@.len() ==> v@[i].owner@ != v@[j].owner@,
    ensures
        forall|a: int, b: int| 0 <= a < b < r@.len() ==> contribution_before(r@[a], r@[b]),
        forall|k: int| 0 <= k < r@.len() ==> occurs_in(#[trigger] r@[k], v@, 0),
        forall|j: int| 0 <= j < v@.len() ==> occurs_in(#[trigger] v@[j], r@, 0),
{
    let ghost orig = v@;
    let mut rest = v;
    let mut out: Vec<ContributionsByOwnerInfo> = Vec::new();
    while rest.len() > 0
        invariant
            forall|i: int, j: int| 0 <= i < j < orig.len() ==> orig[i].owner@ != orig[j].owner@,
            rest@.len() <= orig.len(),
            rest@ == orig.take(rest@.len() as int),
            forall|a: int, b: int| 0 <= a < b < out@.len() ==> contribution_before(out@[a], out@[b]),
            forall|k: int| 0 <= k < out@.len() ==> occurs_in(#[trigger] out@[k], orig, rest@.len() as int),
            forall|j: int| rest@.len() <= j < orig.len() ==> occurs_in(#[trigger] orig[j], out@, 0),
        decreases rest@.len(),
    {
        let ghost m = rest@.len() - 1;
        let x = rest.pop().unwrap();
        assert(x == orig[m]);
        let mut p: usize = 0;
        while p < out.len() && !contribution_less(&x, &out[p])
            invariant
                p <= out@.len(),
                forall|k: int| 0 <= k < p ==> !contribution_before(x, #[trigger] out@[k]),
            decreases out@.len() - p,
        {
            p += 1;
        }
        let ghost before = out@;
        proof {
            assert forall|k: int| 0 <= k < before.len() implies before[k].owner@ != x.owner@ by {
                assert(occurs_in(before[k], orig, m + 1));
            }
        }
        out.insert(p, x);
        proof {
            lemma_insert_sorted(before, x, p as int);
            let o = out@;
            assert forall|k: int| 0 <= k < o.len() implies occurs_in(#[trigger] o[k], orig, m) by {
                if k == p {
                    assert(o[k] == orig[m as int]);
                } else {
                    let k0 = if k < p { k } else { k - 1 };
                    assert(o[k] == before[k0]);
                    assert(occurs_in(before[k0], orig, m + 1));
                }
            }
            assert forall|j: int| m <= j < orig.len() implies occurs_in(#[trigger] orig[j], o, 0) by {
                if j == m {
                    assert(o[p as int] == orig[j]);
                } else {
                    assert(occurs_in(orig[j], before, 0));
                    let k = choose|k: int| 0 <= k < before.len() && before[k] == orig[j];
                    let k2 = if k < p { k } else { k + 1 };
                    assert(o[k2] == before[k]);
                }
            }
            assert(rest@ =~= orig.take(m as int));
        }
    }
    out
}

proof fn lemma_insert_sorted(before: Seq<ContributionsByOwnerInfo>, x: ContributionsByOwnerInfo, p: int)
    requires
        0 <= p <= before.len(),
        forall|a: int, b: int| 0 <= a < b < before.len() ==> contribution_before(before[a], before[b]),
        forall|k: int| 0 <= k < p ==> !contribution_before(x, #[trigger] before[k]),
        p < before.len() ==> contribution_before(x, before[p]),
        forall|k: int| 0 <= k < before.len() ==> before[k].owner@ != x.owner@,
    ensures
        forall|a: int, b: int| 0 <= a < b < before.insert(p, x).len() ==> contribution_before(before.insert(p, x)[a], before.insert(p, x)[b]),
{
    let o = before.insert(p, x);
    assert forall|a: int, b: int| 0 <= a < b < o.len() implies contribution_before(o[a], o[b]) by {
        if b == p {
            assert(o[a] == before[a]);
            lemma_contribution_before_facts(before[a], x, x);
        } else if a == p {
            assert(o[b] == before[b - 1]);
            if b - 1 > p {
                lemma_contribution_before_facts(x, before[p], before[b - 1]);
            }
        } else {
            let a0 = if a < p { a } else { a - 1 };
            let b0 = if b < p { b } else { b - 1 };
            assert(o[a] == before[a0]);
            assert(o[b] == before[b0]);
        }
    }
}


proof fn lemma_author_before_facts(n1: Seq<char>, e1: Seq<char>, n2: Seq<char>, e2: Seq<char>, n3: Seq<char>, e3: Seq<char>)
    ensures
        !author_before(n1, e1, n1, e1),
        author_before(n1, e1, n2, e2) && author_before(n2, e2, n3, e3) ==> author_before(n1, e1, n3, e3),
        !(n1 == n2 && e1 == e2) ==> author_before(n1, e1, n2, e2) || author_before(n2, e2, n1, e1),
{
    lemma_text_lt_irreflexive(n1);
    lemma_text_lt_irreflexive(e1);
    if author_before(n1, e1, n2, e2) && author_before(n2, e2, n3, e3) {
        if text_lt(n1, n2) && text_lt(n2, n3) {
            lemma_text_lt_transitive(n1, n2, n3);
        } else if n1 == n2 && n2 == n3 {
            lemma_text_lt_transitive(e1, e2, e3);
        }
    }
    if n1 != n2 {
        lemma_text_lt_total(n1, n2);
    } else if e1 != e2 {
        lemma_text_lt_total(e1, e2);
    }
}

fn author_less(n1: &String, e1: &String, n2: &String, e2: &String) -> (r: bool)
    ensures
        r == author_before(n1@, e1@, n2@, e2@),
{
    let c = text_cmp(n1.as_str(), n2.as_str());
    if c != 0 {
        return c < 0;
    }
    text_less(e1.as_str(), e2.as_str())
}

spec fn rows_ok(rows: Seq<ContributorInfo>, evs: Seq<ContributionEvent>, adjusted: bool) -> bool {
    &&& forall|i: int, j: int| 0 <= i < j < rows.len() ==>
        author_before(rows[i].author_name@, rows[i].author_email@, rows[j].author_name@, rows[j].author_email@)
    &&& forall|i: int| 0 <= i < rows.len() ==> {
        &&& has_contributor(evs, (#[trigger] rows[i]).author_name@, rows[i].author_email@)
        &&& contributions_ok(rows[i].contributions@, evs, rows[i].author_name@, rows[i].author_email@, adjusted)
    }
    &&& forall|name: Seq<char>, email: Seq<char>| #[trigger] has_contributor(evs, name, email) ==>
        exists|i: int| 0 <= i < rows.len() && (#[trigger] rows[i]).author_name@ == name && rows[i].author_email@ == email
}

/// A change of another author leaves an author's contributions as they were.
proof fn lemma_contributions_other(cs: Seq<ContributionsByOwnerInfo>, evs: Seq<ContributionEvent>, e: ContributionEvent,
    name: Seq<char>, email: Seq<char>, adjusted: bool)
    requires
        contributions_ok(cs, evs, name, email, adjusted),
        !(e.name == name && e.email == email),
    ensures
        contributions_ok(cs, evs.push(e), name, email, adjusted),
{
    lemma_push_unfold(evs, e);
    let evs2 = evs.push(e);
    assert forall|k: int| 0 <= k < cs.len() implies contribution_ok(#[trigger] cs[k], evs2, name, email, adjusted) by {
        lemma_contribution_other(cs[k], evs, e, name, email, adjusted);
    }
    assert forall|b: Seq<char>| #[trigger] has_group(evs2, name, email, b) implies has_group(evs, name, email, b) by {
        let w = choose|w: int| 0 <= w < evs2.len() && in_group(#[trigger] evs2[w], name, email, b);
        assert(w < evs.len());
        assert(evs2[w] == evs[w]);
    }
}

/// Adds a change to the rows, which stay in author order.
fn contributor_record(rows: &mut Vec<ContributorInfo>, name: &String, email: &String, owner: &String,
    insertions: u32, deletions: u32, share: CommitShare, adjusted: bool,
    Ghost(evs): Ghost<Seq<ContributionEvent>>, Ghost(e): Ghost<ContributionEvent>)
    requires
        rows_ok(old(rows)@, evs, adjusted),
        e.name == name@,
        e.email == email@,
        e.owner == owner@,
        e.insertions == insertions,
        e.deletions == deletions,
        adjusted ==> e.owner_insertions == share.owner_insertions && e.commit_insertions == share.commit_insertions,
        contribution_budget(evs.push(e)) <= u64::MAX,
    ensures
        rows_ok(final(rows)@, evs.push(e), adjusted),
{
    let ghost evs2 = evs.push(e);
    proof {
        lemma_push_unfold(evs, e);
    }
    let mut i: usize = 0;
    while i < rows.len() && author_less(&rows[i].author_name, &rows[i].author_email, name, email)
        invariant
            i <= rows@.len(),
            forall|k: int| 0 <= k < i ==> author_before((#[trigger] rows@[k]).author_name@, rows@[k].author_email@, name@, email@),
        decreases rows@.len() - i,
    {
        i += 1;
    }
    let found = i < rows.len() && rows[i].author_name == *name && rows[i].author_email == *email;
    if !found {
        let ghost before = rows@;
        proof {
            if has_contributor(evs, name@, email@) {
                let k = choose|k: int| 0 <= k < before.len() && (#[trigger] before[k]).author_name@ == name@ && before[k].author_email@ == email@;
                lemma_author_before_facts(name@, email@, name@, email@, name@, email@);
                if k > i {
                    assert(author_before(before[i as int].author_name@, before[i as int].author_email@, before[k].author_name@, before[k].author_email@));
                }
            }
            assert forall|b: Seq<char>| !has_group(evs, name@, email@, b) by {
                if has_group(evs, name@, email@, b) {
                    let w = choose|w: int| 0 <= w < evs.len() && in_group(#[trigger] evs[w], name@, email@, b);
                    assert(evs[w].name == name@ && evs[w].email == email@);
                }
            }
            if i < before.len() {
                lemma_author_before_facts(before[i as int].author_name@, before[i as int].author_email@, name@, email@, name@, email@);
            }
        }
        let row = ContributorInfo { author_name: name.clone(), author_email: email.clone(), contributions: Vec::new() };
        rows.insert(i, row);
        proof {
            let ts = rows@;
            assert(ts[i as int] == row);
            assert forall|a: int, b: int| 0 <= a < b < ts.len() implies
                author_before(ts[a].author_name@, ts[a].author_email@, ts[b].author_name@, ts[b].author_email@) by {
                if b == i {
                    assert(ts[a] == before[a]);
                } else if a == i {
                    assert(ts[b] == before[b - 1]);
                    if b - 1 > i {
                        lemma_author_before_facts(name@, email@, before[i as int].author_name@, before[i as int].author_email@,
                            before[b - 1].author_name@, before[b - 1].author_email@);
                    }
                } else {
                    let a0 = if a < i { a } else { a - 1 };
                    let b0 = if b < i { b } else { b - 1 };
                    assert(ts[a] == before[a0]);
                    assert(ts[b] == before[b0]);
                }
            }
            assert forall|nm: Seq<char>, em: Seq<char>| #[trigger] has_contributor(evs, nm, em) implies
                exists|k: int| 0 <= k < ts.len() && (#[trigger] ts[k]).author_name@ == nm && ts[k].author_email@ == em by {
                let k = choose|k: int| 0 <= k < before.len() && (#[trigger] before[k]).author_name@ == nm && before[k].author_email@ == em;
                let k2 = if k < i { k } else { k + 1 };
                assert(ts[k2] == before[k]);
            }
            assert forall|k: int| 0 <= k < ts.len() && k != i implies {
                &&& has_contributor(evs, (#[trigger] ts[k]).author_name@, ts[k].author_email@)
                &&& contributions_ok(ts[k].contributions@, evs, ts[k].author_name@, ts[k].author_email@, adjusted)
            } by {
                let k0 = if k < i { k } else { k - 1 };
                assert(ts[k] == before[k0]);
            }
            assert(contributions_ok(ts[i as int].contributions@, evs, name@, email@, adjusted));
        }
    }
    let ghost mid = rows@;
    proof {
        assert(mid[i as int].author_name@ == name@ && mid[i as int].author_email@ == email@);
        assert(contributions_ok(mid[i as int].contributions@, evs, name@, email@, adjusted));
    }
    group_add(&mut rows[i].contributions, owner, insertions, deletions, share, adjusted, Ghost(evs), Ghost(e));
    proof {
        let ts = rows@;
        assert forall|k: int| 0 <= k < ts.len() implies {
            &&& has_contributor(evs2, (#[trigger] ts[k]).author_name@, ts[k].author_email@)
            &&& contributions_ok(ts[k].contributions@, evs2, ts[k].author_name@, ts[k].author_email@, adjusted)
        } by {
            if k == i {
                assert(evs2[evs.len() as int] == e);
            } else {
                assert(ts[k] == mid[k]);
                let w = choose|w: int| 0 <= w < evs.len() && (#[trigger] evs[w]).name == mid[k].author_name@ && evs[w].email == mid[k].author_email@;
                assert(evs2[w] == evs[w]);
                lemma_author_before_facts(name@, email@, name@, email@, name@, email@);
                if k < i {
                    assert(author_before(mid[k].author_name@, mid[k].author_email@, name@, email@));
                } else {
                    assert(author_before(name@, email@, mid[k].author_name@, mid[k].author_email@));
                }
                lemma_contributions_other(mid[k].contributions@, evs, e, mid[k].author_name@, mid[k].author_email@, adjusted);
            }
        }
        assert forall|nm: Seq<char>, em: Seq<char>| #[trigger] has_contributor(evs2, nm, em) implies
            exists|k: int| 0 <= k < ts.len() && (#[trigger] ts[k]).author_name@ == nm && ts[k].author_email@ == em by {
            if nm == name@ && em == email@ {
                assert(ts[i as int].author_name@ == nm);
            } else {
                let w = choose|w: int| 0 <= w < evs2.len() && (#[trigger] evs2[w]).name == nm && evs2[w].email == em;
                assert(w < evs.len());
                assert(evs2[w] == evs[w]);
                assert(has_contributor(evs, nm, em));
                let k = choose|k: int| 0 <= k < mid.len() && (#[trigger] mid[k]).author_name@ == nm && mid[k].author_email@ == em;
                assert(ts[k].author_name@ == nm);
            }
        }
        assert forall|a: int, b: int| 0 <= a < b < ts.len() implies
            author_before(ts[a].author_name@, ts[a].author_email@, ts[b].author_name@, ts[b].author_email@) by {
            assert(ts[a].author_name@ == mid[a].author_name@ && ts[a].author_email@ == mid[a].author_email@);
            assert(ts[b].author_name@ == mid[b].author_name@ && ts[b].author_email@ == mid[b].author_email@);
        }
    }
}


proof fn lemma_budget_concat(a: Seq<ContributionEvent>, b: Seq<ContributionEvent>)
    ensures
        contribution_budget(a + b) == contribution_budget(a) + contribution_budget(b),
    decreases b.len(),
{
    if b.len() > 0 {
        assert((a + b).drop_last() =~= a + b.drop_last());
        lemma_budget_concat(a, b.drop_last());
    } else {
        assert(a + b =~= a);
    }
}

proof fn lemma_events_take(cs: Seq<CommitInfoWithCodeowner>, k: int)
    requires
        0 <= k <= cs.len(),
    ensures
        contribution_budget(contribution_events(cs.take(k))) <= contribution_budget(contribution_events(cs)),
    decreases cs.len(),
{
    if k < cs.len() {
        assert(cs.drop_last().take(k) =~= cs.take(k));
        lemma_events_take(cs.drop_last(), k);
        lemma_budget_concat(contribution_events(cs.drop_last()), commit_contributions(cs.last()));
    } else {
        assert(cs.take(k) =~= cs);
    }
}

/// Counts every change of one commit for its author.
fn apply_commit(rows: &mut Vec<ContributorInfo>, c: &CommitInfoWithCodeowner, adjusted: bool, Ghost(base): Ghost<Seq<ContributionEvent>>)
    requires
        rows_ok(old(rows)@, base, adjusted),
        contribution_budget(base + commit_contributions(*c)) <= u64::MAX,
        plain_insertions(c.file_changes@) <= u64::MAX,
    ensures
        rows_ok(final(rows)@, base + commit_contributions(*c), adjusted),
{
    let chs = &c.file_changes;
    let ghost evs_c = commit_contributions(*c);
    let ghost mut done: Seq<ContributionEvent> = base;
    proof {
        assert(evs_c.take(0) =~= Seq::<ContributionEvent>::empty());
        assert(base + evs_c.take(0) =~= base);
    }
    let total: u64 = if adjusted { commit_insertions(chs) } else { 0 };
    let table = if adjusted { group_table(chs) } else { Vec::new() };
    let mut k: usize = 0;
    while k < chs.len()
        invariant
            chs@ == c.file_changes@,
            evs_c == commit_contributions(*c),
            plain_insertions(chs@) <= u64::MAX,
            adjusted ==> total == plain_insertions(chs@),
            adjusted ==> group_table_ok(table@, chs@),
            k <= chs@.len(),
            contribution_budget(base + evs_c) <= u64::MAX,
            done == base + evs_c.take(k as int),
            rows_ok(rows@, done, adjusted),
        decreases chs@.len() - k,
    {
        let ch = &chs[k];
        let owner = first_owner_of(ch);
        let share = if adjusted {
            let g = group_lookup(&table, &owner, Ghost(chs@), Ghost(k as int));
            CommitShare { owner_insertions: g, commit_insertions: total }
        } else {
            CommitShare { owner_insertions: 0, commit_insertions: 0 }
        };
        let ghost e = contribution_event(*c, *ch);
        proof {
            assert(evs_c[k as int] == e);
            assert(evs_c.take(k + 1) =~= evs_c.take(k as int).push(e));
            assert(base + evs_c.take(k + 1) =~= done.push(e));
            assert(evs_c =~= evs_c.take(k + 1) + evs_c.skip(k + 1));
            lemma_budget_concat(evs_c.take(k + 1), evs_c.skip(k + 1));
            lemma_budget_concat(base, evs_c.take(k + 1));
            lemma_budget_concat(base, evs_c);
        }
        contributor_record(rows, &c.author.name, &c.author.email, &owner, ch.insertions, ch.deletions, share,
            adjusted, Ghost(done), Ghost(e));
        proof {
            done = done.push(e);
        }
        k += 1;
    }
    proof {
        assert(evs_c.take(k as int) =~= evs_c);
    }
}

/// The rows of the contributor report, each with its contributions in order.
fn contributor_rows(rows: Vec<ContributorInfo>, Ghost(evs): Ghost<Seq<ContributionEvent>>, adjusted: bool) -> (r: Vec<ContributorInfo>)
    requires
        rows_ok(rows@, evs, adjusted),
    ensures
        contributor_report(r@, evs, adjusted),
{
    let ghost ts = rows@;
    let n = rows.len();
    let mut rest = rows;
    let mut out: Vec<ContributorInfo> = Vec::new();
    proof {
        assert(rest@ =~= ts.skip(0));
    }
    let mut idx: usize = 0;
    while idx < n
        invariant
            n == ts.len(),
            idx <= n,
            rest@ =~= ts.skip(idx as int),
            rows_ok(ts, evs, adjusted),
            out@.len() == idx,
            forall|q: int| 0 <= q < idx ==> {
                &&& (#[trigger] out@[q]).author_name@ == ts[q].author_name@
                &&& out@[q].author_email@ == ts[q].author_email@
                &&& contributions_ok(out@[q].contributions@, evs, ts[q].author_name@, ts[q].author_email@, adjusted)
                &&& forall|a: int, b: int| 0 <= a < b < out@[q].contributions@.len() ==>
                    contribution_before(out@[q].contributions@[a], out@[q].contributions@[b])
            },
        decreases n - idx,
    {
        let row = rest.remove(0);
        proof {
            assert(row == ts[idx as int]);
            assert(rest@ =~= ts.skip(idx + 1));
        }
        let ghost v = row.contributions@;
        let ghost nm = row.author_name@;
        let ghost em = row.author_email@;
        let sorted = sort_contributions(row.contributions);
        proof {
            let w = sorted@;
            assert forall|a: int, b: int| 0 <= a < b < w.len() implies w[a].owner@ != w[b].owner@ by {
                lemma_contribution_before_facts(w[a], w[b], w[a]);
                assert(occurs_in(w[a], v, 0));
                assert(occurs_in(w[b], v, 0));
                let ja = choose|j: int| 0 <= j < v.len() && v[j] == w[a];
                let jb = choose|j: int| 0 <= j < v.len() && v[j] == w[b];
                if ja == jb {
                    lemma_contribution_before_facts(w[a], w[a], w[a]);
                }
            }
            assert forall|q: int| 0 <= q < w.len() implies contribution_ok(#[trigger] w[q], evs, nm, em, adjusted) by {
                assert(occurs_in(w[q], v, 0));
                let j = choose|j: int| 0 <= j < v.len() && v[j] == w[q];
            }
            assert forall|b: Seq<char>| #[trigger] has_group(evs, nm, em, b) implies exists|q: int| 0 <= q < w.len() && (#[trigger] w[q]).owner@ == b by {
                let j = choose|j: int| 0 <= j < v.len() && (#[trigger] v[j]).owner@ == b;
                assert(occurs_in(v[j], w, 0));
                let q = choose|q: int| 0 <= q < w.len() && w[q] == v[j];
            }
        }
        out.push(ContributorInfo { author_name: row.author_name, author_email: row.author_email, contributions: sorted });
        idx += 1;
    }
    proof {
        let o = out@;
        assert forall|nm: Seq<char>, em: Seq<char>| #[trigger] has_contributor(evs, nm, em) implies
            exists|q: int| 0 <= q < o.len() && (#[trigger] o[q]).author_name@ == nm && o[q].author_email@ == em by {
            let q = choose|q: int| 0 <= q < ts.len() && (#[trigger] ts[q]).author_name@ == nm && ts[q].author_email@ == em;
            assert(o[q].author_name@ == nm);
        }
        assert forall|a: int, b: int| 0 <= a < b < o.len() implies
            author_before(o[a].author_name@, o[a].author_email@, o[b].author_name@, o[b].author_email@) by {
            assert(o[a].author_name@ == ts[a].author_name@);
            assert(o[b].author_name@ == ts[b].author_name@);
        }
        assert forall|q: int| 0 <= q < o.len() implies has_contributor(evs, (#[trigger] o[q]).author_name@, o[q].author_email@) by {
            assert(has_contributor(evs, ts[q].author_name@, ts[q].author_email@));
        }
    }
    out
}


/// The contributor report built up commit by commit, in history order.
pub struct ContributorAnalysis {
    rows: Vec<ContributorInfo>,
    adjusted: bool,
    spent: u64,
    changes: Ghost<Seq<ContributionEvent>>,
}

impl ContributorAnalysis {
    /// The changes of the commits applied so far, as the report counts them.
    pub closed spec fn changes(&self) -> Seq<ContributionEvent> {
        self.changes@
    }

    pub closed spec fn adjusted(&self) -> bool {
        self.adjusted
    }

    pub closed spec fn wf(&self) -> bool {
        &&& rows_ok(self.rows@, self.changes@, self.adjusted)
        &&& self.spent == contribution_budget(self.changes@)
    }

    /// An empty analysis; `adjusted` asks for the adjusted totals too.
    pub fn new(adjusted: bool) -> (r: Self)
        ensures
            r.wf(),
            r.changes() == Seq::<ContributionEvent>::empty(),
            r.adjusted() == adjusted,
    {
        ContributorAnalysis { rows: Vec::new(), adjusted, spent: 0, changes: Ghost(Seq::empty()) }
    }

    /// Whether the tallies still fit in a `u64` once `commit` is applied.
    pub fn fits(&self, commit: &CommitInfoWithCodeowner) -> (r: bool)
        requires
            self.wf(),
        ensures
            r == (contribution_budget(self.changes() + commit_contributions(*commit)) <= u64::MAX
                && plain_insertions(commit.file_changes@) <= u64::MAX),
    {
        proof {
            lemma_budget_concat(self.changes@, commit_contributions(*commit));
        }
        plain_insertions_fit(&commit.file_changes) && commit_budget(self.spent, commit).is_some()
    }

    /// Counts every change of `commit` for its author.
    pub fn apply(&mut self, commit: &CommitInfoWithCodeowner)
        requires
            old(self).wf(),
            contribution_budget(old(self).changes() + commit_contributions(*commit)) <= u64::MAX,
            plain_insertions(commit.file_changes@) <= u64::MAX,
        ensures
            final(self).wf(),
            final(self).changes() == old(self).changes() + commit_contributions(*commit),
            final(self).adjusted() == old(self).adjusted(),
    {
        let ghost base = self.changes@;
        apply_commit(&mut self.rows, commit, self.adjusted, Ghost(base));
        proof {
            lemma_budget_concat(base, commit_contributions(*commit));
        }
        match commit_budget(self.spent, commit) {
            Some(x) => {
                self.spent = x;
            },
            None => {},
        }
        self.changes = Ghost(base + commit_contributions(*commit));
    }

    /// The contributor report over the commits applied.
    pub fn report(self) -> (r: Vec<ContributorInfo>)
        requires
            self.wf(),
        ensures
            contributor_report(r@, self.changes(), self.adjusted()),
    {
        contributor_rows(self.rows, Ghost(self.changes@), self.adjusted)
    }
}

/// `spent` plus what the commit's changes add to the budget, if that fits.
fn commit_budget(spent: u64, c: &CommitInfoWithCodeowner) -> (r: Option<u64>)
    ensures
        match r {
            Some(x) => x == spent + contribution_budget(commit_contributions(*c)),
            None => spent + contribution_budget(commit_contributions(*c)) > u64::MAX,
        },
{
    let chs = &c.file_changes;
    let ghost evs_c = commit_contributions(*c);
    let mut acc: u64 = spent;
    let mut k: usize = 0;
    proof {
        assert(evs_c.take(0) =~= Seq::<ContributionEvent>::empty());
    }
    while k < chs.len()
        invariant
            chs@ == c.file_changes@,
            evs_c == commit_contributions(*c),
            k <= chs@.len(),
            acc == spent + contribution_budget(evs_c.take(k as int)),
        decreases chs@.len() - k,
    {
        proof {
            assert(evs_c.take(k + 1).drop_last() =~= evs_c.take(k as int));
            assert(evs_c.take(k + 1).last() == evs_c[k as int]);
            assert(evs_c =~= evs_c.take(k + 1) + evs_c.skip(k + 1));
            lemma_budget_concat(evs_c.take(k + 1), evs_c.skip(k + 1));
        }
        let step = chs[k].insertions as u64 + chs[k].deletions as u64 + 1;
        if acc > u64::MAX - step {
            return None;
        }
        acc = acc + step;
        k += 1;
    }
    proof {
        assert(evs_c.take(k as int) =~= evs_c);
    }
    Some(acc)
}

/// The contributor report of a history: for every author, in author order,
/// the totals of their changes under each group (the first owner of a path,
/// or `<unowned>`), with adjusted totals when `adjusted`, the groups ordered
/// by changes counted.
pub fn analyze_by_contributor(commits: &Vec<CommitInfoWithCodeowner>, adjusted: bool) -> (r: Vec<ContributorInfo>)
    requires
        contributor_totals_fit(commits@),
    ensures
        contributor_report(r@, contribution_events(commits@), adjusted),
{
    let ghost cs = commits@;
    let mut analysis = ContributorAnalysis::new(adjusted);
    let mut i: usize = 0;
    proof {
        assert(cs.take(0) =~= Seq::<CommitInfoWithCodeowner>::empty());
    }
    while i < commits.len()
        invariant
            cs == commits@,
            contributor_totals_fit(cs),
            i <= cs.len(),
            analysis.wf(),
            analysis.adjusted() == adjusted,
            analysis.changes() == contribution_events(cs.take(i as int)),
        decreases cs.len() - i,
    {
        proof {
            assert(cs.take(i + 1).drop_last() =~= cs.take(i as int));
            assert(cs.take(i + 1).last() == cs[i as int]);
            lemma_events_take(cs, i + 1);
            lemma_budget_concat(contribution_events(cs.take(i as int)), commit_contributions(cs[i as int]));
            assert(plain_insertions(cs[i as int].file_changes@) <= u64::MAX);
        }
        analysis.apply(&commits[i]);
        i += 1;
    }
    proof {
        assert(cs.take(i as int) =~= cs);
    }
    analysis.report()
}

fn plain_insertions_fit(chs: &Vec<FileChangeWithCodeowner>) -> (r: bool)
    ensures
        r == (plain_insertions(chs@) <= u64::MAX),
{
    let mut acc: u64 = 0;
    let mut k: usize = 0;
    while k < chs.len()
        invariant
            k <= chs@.len(),
            acc == plain_insertions(chs@.take(k as int)),
        decreases chs@.len() - k,
    {
        proof {
            assert(chs@.take(k + 1).drop_last() =~= chs@.take(k as int));
            assert(chs@.take(k + 1).last() == chs@[k as int]);
            lemma_group_le_plain(chs@, Seq::empty(), k + 1);
        }
        let x = chs[k].insertions as u64;
        if acc > u64::MAX - x {
            return false;
        }
        acc = acc + x;
        k += 1;
    }
    proof {
        assert(chs@.take(k as int) =~= chs@);
    }
    true
}

/// Whether every tally of the contributor report of `commits` fits in a
/// `u64` (what `analyze_by_contributor` requires).
pub fn fits_contributor_report(commits: &Vec<CommitInfoWithCodeowner>) -> (r: bool)
    ensures
        r == contributor_totals_fit(commits@),
{
    let ghost cs = commits@;
    let mut acc: u64 = 0;
    let mut i: usize = 0;
    proof {
        assert(cs.take(0) =~= Seq::<CommitInfoWithCodeowner>::empty());
    }
    while i < commits.len()
        invariant
            cs == commits@,
            i <= cs.len(),
            acc == contribution_budget(contribution_events(cs.take(i as int))),
            forall|q: int| 0 <= q < i ==> plain_insertions((#[trigger] cs[q]).file_changes@) <= u64::MAX,
        decreases cs.len() - i,
    {
        let c = &commits[i];
        proof {
            assert(cs.take(i + 1).drop_last() =~= cs.take(i as int));
            assert(cs.take(i + 1).last() == cs[i as int]);
            lemma_events_take(cs, i + 1);
            lemma_budget_concat(contribution_events(cs.take(i as int)), commit_contributions(*c));
        }
        if !plain_insertions_fit(&c.file_changes) {
            return false;
        }
        match commit_budget(acc, c) {
            Some(x) => {
                acc = x;
            },
            None => {
                return false;
            },
        }
        i += 1;
    }
    proof {
        assert(cs.take(i as int) =~= cs);
    }
    true
}


/// A change whose path has no owner (no rule matches, or the matching rule
/// names none) is credited to no owner group, so it makes no row of the
/// owner report, and counts for the `<unowned>` group of the contributor
/// report.
pub proof fn lemma_unowned_change(c: CommitInfoWithCodeowner, ch: FileChangeWithCodeowner)
    requires
        owners_of(ch).len() == 0,
    ensures
        change_events(c, ch).len() == 0,
        contribution_event(c, ch).owner == unowned(),
{
}


proof fn lemma_rows_step(r1: Seq<ContributorInfo>, r2: Seq<ContributorInfo>, evs: Seq<ContributionEvent>, adjusted: bool, p: int)
    requires
        contributor_report(r1, evs, adjusted),
        contributor_report(r2, evs, adjusted),
        0 <= p < r1.len(),
        p <= r2.len(),
        forall|k: int| 0 <= k < p ==> (#[trigger] r1[k]).author_name@ == r2[k].author_name@ && r1[k].author_email@ == r2[k].author_email@,
    ensures
        p < r2.len(),
        r1[p].author_name@ == r2[p].author_name@ && r1[p].author_email@ == r2[p].author_email@,
{
    let (n, e) = (r1[p].author_name@, r1[p].author_email@);
    lemma_author_before_facts(n, e, n, e, n, e);
    assert(has_contributor(evs, r1[p].author_name@, r1[p].author_email@));
    let q = choose|q: int| 0 <= q < r2.len() && (#[trigger] r2[q]).author_name@ == n && r2[q].author_email@ == e;
    if q < p {
        assert(r1[q].author_name@ == n && r1[q].author_email@ == e);
        assert(author_before(r1[q].author_name@, r1[q].author_email@, r1[p].author_name@, r1[p].author_email@));
    }
    if q > p {
        let (n2, e2) = (r2[p].author_name@, r2[p].author_email@);
        assert(has_contributor(evs, r2[p].author_name@, r2[p].author_email@));
        let w = choose|w: int| 0 <= w < r1.len() && (#[trigger] r1[w]).author_name@ == n2 && r1[w].author_email@ == e2;
        assert(author_before(n2, e2, n, e));
        lemma_author_before_facts(n2, e2, n, e, n2, e2);
        lemma_author_before_facts(n2, e2, n2, e2, n2, e2);
        if w < p {
            assert(r2[w].author_name@ == n2 && r2[w].author_email@ == e2);
            assert(author_before(r2[w].author_name@, r2[w].author_email@, r2[p].author_name@, r2[p].author_email@));
        } else if w > p {
            assert(author_before(r1[p].author_name@, r1[p].author_email@, r1[w].author_name@, r1[w].author_email@));
        }
    }
}

proof fn lemma_rows_prefix(r1: Seq<ContributorInfo>, r2: Seq<ContributorInfo>, evs: Seq<ContributionEvent>, adjusted: bool, p: int)
    requires
        contributor_report(r1, evs, adjusted),
        contributor_report(r2, evs, adjusted),
        0 <= p <= r1.len(),
        p <= r2.len(),
    ensures
        forall|k: int| 0 <= k < p ==> (#[trigger] r1[k]).author_name@ == r2[k].author_name@ && r1[k].author_email@ == r2[k].author_email@,
    decreases p,
{
    if p > 0 {
        lemma_rows_prefix(r1, r2, evs, adjusted, p - 1);
        lemma_rows_step(r1, r2, evs, adjusted, p - 1);
    }
}

/// The contributors of a report are determined by the changes alone: two
/// reports of the same changes list the same authors in the same order.
pub proof fn lemma_contributor_rows_unique(r1: Seq<ContributorInfo>, r2: Seq<ContributorInfo>, evs: Seq<ContributionEvent>, adjusted: bool)
    requires
        contributor_report(r1, evs, adjusted),
        contributor_report(r2, evs, adjusted),
    ensures
        r1.len() == r2.len(),
        forall|i: int| 0 <= i < r1.len() ==> (#[trigger] r1[i]).author_name@ == r2[i].author_name@ && r1[i].author_email@ == r2[i].author_email@,
{
    let m = if r1.len() <= r2.len() { r1.len() as int } else { r2.len() as int };
    lemma_rows_prefix(r1, r2, evs, adjusted, m);
    if r1.len() > m {
        lemma_rows_step(r1, r2, evs, adjusted, m);
    }
    if r2.len() > m {
        lemma_rows_prefix(r2, r1, evs, adjusted, m);
        lemma_rows_step(r2, r1, evs, adjusted, m);
    }
}


/// Group order for one author, from the changes alone.
spec fn group_before(evs: Seq<ContributionEvent>, name: Seq<char>, email: Seq<char>, a: Seq<char>, b: Seq<char>) -> bool {
    group_sum_commits(evs, name, email, a) > group_sum_commits(evs, name, email, b)
        || (group_sum_commits(evs, name, email, a) == group_sum_commits(evs, name, email, b) && text_lt(a, b))
}

spec fn sorted_groups(cs: Seq<ContributionsByOwnerInfo>, evs: Seq<ContributionEvent>, name: Seq<char>, email: Seq<char>, adjusted: bool) -> bool {
    &&& contributions_ok(cs, evs, name, email, adjusted)
    &&& forall|a: int, b: int| 0 <= a < b < cs.len() ==> contribution_before(cs[a], cs[b])
}

proof fn lemma_group_before_facts(evs: Seq<ContributionEvent>, name: Seq<char>, email: Seq<char>, a: Seq<char>, b: Seq<char>)
    ensures
        !group_before(evs, name, email, a, a),
        group_before(evs, name, email, a, b) ==> !group_before(evs, name, email, b, a),
        a != b ==> group_before(evs, name, email, a, b) || group_before(evs, name, email, b, a),
{
    lemma_text_lt_irreflexive(a);
    if a != b {
        lemma_text_lt_total(a, b);
    }
    if text_lt(a, b) && text_lt(b, a) {
        lemma_text_lt_transitive(a, b, a);
    }
}

proof fn lemma_groups_step(c1: Seq<ContributionsByOwnerInfo>, c2: Seq<ContributionsByOwnerInfo>, evs: Seq<ContributionEvent>,
    name: Seq<char>, email: Seq<char>, adjusted: bool, p: int)
    requires
        sorted_groups(c1, evs, name, email, adjusted),
        sorted_groups(c2, evs, name, email, adjusted),
        0 <= p < c1.len(),
        p <= c2.len(),
        forall|k: int| 0 <= k < p ==> (#[trigger] c1[k]).owner@ == c2[k].owner@,
    ensures
        p < c2.len(),
        c1[p].owner@ == c2[p].owner@,
{
    let x = c1[p].owner@;
    assert(contribution_ok(c1[p], evs, name, email, adjusted));
    let q = choose|q: int| 0 <= q < c2.len() && (#[trigger] c2[q]).owner@ == x;
    assert(contribution_ok(c2[q], evs, name, email, adjusted));
    lemma_group_before_facts(evs, name, email, x, x);
    if q < p {
        assert(c1[q].owner@ == x);
        assert(contribution_ok(c1[q], evs, name, email, adjusted));
        assert(contribution_before(c1[q], c1[p]));
    }
    if q > p {
        let y = c2[p].owner@;
        assert(contribution_ok(c2[p], evs, name, email, adjusted));
        let w = choose|w: int| 0 <= w < c1.len() && (#[trigger] c1[w]).owner@ == y;
        assert(contribution_ok(c1[w], evs, name, email, adjusted));
        assert(contribution_before(c2[p], c2[q]));
        assert(group_before(evs, name, email, y, x));
        lemma_group_before_facts(evs, name, email, y, x);
        lemma_group_before_facts(evs, name, email, y, y);
        if w < p {
            assert(c2[w].owner@ == y);
            assert(contribution_ok(c2[w], evs, name, email, adjusted));
            assert(contribution_before(c2[w], c2[p]));
        } else if w > p {
            assert(contribution_before(c1[p], c1[w]));
        }
    }
}

proof fn lemma_groups_prefix(c1: Seq<ContributionsByOwnerInfo>, c2: Seq<ContributionsByOwnerInfo>, evs: Seq<ContributionEvent>,
    name: Seq<char>, email: Seq<char>, adjusted: bool, p: int)
    requires
        sorted_groups(c1, evs, name, email, adjusted),
        sorted_groups(c2, evs, name, email, adjusted),
        0 <= p <= c1.len(),
        p <= c2.len(),
    ensures
        forall|k: int| 0 <= k < p ==> (#[trigger] c1[k]).owner@ == c2[k].owner@,
    decreases p,
{
    if p > 0 {
        lemma_groups_prefix(c1, c2, evs, name, email, adjusted, p - 1);
        lemma_groups_step(c1, c2, evs, name, email, adjusted, p - 1);
    }
}

/// The groups of an author's contributions, and their order, are determined
/// by the changes alone.
pub proof fn lemma_contributions_unique(c1: Seq<ContributionsByOwnerInfo>, c2: Seq<ContributionsByOwnerInfo>, evs: Seq<ContributionEvent>,
    name: Seq<char>, email: Seq<char>, adjusted: bool)
    requires
        contributions_ok(c1, evs, name, email, adjusted),
        contributions_ok(c2, evs, name, email, adjusted),
        forall|a: int, b: int| 0 <= a < b < c1.len() ==> contribution_before(c1[a], c1[b]),
        forall|a: int, b: int| 0 <= a < b < c2.len() ==> contribution_before(c2[a], c2[b]),
    ensures
        c1.len() == c2.len(),
        forall|i: int| 0 <= i < c1.len() ==> (#[trigger] c1[i]).owner@ == c2[i].owner@,
{
    let m = if c1.len() <= c2.len() { c1.len() as int } else { c2.len() as int };
    lemma_groups_prefix(c1, c2, evs, name, email, adjusted, m);
    if c1.len() > m {
        lemma_groups_step(c1, c2, evs, name, email, adjusted, m);
    }
    if c2.len() > m {
        lemma_groups_prefix(c2, c1, evs, name, email, adjusted, m);
        lemma_groups_step(c2, c1, evs, name, email, adjusted, m);
    }
}


/// Two contributions say the same: same group, totals and weights.
pub open spec fn same_contribution(a: ContributionsByOwnerInfo, b: ContributionsByOwnerInfo) -> bool {
    &&& a.owner@ == b.owner@
    &&& a.total_insertions == b.total_insertions
    &&& a.total_deletions == b.total_deletions
    &&& a.total_commits == b.total_commits
    &&& a.adjusted_changes == b.adjusted_changes
    &&& share_views(a.adjusted_commits@) == share_views(b.adjusted_commits@)
}

/// Two contributor reports of the same changes are the same: the same
/// authors in the same order, each with the same contributions in the same
/// order.
pub proof fn lemma_contributor_report_unique(r1: Seq<ContributorInfo>, r2: Seq<ContributorInfo>, evs: Seq<ContributionEvent>, adjusted: bool)
    requires
        contributor_report(r1, evs, adjusted),
        contributor_report(r2, evs, adjusted),
    ensures
        r1.len() == r2.len(),
        forall|i: int| 0 <= i < r1.len() ==> {
            &&& (#[trigger] r1[i]).author_name@ == r2[i].author_name@
            &&& r1[i].author_email@ == r2[i].author_email@
            &&& r1[i].contributions@.len() == r2[i].contributions@.len()
            &&& forall|j: int| 0 <= j < r1[i].contributions@.len() ==>
                same_contribution(#[trigger] r1[i].contributions@[j], r2[i].contributions@[j])
        },
{
    lemma_contributor_rows_unique(r1, r2, evs, adjusted);
    assert forall|i: int| 0 <= i < r1.len() implies {
        &&& (#[trigger] r1[i]).author_name@ == r2[i].author_name@
        &&& r1[i].author_email@ == r2[i].author_email@
        &&& r1[i].contributions@.len() == r2[i].contributions@.len()
        &&& forall|j: int| 0 <= j < r1[i].contributions@.len() ==>
            same_contribution(#[trigger] r1[i].contributions@[j], r2[i].contributions@[j])
    } by {
        let (a, b) = (r1[i], r2[i]);
        let (n, e) = (a.author_name@, a.author_email@);
        lemma_contributions_unique(a.contributions@, b.contributions@, evs, n, e, adjusted);
        assert forall|j: int| 0 <= j < a.contributions@.len() implies
            same_contribution(#[trigger] a.contributions@[j], b.contributions@[j]) by {
            assert(contribution_ok(a.contributions@[j], evs, n, e, adjusted));
            assert(contribution_ok(b.contributions@[j], evs, n, e, adjusted));
        }
    }
}

} // verus!
