//! Attribution of changes to owner groups, and the owner report built from
//! it: team and outside totals, adjusted credit and top-contributor lists.

use vstd::prelude::*;
use crate::owner::{owners_of, team_for, CommitInfoWithCodeowner, FileChangeWithCodeowner};
use crate::order::{lemma_text_lt_asymmetric, lemma_text_lt_irreflexive, lemma_text_lt_total, lemma_text_lt_transitive, text_cmp, text_less, text_lt};
use crate::text::views;

verus! {

/// How often `o` occurs in `s`.
pub open spec fn count_in(s: Seq<Seq<char>>, o: Seq<char>) -> nat
    decreases s.len(),
{
    if s.len() == 0 {
        0
    } else {
        count_in(s.drop_last(), o) + if s.last() == o { 1nat } else { 0nat }
    }
}

/// Insertions of a commit's changes credited to owner `o`: each change counts
/// in full once for every time `o` is among its owners.
pub open spec fn owner_insertions(chs: Seq<FileChangeWithCodeowner>, o: Seq<char>) -> nat
    decreases chs.len(),
{
    if chs.len() == 0 {
        0
    } else {
        owner_insertions(chs.drop_last(), o) + count_in(owners_of(chs.last()), o) * (chs.last().insertions as nat)
    }
}

/// Insertions of a commit's changes summed over every owner of each change.
pub open spec fn total_insertions(chs: Seq<FileChangeWithCodeowner>) -> nat
    decreases chs.len(),
{
    if chs.len() == 0 {
        0
    } else {
        total_insertions(chs.drop_last()) + owners_of(chs.last()).len() * (chs.last().insertions as nat)
    }
}

proof fn lemma_count_in_le(s: Seq<Seq<char>>, o: Seq<char>)
    ensures
        count_in(s, o) <= s.len(),
    decreases s.len(),
{
    if s.len() > 0 {
        lemma_count_in_le(s.drop_last(), o);
    }
}

proof fn lemma_owner_le_total(chs: Seq<FileChangeWithCodeowner>, o: Seq<char>)
    ensures
        owner_insertions(chs, o) <= total_insertions(chs),
    decreases chs.len(),
{
    if chs.len() > 0 {
        lemma_owner_le_total(chs.drop_last(), o);
        lemma_count_in_le(owners_of(chs.last()), o);
        let c = count_in(owners_of(chs.last()), o);
        let n = owners_of(chs.last()).len();
        let x = chs.last().insertions as nat;
        assert(c * x <= n * x) by (nonlinear_arith)
            requires c <= n;
    }
}

proof fn lemma_total_prefix(chs: Seq<FileChangeWithCodeowner>, k: int)
    requires
        0 <= k <= chs.len(),
    ensures
        total_insertions(chs.take(k)) <= total_insertions(chs),
    decreases chs.len(),
{
    if k < chs.len() {
        assert(chs.drop_last().take(k) =~= chs.take(k));
        lemma_total_prefix(chs.drop_last(), k);
    } else {
        assert(chs.take(k) =~= chs);
    }
}

proof fn lemma_owner_prefix(chs: Seq<FileChangeWithCodeowner>, k: int, o: Seq<char>)
    requires
        0 <= k <= chs.len(),
    ensures
        owner_insertions(chs.take(k), o) <= owner_insertions(chs, o),
    decreases chs.len(),
{
    if k < chs.len() {
        assert(chs.drop_last().take(k) =~= chs.take(k));
        lemma_owner_prefix(chs.drop_last(), k, o);
    } else {
        assert(chs.take(k) =~= chs);
    }
}

/// The sum over the commit's changes of insertions times number of owners.
fn commit_total_insertions(chs: &Vec<FileChangeWithCodeowner>) -> (r: u64)
    requires
        total_insertions(chs@) <= u64::MAX,
    ensures
        r == total_insertions(chs@),
{
    let mut acc: u64 = 0;
    let mut k: usize = 0;
    while k < chs.len()
        invariant
            k <= chs@.len(),
            acc == total_insertions(chs@.take(k as int)),
            total_insertions(chs@) <= u64::MAX,
        decreases chs@.len() - k,
    {
        let ch = &chs[k];
        proof {
            assert(chs@.take(k + 1).drop_last() =~= chs@.take(k as int));
            assert(chs@.take(k + 1).last() == chs@[k as int]);
            lemma_total_prefix(chs@, k + 1);
        }
        match &ch.codeowners {
            Some(owners) => {
                assert(owners_of(*ch).len() == owners@.len());
                let add = (owners.len() as u64) * (ch.insertions as u64);
                acc = acc + add;
            },
            None => {},
        }
        k += 1;
    }
    proof {
        assert(chs@.take(k as int) =~= chs@);
    }
    acc
}

proof fn lemma_count_prefix(s: Seq<Seq<char>>, k: int, o: Seq<char>)
    requires
        0 <= k <= s.len(),
    ensures
        count_in(s.take(k), o) <= count_in(s, o),
    decreases s.len(),
{
    if k < s.len() {
        assert(s.drop_last().take(k) =~= s.take(k));
        lemma_count_prefix(s.drop_last(), k, o);
    } else {
        assert(s.take(k) =~= s);
    }
}


/// A commit's insertions credited to one owner.
struct OwnerInsertions {
    owner: String,
    insertions: u64,
}

/// `t` holds, once for every owner of the commit's changes, the insertions
/// credited to it.
spec fn covered(t: Seq<OwnerInsertions>, o: Seq<char>) -> bool {
    exists|i: int| 0 <= i < t.len() && (#[trigger] t[i]).owner@ == o
}

spec fn table_ok(t: Seq<OwnerInsertions>, chs: Seq<FileChangeWithCodeowner>) -> bool {
    &&& forall|i: int, j: int| 0 <= i < j < t.len() ==> t[i].owner@ != t[j].owner@
    &&& forall|i: int| 0 <= i < t.len() ==> (#[trigger] t[i]).insertions == owner_insertions(chs, t[i].owner@)
    &&& forall|k: int, a: int| 0 <= k < chs.len() && 0 <= a < owners_of(chs[k]).len() ==>
        covered(t, owners_of(chs[k])[a])
}

proof fn lemma_count_absent(s: Seq<Seq<char>>, o: Seq<char>)
    requires
        forall|a: int| 0 <= a < s.len() ==> s[a] != o,
    ensures
        count_in(s, o) == 0,
    decreases s.len(),
{
    if s.len() > 0 {
        assert(s[s.len() - 1] != o);
        lemma_count_absent(s.drop_last(), o);
    }
}

proof fn lemma_owner_absent(chs: Seq<FileChangeWithCodeowner>, o: Seq<char>)
    requires
        forall|k: int, a: int| 0 <= k < chs.len() && 0 <= a < owners_of(chs[k]).len() ==> owners_of(chs[k])[a] != o,
    ensures
        owner_insertions(chs, o) == 0,
    decreases chs.len(),
{
    if chs.len() > 0 {
        let t = chs.drop_last();
        assert forall|k: int, a: int| 0 <= k < t.len() && 0 <= a < owners_of(t[k]).len() implies owners_of(t[k])[a] != o by {
            assert(t[k] == chs[k]);
        }
        lemma_owner_absent(t, o);
        assert forall|a: int| 0 <= a < owners_of(chs.last()).len() implies owners_of(chs.last())[a] != o by {
            assert(chs.last() == chs[chs.len() - 1]);
        }
        lemma_count_absent(owners_of(chs.last()), o);
    }
}

/// The insertions credited to each owner of the commit (its first pass).
fn owner_insertions_table(chs: &Vec<FileChangeWithCodeowner>) -> (t: Vec<OwnerInsertions>)
    requires
        total_insertions(chs@) <= u64::MAX,
    ensures
        table_ok(t@, chs@),
{
    let mut t: Vec<OwnerInsertions> = Vec::new();
    let mut k: usize = 0;
    while k < chs.len()
        invariant
            k <= chs@.len(),
            total_insertions(chs@) <= u64::MAX,
            forall|i: int, j: int| 0 <= i < j < t@.len() ==> t@[i].owner@ != t@[j].owner@,
            forall|i: int| 0 <= i < t@.len() ==> (#[trigger] t@[i]).insertions == owner_insertions(chs@.take(k as int), t@[i].owner@),
            forall|k2: int, a: int| 0 <= k2 < k && 0 <= a < owners_of(chs@[k2]).len() ==>
                covered(t@, #[trigger] owners_of(chs@[k2])[a]),
        decreases chs@.len() - k,
    {
        let ch = &chs[k];
        proof {
            assert(chs@.take(k + 1).drop_last() =~= chs@.take(k as int));
            assert(chs@.take(k + 1).last() == chs@[k as int]);
        }
        match &ch.codeowners {
            Some(owners) => {
                let ghost os = owners_of(*ch);
                let mut j: usize = 0;
                proof {
                    assert(os.take(0) =~= Seq::<Seq<char>>::empty());
                    assert(os == owners_of(chs@[k as int]));
                }
                while j < owners.len()
                    invariant
                        os == views(owners@),
                        os.len() == owners@.len(),
                        os == owners_of(chs@[k as int]),
                        *ch == chs@[k as int],
                        k < chs@.len(),
                        j <= owners@.len(),
                        total_insertions(chs@) <= u64::MAX,
                        forall|i: int, i2: int| 0 <= i < i2 < t@.len() ==> t@[i].owner@ != t@[i2].owner@,
                        forall|i: int| 0 <= i < t@.len() ==> (#[trigger] t@[i]).insertions
                            == owner_insertions(chs@.take(k as int), t@[i].owner@) + count_in(os.take(j as int), t@[i].owner@) * ch.insertions,
                        forall|k2: int, a: int| 0 <= k2 < k && 0 <= a < owners_of(chs@[k2]).len() ==>
                            covered(t@, #[trigger] owners_of(chs@[k2])[a]),
                        forall|a: int| 0 <= a < j ==> covered(t@, #[trigger] os[a]),
                    decreases owners@.len() - j,
                {
                    let o = &owners[j];
                    proof {
                        assert(os.take(j + 1).drop_last() =~= os.take(j as int));
                        assert(os.take(j + 1).last() == o@);
                        assert(os[j as int] == o@);
                    }
                    let mut i: usize = 0;
                    while i < t.len()
                        invariant
                            i <= t@.len(),
                            forall|q: int| 0 <= q < i ==> t@[q].owner@ != o@,
                        ensures
                            i <= t@.len(),
                            forall|q: int| 0 <= q < i ==> t@[q].owner@ != o@,
                            i < t@.len() ==> t@[i as int].owner@ == o@,
                        decreases t@.len() - i,
                    {
                        if t[i].owner == *o {
                            break;
                        }
                        i += 1;
                    }
                    let ghost before = t@;
                    proof {
                        assert(chs@.take(k + 1).drop_last() =~= chs@.take(k as int));
                        assert(chs@.take(k + 1).last() == chs@[k as int]);
                        lemma_owner_prefix(chs@, k as int, o@);
                        lemma_owner_prefix(chs@, k + 1, o@);
                        lemma_count_prefix(os, j + 1, o@);
                        lemma_owner_le_total(chs@, o@);
                        let c1 = count_in(os.take(j + 1), o@);
                        let c2 = count_in(os, o@);
                        let x = ch.insertions as nat;
                        assert(c1 * x <= c2 * x) by (nonlinear_arith)
                            requires c1 <= c2;
                        assert(c1 * x == count_in(os.take(j as int), o@) * x + x) by (nonlinear_arith)
                            requires c1 == count_in(os.take(j as int), o@) + 1;
                        assert(owner_insertions(chs@.take(k + 1), o@) == owner_insertions(chs@.take(k as int), o@) + c2 * x);
                    }
                    if i < t.len() {
                        let v = t[i].insertions;
                        t[i].insertions = v + ch.insertions as u64;
                        proof {
                            assert forall|q: int| 0 <= q < t@.len() implies (#[trigger] t@[q]).insertions
                                == owner_insertions(chs@.take(k as int), t@[q].owner@) + count_in(os.take(j + 1), t@[q].owner@) * ch.insertions by {
                                let p = t@[q].owner@;
                                assert(count_in(os.take(j + 1), p) == count_in(os.take(j as int), p) + if o@ == p { 1nat } else { 0nat });
                                if q != i {
                                    assert(t@[q] == before[q]);
                                    assert(before[q].owner@ != before[i as int].owner@);
                                    assert(o@ != p);
                                    assert(count_in(os.take(j + 1), p) == count_in(os.take(j as int), p));
                                    assert(before[q].insertions == owner_insertions(chs@.take(k as int), p) + count_in(os.take(j as int), p) * ch.insertions);
                                } else {
                                    assert(t@[q].owner@ == o@);
                                    assert(t@[q].insertions == v + ch.insertions);
                                    assert(v == owner_insertions(chs@.take(k as int), o@) + count_in(os.take(j as int), o@) * ch.insertions);
                                    assert(count_in(os.take(j + 1), o@) * ch.insertions == count_in(os.take(j as int), o@) * ch.insertions + ch.insertions);
                                }
                            }
                            assert forall|k2: int, a: int| 0 <= k2 < k && 0 <= a < owners_of(chs@[k2]).len() implies
                                covered(t@, owners_of(chs@[k2])[a]) by {
                                let i2 = choose|i2: int| 0 <= i2 < before.len() && (#[trigger] before[i2]).owner@ == owners_of(chs@[k2])[a];
                                assert(t@[i2].owner@ == before[i2].owner@);
                            }
                            assert forall|a: int| 0 <= a < j + 1 implies covered(t@, os[a]) by {
                                if a < j {
                                    let i2 = choose|i2: int| 0 <= i2 < before.len() && (#[trigger] before[i2]).owner@ == os[a];
                                    assert(t@[i2].owner@ == before[i2].owner@);
                                } else {
                                    assert(t@[i as int].owner@ == os[a]);
                                }
                            }
                            assert forall|q: int, q2: int| 0 <= q < q2 < t@.len() implies t@[q].owner@ != t@[q2].owner@ by {
                                assert(t@[q].owner@ == before[q].owner@);
                                assert(t@[q2].owner@ == before[q2].owner@);
                            }
                        }
                    } else {
                        proof {
                            assert forall|k2: int, a: int| 0 <= k2 < k && 0 <= a < owners_of(chs@[k2]).len() implies
                                owners_of(chs@[k2])[a] != o@ by {
                                if owners_of(chs@[k2])[a] == o@ {
                                    let i2 = choose|i2: int| 0 <= i2 < before.len() && (#[trigger] before[i2]).owner@ == owners_of(chs@[k2])[a];
                                }
                            }
                            assert forall|k2: int, a: int| 0 <= k2 < chs@.take(k as int).len() && 0 <= a < owners_of(chs@.take(k as int)[k2]).len() implies
                                owners_of(chs@.take(k as int)[k2])[a] != o@ by {
                                assert(chs@.take(k as int)[k2] == chs@[k2]);
                            }
                            lemma_owner_absent(chs@.take(k as int), o@);
                            assert forall|a: int| 0 <= a < os.take(j as int).len() implies os.take(j as int)[a] != o@ by {
                                if os[a] == o@ {
                                    let i2 = choose|i2: int| 0 <= i2 < before.len() && (#[trigger] before[i2]).owner@ == os[a];
                                }
                            }
                            lemma_count_absent(os.take(j as int), o@);
                        }
                        t.push(OwnerInsertions { owner: o.clone(), insertions: ch.insertions as u64 });
                        proof {
                            let n = before.len() as int;
                            assert forall|q: int| 0 <= q < t@.len() implies (#[trigger] t@[q]).insertions
                                == owner_insertions(chs@.take(k as int), t@[q].owner@) + count_in(os.take(j + 1), t@[q].owner@) * ch.insertions by {
                                let p = t@[q].owner@;
                                assert(count_in(os.take(j + 1), p) == count_in(os.take(j as int), p) + if o@ == p { 1nat } else { 0nat });
                                if q < n {
                                    assert(t@[q] == before[q]);
                                    assert(before[q].owner@ != o@);
                                    assert(count_in(os.take(j + 1), p) == count_in(os.take(j as int), p));
                                } else {
                                    assert(p == o@);
                                    assert(count_in(os.take(j + 1), p) == 1);
                                    assert(1 * ch.insertions == ch.insertions);
                                }
                            }
                            assert forall|k2: int, a: int| 0 <= k2 < k && 0 <= a < owners_of(chs@[k2]).len() implies
                                covered(t@, owners_of(chs@[k2])[a]) by {
                                let i2 = choose|i2: int| 0 <= i2 < before.len() && (#[trigger] before[i2]).owner@ == owners_of(chs@[k2])[a];
                                assert(t@[i2] == before[i2]);
                            }
                            assert forall|a: int| 0 <= a < j + 1 implies covered(t@, os[a]) by {
                                if a < j {
                                    let i2 = choose|i2: int| 0 <= i2 < before.len() && (#[trigger] before[i2]).owner@ == os[a];
                                    assert(t@[i2] == before[i2]);
                                } else {
                                    assert(t@[n].owner@ == os[a]);
                                }
                            }
                            assert forall|q: int, q2: int| 0 <= q < q2 < t@.len() implies t@[q].owner@ != t@[q2].owner@ by {
                                if q2 == n {
                                    assert(t@[q] == before[q]);
                                }
                            }
                        }
                    }
                    j += 1;
                }
                proof {
                    assert(os.take(j as int) =~= os);
                    assert forall|k2: int, a: int| 0 <= k2 < k + 1 && 0 <= a < owners_of(chs@[k2]).len() implies
                        covered(t@, owners_of(chs@[k2])[a]) by {
                        if k2 == k {
                            assert(owners_of(chs@[k2])[a] == os[a]);
                            let i2 = choose|i2: int| 0 <= i2 < t@.len() && (#[trigger] t@[i2]).owner@ == os[a];
                            assert(t@[i2].owner@ == owners_of(chs@[k2])[a]);
                        }
                    }
                }
            },
            None => {
                assert(owners_of(*ch) =~= Seq::<Seq<char>>::empty());
            },
        }
        k += 1;
    }
    proof {
        assert(chs@.take(k as int) =~= chs@);
    }
    t
}

/// The insertions credited to `o`, one of the commit's owners.
fn lookup_owner_insertions(t: &Vec<OwnerInsertions>, o: &String, Ghost(chs): Ghost<Seq<FileChangeWithCodeowner>>, Ghost(k): Ghost<int>, Ghost(a): Ghost<int>) -> (r: u64)
    requires
        table_ok(t@, chs),
        0 <= k < chs.len(),
        0 <= a < owners_of(chs[k]).len(),
        owners_of(chs[k])[a] == o@,
    ensures
        r == owner_insertions(chs, o@),
{
    let mut i: usize = 0;
    while i < t.len()
        invariant
            table_ok(t@, chs),
            i <= t@.len(),
            forall|q: int| 0 <= q < i ==> t@[q].owner@ != o@,
        decreases t@.len() - i,
    {
        if t[i].owner == *o {
            assert(t@[i as int].insertions == owner_insertions(chs, t@[i as int].owner@));
            return t[i].insertions;
        }
        i += 1;
    }
    proof {
        let q = choose|q: int| 0 <= q < t@.len() && (#[trigger] t@[q]).owner@ == owners_of(chs[k])[a];
    }
    0
}

/// One credit of the owner report: a change counted for one of its owners.
pub struct OwnerEvent {
    pub owner: Seq<char>,
    pub name: Seq<char>,
    pub email: Seq<char>,
    pub team: bool,
    pub insertions: nat,
    pub deletions: nat,
    /// Insertions of the commit credited to this owner.
    pub owner_insertions: nat,
    /// Insertions of the commit credited to all owners.
    pub commit_insertions: nat,
}

/// The credit of change `ch` to its `j`-th owner, on the team's side when
/// the author belongs to that owner.
pub open spec fn owner_event(c: CommitInfoWithCodeowner, ch: FileChangeWithCodeowner, j: int) -> OwnerEvent {
    OwnerEvent {
        owner: owners_of(ch)[j],
        name: c.author.name@,
        email: c.author.email@,
        team: team_for(ch, j),
        insertions: ch.insertions as nat,
        deletions: ch.deletions as nat,
        owner_insertions: owner_insertions(c.file_changes@, owners_of(ch)[j]),
        commit_insertions: total_insertions(c.file_changes@),
    }
}

/// The credits of one change: one for each entry of its owner list.
pub open spec fn change_events(c: CommitInfoWithCodeowner, ch: FileChangeWithCodeowner) -> Seq<OwnerEvent> {
    Seq::new(owners_of(ch).len(), |j: int| owner_event(c, ch, j))
}

pub open spec fn changes_events(c: CommitInfoWithCodeowner, chs: Seq<FileChangeWithCodeowner>) -> Seq<OwnerEvent>
    decreases chs.len(),
{
    if chs.len() == 0 {
        Seq::empty()
    } else {
        changes_events(c, chs.drop_last()) + change_events(c, chs.last())
    }
}

/// The credits of a history, commit by commit, change by change, owner by owner.
pub open spec fn owner_events(cs: Seq<CommitInfoWithCodeowner>) -> Seq<OwnerEvent>
    decreases cs.len(),
{
    if cs.len() == 0 {
        Seq::empty()
    } else {
        owner_events(cs.drop_last()) + changes_events(cs.last(), cs.last().file_changes@)
    }
}

pub open spec fn credited(e: OwnerEvent, o: Seq<char>, team: bool) -> bool {
    e.owner == o && e.team == team
}

pub open spec fn sum_insertions(evs: Seq<OwnerEvent>, o: Seq<char>, team: bool) -> nat
    decreases evs.len(),
{
    if evs.len() == 0 {
        0
    } else {
        sum_insertions(evs.drop_last(), o, team) + if credited(evs.last(), o, team) { evs.last().insertions } else { 0 }
    }
}

pub open spec fn sum_deletions(evs: Seq<OwnerEvent>, o: Seq<char>, team: bool) -> nat
    decreases evs.len(),
{
    if evs.len() == 0 {
        0
    } else {
        sum_deletions(evs.drop_last(), o, team) + if credited(evs.last(), o, team) { evs.last().deletions } else { 0 }
    }
}

/// Changes counted, one per credit (not one per commit).
pub open spec fn sum_commits(evs: Seq<OwnerEvent>, o: Seq<char>, team: bool) -> nat
    decreases evs.len(),
{
    if evs.len() == 0 {
        0
    } else {
        sum_commits(evs.drop_last(), o, team) + if credited(evs.last(), o, team) { 1nat } else { 0 }
    }
}

/// The commit weights credited, as (owner insertions, commit insertions).
pub open spec fn shares_of(evs: Seq<OwnerEvent>, o: Seq<char>, team: bool) -> Seq<(nat, nat)>
    decreases evs.len(),
{
    if evs.len() == 0 {
        Seq::empty()
    } else if credited(evs.last(), o, team) {
        shares_of(evs.drop_last(), o, team).push((evs.last().owner_insertions, evs.last().commit_insertions))
    } else {
        shares_of(evs.drop_last(), o, team)
    }
}

pub open spec fn by_author(e: OwnerEvent, o: Seq<char>, team: bool, name: Seq<char>, email: Seq<char>) -> bool {
    credited(e, o, team) && e.name == name && e.email == email
}

/// Lines changed (insertions and deletions) by one author under one owner.
pub open spec fn author_changes(evs: Seq<OwnerEvent>, o: Seq<char>, team: bool, name: Seq<char>, email: Seq<char>) -> nat
    decreases evs.len(),
{
    if evs.len() == 0 {
        0
    } else {
        author_changes(evs.drop_last(), o, team, name, email)
            + if by_author(evs.last(), o, team, name, email) { evs.last().insertions + evs.last().deletions } else { 0 }
    }
}

pub open spec fn author_commits(evs: Seq<OwnerEvent>, o: Seq<char>, team: bool, name: Seq<char>, email: Seq<char>) -> nat
    decreases evs.len(),
{
    if evs.len() == 0 {
        0
    } else {
        author_commits(evs.drop_last(), o, team, name, email)
            + if by_author(evs.last(), o, team, name, email) { 1nat } else { 0 }
    }
}

pub open spec fn has_owner(evs: Seq<OwnerEvent>, o: Seq<char>) -> bool {
    exists|i: int| 0 <= i < evs.len() && (#[trigger] evs[i]).owner == o
}

pub open spec fn has_author(evs: Seq<OwnerEvent>, o: Seq<char>, team: bool, name: Seq<char>, email: Seq<char>) -> bool {
    exists|i: int| 0 <= i < evs.len() && by_author(#[trigger] evs[i], o, team, name, email)
}

/// A bound on every tally: insertions, deletions and one for each credit.
pub open spec fn budget(evs: Seq<OwnerEvent>) -> nat
    decreases evs.len(),
{
    if evs.len() == 0 {
        0
    } else {
        budget(evs.drop_last()) + evs.last().insertions + evs.last().deletions + 1
    }
}

proof fn lemma_tallies_le_budget(evs: Seq<OwnerEvent>, o: Seq<char>, team: bool, name: Seq<char>, email: Seq<char>)
    ensures
        sum_insertions(evs, o, team) <= budget(evs),
        sum_deletions(evs, o, team) <= budget(evs),
        sum_commits(evs, o, team) <= budget(evs),
        author_changes(evs, o, team, name, email) <= budget(evs),
        author_commits(evs, o, team, name, email) <= budget(evs),
    decreases evs.len(),
{
    if evs.len() > 0 {
        lemma_tallies_le_budget(evs.drop_last(), o, team, name, email);
    }
}

proof fn lemma_budget_concat(a: Seq<OwnerEvent>, b: Seq<OwnerEvent>)
    ensures
        budget(a + b) == budget(a) + budget(b),
    decreases b.len(),
{
    if b.len() > 0 {
        assert((a + b).drop_last() =~= a + b.drop_last());
        lemma_budget_concat(a, b.drop_last());
    } else {
        assert(a + b =~= a);
    }
}

proof fn lemma_budget_take(a: Seq<OwnerEvent>, k: int)
    requires
        0 <= k <= a.len(),
    ensures
        budget(a.take(k)) <= budget(a),
{
    assert(a =~= a.take(k) + a.skip(k));
    lemma_budget_concat(a.take(k), a.skip(k));
}

proof fn lemma_changes_events_take(c: CommitInfoWithCodeowner, chs: Seq<FileChangeWithCodeowner>, k: int)
    requires
        0 <= k <= chs.len(),
    ensures
        budget(changes_events(c, chs.take(k))) <= budget(changes_events(c, chs)),
    decreases chs.len(),
{
    if k < chs.len() {
        assert(chs.drop_last().take(k) =~= chs.take(k));
        lemma_changes_events_take(c, chs.drop_last(), k);
        lemma_budget_concat(changes_events(c, chs.drop_last()), change_events(c, chs.last()));
    } else {
        assert(chs.take(k) =~= chs);
    }
}

proof fn lemma_owner_events_take(cs: Seq<CommitInfoWithCodeowner>, k: int)
    requires
        0 <= k <= cs.len(),
    ensures
        budget(owner_events(cs.take(k))) <= budget(owner_events(cs)),
    decreases cs.len(),
{
    if k < cs.len() {
        assert(cs.drop_last().take(k) =~= cs.take(k));
        lemma_owner_events_take(cs.drop_last(), k);
        lemma_budget_concat(owner_events(cs.drop_last()), changes_events(cs.last(), cs.last().file_changes@));
    } else {
        assert(cs.take(k) =~= cs);
    }
}

/// A commit's weight toward one owner: `owner_insertions / commit_insertions`,
/// or nothing when the commit has no insertions.
#[derive(Clone, Copy, Debug, PartialEq, Eq, Structural)]
pub struct CommitShare {
    pub owner_insertions: u64,
    pub commit_insertions: u64,
}

pub open spec fn share_views(v: Seq<CommitShare>) -> Seq<(nat, nat)> {
    v.map_values(|x: CommitShare| (x.owner_insertions as nat, x.commit_insertions as nat))
}

struct AuthorTally {
    name: String,
    email: String,
    changes: u64,
    commits: u64,
}

struct SideTally {
    insertions: u64,
    deletions: u64,
    commits: u64,
    adjusted_changes: u64,
    shares: Vec<CommitShare>,
    authors: Vec<AuthorTally>,
}

struct OwnerTally {
    owner: String,
    team: SideTally,
    others: SideTally,
}

spec fn authors_ok(a: Seq<AuthorTally>, evs: Seq<OwnerEvent>, o: Seq<char>, team: bool) -> bool {
    &&& forall|i: int, j: int| 0 <= i < j < a.len() ==> !(a[i].name@ == a[j].name@ && a[i].email@ == a[j].email@)
    &&& forall|i: int| 0 <= i < a.len() ==> {
        &&& has_author(evs, o, team, (#[trigger] a[i]).name@, a[i].email@)
        &&& a[i].changes == author_changes(evs, o, team, a[i].name@, a[i].email@)
        &&& a[i].commits == author_commits(evs, o, team, a[i].name@, a[i].email@)
    }
    &&& forall|name: Seq<char>, email: Seq<char>| #[trigger] has_author(evs, o, team, name, email) ==>
        exists|i: int| 0 <= i < a.len() && (#[trigger] a[i]).name@ == name && a[i].email@ == email
}

spec fn side_ok(s: SideTally, evs: Seq<OwnerEvent>, o: Seq<char>, team: bool, adjusted: bool) -> bool {
    &&& s.insertions == sum_insertions(evs, o, team)
    &&& s.deletions == sum_deletions(evs, o, team)
    &&& s.commits == sum_commits(evs, o, team)
    &&& s.adjusted_changes == if adjusted { sum_insertions(evs, o, team) } else { 0 }
    &&& share_views(s.shares@) == if adjusted { shares_of(evs, o, team) } else { Seq::empty() }
    &&& authors_ok(s.authors@, evs, o, team)
}

spec fn tallies_ok(ts: Seq<OwnerTally>, evs: Seq<OwnerEvent>, adjusted: bool) -> bool {
    &&& forall|i: int, j: int| 0 <= i < j < ts.len() ==> text_lt(ts[i].owner@, ts[j].owner@)
    &&& forall|i: int| 0 <= i < ts.len() ==> {
        &&& has_owner(evs, (#[trigger] ts[i]).owner@)
        &&& side_ok(ts[i].team, evs, ts[i].owner@, true, adjusted)
        &&& side_ok(ts[i].others, evs, ts[i].owner@, false, adjusted)
    }
    &&& forall|o: Seq<char>| #[trigger] has_owner(evs, o) ==> exists|i: int| 0 <= i < ts.len() && (#[trigger] ts[i]).owner@ == o
}

proof fn lemma_push_unfold(evs: Seq<OwnerEvent>, e: OwnerEvent)
    ensures
        evs.push(e).drop_last() == evs,
        evs.push(e).last() == e,
{
    assert(evs.push(e).drop_last() =~= evs);
}

/// A credit that is not for (`o`, `team`) leaves that side's tallies as they were.
proof fn lemma_side_ok_other(s: SideTally, evs: Seq<OwnerEvent>, e: OwnerEvent, o: Seq<char>, team: bool, adjusted: bool)
    requires
        side_ok(s, evs, o, team, adjusted),
        !credited(e, o, team),
    ensures
        side_ok(s, evs.push(e), o, team, adjusted),
{
    lemma_push_unfold(evs, e);
    let evs2 = evs.push(e);
    assert forall|name: Seq<char>, email: Seq<char>| #[trigger] has_author(evs2, o, team, name, email) implies has_author(evs, o, team, name, email) by {
        let i = choose|i: int| 0 <= i < evs2.len() && by_author(#[trigger] evs2[i], o, team, name, email);
        assert(i < evs.len());
        assert(evs2[i] == evs[i]);
    }
    assert forall|i: int| 0 <= i < s.authors@.len() implies has_author(evs2, o, team, (#[trigger] s.authors@[i]).name@, s.authors@[i].email@) by {
        let a = s.authors@[i];
        let k = choose|k: int| 0 <= k < evs.len() && by_author(#[trigger] evs[k], o, team, a.name@, a.email@);
        assert(evs2[k] == evs[k]);
    }
}


proof fn lemma_no_author_zero(evs: Seq<OwnerEvent>, o: Seq<char>, team: bool, name: Seq<char>, email: Seq<char>)
    requires
        !has_author(evs, o, team, name, email),
    ensures
        author_changes(evs, o, team, name, email) == 0,
        author_commits(evs, o, team, name, email) == 0,
    decreases evs.len(),
{
    if evs.len() > 0 {
        assert(!by_author(evs[evs.len() - 1], o, team, name, email));
        assert forall|i: int| 0 <= i < evs.drop_last().len() implies !by_author(#[trigger] evs.drop_last()[i], o, team, name, email) by {
            assert(evs.drop_last()[i] == evs[i]);
        }
        lemma_no_author_zero(evs.drop_last(), o, team, name, email);
    }
}

proof fn lemma_no_owner_zero(evs: Seq<OwnerEvent>, o: Seq<char>, team: bool)
    requires
        !has_owner(evs, o),
    ensures
        sum_insertions(evs, o, team) == 0,
        sum_deletions(evs, o, team) == 0,
        sum_commits(evs, o, team) == 0,
        shares_of(evs, o, team) == Seq::<(nat, nat)>::empty(),
        forall|name: Seq<char>, email: Seq<char>| !has_author(evs, o, team, name, email),
    decreases evs.len(),
{
    if evs.len() > 0 {
        assert(evs[evs.len() - 1].owner != o);
        assert forall|i: int| 0 <= i < evs.drop_last().len() implies (#[trigger] evs.drop_last()[i]).owner != o by {
            assert(evs.drop_last()[i] == evs[i]);
        }
        lemma_no_owner_zero(evs.drop_last(), o, team);
    }
    assert forall|name: Seq<char>, email: Seq<char>| !has_author(evs, o, team, name, email) by {
        if has_author(evs, o, team, name, email) {
            let i = choose|i: int| 0 <= i < evs.len() && by_author(#[trigger] evs[i], o, team, name, email);
        }
    }
}

/// Adds a credit to the tally of its author.
fn author_add(authors: &mut Vec<AuthorTally>, name: &String, email: &String, changes: u64,
    Ghost(evs): Ghost<Seq<OwnerEvent>>, Ghost(e): Ghost<OwnerEvent>)
    requires
        authors_ok(old(authors)@, evs, e.owner, e.team),
        e.name == name@,
        e.email == email@,
        changes == e.insertions + e.deletions,
        budget(evs.push(e)) <= u64::MAX,
    ensures
        authors_ok(final(authors)@, evs.push(e), e.owner, e.team),
{
    let ghost o = e.owner;
    let ghost team = e.team;
    let ghost evs2 = evs.push(e);
    proof {
        lemma_push_unfold(evs, e);
        lemma_tallies_le_budget(evs2, o, team, name@, email@);
    }
    let mut i: usize = 0;
    while i < authors.len()
        invariant
            i <= authors@.len(),
            forall|k: int| 0 <= k < i ==> !((#[trigger] authors@[k]).name@ == name@ && authors@[k].email@ == email@),
        ensures
            i <= authors@.len(),
            forall|k: int| 0 <= k < i ==> !((#[trigger] authors@[k]).name@ == name@ && authors@[k].email@ == email@),
            i < authors@.len() ==> authors@[i as int].name@ == name@ && authors@[i as int].email@ == email@,
        decreases authors@.len() - i,
    {
        if authors[i].name == *name && authors[i].email == *email {
            break;
        }
        i += 1;
    }
    let ghost before = authors@;
    if i < authors.len() {
        let c = authors[i].changes;
        let n = authors[i].commits;
        authors[i].changes = c + changes;
        authors[i].commits = n + 1;
        proof {
            let a = authors@;
            assert forall|k: int| 0 <= k < a.len() implies {
                &&& has_author(evs2, o, team, (#[trigger] a[k]).name@, a[k].email@)
                &&& a[k].changes == author_changes(evs2, o, team, a[k].name@, a[k].email@)
                &&& a[k].commits == author_commits(evs2, o, team, a[k].name@, a[k].email@)
            } by {
                let w = choose|w: int| 0 <= w < evs.len() && by_author(#[trigger] evs[w], o, team, before[k].name@, before[k].email@);
                assert(evs2[w] == evs[w]);
            }
            assert forall|nm: Seq<char>, em: Seq<char>| #[trigger] has_author(evs2, o, team, nm, em) implies
                exists|k: int| 0 <= k < a.len() && (#[trigger] a[k]).name@ == nm && a[k].email@ == em by {
                if nm == name@ && em == email@ {
                    assert(a[i as int].name@ == nm);
                } else {
                    let w = choose|w: int| 0 <= w < evs2.len() && by_author(#[trigger] evs2[w], o, team, nm, em);
                    assert(w < evs.len());
                    assert(evs2[w] == evs[w]);
                    assert(has_author(evs, o, team, nm, em));
                    let k = choose|k: int| 0 <= k < before.len() && (#[trigger] before[k]).name@ == nm && before[k].email@ == em;
                    assert(a[k].name@ == nm);
                }
            }
        }
    } else {
        proof {
            if has_author(evs, o, team, name@, email@) {
                let k = choose|k: int| 0 <= k < before.len() && (#[trigger] before[k]).name@ == name@ && before[k].email@ == email@;
                assert(false);
            }
            lemma_no_author_zero(evs, o, team, name@, email@);
        }
        authors.push(AuthorTally { name: name.clone(), email: email.clone(), changes, commits: 1 });
        proof {
            let a = authors@;
            let last = a.len() - 1;
            assert(by_author(evs2[evs.len() as int], o, team, name@, email@));
            assert forall|k: int| 0 <= k < a.len() implies {
                &&& has_author(evs2, o, team, (#[trigger] a[k]).name@, a[k].email@)
                &&& a[k].changes == author_changes(evs2, o, team, a[k].name@, a[k].email@)
                &&& a[k].commits == author_commits(evs2, o, team, a[k].name@, a[k].email@)
            } by {
                if k < last {
                    assert(a[k] == before[k]);
                    let w = choose|w: int| 0 <= w < evs.len() && by_author(#[trigger] evs[w], o, team, before[k].name@, before[k].email@);
                    assert(evs2[w] == evs[w]);
                }
            }
            assert forall|nm: Seq<char>, em: Seq<char>| #[trigger] has_author(evs2, o, team, nm, em) implies
                exists|k: int| 0 <= k < a.len() && (#[trigger] a[k]).name@ == nm && a[k].email@ == em by {
                if nm == name@ && em == email@ {
                    assert(a[last].name@ == nm);
                } else {
                    let w = choose|w: int| 0 <= w < evs2.len() && by_author(#[trigger] evs2[w], o, team, nm, em);
                    assert(w < evs.len());
                    assert(evs2[w] == evs[w]);
                    assert(has_author(evs, o, team, nm, em));
                    let k = choose|k: int| 0 <= k < before.len() && (#[trigger] before[k]).name@ == nm && before[k].email@ == em;
                    assert(a[k] == before[k]);
                }
            }
            assert forall|k1: int, k2: int| 0 <= k1 < k2 < a.len() implies !(a[k1].name@ == a[k2].name@ && a[k1].email@ == a[k2].email@) by {
                if k2 == last {
                    assert(a[k1] == before[k1]);
                }
            }
        }
    }
}

/// Adds a credit to one side (team or others) of its owner's tally.
fn side_add(side: &mut SideTally, name: &String, email: &String, insertions: u32, deletions: u32, share: CommitShare,
    adjusted: bool, Ghost(evs): Ghost<Seq<OwnerEvent>>, Ghost(e): Ghost<OwnerEvent>)
    requires
        side_ok(*old(side), evs, e.owner, e.team, adjusted),
        e.name == name@,
        e.email == email@,
        e.insertions == insertions,
        e.deletions == deletions,
        adjusted ==> e.owner_insertions == share.owner_insertions && e.commit_insertions == share.commit_insertions,
        budget(evs.push(e)) <= u64::MAX,
    ensures
        side_ok(*final(side), evs.push(e), e.owner, e.team, adjusted),
{
    let ghost evs2 = evs.push(e);
    proof {
        lemma_push_unfold(evs, e);
        lemma_tallies_le_budget(evs2, e.owner, e.team, name@, email@);
    }
    side.insertions = side.insertions + insertions as u64;
    side.deletions = side.deletions + deletions as u64;
    side.commits = side.commits + 1;
    if adjusted {
        side.adjusted_changes = side.adjusted_changes + insertions as u64;
        let ghost before = side.shares@;
        side.shares.push(share);
        proof {
            assert(share_views(side.shares@) =~= share_views(before).push((e.owner_insertions, e.commit_insertions)));
        }
    }
    author_add(&mut side.authors, name, email, insertions as u64 + deletions as u64, Ghost(evs), Ghost(e));
}


fn empty_side() -> (r: SideTally)
    ensures
        r.insertions == 0 && r.deletions == 0 && r.commits == 0 && r.adjusted_changes == 0,
        r.shares@.len() == 0,
        r.authors@.len() == 0,
{
    SideTally { insertions: 0, deletions: 0, commits: 0, adjusted_changes: 0, shares: Vec::new(), authors: Vec::new() }
}

proof fn lemma_empty_side_ok(s: SideTally, evs: Seq<OwnerEvent>, o: Seq<char>, team: bool, adjusted: bool)
    requires
        !has_owner(evs, o),
        s.insertions == 0 && s.deletions == 0 && s.commits == 0 && s.adjusted_changes == 0,
        s.shares@.len() == 0,
        s.authors@.len() == 0,
    ensures
        side_ok(s, evs, o, team, adjusted),
{
    lemma_no_owner_zero(evs, o, team);
    assert(share_views(s.shares@) =~= Seq::<(nat, nat)>::empty());
}

/// Adds a credit to the tallies, which stay sorted by owner.
fn record(tallies: &mut Vec<OwnerTally>, owner: &String, name: &String, email: &String, team: bool,
    insertions: u32, deletions: u32, share: CommitShare, adjusted: bool,
    Ghost(evs): Ghost<Seq<OwnerEvent>>, Ghost(e): Ghost<OwnerEvent>)
    requires
        tallies_ok(old(tallies)@, evs, adjusted),
        e.owner == owner@,
        e.name == name@,
        e.email == email@,
        e.team == team,
        e.insertions == insertions,
        e.deletions == deletions,
        adjusted ==> e.owner_insertions == share.owner_insertions && e.commit_insertions == share.commit_insertions,
        budget(evs.push(e)) <= u64::MAX,
    ensures
        tallies_ok(final(tallies)@, evs.push(e), adjusted),
{
    let ghost evs2 = evs.push(e);
    proof {
        lemma_push_unfold(evs, e);
    }
    let mut i: usize = 0;
    while i < tallies.len() && text_less(tallies[i].owner.as_str(), owner.as_str())
        invariant
            i <= tallies@.len(),
            forall|k: int| 0 <= k < i ==> text_lt((#[trigger] tallies@[k]).owner@, owner@),
        decreases tallies@.len() - i,
    {
        i += 1;
    }
    let found = i < tallies.len() && tallies[i].owner == *owner;
    if !found {
        let ghost before = tallies@;
        proof {
            if has_owner(evs, owner@) {
                let k = choose|k: int| 0 <= k < before.len() && (#[trigger] before[k]).owner@ == owner@;
                if k < i {
                    lemma_text_lt_irreflexive(owner@);
                } else if k > i {
                    assert(text_lt(before[i as int].owner@, before[k].owner@));
                }
            }
        }
        let t = OwnerTally { owner: owner.clone(), team: empty_side(), others: empty_side() };
        proof {
            lemma_empty_side_ok(t.team, evs, owner@, true, adjusted);
            lemma_empty_side_ok(t.others, evs, owner@, false, adjusted);
            if i < before.len() {
                lemma_text_lt_total(before[i as int].owner@, owner@);
            }
        }
        tallies.insert(i, t);
        proof {
            let ts = tallies@;
            assert(ts[i as int] == t);
            assert forall|a: int, b: int| 0 <= a < b < ts.len() implies text_lt(ts[a].owner@, ts[b].owner@) by {
                if b == i {
                    assert(ts[a] == before[a]);
                } else if a == i {
                    assert(ts[b] == before[b - 1]);
                    if b - 1 > i {
                        lemma_text_lt_transitive(owner@, before[i as int].owner@, before[b - 1].owner@);
                    }
                } else {
                    let a0 = if a < i { a } else { a - 1 };
                    let b0 = if b < i { b } else { b - 1 };
                    assert(ts[a] == before[a0]);
                    assert(ts[b] == before[b0]);
                }
            }
            assert forall|o: Seq<char>| #[trigger] has_owner(evs, o) implies exists|k: int| 0 <= k < ts.len() && (#[trigger] ts[k]).owner@ == o by {
                let k = choose|k: int| 0 <= k < before.len() && (#[trigger] before[k]).owner@ == o;
                let k2 = if k < i { k } else { k + 1 };
                assert(ts[k2] == before[k]);
            }
            assert forall|k: int| 0 <= k < ts.len() && k != i implies {
                &&& has_owner(evs, (#[trigger] ts[k]).owner@)
                &&& side_ok(ts[k].team, evs, ts[k].owner@, true, adjusted)
                &&& side_ok(ts[k].others, evs, ts[k].owner@, false, adjusted)
            } by {
                let k0 = if k < i { k } else { k - 1 };
                assert(ts[k] == before[k0]);
            }
        }
    }
    // The tally of `owner` now stands at `i`; tallies are as valid as before the credit.
    let ghost mid = tallies@;
    proof {
        assert(mid[i as int].owner@ == owner@);
        assert(side_ok(mid[i as int].team, evs, owner@, true, adjusted));
        assert(side_ok(mid[i as int].others, evs, owner@, false, adjusted));
    }
    if team {
        side_add(&mut tallies[i].team, name, email, insertions, deletions, share, adjusted, Ghost(evs), Ghost(e));
        proof {
            lemma_side_ok_other(mid[i as int].others, evs, e, owner@, false, adjusted);
        }
    } else {
        side_add(&mut tallies[i].others, name, email, insertions, deletions, share, adjusted, Ghost(evs), Ghost(e));
        proof {
            lemma_side_ok_other(mid[i as int].team, evs, e, owner@, true, adjusted);
        }
    }
    proof {
        let ts = tallies@;
        assert forall|k: int| 0 <= k < ts.len() implies {
            &&& has_owner(evs2, (#[trigger] ts[k]).owner@)
            &&& side_ok(ts[k].team, evs2, ts[k].owner@, true, adjusted)
            &&& side_ok(ts[k].others, evs2, ts[k].owner@, false, adjusted)
        } by {
            if k == i {
                assert(evs2[evs.len() as int] == e);
            } else {
                assert(ts[k] == mid[k]);
                let w = choose|w: int| 0 <= w < evs.len() && (#[trigger] evs[w]).owner == mid[k].owner@;
                assert(evs2[w] == evs[w]);
                if k < i {
                    assert(text_lt(mid[k].owner@, mid[i as int].owner@));
                    lemma_text_lt_irreflexive(owner@);
                } else {
                    assert(text_lt(mid[i as int].owner@, mid[k].owner@));
                    lemma_text_lt_irreflexive(owner@);
                }
                lemma_side_ok_other(mid[k].team, evs, e, mid[k].owner@, true, adjusted);
                lemma_side_ok_other(mid[k].others, evs, e, mid[k].owner@, false, adjusted);
            }
        }
        assert forall|o: Seq<char>| #[trigger] has_owner(evs2, o) implies exists|k: int| 0 <= k < ts.len() && (#[trigger] ts[k]).owner@ == o by {
            if o == owner@ {
                assert(ts[i as int].owner@ == o);
            } else {
                let w = choose|w: int| 0 <= w < evs2.len() && (#[trigger] evs2[w]).owner == o;
                assert(w < evs.len());
                assert(evs2[w] == evs[w]);
                assert(has_owner(evs, o));
                let k = choose|k: int| 0 <= k < mid.len() && (#[trigger] mid[k]).owner@ == o;
                assert(ts[k].owner@ == o);
            }
        }
        assert forall|a: int, b: int| 0 <= a < b < ts.len() implies text_lt(ts[a].owner@, ts[b].owner@) by {
            assert(ts[a].owner@ == mid[a].owner@);
            assert(ts[b].owner@ == mid[b].owner@);
        }
    }
}


/// A contributor in a ranking, with the value it is ranked by.
pub struct Ranked {
    pub name: Seq<char>,
    pub email: Seq<char>,
    pub metric: nat,
}

/// Ranking order: larger value first, then name, then email, in the order of `str`.
pub open spec fn ranks_before(a: Ranked, b: Ranked) -> bool {
    a.metric > b.metric || (a.metric == b.metric && (text_lt(a.name, b.name) || (a.name == b.name && text_lt(a.email, b.email))))
}

pub proof fn lemma_ranks_before_irreflexive(a: Ranked)
    ensures
        !ranks_before(a, a),
{
    lemma_text_lt_irreflexive(a.name);
    lemma_text_lt_irreflexive(a.email);
}

pub proof fn lemma_ranks_before_transitive(a: Ranked, b: Ranked, c: Ranked)
    requires
        ranks_before(a, b),
        ranks_before(b, c),
    ensures
        ranks_before(a, c),
{
    if a.metric == b.metric && b.metric == c.metric {
        if text_lt(a.name, b.name) && text_lt(b.name, c.name) {
            lemma_text_lt_transitive(a.name, b.name, c.name);
        } else if text_lt(a.email, b.email) && text_lt(b.email, c.email) {
            lemma_text_lt_transitive(a.email, b.email, c.email);
        }
    }
}

pub proof fn lemma_ranks_before_total(a: Ranked, b: Ranked)
    requires
        !(a.name == b.name && a.email == b.email),
    ensures
        ranks_before(a, b) || ranks_before(b, a),
{
    if a.name != b.name {
        lemma_text_lt_total(a.name, b.name);
    } else {
        lemma_text_lt_total(a.email, b.email);
    }
}

pub proof fn lemma_ranks_before_asymmetric(a: Ranked, b: Ranked)
    requires
        ranks_before(a, b),
    ensures
        !ranks_before(b, a),
{
    if ranks_before(b, a) {
        lemma_ranks_before_transitive(a, b, a);
        lemma_ranks_before_irreflexive(a);
    }
}

/// The most contributors a ranking lists.
pub const TOP_N: usize = 10;

/// A contributor to owner `o` on one side, with its lines changed or its changes counted.
pub open spec fn is_candidate(r: Ranked, evs: Seq<OwnerEvent>, o: Seq<char>, team: bool, by_lines: bool) -> bool {
    &&& has_author(evs, o, team, r.name, r.email)
    &&& r.metric == if by_lines { author_changes(evs, o, team, r.name, r.email) } else { author_commits(evs, o, team, r.name, r.email) }
}

/// `list` is the first `TOP_N` contributors in ranking order, or all of them if fewer.
pub open spec fn is_top(list: Seq<Ranked>, evs: Seq<OwnerEvent>, o: Seq<char>, team: bool, by_lines: bool) -> bool {
    &&& list.len() <= TOP_N
    &&& forall|i: int, j: int| 0 <= i < j < list.len() ==> ranks_before(list[i], list[j])
    &&& forall|i: int| 0 <= i < list.len() ==> is_candidate(#[trigger] list[i], evs, o, team, by_lines)
    &&& forall|r: Ranked| #[trigger] is_candidate(r, evs, o, team, by_lines) && !list.contains(r) ==>
            list.len() == TOP_N && ranks_before(list.last(), r)
}

#[derive(Clone, Debug)]
pub struct ContributorToOwnerInfo {
    pub author_name: String,
    pub author_email: String,
    pub metric_value: u64,
}

pub open spec fn ranked_view(c: ContributorToOwnerInfo) -> Ranked {
    Ranked { name: c.author_name@, email: c.author_email@, metric: c.metric_value as nat }
}

pub open spec fn ranked_views(v: Seq<ContributorToOwnerInfo>) -> Seq<Ranked> {
    v.map_values(|c: ContributorToOwnerInfo| ranked_view(c))
}

spec fn tally_entry(a: AuthorTally, by_lines: bool) -> Ranked {
    Ranked { name: a.name@, email: a.email@, metric: if by_lines { a.changes as nat } else { a.commits as nat } }
}

fn metric_of(a: &AuthorTally, by_lines: bool) -> (r: u64)
    ensures
        r == tally_entry(*a, by_lines).metric,
{
    if by_lines { a.changes } else { a.commits }
}

/// Whether `(name, email, m)` ranks before `b`.
fn before(name: &String, email: &String, m: u64, b: &AuthorTally, by_lines: bool) -> (r: bool)
    ensures
        r == ranks_before(Ranked { name: name@, email: email@, metric: m as nat }, tally_entry(*b, by_lines)),
{
    let bm = metric_of(b, by_lines);
    if m != bm {
        return m > bm;
    }
    let c = text_cmp(name.as_str(), b.name.as_str());
    if c != 0 {
        return c < 0;
    }
    text_less(email.as_str(), b.email.as_str())
}

spec fn listed_in(c: ContributorToOwnerInfo, authors: Seq<AuthorTally>, by_lines: bool) -> bool {
    exists|k: int| 0 <= k < authors.len() && ranked_view(c) == tally_entry(#[trigger] authors[k], by_lines)
}

spec fn last_view(last: Option<&ContributorToOwnerInfo>) -> Option<Ranked> {
    match last {
        Some(l) => Some(ranked_view(*l)),
        None => None,
    }
}

/// Ranks after `last`, or anything when there is no `last`.
spec fn eligible(last: Option<Ranked>, e: Ranked) -> bool {
    match last {
        Some(l) => ranks_before(l, e),
        None => true,
    }
}

spec fn distinct_keys(authors: Seq<AuthorTally>) -> bool {
    forall|i: int, j: int| 0 <= i < j < authors.len() ==>
        !(authors[i].name@ == authors[j].name@ && authors[i].email@ == authors[j].email@)
}

/// The index of the first entry in ranking order among those after `last`
/// (among all when `last` is `None`), or `authors.len()` when there is none.
fn next_in_rank(authors: &Vec<AuthorTally>, last: Option<&ContributorToOwnerInfo>, by_lines: bool) -> (best: usize)
    requires
        distinct_keys(authors@),
    ensures
        best <= authors@.len(),
        best < authors@.len() ==> eligible(last_view(last), tally_entry(authors@[best as int], by_lines)),
        forall|q: int| 0 <= q < authors@.len() && eligible(last_view(last), tally_entry(authors@[q], by_lines)) ==> best < authors@.len() && (q == best || ranks_before(tally_entry(authors@[best as int], by_lines), tally_entry(#[trigger] authors@[q], by_lines))),
{
    let mut best: usize = authors.len();
    let mut k: usize = 0;
    while k < authors.len()
        invariant
            k <= authors@.len(),
            distinct_keys(authors@),
            best == authors@.len() || best < k,
            best < authors@.len() ==> eligible(last_view(last), tally_entry(authors@[best as int], by_lines)),
            forall|q: int| 0 <= q < k && eligible(last_view(last), tally_entry(authors@[q], by_lines)) ==> best < authors@.len() && (q == best || ranks_before(tally_entry(authors@[best as int], by_lines), tally_entry(#[trigger] authors@[q], by_lines))),
        decreases authors@.len() - k,
    {
        let after_last = match last {
            None => true,
            Some(l) => before(&l.author_name, &l.author_email, l.metric_value, &authors[k], by_lines),
        };
        if after_last {
            let better = if best == authors.len() {
                true
            } else {
                before(&authors[k].name, &authors[k].email, metric_of(&authors[k], by_lines), &authors[best], by_lines)
            };
            if better {
                proof {
                    assert forall|q: int| 0 <= q < k + 1 && eligible(last_view(last), tally_entry(authors@[q], by_lines)) implies (q == k || ranks_before(tally_entry(authors@[k as int], by_lines), tally_entry(#[trigger] authors@[q], by_lines))) by {
                        if q != k && q != best && best < authors@.len() {
                            lemma_ranks_before_transitive(tally_entry(authors@[k as int], by_lines), tally_entry(authors@[best as int], by_lines), tally_entry(authors@[q], by_lines));
                        }
                    }
                }
                best = k;
            } else {
                proof {
                    lemma_ranks_before_total(tally_entry(authors@[k as int], by_lines), tally_entry(authors@[best as int], by_lines));
                }
            }
        }
        k += 1;
    }
    proof {
        assert forall|q: int| 0 <= q < authors@.len() && eligible(last_view(last), tally_entry(authors@[q], by_lines)) implies best < authors@.len() && (q == best || ranks_before(tally_entry(authors@[best as int], by_lines), tally_entry(#[trigger] authors@[q], by_lines))) by {
            assert(q < k);
        }
    }
    best
}

/// The first `TOP_N` entries of a side's contributors in ranking order.
fn rank(authors: &Vec<AuthorTally>, by_lines: bool) -> (r: Vec<ContributorToOwnerInfo>)
    requires
        distinct_keys(authors@),
    ensures
        r@.len() <= TOP_N,
        forall|i: int, j: int| 0 <= i < j < r@.len() ==> ranks_before(ranked_view(r@[i]), ranked_view(r@[j])),
        forall|i: int| 0 <= i < r@.len() ==> listed_in(#[trigger] r@[i], authors@, by_lines),
        forall|k: int| 0 <= k < authors@.len() ==>
            ranked_views(r@).contains(#[trigger] tally_entry(authors@[k], by_lines))
            || (r@.len() == TOP_N && ranks_before(ranked_view(r@.last()), tally_entry(authors@[k], by_lines))),
{
    let mut out: Vec<ContributorToOwnerInfo> = Vec::new();
    let mut done = false;
    while !done && out.len() < TOP_N
        invariant
            distinct_keys(authors@),
            out@.len() <= TOP_N,
            forall|i: int, j: int| 0 <= i < j < out@.len() ==> ranks_before(ranked_view(out@[i]), ranked_view(out@[j])),
            forall|i: int| 0 <= i < out@.len() ==> listed_in(#[trigger] out@[i], authors@, by_lines),
            !done ==> forall|k: int| 0 <= k < authors@.len() ==>
                out@.len() == 0 || ranked_views(out@).contains(#[trigger] tally_entry(authors@[k], by_lines))
                || ranks_before(ranked_view(out@.last()), tally_entry(authors@[k], by_lines)),
            done ==> forall|k: int| 0 <= k < authors@.len() ==> ranked_views(out@).contains(#[trigger] tally_entry(authors@[k], by_lines)),
        decreases TOP_N - out@.len(), if done { 0int } else { 1int },
    {
        let n = out.len();
        let best = if n == 0 { next_in_rank(authors, None, by_lines) } else { next_in_rank(authors, Some(&out[n - 1]), by_lines) };
        if best == authors.len() {
            proof {
                assert forall|q: int| 0 <= q < authors@.len() implies ranked_views(out@).contains(#[trigger] tally_entry(authors@[q], by_lines)) by {
                    if n > 0 {
                        assert(out@.last() == out@[n - 1]);
                    }
                }
            }
            done = true;
        } else {
            let a = &authors[best];
            let item = ContributorToOwnerInfo {
                author_name: a.name.clone(),
                author_email: a.email.clone(),
                metric_value: metric_of(a, by_lines),
            };
            let ghost old_out = out@;
            out.push(item);
            proof {
                let e = tally_entry(authors@[best as int], by_lines);
                assert(ranked_view(item) == e);
                assert(ranked_views(out@) =~= ranked_views(old_out).push(e));
                if n > 0 {
                    assert(old_out.last() == old_out[n - 1]);
                }
                assert forall|i: int, j: int| 0 <= i < j < out@.len() implies ranks_before(ranked_view(out@[i]), ranked_view(out@[j])) by {
                    if j == n {
                        if i < n - 1 {
                            lemma_ranks_before_transitive(ranked_view(old_out[i]), ranked_view(old_out[n - 1]), e);
                        }
                    } else {
                        assert(out@[i] == old_out[i] && out@[j] == old_out[j]);
                    }
                }
                assert forall|i: int| 0 <= i < out@.len() implies listed_in(#[trigger] out@[i], authors@, by_lines) by {
                    if i < n {
                        assert(out@[i] == old_out[i]);
                    } else {
                        assert(ranked_view(out@[i]) == tally_entry(authors@[best as int], by_lines));
                        assert(listed_in(out@[i], authors@, by_lines));
                    }
                }
                assert forall|q: int| 0 <= q < authors@.len() implies
                    out@.len() == 0 || ranked_views(out@).contains(#[trigger] tally_entry(authors@[q], by_lines))
                    || ranks_before(ranked_view(out@.last()), tally_entry(authors@[q], by_lines)) by {
                    let eq = tally_entry(authors@[q], by_lines);
                    assert(out@.last() == item);
                    if n > 0 && ranked_views(old_out).contains(eq) {
                        let w = choose|w: int| 0 <= w < ranked_views(old_out).len() && ranked_views(old_out)[w] == eq;
                        assert(ranked_views(out@)[w] == eq);
                    } else if q == best {
                        assert(ranked_views(out@)[n as int] == eq);
                    } else {
                        lemma_ranks_before_total(e, eq);
                    }
                }
            }
        }
    }
    out
}


/// One row of the owner report.
#[derive(Clone, Debug)]
pub struct OwnerInfo {
    pub owner: String,
    pub total_insertions_by_team: u64,
    pub total_deletions_by_team: u64,
    pub total_commits_by_team: u64,
    pub total_insertions_by_others: u64,
    pub total_deletions_by_others: u64,
    pub total_commits_by_others: u64,
    pub adjusted_changes_by_team: u64,
    /// The commit weights whose sum is the adjusted commit count of the team.
    pub adjusted_commits_by_team: Vec<CommitShare>,
    pub adjusted_changes_by_others: u64,
    pub adjusted_commits_by_others: Vec<CommitShare>,
    pub top_outside_contributors_by_changes: Vec<ContributorToOwnerInfo>,
    pub top_outside_contributors_by_commits: Vec<ContributorToOwnerInfo>,
    pub top_team_contributors_by_changes: Vec<ContributorToOwnerInfo>,
    pub top_team_contributors_by_commits: Vec<ContributorToOwnerInfo>,
}

/// A row holds the tallies of its owner over the credits `evs`.
pub open spec fn owner_row_ok(r: OwnerInfo, evs: Seq<OwnerEvent>, adjusted: bool) -> bool {
    let o = r.owner@;
    &&& has_owner(evs, o)
    &&& r.total_insertions_by_team == sum_insertions(evs, o, true)
    &&& r.total_deletions_by_team == sum_deletions(evs, o, true)
    &&& r.total_commits_by_team == sum_commits(evs, o, true)
    &&& r.total_insertions_by_others == sum_insertions(evs, o, false)
    &&& r.total_deletions_by_others == sum_deletions(evs, o, false)
    &&& r.total_commits_by_others == sum_commits(evs, o, false)
    &&& r.adjusted_changes_by_team == if adjusted { sum_insertions(evs, o, true) } else { 0 }
    &&& r.adjusted_changes_by_others == if adjusted { sum_insertions(evs, o, false) } else { 0 }
    &&& share_views(r.adjusted_commits_by_team@) == if adjusted { shares_of(evs, o, true) } else { Seq::empty() }
    &&& share_views(r.adjusted_commits_by_others@) == if adjusted { shares_of(evs, o, false) } else { Seq::empty() }
    &&& is_top(ranked_views(r.top_team_contributors_by_changes@), evs, o, true, true)
    &&& is_top(ranked_views(r.top_team_contributors_by_commits@), evs, o, true, false)
    &&& is_top(ranked_views(r.top_outside_contributors_by_changes@), evs, o, false, true)
    &&& is_top(ranked_views(r.top_outside_contributors_by_commits@), evs, o, false, false)
}

/// The owner report over the credits `evs`: one row per owner credited, in
/// the order of `str` on owner names.
pub open spec fn owner_report(rows: Seq<OwnerInfo>, evs: Seq<OwnerEvent>, adjusted: bool) -> bool {
    &&& forall|i: int, j: int| 0 <= i < j < rows.len() ==> text_lt(rows[i].owner@, rows[j].owner@)
    &&& forall|i: int| 0 <= i < rows.len() ==> owner_row_ok(#[trigger] rows[i], evs, adjusted)
    &&& forall|o: Seq<char>| #[trigger] has_owner(evs, o) ==> exists|i: int| 0 <= i < rows.len() && (#[trigger] rows[i]).owner@ == o
}

/// Every tally of the owner report fits in a `u64`.
pub open spec fn owner_totals_fit(cs: Seq<CommitInfoWithCodeowner>) -> bool {
    &&& budget(owner_events(cs)) <= u64::MAX
    &&& forall|i: int| 0 <= i < cs.len() ==> total_insertions((#[trigger] cs[i]).file_changes@) <= u64::MAX
}

proof fn lemma_rank_is_top(authors: Seq<AuthorTally>, list: Seq<ContributorToOwnerInfo>, evs: Seq<OwnerEvent>, o: Seq<char>, team: bool, by_lines: bool)
    requires
        authors_ok(authors, evs, o, team),
        list.len() <= TOP_N,
        forall|i: int, j: int| 0 <= i < j < list.len() ==> ranks_before(ranked_view(list[i]), ranked_view(list[j])),
        forall|i: int| 0 <= i < list.len() ==> listed_in(#[trigger] list[i], authors, by_lines),
        forall|k: int| 0 <= k < authors.len() ==>
            ranked_views(list).contains(#[trigger] tally_entry(authors[k], by_lines))
            || (list.len() == TOP_N && ranks_before(ranked_view(list.last()), tally_entry(authors[k], by_lines))),
    ensures
        is_top(ranked_views(list), evs, o, team, by_lines),
{
    let rv = ranked_views(list);
    assert forall|i: int| 0 <= i < rv.len() implies is_candidate(#[trigger] rv[i], evs, o, team, by_lines) by {
        assert(listed_in(list[i], authors, by_lines));
        let k = choose|k: int| 0 <= k < authors.len() && ranked_view(list[i]) == tally_entry(#[trigger] authors[k], by_lines);
    }
    assert forall|r: Ranked| #[trigger] is_candidate(r, evs, o, team, by_lines) && !rv.contains(r) implies
        rv.len() == TOP_N && ranks_before(rv.last(), r) by {
        let k = choose|k: int| 0 <= k < authors.len() && (#[trigger] authors[k]).name@ == r.name && authors[k].email@ == r.email;
        assert(tally_entry(authors[k], by_lines) == r);
    }
}

fn owner_row(t: OwnerTally, Ghost(evs): Ghost<Seq<OwnerEvent>>, adjusted: bool) -> (r: OwnerInfo)
    requires
        has_owner(evs, t.owner@),
        side_ok(t.team, evs, t.owner@, true, adjusted),
        side_ok(t.others, evs, t.owner@, false, adjusted),
    ensures
        r.owner@ == t.owner@,
        owner_row_ok(r, evs, adjusted),
{
    let tc = rank(&t.team.authors, true);
    let tm = rank(&t.team.authors, false);
    let oc = rank(&t.others.authors, true);
    let om = rank(&t.others.authors, false);
    proof {
        lemma_rank_is_top(t.team.authors@, tc@, evs, t.owner@, true, true);
        lemma_rank_is_top(t.team.authors@, tm@, evs, t.owner@, true, false);
        lemma_rank_is_top(t.others.authors@, oc@, evs, t.owner@, false, true);
        lemma_rank_is_top(t.others.authors@, om@, evs, t.owner@, false, false);
    }
    OwnerInfo {
        owner: t.owner,
        total_insertions_by_team: t.team.insertions,
        total_deletions_by_team: t.team.deletions,
        total_commits_by_team: t.team.commits,
        total_insertions_by_others: t.others.insertions,
        total_deletions_by_others: t.others.deletions,
        total_commits_by_others: t.others.commits,
        adjusted_changes_by_team: t.team.adjusted_changes,
        adjusted_commits_by_team: t.team.shares,
        adjusted_changes_by_others: t.others.adjusted_changes,
        adjusted_commits_by_others: t.others.shares,
        top_outside_contributors_by_changes: oc,
        top_outside_contributors_by_commits: om,
        top_team_contributors_by_changes: tc,
        top_team_contributors_by_commits: tm,
    }
}

/// Credits every change of one commit to its owners.
fn apply_commit(tallies: &mut Vec<OwnerTally>, c: &CommitInfoWithCodeowner, adjusted: bool, Ghost(base): Ghost<Seq<OwnerEvent>>)
    requires
        tallies_ok(old(tallies)@, base, adjusted),
        budget(base + changes_events(*c, c.file_changes@)) <= u64::MAX,
        total_insertions(c.file_changes@) <= u64::MAX,
    ensures
        tallies_ok(final(tallies)@, base + changes_events(*c, c.file_changes@), adjusted),
{
    let chs = &c.file_changes;
    let ghost mut done: Seq<OwnerEvent> = base;
    proof {
        assert(chs@.take(0) =~= Seq::<FileChangeWithCodeowner>::empty());
        assert(base + changes_events(*c, chs@.take(0)) =~= base);
    }
    let total: u64 = if adjusted { commit_total_insertions(chs) } else { 0 };
    let table = if adjusted { owner_insertions_table(chs) } else { Vec::new() };
    let mut k: usize = 0;
    while k < chs.len()
        invariant
            chs@ == c.file_changes@,
            total_insertions(chs@) <= u64::MAX,
            k <= chs@.len(),
            budget(base + changes_events(*c, chs@)) <= u64::MAX,
            adjusted ==> total == total_insertions(chs@),
            adjusted ==> table_ok(table@, chs@),
            done == base + changes_events(*c, chs@.take(k as int)),
            tallies_ok(tallies@, done, adjusted),
        decreases chs@.len() - k,
    {
        let ch = &chs[k];
        proof {
            assert(chs@.take(k + 1).drop_last() =~= chs@.take(k as int));
            assert(chs@.take(k + 1).last() == chs@[k as int]);
            lemma_changes_events_take(*c, chs@, k + 1);
            lemma_budget_concat(base, changes_events(*c, chs@.take(k + 1)));
            lemma_budget_concat(base, changes_events(*c, chs@));
        }
        let ghost mid = done;
        match &ch.codeowners {
            Some(owners) => {
                let ghost evs_ch = change_events(*c, *ch);
                let mut j: usize = 0;
                proof {
                    assert(evs_ch.take(0) =~= Seq::<OwnerEvent>::empty());
                    assert(mid + evs_ch.take(0) =~= mid);
                    assert(changes_events(*c, chs@.take(k + 1)) == changes_events(*c, chs@.take(k as int)) + change_events(*c, *ch));
                    assert(mid + evs_ch =~= base + changes_events(*c, chs@.take(k + 1)));
                }
                while j < owners.len()
                    invariant
                        evs_ch == change_events(*c, *ch),
                        chs@ == c.file_changes@,
                        owners_of(*ch) == views(owners@),
                        j <= owners@.len(),
                        budget(mid + evs_ch) <= u64::MAX,
                        adjusted ==> total == total_insertions(chs@),
                        adjusted ==> table_ok(table@, chs@),
                        k < chs@.len(),
                        *ch == chs@[k as int],
                        done == mid + evs_ch.take(j as int),
                        tallies_ok(tallies@, done, adjusted),
                    decreases owners@.len() - j,
                {
                    let o = &owners[j];
                    let share = if adjusted {
                        proof {
                            assert(owners_of(chs@[k as int])[j as int] == o@);
                        }
                        let n = lookup_owner_insertions(&table, o, Ghost(chs@), Ghost(k as int), Ghost(j as int));
                        CommitShare { owner_insertions: n, commit_insertions: total }
                    } else {
                        CommitShare { owner_insertions: 0, commit_insertions: 0 }
                    };
                    let team = match &ch.author_in_owners {
                        Some(v) => j < v.len() && v[j],
                        None => false,
                    };
                    let ghost e = owner_event(*c, *ch, j as int);
                    proof {
                        assert(evs_ch[j as int] == e);
                        assert(evs_ch.take(j + 1) =~= evs_ch.take(j as int).push(e));
                        assert(mid + evs_ch.take(j + 1) =~= done.push(e));
                        lemma_budget_take(evs_ch, j + 1);
                        lemma_budget_concat(mid, evs_ch.take(j + 1));
                        lemma_budget_concat(mid, evs_ch);
                    }
                    record(tallies, o, &c.author.name, &c.author.email, team,
                        ch.insertions, ch.deletions, share, adjusted, Ghost(done), Ghost(e));
                    proof {
                        done = done.push(e);
                    }
                    j += 1;
                }
                proof {
                    assert(evs_ch.take(j as int) =~= evs_ch);
                }
            },
            None => {
                proof {
                    assert(change_events(*c, *ch) =~= Seq::<OwnerEvent>::empty());
                    assert(done + change_events(*c, *ch) =~= done);
                }
            },
        }
        proof {
            assert(changes_events(*c, chs@.take(k + 1)) =~= changes_events(*c, chs@.take(k as int)) + change_events(*c, *ch));
            assert(done =~= base + changes_events(*c, chs@.take(k + 1)));
        }
        k += 1;
    }
    proof {
        assert(chs@.take(k as int) =~= chs@);
    }
}

/// The rows of the owner report from the tallies over `evs`.
fn owner_rows(tallies: Vec<OwnerTally>, Ghost(evs): Ghost<Seq<OwnerEvent>>, adjusted: bool) -> (r: Vec<OwnerInfo>)
    requires
        tallies_ok(tallies@, evs, adjusted),
    ensures
        owner_report(r@, evs, adjusted),
{
    let mut rows: Vec<OwnerInfo> = Vec::new();
    let ghost ts = tallies@;
    let n = tallies.len();
    let mut rest = tallies;
    proof {
        assert(rest@ =~= ts.skip(0));
    }
    let mut idx: usize = 0;
    while idx < n
        invariant
            n == ts.len(),
            idx <= n,
            rest@ =~= ts.skip(idx as int),
            tallies_ok(ts, evs, adjusted),
            rows@.len() == idx,
            forall|q: int| 0 <= q < idx ==> (#[trigger] rows@[q]).owner@ == ts[q].owner@ && owner_row_ok(rows@[q], evs, adjusted),
        decreases n - idx,
    {
        let t = rest.remove(0);
        proof {
            assert(t == ts[idx as int]);
            assert(rest@ =~= ts.skip(idx + 1));
        }
        let row = owner_row(t, Ghost(evs), adjusted);
        rows.push(row);
        idx += 1;
    }
    proof {
        assert forall|o: Seq<char>| #[trigger] has_owner(evs, o) implies exists|q: int| 0 <= q < rows@.len() && (#[trigger] rows@[q]).owner@ == o by {
            let q = choose|q: int| 0 <= q < ts.len() && (#[trigger] ts[q]).owner@ == o;
            assert(rows@[q].owner@ == o);
        }
        assert forall|a: int, b: int| 0 <= a < b < rows@.len() implies text_lt(rows@[a].owner@, rows@[b].owner@) by {
            assert(rows@[a].owner@ == ts[a].owner@);
            assert(rows@[b].owner@ == ts[b].owner@);
        }
    }
    rows
}

/// The owner report built up commit by commit, in history order.
pub struct OwnerAnalysis {
    tallies: Vec<OwnerTally>,
    adjusted: bool,
    spent: u64,
    credits: Ghost<Seq<OwnerEvent>>,
}

impl OwnerAnalysis {
    /// The credits of the commits applied so far.
    pub closed spec fn credits(&self) -> Seq<OwnerEvent> {
        self.credits@
    }

    pub closed spec fn adjusted(&self) -> bool {
        self.adjusted
    }

    pub closed spec fn wf(&self) -> bool {
        &&& tallies_ok(self.tallies@, self.credits@, self.adjusted)
        &&& self.spent == budget(self.credits@)
    }

    /// An empty analysis; `adjusted` asks for the adjusted totals too.
    pub fn new(adjusted: bool) -> (r: Self)
        ensures
            r.wf(),
            r.credits() == Seq::<OwnerEvent>::empty(),
            r.adjusted() == adjusted,
    {
        OwnerAnalysis { tallies: Vec::new(), adjusted, spent: 0, credits: Ghost(Seq::empty()) }
    }

    /// Whether the tallies still fit in a `u64` once `commit` is applied.
    pub fn fits(&self, commit: &CommitInfoWithCodeowner) -> (r: bool)
        requires
            self.wf(),
        ensures
            r == (budget(self.credits() + changes_events(*commit, commit.file_changes@)) <= u64::MAX
                && total_insertions(commit.file_changes@) <= u64::MAX),
    {
        if !commit_total_fits(&commit.file_changes) {
            return false;
        }
        match commit_budget(self.spent, commit) {
            Some(_) => {
                proof {
                    lemma_budget_concat(self.credits@, changes_events(*commit, commit.file_changes@));
                }
                true
            },
            None => {
                proof {
                    lemma_budget_concat(self.credits@, changes_events(*commit, commit.file_changes@));
                }
                false
            },
        }
    }

    /// Credits every change of `commit` to its owners.
    pub fn apply(&mut self, commit: &CommitInfoWithCodeowner)
        requires
            old(self).wf(),
            budget(old(self).credits() + changes_events(*commit, commit.file_changes@)) <= u64::MAX,
            total_insertions(commit.file_changes@) <= u64::MAX,
        ensures
            final(self).wf(),
            final(self).credits() == old(self).credits() + changes_events(*commit, commit.file_changes@),
            final(self).adjusted() == old(self).adjusted(),
    {
        let ghost base = self.credits@;
        apply_commit(&mut self.tallies, commit, self.adjusted, Ghost(base));
        let added = commit_budget(self.spent, commit);
        proof {
            lemma_budget_concat(base, changes_events(*commit, commit.file_changes@));
        }
        match added {
            Some(x) => {
                self.spent = x;
            },
            None => {},
        }
        self.credits = Ghost(base + changes_events(*commit, commit.file_changes@));
    }

    /// The owner report over the commits applied.
    pub fn report(self) -> (r: Vec<OwnerInfo>)
        requires
            self.wf(),
        ensures
            owner_report(r@, self.credits(), self.adjusted()),
    {
        owner_rows(self.tallies, Ghost(self.credits@), self.adjusted)
    }
}

/// `spent` plus what the commit's credits add to the budget, if that fits.
fn commit_budget(spent: u64, c: &CommitInfoWithCodeowner) -> (r: Option<u64>)
    ensures
        match r {
            Some(x) => x == spent + budget(changes_events(*c, c.file_changes@)),
            None => spent + budget(changes_events(*c, c.file_changes@)) > u64::MAX,
        },
{
    let chs = &c.file_changes;
    let mut acc: u64 = spent;
    let mut k: usize = 0;
    proof {
        assert(chs@.take(0) =~= Seq::<FileChangeWithCodeowner>::empty());
        lemma_changes_events_take(*c, chs@, 0);
    }
    while k < chs.len()
        invariant
            chs@ == c.file_changes@,
            k <= chs@.len(),
            acc == spent + budget(changes_events(*c, chs@.take(k as int))),
        decreases chs@.len() - k,
    {
        let ch = &chs[k];
        let ghost evs_ch = change_events(*c, *ch);
        proof {
            assert(chs@.take(k + 1).drop_last() =~= chs@.take(k as int));
            assert(chs@.take(k + 1).last() == chs@[k as int]);
            lemma_changes_events_take(*c, chs@, k + 1);
            lemma_budget_concat(changes_events(*c, chs@.take(k as int)), evs_ch);
            assert(changes_events(*c, chs@.take(k + 1)) == changes_events(*c, chs@.take(k as int)) + evs_ch);
            assert(evs_ch.take(0) =~= Seq::<OwnerEvent>::empty());
        }
        let n: usize = match &ch.codeowners {
            Some(owners) => owners.len(),
            None => 0,
        };
        assert(n == evs_ch.len());
        let step = ch.insertions as u64 + ch.deletions as u64 + 1;
        let ghost acc0 = acc;
        let mut j: usize = 0;
        while j < n
            invariant
                n == evs_ch.len(),
                evs_ch == change_events(*c, *ch),
                step == ch.insertions + ch.deletions + 1,
                j <= n,
                acc == acc0 + budget(evs_ch.take(j as int)),
                spent + budget(changes_events(*c, chs@)) >= acc0 + budget(evs_ch),
                chs@ == c.file_changes@,
            decreases n - j,
        {
            proof {
                assert(evs_ch.take(j + 1).drop_last() =~= evs_ch.take(j as int));
                assert(evs_ch.take(j + 1).last() == evs_ch[j as int]);
                lemma_budget_take(evs_ch, j + 1);
            }
            if acc > u64::MAX - step {
                proof {
                    assert(budget(evs_ch.take(j + 1)) == budget(evs_ch.take(j as int)) + step);
                }
                return None;
            }
            acc = acc + step;
            j += 1;
        }
        proof {
            assert(evs_ch.take(j as int) =~= evs_ch);
        }
        k += 1;
    }
    proof {
        assert(chs@.take(k as int) =~= chs@);
    }
    Some(acc)
}

/// The owner report of a history: for every owner group that a change is
/// credited to, the team's and the others' totals, the adjusted totals when
/// `adjusted`, and the four top-contributor lists. Rows come in the order of
/// owner names.
pub fn analyze_by_owner(commits: &Vec<CommitInfoWithCodeowner>, adjusted: bool) -> (r: Vec<OwnerInfo>)
    requires
        owner_totals_fit(commits@),
    ensures
        owner_report(r@, owner_events(commits@), adjusted),
{
    let ghost cs = commits@;
    let mut analysis = OwnerAnalysis::new(adjusted);
    let mut i: usize = 0;
    proof {
        assert(cs.take(0) =~= Seq::<CommitInfoWithCodeowner>::empty());
    }
    while i < commits.len()
        invariant
            cs == commits@,
            owner_totals_fit(cs),
            i <= cs.len(),
            analysis.wf(),
            analysis.adjusted() == adjusted,
            analysis.credits() == owner_events(cs.take(i as int)),
        decreases cs.len() - i,
    {
        proof {
            assert(cs.take(i + 1).drop_last() =~= cs.take(i as int));
            assert(cs.take(i + 1).last() == cs[i as int]);
            lemma_owner_events_take(cs, i + 1);
        }
        analysis.apply(&commits[i]);
        i += 1;
    }
    proof {
        assert(cs.take(i as int) =~= cs);
    }
    analysis.report()
}

/// Whether the commit's insertions times owners fit in a `u64`.
fn commit_total_fits(chs: &Vec<FileChangeWithCodeowner>) -> (r: bool)
    ensures
        r == (total_insertions(chs@) <= u64::MAX),
{
    let mut acc: u64 = 0;
    let mut k: usize = 0;
    while k < chs.len()
        invariant
            k <= chs@.len(),
            acc == total_insertions(chs@.take(k as int)),
        decreases chs@.len() - k,
    {
        let ch = &chs[k];
        proof {
            assert(chs@.take(k + 1).drop_last() =~= chs@.take(k as int));
            assert(chs@.take(k + 1).last() == chs@[k as int]);
            lemma_total_prefix(chs@, k + 1);
        }
        let n: u64 = match &ch.codeowners {
            Some(owners) => owners.len() as u64,
            None => 0,
        };
        assert(n == owners_of(*ch).len());
        let x = ch.insertions as u64;
        if x > 0 && n > u64::MAX / x {
            proof {
                assert(n * x > u64::MAX) by (nonlinear_arith)
                    requires x > 0, n > u64::MAX / x;
            }
            return false;
        }
        proof {
            assert(n * x <= u64::MAX) by (nonlinear_arith)
                requires x == 0 || n <= u64::MAX / x;
        }
        let add = n * x;
        if acc > u64::MAX - add {
            return false;
        }
        acc = acc + add;
        k += 1;
    }
    proof {
        assert(chs@.take(k as int) =~= chs@);
    }
    true
}

/// Whether every tally of the owner report of `commits` fits in a `u64`
/// (what `analyze_by_owner` requires).
pub fn fits_owner_report(commits: &Vec<CommitInfoWithCodeowner>) -> (r: bool)
    ensures
        r == owner_totals_fit(commits@),
{
    let ghost cs = commits@;
    let mut acc: u64 = 0;
    let mut i: usize = 0;
    proof {
        assert(cs.take(0) =~= Seq::<CommitInfoWithCodeowner>::empty());
    }
    while i < commits.len()
        invariant
            cs == commits@,
            i <= cs.len(),
            acc == budget(owner_events(cs.take(i as int))),
            forall|q: int| 0 <= q < i ==> total_insertions((#[trigger] cs[q]).file_changes@) <= u64::MAX,
        decreases cs.len() - i,
    {
        let c = &commits[i];
        proof {
            assert(cs.take(i + 1).drop_last() =~= cs.take(i as int));
            assert(cs.take(i + 1).last() == cs[i as int]);
            lemma_owner_events_take(cs, i + 1);
            lemma_budget_concat(owner_events(cs.take(i as int)), changes_events(*c, c.file_changes@));
        }
        if !commit_total_fits(&c.file_changes) {
            return false;
        }
        match commit_budget(acc, c) {
            Some(x) => {
                acc = x;
            },
            None => {
                return false;
            },
        }
        i += 1;
    }
    proof {
        assert(cs.take(i as int) =~= cs);
    }
    true
}

pub open spec fn no_duplicates(s: Seq<Seq<char>>) -> bool {
    forall|i: int, j: int| 0 <= i < j < s.len() ==> s[i] != s[j]
}

/// Insertions credited to `o` by a list of credits, team and others together.
pub open spec fn raw_insertions(evs: Seq<OwnerEvent>, o: Seq<char>) -> nat {
    sum_insertions(evs, o, true) + sum_insertions(evs, o, false)
}

/// The raw insertions credited to each owner of `owners`, added up.
pub open spec fn sum_over_owners(evs: Seq<OwnerEvent>, owners: Seq<Seq<char>>) -> nat
    decreases owners.len(),
{
    if owners.len() == 0 {
        0
    } else {
        sum_over_owners(evs, owners.drop_last()) + raw_insertions(evs, owners.last())
    }
}

proof fn lemma_count_distinct(s: Seq<Seq<char>>, o: Seq<char>)
    requires
        no_duplicates(s),
    ensures
        s.contains(o) ==> count_in(s, o) == 1,
        !s.contains(o) ==> count_in(s, o) == 0,
    decreases s.len(),
{
    if s.len() > 0 {
        let t = s.drop_last();
        assert(no_duplicates(t));
        lemma_count_distinct(t, o);
        if s.last() == o {
            assert(!t.contains(o)) by {
                if t.contains(o) {
                    let i = choose|i: int| 0 <= i < t.len() && t[i] == o;
                    assert(s[i] == s[s.len() - 1]);
                }
            }
        } else {
            if s.contains(o) {
                let i = choose|i: int| 0 <= i < s.len() && s[i] == o;
                assert(t[i] == o);
            }
            if t.contains(o) {
                let i = choose|i: int| 0 <= i < t.len() && t[i] == o;
                assert(s[i] == o);
            }
        }
    }
}

proof fn lemma_raw_prefix(c: CommitInfoWithCodeowner, ch: FileChangeWithCodeowner, m: int, o: Seq<char>)
    requires
        0 <= m <= owners_of(ch).len(),
    ensures
        raw_insertions(change_events(c, ch).take(m), o) == count_in(owners_of(ch).take(m), o) * (ch.insertions as nat),
    decreases m,
{
    let evs = change_events(c, ch).take(m);
    let l = owners_of(ch).take(m);
    if m > 0 {
        lemma_raw_prefix(c, ch, m - 1, o);
        assert(evs.drop_last() =~= change_events(c, ch).take(m - 1));
        assert(l.drop_last() =~= owners_of(ch).take(m - 1));
        let k = count_in(l.drop_last(), o);
        let x = ch.insertions as nat;
        assert(evs.last() == owner_event(c, ch, m - 1));
        assert(l.last() == owners_of(ch)[m - 1]);
        assert(sum_insertions(evs, o, true) == sum_insertions(evs.drop_last(), o, true)
            + if credited(evs.last(), o, true) { evs.last().insertions } else { 0 });
        assert(sum_insertions(evs, o, false) == sum_insertions(evs.drop_last(), o, false)
            + if credited(evs.last(), o, false) { evs.last().insertions } else { 0 });
        assert((k + 1) * x == k * x + x) by (nonlinear_arith);
        if l.last() == o {
            assert(count_in(l, o) == k + 1);
        } else {
            assert(count_in(l, o) == k);
        }
    } else {
        assert(evs.len() == 0);
        assert(l.len() == 0);
        assert(count_in(l, o) == 0);
    }
}

proof fn lemma_raw_from_list(c: CommitInfoWithCodeowner, ch: FileChangeWithCodeowner, o: Seq<char>)
    ensures
        raw_insertions(change_events(c, ch), o) == count_in(owners_of(ch), o) * (ch.insertions as nat),
{
    let n = owners_of(ch).len() as int;
    lemma_raw_prefix(c, ch, n, o);
    assert(change_events(c, ch).take(n) =~= change_events(c, ch));
    assert(owners_of(ch).take(n) =~= owners_of(ch));
}

/// Full attribution: every owner of a change is credited with all of the
/// change's insertions, not a share of them, so that over the change's owners
/// the credits add up to the insertions times the number of owners.
pub proof fn lemma_full_attribution(c: CommitInfoWithCodeowner, ch: FileChangeWithCodeowner)
    requires
        no_duplicates(owners_of(ch)),
    ensures
        forall|o: Seq<char>| owners_of(ch).contains(o) ==> #[trigger] raw_insertions(change_events(c, ch), o) == ch.insertions,
        sum_over_owners(change_events(c, ch), owners_of(ch)) == owners_of(ch).len() * (ch.insertions as nat),
{
    let l = owners_of(ch);
    let evs = change_events(c, ch);
    assert forall|o: Seq<char>| l.contains(o) implies #[trigger] raw_insertions(evs, o) == ch.insertions by {
        lemma_raw_from_list(c, ch, o);
        lemma_count_distinct(l, o);
        assert(count_in(l, o) == 1);
        assert(1 * (ch.insertions as nat) == ch.insertions);
    }
    lemma_sum_over_owners(c, ch, l.len() as int);
    assert(l.take(l.len() as int) =~= l);
}

proof fn lemma_sum_over_owners(c: CommitInfoWithCodeowner, ch: FileChangeWithCodeowner, k: int)
    requires
        no_duplicates(owners_of(ch)),
        0 <= k <= owners_of(ch).len(),
    ensures
        sum_over_owners(change_events(c, ch), owners_of(ch).take(k)) == k * (ch.insertions as nat),
    decreases k,
{
    let l = owners_of(ch);
    if k > 0 {
        lemma_sum_over_owners(c, ch, k - 1);
        assert(l.take(k).drop_last() =~= l.take(k - 1));
        assert(l.contains(l[k - 1]));
        lemma_raw_from_list(c, ch, l[k - 1]);
        lemma_count_distinct(l, l[k - 1]);
        let x = ch.insertions as nat;
        assert((k - 1) * x + x == k * x) by (nonlinear_arith);
    } else {
        assert(l.take(0) =~= Seq::<Seq<char>>::empty());
    }
}

/// The owner weights that a commit's credits carry, added up (numerators over
/// the commit's common denominator).
pub open spec fn sum_weights(evs: Seq<OwnerEvent>) -> nat
    decreases evs.len(),
{
    if evs.len() == 0 {
        0
    } else {
        sum_weights(evs.drop_last()) + evs.last().owner_insertions
    }
}

/// No owner is credited twice by one commit: owner lists have no repeats, and
/// two changes share no owner.
pub open spec fn owners_disjoint(chs: Seq<FileChangeWithCodeowner>) -> bool {
    &&& forall|k: int| 0 <= k < chs.len() ==> no_duplicates(owners_of(#[trigger] chs[k]))
    &&& forall|j: int, k: int, a: int, b: int| 0 <= j < k < chs.len() && 0 <= a < owners_of(chs[j]).len() && 0 <= b < owners_of(chs[k]).len()
            ==> #[trigger] owners_of(chs[j])[a] != #[trigger] owners_of(chs[k])[b]
}

proof fn lemma_owner_insertions_single(chs: Seq<FileChangeWithCodeowner>, n: int, m: int, o: Seq<char>)
    requires
        owners_disjoint(chs),
        0 <= m < chs.len(),
        owners_of(chs[m]).contains(o),
        0 <= n <= chs.len(),
    ensures
        owner_insertions(chs.take(n), o) == if n > m { chs[m].insertions as nat } else { 0 },
    decreases n,
{
    if n > 0 {
        lemma_owner_insertions_single(chs, n - 1, m, o);
        assert(chs.take(n).drop_last() =~= chs.take(n - 1));
        assert(chs.take(n).last() == chs[n - 1]);
        let ow = owners_of(chs[n - 1]);
        lemma_count_distinct(ow, o);
        if n - 1 != m {
            assert(!ow.contains(o)) by {
                if ow.contains(o) {
                    let a = choose|a: int| 0 <= a < ow.len() && ow[a] == o;
                    let b = choose|b: int| 0 <= b < owners_of(chs[m]).len() && owners_of(chs[m])[b] == o;
                    if n - 1 < m {
                        assert(owners_of(chs[n - 1])[a] != owners_of(chs[m])[b]);
                    } else {
                        assert(owners_of(chs[m])[b] != owners_of(chs[n - 1])[a]);
                    }
                }
            }
        }
    }
}

proof fn lemma_weights_of_change(c: CommitInfoWithCodeowner, m: int, j: int)
    requires
        owners_disjoint(c.file_changes@),
        0 <= m < c.file_changes@.len(),
        0 <= j <= owners_of(c.file_changes@[m]).len(),
    ensures
        sum_weights(change_events(c, c.file_changes@[m]).take(j)) == j * (c.file_changes@[m].insertions as nat),
    decreases j,
{
    let chs = c.file_changes@;
    let ch = chs[m];
    let evs = change_events(c, ch);
    if j > 0 {
        lemma_weights_of_change(c, m, j - 1);
        assert(evs.take(j).drop_last() =~= evs.take(j - 1));
        assert(evs.take(j).last() == owner_event(c, ch, j - 1));
        let o = owners_of(ch)[j - 1];
        assert(owners_of(ch).contains(o));
        lemma_owner_insertions_single(chs, chs.len() as int, m, o);
        assert(chs.take(chs.len() as int) =~= chs);
        let x = ch.insertions as nat;
        assert(owner_insertions(chs, o) == x);
        assert(evs.take(j).last().owner_insertions == x);
        assert(sum_weights(evs.take(j)) == sum_weights(evs.take(j - 1)) + x);
        assert((j - 1) * x + x == j * x) by (nonlinear_arith);
    } else {
        assert(evs.take(0) =~= Seq::<OwnerEvent>::empty());
    }
}

proof fn lemma_sum_weights_concat(a: Seq<OwnerEvent>, b: Seq<OwnerEvent>)
    ensures
        sum_weights(a + b) == sum_weights(a) + sum_weights(b),
    decreases b.len(),
{
    if b.len() > 0 {
        assert((a + b).drop_last() =~= a + b.drop_last());
        lemma_sum_weights_concat(a, b.drop_last());
    } else {
        assert(a + b =~= a);
    }
}

proof fn lemma_weights_prefix(c: CommitInfoWithCodeowner, n: int)
    requires
        owners_disjoint(c.file_changes@),
        0 <= n <= c.file_changes@.len(),
    ensures
        sum_weights(changes_events(c, c.file_changes@.take(n))) == total_insertions(c.file_changes@.take(n)),
    decreases n,
{
    let chs = c.file_changes@;
    if n > 0 {
        lemma_weights_prefix(c, n - 1);
        assert(chs.take(n).drop_last() =~= chs.take(n - 1));
        assert(chs.take(n).last() == chs[n - 1]);
        lemma_sum_weights_concat(changes_events(c, chs.take(n - 1)), change_events(c, chs[n - 1]));
        lemma_weights_of_change(c, n - 1, owners_of(chs[n - 1]).len() as int);
        assert(change_events(c, chs[n - 1]).take(owners_of(chs[n - 1]).len() as int) =~= change_events(c, chs[n - 1]));
    } else {
        assert(chs.take(0) =~= Seq::<FileChangeWithCodeowner>::empty());
    }
}

/// Adjusted credit: when no owner is credited twice by a commit, the weights
/// that the commit's credits carry, `owner_insertions / commit_insertions`
/// each, add up to one whenever the commit has insertions under some owner,
/// and every weight is zero otherwise (a commit without insertions weighs
/// nothing).
pub proof fn lemma_commit_weights(c: CommitInfoWithCodeowner)
    requires
        owners_disjoint(c.file_changes@),
    ensures
        sum_weights(changes_events(c, c.file_changes@)) == total_insertions(c.file_changes@),
        total_insertions(c.file_changes@) > 0 <==> exists|k: int| 0 <= k < c.file_changes@.len()
            && owners_of(#[trigger] c.file_changes@[k]).len() > 0 && c.file_changes@[k].insertions > 0,
        forall|i: int| 0 <= i < changes_events(c, c.file_changes@).len() ==>
            (#[trigger] changes_events(c, c.file_changes@)[i]).commit_insertions == total_insertions(c.file_changes@)
            && changes_events(c, c.file_changes@)[i].owner_insertions <= total_insertions(c.file_changes@),
{
    let chs = c.file_changes@;
    lemma_weights_prefix(c, chs.len() as int);
    assert(chs.take(chs.len() as int) =~= chs);
    lemma_events_of_commit(c, chs);
    lemma_total_positive(chs);
}

proof fn lemma_total_positive(chs: Seq<FileChangeWithCodeowner>)
    ensures
        total_insertions(chs) > 0 <==> exists|k: int| 0 <= k < chs.len()
            && owners_of(#[trigger] chs[k]).len() > 0 && chs[k].insertions > 0,
    decreases chs.len(),
{
    if chs.len() > 0 {
        let t = chs.drop_last();
        lemma_total_positive(t);
        let n = owners_of(chs.last()).len();
        let x = chs.last().insertions as nat;
        assert(n * x > 0 <==> n > 0 && x > 0) by (nonlinear_arith);
        if exists|k: int| 0 <= k < t.len() && owners_of(#[trigger] t[k]).len() > 0 && t[k].insertions > 0 {
            let k = choose|k: int| 0 <= k < t.len() && owners_of(#[trigger] t[k]).len() > 0 && t[k].insertions > 0;
            assert(chs[k] == t[k]);
        }
        if exists|k: int| 0 <= k < chs.len() && owners_of(#[trigger] chs[k]).len() > 0 && chs[k].insertions > 0 {
            let k = choose|k: int| 0 <= k < chs.len() && owners_of(#[trigger] chs[k]).len() > 0 && chs[k].insertions > 0;
            if k < t.len() {
                assert(t[k] == chs[k]);
            }
        }
    }
}

proof fn lemma_events_of_commit(c: CommitInfoWithCodeowner, chs: Seq<FileChangeWithCodeowner>)
    ensures
        forall|i: int| 0 <= i < changes_events(c, chs).len() ==>
            (#[trigger] changes_events(c, chs)[i]).commit_insertions == total_insertions(c.file_changes@)
            && changes_events(c, chs)[i].owner_insertions <= total_insertions(c.file_changes@),
    decreases chs.len(),
{
    if chs.len() > 0 {
        lemma_events_of_commit(c, chs.drop_last());
        let a = changes_events(c, chs.drop_last());
        let b = change_events(c, chs.last());
        assert forall|i: int| 0 <= i < (a + b).len() implies
            (#[trigger] (a + b)[i]).commit_insertions == total_insertions(c.file_changes@)
            && (a + b)[i].owner_insertions <= total_insertions(c.file_changes@) by {
            if i >= a.len() {
                lemma_owner_le_total(c.file_changes@, (a + b)[i].owner);
            }
        }
    }
}


/// Two different candidates are ranked one way or the other.
proof fn lemma_candidate_key(x: Ranked, y: Ranked, evs: Seq<OwnerEvent>, o: Seq<char>, team: bool, by_lines: bool)
    requires
        is_candidate(x, evs, o, team, by_lines),
        is_candidate(y, evs, o, team, by_lines),
        x != y,
    ensures
        ranks_before(x, y) || ranks_before(y, x),
{
    lemma_ranks_before_total(x, y);
}

/// In two top lists that agree before `p`, the entry at `p` of `a` cannot rank
/// before the entry at `p` of `b`.
proof fn lemma_top_not_before(a: Seq<Ranked>, b: Seq<Ranked>, evs: Seq<OwnerEvent>, o: Seq<char>, team: bool, by_lines: bool, p: int)
    requires
        is_top(a, evs, o, team, by_lines),
        is_top(b, evs, o, team, by_lines),
        0 <= p < a.len(),
        p < b.len(),
        forall|k: int| 0 <= k < p ==> a[k] == b[k],
    ensures
        !ranks_before(a[p], b[p]),
{
    let x = a[p];
    let y = b[p];
    if ranks_before(x, y) {
        assert(is_candidate(a[p], evs, o, team, by_lines));
        if b.contains(x) {
            let q = choose|q: int| 0 <= q < b.len() && b[q] == x;
            if q < p {
                assert(a[q] == x);
                assert(ranks_before(a[q], a[p]));
                lemma_ranks_before_irreflexive(x);
            } else if q == p {
                lemma_ranks_before_irreflexive(x);
            } else {
                assert(ranks_before(b[p], b[q]));
                lemma_ranks_before_asymmetric(x, y);
            }
        } else {
            assert(b.len() == TOP_N && ranks_before(b.last(), x));
            if p < b.len() - 1 {
                assert(ranks_before(b[p], b[b.len() - 1]));
                lemma_ranks_before_transitive(y, b.last(), x);
            }
            lemma_ranks_before_asymmetric(x, y);
        }
    }
}

proof fn lemma_top_step(a: Seq<Ranked>, b: Seq<Ranked>, evs: Seq<OwnerEvent>, o: Seq<char>, team: bool, by_lines: bool, p: int)
    requires
        is_top(a, evs, o, team, by_lines),
        is_top(b, evs, o, team, by_lines),
        0 <= p < a.len(),
        p <= b.len(),
        forall|k: int| 0 <= k < p ==> a[k] == b[k],
    ensures
        p < b.len(),
        a[p] == b[p],
{
    let x = a[p];
    assert(is_candidate(a[p], evs, o, team, by_lines));
    if p == b.len() {
        if b.contains(x) {
            let q = choose|q: int| 0 <= q < b.len() && b[q] == x;
            assert(a[q] == x);
            assert(ranks_before(a[q], a[p]));
            lemma_ranks_before_irreflexive(x);
        }
        assert(b.len() == TOP_N);
    } else {
        if a[p] != b[p] {
            assert(is_candidate(b[p], evs, o, team, by_lines));
            lemma_candidate_key(a[p], b[p], evs, o, team, by_lines);
            lemma_top_not_before(a, b, evs, o, team, by_lines, p);
            lemma_top_not_before(b, a, evs, o, team, by_lines, p);
        }
    }
}

proof fn lemma_top_prefix(a: Seq<Ranked>, b: Seq<Ranked>, evs: Seq<OwnerEvent>, o: Seq<char>, team: bool, by_lines: bool, p: int)
    requires
        is_top(a, evs, o, team, by_lines),
        is_top(b, evs, o, team, by_lines),
        0 <= p <= a.len(),
        p <= b.len(),
    ensures
        forall|k: int| 0 <= k < p ==> a[k] == b[k],
    decreases p,
{
    if p > 0 {
        lemma_top_prefix(a, b, evs, o, team, by_lines, p - 1);
        lemma_top_step(a, b, evs, o, team, by_lines, p - 1);
    }
}

/// A top list is determined by the credits alone: two lists that both meet
/// `is_top` for the same owner, side and measure are equal. So the rankings of
/// a report do not depend on the order in which contributors were met.
pub proof fn lemma_top_unique(a: Seq<Ranked>, b: Seq<Ranked>, evs: Seq<OwnerEvent>, o: Seq<char>, team: bool, by_lines: bool)
    requires
        is_top(a, evs, o, team, by_lines),
        is_top(b, evs, o, team, by_lines),
    ensures
        a == b,
{
    let m = if a.len() <= b.len() { a.len() as int } else { b.len() as int };
    lemma_top_prefix(a, b, evs, o, team, by_lines, m);
    if a.len() > m {
        lemma_top_step(a, b, evs, o, team, by_lines, m);
    }
    if b.len() > m {
        lemma_top_prefix(b, a, evs, o, team, by_lines, m);
        lemma_top_step(b, a, evs, o, team, by_lines, m);
    }
    assert(a =~= b);
}

/// The owners of a report are determined by the credits alone: two reports of
/// the same credits list the same owners in the same order.
pub proof fn lemma_report_owners_unique(r1: Seq<OwnerInfo>, r2: Seq<OwnerInfo>, evs: Seq<OwnerEvent>, adjusted: bool)
    requires
        owner_report(r1, evs, adjusted),
        owner_report(r2, evs, adjusted),
    ensures
        r1.len() == r2.len(),
        forall|i: int| 0 <= i < r1.len() ==> (#[trigger] r1[i]).owner@ == r2[i].owner@,
{
    lemma_owner_order_prefix(r1, r2, evs, adjusted, if r1.len() <= r2.len() { r1.len() as int } else { r2.len() as int });
    let m = if r1.len() <= r2.len() { r1.len() as int } else { r2.len() as int };
    if r1.len() > m {
        lemma_owner_order_step(r1, r2, evs, adjusted, m);
    }
    if r2.len() > m {
        lemma_owner_order_prefix(r2, r1, evs, adjusted, m);
        lemma_owner_order_step(r2, r1, evs, adjusted, m);
    }
}

proof fn lemma_owner_order_step(r1: Seq<OwnerInfo>, r2: Seq<OwnerInfo>, evs: Seq<OwnerEvent>, adjusted: bool, p: int)
    requires
        owner_report(r1, evs, adjusted),
        owner_report(r2, evs, adjusted),
        0 <= p < r1.len(),
        p <= r2.len(),
        forall|k: int| 0 <= k < p ==> (#[trigger] r1[k]).owner@ == r2[k].owner@,
    ensures
        p < r2.len(),
        r1[p].owner@ == r2[p].owner@,
{
    let x = r1[p].owner@;
    assert(owner_row_ok(r1[p], evs, adjusted));
    assert(has_owner(evs, x));
    let q = choose|q: int| 0 <= q < r2.len() && (#[trigger] r2[q]).owner@ == x;
    if q < p {
        assert(r1[q].owner@ == x);
        assert(text_lt(r1[q].owner@, r1[p].owner@));
        lemma_text_lt_irreflexive(x);
    }
    if q > p {
        let y = r2[p].owner@;
        assert(owner_row_ok(r2[p], evs, adjusted));
        let w = choose|w: int| 0 <= w < r1.len() && (#[trigger] r1[w]).owner@ == y;
        assert(text_lt(y, x));
        if w < p {
            assert(r2[w].owner@ == y);
            assert(text_lt(r2[w].owner@, r2[p].owner@));
            lemma_text_lt_irreflexive(y);
        } else if w == p {
            lemma_text_lt_irreflexive(x);
        } else {
            assert(text_lt(r1[p].owner@, r1[w].owner@));
            lemma_text_lt_asymmetric(x, y);
        }
    }
}

proof fn lemma_owner_order_prefix(r1: Seq<OwnerInfo>, r2: Seq<OwnerInfo>, evs: Seq<OwnerEvent>, adjusted: bool, p: int)
    requires
        owner_report(r1, evs, adjusted),
        owner_report(r2, evs, adjusted),
        0 <= p <= r1.len(),
        p <= r2.len(),
    ensures
        forall|k: int| 0 <= k < p ==> (#[trigger] r1[k]).owner@ == r2[k].owner@,
    decreases p,
{
    if p > 0 {
        lemma_owner_order_prefix(r1, r2, evs, adjusted, p - 1);
        lemma_owner_order_step(r1, r2, evs, adjusted, p - 1);
    }
}


/// A commit without insertions under any owner weighs nothing: every weight
/// its credits carry is 0 over 0, which counts as zero.
pub proof fn lemma_unowned_commit_weighs_nothing(c: CommitInfoWithCodeowner)
    requires
        forall|k: int| 0 <= k < c.file_changes@.len() ==>
            owners_of(#[trigger] c.file_changes@[k]).len() == 0 || c.file_changes@[k].insertions == 0,
    ensures
        forall|i: int| 0 <= i < changes_events(c, c.file_changes@).len() ==>
            (#[trigger] changes_events(c, c.file_changes@)[i]).owner_insertions == 0
            && changes_events(c, c.file_changes@)[i].commit_insertions == 0,
{
    lemma_total_positive(c.file_changes@);
    lemma_events_of_commit(c, c.file_changes@);
}

/// Two owner reports of the same credits are the same, row by row: owner,
/// every total, the adjusted weights and the four top lists.
pub proof fn lemma_owner_report_unique(r1: Seq<OwnerInfo>, r2: Seq<OwnerInfo>, evs: Seq<OwnerEvent>, adjusted: bool)
    requires
        owner_report(r1, evs, adjusted),
        owner_report(r2, evs, adjusted),
    ensures
        r1.len() == r2.len(),
        forall|i: int| 0 <= i < r1.len() ==> same_row(#[trigger] r1[i], r2[i]),
{
    lemma_report_owners_unique(r1, r2, evs, adjusted);
    assert forall|i: int| 0 <= i < r1.len() implies same_row(#[trigger] r1[i], r2[i]) by {
        let (a, b) = (r1[i], r2[i]);
        assert(owner_row_ok(a, evs, adjusted));
        assert(owner_row_ok(b, evs, adjusted));
        let o = a.owner@;
        lemma_top_unique(ranked_views(a.top_team_contributors_by_changes@), ranked_views(b.top_team_contributors_by_changes@), evs, o, true, true);
        lemma_top_unique(ranked_views(a.top_team_contributors_by_commits@), ranked_views(b.top_team_contributors_by_commits@), evs, o, true, false);
        lemma_top_unique(ranked_views(a.top_outside_contributors_by_changes@), ranked_views(b.top_outside_contributors_by_changes@), evs, o, false, true);
        lemma_top_unique(ranked_views(a.top_outside_contributors_by_commits@), ranked_views(b.top_outside_contributors_by_commits@), evs, o, false, false);
    }
}

/// Two rows say the same: same owner, totals, weights and top lists.
pub open spec fn same_row(a: OwnerInfo, b: OwnerInfo) -> bool {
    &&& a.owner@ == b.owner@
    &&& a.total_insertions_by_team == b.total_insertions_by_team
    &&& a.total_deletions_by_team == b.total_deletions_by_team
    &&& a.total_commits_by_team == b.total_commits_by_team
    &&& a.total_insertions_by_others == b.total_insertions_by_others
    &&& a.total_deletions_by_others == b.total_deletions_by_others
    &&& a.total_commits_by_others == b.total_commits_by_others
    &&& a.adjusted_changes_by_team == b.adjusted_changes_by_team
    &&& a.adjusted_changes_by_others == b.adjusted_changes_by_others
    &&& share_views(a.adjusted_commits_by_team@) == share_views(b.adjusted_commits_by_team@)
    &&& share_views(a.adjusted_commits_by_others@) == share_views(b.adjusted_commits_by_others@)
    &&& ranked_views(a.top_team_contributors_by_changes@) == ranked_views(b.top_team_contributors_by_changes@)
    &&& ranked_views(a.top_team_contributors_by_commits@) == ranked_views(b.top_team_contributors_by_commits@)
    &&& ranked_views(a.top_outside_contributors_by_changes@) == ranked_views(b.top_outside_contributors_by_changes@)
    &&& ranked_views(a.top_outside_contributors_by_commits@) == ranked_views(b.top_outside_contributors_by_commits@)
}

/// Insertions of a history's changes that name `o` among their owners,
/// counted once for every time they name it.
pub open spec fn named_insertions(cs: Seq<CommitInfoWithCodeowner>, o: Seq<char>) -> nat
    decreases cs.len(),
{
    if cs.len() == 0 {
        0
    } else {
        named_insertions(cs.drop_last(), o) + owner_insertions(cs.last().file_changes@, o)
    }
}

proof fn lemma_raw_concat(a: Seq<OwnerEvent>, b: Seq<OwnerEvent>, o: Seq<char>)
    ensures
        raw_insertions(a + b, o) == raw_insertions(a, o) + raw_insertions(b, o),
    decreases b.len(),
{
    if b.len() > 0 {
        assert((a + b).drop_last() =~= a + b.drop_last());
        lemma_raw_concat(a, b.drop_last(), o);
    } else {
        assert(a + b =~= a);
    }
}

proof fn lemma_raw_changes(c: CommitInfoWithCodeowner, chs: Seq<FileChangeWithCodeowner>, o: Seq<char>)
    ensures
        raw_insertions(changes_events(c, chs), o) == owner_insertions(chs, o),
    decreases chs.len(),
{
    if chs.len() > 0 {
        lemma_raw_changes(c, chs.drop_last(), o);
        lemma_raw_concat(changes_events(c, chs.drop_last()), change_events(c, chs.last()), o);
        lemma_raw_from_list(c, chs.last(), o);
    }
}

/// Full attribution over a history: the raw insertions credited to owner `o`
/// (team and others together), which is what a report row of `o` adds up,
/// are the insertions of every change naming `o`, each in full (once per
/// time it is named).
pub proof fn lemma_history_attribution(cs: Seq<CommitInfoWithCodeowner>, o: Seq<char>)
    ensures
        raw_insertions(owner_events(cs), o) == named_insertions(cs, o),
    decreases cs.len(),
{
    if cs.len() > 0 {
        lemma_history_attribution(cs.drop_last(), o);
        lemma_raw_concat(owner_events(cs.drop_last()), changes_events(cs.last(), cs.last().file_changes@), o);
        lemma_raw_changes(cs.last(), cs.last().file_changes@, o);
    }
}

/// Some change of the history names `o` among its owners.
pub open spec fn named_owner(cs: Seq<CommitInfoWithCodeowner>, o: Seq<char>) -> bool {
    exists|i: int, k: int| 0 <= i < cs.len() && 0 <= k < cs[i].file_changes@.len()
        && #[trigger] owners_of(cs[i].file_changes@[k]).contains(o)
}

proof fn lemma_has_owner_concat(a: Seq<OwnerEvent>, b: Seq<OwnerEvent>, o: Seq<char>)
    ensures
        has_owner(a + b, o) == (has_owner(a, o) || has_owner(b, o)),
{
    if has_owner(a + b, o) {
        let i = choose|i: int| 0 <= i < (a + b).len() && (#[trigger] (a + b)[i]).owner == o;
        if i < a.len() {
            assert(a[i] == (a + b)[i]);
        } else {
            assert(b[i - a.len()] == (a + b)[i]);
        }
    }
    if has_owner(a, o) {
        let i = choose|i: int| 0 <= i < a.len() && (#[trigger] a[i]).owner == o;
        assert((a + b)[i] == a[i]);
    }
    if has_owner(b, o) {
        let i = choose|i: int| 0 <= i < b.len() && (#[trigger] b[i]).owner == o;
        assert((a + b)[a.len() + i] == b[i]);
    }
}

proof fn lemma_has_owner_changes(c: CommitInfoWithCodeowner, chs: Seq<FileChangeWithCodeowner>, o: Seq<char>)
    ensures
        has_owner(changes_events(c, chs), o) == exists|k: int| 0 <= k < chs.len() && #[trigger] owners_of(chs[k]).contains(o),
    decreases chs.len(),
{
    if chs.len() > 0 {
        let t = chs.drop_last();
        lemma_has_owner_changes(c, t, o);
        lemma_has_owner_concat(changes_events(c, t), change_events(c, chs.last()), o);
        let ev = change_events(c, chs.last());
        if has_owner(ev, o) {
            let j = choose|j: int| 0 <= j < ev.len() && (#[trigger] ev[j]).owner == o;
            assert(owners_of(chs[chs.len() - 1])[j] == o);
            assert(owners_of(chs[chs.len() - 1]).contains(o));
        }
        if owners_of(chs.last()).contains(o) {
            let j = choose|j: int| 0 <= j < owners_of(chs.last()).len() && owners_of(chs.last())[j] == o;
            assert(ev[j].owner == o);
        }
        if exists|k: int| 0 <= k < t.len() && #[trigger] owners_of(t[k]).contains(o) {
            let k = choose|k: int| 0 <= k < t.len() && #[trigger] owners_of(t[k]).contains(o);
            assert(chs[k] == t[k]);
        }
        if exists|k: int| 0 <= k < chs.len() && #[trigger] owners_of(chs[k]).contains(o) {
            let k = choose|k: int| 0 <= k < chs.len() && #[trigger] owners_of(chs[k]).contains(o);
            if k < t.len() {
                assert(t[k] == chs[k]);
            }
        }
    }
}

/// The owners credited by a history, which are exactly the rows of its
/// owner report, are the owners that its changes name: a change without
/// owners makes no row.
pub proof fn lemma_report_owners_named(cs: Seq<CommitInfoWithCodeowner>, o: Seq<char>)
    ensures
        has_owner(owner_events(cs), o) == named_owner(cs, o),
    decreases cs.len(),
{
    if cs.len() > 0 {
        let t = cs.drop_last();
        lemma_report_owners_named(t, o);
        lemma_has_owner_concat(owner_events(t), changes_events(cs.last(), cs.last().file_changes@), o);
        lemma_has_owner_changes(cs.last(), cs.last().file_changes@, o);
        if named_owner(t, o) {
            let (i, k) = choose|i: int, k: int| 0 <= i < t.len() && 0 <= k < t[i].file_changes@.len()
                && #[trigger] owners_of(t[i].file_changes@[k]).contains(o);
            assert(cs[i] == t[i]);
        }
        if named_owner(cs, o) {
            let (i, k) = choose|i: int, k: int| 0 <= i < cs.len() && 0 <= k < cs[i].file_changes@.len()
                && #[trigger] owners_of(cs[i].file_changes@[k]).contains(o);
            if i < t.len() {
                assert(t[i] == cs[i]);
            } else {
                assert(cs.last() == cs[i]);
            }
        }
        let l = cs.last();
        if exists|k: int| 0 <= k < l.file_changes@.len() && #[trigger] owners_of(l.file_changes@[k]).contains(o) {
            let k = choose|k: int| 0 <= k < l.file_changes@.len() && #[trigger] owners_of(l.file_changes@[k]).contains(o);
            assert(cs[cs.len() - 1] == l);
        }
    }
}

} // verus!
