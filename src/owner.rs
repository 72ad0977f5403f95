//! Ownership of changed files, resolved commit by commit, and membership of
//! authors in owner groups.

use vstd::prelude::*;
use crate::commit::{ChangeModel, CommitAuthor, CommitInfo, CommitModel, FileChange};
use crate::pattern::{codeowners_text_ok, has_rule_lines, inspect_codeowners};
use crate::text::{chars_of, split_fields, split_on, split_words, views, words};

verus! {

/// A file change annotated with the owners of its path and whether its author
/// belongs to one of them.
#[derive(Clone, Debug)]
pub struct FileChangeWithCodeowner {
    pub path: String,
    /// `None` when no ownership rule matches the path.
    pub codeowners: Option<Vec<String>>,
    /// Whether the author belongs to any of the owners; `None` when no
    /// membership roster was given.
    pub author_is_codeowner: Option<bool>,
    /// For each owner, in the order of `codeowners`, whether the author
    /// belongs to it; `None` when no membership roster was given.
    pub author_in_owners: Option<Vec<bool>>,
    pub insertions: u32,
    pub deletions: u32,
}

#[derive(Clone, Debug)]
pub struct CommitInfoWithCodeowner {
    pub id: String,
    pub author: CommitAuthor,
    pub timestamp: i64,
    pub file_changes: Vec<FileChangeWithCodeowner>,
}

/// The owners of a change, in rule order; none for an unowned path.
pub open spec fn owners_of(ch: FileChangeWithCodeowner) -> Seq<Seq<char>> {
    match ch.codeowners {
        Some(v) => views(v@),
        None => Seq::empty(),
    }
}

/// The author of the change's commit is counted as a member of its `j`-th owner.
pub open spec fn team_for(ch: FileChangeWithCodeowner, j: int) -> bool {
    match ch.author_in_owners {
        Some(v) => 0 <= j < v@.len() && v@[j],
        None => false,
    }
}


// ---------------------------------------------------------------------------
// Where the ownership file lives.

/// The places an ownership file is looked for, in priority order.
pub open spec fn codeowners_paths() -> Seq<Seq<char>> {
    seq![".github/CODEOWNERS"@, "CODEOWNERS"@, "docs/CODEOWNERS"@]
}

/// The places an ownership file is looked for, in priority order.
pub fn codeowners_locations() -> (r: Vec<String>)
    ensures
        views(r@) == codeowners_paths(),
{
    let r = vec![String::from_str(".github/CODEOWNERS"), String::from_str("CODEOWNERS"), String::from_str("docs/CODEOWNERS")];
    proof {
        assert(views(r@) =~= codeowners_paths());
    }
    r
}

/// The content found at the first location, in priority order, where the
/// file exists; `contents[i]` is what was read at the `i`-th location.
pub open spec fn first_found(contents: Seq<Option<String>>) -> Option<String>
    decreases contents.len(),
{
    if contents.len() == 0 {
        None
    } else if contents[0] is Some {
        contents[0]
    } else {
        first_found(contents.drop_first())
    }
}

/// The ownership file of a commit, given what was read at each of
/// `codeowners_locations()` in turn: the first one that exists, if any.
pub fn get_codeowners_at_commit(contents: Vec<Option<String>>) -> (r: Option<String>)
    ensures
        r == first_found(contents@),
{
    let mut i: usize = 0;
    proof {
        assert(contents@.skip(0) =~= contents@);
    }
    while i < contents.len()
        invariant
            i <= contents@.len(),
            first_found(contents@) == first_found(contents@.skip(i as int)),
        decreases contents@.len() - i,
    {
        proof {
            assert(contents@.skip(i as int).drop_first() =~= contents@.skip(i + 1));
        }
        if contents[i].is_some() {
            return contents[i].clone();
        }
        i += 1;
    }
    proof {
        assert(contents@.skip(i as int) =~= Seq::<Option<String>>::empty());
    }
    None
}

/// The commit changes the ownership file at one of its locations.
pub open spec fn touches_codeowners(c: CommitModel) -> bool {
    exists|i: int| 0 <= i < c.changes.len() && codeowners_paths().contains(#[trigger] c.changes[i].path)
}

fn is_codeowners_path(path: &String, locations: &Vec<String>) -> (r: bool)
    requires
        views(locations@) == codeowners_paths(),
    ensures
        r == codeowners_paths().contains(path@),
{
    let mut i: usize = 0;
    while i < locations.len()
        invariant
            views(locations@) == codeowners_paths(),
            i <= locations@.len(),
            forall|k: int| 0 <= k < i ==> codeowners_paths()[k] != path@,
        decreases locations@.len() - i,
    {
        if locations[i] == *path {
            proof {
                assert(codeowners_paths()[i as int] == path@);
            }
            return true;
        }
        i += 1;
    }
    false
}

/// Whether the commit changes the ownership file.
pub fn codeowners_changed(commit: &CommitInfo) -> (r: bool)
    ensures
        r == touches_codeowners(commit@),
{
    let locations = codeowners_locations();
    let mut i: usize = 0;
    while i < commit.file_changes.len()
        invariant
            views(locations@) == codeowners_paths(),
            i <= commit.file_changes@.len(),
            forall|k: int| 0 <= k < i ==> !codeowners_paths().contains(#[trigger] commit@.changes[k].path),
        decreases commit.file_changes@.len() - i,
    {
        assert(commit@.changes[i as int] == commit.file_changes@[i as int]@);
        if is_codeowners_path(&commit.file_changes[i].path, &locations) {
            assert(codeowners_paths().contains(commit@.changes[i as int].path));
            return true;
        }
        i += 1;
    }
    false
}

// ---------------------------------------------------------------------------
// Ownership rules, parsed by the codeowners crate.

#[verifier::external_type_specification]
#[verifier::external_body]
pub struct ExOwners(codeowners::Owners);

/// The owners that parsed rules give each path that some rule matches
/// (the winning rule's owners, as strings).
pub uninterp spec fn owner_map(o: codeowners::Owners) -> Map<Seq<char>, Seq<Seq<char>>>;

/// The rules that the text of an ownership file parses to.
pub uninterp spec fn parsed_owner_map(text: Seq<char>) -> Map<Seq<char>, Seq<Seq<char>>>;

/// Relies on `codeowners::from_reader`: parses ownership rules from text. It
/// compiles each rule line's normalised pattern with `glob::Pattern::new` and
/// panics where that fails, which `codeowners_text_ok` rules out.
#[verifier::external_body]
fn parse_codeowners(text: &str) -> (r: codeowners::Owners)
    requires
        codeowners_text_ok(text@),
    ensures
        owner_map(r) == parsed_owner_map(text@),
{
    codeowners::from_reader(text.as_bytes())
}

/// Relies on `codeowners::Owners::of`: the owners of the last rule matching
/// `path`, shown as strings by `Owner`'s `Display`; `None` when no rule matches.
#[verifier::external_body]
fn owners_for_path(owners: &codeowners::Owners, path: &str) -> (r: Option<Vec<String>>)
    ensures
        match r {
            Some(v) => owner_map(*owners).contains_key(path@) && views(v@) == owner_map(*owners)[path@],
            None => !owner_map(*owners).contains_key(path@),
        },
{
    owners.of(path).map(|v| v.iter().map(|o| o.to_string()).collect())
}

// ---------------------------------------------------------------------------
// Membership of authors in owner groups.

/// One roster entry: an author, known by email, by name or both, belongs to
/// the owner group `codeowner`.
#[derive(Clone, Debug)]
pub struct AuthorCodeownerMemberships {
    pub author_email: Option<String>,
    pub author_name: Option<String>,
    pub codeowner: String,
}

/// What `str::to_lowercase` gives for a string.
pub uninterp spec fn lower_of(s: Seq<char>) -> Seq<char>;

/// Relies on `str::to_lowercase`: the lower-case form depends on the text alone.
#[verifier::external_body]
fn lowercase(s: &str) -> (r: String)
    ensures
        r@ == lower_of(s@),
{
    s.to_lowercase()
}

pub open spec fn same_ignoring_case(a: Option<String>, b: Seq<char>) -> bool {
    a is Some && lower_of(a->0@) == lower_of(b)
}

/// An author matches an entry when the emails or the names agree, ignoring case.
pub open spec fn entry_matches(m: AuthorCodeownerMemberships, name: Seq<char>, email: Seq<char>) -> bool {
    same_ignoring_case(m.author_email, email) || same_ignoring_case(m.author_name, name)
}

/// The roster counts the author as a member of `owner`.
pub open spec fn roster_member(roster: Seq<AuthorCodeownerMemberships>, name: Seq<char>, email: Seq<char>, owner: Seq<char>) -> bool {
    exists|i: int| 0 <= i < roster.len() && entry_matches(#[trigger] roster[i], name, email) && roster[i].codeowner@ == owner
}

impl AuthorCodeownerMemberships {
    /// Whether `author` is the one this entry names.
    pub fn author_matches(&self, author: &CommitAuthor) -> (r: bool)
        ensures
            r == entry_matches(*self, author.name@, author.email@),
    {
        let by_email = match &self.author_email {
            Some(e) => lowercase(e.as_str()) == lowercase(author.email.as_str()),
            None => false,
        };
        let by_name = match &self.author_name {
            Some(n) => lowercase(n.as_str()) == lowercase(author.name.as_str()),
            None => false,
        };
        by_email || by_name
    }
}

/// The roster names exactly this author (email and name both given, as
/// written) as a member of `owner`.
pub open spec fn lists_member(roster: Seq<AuthorCodeownerMemberships>, owner: Seq<char>, name: Seq<char>, email: Seq<char>) -> bool {
    exists|i: int| 0 <= i < roster.len() && listed_as(#[trigger] roster[i], owner, name, email)
}

pub open spec fn listed_as(m: AuthorCodeownerMemberships, owner: Seq<char>, name: Seq<char>, email: Seq<char>) -> bool {
    &&& m.codeowner@ == owner
    &&& m.author_email is Some && m.author_email->0@ == email
    &&& m.author_name is Some && m.author_name->0@ == name
}

/// Whether the roster names this author, by email and name as written, as a
/// member of `owner`.
pub fn roster_lists(memberships: &Vec<AuthorCodeownerMemberships>, owner: &String, name: &String, email: &String) -> (r: bool)
    ensures
        r == lists_member(memberships@, owner@, name@, email@),
{
    let mut i: usize = 0;
    while i < memberships.len()
        invariant
            i <= memberships@.len(),
            forall|k: int| 0 <= k < i ==> !listed_as(#[trigger] memberships@[k], owner@, name@, email@),
        decreases memberships@.len() - i,
    {
        let m = &memberships[i];
        if m.codeowner == *owner && opt_equals(&m.author_email, email) && opt_equals(&m.author_name, name) {
            return true;
        }
        i += 1;
    }
    false
}

/// A roster entry with its email and name in lower case.
struct LoweredEntry {
    email: Option<String>,
    name: Option<String>,
    codeowner: String,
}

spec fn lowered_opt(l: Option<String>, a: Option<String>) -> bool {
    match a {
        Some(x) => l is Some && l->0@ == lower_of(x@),
        None => l is None,
    }
}

spec fn lowered(l: LoweredEntry, m: AuthorCodeownerMemberships) -> bool {
    lowered_opt(l.email, m.author_email) && lowered_opt(l.name, m.author_name) && l.codeowner@ == m.codeowner@
}

/// The roster, ready for lookups.
pub struct AuthorMembership {
    entries: Vec<LoweredEntry>,
    roster: Ghost<Seq<AuthorCodeownerMemberships>>,
}

fn lower_opt(a: &Option<String>) -> (r: Option<String>)
    ensures
        lowered_opt(r, *a),
{
    match a {
        Some(x) => Some(lowercase(x.as_str())),
        None => None,
    }
}

fn opt_equals(l: &Option<String>, v: &String) -> (r: bool)
    ensures
        r == (l is Some && l->0@ == v@),
{
    match l {
        Some(x) => *x == *v,
        None => false,
    }
}

impl AuthorMembership {
    pub closed spec fn roster(&self) -> Seq<AuthorCodeownerMemberships> {
        self.roster@
    }

    pub closed spec fn wf(&self) -> bool {
        &&& self.entries@.len() == self.roster@.len()
        &&& forall|i: int| 0 <= i < self.entries@.len() ==> lowered(#[trigger] self.entries@[i], self.roster@[i])
    }

    pub fn new(memberships: &Vec<AuthorCodeownerMemberships>) -> (r: Self)
        ensures
            r.wf(),
            r.roster() == memberships@,
    {
        let mut entries: Vec<LoweredEntry> = Vec::new();
        let mut i: usize = 0;
        while i < memberships.len()
            invariant
                i <= memberships@.len(),
                entries@.len() == i,
                forall|k: int| 0 <= k < i ==> lowered(#[trigger] entries@[k], memberships@[k]),
            decreases memberships@.len() - i,
        {
            let m = &memberships[i];
            entries.push(LoweredEntry {
                email: lower_opt(&m.author_email),
                name: lower_opt(&m.author_name),
                codeowner: m.codeowner.clone(),
            });
            i += 1;
        }
        AuthorMembership { entries, roster: Ghost(memberships@) }
    }

    /// Whether the roster counts the author as a member of `codeowner`.
    pub fn is_codeowner(&self, author_name: &str, author_email: &str, codeowner: &String) -> (r: bool)
        requires
            self.wf(),
        ensures
            r == roster_member(self.roster(), author_name@, author_email@, codeowner@),
    {
        let name = lowercase(author_name);
        let email = lowercase(author_email);
        let mut i: usize = 0;
        while i < self.entries.len()
            invariant
                self.wf(),
                name@ == lower_of(author_name@),
                email@ == lower_of(author_email@),
                i <= self.entries@.len(),
                forall|k: int| 0 <= k < i ==> !(entry_matches(#[trigger] self.roster@[k], author_name@, author_email@)
                    && self.roster@[k].codeowner@ == codeowner@),
            decreases self.entries@.len() - i,
        {
            let e = &self.entries[i];
            assert(lowered(self.entries@[i as int], self.roster@[i as int]));
            let hit = (opt_equals(&e.email, &email) || opt_equals(&e.name, &name)) && e.codeowner == *codeowner;
            if hit {
                assert(entry_matches(self.roster@[i as int], author_name@, author_email@));
                return true;
            }
            i += 1;
        }
        false
    }
}

/// The author is a member of at least one of the owners.
pub open spec fn member_of_any(roster: Seq<AuthorCodeownerMemberships>, owners: Seq<Seq<char>>, name: Seq<char>, email: Seq<char>) -> bool {
    exists|j: int| 0 <= j < owners.len() && roster_member(roster, name, email, #[trigger] owners[j])
}

/// Whether the author belongs to any of `owners`.
pub fn is_author_codeowner(memberships: &AuthorMembership, owners: &Vec<String>, commit_author_name: &str, commit_author_email: &str) -> (r: bool)
    requires
        memberships.wf(),
    ensures
        r == member_of_any(memberships.roster(), views(owners@), commit_author_name@, commit_author_email@),
{
    let mut j: usize = 0;
    while j < owners.len()
        invariant
            memberships.wf(),
            j <= owners@.len(),
            forall|k: int| 0 <= k < j ==> !roster_member(memberships.roster(), commit_author_name@, commit_author_email@, #[trigger] views(owners@)[k]),
        decreases owners@.len() - j,
    {
        if memberships.is_codeowner(commit_author_name, commit_author_email, &owners[j]) {
            assert(views(owners@)[j as int] == owners@[j as int]@);
            return true;
        }
        assert(views(owners@)[j as int] == owners@[j as int]@);
        j += 1;
    }
    false
}


// ---------------------------------------------------------------------------
// Resolving owners commit by commit.

/// The ownership file's text could not be parsed.
#[derive(Clone, Copy, Debug, PartialEq, Eq, Structural)]
pub enum CodeownersError {
    UnsupportedPattern,
}

/// The rules must be (re)built before a commit is annotated: none are cached
/// yet, or the commit changes the ownership file.
pub open spec fn needs_refresh(has_rules: bool, c: CommitModel) -> bool {
    !has_rules || touches_codeowners(c)
}

/// `r` is change `ch` of a commit by (`name`, `email`), annotated with the
/// owners that `rules` give its path and, with a roster, whether the author
/// belongs to one of them.
pub open spec fn annotated_change(r: FileChangeWithCodeowner, ch: ChangeModel, rules: Map<Seq<char>, Seq<Seq<char>>>,
    roster: Option<Seq<AuthorCodeownerMemberships>>, name: Seq<char>, email: Seq<char>) -> bool {
    &&& r.path@ == ch.path
    &&& r.insertions == ch.insertions
    &&& r.deletions == ch.deletions
    &&& match r.codeowners {
        Some(v) => rules.contains_key(ch.path) && views(v@) == rules[ch.path],
        None => !rules.contains_key(ch.path),
    }
    &&& r.author_is_codeowner == match roster {
        Some(m) => Some(member_of_any(m, owners_of(r), name, email)),
        None => None,
    }
    &&& match (roster, r.author_in_owners) {
        (Some(m), Some(v)) => v@.len() == owners_of(r).len()
            && forall|j: int| 0 <= j < v@.len() ==> v@[j] == roster_member(m, name, email, #[trigger] owners_of(r)[j]),
        (None, None) => true,
        _ => false,
    }
}

pub open spec fn annotated_commit(r: CommitInfoWithCodeowner, c: CommitModel, rules: Map<Seq<char>, Seq<Seq<char>>>,
    roster: Option<Seq<AuthorCodeownerMemberships>>) -> bool {
    &&& r.id@ == c.id
    &&& r.timestamp == c.timestamp
    &&& r.author.name@ == c.author_name
    &&& r.author.email@ == c.author_email
    &&& r.file_changes@.len() == c.changes.len()
    &&& forall|i: int| 0 <= i < c.changes.len() ==>
        annotated_change(#[trigger] r.file_changes@[i], c.changes[i], rules, roster, c.author_name, c.author_email)
}

/// Annotates commits, taken in history order, with the owners of their
/// changes. The ownership rules are cached and rebuilt only for a commit that
/// changes the ownership file (and for the first one); the caller reads the
/// file when `needs_codeowners` says so and hands it to `set_codeowners`.
pub struct CommitsWithCodeownersIterator {
    memberships: Option<AuthorMembership>,
    loaded: bool,
    rules: Option<codeowners::Owners>,
    rules_text: Ghost<Seq<char>>,
}

/// For each owner in `owners`, whether the roster counts the author as a member of it.
fn owner_flags(m: &AuthorMembership, owners: &Vec<String>, name: &str, email: &str) -> (r: Vec<bool>)
    requires
        m.wf(),
    ensures
        r@.len() == owners@.len(),
        forall|j: int| 0 <= j < owners@.len() ==> r@[j] == roster_member(m.roster(), name@, email@, #[trigger] views(owners@)[j]),
{
    let mut flags: Vec<bool> = Vec::new();
    let mut j: usize = 0;
    while j < owners.len()
        invariant
            m.wf(),
            j <= owners@.len(),
            flags@.len() == j,
            forall|q: int| 0 <= q < j ==> flags@[q] == roster_member(m.roster(), name@, email@, #[trigger] views(owners@)[q]),
        decreases owners@.len() - j,
    {
        let f = m.is_codeowner(name, email, &owners[j]);
        assert(views(owners@)[j as int] == owners@[j as int]@);
        flags.push(f);
        j += 1;
    }
    flags
}

impl CommitsWithCodeownersIterator {
    /// Rules are in force (the ownership file was read at least once).
    pub closed spec fn has_rules(&self) -> bool {
        self.loaded
    }

    /// The owners that the rules in force give each path some rule matches.
    pub closed spec fn rules_map(&self) -> Map<Seq<char>, Seq<Seq<char>>> {
        match self.rules {
            Some(o) => parsed_owner_map(self.rules_text@),
            None => Map::empty(),
        }
    }

    pub closed spec fn roster(&self) -> Option<Seq<AuthorCodeownerMemberships>> {
        match self.memberships {
            Some(m) => Some(m.roster()),
            None => None,
        }
    }

    pub closed spec fn wf(&self) -> bool {
        &&& (self.memberships matches Some(m) ==> m.wf())
        &&& (self.rules matches Some(o) ==> owner_map(o) == parsed_owner_map(self.rules_text@))
    }

    pub fn new(memberships: Option<Vec<AuthorCodeownerMemberships>>) -> (r: Self)
        ensures
            r.wf(),
            !r.has_rules(),
            r.roster() == match memberships {
                Some(m) => Some(m@),
                None => None::<Seq<AuthorCodeownerMemberships>>,
            },
    {
        let m = match memberships {
            Some(v) => Some(AuthorMembership::new(&v)),
            None => None,
        };
        CommitsWithCodeownersIterator { memberships: m, loaded: false, rules: None, rules_text: Ghost(Seq::empty()) }
    }

    /// Whether the ownership file must be read at this commit before it is annotated.
    pub fn needs_codeowners(&self, commit: &CommitInfo) -> (r: bool)
        ensures
            r == needs_refresh(self.has_rules(), commit@),
    {
        !self.loaded || codeowners_changed(commit)
    }

    /// Rebuilds the rules from the ownership file read at the current commit.
    /// With no file (`None`), or a file without rules, no path has an owner.
    pub fn set_codeowners(&mut self, content: Option<String>) -> (r: Result<(), CodeownersError>)
        requires
            old(self).wf(),
        ensures
            final(self).wf(),
            final(self).roster() == old(self).roster(),
            ({
                let text = match content {
                    Some(t) => t@,
                    None => Seq::<char>::empty(),
                };
                if codeowners_text_ok(text) {
                    &&& r is Ok
                    &&& final(self).has_rules()
                    &&& final(self).rules_map() == if has_rule_lines(text) { parsed_owner_map(text) } else { Map::empty() }
                } else {
                    r == Err::<(), CodeownersError>(CodeownersError::UnsupportedPattern) && *final(self) == *old(self)
                }
            }),
    {
        let text = match content {
            Some(t) => t,
            None => String::new(),
        };
        let (ok, any) = inspect_codeowners(text.as_str());
        if !ok {
            return Err(CodeownersError::UnsupportedPattern);
        }
        if any {
            let owners = parse_codeowners(text.as_str());
            self.rules = Some(owners);
            self.rules_text = Ghost(text@);
        } else {
            self.rules = None;
        }
        self.loaded = true;
        Ok(())
    }

    /// The commit with each change annotated by the rules in force and the roster.
    pub fn annotate(&self, commit: CommitInfo) -> (r: CommitInfoWithCodeowner)
        requires
            self.wf(),
            self.has_rules(),
        ensures
            annotated_commit(r, commit@, self.rules_map(), self.roster()),
    {
        let ghost cm = commit@;
        let ghost rules = self.rules_map();
        let mut out: Vec<FileChangeWithCodeowner> = Vec::new();
        let mut i: usize = 0;
        while i < commit.file_changes.len()
            invariant
                cm == commit@,
                rules == self.rules_map(),
                self.wf(),
                i <= commit.file_changes@.len(),
                out@.len() == i,
                forall|k: int| 0 <= k < i ==> annotated_change(#[trigger] out@[k], cm.changes[k], rules, self.roster(), cm.author_name, cm.author_email),
            decreases commit.file_changes@.len() - i,
        {
            let fc = &commit.file_changes[i];
            assert(cm.changes[i as int] == fc@);
            let file_owners = match &self.rules {
                Some(o) => owners_for_path(o, fc.path.as_str()),
                None => None,
            };
            let (author_is_codeowner, author_in_owners) = match &self.memberships {
                Some(m) => match &file_owners {
                    Some(v) => {
                        let any = is_author_codeowner(m, v, commit.author.name.as_str(), commit.author.email.as_str());
                        let flags = owner_flags(m, v, commit.author.name.as_str(), commit.author.email.as_str());
                        (Some(any), Some(flags))
                    },
                    None => (Some(false), Some(Vec::new())),
                },
                None => (None, None),
            };
            let ch = FileChangeWithCodeowner {
                path: fc.path.clone(),
                codeowners: file_owners,
                author_is_codeowner,
                author_in_owners,
                insertions: fc.insertions,
                deletions: fc.deletions,
            };
            proof {
                if ch.codeowners is None && self.memberships is Some {
                    assert(owners_of(ch) =~= Seq::<Seq<char>>::empty());
                    assert(ch.author_in_owners->0@ =~= Seq::<bool>::empty());
                }
            }
            out.push(ch);
            i += 1;
        }
        CommitInfoWithCodeowner { id: commit.id, author: commit.author, timestamp: commit.timestamp, file_changes: out }
    }
}

/// Cache reuse: once rules are cached, over three commits of which only the
/// middle one changes the ownership file, the file is read again at the
/// middle commit only; the first and the third reuse the cached rules.
pub proof fn lemma_refresh_only_on_change(c1: CommitModel, c2: CommitModel, c3: CommitModel)
    requires
        !touches_codeowners(c1),
        touches_codeowners(c2),
        !touches_codeowners(c3),
    ensures
        !needs_refresh(true, c1),
        needs_refresh(true, c2),
        !needs_refresh(true, c3),
{
}


/// The owners named on one line of an ownership file: the words after the
/// pattern, on a line that is not a comment.
pub open spec fn line_owners(l: Seq<char>) -> Seq<Seq<char>> {
    if (l.len() > 0 && l[0] == '#') || words(l).len() == 0 {
        Seq::empty()
    } else {
        words(l).drop_first()
    }
}

pub open spec fn lines_owners(ls: Seq<Seq<char>>) -> Seq<Seq<char>>
    decreases ls.len(),
{
    if ls.len() == 0 {
        Seq::empty()
    } else {
        lines_owners(ls.drop_last()) + line_owners(ls.last())
    }
}

/// Every owner named by the rules of an ownership file's text, each once.
pub fn get_all_codeowners(text: &str) -> (r: Vec<String>)
    ensures
        forall|i: int, j: int| 0 <= i < j < r@.len() ==> r@[i]@ != r@[j]@,
        forall|x: Seq<char>| views(r@).contains(x) <==> lines_owners(split_on(text@, '\n')).contains(x),
{
    let lines = split_fields(text, '\n');
    let ghost ls = views(lines@);
    let mut out: Vec<String> = Vec::new();
    let mut i: usize = 0;
    proof {
        assert(ls.take(0) =~= Seq::<Seq<char>>::empty());
    }
    while i < lines.len()
        invariant
            ls == views(lines@),
            ls == split_on(text@, '\n'),
            i <= ls.len(),
            forall|a: int, b: int| 0 <= a < b < out@.len() ==> out@[a]@ != out@[b]@,
            forall|x: Seq<char>| views(out@).contains(x) <==> lines_owners(ls.take(i as int)).contains(x),
        decreases ls.len() - i,
    {
        let line = &lines[i];
        assert(ls[i as int] == line@);
        let ws = split_words(line.as_str());
        let cs = chars_of(line.as_str());
        let comment = cs.len() > 0 && cs[0] == '#';
        let ghost lo = line_owners(line@);
        let ghost before = lines_owners(ls.take(i as int));
        proof {
            assert(ls.take(i + 1).drop_last() =~= ls.take(i as int));
            assert(ls.take(i + 1).last() == line@);
        }
        if !comment && ws.len() > 0 {
            assert(lo =~= views(ws@).drop_first());
            let mut j: usize = 1;
            while j < ws.len()
                invariant
                    lo == views(ws@).drop_first(),
                    1 <= j <= ws@.len(),
                    forall|a: int, b: int| 0 <= a < b < out@.len() ==> out@[a]@ != out@[b]@,
                    forall|x: Seq<char>| views(out@).contains(x) <==> (before + lo.take(j - 1)).contains(x),
                decreases ws@.len() - j,
            {
                let mut k: usize = 0;
                let mut seen = false;
                while k < out.len()
                    invariant
                        1 <= j < ws@.len(),
                        k <= out@.len(),
                        seen ==> views(out@).contains(ws@[j as int]@),
                        !seen ==> forall|q: int| 0 <= q < k ==> out@[q]@ != ws@[j as int]@,
                    decreases out@.len() - k,
                {
                    if out[k] == ws[j] {
                        assert(views(out@)[k as int] == ws@[j as int]@);
                        seen = true;
                    }
                    k += 1;
                }
                let ghost x = ws@[j as int]@;
                let ghost pre = before + lo.take(j - 1);
                let ghost cur = before + lo.take(j as int);
                proof {
                    assert(lo.take(j as int) =~= lo.take(j - 1).push(x));
                    assert(cur =~= pre.push(x));
                }
                if !seen {
                    let ghost old_out = out@;
                    out.push(ws[j].clone());
                    proof {
                        assert(views(out@) =~= views(old_out).push(x));
                        assert forall|y: Seq<char>| views(out@).contains(y) <==> cur.contains(y) by {
                            if views(out@).contains(y) && y != x {
                                let q = choose|q: int| 0 <= q < views(out@).len() && views(out@)[q] == y;
                                assert(views(old_out)[q] == y);
                                assert(views(old_out).contains(y));
                                assert(pre.contains(y));
                                let q2 = choose|q2: int| 0 <= q2 < pre.len() && pre[q2] == y;
                                assert(cur[q2] == y);
                            }
                            if cur.contains(y) && y != x {
                                let q = choose|q: int| 0 <= q < cur.len() && cur[q] == y;
                                assert(pre[q] == y);
                                assert(views(old_out).contains(y));
                                let w = choose|w: int| 0 <= w < views(old_out).len() && views(old_out)[w] == y;
                                assert(views(out@)[w] == y);
                            }
                            if y == x {
                                assert(views(out@)[old_out.len() as int] == x);
                                assert(cur[cur.len() - 1] == x);
                            }
                        }
                        assert forall|a: int, b: int| 0 <= a < b < out@.len() implies out@[a]@ != out@[b]@ by {
                            if b == old_out.len() {
                                assert(out@[a] == old_out[a]);
                            }
                        }
                    }
                } else {
                    proof {
                        assert forall|y: Seq<char>| views(out@).contains(y) <==> cur.contains(y) by {
                            if cur.contains(y) && y != x {
                                let q = choose|q: int| 0 <= q < cur.len() && cur[q] == y;
                                assert(pre[q] == y);
                            }
                            if y == x {
                                assert(cur[cur.len() - 1] == x);
                            }
                            if views(out@).contains(y) {
                                assert(pre.contains(y));
                                let q = choose|q: int| 0 <= q < pre.len() && pre[q] == y;
                                assert(cur[q] == y);
                            }
                        }
                    }
                }
                j += 1;
            }
            proof {
                assert(lo.take(j - 1) =~= lo);
            }
        } else {
            proof {
                assert(lo =~= Seq::<Seq<char>>::empty());
                assert(before + lo =~= before);
            }
        }
        proof {
            assert(lines_owners(ls.take(i + 1)) == before + lo);
        }
        i += 1;
    }
    proof {
        assert(ls.take(i as int) =~= ls);
    }
    out
}

} // verus!
