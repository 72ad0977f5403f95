//! Commit records and the parser of a line-oriented history export.
//!
//! The export is a sequence of blocks. Each block is a `COMMIT` line, four
//! lines of metadata (id, Unix timestamp, author name, author email), an
//! optional blank line, then one `insertions<TAB>deletions<TAB>path` line per
//! changed file, up to the next `COMMIT` line or the end of the input.

use vstd::prelude::*;
use crate::text::{
    blank, chars_equal, is_blank, parse_i64, parse_u32, spec_parse_i64, spec_parse_u32, split_fields,
    split_on, views,
};

verus! {

#[derive(Clone, Debug)]
pub struct CommitAuthor {
    pub name: String,
    pub email: String,
}

#[derive(Clone, Debug)]
pub struct FileChange {
    pub path: String,
    pub insertions: u32,
    pub deletions: u32,
}

#[derive(Clone, Debug)]
pub struct CommitInfo {
    pub id: String,
    pub timestamp: i64,
    pub author: CommitAuthor,
    pub file_changes: Vec<FileChange>,
}

/// A file change as plain values.
pub struct ChangeModel {
    pub path: Seq<char>,
    pub insertions: u32,
    pub deletions: u32,
}

/// A commit as plain values.
pub struct CommitModel {
    pub id: Seq<char>,
    pub timestamp: i64,
    pub author_name: Seq<char>,
    pub author_email: Seq<char>,
    pub changes: Seq<ChangeModel>,
}

impl View for FileChange {
    type V = ChangeModel;

    open spec fn view(&self) -> ChangeModel {
        ChangeModel { path: self.path@, insertions: self.insertions, deletions: self.deletions }
    }
}

impl View for CommitInfo {
    type V = CommitModel;

    open spec fn view(&self) -> CommitModel {
        CommitModel {
            id: self.id@,
            timestamp: self.timestamp,
            author_name: self.author.name@,
            author_email: self.author.email@,
            changes: self.file_changes@.map_values(|c: FileChange| c@),
        }
    }
}

/// Why a history export could not be read; `line` is the 0-based index of the
/// offending line (for a block cut short, that of its `COMMIT` line).
#[derive(Clone, Copy, Debug, PartialEq, Eq, Structural)]
pub enum CommitParseError {
    ExpectedCommit { line: usize },
    IncompleteCommitInfo { line: usize },
    InvalidTimestamp { line: usize },
    ExpectedEmptyLine { line: usize },
    InvalidFileChange { line: usize },
}

/// The line that opens each block.
pub open spec fn is_marker(l: Seq<char>) -> bool {
    l == seq!['C', 'O', 'M', 'M', 'I', 'T']
}

/// A change line: numbers that do not parse (`-` for a binary file) count as zero.
pub open spec fn change_of_line(l: Seq<char>) -> ChangeModel {
    let f = split_on(l, '\t');
    ChangeModel {
        path: f[2],
        insertions: match spec_parse_u32(f[0]) { Some(x) => x, None => 0 },
        deletions: match spec_parse_u32(f[1]) { Some(x) => x, None => 0 },
    }
}

/// Scans change lines from `j`: the index where the block ends (the next
/// marker or the end of input) and, if one comes first, the first line that
/// does not have three tab-separated fields.
pub open spec fn scan_changes(lines: Seq<Seq<char>>, j: int) -> (int, bool)
    decreases lines.len() - j,
{
    if j >= lines.len() || j < 0 || is_marker(lines[j]) {
        (j, false)
    } else if split_on(lines[j], '\t').len() != 3 {
        (j, true)
    } else {
        scan_changes(lines, j + 1)
    }
}

/// The next block of `lines` from `pos`: nothing at the end of input, else the
/// commit and the index after its block, or the error that ends the sequence.
pub open spec fn spec_next_commit(lines: Seq<Seq<char>>, pos: int) -> Option<Result<(CommitModel, int), CommitParseError>> {
    if pos >= lines.len() {
        None
    } else if !is_marker(lines[pos]) {
        Some(Err(CommitParseError::ExpectedCommit { line: pos as usize }))
    } else if pos + 5 > lines.len() {
        Some(Err(CommitParseError::IncompleteCommitInfo { line: pos as usize }))
    } else if spec_parse_i64(lines[pos + 2]) is None {
        Some(Err(CommitParseError::InvalidTimestamp { line: (pos + 2) as usize }))
    } else if pos + 5 < lines.len() && !is_blank(lines[pos + 5]) {
        Some(Err(CommitParseError::ExpectedEmptyLine { line: (pos + 5) as usize }))
    } else {
        let start = if pos + 5 < lines.len() { pos + 6 } else { pos + 5 };
        let (end, bad) = scan_changes(lines, start);
        if bad {
            Some(Err(CommitParseError::InvalidFileChange { line: end as usize }))
        } else {
            Some(Ok((CommitModel {
                id: lines[pos + 1],
                timestamp: spec_parse_i64(lines[pos + 2])->0,
                author_name: lines[pos + 3],
                author_email: lines[pos + 4],
                changes: Seq::new((end - start) as nat, |k: int| change_of_line(lines[start + k])),
            }, end)))
        }
    }
}

/// A single-pass reader of commits from the lines of a history export; the
/// lines come without their terminators. An error ends the sequence.
pub struct CommitIterator {
    lines: Vec<String>,
    pos: usize,
    failed: bool,
}

impl CommitIterator {
    pub closed spec fn lines(&self) -> Seq<Seq<char>> {
        views(self.lines@)
    }

    pub closed spec fn pos(&self) -> int {
        self.pos as int
    }

    pub closed spec fn failed(&self) -> bool {
        self.failed
    }

    pub closed spec fn wf(&self) -> bool {
        self.pos <= self.lines@.len()
    }

    pub fn new(lines: Vec<String>) -> (r: Self)
        ensures
            r.wf(),
            r.lines() == views(lines@),
            r.pos() == 0,
            !r.failed(),
    {
        CommitIterator { lines, pos: 0, failed: false }
    }

    /// The next commit, or the error that ends the sequence, or `None` at the end.
    pub fn next(&mut self) -> (r: Option<Result<CommitInfo, CommitParseError>>)
        requires
            old(self).wf(),
        ensures
            final(self).wf(),
            final(self).lines() == old(self).lines(),
            old(self).failed() ==> r is None && *final(self) == *old(self),
            !old(self).failed() ==> match spec_next_commit(old(self).lines(), old(self).pos()) {
                None => r is None && *final(self) == *old(self),
                Some(Err(e)) => r == Some(Err::<CommitInfo, CommitParseError>(e)) && final(self).failed(),
                Some(Ok((c, end))) => r matches Some(Ok(ci)) && ci@ == c
                    && final(self).pos() == end && !final(self).failed(),
            },
    {
        if self.failed || self.pos >= self.lines.len() {
            return None;
        }
        let r = parse_block(&self.lines, self.pos);
        match r {
            Ok((c, end)) => {
                self.pos = end;
                Some(Ok(c))
            },
            Err(e) => {
                self.failed = true;
                Some(Err(e))
            },
        }
    }
}

/// A reader over the lines of a history export.
pub fn parse_commit(lines: Vec<String>) -> (r: CommitIterator)
    ensures
        r.wf(),
        r.lines() == views(lines@),
        r.pos() == 0,
        !r.failed(),
{
    CommitIterator::new(lines)
}

fn commit_marker() -> (r: Vec<char>)
    ensures
        is_marker(r@),
{
    let r = vec!['C', 'O', 'M', 'M', 'I', 'T'];
    proof {
        assert(r@ =~= seq!['C', 'O', 'M', 'M', 'I', 'T']);
    }
    r
}

/// Parses the block that starts at `pos`.
fn parse_block(lines: &Vec<String>, pos: usize) -> (r: Result<(CommitInfo, usize), CommitParseError>)
    requires
        pos < lines@.len(),
    ensures
        match spec_next_commit(views(lines@), pos as int) {
            Some(Ok((c, end))) => r matches Ok((ci, e)) && ci@ == c && e == end && end <= lines@.len(),
            Some(Err(e)) => r == Err::<(CommitInfo, usize), CommitParseError>(e),
            None => false,
        },
{
    let ghost ls = views(lines@);
    let n = lines.len();
    assert(ls[pos as int] == lines@[pos as int]@);
    let marker = commit_marker();
    if !chars_equal(lines[pos].as_str(), &marker) {
        return Err(CommitParseError::ExpectedCommit { line: pos });
    }
    if n - pos < 5 {
        return Err(CommitParseError::IncompleteCommitInfo { line: pos });
    }
    assert(ls[pos + 2] == lines@[pos + 2]@);
    let timestamp = match parse_i64(lines[pos + 2].as_str()) {
        Some(t) => t,
        None => {
            return Err(CommitParseError::InvalidTimestamp { line: pos + 2 });
        },
    };
    let mut j: usize = pos + 5;
    if j < n {
        assert(ls[j as int] == lines@[j as int]@);
        if !blank(lines[j].as_str()) {
            return Err(CommitParseError::ExpectedEmptyLine { line: j });
        }
        j = j + 1;
    }
    let ghost start = j as int;
    let mut changes: Vec<FileChange> = Vec::new();
    while j < n
        invariant
            ls == views(lines@),
            n == lines@.len(),
            pos < start <= j <= n,
            is_marker(marker@),
            is_marker(ls[pos as int]),
            pos + 5 <= n,
            spec_parse_i64(ls[pos + 2]) == Some(timestamp),
            pos + 5 < n ==> is_blank(ls[pos + 5]),
            start == (if pos + 5 < n { pos + 6 } else { pos + 5 }),
            scan_changes(ls, start) == scan_changes(ls, j as int),
            forall|k: int| start <= k < j ==> !is_marker(#[trigger] ls[k]) && split_on(ls[k], '\t').len() == 3,
            changes@.len() == j - start,
            forall|k: int| 0 <= k < changes@.len() ==> (#[trigger] changes@[k])@ == change_of_line(ls[start + k]),
        ensures
            j >= n || is_marker(ls[j as int]),
            pos < start <= j <= n,
            scan_changes(ls, start) == scan_changes(ls, j as int),
            changes@.len() == j - start,
            forall|k: int| 0 <= k < changes@.len() ==> (#[trigger] changes@[k])@ == change_of_line(ls[start + k]),
            is_marker(ls[pos as int]),
            pos + 5 <= n,
            spec_parse_i64(ls[pos + 2]) == Some(timestamp),
            pos + 5 < n ==> is_blank(ls[pos + 5]),
            start == (if pos + 5 < n { pos + 6 } else { pos + 5 }),
        decreases n - j,
    {
        assert(ls[j as int] == lines@[j as int]@);
        if chars_equal(lines[j].as_str(), &marker) {
            break;
        }
        let fields = split_fields(lines[j].as_str(), '\t');
        if fields.len() != 3 {
            return Err(CommitParseError::InvalidFileChange { line: j });
        }
        assert(split_on(ls[j as int], '\t')[0] == fields@[0]@);
        assert(split_on(ls[j as int], '\t')[1] == fields@[1]@);
        assert(split_on(ls[j as int], '\t')[2] == fields@[2]@);
        let insertions = match parse_u32(fields[0].as_str()) { Some(x) => x, None => 0 };
        let deletions = match parse_u32(fields[1].as_str()) { Some(x) => x, None => 0 };
        let path = fields[2].clone();
        changes.push(FileChange { path, insertions, deletions });
        j = j + 1;
    }
    proof {
        assert(scan_changes(ls, j as int) == (j as int, false));
        assert(ls[pos + 1] == lines@[pos + 1]@);
        assert(ls[pos + 3] == lines@[pos + 3]@);
        assert(ls[pos + 4] == lines@[pos + 4]@);
        let cm = Seq::new((j - start) as nat, |k: int| change_of_line(ls[start + k]));
        assert(changes@.map_values(|c: FileChange| c@) =~= cm);
    }
    let info = CommitInfo {
        id: lines[pos + 1].clone(),
        timestamp,
        author: CommitAuthor { name: lines[pos + 3].clone(), email: lines[pos + 4].clone() },
        file_changes: changes,
    };
    Ok((info, j))
}


/// The error with its line moved `by` lines further.
pub open spec fn shifted_error(e: CommitParseError, by: int) -> CommitParseError {
    match e {
        CommitParseError::ExpectedCommit { line } => CommitParseError::ExpectedCommit { line: (line + by) as usize },
        CommitParseError::IncompleteCommitInfo { line } => CommitParseError::IncompleteCommitInfo { line: (line + by) as usize },
        CommitParseError::InvalidTimestamp { line } => CommitParseError::InvalidTimestamp { line: (line + by) as usize },
        CommitParseError::ExpectedEmptyLine { line } => CommitParseError::ExpectedEmptyLine { line: (line + by) as usize },
        CommitParseError::InvalidFileChange { line } => CommitParseError::InvalidFileChange { line: (line + by) as usize },
    }
}

/// An outcome of `spec_next_commit` on a block's own lines, moved `by` lines further.
pub open spec fn shifted(r: Option<Result<(CommitModel, int), CommitParseError>>, by: int) -> Option<Result<(CommitModel, int), CommitParseError>> {
    match r {
        None => None,
        Some(Err(e)) => Some(Err(shifted_error(e, by))),
        Some(Ok((c, end))) => Some(Ok((c, end + by))),
    }
}

/// The lines `b`, read from the start of a block, already settle its outcome,
/// whatever follows them: an error shows in them, or its change lines end at
/// the next `COMMIT` line.
pub open spec fn settled(b: Seq<Seq<char>>) -> bool {
    &&& b.len() >= 1
    &&& {
        ||| !is_marker(b[0])
        ||| (b.len() >= 5 && spec_parse_i64(b[2]) is None)
        ||| (b.len() >= 6 && !is_blank(b[5]))
        ||| (b.len() >= 7 && scan_changes(b, 6).0 < b.len())
    }
}

proof fn lemma_scan_bounds(lines: Seq<Seq<char>>, j: int)
    requires
        0 <= j <= lines.len(),
    ensures
        j <= scan_changes(lines, j).0 <= lines.len(),
        scan_changes(lines, j).1 ==> scan_changes(lines, j).0 < lines.len(),
    decreases lines.len() - j,
{
    if j < lines.len() && !is_marker(lines[j]) && split_on(lines[j], '\t').len() == 3 {
        lemma_scan_bounds(lines, j + 1);
    }
}

proof fn lemma_scan_local(all: Seq<Seq<char>>, s: int, n: int, j: int)
    requires
        0 <= s,
        1 <= n,
        s + n <= all.len(),
        0 <= j <= n,
        scan_changes(all.subrange(s, s + n), j).0 < n || s + n == all.len(),
    ensures
        scan_changes(all, s + j) == (scan_changes(all.subrange(s, s + n), j).0 + s, scan_changes(all.subrange(s, s + n), j).1),
    decreases n - j,
{
    let b = all.subrange(s, s + n);
    if j < n {
        assert(b[j] == all[s + j]);
        if !is_marker(b[j]) && split_on(b[j], '\t').len() == 3 {
            lemma_scan_local(all, s, n, j + 1);
        }
    }
}

/// A settled block, or the last one, reads the same in the whole input as on its own.
pub proof fn lemma_next_commit_local(all: Seq<Seq<char>>, s: int, n: int)
    requires
        0 <= s,
        1 <= n,
        s + n <= all.len(),
        all.len() < usize::MAX,
        settled(all.subrange(s, s + n)) || s + n == all.len(),
    ensures
        spec_next_commit(all, s) == shifted(spec_next_commit(all.subrange(s, s + n), 0), s),
{
    let b = all.subrange(s, s + n);
    assert(b[0] == all[s]);
    if is_marker(b[0]) && n >= 5 {
        assert(b[2] == all[s + 2]);
        assert(b[1] == all[s + 1]);
        assert(b[3] == all[s + 3]);
        assert(b[4] == all[s + 4]);
        if n >= 6 {
            assert(b[5] == all[s + 5]);
        }
        if spec_parse_i64(b[2]) is Some && (n < 6 || is_blank(b[5])) {
            let start = if 5 < n { 6int } else { 5int };
            lemma_scan_local(all, s, n, start);
            let (end, bad) = scan_changes(b, start);
            lemma_scan_bounds(b, start);
            if !bad {
                let x = Seq::new((end - start) as nat, |k: int| change_of_line(b[start + k]));
                let y = Seq::new((end + s - (start + s)) as nat, |k: int| change_of_line(all[start + s + k]));
                assert forall|k: int| 0 <= k < x.len() implies x[k] == y[k] by {
                    assert(b[start + k] == all[s + (start + k)]);
                }
                assert(x =~= y);
            }
        }
    }
}


/// Scanning a block that gained one line goes on where the shorter one ended.
proof fn lemma_scan_extend(b: Seq<Seq<char>>, j: int)
    requires
        b.len() >= 1,
        0 <= j <= b.len() - 1,
        scan_changes(b.drop_last(), j) == (b.len() - 1, false),
    ensures
        scan_changes(b, j) == scan_changes(b, b.len() - 1),
    decreases b.len() - j,
{
    let p = b.drop_last();
    if j < b.len() - 1 {
        assert(p[j] == b[j]);
        lemma_scan_extend(b, j + 1);
    }
}

fn shift_error(e: CommitParseError, by: usize) -> (r: CommitParseError)
    requires
        match e {
            CommitParseError::ExpectedCommit { line } => line + by <= usize::MAX,
            CommitParseError::IncompleteCommitInfo { line } => line + by <= usize::MAX,
            CommitParseError::InvalidTimestamp { line } => line + by <= usize::MAX,
            CommitParseError::ExpectedEmptyLine { line } => line + by <= usize::MAX,
            CommitParseError::InvalidFileChange { line } => line + by <= usize::MAX,
        },
    ensures
        r == shifted_error(e, by as int),
{
    match e {
        CommitParseError::ExpectedCommit { line } => CommitParseError::ExpectedCommit { line: line + by },
        CommitParseError::IncompleteCommitInfo { line } => CommitParseError::IncompleteCommitInfo { line: line + by },
        CommitParseError::InvalidTimestamp { line } => CommitParseError::InvalidTimestamp { line: line + by },
        CommitParseError::ExpectedEmptyLine { line } => CommitParseError::ExpectedEmptyLine { line: line + by },
        CommitParseError::InvalidFileChange { line } => CommitParseError::InvalidFileChange { line: line + by },
    }
}

proof fn lemma_error_line_bound(b: Seq<Seq<char>>, e: CommitParseError)
    requires
        b.len() >= 1,
        spec_next_commit(b, 0) == Some(Err::<(CommitModel, int), CommitParseError>(e)),
    ensures
        match e {
            CommitParseError::ExpectedCommit { line } => line < b.len(),
            CommitParseError::IncompleteCommitInfo { line } => line < b.len(),
            CommitParseError::InvalidTimestamp { line } => line < b.len(),
            CommitParseError::ExpectedEmptyLine { line } => line < b.len(),
            CommitParseError::InvalidFileChange { line } => line < b.len(),
        },
{
    if is_marker(b[0]) && b.len() >= 5 && spec_parse_i64(b[2]) is Some && !(b.len() > 5 && !is_blank(b[5])) {
        let start = if 5 < b.len() { 6int } else { 5int };
        lemma_scan_bounds(b, start);
    }
}

/// A reader of the history export fed one line at a time, so that the export
/// is never held whole: a commit comes out as soon as the line after its
/// block (or the end of input) shows where the block ends. An error ends the
/// sequence.
pub struct CommitStream {
    buf: Vec<String>,
    start: usize,
    count: usize,
    failed: bool,
    seen: Ghost<Seq<Seq<char>>>,
}

impl CommitStream {
    /// Every line fed so far.
    pub closed spec fn lines(&self) -> Seq<Seq<char>> {
        self.seen@
    }

    /// Where the next block starts.
    pub closed spec fn pos(&self) -> int {
        self.start as int
    }

    pub closed spec fn failed(&self) -> bool {
        self.failed
    }

    pub closed spec fn wf(&self) -> bool {
        &&& self.seen@.len() < usize::MAX
        &&& self.count == self.seen@.len()
        &&& self.start <= self.seen@.len()
        &&& !self.failed ==> {
            &&& self.start + self.buf@.len() == self.seen@.len()
            &&& views(self.buf@) == self.seen@.subrange(self.start as int, self.seen@.len() as int)
            &&& !settled(views(self.buf@))
        }
    }

    pub fn new() -> (r: Self)
        ensures
            r.wf(),
            r.lines() == Seq::<Seq<char>>::empty(),
            r.pos() == 0,
            !r.failed(),
    {
        let r = CommitStream { buf: Vec::new(), start: 0, count: 0, failed: false, seen: Ghost(Seq::empty()) };
        proof {
            assert(views(r.buf@) =~= Seq::<Seq<char>>::empty());
            assert(r.seen@.subrange(0, 0) =~= Seq::<Seq<char>>::empty());
        }
        r
    }

    /// How many lines were fed.
    pub fn lines_read(&self) -> (r: usize)
        requires
            self.wf(),
        ensures
            r == self.lines().len(),
    {
        self.count
    }

    /// Feeds the next line. A commit, or the error that ends the sequence,
    /// comes out once these lines settle it, whatever lines follow.
    pub fn push_line(&mut self, line: String) -> (r: Option<Result<CommitInfo, CommitParseError>>)
        requires
            old(self).wf(),
            old(self).lines().len() + 1 < usize::MAX,
        ensures
            final(self).wf(),
            final(self).lines() == old(self).lines().push(line@),
            old(self).failed() ==> r is None && final(self).failed(),
            !old(self).failed() ==> (r is Some <==> settled(final(self).lines().subrange(old(self).pos(), final(self).lines().len() as int))),
            !old(self).failed() ==> match r {
                None => !final(self).failed() && final(self).pos() == old(self).pos(),
                Some(res) => forall|all: Seq<Seq<char>>|
                    #![trigger spec_next_commit(all, old(self).pos())]
                    all.len() < usize::MAX && final(self).lines().len() <= all.len()
                    && all.subrange(0, final(self).lines().len() as int) == final(self).lines() ==> match res {
                        Ok(ci) => spec_next_commit(all, old(self).pos()) == Some(Ok::<(CommitModel, int), CommitParseError>((ci@, final(self).pos())))
                            && !final(self).failed(),
                        Err(e) => spec_next_commit(all, old(self).pos()) == Some(Err::<(CommitModel, int), CommitParseError>(e))
                            && final(self).failed(),
                    },
            },
    {
        let ghost old_seen = self.seen@;
        self.seen = Ghost(self.seen@.push(line@));
        self.count = self.count + 1;
        if self.failed {
            return None;
        }
        let ghost before = views(self.buf@);
        self.buf.push(line);
        let ghost b = views(self.buf@);
        let ghost s0 = self.start as int;
        proof {
            assert(b =~= before.push(line@));
            assert(b.drop_last() =~= before);
            assert(b =~= self.seen@.subrange(s0, self.seen@.len() as int));
        }
        let n = self.buf.len();
        let now = if n == 1 {
            !chars_equal(self.buf[0].as_str(), &commit_marker())
        } else if n < 5 {
            false
        } else if n == 5 {
            parse_i64(self.buf[2].as_str()).is_none()
        } else if n == 6 {
            !blank(self.buf[5].as_str())
        } else {
            let last = self.buf[n - 1].as_str();
            chars_equal(last, &commit_marker()) || split_fields(last, '\t').len() != 3
        };
        proof {
            assert(b[0] == self.buf@[0]@);
            if n >= 3 {
                assert(b[2] == self.buf@[2]@);
            }
            if n >= 4 {
                assert(before[2] == b[2]);
            }
            if n >= 6 {
                assert(b[5] == self.buf@[5]@);
            }
            if n >= 7 {
                assert(before[5] == b[5]);
            }
            assert(b[n - 1] == self.buf@[n - 1]@);
            assert(before.len() >= 1 ==> before[0] == b[0]);
            if n >= 7 {
                lemma_scan_bounds(before, 6);
                lemma_scan_extend(b, 6);
                assert(scan_changes(b, n as int) == (n as int, false));
                assert(is_blank(b[5]));
                assert(spec_parse_i64(b[2]) is Some);
                assert(is_marker(b[0]));
            } else if n == 6 {
                assert(spec_parse_i64(b[2]) is Some);
                assert(is_marker(b[0]));
            } else if n > 1 {
                assert(is_marker(b[0]));
            }
            assert(now == settled(b));
        }
        if !now {
            return None;
        }
        let res = parse_block(&self.buf, 0);
        proof {
            assert forall|all: Seq<Seq<char>>|
                all.len() < usize::MAX && self.seen@.len() <= all.len() && all.subrange(0, self.seen@.len() as int) == self.seen@
                implies #[trigger] spec_next_commit(all, s0) == shifted(spec_next_commit(b, 0), s0) by {
                assert(all.subrange(s0, s0 + n) =~= b);
                lemma_next_commit_local(all, s0, n as int);
            }
        }
        match res {
            Ok((c, end)) => {
                let last = self.buf.pop().unwrap();
                let mut rest: Vec<String> = Vec::new();
                rest.push(last);
                self.buf = rest;
                self.start = self.start + end;
                proof {
                    lemma_scan_bounds(b, 6);
                    assert(end == n - 1);
                    assert(views(self.buf@) =~= self.seen@.subrange(self.start as int, self.seen@.len() as int));
                }
                Some(Ok(c))
            },
            Err(e) => {
                proof {
                    lemma_error_line_bound(b, e);
                }
                self.failed = true;
                Some(Err(shift_error(e, self.start)))
            },
        }
    }

    /// Ends the input: the commit its last block holds, or the error in it,
    /// and `None` once nothing is left.
    pub fn finish(&mut self) -> (r: Option<Result<CommitInfo, CommitParseError>>)
        requires
            old(self).wf(),
        ensures
            final(self).wf(),
            final(self).lines() == old(self).lines(),
            old(self).failed() ==> r is None && final(self).failed(),
            !old(self).failed() ==> match spec_next_commit(old(self).lines(), old(self).pos()) {
                None => r is None && !final(self).failed() && final(self).pos() == old(self).pos(),
                Some(Err(e)) => r == Some(Err::<CommitInfo, CommitParseError>(e)) && final(self).failed(),
                Some(Ok((c, end))) => r matches Some(Ok(ci)) && ci@ == c && final(self).pos() == end && !final(self).failed(),
            },
    {
        if self.failed {
            return None;
        }
        let n = self.buf.len();
        let ghost s0 = self.start as int;
        let ghost b = views(self.buf@);
        if n == 0 {
            return None;
        }
        proof {
            lemma_next_commit_local(self.seen@, s0, n as int);
        }
        let res = parse_block(&self.buf, 0);
        match res {
            Ok((c, end)) => {
                proof {
                    lemma_scan_bounds(b, if 5 < n { 6int } else { 5int });
                }
                self.start = self.start + end;
                let mut rest: Vec<String> = Vec::new();
                let mut k: usize = end;
                while k < n
                    invariant
                        end <= k <= n,
                        n == self.buf@.len(),
                        views(rest@) == views(self.buf@).subrange(end as int, k as int),
                    decreases n - k,
                {
                    let ghost r0 = rest@;
                    let x = self.buf[k].clone();
                    rest.push(x);
                    proof {
                        assert(views(rest@) =~= views(r0).push(x@));
                        assert(views(self.buf@)[k as int] == x@);
                        assert(views(rest@) =~= views(self.buf@).subrange(end as int, k + 1));
                    }
                    k += 1;
                }
                let ghost old_buf = views(self.buf@);
                self.buf = rest;
                proof {
                    assert(views(self.buf@) =~= self.seen@.subrange(self.start as int, self.seen@.len() as int));
                }
                Some(Ok(c))
            },
            Err(e) => {
                proof {
                    lemma_error_line_bound(b, e);
                }
                self.failed = true;
                Some(Err(shift_error(e, self.start)))
            },
        }
    }
}

} // verus!
