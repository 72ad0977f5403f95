//! The roster's flat text form: a header line, then one line per entry with
//! three tab-separated fields (email, name, owner group); an empty field
//! stands for an absent email or name.

use vstd::prelude::*;
use crate::owner::AuthorCodeownerMemberships;
use crate::text::{free_of, lemma_split_three, split_fields, split_on, views};

verus! {

/// A roster entry as plain values.
pub struct MembershipView {
    pub author_email: Option<Seq<char>>,
    pub author_name: Option<Seq<char>>,
    pub codeowner: Seq<char>,
}

pub open spec fn membership_view(m: AuthorCodeownerMemberships) -> MembershipView {
    MembershipView {
        author_email: match m.author_email { Some(e) => Some(e@), None => None },
        author_name: match m.author_name { Some(n) => Some(n@), None => None },
        codeowner: m.codeowner@,
    }
}

pub open spec fn membership_views(v: Seq<AuthorCodeownerMemberships>) -> Seq<MembershipView> {
    v.map_values(|m: AuthorCodeownerMemberships| membership_view(m))
}

pub open spec fn tab() -> Seq<char> {
    seq!['\t']
}

pub open spec fn field_text(f: Option<Seq<char>>) -> Seq<char> {
    match f {
        Some(s) => s,
        None => Seq::empty(),
    }
}

pub open spec fn field_value(f: Seq<char>) -> Option<Seq<char>> {
    if f.len() == 0 { None } else { Some(f) }
}

/// The line that records one entry.
pub open spec fn record_line(m: MembershipView) -> Seq<char> {
    field_text(m.author_email) + tab() + field_text(m.author_name) + tab() + m.codeowner
}

pub open spec fn header_line() -> Seq<char> {
    "author_email\tauthor_name\tcodeowner"@
}

/// The entry a line records, if it has three fields.
pub open spec fn parse_record(l: Seq<char>) -> Option<MembershipView> {
    let f = split_on(l, '\t');
    if f.len() == 3 {
        Some(MembershipView { author_email: field_value(f[0]), author_name: field_value(f[1]), codeowner: f[2] })
    } else {
        None
    }
}

/// The entries of `lines[k..]`, or the index of the first line without three fields.
pub open spec fn read_records(lines: Seq<Seq<char>>, k: int) -> Result<Seq<MembershipView>, usize>
    decreases lines.len() - k,
{
    if k < 0 || k >= lines.len() {
        Ok(Seq::empty())
    } else {
        match parse_record(lines[k]) {
            None => Err(k as usize),
            Some(m) => match read_records(lines, k + 1) {
                Ok(rest) => Ok(seq![m] + rest),
                Err(e) => Err(e),
            },
        }
    }
}

/// Reading the roster: the first line is a header and is skipped.
pub open spec fn read_roster(lines: Seq<Seq<char>>) -> Result<Seq<MembershipView>, usize> {
    read_records(lines, 1)
}

/// Writing the roster: the header, then one line per entry.
pub open spec fn write_roster(roster: Seq<MembershipView>) -> Seq<Seq<char>> {
    seq![header_line()] + roster.map_values(|m: MembershipView| record_line(m))
}

/// A line of the roster that is not made of three tab-separated fields.
#[derive(Clone, Copy, Debug, PartialEq, Eq, Structural)]
pub enum RosterError {
    InvalidLine { line: usize },
}

fn field_string(f: &Option<String>) -> (r: String)
    ensures
        r@ == field_text(match f { Some(s) => Some(s@), None => None }),
{
    match f {
        Some(s) => s.clone(),
        None => String::new(),
    }
}

/// The lines of the roster's text form, without terminators.
pub fn write_memberships_to_tsv(memberships: &Vec<AuthorCodeownerMemberships>) -> (r: Vec<String>)
    ensures
        views(r@) == write_roster(membership_views(memberships@)),
{
    let mut out: Vec<String> = Vec::new();
    out.push(String::from_str("author_email\tauthor_name\tcodeowner"));
    let mut i: usize = 0;
    while i < memberships.len()
        invariant
            i <= memberships@.len(),
            out@.len() == i + 1,
            views(out@)[0] == header_line(),
            forall|k: int| 0 <= k < i ==> (#[trigger] out@[k + 1])@ == record_line(membership_view(memberships@[k])),
        decreases memberships@.len() - i,
    {
        let m = &memberships[i];
        let mut line = field_string(&m.author_email);
        line.append("\t");
        line.append(field_string(&m.author_name).as_str());
        line.append("\t");
        line.append(m.codeowner.as_str());
        proof {
            reveal_strlit("\t");
            assert(line@ =~= record_line(membership_view(*m)));
        }
        out.push(line);
        i += 1;
    }
    proof {
        assert(views(out@) =~= write_roster(membership_views(memberships@))) by {
            assert forall|k: int| 0 <= k < views(out@).len() implies views(out@)[k] == write_roster(membership_views(memberships@))[k] by {
                if k > 0 {
                    assert(out@[(k - 1) + 1]@ == record_line(membership_view(memberships@[k - 1])));
                }
            }
        }
    }
    out
}

fn option_of(f: &String) -> (r: Option<String>)
    ensures
        match field_value(f@) { Some(s) => r is Some && r->0@ == s, None => r is None },
{
    if f.as_str().unicode_len() == 0 {
        None
    } else {
        Some(f.clone())
    }
}

/// Reads the roster from its lines: the first is a header; every other line
/// must have three tab-separated fields.
pub fn read_memberships_from_tsv(lines: &Vec<String>) -> (r: Result<Vec<AuthorCodeownerMemberships>, RosterError>)
    ensures
        match read_roster(views(lines@)) {
            Ok(v) => r is Ok && membership_views(r->Ok_0@) == v,
            Err(k) => r == Err::<Vec<AuthorCodeownerMemberships>, RosterError>(RosterError::InvalidLine { line: k }),
        },
{
    let ghost ls = views(lines@);
    let mut out: Vec<AuthorCodeownerMemberships> = Vec::new();
    let mut k: usize = 1;
    while k < lines.len()
        invariant
            ls == views(lines@),
            1 <= k,
            k <= lines@.len() || lines@.len() == 0,
            read_roster(ls) == match read_records(ls, k as int) {
                Ok(rest) => Ok(membership_views(out@) + rest),
                Err(e) => Err::<Seq<MembershipView>, usize>(e),
            },
        decreases lines@.len() - k,
    {
        assert(ls[k as int] == lines@[k as int]@);
        let f = split_fields(lines[k].as_str(), '\t');
        if f.len() != 3 {
            return Err(RosterError::InvalidLine { line: k });
        }
        let m = AuthorCodeownerMemberships {
            author_email: option_of(&f[0]),
            author_name: option_of(&f[1]),
            codeowner: f[2].clone(),
        };
        let ghost before = out@;
        out.push(m);
        proof {
            assert(split_on(ls[k as int], '\t')[0] == f@[0]@);
            assert(split_on(ls[k as int], '\t')[1] == f@[1]@);
            assert(split_on(ls[k as int], '\t')[2] == f@[2]@);
            assert(parse_record(ls[k as int]) == Some(membership_view(m)));
            assert(membership_views(out@) =~= membership_views(before).push(membership_view(m)));
            match read_records(ls, k + 1) {
                Ok(rest) => {
                    assert(membership_views(before) + (seq![membership_view(m)] + rest) =~= membership_views(out@) + rest);
                },
                Err(e) => {},
            }
        }
        k += 1;
    }
    proof {
        assert(membership_views(out@) + Seq::<MembershipView>::empty() =~= membership_views(out@));
    }
    Ok(out)
}


/// An entry that the text form can hold: no field holds a tab, and a present
/// email or name is not empty (an empty field reads back as absent).
pub open spec fn writable(m: MembershipView) -> bool {
    &&& (m.author_email matches Some(e) ==> e.len() > 0 && free_of(e, '\t'))
    &&& (m.author_name matches Some(n) ==> n.len() > 0 && free_of(n, '\t'))
    &&& free_of(m.codeowner, '\t')
}

proof fn lemma_record_line_parses(m: MembershipView)
    requires
        writable(m),
    ensures
        parse_record(record_line(m)) == Some(m),
{
    let e = field_text(m.author_email);
    let n = field_text(m.author_name);
    assert(free_of(e, '\t'));
    assert(free_of(n, '\t'));
    lemma_split_three(e, n, m.codeowner, '\t');
    assert(record_line(m) =~= e + seq!['\t'] + n + seq!['\t'] + m.codeowner);
}

proof fn lemma_read_written(roster: Seq<MembershipView>, k: int)
    requires
        forall|i: int| 0 <= i < roster.len() ==> writable(#[trigger] roster[i]),
        1 <= k <= roster.len() + 1,
    ensures
        read_records(write_roster(roster), k) == Ok::<Seq<MembershipView>, usize>(roster.skip(k - 1)),
    decreases roster.len() + 1 - k,
{
    let lines = write_roster(roster);
    if k == roster.len() + 1 {
        assert(roster.skip(k - 1) =~= Seq::<MembershipView>::empty());
    } else {
        assert(lines[k] == record_line(roster[k - 1]));
        lemma_record_line_parses(roster[k - 1]);
        lemma_read_written(roster, k + 1);
        assert(seq![roster[k - 1]] + roster.skip(k) =~= roster.skip(k - 1));
    }
}

/// Writing a roster and reading it back gives the same entries, for every
/// roster the text form can hold, entries without email or name included.
pub proof fn lemma_roster_round_trip(roster: Seq<MembershipView>)
    requires
        forall|i: int| 0 <= i < roster.len() ==> writable(#[trigger] roster[i]),
    ensures
        read_roster(write_roster(roster)) == Ok::<Seq<MembershipView>, usize>(roster),
{
    lemma_read_written(roster, 1);
    assert(roster.skip(0) =~= roster);
}

} // verus!
