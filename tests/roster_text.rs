use bound::{read_memberships_from_tsv, write_memberships_to_tsv, AuthorCodeownerMemberships, RosterError};

fn entry(email: Option<&str>, name: Option<&str>, owner: &str) -> AuthorCodeownerMemberships {
    AuthorCodeownerMemberships {
        author_email: email.map(|s| s.to_string()),
        author_name: name.map(|s| s.to_string()),
        codeowner: owner.to_string(),
    }
}

#[test]
fn writes_header_and_one_line_per_entry() {
    let lines = write_memberships_to_tsv(&vec![entry(Some("a@x.com"), None, "@org/a"), entry(None, Some("Bo"), "@org/b")]);
    assert_eq!(lines, vec!["author_email\tauthor_name\tcodeowner", "a@x.com\t\t@org/a", "\tBo\t@org/b"]);
}

#[test]
fn round_trip_keeps_entries_with_absent_fields() {
    let roster = vec![
        entry(Some("a@x.com"), Some("Ann"), "@org/a"),
        entry(Some("b@x.com"), None, "@org/b"),
        entry(None, Some("Cy"), "@org/c"),
        entry(None, None, "@org/d"),
    ];
    let back = read_memberships_from_tsv(&write_memberships_to_tsv(&roster)).unwrap();
    assert_eq!(back.len(), roster.len());
    for (a, b) in back.iter().zip(roster.iter()) {
        assert_eq!(a.author_email, b.author_email);
        assert_eq!(a.author_name, b.author_name);
        assert_eq!(a.codeowner, b.codeowner);
    }
}

#[test]
fn first_line_is_skipped_whatever_it_holds() {
    let lines = vec!["anything".to_string(), "e@x\tE\t@t".to_string()];
    let r = read_memberships_from_tsv(&lines).unwrap();
    assert_eq!(r.len(), 1);
    assert_eq!(r[0].author_email.as_deref(), Some("e@x"));
    assert_eq!(r[0].author_name.as_deref(), Some("E"));
    assert_eq!(r[0].codeowner, "@t");
}

#[test]
fn empty_text_is_an_empty_roster() {
    assert!(read_memberships_from_tsv(&Vec::new()).unwrap().is_empty());
}

#[test]
fn line_with_wrong_field_count_is_an_error() {
    let lines = vec!["h".to_string(), "a\tb\tc".to_string(), "a\tb".to_string(), "x\ty\tz".to_string()];
    assert_eq!(read_memberships_from_tsv(&lines).err(), Some(RosterError::InvalidLine { line: 2 }));
    let lines = vec!["h".to_string(), "a\tb\tc\td".to_string()];
    assert_eq!(read_memberships_from_tsv(&lines).err(), Some(RosterError::InvalidLine { line: 1 }));
}

#[test]
fn roster_lists_needs_owner_email_and_name() {
    let roster = vec![entry(Some("a@x"), Some("Ann"), "@t"), entry(Some("b@x"), None, "@t")];
    let s = |x: &str| x.to_string();
    assert!(bound::roster_lists(&roster, &s("@t"), &s("Ann"), &s("a@x")));
    assert!(!bound::roster_lists(&roster, &s("@u"), &s("Ann"), &s("a@x")));
    assert!(!bound::roster_lists(&roster, &s("@t"), &s("ann"), &s("a@x")));
    assert!(!bound::roster_lists(&roster, &s("@t"), &s("Bob"), &s("b@x")));
}
