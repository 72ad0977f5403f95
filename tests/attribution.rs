use bound::{
    analyze_by_contributor, analyze_by_owner, codeowners_changed, fits_contributor_report, fits_owner_report,
    get_codeowners_at_commit, AuthorCodeownerMemberships, CodeownersError, CommitAuthor, CommitInfo,
    CommitInfoWithCodeowner, CommitsWithCodeownersIterator, FileChange, FileChangeWithCodeowner,
};

fn change(path: &str, insertions: u32, deletions: u32) -> FileChange {
    FileChange { path: path.to_string(), insertions, deletions }
}

fn commit(id: &str, name: &str, email: &str, changes: Vec<FileChange>) -> CommitInfo {
    CommitInfo {
        id: id.to_string(),
        timestamp: 0,
        author: CommitAuthor { name: name.to_string(), email: email.to_string() },
        file_changes: changes,
    }
}

fn member(email: &str, owner: &str) -> AuthorCodeownerMemberships {
    AuthorCodeownerMemberships { author_email: Some(email.to_string()), author_name: None, codeowner: owner.to_string() }
}

/// Annotates commits with one fixed ownership file; counts how often it was read.
fn annotate_all(commits: Vec<CommitInfo>, codeowners: &str, roster: Option<Vec<AuthorCodeownerMemberships>>) -> (Vec<CommitInfoWithCodeowner>, usize) {
    let mut it = CommitsWithCodeownersIterator::new(roster);
    let mut reads = 0;
    let mut out = Vec::new();
    for c in commits {
        if it.needs_codeowners(&c) {
            reads += 1;
            it.set_codeowners(Some(codeowners.to_string())).unwrap();
        }
        out.push(it.annotate(c));
    }
    (out, reads)
}

fn enriched(name: &str, email: &str, changes: Vec<(&str, Option<Vec<&str>>, Option<bool>, u32, u32)>) -> CommitInfoWithCodeowner {
    CommitInfoWithCodeowner {
        id: "c".to_string(),
        author: CommitAuthor { name: name.to_string(), email: email.to_string() },
        timestamp: 0,
        file_changes: changes
            .into_iter()
            .map(|(p, owners, team, i, d)| FileChangeWithCodeowner {
                path: p.to_string(),
                author_in_owners: team.map(|t| vec![t; owners.as_ref().map_or(0, |v| v.len())]),
                codeowners: owners.map(|v| v.iter().map(|s| s.to_string()).collect()),
                author_is_codeowner: team,
                insertions: i,
                deletions: d,
            })
            .collect(),
    }
}

fn weight(shares: &[bound::CommitShare]) -> f64 {
    shares
        .iter()
        .map(|s| if s.commit_insertions == 0 { 0.0 } else { s.owner_insertions as f64 / s.commit_insertions as f64 })
        .sum()
}

#[test]
fn team_and_outsider_commits_on_one_owner() {
    let commits = vec![
        commit("a", "Tea", "tea@team.org", vec![change("a.go", 10, 0)]),
        commit("b", "Out", "out@else.org", vec![change("a.go", 0, 5)]),
    ];
    let (annotated, _) = annotate_all(commits, "*.go @team1\n", Some(vec![member("tea@team.org", "@team1")]));
    assert!(fits_owner_report(&annotated));
    let report = analyze_by_owner(&annotated, false);
    assert_eq!(report.len(), 1);
    let r = &report[0];
    assert_eq!(r.owner, "@team1");
    assert_eq!(r.total_insertions_by_team, 10);
    assert_eq!(r.total_deletions_by_team, 0);
    assert_eq!(r.total_commits_by_team, 1);
    assert_eq!(r.total_insertions_by_others, 0);
    assert_eq!(r.total_deletions_by_others, 5);
    assert_eq!(r.total_commits_by_others, 1);
    assert_eq!(r.top_team_contributors_by_changes.len(), 1);
    assert_eq!(r.top_team_contributors_by_changes[0].author_name, "Tea");
    assert_eq!(r.top_team_contributors_by_changes[0].metric_value, 10);
    assert_eq!(r.top_outside_contributors_by_commits[0].author_email, "out@else.org");
    assert_eq!(r.top_outside_contributors_by_commits[0].metric_value, 1);
}

#[test]
fn every_owner_gets_the_full_insertions() {
    let c = enriched("A", "a@x", vec![("f.rs", Some(vec!["@a", "@b", "@c"]), Some(false), 7, 1)]);
    let report = analyze_by_owner(&vec![c], false);
    assert_eq!(report.len(), 3);
    let total: u64 = report.iter().map(|r| r.total_insertions_by_team + r.total_insertions_by_others).sum();
    assert_eq!(total, 7 * 3);
    for r in &report {
        assert_eq!(r.total_insertions_by_others, 7);
        assert_eq!(r.total_deletions_by_others, 1);
    }
}

#[test]
fn adjusted_weights_of_a_commit_add_up_to_one() {
    let c = enriched("A", "a@x", vec![
        ("x.rs", Some(vec!["@a"]), Some(true), 3, 0),
        ("y.rs", Some(vec!["@b"]), Some(false), 1, 4),
        ("z.rs", None, Some(false), 9, 0),
    ]);
    let report = analyze_by_owner(&vec![c], true);
    assert_eq!(report.len(), 2);
    let a = &report[0];
    let b = &report[1];
    assert_eq!(a.owner, "@a");
    assert_eq!(a.adjusted_changes_by_team, 3);
    assert_eq!(a.adjusted_commits_by_team[0].owner_insertions, 3);
    assert_eq!(a.adjusted_commits_by_team[0].commit_insertions, 4);
    assert_eq!(b.adjusted_commits_by_others[0].owner_insertions, 1);
    let sum = weight(&a.adjusted_commits_by_team) + weight(&b.adjusted_commits_by_others);
    assert!((sum - 1.0).abs() < 1e-9);
}

#[test]
fn commit_without_insertions_weighs_nothing() {
    let c = enriched("A", "a@x", vec![("x.rs", Some(vec!["@a"]), Some(true), 0, 3)]);
    let report = analyze_by_owner(&vec![c], true);
    assert_eq!(weight(&report[0].adjusted_commits_by_team), 0.0);
}

#[test]
fn unadjusted_report_has_no_adjusted_totals() {
    let c = enriched("A", "a@x", vec![("x.rs", Some(vec!["@a"]), Some(true), 5, 0)]);
    let report = analyze_by_owner(&vec![c], false);
    assert_eq!(report[0].adjusted_changes_by_team, 0);
    assert!(report[0].adjusted_commits_by_team.is_empty());
}

#[test]
fn rankings_break_ties_by_name_whatever_the_order_seen() {
    let names = ["Cid", "Abe", "Bea"];
    let mk = |order: &[usize]| -> Vec<CommitInfoWithCodeowner> {
        order
            .iter()
            .map(|&i| enriched(names[i], "e", vec![("f", Some(vec!["@o"]), Some(false), 2, 0)]))
            .collect()
    };
    let r1 = analyze_by_owner(&mk(&[0, 1, 2]), false);
    let r2 = analyze_by_owner(&mk(&[2, 0, 1]), false);
    let l1: Vec<&str> = r1[0].top_outside_contributors_by_changes.iter().map(|c| c.author_name.as_str()).collect();
    let l2: Vec<&str> = r2[0].top_outside_contributors_by_changes.iter().map(|c| c.author_name.as_str()).collect();
    assert_eq!(l1, vec!["Abe", "Bea", "Cid"]);
    assert_eq!(l1, l2);
}

#[test]
fn rankings_keep_the_first_ten() {
    let commits: Vec<CommitInfoWithCodeowner> = (0..12u32)
        .map(|i| enriched(&format!("dev{:02}", i), "e", vec![("f", Some(vec!["@o"]), Some(true), i + 1, 0)]))
        .collect();
    let r = analyze_by_owner(&commits, false);
    let top = &r[0].top_team_contributors_by_changes;
    assert_eq!(top.len(), 10);
    assert_eq!(top[0].author_name, "dev11");
    assert_eq!(top[0].metric_value, 12);
    assert_eq!(top[9].author_name, "dev02");
    assert!(r[0].top_outside_contributors_by_changes.is_empty());
}

#[test]
fn owner_rows_are_sorted_by_name() {
    let c = enriched("A", "a@x", vec![("f", Some(vec!["@z", "@b", "@m"]), None, 1, 1)]);
    let r = analyze_by_owner(&vec![c], false);
    let owners: Vec<&str> = r.iter().map(|o| o.owner.as_str()).collect();
    assert_eq!(owners, vec!["@b", "@m", "@z"]);
}

#[test]
fn ownership_file_is_read_again_only_when_it_changes() {
    let commits = vec![
        commit("1", "A", "a@x", vec![change("main.rs", 1, 0)]),
        commit("2", "A", "a@x", vec![change("CODEOWNERS", 1, 0), change("main.rs", 2, 0)]),
        commit("3", "A", "a@x", vec![change("main.rs", 3, 0)]),
    ];
    assert!(!codeowners_changed(&commits[0]));
    assert!(codeowners_changed(&commits[1]));
    let mut it = CommitsWithCodeownersIterator::new(None);
    let files = ["*.rs @old\n", "*.rs @new\n"];
    let mut reads = Vec::new();
    let mut owners = Vec::new();
    for (i, c) in commits.into_iter().enumerate() {
        if it.needs_codeowners(&c) {
            reads.push(i);
            it.set_codeowners(Some(files[reads.len() - 1].to_string())).unwrap();
        }
        let a = it.annotate(c);
        owners.push(a.file_changes.last().unwrap().codeowners.clone().unwrap());
        assert_eq!(a.file_changes[0].author_is_codeowner, None);
    }
    assert_eq!(reads, vec![0, 1]);
    assert_eq!(owners, vec![vec!["@old".to_string()], vec!["@new".to_string()], vec!["@new".to_string()]]);
}

#[test]
fn ownership_file_in_docs_counts_as_a_change_to_it() {
    let c = commit("1", "A", "a@x", vec![change("docs/CODEOWNERS", 1, 0)]);
    assert!(codeowners_changed(&c));
    let c = commit("1", "A", "a@x", vec![change("src/CODEOWNERS", 1, 0)]);
    assert!(!codeowners_changed(&c));
}

#[test]
fn unowned_path_goes_to_the_unowned_group_only() {
    let commits = vec![commit("1", "A", "a@x", vec![change("notes.txt", 4, 1), change("x.go", 1, 0)])];
    let (annotated, _) = annotate_all(commits, "*.go @go\n", Some(vec![]));
    assert_eq!(annotated[0].file_changes[0].codeowners, None);
    assert_eq!(annotated[0].file_changes[0].author_is_codeowner, Some(false));
    let owners = analyze_by_owner(&annotated, false);
    assert_eq!(owners.len(), 1);
    assert_eq!(owners[0].owner, "@go");
    assert!(fits_contributor_report(&annotated));
    let contributors = analyze_by_contributor(&annotated, false);
    assert_eq!(contributors.len(), 1);
    let groups: Vec<&str> = contributors[0].contributions.iter().map(|c| c.owner.as_str()).collect();
    assert_eq!(groups, vec!["<unowned>", "@go"]);
    assert_eq!(contributors[0].contributions[0].total_insertions, 4);
    assert_eq!(contributors[0].contributions[0].total_deletions, 1);
}

#[test]
fn last_matching_rule_wins() {
    let commits = vec![commit("1", "A", "a@x", vec![change("lib.rs", 1, 0), change("readme.md", 1, 0)])];
    let (annotated, reads) = annotate_all(commits, "* @all\n*.rs @rust @core\n", None);
    assert_eq!(reads, 1);
    assert_eq!(annotated[0].file_changes[0].codeowners, Some(vec!["@rust".to_string(), "@core".to_string()]));
    assert_eq!(annotated[0].file_changes[1].codeowners, Some(vec!["@all".to_string()]));
}

#[test]
fn no_ownership_file_leaves_every_path_unowned() {
    let mut it = CommitsWithCodeownersIterator::new(None);
    let c = commit("1", "A", "a@x", vec![change("lib.rs", 1, 0)]);
    assert!(it.needs_codeowners(&c));
    it.set_codeowners(None).unwrap();
    let a = it.annotate(c);
    assert_eq!(a.file_changes[0].codeowners, None);
}

#[test]
fn unsupported_pattern_is_refused() {
    let mut it = CommitsWithCodeownersIterator::new(None);
    assert_eq!(it.set_codeowners(Some("a/**b @x\n".to_string())), Err(CodeownersError::UnsupportedPattern));
    assert_eq!(it.set_codeowners(Some("[ab.rs @x\n".to_string())), Err(CodeownersError::UnsupportedPattern));
    assert_eq!(it.set_codeowners(Some("a***.rs @x\n".to_string())), Err(CodeownersError::UnsupportedPattern));
    assert_eq!(it.set_codeowners(Some("docs/**/*.md @x\n".to_string())), Ok(()));
}

#[test]
fn character_classes_and_comments_are_accepted() {
    let commits = vec![commit("1", "A", "a@x", vec![change("src/x.c", 1, 0), change("src/x.rs", 1, 0)])];
    let (annotated, _) = annotate_all(commits, "# [owners] a/**b\n*.[ch] @t\n*.[!c]s @r\n", None);
    assert_eq!(annotated[0].file_changes[0].codeowners, Some(vec!["@t".to_string()]));
    assert_eq!(annotated[0].file_changes[1].codeowners, Some(vec!["@r".to_string()]));
}

#[test]
fn file_without_rules_leaves_every_path_unowned() {
    let commits = vec![commit("1", "A", "a@x", vec![change("lib.rs", 1, 0)])];
    let (annotated, _) = annotate_all(commits, "# nothing here\n\n", None);
    assert_eq!(annotated[0].file_changes[0].codeowners, None);
}

#[test]
fn membership_is_flagged_per_owner() {
    let roster = vec![member("tea@team.org", "@a")];
    let commits = vec![commit("1", "Tea", "tea@team.org", vec![change("f.rs", 4, 0)])];
    let (annotated, _) = annotate_all(commits, "*.rs @a @b\n", Some(roster));
    let ch = &annotated[0].file_changes[0];
    assert_eq!(ch.author_is_codeowner, Some(true));
    assert_eq!(ch.author_in_owners, Some(vec![true, false]));
    let report = analyze_by_owner(&annotated, false);
    assert_eq!(report[0].owner, "@a");
    assert_eq!(report[0].total_insertions_by_team, 4);
    assert_eq!(report[1].owner, "@b");
    assert_eq!(report[1].total_insertions_by_team, 0);
    assert_eq!(report[1].total_insertions_by_others, 4);
}

#[test]
fn membership_ignores_case_and_matches_by_name_or_email() {
    let roster = vec![
        AuthorCodeownerMemberships { author_email: Some("Tea@Team.ORG".to_string()), author_name: None, codeowner: "@t".to_string() },
        AuthorCodeownerMemberships { author_email: None, author_name: Some("BOB".to_string()), codeowner: "@b".to_string() },
    ];
    let author = CommitAuthor { name: "x".to_string(), email: "tea@team.org".to_string() };
    assert!(roster[0].author_matches(&author));
    assert!(!roster[1].author_matches(&author));
    let bob = CommitAuthor { name: "bob".to_string(), email: "other@x".to_string() };
    assert!(roster[1].author_matches(&bob));
    let commits = vec![
        commit("1", "x", "tea@team.org", vec![change("a.t", 1, 0), change("a.b", 1, 0)]),
        commit("2", "bob", "z@z", vec![change("a.b", 1, 0)]),
    ];
    let (annotated, _) = annotate_all(commits, "*.t @t\n*.b @b\n", Some(roster));
    assert_eq!(annotated[0].file_changes[0].author_is_codeowner, Some(true));
    assert_eq!(annotated[0].file_changes[1].author_is_codeowner, Some(false));
    assert_eq!(annotated[1].file_changes[0].author_is_codeowner, Some(true));
}

#[test]
fn contributor_report_buckets_by_first_owner_and_orders_rows() {
    let a = enriched("Zed", "z@x", vec![("f", Some(vec!["@a", "@b"]), None, 5, 0), ("g", Some(vec!["@b"]), None, 1, 0), ("h", Some(vec!["@b"]), None, 1, 0)]);
    let b = enriched("Amy", "a@x", vec![("f", Some(vec!["@a"]), None, 2, 2)]);
    let r = analyze_by_contributor(&vec![a, b], true);
    assert_eq!(r.len(), 2);
    assert_eq!(r[0].author_name, "Amy");
    assert_eq!(r[1].author_name, "Zed");
    let groups: Vec<(&str, u64)> = r[1].contributions.iter().map(|c| (c.owner.as_str(), c.total_commits)).collect();
    assert_eq!(groups, vec![("@b", 2), ("@a", 1)]);
    assert_eq!(r[1].contributions[1].total_insertions, 5);
    assert_eq!(r[1].contributions[1].adjusted_changes, 5);
    let w: f64 = r[1].contributions.iter().map(|c| weight(&c.adjusted_commits)).sum();
    // (2/7 + 2/7) for @b, 5/7 for @a: weights are added once per change.
    assert!((w - 9.0 / 7.0).abs() < 1e-9);
}

#[test]
fn first_existing_location_wins() {
    assert_eq!(get_codeowners_at_commit(vec![None, Some("b".to_string()), Some("c".to_string())]), Some("b".to_string()));
    assert_eq!(get_codeowners_at_commit(vec![None, None, None]), None);
    let locations = bound::codeowners_locations();
    assert_eq!(locations, vec![".github/CODEOWNERS", "CODEOWNERS", "docs/CODEOWNERS"]);
}

#[test]
fn two_runs_give_identical_reports() {
    let mk = || vec![
        enriched("B", "b@x", vec![("f", Some(vec!["@o", "@p"]), Some(true), 3, 1)]),
        enriched("A", "a@x", vec![("f", Some(vec!["@p"]), Some(false), 3, 1)]),
    ];
    let r1 = analyze_by_owner(&mk(), true);
    let r2 = analyze_by_owner(&mk(), true);
    let show = |r: &Vec<bound::OwnerInfo>| -> Vec<String> {
        r.iter()
            .map(|o| format!("{} {} {} {:?} {:?}", o.owner, o.total_insertions_by_team, o.total_insertions_by_others,
                o.top_outside_contributors_by_changes.iter().map(|c| c.author_name.clone()).collect::<Vec<_>>(),
                o.adjusted_commits_by_team))
            .collect()
    };
    assert_eq!(show(&r1), show(&r2));
}

#[test]
fn commit_by_commit_analysis_matches_the_whole_history() {
    let mk = || vec![
        enriched("B", "b@x", vec![("f", Some(vec!["@o", "@p"]), Some(true), 3, 1), ("g", None, None, 2, 2)]),
        enriched("A", "a@x", vec![("f", Some(vec!["@p"]), Some(false), 5, 0)]),
    ];
    let whole = analyze_by_owner(&mk(), true);
    let mut a = bound::OwnerAnalysis::new(true);
    for c in mk() {
        assert!(a.fits(&c));
        a.apply(&c);
    }
    let step = a.report();
    assert_eq!(whole.len(), step.len());
    for (x, y) in whole.iter().zip(step.iter()) {
        assert_eq!(x.owner, y.owner);
        assert_eq!(x.total_insertions_by_team, y.total_insertions_by_team);
        assert_eq!(x.total_insertions_by_others, y.total_insertions_by_others);
        assert_eq!(x.adjusted_commits_by_team, y.adjusted_commits_by_team);
    }
    assert_eq!(step[1].owner, "@p");
    assert_eq!(step[1].total_insertions_by_team, 3);
    assert_eq!(step[1].total_insertions_by_others, 5);

    let whole = analyze_by_contributor(&mk(), false);
    let mut c = bound::ContributorAnalysis::new(false);
    for commit in mk() {
        assert!(c.fits(&commit));
        c.apply(&commit);
    }
    let step = c.report();
    assert_eq!(whole.len(), step.len());
    assert_eq!(step[0].author_name, "A");
    assert_eq!(step[1].contributions.len(), 2);
    assert_eq!(whole[1].contributions[0].owner, step[1].contributions[0].owner);
}
