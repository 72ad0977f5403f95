//! Ownership and contributor attribution over a repository's commit history.
//!
//! The pipeline: `commit` reads a line-oriented history export into commit
//! records; `owner` resolves the owners of every changed path with the
//! ownership rules in force at each commit and marks whether the author
//! belongs to them; `analyze` and `contributors` fold the annotated commits
//! into the owner report and the contributor report; `roster` reads and
//! writes the membership roster's text form.

pub mod text;
pub mod order;
pub mod commit;
pub mod pattern;
pub mod owner;
pub mod analyze;
pub mod contributors;
pub mod roster;
pub mod paging;

pub use analyze::{analyze_by_owner, fits_owner_report, CommitShare, ContributorToOwnerInfo, OwnerAnalysis, OwnerInfo};
pub use commit::{parse_commit, CommitAuthor, CommitInfo, CommitIterator, CommitParseError, CommitStream, FileChange};
pub use contributors::{
    analyze_by_contributor, fits_contributor_report, ContributionsByOwnerInfo, ContributorAnalysis, ContributorInfo,
};
pub use owner::{
    codeowners_changed, codeowners_locations, get_all_codeowners, get_codeowners_at_commit, is_author_codeowner, roster_lists,
    AuthorCodeownerMemberships,
    AuthorMembership, CodeownersError, CommitInfoWithCodeowner, CommitsWithCodeownersIterator, FileChangeWithCodeowner,
};
pub use paging::next_page_url;
pub use roster::{read_memberships_from_tsv, write_memberships_to_tsv, RosterError};
