//! The commit log: the ordered, append-only list of commit summaries
//! shared across the whole repository.

use vstd::prelude::*;

verus! {

/// Mathematical model of one commit summary.
#[verifier::ext_equal]
pub ghost struct CommitModel {
    pub commit_id: Seq<char>,
    pub date: Seq<char>,
    pub description: Seq<char>,
}

/// One commit summary: an opaque unique id, a timestamp and a description.
/// Immutable once appended to the log.
pub struct Commit {
    pub commit_id: String,
    pub date: String,
    pub description: String,
}

impl View for Commit {
    type V = CommitModel;

    open spec fn view(&self) -> CommitModel {
        CommitModel {
            commit_id: self.commit_id@,
            date: self.date@,
            description: self.description@,
        }
    }
}

/// Whether some commit in the log carries id `id`.
pub open spec fn log_has_id(commits: Seq<CommitModel>, id: Seq<char>) -> bool {
    exists|k: int| 0 <= k < commits.len() && commits[k].commit_id == id
}

/// The ordered sequence of commits, oldest first. Append-only: entries are
/// never mutated or reordered.
pub struct CommitLog {
    pub commits: Vec<Commit>,
}

impl View for CommitLog {
    type V = Seq<CommitModel>;

    open spec fn view(&self) -> Seq<CommitModel> {
        self.commits@.map_values(|c: Commit| c@)
    }
}

impl CommitLog {
    /// The empty log of a freshly initialized repository.
    pub fn new() -> (r: Self)
        ensures
            r@ == Seq::<CommitModel>::empty(),
    {
        let r = CommitLog { commits: Vec::new() };
        proof {
            assert(r@ =~= Seq::<CommitModel>::empty());
        }
        r
    }

    /// Adds one commit to the end of the sequence.
    pub fn append(&mut self, commit: Commit)
        ensures
            final(self)@ == old(self)@.push(commit@),
    {
        let ghost commit_model = commit@;
        self.commits.push(commit);
        proof {
            assert(self@ =~= old(self)@.push(commit_model));
        }
    }

    /// The full sequence in insertion order, oldest first.
    pub fn list_all(&self) -> (r: &Vec<Commit>)
        ensures
            r@ == self.commits@,
            r@.map_values(|c: Commit| c@) == self@,
    {
        &self.commits
    }
}

} // verus!
