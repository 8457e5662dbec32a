//! The repository: the commit log plus one per-file store for every
//! tracked file, with the commit engine and the checkout engine.

use vstd::prelude::*;
use vstd::slice::slice_to_vec;

use crate::errors::VcsError;
use crate::log::{log_has_id, Commit, CommitLog, CommitModel};
use crate::store::{store_new_model, FileStore, StoreModel};

verus! {

/// Mathematical model of one tracked file.
#[verifier::ext_equal]
pub ghost struct FileModel {
    pub path: Seq<char>,
    pub store: StoreModel,
}

/// Mathematical model of one working-directory file offered to a commit.
#[verifier::ext_equal]
pub ghost struct WorkModel {
    pub path: Seq<char>,
    pub content: Seq<u8>,
}

/// Mathematical model of a whole repository.
#[verifier::ext_equal]
pub ghost struct RepoModel {
    pub commits: Seq<CommitModel>,
    pub files: Seq<FileModel>,
}

/// One file of the working directory, as a commit observes it or as a
/// checkout reconstructs it: a relative path and full content bytes.
pub struct WorkingFile {
    pub path: String,
    pub content: Vec<u8>,
}

impl View for WorkingFile {
    type V = WorkModel;

    open spec fn view(&self) -> WorkModel {
        WorkModel { path: self.path@, content: self.content@ }
    }
}

/// One tracked file: its path and its per-file store.
pub struct TrackedFile {
    pub path: String,
    pub store: FileStore,
}

impl View for TrackedFile {
    type V = FileModel;

    open spec fn view(&self) -> FileModel {
        FileModel { path: self.path@, store: self.store@ }
    }
}

/// Whether some tracked file has path `path`.
pub open spec fn tracks(files: Seq<FileModel>, path: Seq<char>) -> bool {
    exists|i: int| 0 <= i < files.len() && (#[trigger] files[i]).path == path
}

/// The position of the first tracked file with path `path`
/// (`files.len()` past the end when none has it).
pub open spec fn path_match(files: Seq<FileModel>, path: Seq<char>) -> int
    decreases files.len(),
{
    if files.len() == 0 {
        0
    } else if files[0].path == path {
        0
    } else {
        1 + path_match(files.drop_first(), path)
    }
}

/// Whether some offered working file has path `path`.
pub open spec fn work_has_path(work: Seq<WorkModel>, path: Seq<char>) -> bool {
    exists|p: int| 0 <= p < work.len() && (#[trigger] work[p]).path == path
}

/// The position of the first offered working file with path `path`.
pub open spec fn work_match(work: Seq<WorkModel>, path: Seq<char>) -> int
    decreases work.len(),
{
    if work.len() == 0 {
        0
    } else if work[0].path == path {
        0
    } else {
        1 + work_match(work.drop_first(), path)
    }
}

/// No two tracked files share a path.
pub open spec fn unique_paths(files: Seq<FileModel>) -> bool {
    forall|i: int, j: int|
        0 <= i < files.len() && 0 <= j < files.len() && i != j ==> (#[trigger] files[i]).path != (
        #[trigger] files[j]).path
}

/// No two offered working files share a path.
pub open spec fn distinct_paths(work: Seq<WorkModel>) -> bool {
    forall|p: int, q: int|
        0 <= p < work.len() && 0 <= q < work.len() && p != q ==> (#[trigger] work[p]).path != (
        #[trigger] work[q]).path
}

/// The tracked files after a commit processes one offered working file:
/// a tracked path gets its store committed to; a path first seen now gets
/// a fresh store appended.
pub open spec fn files_commit_one(
    files: Seq<FileModel>,
    w: WorkModel,
    commit_id: Seq<char>,
    date: Seq<char>,
    description: Seq<char>,
) -> Seq<FileModel> {
    if tracks(files, w.path) {
        let i = path_match(files, w.path);
        files.update(
            i,
            FileModel {
                path: files[i].path,
                store: files[i].store.commit_content(w.content, commit_id, date, description),
            },
        )
    } else {
        files.push(
            FileModel {
                path: w.path,
                store: store_new_model(w.content, commit_id, date, description),
            },
        )
    }
}

/// The tracked files after a commit processes every offered working file,
/// in offer order.
pub open spec fn files_commit(
    files: Seq<FileModel>,
    work: Seq<WorkModel>,
    commit_id: Seq<char>,
    date: Seq<char>,
    description: Seq<char>,
) -> Seq<FileModel>
    decreases work.len(),
{
    if work.len() == 0 {
        files
    } else {
        files_commit(
            files_commit_one(files, work[0], commit_id, date, description),
            work.drop_first(),
            commit_id,
            date,
            description,
        )
    }
}

/// The whole repository after one commit: one log entry is always
/// appended, and every offered working file is processed with the same
/// commit id, date and description.
pub open spec fn repo_commit(
    r: RepoModel,
    commit_id: Seq<char>,
    date: Seq<char>,
    description: Seq<char>,
    work: Seq<WorkModel>,
) -> RepoModel {
    RepoModel {
        commits: r.commits.push(CommitModel { commit_id, date, description }),
        files: files_commit(r.files, work, commit_id, date, description),
    }
}

impl RepoModel {
    /// Well-formedness: every store is well formed, no two tracked files
    /// share a path, and every recorded commit id appears in the log.
    pub open spec fn wf(self) -> bool {
        &&& forall|i: int| 0 <= i < self.files.len() ==> (#[trigger] self.files[i]).store.wf()
        &&& unique_paths(self.files)
        &&& forall|i: int, j: int|
            0 <= i < self.files.len() && 0 <= j < self.files[i].store.records.len()
                ==> log_has_id(
                self.commits,
                (#[trigger] self.files[i].store.records[j]).commit_id,
            )
    }
}

/// When no tracked file before `i` has the path and file `i` does, `i` is
/// the first match.
pub proof fn lemma_path_match_at(files: Seq<FileModel>, path: Seq<char>, i: int)
    requires
        0 <= i < files.len(),
        files[i].path == path,
        forall|j: int| 0 <= j < i ==> (#[trigger] files[j]).path != path,
    ensures
        path_match(files, path) == i,
    decreases i,
{
    if i > 0 {
        let sub = files.drop_first();
        assert forall|j: int| 0 <= j < i - 1 implies (#[trigger] sub[j]).path != path by {
            assert(sub[j] == files[j + 1]);
        }
        assert(sub[i - 1] == files[i]);
        lemma_path_match_at(sub, path, i - 1);
    }
}

/// When some tracked file has the path, the first match is a valid
/// position, has the path, and no earlier tracked file has it.
pub proof fn lemma_path_match_found(files: Seq<FileModel>, path: Seq<char>)
    requires
        tracks(files, path),
    ensures
        0 <= path_match(files, path) < files.len(),
        files[path_match(files, path)].path == path,
        forall|j: int| 0 <= j < path_match(files, path) ==> (#[trigger] files[j]).path != path,
    decreases files.len(),
{
    if files[0].path != path {
        let sub = files.drop_first();
        let i = choose|i: int| 0 <= i < files.len() && (#[trigger] files[i]).path == path;
        assert(sub[i - 1] == files[i]);
        lemma_path_match_found(sub, path);
        let k = path_match(sub, path);
        assert(files[1 + k] == sub[k]);
        assert forall|j: int| 0 <= j < 1 + k implies (#[trigger] files[j]).path != path by {
            if j > 0 {
                assert(sub[j - 1] == files[j]);
            }
        }
    }
}

/// When some offered working file has the path, the first match is a
/// valid position, has the path, and no earlier offered file has it.
pub proof fn lemma_work_match_found(work: Seq<WorkModel>, path: Seq<char>)
    requires
        work_has_path(work, path),
    ensures
        0 <= work_match(work, path) < work.len(),
        work[work_match(work, path)].path == path,
        forall|q: int| 0 <= q < work_match(work, path) ==> (#[trigger] work[q]).path != path,
    decreases work.len(),
{
    if work[0].path != path {
        let sub = work.drop_first();
        let p = choose|p: int| 0 <= p < work.len() && (#[trigger] work[p]).path == path;
        assert(sub[p - 1] == work[p]);
        lemma_work_match_found(sub, path);
        let k = work_match(sub, path);
        assert(work[1 + k] == sub[k]);
        assert forall|q: int| 0 <= q < 1 + k implies (#[trigger] work[q]).path != path by {
            if q > 0 {
                assert(sub[q - 1] == work[q]);
            }
        }
    }
}

/// When no offered working file before `p` has the path and file `p`
/// does, `p` is the first match.
pub proof fn lemma_work_match_at(work: Seq<WorkModel>, path: Seq<char>, p: int)
    requires
        0 <= p < work.len(),
        work[p].path == path,
        forall|q: int| 0 <= q < p ==> (#[trigger] work[q]).path != path,
    ensures
        work_match(work, path) == p,
    decreases p,
{
    if p > 0 {
        let sub = work.drop_first();
        assert forall|q: int| 0 <= q < p - 1 implies (#[trigger] sub[q]).path != path by {
            assert(sub[q] == work[q + 1]);
        }
        assert(sub[p - 1] == work[p]);
        lemma_work_match_at(sub, path, p - 1);
    }
}

/// Fails with AlreadyInitialized exactly when a storage root, or a
/// foreign version-control root, is already present.
pub fn init_allowed(storage_root_exists: bool, foreign_root_exists: bool) -> (r: Result<
    (),
    VcsError,
>)
    ensures
        r == if storage_root_exists || foreign_root_exists {
            Err::<(), VcsError>(VcsError::AlreadyInitialized)
        } else {
            Ok::<(), VcsError>(())
        },
{
    if storage_root_exists || foreign_root_exists {
        Err(VcsError::AlreadyInitialized)
    } else {
        Ok(())
    }
}

/// Fails with NotInitialized exactly when no repository is present.
pub fn require_initialized(initialized: bool) -> (r: Result<(), VcsError>)
    ensures
        r == if initialized {
            Ok::<(), VcsError>(())
        } else {
            Err::<(), VcsError>(VcsError::NotInitialized)
        },
{
    if initialized {
        Ok(())
    } else {
        Err(VcsError::NotInitialized)
    }
}

/// An exact copy of a byte vector.
pub fn copy_bytes(v: &Vec<u8>) -> (r: Vec<u8>)
    ensures
        r@ == v@,
{
    slice_to_vec(v.as_slice())
}

/// The repository: the single commit log and one store per tracked file.
pub struct Repository {
    pub log: CommitLog,
    pub files: Vec<TrackedFile>,
}

impl Repository {
    /// The mathematical model of this repository.
    pub open spec fn model(&self) -> RepoModel {
        RepoModel {
            commits: self.log@,
            files: self.files@.map_values(|f: TrackedFile| f@),
        }
    }

    /// A freshly initialized repository: an empty commit log and no
    /// tracked files.
    pub fn init() -> (r: Self)
        ensures
            r.model().commits == Seq::<CommitModel>::empty(),
            r.model().files == Seq::<FileModel>::empty(),
            r.model().wf(),
    {
        let r = Repository { log: CommitLog::new(), files: Vec::new() };
        proof {
            assert(r.model().files =~= Seq::<FileModel>::empty());
        }
        r
    }

    /// The position of the tracked file with path `path`, when one exists.
    fn find_file(&self, path: &str) -> (r: Option<usize>)
        ensures
            match r {
                Some(i) => 0 <= i < self.model().files.len() && self.model().files[
                    i as int
                ].path == path@ && i as int == path_match(self.model().files, path@) && tracks(
                    self.model().files,
                    path@,
                ),
                None => !tracks(self.model().files, path@),
            },
    {
        let n = self.files.len();
        let mut i: usize = 0;
        while i < n
            invariant
                n == self.files.len(),
                0 <= i <= n,
                forall|j: int| 0 <= j < i ==> (#[trigger] self.model().files[j]).path != path@,
            decreases n - i,
        {
            proof {
                assert(self.model().files[i as int] == self.files@[i as int]@);
            }
            if crate::store::str_equal(self.files[i].path.as_str(), path) {
                proof {
                    lemma_path_match_at(self.model().files, path@, i as int);
                }
                return Some(i);
            }
            i = i + 1;
        }
        None
    }

    /// One commit: appends one log entry carrying the given id, date and
    /// description, then processes every offered working file — a file
    /// whose content differs from its most recent version gains one
    /// record and its blob grows by the new bytes; an unchanged file is
    /// untouched; a path first seen now gains a fresh store. The log entry
    /// is appended even when no file changed.
    pub fn commit(
        &mut self,
        commit_id: String,
        date: String,
        description: String,
        work: Vec<WorkingFile>,
    )
        requires
            old(self).model().wf(),
            !log_has_id(old(self).model().commits, commit_id@),
            distinct_paths(work@.map_values(|w: WorkingFile| w@)),
            forall|p: int, i: int|
                0 <= p < work@.len() && 0 <= i < old(self).model().files.len() && (
                #[trigger] old(self).model().files[i]).path == (
                #[trigger] work@[p])@.path ==> old(self).model().files[i].store.blob.len()
                    + work@[p]@.content.len() <= usize::MAX,
        ensures
            final(self).model() == repo_commit(
                old(self).model(),
                commit_id@,
                date@,
                description@,
                work@.map_values(|w: WorkingFile| w@),
            ),
            final(self).model().wf(),
    {
        let ghost work_models = work@.map_values(|w: WorkingFile| w@);
        let ghost old_model = old(self).model();
        let ghost cm = CommitModel { commit_id: commit_id@, date: date@, description: description@ };
        self.log.append(
            Commit {
                commit_id: commit_id.clone(),
                date: date.clone(),
                description: description.clone(),
            },
        );
        proof {
            assert(self.model().commits == old_model.commits.push(cm));
            assert(work_models.skip(0) =~= work_models);
            assert(self.model().files =~= old_model.files);
            assert(self.model().wf()) by {
                assert forall|i: int, j: int|
                    0 <= i < self.model().files.len()
                        && 0 <= j < self.model().files[i].store.records.len() implies log_has_id(
                    self.model().commits,
                    (#[trigger] self.model().files[i].store.records[j]).commit_id,
                ) by {
                    assert(log_has_id(
                        old_model.commits,
                        old_model.files[i].store.records[j].commit_id,
                    ));
                    let k = choose|k: int|
                        0 <= k < old_model.commits.len() && old_model.commits[k].commit_id
                            == old_model.files[i].store.records[j].commit_id;
                    assert(self.model().commits[k] == old_model.commits[k]);
                }
            }
        }
        let mut idx: usize = 0;
        while idx < work.len()
            invariant
                idx <= work.len(),
                work_models == work@.map_values(|w: WorkingFile| w@),
                work_models.len() == work@.len(),
                cm == (CommitModel { commit_id: commit_id@, date: date@, description: description@ }),
                old_model == old(self).model(),
                self.model().commits == old_model.commits.push(cm),
                self.model().wf(),
                files_commit(
                    self.model().files,
                    work_models.skip(idx as int),
                    commit_id@,
                    date@,
                    description@,
                ) == files_commit(old_model.files, work_models, commit_id@, date@, description@),
                distinct_paths(work_models),
                forall|p: int, i: int|
                    idx <= p < work_models.len() && 0 <= i < self.model().files.len() && (
                    #[trigger] self.model().files[i]).path == (#[trigger] work_models[p]).path
                        ==> self.model().files[i].store.blob.len() + work_models[p].content.len()
                        <= usize::MAX,
            decreases work@.len() - idx,
        {
            let ghost w_model = work_models[idx as int];
            let ghost cur_files = self.model().files;
            proof {
                assert(work@[idx as int]@ == w_model);
                assert(work_models.skip(idx as int)[0] == w_model);
                assert(work_models.skip(idx as int).drop_first() =~= work_models.skip(
                    idx as int + 1,
                ));
            }
            let found = self.find_file(work[idx].path.as_str());
            let ghost next_files = files_commit_one(
                cur_files,
                w_model,
                commit_id@,
                date@,
                description@,
            );
            match found {
                Some(i) => {
                    proof {
                        lemma_path_match_at(cur_files, w_model.path, i as int);
                    }
                    let tf = vstd::std_specs::vec::vec_index_mut(&mut self.files, i);
                    tf.store.record_if_changed(
                        &work[idx].content,
                        commit_id.clone(),
                        date.clone(),
                        description.clone(),
                    );
                    proof {
                        assert(self.model().files =~= next_files);
                    }
                }
                None => {
                    let content_copy = copy_bytes(&work[idx].content);
                    let path_copy = work[idx].path.clone();
                    let store = FileStore::new(
                        content_copy,
                        commit_id.clone(),
                        date.clone(),
                        description.clone(),
                    );
                    self.files.push(TrackedFile { path: path_copy, store });
                    proof {
                        assert(self.model().files =~= next_files);
                    }
                },
            }
            proof {
                assert(files_commit(
                    self.model().files,
                    work_models.skip(idx as int + 1),
                    commit_id@,
                    date@,
                    description@,
                ) == files_commit(old_model.files, work_models, commit_id@, date@, description@));
                assert(self.model().wf()) by {
                    let coms = self.model().commits;
                    assert(coms[old_model.commits.len() as int] == cm);
                    assert(log_has_id(coms, commit_id@));
                    assert forall|a: int, b: int|
                        0 <= a < next_files.len() && 0 <= b < next_files[a].store.records.len()
                            implies log_has_id(
                        coms,
                        (#[trigger] next_files[a].store.records[b]).commit_id,
                    ) by {
                        if tracks(cur_files, w_model.path) {
                            let i0 = path_match(cur_files, w_model.path);
                            if a == i0 {
                                let s_old = cur_files[a].store;
                                let s_new = next_files[a].store;
                                assert(s_new == s_old.commit_content(
                                    w_model.content,
                                    commit_id@,
                                    date@,
                                    description@,
                                ));
                                if w_model.content == s_old.latest_bytes() {
                                    assert(log_has_id(coms, s_old.records[b].commit_id));
                                } else {
                                    if b < s_old.records.len() {
                                        assert(s_new.records[b] == s_old.records[b]);
                                        assert(log_has_id(coms, s_old.records[b].commit_id));
                                    } else {
                                        assert(s_new.records[b].commit_id == commit_id@);
                                    }
                                }
                            } else {
                                assert(next_files[a] == cur_files[a]);
                                assert(log_has_id(coms, cur_files[a].store.records[b].commit_id));
                            }
                        } else {
                            if a < cur_files.len() {
                                assert(next_files[a] == cur_files[a]);
                                assert(log_has_id(coms, cur_files[a].store.records[b].commit_id));
                            } else {
                                assert(next_files[a].store == store_new_model(
                                    w_model.content,
                                    commit_id@,
                                    date@,
                                    description@,
                                ));
                                assert(next_files[a].store.records[b].commit_id == commit_id@);
                            }
                        }
                    }
                }
            }
            idx = idx + 1;
        }
        proof {
            assert(work_models.skip(work_models.len() as int) =~= Seq::<WorkModel>::empty());
            assert(self.model() =~= repo_commit(
                old_model,
                commit_id@,
                date@,
                description@,
                work_models,
            ));
        }
    }

    /// The full commit history, oldest first, exactly as appended.
    pub fn commits(&self) -> (r: &Vec<Commit>)
        ensures
            r@ == self.log.commits@,
            r@.map_values(|c: Commit| c@) == self.model().commits,
    {
        self.log.list_all()
    }

    /// Reconstructs the whole working directory as of commit `target`: one
    /// working file per tracked file, in tracking order, each carrying the
    /// bytes its store recorded under `target` — or its latest version when
    /// `target` is absent from that file's history, so a reconstruction
    /// always succeeds.
    pub fn view(&self, target: &str) -> (r: Vec<WorkingFile>)
        requires
            self.model().wf(),
        ensures
            r@.len() == self.model().files.len(),
            forall|i: int|
                0 <= i < r@.len() ==> (#[trigger] r@[i])@.path == self.model().files[i].path
                    && r@[i]@.content == self.model().files[i].store.lookup_bytes(target@),
    {
        let n = self.files.len();
        let mut r: Vec<WorkingFile> = Vec::new();
        let mut i: usize = 0;
        while i < n
            invariant
                n == self.files.len(),
                self.model().wf(),
                0 <= i <= n,
                r@.len() == i,
                forall|j: int|
                    0 <= j < i ==> (#[trigger] r@[j])@.path == self.model().files[j].path
                        && r@[j]@.content == self.model().files[j].store.lookup_bytes(target@),
            decreases n - i,
        {
            proof {
                assert(self.model().files[i as int] == self.files@[i as int]@);
            }
            let path = self.files[i].path.clone();
            let content = self.files[i].store.content_at(target);
            r.push(WorkingFile { path, content });
            i = i + 1;
        }
        r
    }
}

} // verus!
