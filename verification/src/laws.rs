//! The laws of the storage engine: what one commit does to every tracked
//! file, and what a reconstruction yields afterwards.

use vstd::prelude::*;

use crate::log::{log_has_id, CommitModel};
use crate::repo::{
    distinct_paths, files_commit, files_commit_one, lemma_path_match_at, lemma_path_match_found,
    lemma_work_match_at, lemma_work_match_found, path_match, repo_commit, tracks, unique_paths, work_has_path,
    work_match, FileModel, RepoModel, WorkModel,
};
use crate::store::{
    lemma_first_match_at, store_new_model, RecordModel, StoreModel,
};

verus! {

/// A commit id absent from a file's history selects that file's most
/// recent version, not an error.
pub proof fn lemma_unmatched_id_falls_back(s: StoreModel, target: Seq<char>)
    requires
        s.wf(),
        forall|i: int| 0 <= i < s.records.len() ==> (#[trigger] s.records[i]).commit_id != target,
    ensures
        s.lookup_bytes(target) == s.latest_bytes(),
{
    assert(!s.has_record(target));
}

/// A store created from one version yields that version's content for
/// every requested commit id: a match and the fallback agree.
pub proof fn lemma_new_store_lookup(
    content: Seq<u8>,
    commit_id: Seq<char>,
    date: Seq<char>,
    description: Seq<char>,
    target: Seq<char>,
)
    ensures
        store_new_model(content, commit_id, date, description).lookup_bytes(target) == content,
{
    let s = store_new_model(content, commit_id, date, description);
    if s.has_record(target) {
        lemma_first_match_at(s.records, target, 0);
    }
    assert(s.lookup_index(target) == 0);
    assert(s.version_bytes(0) =~= content);
}

/// Round trip at one store: after a commit under a fresh id offers
/// content, looking that id up yields exactly that content — whether the
/// content was recorded anew or was already the latest version.
pub proof fn lemma_store_commit_roundtrip(
    s: StoreModel,
    content: Seq<u8>,
    commit_id: Seq<char>,
    date: Seq<char>,
    description: Seq<char>,
)
    requires
        s.wf(),
        forall|i: int|
            0 <= i < s.records.len() ==> (#[trigger] s.records[i]).commit_id != commit_id,
    ensures
        s.commit_content(content, commit_id, date, description).lookup_bytes(commit_id)
            == content,
{
    let s2 = s.commit_content(content, commit_id, date, description);
    if content == s.latest_bytes() {
        lemma_unmatched_id_falls_back(s, commit_id);
    } else {
        let n = s.records.len() as int;
        let rec = RecordModel {
            commit_id,
            date,
            description,
            offset: s.blob.len() as int,
            size: content.len() as int,
        };
        assert(s2.records == s.records.push(rec));
        assert(s2.records[n] == rec);
        assert(s2.has_record(commit_id));
        assert forall|j: int| 0 <= j < n implies (#[trigger] s2.records[j]).commit_id != commit_id by {
            assert(s2.records[j] == s.records[j]);
        }
        lemma_first_match_at(s2.records, commit_id, n);
        assert(s2.lookup_index(commit_id) == n);
        assert(s2.version_bytes(n) =~= content);
    }
}

/// One processed working file leaves every tracked path in place and
/// keeps paths unique.
pub proof fn lemma_commit_one_preserves(
    files: Seq<FileModel>,
    w: WorkModel,
    commit_id: Seq<char>,
    date: Seq<char>,
    description: Seq<char>,
)
    requires
        unique_paths(files),
    ensures
        ({
            let f1 = files_commit_one(files, w, commit_id, date, description);
            &&& f1.len() >= files.len()
            &&& unique_paths(f1)
            &&& forall|k: int| 0 <= k < files.len() ==> (#[trigger] f1[k]).path == files[k].path
        }),
{
    let f1 = files_commit_one(files, w, commit_id, date, description);
    if tracks(files, w.path) {
        lemma_path_match_found(files, w.path);
        assert(forall|k: int| 0 <= k < files.len() ==> (#[trigger] f1[k]).path == files[k].path);
    } else {
        assert forall|a: int, b: int|
            0 <= a < f1.len() && 0 <= b < f1.len() && a != b implies (#[trigger] f1[a]).path != (
        #[trigger] f1[b]).path by {
            if a < files.len() && b < files.len() {
                assert(f1[a] == files[a] && f1[b] == files[b]);
            } else if a < files.len() {
                assert(f1[b].path == w.path);
                if files[a].path == w.path {
                    assert(tracks(files, w.path));
                }
            } else {
                assert(f1[a].path == w.path);
                if files[b].path == w.path {
                    assert(tracks(files, w.path));
                }
            }
        }
    }
}

/// A run of working files none of which has path `p` touches no tracked
/// file with path `p`, and creates none.
pub proof fn lemma_files_commit_avoids_path(
    files: Seq<FileModel>,
    work: Seq<WorkModel>,
    commit_id: Seq<char>,
    date: Seq<char>,
    description: Seq<char>,
    p: Seq<char>,
)
    requires
        forall|q: int| 0 <= q < work.len() ==> (#[trigger] work[q]).path != p,
    ensures
        ({
            let after = files_commit(files, work, commit_id, date, description);
            &&& after.len() >= files.len()
            &&& forall|k: int|
                0 <= k < files.len() && (#[trigger] files[k]).path == p ==> after[k] == files[k]
            &&& forall|k: int|
                0 <= k < after.len() && (#[trigger] after[k]).path == p ==> 0 <= k < files.len()
                    && after[k] == files[k]
        }),
    decreases work.len(),
{
    if work.len() > 0 {
        let w0 = work[0];
        let f1 = files_commit_one(files, w0, commit_id, date, description);
        let rest = work.drop_first();
        assert forall|q: int| 0 <= q < rest.len() implies (#[trigger] rest[q]).path != p by {
            assert(rest[q] == work[q + 1]);
        }
        if tracks(files, w0.path) {
            let i0 = path_match(files, w0.path);
            lemma_path_match_found(files, w0.path);
            assert(files[i0].path == w0.path);
            assert(f1[i0].path == w0.path);
        } else {
            assert(f1[files.len() as int].path == w0.path);
        }
        assert forall|k: int|
            0 <= k < files.len() && (#[trigger] files[k]).path == p implies f1[k] == files[k] by {}
        assert forall|k: int|
            0 <= k < f1.len() && (#[trigger] f1[k]).path == p implies 0 <= k < files.len() && f1[k]
            == files[k] by {}
        lemma_files_commit_avoids_path(f1, rest, commit_id, date, description, p);
    }
}

/// The effect of one whole commit on a tracked file: when some offered
/// working file has its path, its store is committed to with that file's
/// content; otherwise it is left exactly as it was. Its position and path
/// never change.
pub proof fn lemma_commit_file_effect(
    files: Seq<FileModel>,
    work: Seq<WorkModel>,
    commit_id: Seq<char>,
    date: Seq<char>,
    description: Seq<char>,
    i: int,
)
    requires
        unique_paths(files),
        distinct_paths(work),
        0 <= i < files.len(),
    ensures
        ({
            let after = files_commit(files, work, commit_id, date, description);
            &&& after.len() >= files.len()
            &&& after[i].path == files[i].path
            &&& after[i].store == if work_has_path(work, files[i].path) {
                files[i].store.commit_content(
                    work[work_match(work, files[i].path)].content,
                    commit_id,
                    date,
                    description,
                )
            } else {
                files[i].store
            }
        }),
    decreases work.len(),
{
    let p = files[i].path;
    let after = files_commit(files, work, commit_id, date, description);
    if work.len() == 0 {
        assert(!work_has_path(work, p));
    } else {
        let w0 = work[0];
        let f1 = files_commit_one(files, w0, commit_id, date, description);
        let rest = work.drop_first();
        lemma_commit_one_preserves(files, w0, commit_id, date, description);
        assert forall|a: int, b: int|
            0 <= a < rest.len() && 0 <= b < rest.len() && a != b implies (
        #[trigger] rest[a]).path != (#[trigger] rest[b]).path by {
            assert(rest[a] == work[a + 1] && rest[b] == work[b + 1]);
        }
        if w0.path == p {
            assert forall|j: int| 0 <= j < i implies (#[trigger] files[j]).path != p by {}
            lemma_path_match_at(files, p, i);
            assert(tracks(files, p));
            assert(f1[i].path == p);
            assert(f1[i].store == files[i].store.commit_content(
                w0.content,
                commit_id,
                date,
                description,
            ));
            assert forall|q: int| 0 <= q < rest.len() implies (#[trigger] rest[q]).path != p by {
                assert(rest[q] == work[q + 1]);
            }
            lemma_files_commit_avoids_path(f1, rest, commit_id, date, description, p);
            assert(after[i] == f1[i]);
            assert(work_has_path(work, p));
            assert(work_match(work, p) == 0);
        } else {
            if tracks(files, w0.path) {
                let i0 = path_match(files, w0.path);
                lemma_path_match_found(files, w0.path);
                assert(files[i0].path == w0.path);
                assert(i0 != i);
                assert(f1[i] == files[i]);
            } else {
                assert(f1[i] == files[i]);
            }
            lemma_commit_file_effect(f1, rest, commit_id, date, description, i);
            assert(work_has_path(work, p) == work_has_path(rest, p)) by {
                if work_has_path(work, p) {
                    let q = choose|q: int|
                        0 <= q < work.len() && (#[trigger] work[q]).path == p;
                    assert(q != 0);
                    assert(rest[q - 1] == work[q]);
                    assert(work_has_path(rest, p));
                }
                if work_has_path(rest, p) {
                    let q = choose|q: int|
                        0 <= q < rest.len() && (#[trigger] rest[q]).path == p;
                    assert(work[q + 1] == rest[q]);
                    assert(work_has_path(work, p));
                }
            }
            if work_has_path(work, p) {
                lemma_work_match_found(rest, p);
                assert(work_match(work, p) == 1 + work_match(rest, p));
                assert(work[work_match(work, p)] == rest[work_match(rest, p)]);
            }
        }
    }
}

/// A file committed unchanged — its offered content equal to its most
/// recent version, or its path not offered at all — gains no record and
/// no blob bytes: its whole store is exactly what it was.
pub proof fn lemma_commit_unchanged_file(
    r: RepoModel,
    work: Seq<WorkModel>,
    commit_id: Seq<char>,
    date: Seq<char>,
    description: Seq<char>,
    i: int,
)
    requires
        r.wf(),
        distinct_paths(work),
        0 <= i < r.files.len(),
        work_has_path(work, r.files[i].path) ==> work[work_match(
            work,
            r.files[i].path,
        )].content == r.files[i].store.latest_bytes(),
    ensures
        ({
            let after = repo_commit(r, commit_id, date, description, work);
            &&& after.files[i] == r.files[i]
            &&& after.files[i].store.records.len() == r.files[i].store.records.len()
            &&& after.files[i].store.blob.len() == r.files[i].store.blob.len()
        }),
{
    lemma_commit_file_effect(r.files, work, commit_id, date, description, i);
}

/// A file whose offered content differs from its most recent version
/// gains exactly one record in that commit: at offset equal to the prior
/// cumulative size (the old blob length), sized by the new content, whose
/// bytes are appended to the blob.
pub proof fn lemma_commit_changed_file(
    r: RepoModel,
    work: Seq<WorkModel>,
    commit_id: Seq<char>,
    date: Seq<char>,
    description: Seq<char>,
    i: int,
    j: int,
)
    requires
        r.wf(),
        distinct_paths(work),
        0 <= i < r.files.len(),
        0 <= j < work.len(),
        work[j].path == r.files[i].path,
        work[j].content != r.files[i].store.latest_bytes(),
    ensures
        ({
            let after = repo_commit(r, commit_id, date, description, work);
            let prior = r.files[i].store;
            &&& after.files[i].store.records == prior.records.push(
                RecordModel {
                    commit_id,
                    date,
                    description,
                    offset: prior.blob.len() as int,
                    size: work[j].content.len() as int,
                },
            )
            &&& after.files[i].store.blob == prior.blob + work[j].content
            &&& prior.blob.len() == prior.last().offset + prior.last().size
        }),
{
    lemma_commit_file_effect(r.files, work, commit_id, date, description, i);
    assert forall|q: int| 0 <= q < j implies (#[trigger] work[q]).path != work[j].path by {}
    lemma_work_match_at(work, r.files[i].path, j);
}

/// Round trip through a whole commit, for a path already tracked:
/// committing content under a fresh id and then looking that id up in the
/// file's store yields exactly that content.
pub proof fn lemma_commit_view_roundtrip_tracked(
    r: RepoModel,
    work: Seq<WorkModel>,
    commit_id: Seq<char>,
    date: Seq<char>,
    description: Seq<char>,
    i: int,
    j: int,
)
    requires
        r.wf(),
        !log_has_id(r.commits, commit_id),
        distinct_paths(work),
        0 <= i < r.files.len(),
        0 <= j < work.len(),
        work[j].path == r.files[i].path,
    ensures
        ({
            let after = repo_commit(r, commit_id, date, description, work);
            &&& after.files[i].path == work[j].path
            &&& after.files[i].store.lookup_bytes(commit_id) == work[j].content
        }),
{
    lemma_commit_file_effect(r.files, work, commit_id, date, description, i);
    assert forall|q: int| 0 <= q < j implies (#[trigger] work[q]).path != work[j].path by {}
    lemma_work_match_at(work, r.files[i].path, j);
    assert forall|b: int|
        0 <= b < r.files[i].store.records.len() implies (
    #[trigger] r.files[i].store.records[b]).commit_id != commit_id by {
        if r.files[i].store.records[b].commit_id == commit_id {
            assert(log_has_id(r.commits, commit_id));
        }
    }
    lemma_store_commit_roundtrip(
        r.files[i].store,
        work[j].content,
        commit_id,
        date,
        description,
    );
}

/// Round trip through a whole commit, for a path first seen in it: the
/// commit creates exactly one store for that path, and looking the new
/// commit id up in it yields exactly the committed content.
pub proof fn lemma_commit_view_roundtrip_new(
    r: RepoModel,
    work: Seq<WorkModel>,
    commit_id: Seq<char>,
    date: Seq<char>,
    description: Seq<char>,
    j: int,
)
    requires
        distinct_paths(work),
        0 <= j < work.len(),
        !tracks(r.files, work[j].path),
    ensures
        ({
            let after = repo_commit(r, commit_id, date, description, work);
            &&& tracks(after.files, work[j].path)
            &&& forall|k: int|
                0 <= k < after.files.len() && (#[trigger] after.files[k]).path == work[j].path
                    ==> after.files[k].store.lookup_bytes(commit_id) == work[j].content
        }),
{
    lemma_files_commit_fresh_path(r.files, work, commit_id, date, description, j);
    lemma_new_store_lookup(work[j].content, commit_id, date, description, commit_id);
}

/// A path not yet tracked and offered once is tracked afterwards, by a
/// fresh store holding exactly the offered content.
pub proof fn lemma_files_commit_fresh_path(
    files: Seq<FileModel>,
    work: Seq<WorkModel>,
    commit_id: Seq<char>,
    date: Seq<char>,
    description: Seq<char>,
    j: int,
)
    requires
        distinct_paths(work),
        0 <= j < work.len(),
        !tracks(files, work[j].path),
    ensures
        ({
            let after = files_commit(files, work, commit_id, date, description);
            let p = work[j].path;
            &&& tracks(after, p)
            &&& forall|k: int|
                0 <= k < after.len() && (#[trigger] after[k]).path == p ==> after[k].store
                    == store_new_model(work[j].content, commit_id, date, description)
        }),
    decreases work.len(),
{
    let p = work[j].path;
    let w0 = work[0];
    let f1 = files_commit_one(files, w0, commit_id, date, description);
    let rest = work.drop_first();
    assert forall|a: int, b: int|
        0 <= a < rest.len() && 0 <= b < rest.len() && a != b implies (#[trigger] rest[a]).path != (
    #[trigger] rest[b]).path by {
        assert(rest[a] == work[a + 1] && rest[b] == work[b + 1]);
    }
    if j == 0 {
        assert(f1 == files.push(
            FileModel { path: p, store: store_new_model(w0.content, commit_id, date, description) },
        ));
        assert forall|q: int| 0 <= q < rest.len() implies (#[trigger] rest[q]).path != p by {
            assert(rest[q] == work[q + 1]);
        }
        lemma_files_commit_avoids_path(f1, rest, commit_id, date, description, p);
        let after = files_commit(files, work, commit_id, date, description);
        assert(f1[files.len() as int].path == p);
        assert(after[files.len() as int] == f1[files.len() as int]);
        assert(tracks(after, p));
        assert forall|k: int|
            0 <= k < after.len() && (#[trigger] after[k]).path == p implies after[k].store
            == store_new_model(work[j].content, commit_id, date, description) by {
            assert(after[k] == f1[k]);
            if k < files.len() {
                assert(files[k].path == p);
                assert(tracks(files, p));
            }
        }
    } else {
        assert(w0.path != p);
        assert(!tracks(f1, p)) by {
            if tracks(f1, p) {
                let k = choose|k: int| 0 <= k < f1.len() && (#[trigger] f1[k]).path == p;
                if tracks(files, w0.path) {
                    lemma_path_match_found(files, w0.path);
                    assert(f1[k].path == files[k].path);
                    assert(tracks(files, p));
                } else {
                    if k < files.len() {
                        assert(f1[k] == files[k]);
                        assert(tracks(files, p));
                    } else {
                        assert(f1[k].path == w0.path);
                    }
                }
            }
        }
        assert(rest[j - 1] == work[j]);
        lemma_files_commit_fresh_path(f1, rest, commit_id, date, description, j - 1);
    }
}

/// The log after a commit is exactly the old log with that commit's entry
/// appended at the end: listing commits always shows insertion order,
/// oldest first, whatever was committed before.
pub proof fn lemma_commit_log_order(
    r: RepoModel,
    commit_id: Seq<char>,
    date: Seq<char>,
    description: Seq<char>,
    work: Seq<WorkModel>,
)
    ensures
        repo_commit(r, commit_id, date, description, work).commits == r.commits.push(
            CommitModel { commit_id, date, description },
        ),
{
}

} // verus!
