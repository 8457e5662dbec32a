use minivcs::errors::VcsError;
use minivcs::repo::{init_allowed, require_initialized, Repository, WorkingFile};
use minivcs::store::FileStore;

fn work(path: &str, content: &str) -> WorkingFile {
    WorkingFile { path: path.to_string(), content: content.as_bytes().to_vec() }
}

fn commit(repo: &mut Repository, id: &str, date: &str, desc: &str, files: Vec<WorkingFile>) {
    repo.commit(id.to_string(), date.to_string(), desc.to_string(), files);
}

#[test]
fn init_refused_where_repository_exists() {
    assert_eq!(init_allowed(true, false), Err(VcsError::AlreadyInitialized));
    assert_eq!(init_allowed(false, true), Err(VcsError::AlreadyInitialized));
    assert_eq!(init_allowed(true, true), Err(VcsError::AlreadyInitialized));
    assert_eq!(init_allowed(false, false), Ok(()));
}

#[test]
fn commands_refused_before_init() {
    assert_eq!(require_initialized(false), Err(VcsError::NotInitialized));
    assert_eq!(require_initialized(true), Ok(()));
}

#[test]
fn first_commit_creates_one_record() {
    let mut repo = Repository::init();
    commit(&mut repo, "c1", "2024-01-01 00:00:00", "first", vec![work("a.txt", "hello")]);
    let commits = repo.commits();
    assert_eq!(commits.len(), 1);
    assert_eq!(commits[0].commit_id, "c1");
    assert_eq!(commits[0].description, "first");
    assert_eq!(repo.files.len(), 1);
    assert_eq!(repo.files[0].path, "a.txt");
    let store = &repo.files[0].store;
    assert_eq!(store.records.len(), 1);
    assert_eq!(store.records[0].offset, 0);
    assert_eq!(store.records[0].size, 5);
    assert_eq!(store.blob, b"hello".to_vec());
}

#[test]
fn changed_file_appends_contiguous_record() {
    let mut repo = Repository::init();
    commit(&mut repo, "c1", "t1", "first", vec![work("a.txt", "hello")]);
    commit(&mut repo, "c2", "t2", "second", vec![work("a.txt", "hello world")]);
    assert_eq!(repo.commits().len(), 2);
    let store = &repo.files[0].store;
    assert_eq!(store.records.len(), 2);
    assert_eq!(store.records[0].offset, 0);
    assert_eq!(store.records[0].size, 5);
    assert_eq!(store.records[1].offset, 5);
    assert_eq!(store.records[1].size, 11);
    assert_eq!(store.blob, b"hellohello world".to_vec());
}

#[test]
fn unchanged_file_grows_nothing() {
    let mut repo = Repository::init();
    commit(&mut repo, "c1", "t1", "first", vec![work("a.txt", "hello")]);
    commit(&mut repo, "c2", "t2", "second", vec![work("a.txt", "hello world")]);
    commit(&mut repo, "c3", "t3", "third", vec![work("a.txt", "hello world")]);
    assert_eq!(repo.commits().len(), 3);
    let store = &repo.files[0].store;
    assert_eq!(store.records.len(), 2);
    assert_eq!(store.blob.len(), 16);
}

#[test]
fn commit_without_files_still_logs_an_entry() {
    let mut repo = Repository::init();
    commit(&mut repo, "c1", "t1", "first", vec![work("a.txt", "hello")]);
    commit(&mut repo, "c2", "t2", "empty", vec![]);
    assert_eq!(repo.commits().len(), 2);
    assert_eq!(repo.files[0].store.records.len(), 1);
    assert_eq!(repo.files[0].store.blob.len(), 5);
}

#[test]
fn commits_keep_insertion_order() {
    let mut repo = Repository::init();
    commit(&mut repo, "c1", "t1", "first", vec![work("a.txt", "1")]);
    commit(&mut repo, "c2", "t2", "second", vec![work("b.txt", "2")]);
    commit(&mut repo, "c3", "t3", "third", vec![]);
    let commits = repo.commits();
    assert_eq!(commits.len(), 3);
    assert_eq!(commits[0].commit_id, "c1");
    assert_eq!(commits[1].commit_id, "c2");
    assert_eq!(commits[2].commit_id, "c3");
    assert_eq!(commits[0].description, "first");
    assert_eq!(commits[1].description, "second");
    assert_eq!(commits[2].description, "third");
}

#[test]
fn view_restores_old_version() {
    let mut repo = Repository::init();
    commit(&mut repo, "c1", "t1", "first", vec![work("a.txt", "hello")]);
    commit(&mut repo, "c2", "t2", "second", vec![work("a.txt", "hello world")]);
    let out = repo.view("c1");
    assert_eq!(out.len(), 1);
    assert_eq!(out[0].path, "a.txt");
    assert_eq!(out[0].content, b"hello".to_vec());
}

#[test]
fn view_round_trips_committed_content() {
    let mut repo = Repository::init();
    commit(&mut repo, "c1", "t1", "first", vec![work("a.txt", "hello"), work("b.txt", "x")]);
    commit(&mut repo, "c2", "t2", "second", vec![work("a.txt", "hello world"), work("b.txt", "x")]);
    let out = repo.view("c2");
    assert_eq!(out.len(), 2);
    assert_eq!(out[0].path, "a.txt");
    assert_eq!(out[0].content, b"hello world".to_vec());
    assert_eq!(out[1].path, "b.txt");
    assert_eq!(out[1].content, b"x".to_vec());
}

#[test]
fn view_unknown_id_falls_back_to_latest() {
    let mut repo = Repository::init();
    commit(&mut repo, "c1", "t1", "first", vec![work("a.txt", "hello")]);
    commit(&mut repo, "c2", "t2", "second", vec![work("a.txt", "hello world")]);
    let out = repo.view("no-such-id");
    assert_eq!(out.len(), 1);
    assert_eq!(out[0].content, b"hello world".to_vec());
}

#[test]
fn view_empty_id_falls_back_to_latest() {
    let mut repo = Repository::init();
    commit(&mut repo, "c1", "t1", "first", vec![work("a.txt", "hello")]);
    let out = repo.view("");
    assert_eq!(out.len(), 1);
    assert_eq!(out[0].content, b"hello".to_vec());
}

#[test]
fn view_blends_versions_per_file() {
    // A file untouched by the target commit shows its latest version.
    let mut repo = Repository::init();
    commit(&mut repo, "c1", "t1", "first", vec![work("a.txt", "a1"), work("b.txt", "b1")]);
    commit(&mut repo, "c2", "t2", "second", vec![work("a.txt", "a2"), work("b.txt", "b1")]);
    let out = repo.view("c1");
    assert_eq!(out[0].path, "a.txt");
    assert_eq!(out[0].content, b"a1".to_vec());
    assert_eq!(out[1].path, "b.txt");
    assert_eq!(out[1].content, b"b1".to_vec());
}

#[test]
fn empty_content_is_a_version_too() {
    let mut repo = Repository::init();
    commit(&mut repo, "c1", "t1", "first", vec![work("a.txt", "")]);
    commit(&mut repo, "c2", "t2", "second", vec![work("a.txt", "full")]);
    let store = &repo.files[0].store;
    assert_eq!(store.records.len(), 2);
    assert_eq!(store.records[0].size, 0);
    assert_eq!(store.records[1].offset, 0);
    let out = repo.view("c1");
    assert_eq!(out[0].content, b"".to_vec());
}

#[test]
fn read_bytes_past_end_is_truncated_store() {
    let store = FileStore::new(
        b"abc".to_vec(),
        "c1".to_string(),
        "t1".to_string(),
        "first".to_string(),
    );
    assert_eq!(store.read_bytes(2, 5), Err(VcsError::TruncatedStore));
    assert_eq!(store.read_bytes(0, 4), Err(VcsError::TruncatedStore));
    assert_eq!(store.read_bytes(1, 2), Ok(b"bc".to_vec()));
    assert_eq!(store.read_bytes(3, 0), Ok(b"".to_vec()));
}

#[test]
fn lookup_finds_matching_record() {
    let mut store = FileStore::new(
        b"one".to_vec(),
        "c1".to_string(),
        "t1".to_string(),
        "first".to_string(),
    );
    let changed = store.record_if_changed(
        &b"three".to_vec(),
        "c2".to_string(),
        "t2".to_string(),
        "second".to_string(),
    );
    assert!(changed);
    assert_eq!(store.lookup("c1"), (0, 3));
    assert_eq!(store.lookup("c2"), (3, 5));
    assert_eq!(store.lookup("other"), (3, 5));
    assert_eq!(store.content_at("c1"), b"one".to_vec());
    assert_eq!(store.content_at("c2"), b"three".to_vec());
    assert_eq!(store.content_at("other"), b"three".to_vec());
}

#[test]
fn record_if_changed_detects_identical_content() {
    let mut store = FileStore::new(
        b"same".to_vec(),
        "c1".to_string(),
        "t1".to_string(),
        "first".to_string(),
    );
    let changed = store.record_if_changed(
        &b"same".to_vec(),
        "c2".to_string(),
        "t2".to_string(),
        "second".to_string(),
    );
    assert!(!changed);
    assert_eq!(store.records.len(), 1);
    assert_eq!(store.blob, b"same".to_vec());
}
