//! The per-file store: an ordered list of version records plus an
//! append-only byte arena (the blob), addressed by (offset, size) pairs.

use vstd::prelude::*;
use vstd::slice::{slice_index_get, slice_subrange, slice_to_vec};
use vstd::string::StrSliceExecFns;

use crate::errors::VcsError;

verus! {

/// Mathematical model of one version record.
#[verifier::ext_equal]
pub ghost struct RecordModel {
    pub commit_id: Seq<char>,
    pub date: Seq<char>,
    pub description: Seq<char>,
    pub offset: int,
    pub size: int,
}

/// Mathematical model of one per-file store.
#[verifier::ext_equal]
pub ghost struct StoreModel {
    pub records: Seq<RecordModel>,
    pub blob: Seq<u8>,
}

/// The position of the first record whose commit id is `target`
/// (`records.len()` past the end when none matches).
pub open spec fn first_match(records: Seq<RecordModel>, target: Seq<char>) -> int
    decreases records.len(),
{
    if records.len() == 0 {
        0
    } else if records[0].commit_id == target {
        0
    } else {
        1 + first_match(records.drop_first(), target)
    }
}

/// The model of a store freshly created from one version.
pub open spec fn store_new_model(
    content: Seq<u8>,
    commit_id: Seq<char>,
    date: Seq<char>,
    description: Seq<char>,
) -> StoreModel {
    StoreModel {
        records: seq![
            RecordModel { commit_id, date, description, offset: 0, size: content.len() as int },
        ],
        blob: content,
    }
}

impl StoreModel {
    /// The most recent record.
    pub open spec fn last(self) -> RecordModel {
        self.records[self.records.len() - 1]
    }

    /// Well-formedness: at least one record, records strictly contiguous
    /// from offset 0, and the blob ends exactly where the last record ends.
    pub open spec fn wf(self) -> bool {
        &&& self.records.len() >= 1
        &&& self.records[0].offset == 0
        &&& forall|i: int|
            0 <= i < self.records.len() ==> (#[trigger] self.records[i]).offset >= 0
                && self.records[i].size >= 0
        &&& forall|i: int|
            0 < i < self.records.len() ==> (#[trigger] self.records[i]).offset == self.records[
                i - 1
            ].offset + self.records[i - 1].size
        &&& self.last().offset + self.last().size == self.blob.len()
    }

    /// The bytes of the version described by record `i`.
    pub open spec fn version_bytes(self, i: int) -> Seq<u8> {
        self.blob.subrange(self.records[i].offset, self.records[i].offset + self.records[i].size)
    }

    /// The bytes of the most recent version.
    pub open spec fn latest_bytes(self) -> Seq<u8> {
        self.version_bytes(self.records.len() - 1)
    }

    /// Whether some record carries commit id `target`.
    pub open spec fn has_record(self, target: Seq<char>) -> bool {
        exists|i: int| 0 <= i < self.records.len() && self.records[i].commit_id == target
    }

    /// The record a lookup selects: the first one whose commit id is
    /// `target`, or the most recent one when no record matches.
    pub open spec fn lookup_index(self, target: Seq<char>) -> int {
        if self.has_record(target) {
            first_match(self.records, target)
        } else {
            self.records.len() - 1
        }
    }

    /// The bytes a lookup for `target` selects.
    pub open spec fn lookup_bytes(self, target: Seq<char>) -> Seq<u8> {
        self.version_bytes(self.lookup_index(target))
    }

    /// The model of this store after one commit offers `content`: unchanged
    /// content is not recorded; changed content is appended to the blob and
    /// described by one new record.
    pub open spec fn commit_content(
        self,
        content: Seq<u8>,
        commit_id: Seq<char>,
        date: Seq<char>,
        description: Seq<char>,
    ) -> StoreModel {
        if content == self.latest_bytes() {
            self
        } else {
            StoreModel {
                records: self.records.push(
                    RecordModel {
                        commit_id,
                        date,
                        description,
                        offset: self.blob.len() as int,
                        size: content.len() as int,
                    },
                ),
                blob: self.blob + content,
            }
        }
    }
}

/// Every record of a well-formed store lies within the blob.
pub proof fn lemma_record_within_blob(s: StoreModel, i: int)
    requires
        s.wf(),
        0 <= i < s.records.len(),
    ensures
        s.records[i].offset >= 0,
        s.records[i].offset + s.records[i].size <= s.blob.len(),
    decreases s.records.len() - i,
{
    if i < s.records.len() - 1 {
        lemma_record_within_blob(s, i + 1);
        assert(s.records[i + 1].offset == s.records[i].offset + s.records[i].size);
    }
}

/// When no record before `i` matches and record `i` does, `i` is the
/// first match.
pub proof fn lemma_first_match_at(records: Seq<RecordModel>, target: Seq<char>, i: int)
    requires
        0 <= i < records.len(),
        records[i].commit_id == target,
        forall|j: int| 0 <= j < i ==> (#[trigger] records[j]).commit_id != target,
    ensures
        first_match(records, target) == i,
    decreases i,
{
    if i > 0 {
        let sub = records.drop_first();
        assert forall|j: int| 0 <= j < i - 1 implies (#[trigger] sub[j]).commit_id != target by {
            assert(sub[j] == records[j + 1]);
        }
        assert(sub[i - 1] == records[i]);
        lemma_first_match_at(sub, target, i - 1);
    }
}

/// The first match of a matching store is a matching record, and no
/// earlier record matches.
pub proof fn lemma_first_match_found(records: Seq<RecordModel>, target: Seq<char>)
    requires
        exists|i: int| 0 <= i < records.len() && (#[trigger] records[i]).commit_id == target,
    ensures
        0 <= first_match(records, target) < records.len(),
        records[first_match(records, target)].commit_id == target,
        forall|j: int|
            0 <= j < first_match(records, target) ==> (#[trigger] records[j]).commit_id != target,
    decreases records.len(),
{
    if records[0].commit_id != target {
        let sub = records.drop_first();
        let i = choose|i: int| 0 <= i < records.len() && (#[trigger] records[i]).commit_id == target;
        assert(sub[i - 1] == records[i]);
        lemma_first_match_found(sub, target);
        let k = first_match(sub, target);
        assert(records[1 + k] == sub[k]);
        assert forall|j: int| 0 <= j < 1 + k implies (#[trigger] records[j]).commit_id != target by {
            if j > 0 {
                assert(sub[j - 1] == records[j]);
            }
        }
    }
}

/// The index a lookup selects is always a valid record index.
pub proof fn lemma_lookup_index_in_range(s: StoreModel, target: Seq<char>)
    requires
        s.wf(),
    ensures
        0 <= s.lookup_index(target) < s.records.len(),
{
    if s.has_record(target) {
        lemma_first_match_found(s.records, target);
    }
}

/// One stored version of one tracked file.
pub struct VersionRecord {
    pub commit_id: String,
    pub date: String,
    pub description: String,
    pub offset: usize,
    pub size: usize,
}

impl View for VersionRecord {
    type V = RecordModel;

    open spec fn view(&self) -> RecordModel {
        RecordModel {
            commit_id: self.commit_id@,
            date: self.date@,
            description: self.description@,
            offset: self.offset as int,
            size: self.size as int,
        }
    }
}

/// The version history of one tracked file: its ordered record list and
/// its append-only blob.
pub struct FileStore {
    pub records: Vec<VersionRecord>,
    pub blob: Vec<u8>,
}

impl View for FileStore {
    type V = StoreModel;

    open spec fn view(&self) -> StoreModel {
        StoreModel {
            records: self.records@.map_values(|r: VersionRecord| r@),
            blob: self.blob@,
        }
    }
}

/// Byte-for-byte equality of two byte slices.
pub fn bytes_equal(a: &[u8], b: &[u8]) -> (r: bool)
    ensures
        r == (a@ == b@),
{
    if a.len() != b.len() {
        return false;
    }
    let mut i: usize = 0;
    while i < a.len()
        invariant
            i <= a@.len(),
            a@.len() == b@.len(),
            forall|j: int| 0 <= j < i ==> a@[j] == b@[j],
        decreases a@.len() - i,
    {
        if *slice_index_get(a, i) != *slice_index_get(b, i) {
            return false;
        }
        i = i + 1;
    }
    proof {
        assert(a@ =~= b@);
    }
    true
}

/// Character-for-character equality of two strings.
pub fn str_equal(a: &str, b: &str) -> (r: bool)
    ensures
        r == (a@ == b@),
{
    let a_len = a.unicode_len();
    let b_len = b.unicode_len();
    if a_len != b_len {
        return false;
    }
    let mut i: usize = 0;
    while i < a_len
        invariant
            i <= a@.len(),
            a_len == a@.len(),
            a@.len() == b@.len(),
            forall|j: int| 0 <= j < i ==> a@[j] == b@[j],
        decreases a@.len() - i,
    {
        if a.get_char(i) != b.get_char(i) {
            return false;
        }
        i = i + 1;
    }
    proof {
        assert(a@ =~= b@);
    }
    true
}

impl FileStore {
    /// Creates the store for a file first seen now: one record at offset 0
    /// and a blob holding exactly the initial content.
    pub fn new(content: Vec<u8>, commit_id: String, date: String, description: String) -> (s: Self)
        ensures
            s@ == store_new_model(content@, commit_id@, date@, description@),
            s@.wf(),
    {
        let size = content.len();
        let rec = VersionRecord { commit_id, date, description, offset: 0, size };
        let ghost rec_model = rec@;
        let mut records: Vec<VersionRecord> = Vec::new();
        records.push(rec);
        let s = FileStore { records, blob: content };
        proof {
            assert(s@.records =~= seq![rec_model]);
            assert(s@ =~= store_new_model(s.blob@, rec_model.commit_id, rec_model.date,
                rec_model.description));
        }
        s
    }

    /// Records `content` when it differs byte-for-byte from the most recent
    /// version; does nothing when it is identical. Returns whether a new
    /// version was recorded.
    pub fn record_if_changed(
        &mut self,
        content: &Vec<u8>,
        commit_id: String,
        date: String,
        description: String,
    ) -> (changed: bool)
        requires
            old(self)@.wf(),
            old(self)@.blob.len() + content@.len() <= usize::MAX,
        ensures
            final(self)@ == old(self)@.commit_content(content@, commit_id@, date@, description@),
            final(self)@.wf(),
            changed == (content@ != old(self)@.latest_bytes()),
    {
        let n = self.records.len();
        let offset = self.records[n - 1].offset;
        let size = self.records[n - 1].size;
        proof {
            assert(self@.records[n - 1] == self.records@[n - 1 as int]@);
            lemma_record_within_blob(self@, n - 1 as int);
        }
        let last_bytes = slice_subrange(self.blob.as_slice(), offset, offset + size);
        if bytes_equal(last_bytes, content.as_slice()) {
            proof {
                assert(content@ == old(self)@.latest_bytes());
            }
            false
        } else {
            let ghost old_model = self@;
            let new_offset = offset + size;
            let rec = VersionRecord {
                commit_id,
                date,
                description,
                offset: new_offset,
                size: content.len(),
            };
            let ghost rec_model = rec@;
            self.records.push(rec);
            self.blob.extend_from_slice(content.as_slice());
            proof {
                assert(self.blob@ =~= old_model.blob + content@);
                assert(self@.records =~= old_model.records.push(rec_model));
                let target = old_model.commit_content(content@, commit_id@, date@, description@);
                assert(self@ =~= target);
                assert(self@.wf()) by {
                    assert(forall|i: int|
                        0 <= i < old_model.records.len() ==> self@.records[i]
                            == old_model.records[i]);
                }
            }
            true
        }
    }

    /// Finds the (offset, size) pair of the first record carrying commit id
    /// `target`, falling back to the most recent record when no record
    /// matches. The fallback is deliberate policy: a checkout always
    /// succeeds, an unmatched id simply yields the latest version.
    pub fn lookup(&self, target: &str) -> (r: (usize, usize))
        requires
            self@.wf(),
        ensures
            r.0 == self@.records[self@.lookup_index(target@)].offset,
            r.1 == self@.records[self@.lookup_index(target@)].size,
    {
        let n = self.records.len();
        let mut i: usize = 0;
        while i < n
            invariant
                self@.wf(),
                n == self.records.len(),
                0 <= i <= n,
                forall|j: int| 0 <= j < i ==> (#[trigger] self@.records[j]).commit_id != target@,
            decreases n - i,
        {
            if str_equal(self.records[i].commit_id.as_str(), target) {
                proof {
                    assert(self@.records[i as int] == self.records@[i as int]@);
                    lemma_first_match_at(self@.records, target@, i as int);
                }
                return (self.records[i].offset, self.records[i].size);
            }
            proof {
                assert(self@.records[i as int] == self.records@[i as int]@);
            }
            i = i + 1;
        }
        proof {
            assert(!self@.has_record(target@));
        }
        (self.records[n - 1].offset, self.records[n - 1].size)
    }

    /// Reads exactly `size` bytes starting at `offset` from the blob;
    /// fails with TruncatedStore when the blob holds fewer bytes.
    pub fn read_bytes(&self, offset: usize, size: usize) -> (r: Result<Vec<u8>, VcsError>)
        ensures
            match r {
                Ok(bytes) => offset + size <= self@.blob.len() && bytes@ == self@.blob.subrange(
                    offset as int,
                    offset as int + size as int,
                ),
                Err(e) => offset + size > self@.blob.len() && e == VcsError::TruncatedStore,
            },
    {
        if size > self.blob.len() || offset > self.blob.len() - size {
            return Err(VcsError::TruncatedStore);
        }
        let s = slice_subrange(self.blob.as_slice(), offset, offset + size);
        Ok(slice_to_vec(s))
    }

    /// The bytes of the version a lookup for `target` selects: the version
    /// recorded under that commit id, or the latest version when the id is
    /// absent from this file's history.
    pub fn content_at(&self, target: &str) -> (r: Vec<u8>)
        requires
            self@.wf(),
        ensures
            r@ == self@.lookup_bytes(target@),
    {
        let ghost k = self@.lookup_index(target@);
        proof {
            lemma_lookup_index_in_range(self@, target@);
            lemma_record_within_blob(self@, k);
        }
        let (offset, size) = self.lookup(target);
        let blob_len = self.blob.len();
        proof {
            assert(offset as int == self@.records[k].offset);
            assert(size as int == self@.records[k].size);
            assert(offset + size <= blob_len);
        }
        let s = slice_subrange(self.blob.as_slice(), offset, offset + size);
        let r = slice_to_vec(s);
        proof {
            assert(r@ == self@.version_bytes(k));
        }
        r
    }
}

} // verus!
