//! The files of a snapshot: for each path, the blob holding its content, or a
//! marker that the file was deleted.
use vstd::prelude::*;
use crate::ids::{is_random_uuid, random_id};

verus! {

/// What a snapshot records of one file.
#[derive(Clone, Debug)]
pub struct FileEntry {
    /// The name of the blob holding the content; none for a deleted file.
    pub hash: Option<String>,
    pub size: u64,
    pub deleted: bool,
}

/// The mathematical content of a `FileEntry`.
pub struct FileRecord {
    pub hash: Option<Seq<char>>,
    pub size: u64,
    pub deleted: bool,
}

impl View for FileEntry {
    type V = FileRecord;

    open spec fn view(&self) -> FileRecord {
        FileRecord {
            hash: match self.hash {
                Some(h) => Some(h@),
                None => None,
            },
            size: self.size,
            deleted: self.deleted,
        }
    }
}

/// The record of a file whose content was stored under `hash`.
pub open spec fn stored_record(hash: Seq<char>, size: u64) -> FileRecord {
    FileRecord { hash: Some(hash), size, deleted: false }
}

/// The record of a file that is gone.
pub open spec fn deleted_record() -> FileRecord {
    FileRecord { hash: None, size: 0, deleted: true }
}

pub open spec fn keys_unique(entries: Seq<(String, FileEntry)>) -> bool {
    forall|i: int, j: int|
        0 <= i < entries.len() && 0 <= j < entries.len() && i != j ==> entries[i].0@
            != entries[j].0@
}

pub open spec fn map_of(entries: Seq<(String, FileEntry)>) -> Map<Seq<char>, FileRecord>
    decreases entries.len(),
{
    if entries.len() == 0 {
        Map::empty()
    } else {
        map_of(entries.drop_last()).insert(entries.last().0@, entries.last().1@)
    }
}

proof fn lemma_map_of(entries: Seq<(String, FileEntry)>)
    requires
        keys_unique(entries),
    ensures
        map_of(entries).dom().finite(),
        forall|i: int|
            0 <= i < entries.len() ==> map_of(entries).contains_key(#[trigger] entries[i].0@)
                && map_of(entries)[entries[i].0@] == entries[i].1@,
        forall|k: Seq<char>|
            #[trigger] map_of(entries).contains_key(k) ==> exists|i: int|
                0 <= i < entries.len() && entries[i].0@ == k,
    decreases entries.len(),
{
    if entries.len() > 0 {
        let init = entries.drop_last();
        assert(keys_unique(init));
        lemma_map_of(init);
        assert forall|i: int| 0 <= i < entries.len() implies map_of(entries).contains_key(
            #[trigger] entries[i].0@,
        ) && map_of(entries)[entries[i].0@] == entries[i].1@ by {
            if i < entries.len() - 1 {
                assert(init[i] == entries[i]);
            }
        }
        assert forall|k: Seq<char>| #[trigger] map_of(entries).contains_key(k) implies exists|i: int|
            0 <= i < entries.len() && entries[i].0@ == k by {
            if k != entries.last().0@ {
                assert(map_of(init).contains_key(k));
                let i = choose|i: int| 0 <= i < init.len() && init[i].0@ == k;
                assert(entries[i] == init[i]);
            } else {
                assert(entries[entries.len() - 1].0@ == k);
            }
        }
    }
}

proof fn lemma_map_of_update(entries: Seq<(String, FileEntry)>, i: int, key: String, entry: FileEntry)
    requires
        keys_unique(entries),
        0 <= i < entries.len(),
        entries[i].0@ == key@,
    ensures
        keys_unique(entries.update(i, (key, entry))),
        map_of(entries.update(i, (key, entry))) == map_of(entries).insert(key@, entry@),
    decreases entries.len(),
{
    let updated = entries.update(i, (key, entry));
    lemma_map_of(entries);
    assert(keys_unique(updated)) by {
        assert forall|a: int, b: int|
            0 <= a < updated.len() && 0 <= b < updated.len() && a != b implies updated[a].0@
            != updated[b].0@ by {
            assert(entries[a].0@ != entries[b].0@);
        }
    }
    lemma_map_of(updated);
    assert(map_of(updated) =~= map_of(entries).insert(key@, entry@)) by {
        assert forall|k: Seq<char>| #[trigger] map_of(updated).contains_key(k) <==> map_of(
            entries,
        ).insert(key@, entry@).contains_key(k) by {
            if map_of(updated).contains_key(k) {
                let a = choose|a: int| 0 <= a < updated.len() && updated[a].0@ == k;
                if a != i {
                    assert(entries[a] == updated[a]);
                }
            }
            if map_of(entries).contains_key(k) {
                let a = choose|a: int| 0 <= a < entries.len() && entries[a].0@ == k;
                if a != i {
                    assert(entries[a] == updated[a]);
                }
                assert(map_of(updated).contains_key(updated[a].0@));
            }
            assert(map_of(updated).contains_key(updated[i].0@));
        }
        assert forall|k: Seq<char>| #[trigger] map_of(updated).contains_key(k) implies map_of(
            updated,
        )[k] == map_of(entries).insert(key@, entry@)[k] by {
            let a = choose|a: int| 0 <= a < updated.len() && updated[a].0@ == k;
            if a != i {
                assert(entries[a] == updated[a]);
                assert(map_of(entries)[entries[a].0@] == entries[a].1@);
            }
        }
    }
}

/// The files of a snapshot, by path. No path occurs twice.
pub struct FileMap {
    entries: Vec<(String, FileEntry)>,
}

impl View for FileMap {
    type V = Map<Seq<char>, FileRecord>;

    closed spec fn view(&self) -> Map<Seq<char>, FileRecord> {
        map_of(self.entries@)
    }
}

impl FileMap {
    #[verifier::type_invariant]
    spec fn well_formed(self) -> bool {
        keys_unique(self.entries@)
    }

    pub fn new() -> (m: Self)
        ensures
            m@ == Map::<Seq<char>, FileRecord>::empty(),
    {
        FileMap { entries: Vec::new() }
    }

    pub fn len(&self) -> (n: usize)
        ensures
            n == self@.len(),
    {
        proof {
            use_type_invariant(self);
            lemma_map_of_len(self.entries@);
        }
        self.entries.len()
    }

    fn position(&self, key: &String) -> (r: Option<usize>)
        ensures
            match r {
                Some(i) => i < self.entries@.len() && self.entries@[i as int].0@ == key@,
                None => forall|i: int| 0 <= i < self.entries@.len() ==> self.entries@[i].0@ != key@,
            },
    {
        let mut i: usize = 0;
        while i < self.entries.len()
            invariant
                i <= self.entries@.len(),
                forall|j: int| 0 <= j < i ==> self.entries@[j].0@ != key@,
            decreases self.entries@.len() - i,
        {
            if self.entries[i].0 == *key {
                return Some(i);
            }
            i = i + 1;
        }
        None
    }

    /// The entry of a path.
    pub fn get(&self, key: &String) -> (r: Option<&FileEntry>)
        ensures
            r is Some <==> self@.contains_key(key@),
            r matches Some(e) ==> e@ == self@[key@],
    {
        proof {
            use_type_invariant(self);
            lemma_map_of(self.entries@);
        }
        match self.position(key) {
            Some(i) => Some(&self.entries[i].1),
            None => None,
        }
    }

    /// Records `entry` for the path, replacing what was there.
    pub fn insert(&mut self, key: String, entry: FileEntry)
        ensures
            final(self)@ == old(self)@.insert(key@, entry@),
    {
        proof {
            use_type_invariant(&*self);
        }
        let pos = self.position(&key);
        let mut entries: Vec<(String, FileEntry)> = Vec::new();
        std::mem::swap(&mut entries, &mut self.entries);
        let ghost before = entries@;
        match pos {
            Some(i) => {
                proof {
                    lemma_map_of_update(before, i as int, key, entry);
                }
                entries.set(i, (key, entry));
            },
            None => {
                proof {
                    assert(map_of(before.push((key, entry))) =~= map_of(before).insert(key@, entry@)) by {
                        assert(before.push((key, entry)).drop_last() =~= before);
                    }
                }
                entries.push((key, entry));
            },
        }
        self.entries = entries;
    }

    /// The entries, each path once.
    pub fn entries(&self) -> (r: &[(String, FileEntry)])
        ensures
            keys_unique(r@),
            forall|i: int|
                0 <= i < r@.len() ==> self@.contains_key(#[trigger] r@[i].0@) && self@[r@[i].0@]
                    == r@[i].1@,
            forall|k: Seq<char>| #[trigger] self@.contains_key(k) ==> exists|i: int|
                0 <= i < r@.len() && r@[i].0@ == k,
    {
        proof {
            use_type_invariant(self);
            lemma_map_of(self.entries@);
        }
        self.entries.as_slice()
    }
}

proof fn lemma_map_of_len(entries: Seq<(String, FileEntry)>)
    requires
        keys_unique(entries),
    ensures
        map_of(entries).len() == entries.len(),
    decreases entries.len(),
{
    if entries.len() > 0 {
        let init = entries.drop_last();
        assert(keys_unique(init));
        lemma_map_of_len(init);
        lemma_map_of(init);
        assert(!map_of(init).contains_key(entries.last().0@)) by {
            if map_of(init).contains_key(entries.last().0@) {
                let i = choose|i: int| 0 <= i < init.len() && init[i].0@ == entries.last().0@;
                assert(entries[i] == init[i]);
            }
        }
    }
}

/// Whether the map already records the file as stored under `hash`; the size is not compared.
pub open spec fn already_stored(m: Map<Seq<char>, FileRecord>, key: Seq<char>, hash: Seq<char>) -> bool {
    m.contains_key(key) && m[key].hash == Some(hash) && !m[key].deleted
}

/// The files once the content of `key` has been stored under `hash`.
pub open spec fn after_stored(m: Map<Seq<char>, FileRecord>, key: Seq<char>, hash: Seq<char>, size: u64) -> Map<Seq<char>, FileRecord> {
    if already_stored(m, key, hash) {
        m
    } else {
        m.insert(key, stored_record(hash, size))
    }
}

/// The files once `key` has been found missing.
pub open spec fn after_missing(m: Map<Seq<char>, FileRecord>, key: Seq<char>) -> Map<Seq<char>, FileRecord> {
    if m.contains_key(key) {
        m.insert(key, deleted_record())
    } else {
        m
    }
}

/// Recording never drops a path: a file that disappears keeps an entry that marks
/// it deleted, so a snapshot still tells what to remove on restore.
pub proof fn lemma_recording_keeps_paths(m: Map<Seq<char>, FileRecord>, key: Seq<char>, hash: Seq<char>, size: u64)
    ensures
        m.dom().subset_of(after_stored(m, key, hash, size).dom()),
        m.dom().subset_of(after_missing(m, key).dom()),
        after_missing(m, key).dom() == m.dom(),
        after_stored(m, key, hash, size).contains_key(key),
        after_missing(m, key).contains_key(key) ==> after_missing(m, key)[key] == deleted_record(),
{
    assert(after_missing(m, key).dom() =~= m.dom());
}

/// Storing the same content again changes nothing, whatever size is reported.
pub proof fn lemma_store_idempotent(m: Map<Seq<char>, FileRecord>, key: Seq<char>, hash: Seq<char>, size: u64, size2: u64)
    ensures
        already_stored(after_stored(m, key, hash, size), key, hash),
        after_stored(after_stored(m, key, hash, size), key, hash, size2) == after_stored(m, key, hash, size),
{
}

impl FileMap {
    /// Records that the file at `key` now has the content stored under `hash`.
    /// Returns whether anything changed: a file already recorded with that content,
    /// and not as deleted, is left as it is.
    pub fn record_stored(&mut self, key: String, hash: String, size: u64) -> (changed: bool)
        ensures
            changed == !already_stored(old(self)@, key@, hash@),
            final(self)@ == after_stored(old(self)@, key@, hash@, size),
    {
        let same = match self.get(&key) {
            Some(e) => match &e.hash {
                Some(h) => *h == hash && !e.deleted,
                None => false,
            },
            None => false,
        };
        if same {
            false
        } else {
            self.insert(key, FileEntry { hash: Some(hash), size, deleted: false });
            true
        }
    }

    /// Records that the file at `key` is gone. A path the map does not hold is not
    /// added; one it holds gets a deletion marker, and the change is reported even
    /// if it was already marked.
    pub fn record_missing(&mut self, key: String) -> (changed: bool)
        ensures
            changed == old(self)@.contains_key(key@),
            final(self)@ == after_missing(old(self)@, key@),
    {
        if self.get(&key).is_some() {
            self.insert(key, FileEntry { hash: None, size: 0, deleted: true });
            true
        } else {
            false
        }
    }
}

/// What restoring a snapshot does with one of its files.
#[derive(Clone, Debug, PartialEq, Eq)]
pub enum RestoreAction {
    /// The file was deleted: remove it.
    Remove,
    /// Copy the blob with this name into place.
    CopyBlob(String),
    /// Nothing recorded to put back.
    Skip,
}

impl FileEntry {
    /// What restoring does with this file: a deleted file is removed, a stored one is
    /// copied back from its blob.
    pub fn restore_action(&self) -> (a: RestoreAction)
        ensures
            self.deleted ==> a == RestoreAction::Remove,
            !self.deleted && self.hash is None ==> a == RestoreAction::Skip,
            !self.deleted && self.hash is Some ==> (a matches RestoreAction::CopyBlob(h) && h@
                == self.hash.unwrap()@),
    {
        if self.deleted {
            RestoreAction::Remove
        } else {
            match &self.hash {
                Some(h) => RestoreAction::CopyBlob(h.clone()),
                None => RestoreAction::Skip,
            }
        }
    }
}

/// The largest file, in bytes, that a snapshot stores, for a limit given in MiB.
pub fn max_file_bytes(max_mb: u64) -> (n: u64)
    requires
        max_mb * 1024 * 1024 <= u64::MAX,
    ensures
        n == max_mb * 1024 * 1024,
{
    max_mb * 1024 * 1024
}

/// Whether a file of `size` bytes is stored; larger ones are left out of snapshots.
pub fn fits_limit(size: u64, max_bytes: u64) -> (b: bool)
    ensures
        b == (size <= max_bytes),
{
    size <= max_bytes
}

/// A point in time: seconds and nanoseconds since 1970-01-01 UTC.
#[derive(Clone, Copy, Debug, PartialEq, Eq, Structural)]
pub struct Timestamp {
    pub secs: i64,
    pub nanos: u32,
}

/// Calls chrono's `From<SystemTime> for DateTime<Utc>` on the current system time.
/// Nothing is claimed of its value. Unlike `Utc::now`, this conversion also takes
/// clocks set before 1970; it fails only for times outside chrono's range of about
/// 262,000 years either side of year 0, which no system clock reading reaches.
#[verifier::external_body]
fn now_utc() -> (t: Timestamp) {
    let now = chrono::DateTime::<chrono::Utc>::from(std::time::SystemTime::now());
    Timestamp { secs: now.timestamp(), nanos: now.timestamp_subsec_nanos() }
}

/// An immutable record of a game's save files at the end of a session.
pub struct Snapshot {
    pub id: u128,
    /// The snapshot this one was taken on top of.
    pub parent: Option<u128>,
    pub game_key: String,
    pub exe: String,
    pub process_name: String,
    pub machine_id: u128,
    pub created_at: Timestamp,
    pub files: FileMap,
}

impl Snapshot {
    /// A snapshot with the given fields, a fresh random id that is never the parent's,
    /// and the current time.
    pub fn create(
        parent: Option<u128>,
        game_key: String,
        exe: String,
        process_name: String,
        machine_id: u128,
        files: FileMap,
    ) -> (s: Snapshot)
        ensures
            s.parent == parent,
            s.game_key@ == game_key@,
            s.exe@ == exe@,
            s.process_name@ == process_name@,
            s.machine_id == machine_id,
            s.files@ == files@,
            is_random_uuid(s.id),
            s.parent != Some(s.id),
    {
        let drawn = random_id();
        // A fresh id never repeats the parent's: should the draw hit it, its lowest
        // bit, which the id layout leaves random, is flipped.
        let id = match parent {
            Some(p) => if p == drawn {
                drawn ^ 1
            } else {
                drawn
            },
            None => drawn,
        };
        proof {
            assert(drawn ^ 1 != drawn) by (bit_vector);
            if id != drawn {
                assert((drawn ^ 1) >> 76u128 == drawn >> 76u128) by (bit_vector);
                assert((drawn ^ 1) >> 62u128 == drawn >> 62u128) by (bit_vector);
                assert(drawn ^ 1 != drawn) by (bit_vector);
                vstd::bits::lemma_u128_shr_is_div(drawn, 76u128);
                vstd::bits::lemma_u128_shr_is_div(drawn ^ 1, 76u128);
                vstd::bits::lemma_u128_shr_is_div(drawn, 62u128);
                vstd::bits::lemma_u128_shr_is_div(drawn ^ 1, 62u128);
            }
        }
        let created_at = now_utc();
        Snapshot { id, parent, game_key, exe, process_name, machine_id, created_at, files }
    }
}

/// The files once each file of `stored` has been recorded in order: a key, the
/// blob name of its content, and its size.
pub open spec fn stored_all(m: Map<Seq<char>, FileRecord>, stored: Seq<(Seq<char>, Seq<char>, u64)>) -> Map<Seq<char>, FileRecord>
    decreases stored.len(),
{
    if stored.len() == 0 {
        m
    } else {
        let prev = stored_all(m, stored.drop_last());
        after_stored(prev, stored.last().0, stored.last().1, stored.last().2)
    }
}

/// Whether recording the files of `stored` in order changes anything, as a snapshot
/// draft reports it.
pub open spec fn stored_changes(m: Map<Seq<char>, FileRecord>, stored: Seq<(Seq<char>, Seq<char>, u64)>) -> bool
    decreases stored.len(),
{
    if stored.len() == 0 {
        false
    } else {
        stored_changes(m, stored.drop_last()) || !already_stored(
            stored_all(m, stored.drop_last()),
            stored.last().0,
            stored.last().1,
        )
    }
}

/// Whether the same key always comes with the same content, as it does for files
/// that do not change while they are read.
pub open spec fn same_content_per_key(stored: Seq<(Seq<char>, Seq<char>, u64)>) -> bool {
    forall|i: int, j: int|
        0 <= i < stored.len() && 0 <= j < stored.len() && stored[i].0 == stored[j].0 ==> stored[i].1
            == stored[j].1
}

proof fn lemma_stored_all_records(m: Map<Seq<char>, FileRecord>, stored: Seq<(Seq<char>, Seq<char>, u64)>)
    requires
        same_content_per_key(stored),
    ensures
        forall|i: int|
            0 <= i < stored.len() ==> already_stored(stored_all(m, stored), #[trigger] stored[i].0, stored[i].1),
    decreases stored.len(),
{
    if stored.len() > 0 {
        let init = stored.drop_last();
        assert(same_content_per_key(init)) by {
            assert forall|i: int, j: int|
                0 <= i < init.len() && 0 <= j < init.len() && init[i].0 == init[j].0 implies init[i].1
                == init[j].1 by {
                assert(init[i] == stored[i] && init[j] == stored[j]);
            }
        }
        lemma_stored_all_records(m, init);
        let last = stored.last();
        assert forall|i: int| 0 <= i < stored.len() implies already_stored(
            stored_all(m, stored),
            #[trigger] stored[i].0,
            stored[i].1,
        ) by {
            if i < stored.len() - 1 {
                assert(init[i] == stored[i]);
                if stored[i].0 == last.0 {
                    assert(stored[i].1 == stored[stored.len() - 1].1);
                }
            }
        }
    }
}

proof fn lemma_stored_all_unchanged(m: Map<Seq<char>, FileRecord>, stored: Seq<(Seq<char>, Seq<char>, u64)>)
    requires
        forall|i: int| 0 <= i < stored.len() ==> already_stored(m, #[trigger] stored[i].0, stored[i].1),
    ensures
        stored_all(m, stored) == m,
        !stored_changes(m, stored),
    decreases stored.len(),
{
    if stored.len() > 0 {
        let init = stored.drop_last();
        assert forall|i: int| 0 <= i < init.len() implies already_stored(m, #[trigger] init[i].0, init[i].1) by {
            assert(init[i] == stored[i]);
        }
        lemma_stored_all_unchanged(m, init);
        assert(already_stored(m, stored[stored.len() - 1].0, stored[stored.len() - 1].1));
    }
}

/// A second snapshot over unchanged files is empty: once the files of a session have
/// been recorded, recording the same files with the same contents again changes
/// nothing, so the draft reports no change and no snapshot is made.
pub proof fn lemma_second_snapshot_is_empty(m: Map<Seq<char>, FileRecord>, stored: Seq<(Seq<char>, Seq<char>, u64)>)
    requires
        same_content_per_key(stored),
    ensures
        stored_all(stored_all(m, stored), stored) == stored_all(m, stored),
        !stored_changes(stored_all(m, stored), stored),
{
    lemma_stored_all_records(m, stored);
    lemma_stored_all_unchanged(stored_all(m, stored), stored);
}

/// The files of the snapshot being taken at the end of a session, starting from the
/// files of the previous snapshot, and whether anything changed since.
pub struct SnapshotDraft {
    pub files: FileMap,
    pub changed: bool,
}

impl SnapshotDraft {
    pub fn new(previous: FileMap) -> (d: Self)
        ensures
            d.files@ == previous@,
            !d.changed,
    {
        SnapshotDraft { files: previous, changed: false }
    }

    /// A touched file that still exists, whose content was stored under `hash`.
    pub fn file_stored(&mut self, key: String, hash: String, size: u64)
        ensures
            final(self).files@ == after_stored(old(self).files@, key@, hash@, size),
            final(self).changed == (old(self).changed || !already_stored(old(self).files@, key@, hash@)),
    {
        let c = self.files.record_stored(key, hash, size);
        self.changed = self.changed || c;
    }

    /// A touched file that no longer exists.
    pub fn file_missing(&mut self, key: String)
        ensures
            final(self).files@ == after_missing(old(self).files@, key@),
            final(self).changed == (old(self).changed || old(self).files@.contains_key(key@)),
    {
        let c = self.files.record_missing(key);
        self.changed = self.changed || c;
    }

    /// The snapshot, taken on top of `parent`, if anything changed; none otherwise.
    pub fn finish(
        self,
        parent: Option<u128>,
        game_key: String,
        exe: String,
        process_name: String,
        machine_id: u128,
    ) -> (s: Option<Snapshot>)
        ensures
            s is None <==> !self.changed,
            s matches Some(snap) ==> snap.parent == parent && snap.files@ == self.files@
                && snap.game_key@ == game_key@ && snap.exe@ == exe@ && snap.process_name@
                == process_name@ && snap.machine_id == machine_id && is_random_uuid(snap.id)
                && snap.parent != Some(snap.id),
    {
        if self.changed {
            Some(Snapshot::create(parent, game_key, exe, process_name, machine_id, self.files))
        } else {
            None
        }
    }
}

} // verus!
