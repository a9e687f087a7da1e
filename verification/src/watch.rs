//! Deciding, from GPU load samples, when a game session starts and ends.
//!
//! A process that keeps the GPU busy for several samples in a row becomes the
//! session's root; the session ends after several quiet samples, on request, or
//! when the root process exits.
use vstd::prelude::*;
use vstd::string::*;
use vstd::utf8::encode_utf8;
use crate::text::{lower_bytes, lowercase_bytes};

verus! {

/// A status line for the tray menu.
#[derive(Clone, Debug)]
pub enum UiEvent {
    Status(String),
}

/// One GPU sample of a process. The comparisons of its load, a float, with the
/// configured threshold are made by the caller; `rank` orders the loads, a higher
/// rank meaning a higher load.
#[derive(Clone, Debug)]
pub struct GpuReading {
    pub pid: u32,
    /// The load is at or above the threshold.
    pub busy: bool,
    /// The load is at or above half the threshold.
    pub warm: bool,
    pub rank: u64,
    /// The process's name; none when no such process runs.
    pub name: Option<String>,
}

/// Process names that never start a session, compared without regard to ASCII case.
pub struct IgnoreList {
    names: Vec<Vec<u8>>,
}

impl View for IgnoreList {
    type V = Seq<Seq<u8>>;

    closed spec fn view(&self) -> Seq<Seq<u8>> {
        self.names@.map_values(|n: Vec<u8>| n@)
    }
}

/// Whether a process name is on the list: its lowercase form is one of the
/// lowercase forms of the listed names.
pub open spec fn ignored_name(list: Seq<Seq<u8>>, name: Seq<u8>) -> bool {
    list.contains(lower_bytes(name))
}

impl IgnoreList {
    pub fn new(names: &Vec<String>) -> (l: Self)
        ensures
            l@ == names@.map_values(|n: String| lower_bytes(encode_utf8(n@))),
    {
        let mut lowered: Vec<Vec<u8>> = Vec::new();
        for i in 0..names.len()
            invariant
                lowered@.len() == i,
                lowered@.map_values(|n: Vec<u8>| n@) == names@.take(i as int).map_values(
                    |n: String| lower_bytes(encode_utf8(n@)),
                ),
        {
            let text = names[i].as_str();
            let l = lowercase_bytes(text.as_bytes());
            assert(l@ == lower_bytes(encode_utf8(names@[i as int]@)));
            let ghost before = lowered@;
            lowered.push(l);
            assert(names@.take(i + 1) =~= names@.take(i as int).push(names@[i as int]));
            assert(lowered@ =~= before.push(l));
            let ghost lhs = lowered@.map_values(|n: Vec<u8>| n@);
            let ghost rhs = names@.take(i + 1).map_values(|n: String| lower_bytes(encode_utf8(n@)));
            let ghost prev = before.map_values(|n: Vec<u8>| n@);
            assert forall|k: int| 0 <= k < lhs.len() implies lhs[k] == rhs[k] by {
                if k < i {
                    assert(lhs[k] == prev[k]);
                    assert(names@.take(i + 1)[k] == names@.take(i as int)[k]);
                }
            }
            assert(lhs =~= rhs);
        }
        assert(names@.take(names.len() as int) =~= names@);
        IgnoreList { names: lowered }
    }

    /// Whether the process name is on the list.
    pub fn contains(&self, name: &str) -> (b: bool)
        ensures
            b == ignored_name(self@, name.spec_bytes()),
    {
        let lowered = lowercase_bytes(name.as_bytes());
        let mut i: usize = 0;
        while i < self.names.len()
            invariant
                i <= self.names@.len(),
                lowered@ == lower_bytes(name.spec_bytes()),
                forall|j: int| 0 <= j < i ==> self.names@[j]@ != lowered@,
            decreases self.names@.len() - i,
        {
            if bytes_equal(self.names[i].as_slice(), lowered.as_slice()) {
                assert(self@[i as int] == lowered@);
                return true;
            }
            i = i + 1;
        }
        assert forall|j: int| 0 <= j < self@.len() implies self@[j] != lowered@ by {
            assert(self@[j] == self.names@[j]@);
        }
        false
    }
}

fn bytes_equal(a: &[u8], b: &[u8]) -> (r: bool)
    ensures
        r == (a@ == b@),
{
    if a.len() != b.len() {
        return false;
    }
    let mut i: usize = 0;
    while i < a.len()
        invariant
            a@.len() == b@.len(),
            i <= a@.len(),
            forall|j: int| 0 <= j < i ==> a@[j] == b@[j],
        decreases a@.len() - i,
    {
        if a[i] != b[i] {
            return false;
        }
        i = i + 1;
    }
    assert(a@ =~= b@);
    true
}

pub open spec fn pids_unique(entries: Seq<(u32, u32)>) -> bool {
    forall|i: int, j: int|
        0 <= i < entries.len() && 0 <= j < entries.len() && i != j ==> entries[i].0 != entries[j].0
}

pub open spec fn pairs_map(entries: Seq<(u32, u32)>) -> Map<u32, u32>
    decreases entries.len(),
{
    if entries.len() == 0 {
        Map::empty()
    } else {
        pairs_map(entries.drop_last()).insert(entries.last().0, entries.last().1)
    }
}

proof fn lemma_pairs_map(entries: Seq<(u32, u32)>)
    requires
        pids_unique(entries),
    ensures
        forall|i: int|
            0 <= i < entries.len() ==> pairs_map(entries).contains_key(#[trigger] entries[i].0)
                && pairs_map(entries)[entries[i].0] == entries[i].1,
        forall|p: u32|
            #[trigger] pairs_map(entries).contains_key(p) ==> exists|i: int|
                0 <= i < entries.len() && entries[i].0 == p,
    decreases entries.len(),
{
    if entries.len() > 0 {
        let init = entries.drop_last();
        assert(pids_unique(init));
        lemma_pairs_map(init);
        assert forall|i: int| 0 <= i < entries.len() implies pairs_map(entries).contains_key(
            #[trigger] entries[i].0,
        ) && pairs_map(entries)[entries[i].0] == entries[i].1 by {
            if i < entries.len() - 1 {
                assert(init[i] == entries[i]);
            }
        }
        assert forall|p: u32| #[trigger] pairs_map(entries).contains_key(p) implies exists|i: int|
            0 <= i < entries.len() && entries[i].0 == p by {
            if p != entries.last().0 {
                assert(pairs_map(init).contains_key(p));
                let i = choose|i: int| 0 <= i < init.len() && init[i].0 == p;
                assert(entries[i] == init[i]);
            } else {
                assert(entries[entries.len() - 1].0 == p);
            }
        }
    }
}

proof fn lemma_pairs_map_equal(a: Seq<(u32, u32)>, m: Map<u32, u32>)
    requires
        pids_unique(a),
        forall|i: int| 0 <= i < a.len() ==> m.contains_key(#[trigger] a[i].0) && m[a[i].0] == a[i].1,
        forall|p: u32| #[trigger] m.contains_key(p) ==> exists|i: int| 0 <= i < a.len() && a[i].0 == p,
    ensures
        pairs_map(a) == m,
{
    lemma_pairs_map(a);
    assert forall|p: u32| #[trigger] pairs_map(a).contains_key(p) <==> m.contains_key(p) by {
        if pairs_map(a).contains_key(p) {
            let i = choose|i: int| 0 <= i < a.len() && a[i].0 == p;
            assert(m.contains_key(a[i].0));
        }
        if m.contains_key(p) {
            let i = choose|i: int| 0 <= i < a.len() && a[i].0 == p;
            assert(pairs_map(a).contains_key(a[i].0));
        }
    }
    assert forall|p: u32| #[trigger] pairs_map(a).contains_key(p) implies pairs_map(a)[p] == m[p] by {
        let i = choose|i: int| 0 <= i < a.len() && a[i].0 == p;
        assert(pairs_map(a)[a[i].0] == a[i].1);
    }
    assert(pairs_map(a) =~= m);
}

/// For how many samples in a row each process has kept the GPU busy.
pub struct CandidateCounts {
    entries: Vec<(u32, u32)>,
}

impl View for CandidateCounts {
    type V = Map<u32, u32>;

    closed spec fn view(&self) -> Map<u32, u32> {
        pairs_map(self.entries@)
    }
}

impl CandidateCounts {
    #[verifier::type_invariant]
    spec fn well_formed(self) -> bool {
        pids_unique(self.entries@)
    }

    pub fn new() -> (c: Self)
        ensures
            c@ == Map::<u32, u32>::empty(),
    {
        CandidateCounts { entries: Vec::new() }
    }

    /// Forgets every process.
    pub fn clear(&mut self)
        ensures
            final(self)@ == Map::<u32, u32>::empty(),
    {
        *self = CandidateCounts::new();
    }

    fn index_of(&self, pid: u32) -> (r: Option<usize>)
        ensures
            match r {
                Some(i) => i < self.entries@.len() && self.entries@[i as int].0 == pid,
                None => forall|j: int| 0 <= j < self.entries@.len() ==> self.entries@[j].0 != pid,
            },
    {
        let mut i: usize = 0;
        while i < self.entries.len()
            invariant
                i <= self.entries@.len(),
                forall|j: int| 0 <= j < i ==> self.entries@[j].0 != pid,
            decreases self.entries@.len() - i,
        {
            if self.entries[i].0 == pid {
                return Some(i);
            }
            i = i + 1;
        }
        None
    }

    pub fn get(&self, pid: u32) -> (r: Option<u32>)
        ensures
            r is Some <==> self@.contains_key(pid),
            r matches Some(n) ==> n == self@[pid],
    {
        proof {
            use_type_invariant(self);
            lemma_pairs_map(self.entries@);
        }
        match self.index_of(pid) {
            Some(i) => Some(self.entries[i].1),
            None => None,
        }
    }

    pub fn set(&mut self, pid: u32, n: u32)
        ensures
            final(self)@ == old(self)@.insert(pid, n),
    {
        proof {
            use_type_invariant(&*self);
            lemma_pairs_map(self.entries@);
        }
        let ghost old_map = self@;
        let pos = self.index_of(pid);
        let mut entries: Vec<(u32, u32)> = Vec::new();
        std::mem::swap(&mut entries, &mut self.entries);
        let ghost before = entries@;
        let ghost at: int = match pos {
            Some(i) => i as int,
            None => before.len() as int,
        };
        match pos {
            Some(i) => entries.set(i, (pid, n)),
            None => entries.push((pid, n)),
        }
        proof {
            let after = entries@;
            assert(after[at] == (pid, n));
            assert(forall|k: int| 0 <= k < after.len() && k != at ==> after[k] == before[k]);
            assert(forall|k: int| 0 <= k < before.len() && k != at ==> before[k].0 != pid);
            assert(pids_unique(after)) by {
                assert forall|a: int, b: int|
                    0 <= a < after.len() && 0 <= b < after.len() && a != b implies after[a].0
                    != after[b].0 by {
                    if a != at && b != at {
                        assert(after[a] == before[a] && after[b] == before[b]);
                    }
                }
            }
            let m = old_map.insert(pid, n);
            assert forall|k: int| 0 <= k < after.len() implies m.contains_key(#[trigger] after[k].0)
                && m[after[k].0] == after[k].1 by {
                if k != at {
                    assert(after[k] == before[k]);
                    assert(old_map.contains_key(before[k].0));
                }
            }
            assert forall|p: u32| #[trigger] m.contains_key(p) implies exists|k: int|
                0 <= k < after.len() && after[k].0 == p by {
                if p == pid {
                    assert(after[at].0 == p);
                } else {
                    let k = choose|k: int| 0 <= k < before.len() && before[k].0 == p;
                    assert(after[k] == before[k]);
                }
            }
            lemma_pairs_map_equal(after, m);
        }
        self.entries = entries;
    }

    /// Keeps only the processes that stay candidates after the sample.
    fn retain_where(&mut self, readings: &[GpuReading], zero_is_warm: bool)
        ensures
            final(self)@ == old(self)@.restrict(
                Set::new(|p: u32| stays_candidate(readings@, zero_is_warm, p)),
            ),
    {
        proof {
            use_type_invariant(&*self);
            lemma_pairs_map(self.entries@);
        }
        let ghost old_map = self@;
        let ghost keep = Set::new(|p: u32| stays_candidate(readings@, zero_is_warm, p));
        let mut kept: Vec<(u32, u32)> = Vec::new();
        let mut i: usize = 0;
        while i < self.entries.len()
            invariant
                i <= self.entries@.len(),
                pids_unique(self.entries@),
                old_map == pairs_map(self.entries@),
                keep == Set::new(|p: u32| stays_candidate(readings@, zero_is_warm, p)),
                pids_unique(kept@),
                forall|k: int|
                    0 <= k < kept@.len() ==> exists|j: int|
                        0 <= j < i && self.entries@[j] == #[trigger] kept@[k] && keep.contains(
                            self.entries@[j].0,
                        ),
                forall|j: int|
                    0 <= j < i && keep.contains(#[trigger] self.entries@[j].0) ==> exists|k: int|
                        0 <= k < kept@.len() && kept@[k] == self.entries@[j],
            decreases self.entries@.len() - i,
        {
            let (pid, n) = self.entries[i];
            if stays(readings, zero_is_warm, pid) {
                let ghost prev = kept@;
                kept.push((pid, n));
                proof {
                    assert(pids_unique(kept@)) by {
                        assert forall|a: int, b: int|
                            0 <= a < kept@.len() && 0 <= b < kept@.len() && a != b implies kept@[a].0
                            != kept@[b].0 by {
                            if a < prev.len() && b < prev.len() {
                                assert(kept@[a] == prev[a] && kept@[b] == prev[b]);
                            } else if a < prev.len() {
                                let j = choose|j: int|
                                    0 <= j < i && self.entries@[j] == #[trigger] prev[a] && keep.contains(self.entries@[j].0);
                                assert(kept@[a] == prev[a]);
                            } else {
                                let j = choose|j: int|
                                    0 <= j < i && self.entries@[j] == #[trigger] prev[b] && keep.contains(self.entries@[j].0);
                                assert(kept@[b] == prev[b]);
                            }
                        }
                    }
                    assert forall|k: int| 0 <= k < kept@.len() implies exists|j: int|
                        0 <= j < i + 1 && self.entries@[j] == #[trigger] kept@[k] && keep.contains(
                            self.entries@[j].0,
                        ) by {
                        if k < prev.len() {
                            assert(kept@[k] == prev[k]);
                        } else {
                            assert(self.entries@[i as int] == kept@[k]);
                        }
                    }
                    assert forall|j: int|
                        0 <= j < i + 1 && keep.contains(#[trigger] self.entries@[j].0) implies exists|k: int|
                        0 <= k < kept@.len() && kept@[k] == self.entries@[j] by {
                        if j < i {
                            let k = choose|k: int| 0 <= k < prev.len() && prev[k] == self.entries@[j];
                            assert(kept@[k] == prev[k]);
                        } else {
                            assert(kept@[prev.len() as int] == self.entries@[j]);
                        }
                    }
                }
            }
            i = i + 1;
        }
        proof {
            let m = old_map.restrict(keep);
            assert forall|k: int| 0 <= k < kept@.len() implies m.contains_key(#[trigger] kept@[k].0)
                && m[kept@[k].0] == kept@[k].1 by {
                let j = choose|j: int|
                    0 <= j < i && self.entries@[j] == #[trigger] kept@[k] && keep.contains(self.entries@[j].0);
                assert(old_map.contains_key(self.entries@[j].0));
            }
            assert forall|p: u32| #[trigger] m.contains_key(p) implies exists|k: int|
                0 <= k < kept@.len() && kept@[k].0 == p by {
                let j = choose|j: int| 0 <= j < self.entries@.len() && self.entries@[j].0 == p;
                assert(keep.contains(self.entries@[j].0));
            }
            lemma_pairs_map_equal(kept@, m);
        }
        self.entries = kept;
    }
}

/// Whether a process stays a candidate after a sample: its load is at least half
/// the threshold, a process missing from the sample counting as a load of zero.
pub open spec fn stays_candidate(readings: Seq<GpuReading>, zero_is_warm: bool, pid: u32) -> bool {
    ||| exists|i: int| 0 <= i < readings.len() && readings[i].pid == pid && readings[i].warm
    ||| (forall|i: int| 0 <= i < readings.len() ==> readings[i].pid != pid) && zero_is_warm
}

fn stays(readings: &[GpuReading], zero_is_warm: bool, pid: u32) -> (b: bool)
    ensures
        b == stays_candidate(readings@, zero_is_warm, pid),
{
    let mut seen = false;
    let mut i: usize = 0;
    while i < readings.len()
        invariant
            i <= readings@.len(),
            seen == exists|j: int| 0 <= j < i && readings@[j].pid == pid,
            forall|j: int| 0 <= j < i && readings@[j].pid == pid ==> !readings@[j].warm,
        decreases readings@.len() - i,
    {
        if readings[i].pid == pid {
            if readings[i].warm {
                return true;
            }
            seen = true;
        }
        i = i + 1;
    }
    !seen && zero_is_warm
}

/// A count one higher, wrapping at `u32::MAX` as the release build's `+=` does.
pub open spec fn next_count(n: u32) -> u32 {
    if n == u32::MAX {
        0
    } else {
        (n + 1) as u32
    }
}

/// Whether a sample counts towards starting a session: the process keeps the GPU
/// busy, still runs, and is not on the ignore list.
pub open spec fn counts_towards(r: GpuReading, ignored: Seq<Seq<u8>>) -> bool {
    &&& r.busy
    &&& r.name is Some
    &&& !ignored_name(ignored, encode_utf8(r.name.unwrap()@))
}

/// The counts once the samples have been taken in order: each sample that counts
/// adds one to its process's count.
pub open spec fn counted(counts: Map<u32, u32>, readings: Seq<GpuReading>, ignored: Seq<Seq<u8>>) -> Map<u32, u32>
    decreases readings.len(),
{
    if readings.len() == 0 {
        counts
    } else {
        let prev = counted(counts, readings.drop_last(), ignored);
        let r = readings.last();
        if counts_towards(r, ignored) {
            prev.insert(
                r.pid,
                next_count(
                    if prev.contains_key(r.pid) {
                        prev[r.pid]
                    } else {
                        0
                    },
                ),
            )
        } else {
            prev
        }
    }
}

/// Whether the `i`th sample makes its process eligible to start a session: it counts,
/// and the count it brings its process to reaches `activation`.
pub open spec fn eligible(
    counts: Map<u32, u32>,
    readings: Seq<GpuReading>,
    ignored: Seq<Seq<u8>>,
    activation: u32,
    i: int,
) -> bool {
    &&& counts_towards(readings[i], ignored)
    &&& counted(counts, readings.take(i + 1), ignored)[readings[i].pid] >= activation
}

/// Takes one GPU sample while no session runs: counts the busy processes, picks the
/// eligible one with the highest load (the first such in the sample when loads tie),
/// and drops the processes whose load fell below half the threshold.
pub fn pick_candidate(
    counts: &mut CandidateCounts,
    readings: &[GpuReading],
    ignored: &IgnoreList,
    activation: u32,
    zero_is_warm: bool,
) -> (best: Option<u32>)
    ensures
        final(counts)@ == counted(old(counts)@, readings@, ignored@).restrict(
            Set::new(|p: u32| stays_candidate(readings@, zero_is_warm, p)),
        ),
        best is None <==> forall|i: int|
            0 <= i < readings@.len() ==> !eligible(old(counts)@, readings@, ignored@, activation, i),
        best matches Some(pid) ==> exists|i: int|
            0 <= i < readings@.len() && eligible(old(counts)@, readings@, ignored@, activation, i)
                && readings@[i].pid == pid && (forall|j: int|
                0 <= j < readings@.len() && eligible(old(counts)@, readings@, ignored@, activation, j)
                    ==> readings@[j].rank <= readings@[i].rank) && (forall|j: int|
                0 <= j < i && eligible(old(counts)@, readings@, ignored@, activation, j)
                    ==> readings@[j].rank < readings@[i].rank),
{
    let ghost start = counts@;
    let mut best: Option<(u32, u64)> = None;
    let ghost mut best_at: int = -1;
    let mut i: usize = 0;
    while i < readings.len()
        invariant
            i <= readings@.len(),
            counts@ == counted(start, readings@.take(i as int), ignored@),
            best is None <==> forall|j: int|
                0 <= j < i ==> !eligible(start, readings@, ignored@, activation, j),
            best matches Some(b) ==> {
                &&& 0 <= best_at < i
                &&& eligible(start, readings@, ignored@, activation, best_at)
                &&& readings@[best_at].pid == b.0
                &&& readings@[best_at].rank == b.1
                &&& forall|j: int|
                    0 <= j < i && eligible(start, readings@, ignored@, activation, j)
                        ==> readings@[j].rank <= b.1
                &&& forall|j: int|
                    0 <= j < best_at && eligible(start, readings@, ignored@, activation, j)
                        ==> readings@[j].rank < b.1
            },
        decreases readings@.len() - i,
    {
        let r = &readings[i];
        let ghost prefix = readings@.take(i + 1);
        assert(prefix.drop_last() =~= readings@.take(i as int));
        assert(prefix.last() == readings@[i as int]);
        let counts_now = match &r.name {
            Some(name) => r.busy && !ignored.contains(name.as_str()),
            None => false,
        };
        if counts_now {
            let n = match counts.get(r.pid) {
                Some(c) => c,
                None => 0,
            };
            let next = if n == u32::MAX {
                0
            } else {
                n + 1
            };
            counts.set(r.pid, next);
            assert(counts@ == counted(start, prefix, ignored@));
            if next >= activation {
                let better = match best {
                    None => true,
                    Some(b) => r.rank > b.1,
                };
                if better {
                    best = Some((r.pid, r.rank));
                    proof {
                        best_at = i as int;
                    }
                }
            }
        } else {
            assert(counts@ == counted(start, prefix, ignored@));
        }
        assert(eligible(start, readings@, ignored@, activation, i as int) <==> counts_now && counts@[r.pid] >= activation);
        i = i + 1;
    }
    assert(readings@.take(readings@.len() as int) =~= readings@);
    counts.retain_where(readings, zero_is_warm);
    match best {
        Some(b) => Some(b.0),
        None => None,
    }
}

/// A running game session.
#[derive(Clone, Debug)]
pub struct Session {
    pub root_pid: u32,
    pub exe: String,
    pub name: String,
    /// For how many samples in a row the process tree has been quiet.
    pub cool: u32,
}

impl Session {
    pub fn new(root_pid: u32, exe: String, name: String) -> (s: Self)
        ensures
            s.root_pid == root_pid,
            s.exe@ == exe@,
            s.name@ == name@,
            s.cool == 0,
    {
        Session { root_pid, exe, name, cool: 0 }
    }

    /// Takes one GPU sample during the session: `quiet` tells whether the busiest
    /// process of the tree stayed below 35% of the threshold. Returns whether the
    /// session is over: quiet for `end_samples` samples, a snapshot was asked for,
    /// or the root process is gone.
    pub fn observe(&mut self, quiet: bool, forced: bool, root_alive: bool, end_samples: u32) -> (over: bool)
        ensures
            final(self).root_pid == old(self).root_pid,
            final(self).exe == old(self).exe,
            final(self).name == old(self).name,
            final(self).cool == if quiet {
                next_count(old(self).cool)
            } else {
                0
            },
            over == (final(self).cool >= end_samples || forced || !root_alive),
    {
        if quiet {
            self.cool = if self.cool == u32::MAX {
                0
            } else {
                self.cool + 1
            };
        } else {
            self.cool = 0;
        }
        self.cool >= end_samples || forced || !root_alive
    }
}

/// Whether no two samples are of the same process, as in a sample taken per process.
pub open spec fn one_reading_per_process(readings: Seq<GpuReading>) -> bool {
    forall|i: int, j: int|
        0 <= i < readings.len() && 0 <= j < readings.len() && i != j ==> readings[i].pid
            != readings[j].pid
}

proof fn lemma_counted_at(counts: Map<u32, u32>, readings: Seq<GpuReading>, ignored: Seq<Seq<u8>>, i: int)
    requires
        one_reading_per_process(readings),
        0 <= i < readings.len(),
        counts_towards(readings[i], ignored),
    ensures
        counted(counts, readings, ignored).contains_key(readings[i].pid),
        counted(counts, readings, ignored)[readings[i].pid] == next_count(
            if counts.contains_key(readings[i].pid) {
                counts[readings[i].pid]
            } else {
                0
            },
        ),
    decreases readings.len(),
{
    let p = readings[i].pid;
    let init = readings.drop_last();
    if i == readings.len() - 1 {
        lemma_counted_untouched(counts, init, ignored, p);
    } else {
        assert(one_reading_per_process(init));
        assert(init[i] == readings[i]);
        lemma_counted_at(counts, init, ignored, i);
        assert(readings.last().pid != p);
    }
}

proof fn lemma_counted_untouched(counts: Map<u32, u32>, readings: Seq<GpuReading>, ignored: Seq<Seq<u8>>, p: u32)
    requires
        forall|j: int| 0 <= j < readings.len() ==> readings[j].pid != p,
    ensures
        counted(counts, readings, ignored).contains_key(p) == counts.contains_key(p),
        counts.contains_key(p) ==> counted(counts, readings, ignored)[p] == counts[p],
    decreases readings.len(),
{
    if readings.len() > 0 {
        let init = readings.drop_last();
        assert forall|j: int| 0 <= j < init.len() implies init[j].pid != p by {
            assert(init[j] == readings[j]);
        }
        lemma_counted_untouched(counts, init, ignored, p);
    }
}

/// A process becomes eligible to start a session exactly when it keeps the GPU busy
/// and its run of busy samples, this one included, reaches the activation count.
/// In particular a process seen busy for the first time cannot start a session when
/// more than one sample is required.
pub proof fn lemma_eligible_after_activation_samples(
    counts: Map<u32, u32>,
    readings: Seq<GpuReading>,
    ignored: Seq<Seq<u8>>,
    activation: u32,
    i: int,
)
    requires
        one_reading_per_process(readings),
        0 <= i < readings.len(),
    ensures
        eligible(counts, readings, ignored, activation, i) <==> counts_towards(readings[i], ignored)
            && next_count(
            if counts.contains_key(readings[i].pid) {
                counts[readings[i].pid]
            } else {
                0
            },
        ) >= activation,
        !counts.contains_key(readings[i].pid) && activation > 1 ==> !eligible(
            counts,
            readings,
            ignored,
            activation,
            i,
        ),
{
    let prefix = readings.take(i + 1);
    assert(prefix[i] == readings[i]);
    assert(one_reading_per_process(prefix)) by {
        assert forall|a: int, b: int|
            0 <= a < prefix.len() && 0 <= b < prefix.len() && a != b implies prefix[a].pid
            != prefix[b].pid by {
            assert(prefix[a] == readings[a] && prefix[b] == readings[b]);
        }
    }
    if counts_towards(readings[i], ignored) {
        lemma_counted_at(counts, prefix, ignored, i);
    }
}

} // verus!
