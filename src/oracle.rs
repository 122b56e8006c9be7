use vstd::prelude::*;

verus! {

/// Largest number of entries that one publication may carry.
pub const MAX_ENTRIES: usize = 256;

/// Why an oracle operation was refused.
#[derive(Clone, Copy, Debug, PartialEq, Eq, Structural)]
pub enum OracleError {
    /// The oracle was already created.
    AlreadyInitialized,
    EmptyEntries,
    TooManyEntries,
    /// Entry `i` does not carry rank `i + 1`.
    RankNotContiguous,
    EmptyHandle,
    DuplicateHandle,
    RanksNotSorted,
    /// The feed already holds a later snapshot.
    StaleSnapshot,
    FeedNotFound,
}

/// One leaderboard line: a participant handle and its rank, from 1.
pub struct Entry {
    pub username: String,
    pub rank: u32,
}

/// A published leaderboard.
pub struct Snapshot {
    pub tournament_id: u64,
    /// Time of publication; also the feed's high-water mark.
    pub ts: u64,
    /// Entries in rank order.
    pub entries: Vec<Entry>,
}

/// The latest snapshot of one feed.
pub struct Feed {
    pub key: String,
    pub snapshot: Snapshot,
}

/// The state of one oracle: its publisher and its feeds.
pub struct OracleContract {
    /// Principal allowed to publish.
    pub admin: String,
    /// One record per feed key, in order of first publication.
    pub feeds: Vec<Feed>,
}

pub open spec fn ranks_contiguous(e: Seq<Entry>) -> bool {
    forall|i: int| 0 <= i < e.len() ==> e[i].rank == i + 1
}

pub open spec fn has_empty_handle(e: Seq<Entry>) -> bool {
    exists|i: int| 0 <= i < e.len() && e[i].username@.len() == 0
}

pub open spec fn has_duplicate_handle(e: Seq<Entry>) -> bool {
    exists|i: int, j: int| 0 <= i < j < e.len() && e[i].username@ == e[j].username@
}

pub open spec fn ranks_ascending(e: Seq<Entry>) -> bool {
    forall|i: int, j: int| 0 <= i < j < e.len() ==> e[i].rank < e[j].rank
}

/// The first rule that a list of entries breaks, checked in order.
pub open spec fn entries_error(e: Seq<Entry>) -> Option<OracleError> {
    if e.len() == 0 {
        Some(OracleError::EmptyEntries)
    } else if e.len() > MAX_ENTRIES {
        Some(OracleError::TooManyEntries)
    } else if !ranks_contiguous(e) {
        Some(OracleError::RankNotContiguous)
    } else if has_empty_handle(e) {
        Some(OracleError::EmptyHandle)
    } else if has_duplicate_handle(e) {
        Some(OracleError::DuplicateHandle)
    } else if !ranks_ascending(e) {
        Some(OracleError::RanksNotSorted)
    } else {
        None
    }
}

pub open spec fn unique_keys(feeds: Seq<Feed>) -> bool {
    forall|i: int, j: int| 0 <= i < j < feeds.len() ==> feeds[i].key@ != feeds[j].key@
}

pub open spec fn has_feed(feeds: Seq<Feed>, key: Seq<char>) -> bool {
    exists|i: int| 0 <= i < feeds.len() && feeds[i].key@ == key
}

/// The snapshot held under `key`, if any.
pub open spec fn feed_of(feeds: Seq<Feed>, key: Seq<char>) -> Option<Snapshot> {
    if has_feed(feeds, key) {
        Some(feeds[choose|i: int| 0 <= i < feeds.len() && feeds[i].key@ == key].snapshot)
    } else {
        None
    }
}

/// A publication at time `now` is older than what the feed holds.
pub open spec fn is_stale(feeds: Seq<Feed>, key: Seq<char>, now: u64) -> bool {
    feed_of(feeds, key) matches Some(s) && now < s.ts
}

proof fn lemma_feed_at(feeds: Seq<Feed>, i: int)
    requires
        unique_keys(feeds),
        0 <= i < feeds.len(),
    ensures
        feed_of(feeds, feeds[i].key@) == Some(feeds[i].snapshot),
{
    let key = feeds[i].key@;
    assert(has_feed(feeds, key));
    let c = choose|c: int| 0 <= c < feeds.len() && feeds[c].key@ == key;
    assert(c == i);
}

/// Index of the feed held under `key`.
fn find_feed(feeds: &Vec<Feed>, key: &String) -> (r: Option<usize>)
    ensures
        match r {
            Some(i) => i < feeds@.len() && feeds@[i as int].key@ == key@,
            None => !has_feed(feeds@, key@),
        },
{
    let mut i: usize = 0;
    while i < feeds.len()
        invariant
            0 <= i <= feeds@.len(),
            forall|j: int| 0 <= j < i ==> feeds@[j].key@ != key@,
        decreases feeds.len() - i,
    {
        if feeds[i].key == *key {
            return Some(i);
        }
        i = i + 1;
    }
    None
}

/// The first rule that `entries` breaks, checked in the order of
/// `entries_error`.
fn check_entries(entries: &Vec<Entry>) -> (r: Option<OracleError>)
    ensures
        r == entries_error(entries@),
{
    let n: usize = entries.len();
    if n == 0 {
        return Some(OracleError::EmptyEntries);
    }
    if n > MAX_ENTRIES {
        return Some(OracleError::TooManyEntries);
    }
    let mut i: usize = 0;
    while i < n
        invariant
            n == entries@.len() <= MAX_ENTRIES,
            0 <= i <= n,
            forall|k: int| 0 <= k < i ==> entries@[k].rank == k + 1,
        decreases n - i,
    {
        if entries[i].rank as usize != i + 1 {
            return Some(OracleError::RankNotContiguous);
        }
        i = i + 1;
    }
    i = 0;
    while i < n
        invariant
            n == entries@.len() <= MAX_ENTRIES,
            ranks_contiguous(entries@),
            0 <= i <= n,
            forall|k: int| 0 <= k < i ==> entries@[k].username@.len() != 0,
        decreases n - i,
    {
        if entries[i].username.as_str().is_empty() {
            return Some(OracleError::EmptyHandle);
        }
        i = i + 1;
    }
    i = 0;
    while i < n
        invariant
            n == entries@.len() <= MAX_ENTRIES,
            ranks_contiguous(entries@),
            !has_empty_handle(entries@),
            0 <= i <= n,
            forall|a: int, b: int|
                0 <= a < i && a < b < n ==> entries@[a].username@ != entries@[b].username@,
        decreases n - i,
    {
        let mut j: usize = i + 1;
        while j < n
            invariant
                n == entries@.len() <= MAX_ENTRIES,
                ranks_contiguous(entries@),
                !has_empty_handle(entries@),
                0 <= i < n,
                i + 1 <= j <= n,
                forall|b: int| i < b < j ==> entries@[i as int].username@ != entries@[b].username@,
            decreases n - j,
        {
            if entries[i].username == entries[j].username {
                assert(entries@[i as int].username@ == entries@[j as int].username@);
                return Some(OracleError::DuplicateHandle);
            }
            j = j + 1;
        }
        i = i + 1;
    }
    i = 0;
    while i < n
        invariant
            n == entries@.len() <= MAX_ENTRIES,
            ranks_contiguous(entries@),
            !has_empty_handle(entries@),
            !has_duplicate_handle(entries@),
            0 <= i <= n,
            forall|a: int, b: int| 0 <= a < i && a < b < n ==> entries@[a].rank < entries@[b].rank,
        decreases n - i,
    {
        let mut j: usize = i + 1;
        while j < n
            invariant
                n == entries@.len() <= MAX_ENTRIES,
                ranks_contiguous(entries@),
                !has_empty_handle(entries@),
                !has_duplicate_handle(entries@),
                0 <= i < n,
                i + 1 <= j <= n,
                forall|b: int| i < b < j ==> entries@[i as int].rank < entries@[b].rank,
            decreases n - j,
        {
            if entries[j].rank <= entries[i].rank {
                return Some(OracleError::RanksNotSorted);
            }
            j = j + 1;
        }
        i = i + 1;
    }
    None
}

/// A copy of `e`.
fn copy_entry(e: &Entry) -> (r: Entry)
    ensures
        r == *e,
{
    Entry { username: e.username.clone(), rank: e.rank }
}

/// A copy of `s`, entry for entry.
fn copy_snapshot(s: &Snapshot) -> (r: Snapshot)
    ensures
        r.tournament_id == s.tournament_id,
        r.ts == s.ts,
        r.entries@ == s.entries@,
{
    let mut entries: Vec<Entry> = Vec::new();
    let mut i: usize = 0;
    while i < s.entries.len()
        invariant
            0 <= i <= s.entries@.len(),
            entries@ == s.entries@.subrange(0, i as int),
        decreases s.entries.len() - i,
    {
        entries.push(copy_entry(&s.entries[i]));
        proof {
            assert(entries@ =~= s.entries@.subrange(0, i as int + 1));
        }
        i = i + 1;
    }
    assert(entries@ =~= s.entries@);
    Snapshot { tournament_id: s.tournament_id, ts: s.ts, entries }
}

impl OracleContract {
    /// Feed keys are unique.
    pub open spec fn wf(&self) -> bool {
        unique_keys(self.feeds@)
    }

    /// Creates an oracle with no feeds. `already_initialized` tells whether
    /// the slot that will hold it is taken.
    pub fn initialize(already_initialized: bool, admin: String) -> (r: Result<
        OracleContract,
        OracleError,
    >)
        ensures
            already_initialized ==> r is Err && r->Err_0 == OracleError::AlreadyInitialized,
            !already_initialized ==> (r matches Ok(o) && o.wf() && o.admin == admin
                && o.feeds@.len() == 0),
    {
        if already_initialized {
            return Err(OracleError::AlreadyInitialized);
        }
        Ok(OracleContract { admin, feeds: Vec::new() })
    }

    /// Validates `entries` and, at time `now`, makes them the snapshot of
    /// feed `feed_key`, replacing whatever it held. The caller checks the
    /// admin's signature first.
    pub fn publish(&mut self, feed_key: String, tournament_id: u64, now: u64, entries: Vec<Entry>) -> (r:
        Result<(), OracleError>)
        requires
            old(self).wf(),
        ensures
            final(self).wf(),
            entries_error(entries@) matches Some(e) ==> r == Err::<(), OracleError>(e),
            entries_error(entries@) is None && is_stale(old(self).feeds@, feed_key@, now) ==> r
                == Err::<(), OracleError>(OracleError::StaleSnapshot),
            entries_error(entries@) is None && !is_stale(old(self).feeds@, feed_key@, now)
                ==> r is Ok,
            r is Err ==> *final(self) == *old(self),
            r is Ok ==> {
                &&& final(self).admin == old(self).admin
                &&& feed_of(final(self).feeds@, feed_key@) == Some(
                    Snapshot { tournament_id, ts: now, entries },
                )
                &&& forall|k: Seq<char>|
                    k != feed_key@ ==> feed_of(final(self).feeds@, k) == feed_of(
                        old(self).feeds@,
                        k,
                    )
            },
    {
        if let Some(e) = check_entries(&entries) {
            return Err(e);
        }
        let found = find_feed(&self.feeds, &feed_key);
        if let Some(j) = found {
            proof {
                lemma_feed_at(self.feeds@, j as int);
            }
            if now < self.feeds[j].snapshot.ts {
                return Err(OracleError::StaleSnapshot);
            }
        }
        let ghost before = self.feeds@;
        let snapshot = Snapshot { tournament_id, ts: now, entries };
        let feed = Feed { key: feed_key, snapshot };
        match found {
            Some(j) => {
                self.feeds.set(j, feed);
                proof {
                    let after = self.feeds@;
                    assert forall|a: int, b: int|
                        0 <= a < b < after.len() implies after[a].key@ != after[b].key@ by {
                        if a != j as int && b != j as int {
                            assert(after[a] == before[a] && after[b] == before[b]);
                        }
                    }
                    lemma_feed_at(after, j as int);
                    assert forall|k: Seq<char>| k != feed_key@ implies feed_of(after, k)
                        == feed_of(before, k) by {
                        if has_feed(before, k) {
                            let c = choose|c: int| 0 <= c < before.len() && before[c].key@ == k;
                            assert(after[c] == before[c]);
                            lemma_feed_at(after, c);
                            lemma_feed_at(before, c);
                        }
                        if has_feed(after, k) {
                            let c = choose|c: int| 0 <= c < after.len() && after[c].key@ == k;
                            assert(after[c] == before[c]);
                        }
                    }
                }
            },
            None => {
                self.feeds.push(feed);
                proof {
                    let after = self.feeds@;
                    assert forall|a: int, b: int|
                        0 <= a < b < after.len() implies after[a].key@ != after[b].key@ by {
                        if b < before.len() {
                            assert(after[a] == before[a] && after[b] == before[b]);
                        } else {
                            assert(after[a] == before[a]);
                        }
                    }
                    lemma_feed_at(after, before.len() as int);
                    assert forall|k: Seq<char>| k != feed_key@ implies feed_of(after, k)
                        == feed_of(before, k) by {
                        if has_feed(before, k) {
                            let c = choose|c: int| 0 <= c < before.len() && before[c].key@ == k;
                            assert(after[c] == before[c]);
                            lemma_feed_at(after, c);
                            lemma_feed_at(before, c);
                        }
                        if has_feed(after, k) {
                            let c = choose|c: int| 0 <= c < after.len() && after[c].key@ == k;
                            assert(c < before.len());
                            assert(after[c] == before[c]);
                        }
                    }
                }
            },
        }
        Ok(())
    }

    /// A copy of the latest snapshot of feed `feed_key`.
    pub fn get_leaderboard(&self, feed_key: &String) -> (r: Result<Snapshot, OracleError>)
        requires
            self.wf(),
        ensures
            match feed_of(self.feeds@, feed_key@) {
                None => r is Err && r->Err_0 == OracleError::FeedNotFound,
                Some(s) => (r matches Ok(c) && c.tournament_id == s.tournament_id && c.ts == s.ts
                    && c.entries@ == s.entries@),
            },
    {
        match find_feed(&self.feeds, feed_key) {
            None => Err(OracleError::FeedNotFound),
            Some(j) => {
                proof {
                    lemma_feed_at(self.feeds@, j as int);
                }
                Ok(copy_snapshot(&self.feeds[j].snapshot))
            },
        }
    }
}

} // verus!
