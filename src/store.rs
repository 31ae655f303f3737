use vstd::prelude::*;
use crate::time::{Duration, Instant};

verus! {

/// A TXT record published under a subdomain.
#[derive(Clone, Debug, PartialEq, Eq, Hash)]
pub struct Record {
    pub subdomain: String,
    pub txt: String,
}

/// What the store holds: for each subdomain, its TXT content and the
/// instant of its last `add`.
pub type StoreMap = Map<Seq<char>, (Seq<char>, Instant)>;

struct Entry {
    record: Record,
    last_seen: Instant,
}

spec fn key_of(e: Entry) -> Seq<char> {
    e.record.subdomain@
}

spec fn value_of(e: Entry) -> (Seq<char>, Instant) {
    (e.record.txt@, e.last_seen)
}

/// The text of each string.
pub open spec fn names(s: Seq<String>) -> Seq<Seq<char>> {
    s.map_values(|x: String| x@)
}

spec fn keys_of(s: Seq<Entry>) -> Seq<Seq<char>> {
    s.map_values(|e: Entry| key_of(e))
}

/// Whether an entry last refreshed at `seen` is older than `threshold` at `now`.
pub open spec fn is_stale(seen: Instant, now: Instant, threshold: Duration) -> bool {
    now.spec_since(seen) > threshold.nanos
}

/// Whether adding `txt` under `sub` changes what the store publishes.
pub open spec fn add_changes(m: StoreMap, sub: Seq<char>, txt: Seq<char>) -> bool {
    !(m.contains_key(sub) && m[sub].0 == txt)
}

/// The store after `add`: the entry is set and its clock restarted, changed or not.
pub open spec fn after_add(m: StoreMap, sub: Seq<char>, txt: Seq<char>, now: Instant) -> StoreMap {
    m.insert(sub, (txt, now))
}

/// The subdomains whose entries are stale at `now`.
pub open spec fn stale_keys(m: StoreMap, now: Instant, threshold: Duration) -> Set<Seq<char>> {
    m.dom().filter(|k: Seq<char>| is_stale(m[k].1, now, threshold))
}

/// The store after a purge: exactly the stale entries are gone.
pub open spec fn after_purge(m: StoreMap, now: Instant, threshold: Duration) -> StoreMap {
    m.remove_keys(stale_keys(m, now, threshold))
}

/// Adding under a subdomain that is not stored always reports a change.
pub proof fn lemma_add_new_is_change(m: StoreMap, sub: Seq<char>, txt: Seq<char>, now: Instant)
    requires
        !m.contains_key(sub),
    ensures
        add_changes(m, sub, txt),
        after_add(m, sub, txt, now)[sub] == (txt, now),
{
}

/// Adding the content already stored reports no change but restarts the
/// entry's clock: a purge at any later instant whose threshold is at least
/// the time since that `add` keeps the entry, though the entry would have
/// been older than that threshold without the refresh.
pub proof fn lemma_refresh_restarts_clock(
    m: StoreMap,
    sub: Seq<char>,
    txt: Seq<char>,
    at: Instant,
    now: Instant,
    threshold: Duration,
)
    requires
        m.contains_key(sub),
        m[sub].0 == txt,
        at.nanos <= now.nanos,
        now.spec_since(at) <= threshold.nanos,
    ensures
        !add_changes(m, sub, txt),
        after_purge(after_add(m, sub, txt, at), now, threshold).contains_key(sub),
        after_purge(after_add(m, sub, txt, at), now, threshold)[sub] == (txt, at),
{
    let m1 = after_add(m, sub, txt, at);
    assert(!stale_keys(m1, now, threshold).contains(sub));
}

/// Adding other content under a stored subdomain reports a change, and the
/// new content replaces the old.
pub proof fn lemma_add_replaces(m: StoreMap, sub: Seq<char>, txt: Seq<char>, now: Instant)
    requires
        m.contains_key(sub),
        m[sub].0 != txt,
    ensures
        add_changes(m, sub, txt),
        after_add(m, sub, txt, now)[sub].0 == txt,
        after_add(m, sub, txt, now).dom() == m.dom(),
{
    assert(after_add(m, sub, txt, now).dom() =~= m.dom());
}

/// A purge keeps exactly the entries that are not stale, unchanged; on an
/// empty store it removes nothing.
pub proof fn lemma_purge_exact(m: StoreMap, now: Instant, threshold: Duration)
    ensures
        forall|k: Seq<char>|
            #[trigger] after_purge(m, now, threshold).contains_key(k) == (m.contains_key(k)
                && !is_stale(m[k].1, now, threshold)),
        forall|k: Seq<char>|
            #[trigger] after_purge(m, now, threshold).contains_key(k) ==> after_purge(
                m,
                now,
                threshold,
            )[k] == m[k],
        m.is_empty() ==> stale_keys(m, now, threshold).len() == 0 && after_purge(
            m,
            now,
            threshold,
        ) == m,
{
    if m.is_empty() {
        assert(stale_keys(m, now, threshold) =~= Set::empty());
        assert(after_purge(m, now, threshold) =~= m);
    }
}

/// Mapping from subdomain to record and last refresh time, with at most one
/// entry per subdomain.
pub struct RecordStore {
    records: Vec<Entry>,
    threshold: Duration,
    verbose: bool,
    model: Ghost<StoreMap>,
}

impl View for RecordStore {
    type V = StoreMap;

    closed spec fn view(&self) -> StoreMap {
        self.model@
    }
}

impl RecordStore {
    pub closed spec fn wf(&self) -> bool {
        &&& keys_of(self.records@).no_duplicates()
        &&& self.model@.dom() == keys_of(self.records@).to_set()
        &&& forall|i: int|
            0 <= i < self.records@.len() ==> #[trigger] self.model@[key_of(self.records@[i])]
                == value_of(self.records@[i])
    }

    /// The records in the order `entries` lists them.
    pub closed spec fn listing(&self) -> Seq<(Seq<char>, Seq<char>)> {
        self.records@.map_values(|e: Entry| (e.record.subdomain@, e.record.txt@))
    }

    pub closed spec fn spec_threshold(&self) -> Duration {
        self.threshold
    }

    pub closed spec fn spec_verbose(&self) -> bool {
        self.verbose
    }

    pub fn new(threshold: Duration, verbose: bool) -> (r: RecordStore)
        ensures
            r.wf(),
            r@ == StoreMap::empty(),
            r.spec_threshold() == threshold,
            r.spec_verbose() == verbose,
    {
        let r = RecordStore {
            records: Vec::new(),
            threshold,
            verbose,
            model: Ghost(StoreMap::empty()),
        };
        assert(keys_of(r.records@).to_set() =~= Set::empty());
        r
    }

    pub fn threshold(&self) -> (r: Duration)
        ensures
            r == self.spec_threshold(),
    {
        self.threshold
    }

    pub fn verbose(&self) -> (r: bool)
        ensures
            r == self.spec_verbose(),
    {
        self.verbose
    }

    /// Number of entries.
    pub fn len(&self) -> (r: usize)
        requires
            self.wf(),
        ensures
            r == self@.len(),
    {
        proof {
            keys_of(self.records@).unique_seq_to_set();
        }
        self.records.len()
    }

    fn find(&self, sub: &String) -> (r: Option<usize>)
        requires
            self.wf(),
        ensures
            match r {
                Some(i) => i < self.records@.len() && key_of(self.records@[i as int]) == sub@,
                None => !self@.contains_key(sub@),
            },
    {
        let mut i: usize = 0;
        while i < self.records.len()
            invariant
                i <= self.records@.len(),
                forall|j: int| 0 <= j < i ==> key_of(#[trigger] self.records@[j]) != sub@,
            decreases self.records@.len() - i,
        {
            if self.records[i].record.subdomain == *sub {
                return Some(i);
            }
            i = i + 1;
        }
        proof {
            if self@.contains_key(sub@) {
                let j = keys_of(self.records@).index_of(sub@);
                assert(key_of(self.records@[j]) == keys_of(self.records@)[j]);
            }
        }
        None
    }

    /// Whether a record is stored under `sub`.
    pub fn contains(&self, sub: &String) -> (r: bool)
        requires
            self.wf(),
        ensures
            r == self@.contains_key(sub@),
    {
        match self.find(sub) {
            Some(i) => {
                assert(keys_of(self.records@)[i as int] == sub@);
                true
            },
            None => false,
        }
    }

    /// Adds the record or refreshes the entry under its subdomain. Returns
    /// whether what the store publishes changed: the subdomain was absent,
    /// or held other content.
    pub fn add(&mut self, record: Record, now: Instant) -> (r: bool)
        requires
            old(self).wf(),
        ensures
            final(self).wf(),
            r == add_changes(old(self)@, record.subdomain@, record.txt@),
            final(self)@ == after_add(old(self)@, record.subdomain@, record.txt@, now),
            final(self).spec_threshold() == old(self).spec_threshold(),
            final(self).spec_verbose() == old(self).spec_verbose(),
    {
        let ghost sub = record.subdomain@;
        let ghost txt = record.txt@;
        let ghost old_records = self.records@;
        match self.find(&record.subdomain) {
            Some(i) => {
                let changed = !(self.records[i].txt_equals(&record.txt));
                assert(keys_of(old_records)[i as int] == sub);
                self.records.set(i, Entry { record, last_seen: now });
                self.model = Ghost(self.model@.insert(sub, (txt, now)));
                proof {
                    assert(keys_of(self.records@) =~= keys_of(old_records).update(i as int, sub));
                    assert(keys_of(self.records@) =~= keys_of(old_records));
                    assert(keys_of(self.records@).to_set() =~= keys_of(old_records).to_set()) by {
                        assert forall|k| keys_of(old_records).contains(k) implies
                            keys_of(self.records@).contains(k) by {
                            let j = keys_of(old_records).index_of(k);
                            assert(keys_of(self.records@)[j] == k);
                        }
                    }
                    assert forall|j: int| 0 <= j < self.records@.len() implies
                        #[trigger] self.model@[key_of(self.records@[j])] == value_of(self.records@[j]) by {
                        if j != i {
                            assert(keys_of(old_records)[j] != keys_of(old_records)[i as int]);
                            assert(old_records[j] == self.records@[j]);
                        }
                    }
                    assert(keys_of(self.records@).no_duplicates());
                    assert(self.model@.dom() =~= keys_of(self.records@).to_set());
                }
                changed
            },
            None => {
                self.records.push(Entry { record, last_seen: now });
                self.model = Ghost(self.model@.insert(sub, (txt, now)));
                proof {
                    assert(keys_of(self.records@) =~= keys_of(old_records).push(sub));
                    assert(keys_of(self.records@).to_set() =~= keys_of(old_records).to_set().insert(sub)) by {
                        assert forall|k| #[trigger] keys_of(self.records@).contains(k) implies
                            keys_of(old_records).to_set().insert(sub).contains(k) by {
                            let j = keys_of(self.records@).index_of(k);
                            if j < old_records.len() {
                                assert(keys_of(old_records)[j] == k);
                            }
                        }
                        assert forall|k| #[trigger] keys_of(old_records).contains(k) implies
                            keys_of(self.records@).contains(k) by {
                            let j = keys_of(old_records).index_of(k);
                            assert(keys_of(self.records@)[j] == k);
                        }
                        assert(keys_of(self.records@)[old_records.len() as int] == sub);
                    }
                    assert(self.model@.dom() =~= keys_of(self.records@).to_set());
                    assert forall|a: int, b: int|
                        0 <= a < keys_of(self.records@).len() && 0 <= b < keys_of(self.records@).len()
                            && a != b implies keys_of(self.records@)[a] != keys_of(self.records@)[b] by {
                        if a == old_records.len() {
                            assert(keys_of(old_records).contains(keys_of(self.records@)[b]));
                        } else if b == old_records.len() {
                            assert(keys_of(old_records).contains(keys_of(self.records@)[a]));
                        }
                    }
                    assert forall|j: int| 0 <= j < self.records@.len() implies
                        #[trigger] self.model@[key_of(self.records@[j])] == value_of(self.records@[j]) by {
                        if j < old_records.len() {
                            assert(old_records[j] == self.records@[j]);
                            assert(keys_of(old_records)[j] == key_of(old_records[j]));
                            assert(keys_of(old_records).contains(key_of(old_records[j])));
                            assert(key_of(old_records[j]) != sub);
                        }
                    }
                    assert(keys_of(self.records@).no_duplicates());
                }
                true
            },
        }
    }
}

impl RecordStore {
    /// Removes every entry that is stale at `now`; returns the subdomains
    /// removed, each once.
    pub fn purge_expired(&mut self, now: Instant) -> (r: Vec<String>)
        requires
            old(self).wf(),
        ensures
            final(self).wf(),
            final(self)@ == after_purge(old(self)@, now, old(self).spec_threshold()),
            names(r@).no_duplicates(),
            names(r@).to_set() == stale_keys(old(self)@, now, old(self).spec_threshold()),
            final(self).spec_threshold() == old(self).spec_threshold(),
            final(self).spec_verbose() == old(self).spec_verbose(),
    {
        let ghost old_records = self.records@;
        let ghost m = self.model@;
        let threshold = self.threshold;
        let mut rest: Vec<Entry> = Vec::new();
        std::mem::swap(&mut rest, &mut self.records);
        let mut kept: Vec<Entry> = Vec::new();
        let mut removed: Vec<String> = Vec::new();
        let ghost mut processed: Set<Seq<char>> = Set::empty();
        assert(processed.filter(|k: Seq<char>| !is_stale(m[k].1, now, threshold)) =~= Set::empty());
        assert(processed.filter(|k: Seq<char>| is_stale(m[k].1, now, threshold)) =~= Set::empty());
        assert(keys_of(kept@).to_set() =~= Set::empty());
        assert(names(removed@).to_set() =~= Set::empty());
        assert(rest@ =~= old_records.take(rest@.len() as int));
        while rest.len() > 0
            invariant
                rest@.len() <= old_records.len(),
                rest@ =~= old_records.take(rest@.len() as int),
                keys_of(old_records).no_duplicates(),
                m.dom() == keys_of(old_records).to_set(),
                forall|i: int|
                    0 <= i < old_records.len() ==> #[trigger] m[key_of(old_records[i])] == value_of(
                        old_records[i],
                    ),
                forall|j: int|
                    rest@.len() <= j < old_records.len() ==> processed.contains(
                        #[trigger] key_of(old_records[j]),
                    ),
                forall|k: Seq<char>|
                    #[trigger] processed.contains(k) ==> exists|j: int|
                        rest@.len() <= j < old_records.len() && key_of(old_records[j]) == k,
                keys_of(kept@).no_duplicates(),
                forall|i: int|
                    0 <= i < kept@.len() ==> m.contains_key(#[trigger] key_of(kept@[i])) && m[key_of(
                        kept@[i],
                    )] == value_of(kept@[i]),
                keys_of(kept@).to_set() == processed.filter(
                    |k: Seq<char>| !is_stale(m[k].1, now, threshold),
                ),
                names(removed@).no_duplicates(),
                names(removed@).to_set() == processed.filter(
                    |k: Seq<char>| is_stale(m[k].1, now, threshold),
                ),
                self.threshold == threshold,
                self.verbose == old(self).verbose,
                self.model == old(self).model,
            decreases rest@.len(),
        {
            let e = rest.pop().unwrap();
            let ghost n = rest@.len() as int;
            let ghost k = key_of(e);
            proof {
                assert(e == old_records[n]);
                assert(keys_of(old_records)[n] == k);
                if processed.contains(k) {
                    let j = choose|j: int| n < j < old_records.len() && key_of(old_records[j]) == k;
                    assert(keys_of(old_records)[j] == k);
                }
                assert(keys_of(old_records).contains(k));
                assert(m[k] == value_of(e));
            }
            let ghost old_kept = kept@;
            let ghost old_removed = removed@;
            let ghost old_processed = processed;
            let stale = now.since(&e.last_seen).nanos > threshold.nanos;
            assert(stale == is_stale(m[k].1, now, threshold));
            assert(m.contains_key(k));
            if stale {
                removed.push(e.record.subdomain);
                proof {
                    assert(names(removed@) =~= names(old_removed).push(k));
                    assert(!names(old_removed).contains(k)) by {
                        if names(old_removed).contains(k) {
                            assert(names(old_removed).to_set().contains(k));
                        }
                    }
                    assert forall|a: int, b: int|
                        0 <= a < names(removed@).len() && 0 <= b < names(removed@).len() && a != b
                            implies names(removed@)[a] != names(removed@)[b] by {
                        if a == old_removed.len() {
                            assert(names(old_removed).contains(names(removed@)[b]));
                        } else if b == old_removed.len() {
                            assert(names(old_removed).contains(names(removed@)[a]));
                        }
                    }
                }
            } else {
                kept.push(e);
                proof {
                    assert(keys_of(kept@) =~= keys_of(old_kept).push(k));
                    assert(!keys_of(old_kept).contains(k)) by {
                        if keys_of(old_kept).contains(k) {
                            assert(keys_of(old_kept).to_set().contains(k));
                        }
                    }
                    assert forall|a: int, b: int|
                        0 <= a < keys_of(kept@).len() && 0 <= b < keys_of(kept@).len() && a != b
                            implies keys_of(kept@)[a] != keys_of(kept@)[b] by {
                        if a == old_kept.len() {
                            assert(keys_of(old_kept).contains(keys_of(kept@)[b]));
                        } else if b == old_kept.len() {
                            assert(keys_of(old_kept).contains(keys_of(kept@)[a]));
                        }
                    }
                    assert forall|i: int| 0 <= i < kept@.len() implies m.contains_key(
                        #[trigger] key_of(kept@[i]),
                    ) && m[key_of(kept@[i])] == value_of(kept@[i]) by {
                        if i < old_kept.len() {
                            assert(kept@[i] == old_kept[i]);
                            assert(m.contains_key(key_of(old_kept[i])) && m[key_of(old_kept[i])] == value_of(old_kept[i]));
                        } else {
                            assert(kept@[i] == e);
                        }
                    }
                }
            }
            proof {
                processed = processed.insert(k);
                assert(rest@ =~= old_records.take(rest@.len() as int));
                assert forall|kk: Seq<char>| #[trigger] processed.contains(kk) implies exists|j: int|
                    rest@.len() <= j < old_records.len() && key_of(old_records[j]) == kk by {
                    if kk != k {
                        assert(old_processed.contains(kk));
                    }
                }
                assert forall|kk: Seq<char>| #[trigger] keys_of(kept@).contains(kk) implies
                    processed.filter(|k: Seq<char>| !is_stale(m[k].1, now, threshold)).contains(kk) by {
                    if kk != k || stale {
                        let a = keys_of(kept@).index_of(kk);
                        if !stale {
                            assert(keys_of(kept@)[a] == keys_of(old_kept)[a]);
                        } else {
                            assert(kept@ == old_kept);
                        }
                        assert(keys_of(old_kept).to_set().contains(kk));
                    }
                }
                assert forall|kk: Seq<char>|
                    #[trigger] processed.contains(kk) && !is_stale(m[kk].1, now, threshold)
                    implies keys_of(kept@).contains(kk) by {
                    if kk == k {
                        assert(keys_of(kept@)[old_kept.len() as int] == k);
                    } else {
                        assert(old_processed.filter(|k: Seq<char>| !is_stale(m[k].1, now, threshold)).contains(kk));
                        assert(keys_of(old_kept).contains(kk));
                        let a = keys_of(old_kept).index_of(kk);
                        if !stale {
                            assert(keys_of(kept@)[a] == keys_of(old_kept)[a]);
                        } else {
                            assert(kept@ == old_kept);
                        }
                    }
                }
                assert(keys_of(kept@).to_set() =~= processed.filter(
                    |k: Seq<char>| !is_stale(m[k].1, now, threshold),
                ));
                assert forall|kk: Seq<char>| #[trigger] names(removed@).contains(kk) implies
                    processed.filter(|k: Seq<char>| is_stale(m[k].1, now, threshold)).contains(kk) by {
                    if kk != k || !stale {
                        let a = names(removed@).index_of(kk);
                        if stale {
                            assert(names(removed@)[a] == names(old_removed)[a]);
                        } else {
                            assert(removed@ == old_removed);
                        }
                        assert(names(old_removed).to_set().contains(kk));
                    }
                }
                assert forall|kk: Seq<char>|
                    #[trigger] processed.contains(kk) && is_stale(m[kk].1, now, threshold)
                    implies names(removed@).contains(kk) by {
                    if kk == k {
                        assert(names(removed@)[old_removed.len() as int] == k);
                    } else {
                        assert(old_processed.filter(|k: Seq<char>| is_stale(m[k].1, now, threshold)).contains(kk));
                        assert(names(old_removed).contains(kk));
                        let a = names(old_removed).index_of(kk);
                        if stale {
                            assert(names(removed@)[a] == names(old_removed)[a]);
                        } else {
                            assert(removed@ == old_removed);
                        }
                    }
                }
                assert(names(removed@).to_set() =~= processed.filter(
                    |k: Seq<char>| is_stale(m[k].1, now, threshold),
                ));
            }
        }
        self.records = kept;
        self.model = Ghost(after_purge(m, now, threshold));
        proof {
            assert(processed =~= m.dom()) by {
                assert forall|kk: Seq<char>| m.dom().contains(kk) implies processed.contains(kk) by {
                    let j = keys_of(old_records).index_of(kk);
                    assert(key_of(old_records[j]) == kk);
                }
                assert forall|kk: Seq<char>| processed.contains(kk) implies m.dom().contains(kk) by {
                    let j = choose|j: int| 0 <= j < old_records.len() && key_of(old_records[j]) == kk;
                    assert(keys_of(old_records)[j] == kk);
                }
            }
            assert(self.model@.dom() =~= keys_of(self.records@).to_set());
            assert(names(removed@).to_set() =~= stale_keys(m, now, threshold));
            assert forall|i: int| 0 <= i < self.records@.len() implies #[trigger] self.model@[key_of(
                self.records@[i],
            )] == value_of(self.records@[i]) by {
                assert(keys_of(self.records@)[i] == key_of(self.records@[i]));
                assert(keys_of(self.records@).to_set().contains(key_of(self.records@[i])));
            }
        }
        removed
    }

    /// Removes every entry whose age at `now` exceeds the threshold; returns
    /// how many were removed.
    pub fn purge_old(&mut self, now: Instant) -> (r: usize)
        requires
            old(self).wf(),
        ensures
            final(self).wf(),
            final(self)@ == after_purge(old(self)@, now, old(self).spec_threshold()),
            r == stale_keys(old(self)@, now, old(self).spec_threshold()).len(),
            final(self).spec_threshold() == old(self).spec_threshold(),
            final(self).spec_verbose() == old(self).spec_verbose(),
    {
        let removed = self.purge_expired(now);
        proof {
            names(removed@).unique_seq_to_set();
        }
        removed.len()
    }

    /// A snapshot of the stored records, one per subdomain, in no promised order.
    pub fn entries(&self) -> (r: Vec<&Record>)
        requires
            self.wf(),
        ensures
            r@.map_values(|x: &Record| (x.subdomain@, x.txt@)) == self.listing(),
            r@.len() == self@.len(),
            forall|i: int|
                0 <= i < r@.len() ==> self@.contains_key(#[trigger] r@[i].subdomain@) && self@[r@[i].subdomain@].0
                    == r@[i].txt@,
            forall|i: int, j: int|
                0 <= i < r@.len() && 0 <= j < r@.len() && i != j ==> r@[i].subdomain@
                    != r@[j].subdomain@,
            forall|k: Seq<char>|
                #[trigger] self@.contains_key(k) ==> exists|i: int|
                    0 <= i < r@.len() && r@[i].subdomain@ == k,
    {
        let mut out: Vec<&Record> = Vec::new();
        let mut i: usize = 0;
        while i < self.records.len()
            invariant
                i <= self.records@.len(),
                out@.len() == i,
                forall|j: int| 0 <= j < i ==> *out@[j] == #[trigger] self.records@[j].record,
            decreases self.records@.len() - i,
        {
            out.push(&self.records[i].record);
            i = i + 1;
        }
        proof {
            keys_of(self.records@).unique_seq_to_set();
            assert(out@.map_values(|x: &Record| (x.subdomain@, x.txt@)) =~= self.listing());
            assert forall|a: int| 0 <= a < out@.len() implies self@.contains_key(
                #[trigger] out@[a].subdomain@,
            ) && self@[out@[a].subdomain@].0 == out@[a].txt@ by {
                assert(keys_of(self.records@)[a] == key_of(self.records@[a]));
                assert(self.model@[key_of(self.records@[a])] == value_of(self.records@[a]));
            }
            assert forall|a: int, b: int|
                0 <= a < out@.len() && 0 <= b < out@.len() && a != b implies out@[a].subdomain@
                    != out@[b].subdomain@ by {
                assert(keys_of(self.records@)[a] == key_of(self.records@[a]));
                assert(keys_of(self.records@)[b] == key_of(self.records@[b]));
            }
            assert forall|k: Seq<char>| #[trigger] self@.contains_key(k) implies exists|a: int|
                0 <= a < out@.len() && out@[a].subdomain@ == k by {
                let a = keys_of(self.records@).index_of(k);
                assert(key_of(self.records@[a]) == k);
            }
        }
        out
    }
}

impl Entry {
    fn txt_equals(&self, txt: &String) -> (r: bool)
        ensures
            r == (self.record.txt@ == txt@),
    {
        self.record.txt == *txt
    }
}

} // verus!
