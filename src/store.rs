use vstd::prelude::*;

use crate::ddb::Aircraft;

verus! {

/// Maximum age in seconds before a stored status is dropped.
pub const MAX_AGE_DIFF: u64 = 300;

/// Latest known status of one aircraft. `report` carries whatever the feed
/// delivered besides the aircraft and the time stamp (position, speed, ...).
pub struct Status<R> {
    pub aircraft: Aircraft,
    pub report: R,
    pub time_stamp: u64,
}

/// Summary of the stored states.
#[derive(Debug)]
pub struct Overview {
    /// Number of currently stored states
    pub count: usize,
    /// Newest time stamp among the stored states, if there are any
    pub last_status_update: Option<u64>,
    /// Time stamp of the last feed update received, if there was one
    pub last_aprs_update: Option<u64>,
}

/// Store of the latest status per aircraft, with expiry by age.
pub struct App<R> {
    states: Vec<Status<R>>,
    last_aprs_update: Option<u64>,
}

/// Identifier of a status, as a sequence of characters.
pub open spec fn id_of<R>(s: Status<R>) -> Seq<char> {
    s.aircraft.id@
}

/// True when a status stamped at `time_stamp` is older than the maximum age at `now`.
/// A stamp in the future counts as age zero.
pub open spec fn is_outdated(time_stamp: u64, now: u64) -> bool {
    now > time_stamp && now - time_stamp > MAX_AGE_DIFF
}

/// No two statuses share an aircraft id.
pub open spec fn unique_ids<R>(s: Seq<Status<R>>) -> bool {
    forall|i: int, j: int|
        0 <= i < s.len() && 0 <= j < s.len() && i != j ==> id_of(#[trigger] s[i]) != id_of(
            #[trigger] s[j],
        )
}

/// The statuses of `s` that are not outdated at `now`, in their order.
pub open spec fn fresh<R>(s: Seq<Status<R>>, now: u64) -> Seq<Status<R>>
    decreases s.len(),
{
    if s.len() == 0 {
        s
    } else {
        let rest = fresh(s.drop_last(), now);
        if is_outdated(s.last().time_stamp, now) {
            rest
        } else {
            rest.push(s.last())
        }
    }
}

/// True when some status of `s` has the aircraft id `id`.
pub open spec fn has_id<R>(s: Seq<Status<R>>, id: Seq<char>) -> bool {
    exists|i: int| 0 <= i < s.len() && id_of(#[trigger] s[i]) == id
}

/// `s` with `st` stored: it replaces the status of the same aircraft, or is appended.
pub open spec fn upserted<R>(s: Seq<Status<R>>, st: Status<R>) -> Seq<Status<R>> {
    if has_id(s, id_of(st)) {
        s.update(choose|i: int| 0 <= i < s.len() && id_of(#[trigger] s[i]) == id_of(st), st)
    } else {
        s.push(st)
    }
}

/// The newest time stamp in `s`, if `s` is not empty.
pub open spec fn newest_stamp<R>(s: Seq<Status<R>>) -> Option<u64>
    decreases s.len(),
{
    if s.len() == 0 {
        None
    } else {
        let t = s.last().time_stamp;
        match newest_stamp(s.drop_last()) {
            None => Some(t),
            Some(m) => Some(if m >= t { m } else { t }),
        }
    }
}

/// What `fresh` keeps is exactly the statuses of `s` that are not outdated.
pub proof fn lemma_fresh_contains<R>(s: Seq<Status<R>>, now: u64)
    ensures
        forall|x: Status<R>|
            #[trigger] fresh(s, now).contains(x) <==> (s.contains(x) && !is_outdated(
                x.time_stamp,
                now,
            )),
        fresh(s, now).len() <= s.len(),
    decreases s.len(),
{
    if s.len() > 0 {
        lemma_fresh_contains(s.drop_last(), now);
        let rest = fresh(s.drop_last(), now);
        assert forall|x: Status<R>|
            #[trigger] fresh(s, now).contains(x) <==> (s.contains(x) && !is_outdated(
                x.time_stamp,
                now,
            )) by {
            if s.contains(x) {
                let k = choose|k: int| 0 <= k < s.len() && s[k] == x;
                if k < s.len() - 1 {
                    assert(s.drop_last()[k] == x);
                }
            }
            if s.drop_last().contains(x) {
                let k = choose|k: int| 0 <= k < s.drop_last().len() && s.drop_last()[k] == x;
                assert(s[k] == x);
            }
            if !is_outdated(s.last().time_stamp, now) {
                assert(rest.push(s.last())[rest.len() as int] == s.last());
                if rest.contains(x) {
                    let k = choose|k: int| 0 <= k < rest.len() && rest[k] == x;
                    assert(rest.push(s.last())[k] == x);
                }
                if rest.push(s.last()).contains(x) && x != s.last() {
                    let k = choose|k: int|
                        0 <= k < rest.push(s.last()).len() && rest.push(s.last())[k] == x;
                    assert(rest[k] == x);
                }
            }
        }
    }
}

/// `fresh` keeps ids unique.
pub proof fn lemma_fresh_unique<R>(s: Seq<Status<R>>, now: u64)
    requires
        unique_ids(s),
    ensures
        unique_ids(fresh(s, now)),
    decreases s.len(),
{
    if s.len() > 0 {
        let d = s.drop_last();
        assert(unique_ids(d)) by {
            assert forall|i: int, j: int|
                0 <= i < d.len() && 0 <= j < d.len() && i != j implies id_of(#[trigger] d[i])
                != id_of(#[trigger] d[j]) by {
                assert(d[i] == s[i] && d[j] == s[j]);
            }
        }
        lemma_fresh_unique(d, now);
        lemma_fresh_contains(d, now);
        let rest = fresh(d, now);
        if !is_outdated(s.last().time_stamp, now) {
            let r = rest.push(s.last());
            assert forall|i: int, j: int|
                0 <= i < r.len() && 0 <= j < r.len() && i != j implies id_of(#[trigger] r[i])
                != id_of(#[trigger] r[j]) by {
                if i < rest.len() && j < rest.len() {
                    assert(r[i] == rest[i] && r[j] == rest[j]);
                } else {
                    let k = if i < rest.len() { i } else { j };
                    assert(rest.contains(rest[k]));
                    assert(d.contains(rest[k]));
                    let m = choose|m: int| 0 <= m < d.len() && d[m] == rest[k];
                    assert(s[m] == d[m]);
                    assert(id_of(s[m]) != id_of(s[s.len() - 1]));
                }
            }
        }
    }
}

/// The ids of the statuses of `s` that are not outdated at `now`.
pub open spec fn live_ids<R>(s: Seq<Status<R>>, now: u64) -> Set<Seq<char>> {
    Set::new(
        |id: Seq<char>|
            exists|i: int|
                0 <= i < s.len() && id_of(#[trigger] s[i]) == id && !is_outdated(
                    s[i].time_stamp,
                    now,
                ),
    )
}

/// When the ids are unique, the number of statuses that survive expiry at `now`
/// is the number of distinct aircraft ids whose status is not outdated at `now`.
pub proof fn lemma_count_is_live_ids<R>(s: Seq<Status<R>>, now: u64)
    requires
        unique_ids(s),
    ensures
        fresh(s, now).len() == live_ids(s, now).len(),
        live_ids(s, now).finite(),
{
    let f = fresh(s, now);
    lemma_fresh_unique(s, now);
    lemma_fresh_contains(s, now);
    let ids = f.map_values(|x: Status<R>| id_of(x));
    assert(ids.no_duplicates()) by {
        assert forall|i: int, j: int| 0 <= i < ids.len() && 0 <= j < ids.len() && i != j implies ids[i] != ids[j] by {
            assert(id_of(f[i]) != id_of(f[j]));
        }
    }
    ids.unique_seq_to_set();
    assert forall|id: Seq<char>| ids.to_set().contains(id) <==> #[trigger] live_ids(s, now).contains(id) by {
        if ids.to_set().contains(id) {
            assert(ids.contains(id));
            let k = choose|k: int| 0 <= k < ids.len() && ids[k] == id;
            assert(f.contains(f[k]));
            let m = choose|m: int| 0 <= m < s.len() && s[m] == f[k];
            assert(id_of(s[m]) == id);
        }
        if live_ids(s, now).contains(id) {
            let m = choose|m: int|
                0 <= m < s.len() && id_of(#[trigger] s[m]) == id && !is_outdated(s[m].time_stamp, now);
            assert(s.contains(s[m]));
            assert(f.contains(s[m]));
            let k = choose|k: int| 0 <= k < f.len() && f[k] == s[m];
            assert(ids[k] == id);
            assert(ids.contains(id));
        }
    }
    assert(ids.to_set() =~= live_ids(s, now));
}

/// A stored status stamped `T` survives expiry at `now` when `now - T` is at most
/// the maximum age, and is dropped when it is more.
pub proof fn lemma_expiry_boundary<R>(s: Seq<Status<R>>, st: Status<R>, now: u64)
    requires
        s.contains(st),
    ensures
        now <= st.time_stamp + MAX_AGE_DIFF ==> fresh(s, now).contains(st),
        now > st.time_stamp + MAX_AGE_DIFF ==> !fresh(s, now).contains(st),
{
    lemma_fresh_contains(s, now);
}

/// Storing two statuses of the same aircraft one after the other keeps the size
/// of the first result, and only the second status is retained.
pub proof fn lemma_upsert_same_id_twice<R>(s: Seq<Status<R>>, a: Status<R>, b: Status<R>)
    requires
        unique_ids(s),
        id_of(a) == id_of(b),
    ensures
        upserted(upserted(s, a), b) == upserted(s, b),
        upserted(upserted(s, a), b).len() == upserted(s, a).len(),
        upserted(s, b).contains(b),
        a != b ==> !upserted(upserted(s, a), b).contains(a),
{
    let id = id_of(a);
    if has_id(s, id) {
        let c = choose|i: int| 0 <= i < s.len() && id_of(#[trigger] s[i]) == id;
        let s1 = s.update(c, a);
        assert(s1[c] == a);
        assert(has_id(s1, id));
        let c1 = choose|i: int| 0 <= i < s1.len() && id_of(#[trigger] s1[i]) == id;
        if c1 != c {
            assert(s1[c1] == s[c1]);
        }
        assert(s1.update(c, b) =~= s.update(c, b));
        let r = s.update(c, b);
        assert(r[c] == b);
        if a != b && r.contains(a) {
            let k = choose|k: int| 0 <= k < r.len() && r[k] == a;
            assert(r[k] == s[k]);
        }
    } else {
        let n = s.len() as int;
        let s1 = s.push(a);
        assert(s1[n] == a);
        assert(has_id(s1, id));
        let c1 = choose|i: int| 0 <= i < s1.len() && id_of(#[trigger] s1[i]) == id;
        if c1 != n {
            assert(s1[c1] == s[c1]);
        }
        assert(s1.update(n, b) =~= s.push(b));
        let r = s.push(b);
        assert(r[n] == b);
        if a != b && r.contains(a) {
            let k = choose|k: int| 0 <= k < r.len() && r[k] == a;
            assert(r[k] == s[k]);
        }
    }
}

fn outdated(time_stamp: u64, now: u64) -> (r: bool)
    ensures
        r == is_outdated(time_stamp, now),
{
    now.saturating_sub(time_stamp) > MAX_AGE_DIFF
}

/// Reads the system clock: seconds since the Unix epoch.
/// Relies on std::time::SystemTime::now; nothing is promised of the value.
#[verifier::external_body]
pub fn get_current_timestamp() -> (r: u64) {
    std::time::SystemTime::now().duration_since(std::time::UNIX_EPOCH).map_or(0, |d| d.as_secs())
}

impl<R> App<R> {
    /// The stored statuses.
    pub closed spec fn entries(&self) -> Seq<Status<R>> {
        self.states@
    }

    /// The last recorded feed time stamp.
    pub closed spec fn last_feed(&self) -> Option<u64> {
        self.last_aprs_update
    }

    /// Well-formedness: each aircraft id is stored at most once.
    pub open spec fn wf(&self) -> bool {
        unique_ids(self.entries())
    }

    /// Creates an empty store.
    pub fn create() -> (r: App<R>)
        ensures
            r.wf(),
            r.entries() == Seq::<Status<R>>::empty(),
            r.last_feed() == None::<u64>,
    {
        App { states: Vec::new(), last_aprs_update: None }
    }

    /// The stored statuses, in storage order.
    pub fn states(&self) -> (r: &Vec<Status<R>>)
        ensures
            r@ == self.entries(),
    {
        &self.states
    }

    /// Removes every status that is outdated at `now`.
    pub fn remove_outdated_states(&mut self, now: u64)
        requires
            old(self).wf(),
        ensures
            final(self).wf(),
            final(self).entries() == fresh(old(self).entries(), now),
            final(self).last_feed() == old(self).last_feed(),
    {
        let ghost orig = self.states@;
        let n: usize = self.states.len();
        let mut i: usize = 0;
        let mut j: usize = 0;
        while i < self.states.len()
            invariant
                0 <= i <= j <= orig.len(),
                orig.len() == n,
                self.states@.len() == i + (orig.len() - j),
                self.states@.take(i as int) == fresh(orig.take(j as int), now),
                self.states@.skip(i as int) == orig.skip(j as int),
                self.last_aprs_update == old(self).last_aprs_update,
            decreases orig.len() - j,
        {
            proof {
                assert(orig.take(j as int + 1).drop_last() =~= orig.take(j as int));
                assert(orig.take(j as int + 1).last() == orig[j as int]);
                assert(self.states@[i as int] == self.states@.skip(i as int)[0]);
            }
            if outdated(self.states[i].time_stamp, now) {
                let ghost before = self.states@;
                self.states.remove(i);
                proof {
                    assert(self.states@.take(i as int) =~= before.take(i as int));
                    assert forall|k: int| 0 <= k < self.states@.len() - i implies #[trigger] self.states@.skip(i as int)[k] == orig.skip(j as int + 1)[k] by {
                        assert(before.skip(i as int)[k + 1] == orig.skip(j as int)[k + 1]);
                    }
                    assert(self.states@.skip(i as int) =~= orig.skip(j as int + 1));
                }
            } else {
                proof {
                    assert(self.states@.take(i as int + 1) =~= self.states@.take(i as int).push(
                        orig[j as int],
                    ));
                    assert forall|k: int| 0 <= k < self.states@.len() - i - 1 implies #[trigger] self.states@.skip(i as int + 1)[k] == orig.skip(j as int + 1)[k] by {
                        assert(self.states@.skip(i as int)[k + 1] == orig.skip(j as int)[k + 1]);
                    }
                    assert(self.states@.skip(i as int + 1) =~= orig.skip(j as int + 1));
                }
                i = i + 1;
            }
            j = j + 1;
        }
        proof {
            assert(orig.take(orig.len() as int) =~= orig);
            assert(self.states@.len() == i);
            assert(self.states@.take(i as int) =~= self.states@);
            lemma_fresh_unique(orig, now);
        }
    }

    /// Removes outdated states at `now`, then stores `new_status`, replacing the
    /// status of the same aircraft if there is one.
    pub fn push_status_at(&mut self, new_status: Status<R>, now: u64)
        requires
            old(self).wf(),
        ensures
            final(self).wf(),
            final(self).entries() == upserted(fresh(old(self).entries(), now), new_status),
            final(self).last_feed() == old(self).last_feed(),
    {
        self.remove_outdated_states(now);
        let ghost pruned = self.states@;
        let mut i: usize = 0;
        while i < self.states.len()
            invariant
                self.states@ == pruned,
                pruned == fresh(old(self).entries(), now),
                unique_ids(pruned),
                self.last_aprs_update == old(self).last_aprs_update,
                0 <= i <= pruned.len(),
                forall|k: int| 0 <= k < i ==> id_of(#[trigger] pruned[k]) != id_of(new_status),
            decreases pruned.len() - i,
        {
            if self.states[i].aircraft.id == new_status.aircraft.id {
                let ghost st = new_status;
                self.states.set(i, new_status);
                proof {
                    assert(self.states@ == pruned.update(i as int, st));
                    let c = choose|c: int|
                        0 <= c < pruned.len() && id_of(#[trigger] pruned[c]) == id_of(st);
                    assert(has_id(pruned, id_of(st)));
                    assert(c == i);
                    assert(upserted(pruned, st) == pruned.update(i as int, st));
                    assert forall|a: int, b: int|
                        0 <= a < self.states@.len() && 0 <= b < self.states@.len() && a != b
                            implies id_of(#[trigger] self.states@[a]) != id_of(
                            #[trigger] self.states@[b],
                        ) by {
                        assert(id_of(pruned[a]) != id_of(pruned[b]));
                    }
                }
                return;
            }
            i = i + 1;
        }
        let ghost st = new_status;
        self.states.push(new_status);
        proof {
            assert(!has_id(pruned, id_of(st)));
            assert forall|a: int, b: int|
                0 <= a < self.states@.len() && 0 <= b < self.states@.len() && a != b implies id_of(
                #[trigger] self.states@[a],
            ) != id_of(#[trigger] self.states@[b]) by {
                if a < pruned.len() && b < pruned.len() {
                    assert(self.states@[a] == pruned[a] && self.states@[b] == pruned[b]);
                } else if a < pruned.len() {
                    assert(self.states@[a] == pruned[a]);
                } else {
                    assert(self.states@[b] == pruned[b]);
                }
            }
        }
    }

    /// Stores `new_status` after removing the states that are outdated at the
    /// current time, replacing the status of the same aircraft if there is one.
    pub fn push_status(&mut self, new_status: Status<R>)
        requires
            old(self).wf(),
        ensures
            final(self).wf(),
            exists|now: u64|
                final(self).entries() == upserted(fresh(old(self).entries(), now), new_status),
            final(self).last_feed() == old(self).last_feed(),
    {
        let now = get_current_timestamp();
        self.push_status_at(new_status, now);
    }

    /// Records the time stamp of the latest feed update.
    pub fn push_last_aprs_update_timestamp(&mut self, timestamp: u64)
        ensures
            final(self).entries() == old(self).entries(),
            final(self).last_feed() == Some(timestamp),
    {
        self.last_aprs_update = Some(timestamp);
    }

    /// Removes outdated states at `now`, then summarizes what is left.
    pub fn get_overview_at(&mut self, now: u64) -> (r: Overview)
        requires
            old(self).wf(),
        ensures
            final(self).wf(),
            final(self).entries() == fresh(old(self).entries(), now),
            final(self).last_feed() == old(self).last_feed(),
            r.count == final(self).entries().len(),
            r.last_status_update == newest_stamp(final(self).entries()),
            r.last_aprs_update == old(self).last_feed(),
    {
        self.remove_outdated_states(now);
        let mut newest: Option<u64> = None;
        let mut i: usize = 0;
        while i < self.states.len()
            invariant
                0 <= i <= self.states@.len(),
                newest == newest_stamp(self.states@.take(i as int)),
            decreases self.states@.len() - i,
        {
            proof {
                assert(self.states@.take(i as int + 1).drop_last() =~= self.states@.take(i as int));
            }
            let t = self.states[i].time_stamp;
            newest = match newest {
                None => Some(t),
                Some(m) => Some(if m >= t { m } else { t }),
            };
            i = i + 1;
        }
        proof {
            assert(self.states@.take(i as int) =~= self.states@);
        }
        Overview { count: self.states.len(), last_status_update: newest, last_aprs_update: self.last_aprs_update }
    }

    /// Removes the states that are outdated at the current time, then summarizes
    /// what is left.
    pub fn get_overview(&mut self) -> (r: Overview)
        requires
            old(self).wf(),
        ensures
            final(self).wf(),
            exists|now: u64| final(self).entries() == fresh(old(self).entries(), now),
            final(self).last_feed() == old(self).last_feed(),
            r.count == final(self).entries().len(),
            r.last_status_update == newest_stamp(final(self).entries()),
            r.last_aprs_update == old(self).last_feed(),
    {
        let now = get_current_timestamp();
        self.get_overview_at(now)
    }
}

} // verus!
