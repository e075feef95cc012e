use vstd::prelude::*;
use crate::config::SessionConfig;
use crate::token::{SessionID, is_token_of_len, random_token};

verus! {

/// `now + lifespan`, held at the largest timestamp where the sum would not fit.
pub open spec fn expiry_of(now: u64, lifespan: u64) -> u64 {
    if now + lifespan > u64::MAX {
        u64::MAX
    } else {
        (now + lifespan) as u64
    }
}

/// The expiry of a session accessed at `now`.
pub fn expiry_after(now: u64, lifespan: u64) -> (r: u64)
    ensures
        r == expiry_of(now, lifespan),
{
    if now > u64::MAX - lifespan {
        u64::MAX
    } else {
        now + lifespan
    }
}

/// What the table holds for one token. A payload of `None` stands for the
/// payload type's default value, which is made only when a caller first reads it.
pub struct SessionRecord<D> {
    pub data: Option<D>,
    pub expires: u64,
}

impl<D> SessionRecord<D> {
    /// The record has not expired at `now`.
    pub open spec fn is_live(self, now: u64) -> bool {
        now < self.expires
    }

    /// The record of a session created at `now`.
    pub open spec fn fresh(now: u64, lifespan: u64) -> SessionRecord<D> {
        SessionRecord { data: None, expires: expiry_of(now, lifespan) }
    }

    /// The record after an access at `now`: an expired payload is dropped and
    /// the expiry moves to `now + lifespan`.
    pub open spec fn touched(self, now: u64, lifespan: u64) -> SessionRecord<D> {
        SessionRecord {
            data: if self.is_live(now) { self.data } else { None },
            expires: expiry_of(now, lifespan),
        }
    }
}

/// The table after a sweep at `now`: the live records of `m`, unchanged.
pub open spec fn swept<D>(m: Map<Seq<char>, SessionRecord<D>>, now: u64) -> Map<
    Seq<char>,
    SessionRecord<D>,
> {
    Map::new(|k: Seq<char>| m.contains_key(k) && m[k].is_live(now), |k: Seq<char>| m[k])
}

struct Entry<D> {
    token: String,
    record: SessionRecord<D>,
}

spec fn holds_token<D>(s: Seq<Entry<D>>, k: Seq<char>) -> bool {
    exists|i: int| 0 <= i < s.len() && (#[trigger] s[i]).token@ == k
}

spec fn index_of<D>(s: Seq<Entry<D>>, k: Seq<char>) -> int {
    choose|i: int| 0 <= i < s.len() && (#[trigger] s[i]).token@ == k
}

spec fn distinct<D>(s: Seq<Entry<D>>) -> bool {
    forall|i: int, j: int|
        0 <= i < s.len() && 0 <= j < s.len() && i != j ==> (#[trigger] s[i]).token@
            != (#[trigger] s[j]).token@
}

spec fn map_of<D>(s: Seq<Entry<D>>) -> Map<Seq<char>, SessionRecord<D>> {
    Map::new(|k: Seq<char>| holds_token(s, k), |k: Seq<char>| s[index_of(s, k)].record)
}

proof fn lemma_index_of<D>(s: Seq<Entry<D>>, i: int)
    requires
        distinct(s),
        0 <= i < s.len(),
    ensures
        holds_token(s, s[i].token@),
        index_of(s, s[i].token@) == i,
        map_of(s).contains_key(s[i].token@),
        map_of(s)[s[i].token@] == s[i].record,
{
    assert(holds_token(s, s[i].token@));
    let j = index_of(s, s[i].token@);
    assert(s[j].token@ == s[i].token@);
}

proof fn lemma_update<D>(s: Seq<Entry<D>>, i: int, e: Entry<D>)
    requires
        distinct(s),
        0 <= i < s.len(),
        e.token@ == s[i].token@,
    ensures
        distinct(s.update(i, e)),
        map_of(s.update(i, e)) == map_of(s).insert(e.token@, e.record),
{
    let t = s.update(i, e);
    assert forall|a: int, b: int|
        0 <= a < t.len() && 0 <= b < t.len() && a != b implies (#[trigger] t[a]).token@
        != (#[trigger] t[b]).token@ by {
        assert(t[a].token@ == s[a].token@);
        assert(t[b].token@ == s[b].token@);
    }
    lemma_index_of(t, i);
    assert forall|k: Seq<char>| holds_token(t, k) <==> holds_token(s, k) by {
        if holds_token(t, k) {
            let j = index_of(t, k);
            assert(s[j].token@ == k);
        }
        if holds_token(s, k) {
            let j = index_of(s, k);
            assert(t[j].token@ == k);
        }
    }
    assert forall|k: Seq<char>| holds_token(t, k) && k != e.token@ implies t[index_of(t, k)].record
        == s[index_of(s, k)].record by {
        let j = index_of(s, k);
        lemma_index_of(s, j);
        assert(t[j].token@ == k);
        lemma_index_of(t, j);
    }
    assert(map_of(t) =~= map_of(s).insert(e.token@, e.record));
}

proof fn lemma_push<D>(s: Seq<Entry<D>>, e: Entry<D>)
    requires
        distinct(s),
        !holds_token(s, e.token@),
    ensures
        distinct(s.push(e)),
        map_of(s.push(e)) == map_of(s).insert(e.token@, e.record),
{
    let t = s.push(e);
    assert forall|a: int, b: int|
        0 <= a < t.len() && 0 <= b < t.len() && a != b implies (#[trigger] t[a]).token@
        != (#[trigger] t[b]).token@ by {
        if a < s.len() && b < s.len() {
            assert(t[a] == s[a] && t[b] == s[b]);
        } else if a < s.len() {
            assert(t[a] == s[a]);
        } else {
            assert(t[b] == s[b]);
        }
    }
    lemma_index_of(t, s.len() as int);
    assert forall|k: Seq<char>| holds_token(t, k) <==> (holds_token(s, k) || k == e.token@) by {
        if holds_token(t, k) {
            let j = index_of(t, k);
            if j < s.len() {
                assert(s[j].token@ == k);
            }
        }
        if holds_token(s, k) {
            let j = index_of(s, k);
            assert(t[j].token@ == k);
        }
    }
    assert forall|k: Seq<char>| holds_token(s, k) implies t[index_of(t, k)].record
        == s[index_of(s, k)].record by {
        let j = index_of(s, k);
        lemma_index_of(s, j);
        assert(t[j] == s[j]);
        lemma_index_of(t, j);
    }
    assert(map_of(t) =~= map_of(s).insert(e.token@, e.record));
}

/// The map from tokens to session records, with its settings.
pub struct SessionTable<D> {
    entries: Vec<Entry<D>>,
    config: SessionConfig,
    last_sweep: u64,
}

impl<D> SessionTable<D> {
    /// The sessions held, by token.
    pub closed spec fn sessions(&self) -> Map<Seq<char>, SessionRecord<D>> {
        map_of(self.entries@)
    }

    /// How long a session lives after its last access.
    pub open spec fn lifespan(&self) -> u64 {
        self.config().lifespan
    }

    /// Number of characters in a token.
    pub open spec fn token_len(&self) -> usize {
        self.config().cookie_len
    }

    /// When the table was last swept.
    pub closed spec fn last_sweep(&self) -> u64 {
        self.last_sweep
    }

    /// A sweep is due once more than a lifespan has passed since the last one.
    pub open spec fn sweep_due(&self, now: u64) -> bool {
        now > self.last_sweep() + self.lifespan()
    }

    /// Tokens are unique, of the configured length and made of letters and digits.
    pub closed spec fn wf(&self) -> bool {
        &&& distinct(self.entries@)
        &&& self.config.cookie_len > 0
        &&& forall|k: Seq<char>|
            #[trigger] self.sessions().contains_key(k) ==> is_token_of_len(
                k,
                self.config.cookie_len as nat,
            )
    }

    /// Build an empty table at time `now`; the first sweep falls due one lifespan later.
    /// A zero token length is refused.
    pub fn new(config: SessionConfig, now: u64) -> (r: Option<SessionTable<D>>)
        ensures
            r is Some <==> config.cookie_len > 0,
            r matches Some(t) ==> {
                &&& t.wf()
                &&& t.sessions() == Map::<Seq<char>, SessionRecord<D>>::empty()
                &&& t.lifespan() == config.lifespan
                &&& t.token_len() == config.cookie_len
                &&& t.last_sweep() == now
                &&& t.config() == config
            },
    {
        if config.cookie_len == 0 {
            return None;
        }
        let t = SessionTable { entries: Vec::new(), config, last_sweep: now };
        assert(t.sessions() =~= Map::<Seq<char>, SessionRecord<D>>::empty());
        Some(t)
    }

    /// The settings the table was built with.
    pub closed spec fn config(&self) -> SessionConfig {
        self.config
    }

    /// The settings the table was built with.
    pub fn get_config(&self) -> (r: &SessionConfig)
        ensures
            *r == self.config(),
    {
        &self.config
    }
    /// Position of `token` among the entries.
    fn find(&self, token: &String) -> (r: Option<usize>)
        requires
            self.wf(),
        ensures
            r is None <==> !self.sessions().contains_key(token@),
            r matches Some(i) ==> i < self.entries@.len() && self.entries@[i as int].token@
                == token@,
    {
        let mut i: usize = 0;
        while i < self.entries.len()
            invariant
                i <= self.entries@.len(),
                forall|j: int| 0 <= j < i ==> (#[trigger] self.entries@[j]).token@ != token@,
            decreases self.entries@.len() - i,
        {
            if self.entries[i].token == *token {
                return Some(i);
            }
            i = i + 1;
        }
        None
    }

    /// The record held for `token`, if any.
    pub fn get(&self, token: &String) -> (r: Option<&SessionRecord<D>>)
        requires
            self.wf(),
        ensures
            r is Some <==> self.sessions().contains_key(token@),
            r matches Some(rec) ==> *rec == self.sessions()[token@],
    {
        match self.find(token) {
            Some(i) => {
                proof {
                    lemma_index_of(self.entries@, i as int);
                }
                Some(&self.entries[i].record)
            },
            None => None,
        }
    }

    /// Whether the table holds a session for `token`, live or not.
    pub fn contains(&self, token: &String) -> (r: bool)
        requires
            self.wf(),
        ensures
            r == self.sessions().contains_key(token@),
    {
        self.find(token).is_some()
    }

    /// Access the entry at `i` at time `now`.
    fn touch_at(&mut self, i: usize, now: u64)
        requires
            old(self).wf(),
            i < old(self).entries@.len(),
        ensures
            final(self).wf(),
            final(self).config == old(self).config,
            final(self).last_sweep == old(self).last_sweep,
            final(self).entries@.len() == old(self).entries@.len(),
            final(self).entries@[i as int].token@ == old(self).entries@[i as int].token@,
            final(self).sessions() == old(self).sessions().insert(
                old(self).entries@[i as int].token@,
                old(self).entries@[i as int].record.touched(now, old(self).config.lifespan),
            ),
    {
        let ghost s = self.entries@;
        let mut e = self.entries.remove(i);
        if e.record.expires <= now {
            e.record.data = None;
        }
        e.record.expires = expiry_after(now, self.config.lifespan);
        self.entries.insert(i, e);
        proof {
            assert(self.entries@ =~= s.update(i as int, e));
            lemma_update(s, i as int, e);
            lemma_index_of(s, i as int);
            assert forall|k: Seq<char>| #[trigger]
                self.sessions().contains_key(k) implies is_token_of_len(
                k,
                self.config.cookie_len as nat,
            ) by {
                assert(old(self).sessions().contains_key(k));
            }
        }
    }

    /// Remove every record that has expired at `now`; the others stay unchanged.
    pub fn sweep(&mut self, now: u64)
        requires
            old(self).wf(),
        ensures
            final(self).wf(),
            final(self).sessions() == swept(old(self).sessions(), now),
            final(self).config() == old(self).config(),
            final(self).last_sweep() == old(self).last_sweep(),
    {
        let ghost s = self.entries@;
        let mut kept: Vec<Entry<D>> = Vec::new();
        while self.entries.len() > 0
            invariant
                old(self).wf(),
                self.config == old(self).config,
                self.last_sweep == old(self).last_sweep,
                distinct(s),
                s == old(self).entries@,
                self.entries@.len() <= s.len(),
                self.entries@ == s.subrange(0, self.entries@.len() as int),
                distinct(kept@),
                forall|k: Seq<char>|
                    #[trigger] holds_token(kept@, k) <==> (holds_token(s, k) && index_of(s, k)
                        >= self.entries@.len() && s[index_of(s, k)].record.is_live(now)),
                forall|k: Seq<char>|
                    #[trigger] holds_token(kept@, k) ==> kept@[index_of(kept@, k)].record == s[index_of(s, k)].record,
            decreases self.entries@.len(),
        {
            let ghost n = self.entries@.len() - 1;
            let e = self.entries.pop().unwrap();
            proof {
                assert(e == s[n]);
                lemma_index_of(s, n);
            }
            if now < e.record.expires {
                proof {
                    lemma_push(kept@, e);
                    lemma_index_of(kept@.push(e), kept@.len() as int);
                }
                let ghost old_kept = kept@;
                kept.push(e);
                proof {
                    assert forall|k: Seq<char>|
                        #[trigger] holds_token(kept@, k) <==> (holds_token(s, k) && index_of(s, k)
                            >= self.entries@.len() && s[index_of(s, k)].record.is_live(now)) by {
                        if holds_token(s, k) {
                            let j = index_of(s, k);
                            lemma_index_of(s, j);
                        }
                        assert(map_of(kept@).contains_key(k) == (map_of(old_kept).contains_key(k) || k == e.token@));
                    }
                    assert forall|k: Seq<char>|
                        #[trigger] holds_token(kept@, k) implies kept@[index_of(kept@, k)].record
                            == s[index_of(s, k)].record by {
                        assert(map_of(kept@).contains_key(k));
                        assert(map_of(kept@)[k] == map_of(old_kept).insert(e.token@, e.record)[k]);
                    }
                }
            } else {
                proof {
                    assert forall|k: Seq<char>|
                        #[trigger] holds_token(kept@, k) <==> (holds_token(s, k) && index_of(s, k)
                            >= self.entries@.len() && s[index_of(s, k)].record.is_live(now)) by {
                        if holds_token(s, k) {
                            let j = index_of(s, k);
                            lemma_index_of(s, j);
                        }
                    }
                }
            }
        }
        let ghost before = old(self).sessions();
        self.entries = kept;
        proof {
            assert(self.sessions() =~= swept(before, now));
            assert forall|k: Seq<char>| #[trigger]
                self.sessions().contains_key(k) implies is_token_of_len(
                k,
                self.config.cookie_len as nat,
            ) by {
                assert(old(self).sessions().contains_key(k));
            }
        }
    }
    /// Whether `candidate` names a session the table holds.
    pub open spec fn knows(&self, candidate: Option<String>) -> bool {
        candidate matches Some(c) && self.sessions().contains_key(c@)
    }

    /// The sessions left once a sweep due at `now` has run.
    pub open spec fn sessions_after_due_sweep(&self, now: u64) -> Map<Seq<char>, SessionRecord<D>> {
        if self.sweep_due(now) {
            swept(self.sessions(), now)
        } else {
            self.sessions()
        }
    }

    /// Whether a sweep is due at `now`.
    pub fn is_sweep_due(&self, now: u64) -> (r: bool)
        ensures
            r == self.sweep_due(now),
    {
        now > self.last_sweep && now - self.last_sweep > self.config.lifespan
    }

    /// Store a new session under `token`, created at `now`, unless the token is taken.
    pub fn insert_fresh(&mut self, token: &String, now: u64) -> (r: bool)
        requires
            old(self).wf(),
            is_token_of_len(token@, old(self).token_len() as nat),
        ensures
            final(self).wf(),
            final(self).config() == old(self).config(),
            final(self).last_sweep() == old(self).last_sweep(),
            r == !old(self).sessions().contains_key(token@),
            final(self).sessions() == if r {
                old(self).sessions().insert(token@, SessionRecord::fresh(now, old(self).lifespan()))
            } else {
                old(self).sessions()
            },
    {
        if self.contains(token) {
            return false;
        }
        let e = Entry {
            token: token.clone(),
            record: SessionRecord { data: None, expires: expiry_after(now, self.config.lifespan) },
        };
        let ghost s = self.entries@;
        proof {
            assert(!holds_token(s, e.token@)) by {
                assert(!map_of(s).contains_key(e.token@));
            }
            lemma_push(s, e);
        }
        self.entries.push(e);
        proof {
            assert forall|k: Seq<char>| #[trigger]
                self.sessions().contains_key(k) implies is_token_of_len(
                k,
                self.config.cookie_len as nat,
            ) by {
                if k != token@ {
                    assert(old(self).sessions().contains_key(k));
                }
            }
        }
        true
    }

    /// Resolve the token a request carries at time `now`. A known token, live or
    /// expired, is kept and its session accessed. Otherwise a sweep runs if one is
    /// due, and a new session is stored under a freshly drawn token that no session
    /// holds. `None` comes only if every one of 2^64 draws collided.
    pub fn resolve_or_create(&mut self, candidate: Option<String>, now: u64) -> (r: Option<
        SessionID,
    >)
        requires
            old(self).wf(),
        ensures
            final(self).wf(),
            final(self).config() == old(self).config(),
            old(self).knows(candidate) ==> {
                &&& r matches Some(id) && id@ == candidate->0@
                &&& final(self).sessions() == old(self).sessions().insert(
                    candidate->0@,
                    old(self).sessions()[candidate->0@].touched(now, old(self).lifespan()),
                )
                &&& final(self).last_sweep() == old(self).last_sweep()
            },
            !old(self).knows(candidate) ==> {
                &&& final(self).last_sweep() == if old(self).sweep_due(now) {
                    now
                } else {
                    old(self).last_sweep()
                }
                &&& match r {
                    Some(id) => {
                        &&& !old(self).sessions_after_due_sweep(now).contains_key(id@)
                        &&& is_token_of_len(id@, old(self).token_len() as nat)
                        &&& final(self).sessions() == old(self).sessions_after_due_sweep(
                            now,
                        ).insert(id@, SessionRecord::fresh(now, old(self).lifespan()))
                    },
                    None => final(self).sessions() == old(self).sessions_after_due_sweep(now),
                }
            },
    {
        if let Some(c) = candidate {
            match self.find(&c) {
                Some(i) => {
                    proof {
                        lemma_index_of(self.entries@, i as int);
                    }
                    self.touch_at(i, now);
                    return Some(SessionID::new(c));
                },
                None => {},
            }
        }
        if self.is_sweep_due(now) {
            self.sweep(now);
            self.last_sweep = now;
        }
        let ghost mid = self.sessions();
        let ghost last = self.last_sweep;
        let len = self.config.cookie_len;
        let mut attempts: u64 = 0;
        loop
            invariant
                self.wf(),
                self.config == old(self).config,
                len == self.config.cookie_len,
                self.sessions() == mid,
                self.last_sweep == last,
                !old(self).knows(candidate),
                mid == old(self).sessions_after_due_sweep(now),
                last == if old(self).sweep_due(now) {
                    now
                } else {
                    old(self).last_sweep
                },
            decreases u64::MAX - attempts,
        {
            let token = random_token(len);
            if self.insert_fresh(&token, now) {
                return Some(SessionID::new(token));
            }
            if attempts == u64::MAX {
                return None;
            }
            attempts = attempts + 1;
        }
    }

    /// Run `f` on the payload of the session `token` at time `now`: the expired
    /// payload is dropped first (`f` then sees `None`, the default), the expiry moves to
    /// `now + lifespan`, and what `f` hands back becomes the payload.
    pub fn tap<T, F: FnOnce(Option<D>) -> (D, T)>(&mut self, token: &SessionID, now: u64, f: F) -> (r: T)
        requires
            old(self).wf(),
            old(self).sessions().contains_key(token@),
            f.requires((old(self).sessions()[token@].touched(now, old(self).lifespan()).data,)),
        ensures
            final(self).wf(),
            final(self).config() == old(self).config(),
            final(self).last_sweep() == old(self).last_sweep(),
            final(self).sessions().contains_key(token@),
            final(self).sessions()[token@].data is Some,
            f.ensures(
                (old(self).sessions()[token@].touched(now, old(self).lifespan()).data,),
                (final(self).sessions()[token@].data->0, r),
            ),
            final(self).sessions() == old(self).sessions().insert(
                token@,
                SessionRecord {
                    data: final(self).sessions()[token@].data,
                    expires: expiry_of(now, old(self).lifespan()),
                },
            ),
    {
        let i = match self.find(token.as_string()) {
            Some(i) => i,
            None => {
                proof {
                    assert(false);
                }
                0
            },
        };
        proof {
            lemma_index_of(self.entries@, i as int);
        }
        self.touch_at(i, now);
        let ghost s = self.entries@;
        proof {
            lemma_index_of(s, i as int);
        }
        let mut e = self.entries.remove(i);
        let data = e.record.data.take();
        let (d, r) = f(data);
        e.record.data = Some(d);
        self.entries.insert(i, e);
        proof {
            assert(self.entries@ =~= s.update(i as int, e));
            lemma_update(s, i as int, e);
            assert forall|k: Seq<char>| #[trigger]
                self.sessions().contains_key(k) implies is_token_of_len(
                k,
                self.config.cookie_len as nat,
            ) by {
                assert(map_of(s).contains_key(k));
            }
            assert(self.sessions() =~= old(self).sessions().insert(
                token@,
                SessionRecord { data: Some(d), expires: expiry_of(now, old(self).lifespan()) },
            ));
        }
        r
    }
    /// Access the session `token` at time `now` without reading its payload: an
    /// expired payload is dropped and the expiry moves to `now + lifespan`.
    pub fn renew(&mut self, token: &SessionID, now: u64)
        requires
            old(self).wf(),
            old(self).sessions().contains_key(token@),
        ensures
            final(self).wf(),
            final(self).config() == old(self).config(),
            final(self).last_sweep() == old(self).last_sweep(),
            final(self).sessions() == old(self).sessions().insert(
                token@,
                old(self).sessions()[token@].touched(now, old(self).lifespan()),
            ),
    {
        let i = match self.find(token.as_string()) {
            Some(i) => i,
            None => {
                proof {
                    assert(false);
                }
                0
            },
        };
        proof {
            lemma_index_of(self.entries@, i as int);
        }
        self.touch_at(i, now);
    }

    /// Set the payload of the session `token` back to the default, accessing it at `now`.
    pub fn clear(&mut self, token: &SessionID, now: u64)
        requires
            old(self).wf(),
            old(self).sessions().contains_key(token@),
        ensures
            final(self).wf(),
            final(self).config() == old(self).config(),
            final(self).last_sweep() == old(self).last_sweep(),
            final(self).sessions() == old(self).sessions().insert(
                token@,
                SessionRecord::fresh(now, old(self).lifespan()),
            ),
    {
        self.renew(token, now);
        let i = match self.find(token.as_string()) {
            Some(i) => i,
            None => {
                proof {
                    assert(false);
                }
                0
            },
        };
        let ghost s = self.entries@;
        proof {
            lemma_index_of(s, i as int);
        }
        let mut e = self.entries.remove(i);
        e.record.data = None;
        self.entries.insert(i, e);
        proof {
            assert(self.entries@ =~= s.update(i as int, e));
            lemma_update(s, i as int, e);
            assert forall|k: Seq<char>| #[trigger]
                self.sessions().contains_key(k) implies is_token_of_len(
                k,
                self.config.cookie_len as nat,
            ) by {
                assert(map_of(s).contains_key(k));
            }
            assert(self.sessions() =~= old(self).sessions().insert(
                token@,
                SessionRecord::fresh(now, old(self).lifespan()),
            ));
        }
    }
}

} // verus!
