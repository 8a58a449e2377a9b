use std::collections::HashMap;
use vstd::prelude::*;

use crate::grouping::{children_of, group_by_coder, has_child, lemma_empty_iff_no_row};
use crate::model::{Coder, Skill, StoreError};

verus! {

broadcast use vstd::std_specs::hash::group_hash_axioms;

/// The lifecycle of one request scope.
#[derive(Debug, Clone, Copy, PartialEq, Eq, Structural)]
pub enum ScopeState {
    /// Accepting lookups; no grouped fetch is in flight.
    Open,
    /// One grouped fetch is in flight; new lookups gather for the next batch.
    Draining,
    /// The request is finished and all state is released.
    Closed,
}

/// Where one lookup stands.
#[derive(Debug, Clone, Copy, PartialEq, Eq, Structural)]
pub enum Slot {
    /// Waits for the grouped fetch that carries this key.
    Waiting(u128),
    /// Resolved: the children of this key are in the scope's cache.
    Ready(u128),
    /// Failed with the store error at this position of the scope's failures.
    Failed(usize),
}

/// A lookup was issued after its scope closed.
#[derive(Debug, Clone, Copy, PartialEq, Eq)]
pub struct ScopeClosed;

/// What a lookup's caller sees.
#[derive(Debug)]
pub enum Outcome<'a> {
    Pending,
    Ready(&'a Vec<Skill>),
    Failed(&'a StoreError),
    ScopeClosed,
}

/// What a lookup's caller sees, as a mathematical value.
pub enum OutcomeModel {
    Pending,
    Ready(Seq<Skill>),
    Failed(StoreError),
    ScopeClosed,
}

impl<'a> Outcome<'a> {
    pub open spec fn model(self) -> OutcomeModel {
        match self {
            Outcome::Pending => OutcomeModel::Pending,
            Outcome::Ready(v) => OutcomeModel::Ready(v@),
            Outcome::Failed(e) => OutcomeModel::Failed(*e),
            Outcome::ScopeClosed => OutcomeModel::ScopeClosed,
        }
    }
}

/// The state of a request scope, as mathematical values.
pub struct LoaderModel {
    pub state: ScopeState,
    /// The keys of the next batch, in the order they were first asked for.
    pub pending: Seq<u128>,
    /// The keys of the grouped fetch in flight.
    pub in_flight: Seq<u128>,
    /// The resolved children of each key seen in this scope.
    pub cache: Map<u128, Seq<Skill>>,
    /// The store errors of failed fetches, in order.
    pub failures: Seq<StoreError>,
    /// One slot for each lookup issued, indexed by ticket.
    pub slots: Seq<Slot>,
}

pub open spec fn settle(s: Slot, flushed: Seq<u128>) -> Slot {
    match s {
        Slot::Waiting(k) => if flushed.contains(k) { Slot::Ready(k) } else { s },
        _ => s,
    }
}

pub open spec fn fail_slot(s: Slot, flushed: Seq<u128>, idx: usize) -> Slot {
    match s {
        Slot::Waiting(k) => if flushed.contains(k) { Slot::Failed(idx) } else { s },
        _ => s,
    }
}

impl LoaderModel {
    pub open spec fn slot_wf(self, s: Slot) -> bool {
        match s {
            Slot::Waiting(k) => self.pending.contains(k) || self.in_flight.contains(k),
            Slot::Ready(k) => self.cache.contains_key(k),
            Slot::Failed(i) => i < self.failures.len(),
        }
    }

    /// The invariant of a request scope.
    pub open spec fn wf(self) -> bool {
        &&& self.state == ScopeState::Open ==> self.in_flight.len() == 0
        &&& self.state == ScopeState::Closed ==> self.pending.len() == 0 && self.in_flight.len() == 0
        &&& self.pending.no_duplicates()
        &&& self.in_flight.no_duplicates()
        &&& forall|k: u128| #[trigger] self.pending.contains(k)
            ==> !self.in_flight.contains(k) && !self.cache.contains_key(k)
        &&& forall|k: u128| #[trigger] self.in_flight.contains(k) ==> !self.cache.contains_key(k)
        &&& self.state != ScopeState::Closed ==> forall|t: int|
            0 <= t < self.slots.len() ==> self.slot_wf(#[trigger] self.slots[t])
    }

    /// A fresh scope.
    pub open spec fn opened() -> LoaderModel {
        LoaderModel {
            state: ScopeState::Open,
            pending: Seq::empty(),
            in_flight: Seq::empty(),
            cache: Map::empty(),
            failures: Seq::empty(),
            slots: Seq::empty(),
        }
    }

    /// The key has been seen in this scope: it is cached, in flight or pending.
    pub open spec fn knows(self, k: u128) -> bool {
        self.cache.contains_key(k) || self.in_flight.contains(k) || self.pending.contains(k)
    }

    /// One lookup of `k`: a new slot, and `k` joins the next batch unless
    /// the scope has seen it already.
    pub open spec fn after_lookup(self, k: u128) -> LoaderModel {
        if self.state == ScopeState::Closed {
            self
        } else {
            LoaderModel {
                pending: if self.knows(k) { self.pending } else { self.pending.push(k) },
                slots: self.slots.push(
                    if self.cache.contains_key(k) { Slot::Ready(k) } else { Slot::Waiting(k) },
                ),
                ..self
            }
        }
    }

    /// Lookups of each key of `keys` in turn.
    pub open spec fn after_lookups(self, keys: Seq<u128>) -> LoaderModel
        decreases keys.len(),
    {
        if keys.len() == 0 {
            self
        } else {
            self.after_lookups(keys.drop_last()).after_lookup(keys.last())
        }
    }

    /// A flush starts where the scope is open and some key is pending.
    pub open spec fn flushes(self) -> bool {
        self.state == ScopeState::Open && self.pending.len() > 0
    }

    pub open spec fn after_drain(self) -> LoaderModel {
        if self.flushes() {
            LoaderModel {
                state: ScopeState::Draining,
                pending: Seq::empty(),
                in_flight: self.pending,
                ..self
            }
        } else {
            self
        }
    }

    /// The fetch in flight returned `rows`.
    pub open spec fn after_success(self, rows: Seq<Skill>) -> LoaderModel {
        LoaderModel {
            state: ScopeState::Open,
            in_flight: Seq::empty(),
            cache: self.cache.union_prefer_right(
                Map::new(|k: u128| self.in_flight.contains(k), |k: u128| children_of(rows, k)),
            ),
            slots: self.slots.map_values(|s: Slot| settle(s, self.in_flight)),
            ..self
        }
    }

    /// The fetch in flight failed with `e`.
    pub open spec fn after_failure(self, e: StoreError) -> LoaderModel {
        LoaderModel {
            state: ScopeState::Open,
            in_flight: Seq::empty(),
            failures: self.failures.push(e),
            slots: self.slots.map_values(
                |s: Slot| fail_slot(s, self.in_flight, self.failures.len() as usize),
            ),
            ..self
        }
    }

    pub open spec fn after_close(self) -> LoaderModel {
        LoaderModel {
            state: ScopeState::Closed,
            pending: Seq::empty(),
            in_flight: Seq::empty(),
            cache: Map::empty(),
            failures: Seq::empty(),
            ..self
        }
    }

    /// What the caller holding ticket `t` sees.
    pub open spec fn outcome_of(self, t: int) -> OutcomeModel {
        if self.state == ScopeState::Closed {
            OutcomeModel::ScopeClosed
        } else {
            match self.slots[t] {
                Slot::Waiting(_) => OutcomeModel::Pending,
                Slot::Ready(k) => OutcomeModel::Ready(self.cache[k]),
                Slot::Failed(i) => OutcomeModel::Failed(self.failures[i as int]),
            }
        }
    }
}

proof fn lemma_push_contains(s: Seq<u128>, x: u128)
    ensures
        forall|y: u128| #[trigger] s.push(x).contains(y) <==> s.contains(y) || y == x,
{
    assert forall|y: u128| #[trigger] s.push(x).contains(y) <==> s.contains(y) || y == x by {
        if s.contains(y) {
            let i = choose|i: int| 0 <= i < s.len() && s[i] == y;
            assert(s.push(x)[i] == y);
        }
        if y == x {
            assert(s.push(x)[s.len() as int] == y);
        }
        if s.push(x).contains(y) {
            let i = choose|i: int| 0 <= i < s.push(x).len() && s.push(x)[i] == y;
            if i < s.len() {
                assert(s[i] == y);
            }
        }
    }
}

/// One lookup keeps the invariant, and adds its key to the pending set
/// unless the scope has seen it.
pub proof fn lemma_lookup_step(m: LoaderModel, k: u128)
    requires
        m.wf(),
        m.state != ScopeState::Closed,
    ensures
        m.after_lookup(k).wf(),
        m.after_lookup(k).pending.to_set() == if m.knows(k) {
            m.pending.to_set()
        } else {
            m.pending.to_set().insert(k)
        },
{
    let m1 = m.after_lookup(k);
    lemma_push_contains(m.pending, k);
    m.pending.lemma_push_to_set_commute(k);
    assert forall|t: int| 0 <= t < m1.slots.len() implies m1.slot_wf(#[trigger] m1.slots[t]) by {
        if t < m.slots.len() {
            assert(m.slot_wf(m.slots[t]));
        }
    }
}

/// Lookups keep the invariant; the pending set gains exactly the looked-up
/// keys that are neither cached nor in flight.
pub proof fn lemma_lookups_step(m: LoaderModel, keys: Seq<u128>)
    requires
        m.wf(),
        m.state != ScopeState::Closed,
    ensures
        ({
            let m1 = m.after_lookups(keys);
            &&& m1.wf()
            &&& m1.state == m.state
            &&& m1.cache == m.cache
            &&& m1.in_flight == m.in_flight
            &&& m1.failures == m.failures
            &&& m1.slots.len() == m.slots.len() + keys.len()
            &&& m1.slots.take(m.slots.len() as int) == m.slots
            &&& m1.pending.to_set() == m.pending.to_set().union(
                keys.to_set().filter(|x: u128| !m.cache.contains_key(x) && !m.in_flight.contains(x)),
            )
        }),
    decreases keys.len(),
{
    if keys.len() == 0 {
        assert(keys.to_set() =~= Set::empty());
        assert(m.pending.to_set().union(
            keys.to_set().filter(|x: u128| !m.cache.contains_key(x) && !m.in_flight.contains(x)),
        ) =~= m.pending.to_set());
        assert(m.slots.take(m.slots.len() as int) == m.slots);
    } else {
        let init = keys.drop_last();
        let k = keys.last();
        lemma_lookups_step(m, init);
        let m0 = m.after_lookups(init);
        lemma_lookup_step(m0, k);
        assert(keys == init.push(k));
        init.lemma_push_to_set_commute(k);
        assert(m0.after_lookup(k).slots.take(m.slots.len() as int) =~= m0.slots.take(m.slots.len() as int));
        assert(m.after_lookups(keys).pending.to_set() =~= m.pending.to_set().union(
            keys.to_set().filter(|x: u128| !m.cache.contains_key(x) && !m.in_flight.contains(x)),
        ));
    }
}

/// Lookups issued within one window, from an open scope with nothing
/// pending, gather into one batch: each distinct key that is not cached
/// stands in it exactly once. Draining sends exactly that batch, and no
/// second fetch starts while it is in flight.
pub proof fn lemma_window_forms_one_batch(m: LoaderModel, keys: Seq<u128>)
    requires
        m.wf(),
        m.state == ScopeState::Open,
        m.pending.len() == 0,
    ensures
        ({
            let m1 = m.after_lookups(keys);
            let batch = keys.to_set().filter(|x: u128| !m.cache.contains_key(x));
            &&& m1.wf()
            &&& m1.pending.no_duplicates()
            &&& m1.pending.to_set() == batch
            &&& m1.flushes() <==> batch.len() > 0
            &&& m1.flushes() ==> {
                &&& m1.after_drain().state == ScopeState::Draining
                &&& m1.after_drain().in_flight == m1.pending
                &&& !m1.after_drain().flushes()
                &&& m1.after_drain().after_drain() == m1.after_drain()
            }
        }),
{
    lemma_lookups_step(m, keys);
    let m1 = m.after_lookups(keys);
    let batch = keys.to_set().filter(|x: u128| !m.cache.contains_key(x));
    assert(m.pending.to_set() =~= Set::empty());
    assert(m1.pending.to_set() =~= batch);
    m1.pending.unique_seq_to_set();
    keys.to_set().lemma_len_filter(|x: u128| !m.cache.contains_key(x));
}

/// `n` lookups of one key.
pub open spec fn repeated(k: u128, n: nat) -> Seq<u128> {
    Seq::new(n, |i: int| k)
}

proof fn lemma_repeated_lookups(m: LoaderModel, k: u128, n: nat)
    requires
        m.wf(),
        m.state == ScopeState::Open,
        m.pending.len() == 0,
    ensures
        ({
            let m1 = m.after_lookups(repeated(k, n));
            let slot = if m.cache.contains_key(k) { Slot::Ready(k) } else { Slot::Waiting(k) };
            &&& m1.wf()
            &&& m1.state == ScopeState::Open
            &&& m1.cache == m.cache
            &&& m1.failures == m.failures
            &&& m1.pending == if n > 0 && !m.cache.contains_key(k) {
                seq![k]
            } else {
                Seq::<u128>::empty()
            }
            &&& m1.slots.len() == m.slots.len() + n
            &&& forall|t: int| m.slots.len() <= t < m1.slots.len() ==> #[trigger] m1.slots[t] == slot
        }),
    decreases n,
{
    lemma_lookups_step(m, repeated(k, n));
    if n > 0 {
        assert(repeated(k, n).drop_last() =~= repeated(k, (n - 1) as nat));
        lemma_repeated_lookups(m, k, (n - 1) as nat);
        let m0 = m.after_lookups(repeated(k, (n - 1) as nat));
        if n > 1 && !m.cache.contains_key(k) {
            assert(m0.pending[0] == k);
        }
    }
}

/// Asking for one key `n` times within one window puts it once into the
/// batch, and all `n` callers share one slot state: they see one and the
/// same collection, the cached one or the children of the key among the
/// fetched rows.
pub proof fn lemma_repeated_key_shares_one_entry(m: LoaderModel, k: u128, n: nat, rows: Seq<Skill>)
    requires
        m.wf(),
        m.state == ScopeState::Open,
        m.pending.len() == 0,
        n > 0,
    ensures
        ({
            let m1 = m.after_lookups(repeated(k, n));
            let m2 = m1.after_drain().after_success(rows);
            &&& m1.pending == if m.cache.contains_key(k) { Seq::<u128>::empty() } else { seq![k] }
            &&& m1.slots.len() == m.slots.len() + n
            &&& forall|t: int| m.slots.len() <= t < m1.slots.len() ==> {
                &&& m.cache.contains_key(k) ==> #[trigger] m1.outcome_of(t) == OutcomeModel::Ready(m.cache[k])
                &&& !m.cache.contains_key(k) ==> m2.outcome_of(t) == OutcomeModel::Ready(children_of(rows, k))
            }
        }),
{
    lemma_repeated_lookups(m, k, n);
    let m1 = m.after_lookups(repeated(k, n));
    if !m.cache.contains_key(k) {
        assert(m1.after_drain().in_flight[0] == k);
    }
}

/// A flush that succeeds leaves an entry for every key of its batch: the
/// key's children among the rows, empty exactly where no row carries the key.
pub proof fn lemma_flush_covers_every_key(m: LoaderModel, rows: Seq<Skill>, k: u128)
    requires
        m.wf(),
        m.state == ScopeState::Draining,
        m.in_flight.contains(k),
    ensures
        m.after_success(rows).cache.contains_key(k),
        m.after_success(rows).cache[k] == children_of(rows, k),
        m.after_success(rows).cache[k].len() == 0 <==> !has_child(rows, k),
{
    lemma_empty_iff_no_row(rows, k);
}

/// A flush that fails hands its error to every waiter of its batch: none of
/// them is left pending.
pub proof fn lemma_failure_reaches_every_waiter(m: LoaderModel, e: StoreError, t: int)
    requires
        m.wf(),
        m.state == ScopeState::Draining,
        0 <= t < m.slots.len(),
        m.failures.len() <= usize::MAX,
        m.slots[t] matches Slot::Waiting(k) && m.in_flight.contains(k),
    ensures
        m.after_failure(e).outcome_of(t) == OutcomeModel::Failed(e),
{
    let idx = m.failures.len() as usize;
    assert(m.failures.push(e)[idx as int] == e);
}

impl Coder {
    /// Asks `loader` for the skills of this coder; see `CoderDataLoader::lookup`.
    pub fn skills(&self, loader: &mut CoderDataLoader) -> (r: Result<usize, ScopeClosed>)
        requires
            old(loader)@.wf(),
        ensures
            final(loader)@.wf(),
            final(loader)@ == old(loader)@.after_lookup(self.id),
            old(loader)@.state == ScopeState::Closed <==> r is Err,
            r matches Ok(t) ==> t == old(loader)@.slots.len(),
    {
        loader.lookup(self.id)
    }
}

/// Whether `keys` holds `k`.
fn holds_key(keys: &Vec<u128>, k: u128) -> (r: bool)
    ensures
        r == keys@.contains(k),
{
    let mut i: usize = 0;
    while i < keys.len()
        invariant
            0 <= i <= keys.len(),
            forall|j: int| 0 <= j < i ==> keys@[j] != k,
        decreases keys.len() - i,
    {
        if keys[i] == k {
            return true;
        }
        i += 1;
    }
    false
}

/// The loader of one request scope: it batches the lookups of coders'
/// skills, remembers the resolved children of each coder, and hands each
/// ticket its outcome.
pub struct CoderDataLoader {
    state: ScopeState,
    pending: Vec<u128>,
    in_flight: Vec<u128>,
    cache: HashMap<u128, Vec<Skill>>,
    failures: Vec<StoreError>,
    slots: Vec<Slot>,
}

impl View for CoderDataLoader {
    type V = LoaderModel;

    closed spec fn view(&self) -> LoaderModel {
        LoaderModel {
            state: self.state,
            pending: self.pending@,
            in_flight: self.in_flight@,
            cache: self.cache@.map_values(|v: Vec<Skill>| v@),
            failures: self.failures@,
            slots: self.slots@,
        }
    }
}

impl CoderDataLoader {
    /// Opens a scope for one inbound request.
    pub fn new() -> (r: CoderDataLoader)
        ensures
            r@ == LoaderModel::opened(),
            r@.wf(),
    {
        let r = CoderDataLoader {
            state: ScopeState::Open,
            pending: Vec::new(),
            in_flight: Vec::new(),
            cache: HashMap::new(),
            failures: Vec::new(),
            slots: Vec::new(),
        };
        assert(r@.cache =~= Map::empty());
        r
    }

    pub fn state(&self) -> (r: ScopeState)
        ensures
            r == self@.state,
    {
        self.state
    }

    /// The number of tickets handed out.
    pub fn tickets(&self) -> (r: usize)
        ensures
            r == self@.slots.len(),
    {
        self.slots.len()
    }

    /// Asks for the skills of coder `key` and returns the caller's ticket.
    ///
    /// A key already seen in this scope joins no batch again: its ticket
    /// shares the cached or awaited result.
    pub fn lookup(&mut self, key: u128) -> (r: Result<usize, ScopeClosed>)
        requires
            old(self)@.wf(),
        ensures
            final(self)@.wf(),
            final(self)@ == old(self)@.after_lookup(key),
            old(self)@.state == ScopeState::Closed <==> r is Err,
            r matches Ok(t) ==> t == old(self)@.slots.len(),
    {
        if self.state == ScopeState::Closed {
            return Err(ScopeClosed);
        }
        let t = self.slots.len();
        if self.cache.contains_key(&key) {
            self.slots.push(Slot::Ready(key));
        } else {
            self.slots.push(Slot::Waiting(key));
            if !holds_key(&self.in_flight, key) && !holds_key(&self.pending, key) {
                self.pending.push(key);
            }
        }
        proof {
            lemma_push_contains(old(self)@.pending, key);
            assert(self@.cache.dom() =~= self.cache@.dom());
            assert(self@ =~= old(self)@.after_lookup(key));
            lemma_lookup_step(old(self)@, key);
        }
        Ok(t)
    }

    /// Starts a flush: where the scope is open and keys are pending, they
    /// become the batch in flight and are returned, to be fetched at once.
    pub fn drain(&mut self) -> (r: Option<Vec<u128>>)
        requires
            old(self)@.wf(),
        ensures
            final(self)@.wf(),
            final(self)@ == old(self)@.after_drain(),
            r is Some <==> old(self)@.flushes(),
            r matches Some(keys) ==> keys@ == old(self)@.pending,
    {
        if self.state != ScopeState::Open || self.pending.len() == 0 {
            return None;
        }
        let mut keys: Vec<u128> = Vec::new();
        std::mem::swap(&mut keys, &mut self.pending);
        self.in_flight = keys.clone();
        self.state = ScopeState::Draining;
        proof {
            assert(self@ =~= old(self)@.after_drain());
        }
        Some(keys)
    }

    /// Hands the outcome of the grouped fetch in flight to its batch.
    ///
    /// Rows are partitioned by coder, and every waiter of the batch becomes
    /// ready; a failure reaches every waiter of the batch alike. Where no
    /// fetch is in flight (the scope is open, or closed and released) the
    /// outcome is discarded and `false` returned.
    pub fn complete(&mut self, fetched: Result<Vec<Skill>, StoreError>) -> (applied: bool)
        requires
            old(self)@.wf(),
        ensures
            final(self)@.wf(),
            applied == (old(self)@.state == ScopeState::Draining),
            !applied ==> final(self)@ == old(self)@,
            applied ==> final(self)@ == match fetched {
                Ok(rows) => old(self)@.after_success(rows@),
                Err(e) => old(self)@.after_failure(e),
            },
    {
        if self.state != ScopeState::Draining {
            return false;
        }
        match fetched {
            Ok(rows) => self.settle_batch(rows),
            Err(e) => self.fail_batch(e),
        }
        true
    }

    /// What the caller holding ticket `t` sees.
    pub fn outcome(&self, t: usize) -> (r: Outcome<'_>)
        requires
            self@.wf(),
            t < self@.slots.len(),
        ensures
            r.model() == self@.outcome_of(t as int),
    {
        if self.state == ScopeState::Closed {
            return Outcome::ScopeClosed;
        }
        match self.slots[t] {
            Slot::Waiting(_) => Outcome::Pending,
            Slot::Ready(k) => {
                assert(self@.slot_wf(self@.slots[t as int]));
                match self.cache.get(&k) {
                    Some(v) => Outcome::Ready(v),
                    None => Outcome::ScopeClosed,
                }
            },
            Slot::Failed(i) => {
                assert(self@.slot_wf(self@.slots[t as int]));
                Outcome::Failed(&self.failures[i])
            },
        }
    }

    /// Closes the scope once its request has finished: pending and cached
    /// state is released, and every ticket, resolved or not, now sees
    /// `ScopeClosed`.
    pub fn close(&mut self)
        requires
            old(self)@.wf(),
        ensures
            final(self)@.wf(),
            final(self)@ == old(self)@.after_close(),
    {
        self.state = ScopeState::Closed;
        self.pending = Vec::new();
        self.in_flight = Vec::new();
        self.cache = HashMap::new();
        self.failures = Vec::new();
        assert(self@.cache =~= Map::empty());
        assert(self@ =~= old(self)@.after_close());
    }

    fn settle_batch(&mut self, rows: Vec<Skill>)
        requires
            old(self)@.wf(),
            old(self)@.state == ScopeState::Draining,
        ensures
            final(self)@.wf(),
            final(self)@ == old(self)@.after_success(rows@),
    {
        let ghost rs = rows@;
        let ghost m0 = self@;
        let mut map = group_by_coder(&self.in_flight, rows);
        let mut i: usize = 0;
        while i < self.in_flight.len()
            invariant
                self.in_flight@ == m0.in_flight,
                self.pending@ == m0.pending,
                self.slots@ == m0.slots,
                self.failures@ == m0.failures,
                self.state == m0.state,
                m0.wf(),
                0 <= i <= self.in_flight.len(),
                self@.cache == m0.cache.union_prefer_right(
                    Map::new(|k: u128| m0.in_flight.take(i as int).contains(k), |k: u128| children_of(rs, k)),
                ),
                forall|j: int| i <= j < m0.in_flight.len() ==> #[trigger] map@.contains_key(m0.in_flight[j])
                    && map@[m0.in_flight[j]]@ == children_of(rs, m0.in_flight[j]),
            decreases self.in_flight.len() - i,
        {
            let k = self.in_flight[i];
            assert(map@.contains_key(m0.in_flight[i as int]));
            let ghost before = self@.cache;
            let ghost vk = map@[k];
            let ghost map0 = map@;
            let removed = map.remove(&k);
            assert(map@ == map0.remove(k));
            if let Some(v) = removed {
                assert(v == vk);
                self.cache.insert(k, v);
            }
            proof {
                assert(self@.cache =~= before.insert(k, children_of(rs, k)));
                assert(m0.in_flight.take(i + 1) == m0.in_flight.take(i as int).push(k));
                lemma_push_contains(m0.in_flight.take(i as int), k);
                assert forall|j: int| i + 1 <= j < m0.in_flight.len() implies #[trigger] map@.contains_key(m0.in_flight[j])
                    && map@[m0.in_flight[j]]@ == children_of(rs, m0.in_flight[j]) by {
                    assert(m0.in_flight[j] != m0.in_flight[i as int]);
                    assert(map0.contains_key(m0.in_flight[j]));
                }
            }
            i += 1;
            assert(self@.cache =~= m0.cache.union_prefer_right(
                Map::new(|k: u128| m0.in_flight.take(i as int).contains(k), |k: u128| children_of(rs, k)),
            ));
        }
        assert(m0.in_flight.take(i as int) == m0.in_flight);
        let ghost m1 = self@;
        let mut t: usize = 0;
        while t < self.slots.len()
            invariant
                m0.wf(),
                m0.state == ScopeState::Draining,
                self@.cache == m1.cache,
                self.in_flight@ == m0.in_flight,
                self.pending@ == m0.pending,
                self.failures@ == m0.failures,
                self.state == m0.state,
                m1.cache == m0.cache.union_prefer_right(
                    Map::new(|k: u128| m0.in_flight.contains(k), |k: u128| children_of(rs, k)),
                ),
                0 <= t <= self.slots.len(),
                self.slots@.len() == m0.slots.len(),
                forall|u: int| 0 <= u < t ==> self.slots@[u] == settle(m0.slots[u], m0.in_flight),
                forall|u: int| t <= u < m0.slots.len() ==> self.slots@[u] == m0.slots[u],
            decreases self.slots.len() - t,
        {
            match self.slots[t] {
                Slot::Waiting(k) => {
                    assert(m0.slot_wf(m0.slots[t as int]));
                    if self.cache.contains_key(&k) {
                        assert(self@.cache.contains_key(k));
                        self.slots.set(t, Slot::Ready(k));
                    } else {
                        assert(!self@.cache.contains_key(k));
                    }
                },
                _ => {},
            }
            t += 1;
        }
        self.in_flight = Vec::new();
        self.state = ScopeState::Open;
        proof {
            let m = self@;
            assert(m.slots =~= m0.slots.map_values(|s: Slot| settle(s, m0.in_flight)));
            assert(m =~= m0.after_success(rs));
            assert forall|t: int| 0 <= t < m.slots.len() implies m.slot_wf(#[trigger] m.slots[t]) by {
                assert(m0.slot_wf(m0.slots[t]));
            }
        }
    }

    fn fail_batch(&mut self, e: StoreError)
        requires
            old(self)@.wf(),
            old(self)@.state == ScopeState::Draining,
        ensures
            final(self)@.wf(),
            final(self)@ == old(self)@.after_failure(e),
    {
        let ghost m0 = self@;
        let idx = self.failures.len();
        self.failures.push(e);
        let mut t: usize = 0;
        while t < self.slots.len()
            invariant
                m0.wf(),
                self@.cache == m0.cache,
                self.in_flight@ == m0.in_flight,
                self.pending@ == m0.pending,
                self.failures@ == m0.failures.push(e),
                idx == m0.failures.len(),
                self.state == m0.state,
                0 <= t <= self.slots.len(),
                self.slots@.len() == m0.slots.len(),
                forall|u: int| 0 <= u < t ==> self.slots@[u] == fail_slot(m0.slots[u], m0.in_flight, idx),
                forall|u: int| t <= u < m0.slots.len() ==> self.slots@[u] == m0.slots[u],
            decreases self.slots.len() - t,
        {
            match self.slots[t] {
                Slot::Waiting(k) => {
                    if holds_key(&self.in_flight, k) {
                        self.slots.set(t, Slot::Failed(idx));
                    }
                },
                _ => {},
            }
            t += 1;
        }
        self.in_flight = Vec::new();
        self.state = ScopeState::Open;
        proof {
            let m = self@;
            assert(m.slots =~= m0.slots.map_values(|s: Slot| fail_slot(s, m0.in_flight, m0.failures.len() as usize)));
            assert(m =~= m0.after_failure(e));
            assert forall|t: int| 0 <= t < m.slots.len() implies m.slot_wf(#[trigger] m.slots[t]) by {
                assert(m0.slot_wf(m0.slots[t]));
            }
        }
    }
}

} // verus!
