//! The session cache: one live chain per chat id, loaded or created from a
//! pluggable store on first access, and re-persisted lazily through a
//! per-session countdown that skips `cycle` saves between physical writes.

use vstd::prelude::*;
use vstd::rwlock::RwLock;
use vstd::rwlock::RwLockPredicate;
use std::sync::Arc;

use crate::chain::Chain;
use crate::chain::TableV;
use crate::chain::extends;
use crate::chain::lemma_extends_refl;
use crate::chain::wf_view;
use crate::codec::DecodeError;
use crate::codec::dec_of;
use crate::codec::enc_table;
use crate::codec::encode_u64;
use crate::models::ChatChain;
use crate::settings::Settings;

verus! {

/// A store failure, surfaced unchanged to the caller.
#[derive(Debug)]
pub struct StoreError {
    pub message: String,
}

/// What the cache can fail with: corrupt persisted text, a store failure,
/// or a save requested for a session never fetched.
#[derive(Debug)]
pub enum CacheError {
    Decode(DecodeError),
    Store(StoreError),
    Protocol,
}

/// The lock predicate every cached chain is held under: the model stays
/// well-formed and only ever extends the table it was first loaded or
/// created with (`feed` provably extends, see `lemma_feed_extends`), so
/// what sits behind a handle is always a descendant of that initial table.
pub struct ChainPred {
    pub init: TableV,
}

impl RwLockPredicate<Chain> for ChainPred {
    open spec fn inv(self, v: Chain) -> bool {
        v.wf() && extends(v@, self.init)
    }
}

/// Relies on `Arc::clone`: the returned handle shares the same allocation,
/// so it equals the argument.
#[verifier::external_body]
fn arc_clone(a: &Arc<RwLock<Chain, ChainPred>>) -> (r: Arc<RwLock<Chain, ChainPred>>)
    ensures
        r == *a,
{
    a.clone()
}

/// The persistence abstraction: load a session's serialized chain, or save
/// one.  `contents` is the keyed table behind it; `saves` the history of
/// write attempts, which a failed write may or may not have applied.  A
/// backend that declares itself `infallible` promises that its calls
/// return `Ok`; the in-memory table does, a filesystem or network backend
/// keeps the default and may fail at any call.
pub trait ChainStore: Sized {
    open spec fn inv(&self) -> bool {
        true
    }

    open spec fn contents(&self) -> Map<i64, Seq<char>> {
        Map::empty()
    }

    open spec fn saves(&self) -> Seq<(i64, Seq<char>)> {
        Seq::empty()
    }

    open spec fn infallible(&self) -> bool {
        false
    }

    fn load_text(&self, chat_id: i64) -> (r: Result<Option<String>, StoreError>)
        requires
            self.inv(),
        ensures
            r matches Ok(Some(d)) ==> self.contents().contains_key(chat_id) && d@
                == self.contents()[chat_id],
            r matches Ok(None) ==> !self.contents().contains_key(chat_id),
            self.infallible() ==> r is Ok,
    ;

    fn save_text(&mut self, chat_id: i64, data: &str) -> (r: Result<(), StoreError>)
        requires
            old(self).inv(),
        ensures
            final(self).inv(),
            final(self).saves() == old(self).saves().push((chat_id, data@)),
            r is Ok ==> final(self).contents() == old(self).contents().insert(chat_id, data@),
            old(self).infallible() ==> r is Ok,
            final(self).infallible() == old(self).infallible(),
    ;
}

/// One step of `save_chain`'s countdown on a cached session, iterated `n`
/// times: a zero countdown flushes (one store write) and restarts the
/// cycle; a positive countdown only decrements.  This is exactly the
/// countdown evolution `save_chain`'s contract states, so the count below
/// is the number of store writes a run of `save_chain` calls performs.
pub open spec fn flushes_in(counter: nat, cycle: nat, n: nat) -> nat
    decreases n,
{
    if n == 0 {
        0
    } else if counter == 0 {
        1 + flushes_in(cycle, cycle, (n - 1) as nat)
    } else {
        flushes_in((counter - 1) as nat, cycle, (n - 1) as nat)
    }
}

proof fn lemma_no_flush(counter: nat, cycle: nat, n: nat)
    requires
        n <= counter,
    ensures
        flushes_in(counter, cycle, n) == 0,
    decreases n,
{
    if n > 0 {
        lemma_no_flush((counter - 1) as nat, cycle, (n - 1) as nat);
    }
}

proof fn lemma_one_flush(counter: nat, cycle: nat)
    ensures
        flushes_in(counter, cycle, counter + 1) == 1,
    decreases counter,
{
    if counter == 0 {
        assert(flushes_in(cycle, cycle, 0) == 0);
    } else {
        lemma_one_flush((counter - 1) as nat, cycle);
    }
}

/// The write-back cadence: for a session whose countdown starts at the full
/// cycle (as `get_chain` leaves it), a run of `save_chain` calls performs
/// no store write while the run is no longer than the cycle, and exactly
/// one write when the run is one call longer.  Against an infallible store
/// every call in such a run returns `Ok`, by `save_chain`'s contract.
pub proof fn lemma_flush_cadence(cycle: nat, n: nat)
    ensures
        n <= cycle ==> flushes_in(cycle, cycle, n) == 0,
        n == cycle + 1 ==> flushes_in(cycle, cycle, n) == 1,
{
    if n <= cycle {
        lemma_no_flush(cycle, cycle, n);
    }
    if n == cycle + 1 {
        lemma_one_flush(cycle, cycle);
    }
}

/// The name a session's chain file is stored under: the decimal chat id
/// with a `.json` suffix.
pub open spec fn file_label(chat_id: i64) -> Seq<char> {
    (if chat_id < 0 {
        seq!['-'] + dec_of((-chat_id) as nat)
    } else {
        dec_of(chat_id as nat)
    }) + ".json"@
}

/// Formats a session's chain file name; a filesystem backend joins it to
/// its base directory.
pub fn file_name(chat_id: i64) -> (r: String)
    ensures
        r@ == file_label(chat_id),
{
    let mut out: Vec<char> = Vec::new();
    let mag: u64;
    if chat_id >= 0 {
        mag = chat_id as u64;
    } else {
        out.push('-');
        mag = ((-1 - chat_id) as u64) + 1;
        proof {
            assert(mag as nat == (-chat_id) as nat);
        }
    }
    encode_u64(mag, &mut out);
    let mut suffix = crate::str_to_chars(".json");
    out.append(&mut suffix);
    proof {
        assert(out@ =~= file_label(chat_id));
    }
    crate::chars_to_string(out)
}

/// The map a row table denotes: one entry per row key, unambiguous when
/// the keys are unique.
pub open spec fn rows_map(s: Seq<ChatChain>) -> Map<i64, Seq<char>> {
    Map::new(
        |k: i64| exists|i: int| 0 <= i < s.len() && (#[trigger] s[i]).chat_id == k,
        |k: i64| s[choose|i: int| 0 <= i < s.len() && (#[trigger] s[i]).chat_id == k].chain@,
    )
}

/// The relational backend's model: a table of one row per session, loaded
/// by key and saved by upsert, with the history of performed writes kept
/// beside it so the write-back cadence is observable.
pub struct TableStore {
    rows: Vec<ChatChain>,
    log: Vec<(i64, String)>,
}

impl TableStore {
    pub fn new() -> (r: TableStore)
        ensures
            r.inv(),
            r.contents() == Map::<i64, Seq<char>>::empty(),
            r.saves() == Seq::<(i64, Seq<char>)>::empty(),
    {
        let r = TableStore { rows: Vec::new(), log: Vec::new() };
        proof {
            assert(r.contents() =~= Map::<i64, Seq<char>>::empty());
            assert(r.saves() =~= Seq::<(i64, Seq<char>)>::empty());
        }
        r
    }

    /// How many writes the store has performed.
    pub fn write_count(&self) -> (r: usize)
        ensures
            r == self.saves().len(),
    {
        self.log.len()
    }

    fn row_idx(&self, chat_id: i64) -> (r: Option<usize>)
        requires
            self.inv(),
        ensures
            match r {
                Some(i) => i < self.rows@.len() && self.rows@[i as int].chat_id == chat_id,
                None => forall|i: int|
                    0 <= i < self.rows@.len() ==> (#[trigger] self.rows@[i]).chat_id != chat_id,
            },
    {
        let n = self.rows.len();
        let mut i: usize = 0;
        while i < n
            invariant
                i <= n,
                n == self.rows@.len(),
                forall|k: int| 0 <= k < i ==> (#[trigger] self.rows@[k]).chat_id != chat_id,
            decreases n - i,
        {
            if self.rows[i].chat_id == chat_id {
                return Some(i);
            }
            i += 1;
        }
        None
    }
}

impl ChainStore for TableStore {
    /// The in-memory table cannot fail.
    open spec fn infallible(&self) -> bool {
        true
    }

    /// Row keys are unique.
    closed spec fn inv(&self) -> bool {
        forall|i: int, j: int|
            0 <= i < j < self.rows@.len() ==> (#[trigger] self.rows@[i]).chat_id
                != (#[trigger] self.rows@[j]).chat_id
    }

    closed spec fn contents(&self) -> Map<i64, Seq<char>> {
        rows_map(self.rows@)
    }

    closed spec fn saves(&self) -> Seq<(i64, Seq<char>)> {
        self.log@.map_values(|p: (i64, String)| (p.0, p.1@))
    }

    fn load_text(&self, chat_id: i64) -> (r: Result<Option<String>, StoreError>)
        ensures
            r matches Ok(Some(d)) ==> self.contents().contains_key(chat_id) && d@
                == self.contents()[chat_id],
            r matches Ok(None) ==> !self.contents().contains_key(chat_id),
    {
        match self.row_idx(chat_id) {
            Some(i) => {
                let d = self.rows[i].chain.clone();
                proof {
                    let c = choose|c: int|
                        0 <= c < self.rows@.len() && (#[trigger] self.rows@[c]).chat_id == chat_id;
                    assert(self.rows@[i as int].chat_id == chat_id);
                    assert(c == i as int);
                }
                Ok(Some(d))
            },
            None => {
                proof {
                    if self.contents().contains_key(chat_id) {
                        let c = choose|c: int|
                            0 <= c < self.rows@.len() && (#[trigger] self.rows@[c]).chat_id
                                == chat_id;
                        assert(false);
                    }
                }
                Ok(None)
            },
        }
    }

    fn save_text(&mut self, chat_id: i64, data: &str) -> (r: Result<(), StoreError>)
        ensures
            final(self).inv(),
            final(self).saves() == old(self).saves().push((chat_id, data@)),
            r is Ok ==> final(self).contents() == old(self).contents().insert(chat_id, data@),
    {
        let ghost pre = *old(self);
        let ghost logpre = self.log@;
        self.log.push((chat_id, data.to_owned()));
        proof {
            assert(self.saves() =~= pre.saves().push((chat_id, data@)));
        }
        let row = ChatChain { chat_id, chain: data.to_owned() };
        let ghost rowspre = self.rows@;
        match self.row_idx(chat_id) {
            Some(i) => {
                let _ = self.rows.remove(i);
                self.rows.insert(i, row);
                proof {
                    assert(self.rows@ =~= rowspre.update(i as int, self.rows@[i as int]));
                    assert(forall|k: int|
                        0 <= k < rowspre.len() && k != i ==> (#[trigger] self.rows@[k])
                            == rowspre[k]);
                    lemma_upsert(rowspre, self.rows@, i as int, chat_id, data@);
                }
            },
            None => {
                self.rows.push(row);
                proof {
                    assert(forall|k: int|
                        0 <= k < rowspre.len() ==> (#[trigger] self.rows@[k]) == rowspre[k]);
                    assert(self.rows@[rowspre.len() as int].chat_id == chat_id);
                    assert forall|a: int, b: int|
                        0 <= a < b < self.rows@.len() implies (#[trigger] self.rows@[a]).chat_id
                        != (#[trigger] self.rows@[b]).chat_id by {
                        if b < rowspre.len() {
                            assert(rowspre[a].chat_id != rowspre[b].chat_id);
                        } else {
                            assert(self.rows@[a] == rowspre[a]);
                        }
                    }
                    lemma_upsert_push(rowspre, self.rows@, chat_id, data@);
                }
            },
        }
        Ok(())
    }
}

proof fn lemma_upsert(pre: Seq<ChatChain>, post: Seq<ChatChain>, i: int, chat_id: i64, d: Seq<
    char,
>)
    requires
        0 <= i < pre.len(),
        post.len() == pre.len(),
        pre[i].chat_id == chat_id,
        post[i].chat_id == chat_id,
        post[i].chain@ == d,
        forall|k: int| 0 <= k < pre.len() && k != i ==> (#[trigger] post[k]) == pre[k],
        forall|a: int, b: int|
            0 <= a < b < pre.len() ==> (#[trigger] pre[a]).chat_id != (#[trigger] pre[b]).chat_id,
    ensures
        rows_map(post) == rows_map(pre).insert(chat_id, d),
        forall|a: int, b: int|
            0 <= a < b < post.len() ==> (#[trigger] post[a]).chat_id
                != (#[trigger] post[b]).chat_id,
{
    assert forall|a: int, b: int|
        0 <= a < b < post.len() implies (#[trigger] post[a]).chat_id
        != (#[trigger] post[b]).chat_id by {
        assert(pre[a].chat_id != pre[b].chat_id);
        if a != i {
            assert(post[a] == pre[a]);
        }
        if b != i {
            assert(post[b] == pre[b]);
        }
    }
    let m1 = rows_map(post);
    let m2 = rows_map(pre).insert(chat_id, d);
    assert forall|k: i64| m1.contains_key(k) <==> m2.contains_key(k) by {
        if m1.contains_key(k) {
            let c = choose|c: int| 0 <= c < post.len() && (#[trigger] post[c]).chat_id == k;
            if c != i {
                assert(pre[c].chat_id == k);
            }
        }
        if m2.contains_key(k) {
            if k == chat_id {
                assert(post[i].chat_id == k);
            } else {
                let c = choose|c: int| 0 <= c < pre.len() && (#[trigger] pre[c]).chat_id == k;
                assert(c != i);
                assert(post[c].chat_id == k);
            }
        }
    }
    assert forall|k: i64| m1.contains_key(k) implies m1[k] == m2[k] by {
        let c = choose|c: int| 0 <= c < post.len() && (#[trigger] post[c]).chat_id == k;
        if k == chat_id {
            assert(c == i);
            assert(m1[k] == d);
        } else {
            assert(c != i);
            assert(pre[c].chat_id == k);
            let c2 = choose|x: int| 0 <= x < pre.len() && (#[trigger] pre[x]).chat_id == k;
            assert(c2 == c);
            assert(m1[k] == post[c].chain@);
            assert(m2[k] == pre[c2].chain@);
        }
    }
    assert(m1 =~= m2);
}

proof fn lemma_upsert_push(pre: Seq<ChatChain>, post: Seq<ChatChain>, chat_id: i64, d: Seq<char>)
    requires
        post.len() == pre.len() + 1,
        post[pre.len() as int].chat_id == chat_id,
        post[pre.len() as int].chain@ == d,
        forall|k: int| 0 <= k < pre.len() ==> (#[trigger] post[k]) == pre[k],
        forall|i: int| 0 <= i < pre.len() ==> (#[trigger] pre[i]).chat_id != chat_id,
        forall|a: int, b: int|
            0 <= a < b < pre.len() ==> (#[trigger] pre[a]).chat_id != (#[trigger] pre[b]).chat_id,
    ensures
        rows_map(post) == rows_map(pre).insert(chat_id, d),
{
    let m1 = rows_map(post);
    let m2 = rows_map(pre).insert(chat_id, d);
    assert forall|k: i64| m1.contains_key(k) <==> m2.contains_key(k) by {
        if m1.contains_key(k) {
            let c = choose|c: int| 0 <= c < post.len() && (#[trigger] post[c]).chat_id == k;
            if c < pre.len() {
                assert(pre[c].chat_id == k);
            }
        }
        if m2.contains_key(k) {
            if k == chat_id {
                assert(post[pre.len() as int].chat_id == k);
            } else {
                let c = choose|c: int| 0 <= c < pre.len() && (#[trigger] pre[c]).chat_id == k;
                assert(post[c].chat_id == k);
            }
        }
    }
    assert forall|k: i64| m1.contains_key(k) implies m1[k] == m2[k] by {
        let c = choose|c: int| 0 <= c < post.len() && (#[trigger] post[c]).chat_id == k;
        if k == chat_id {
            assert forall|x: int| 0 <= x < post.len() && (#[trigger] post[x]).chat_id == k
                implies x == pre.len() by {
                if x < pre.len() {
                    assert(pre[x].chat_id == k);
                }
            }
            assert(c == pre.len());
            assert(m1[k] == d);
        } else {
            assert(c < pre.len());
            assert(pre[c].chat_id == k);
            let c2 = choose|x: int| 0 <= x < pre.len() && (#[trigger] pre[x]).chat_id == k;
            assert(m2[k] == pre[c2].chain@);
            assert(m1[k] == post[c].chain@);
            assert(pre.len() >= 1);
            assert(post[c] == pre[c]);
            assert(0 <= c2 < pre.len() && pre[c2].chat_id == k);
            assert(c2 == c);
        }
    }
    assert(m1 =~= m2);
}

/// A session's live entry: its write-back countdown and the shared,
/// lock-protected chain handle.
struct CounterChain {
    counter: u8,
    chain: Arc<RwLock<Chain, ChainPred>>,
}

impl CounterChain {
    fn new(counter: u8, chain: Chain) -> (r: CounterChain)
        requires
            chain.wf(),
        ensures
            r.counter == counter,
            r.chain.pred() == (ChainPred { init: chain@ }),
    {
        let ghost p = ChainPred { init: chain@ };
        proof {
            lemma_extends_refl(chain@);
        }
        CounterChain { counter, chain: Arc::new(RwLock::new(chain, Ghost(p))) }
    }
}

/// The per-process registry: chat id to live entry, plus the configured
/// flush cadence and the store behind it.
pub struct ChainCache<S: ChainStore> {
    cache: Vec<(i64, CounterChain)>,
    cycle: u8,
    store: S,
}

impl<S: ChainStore> ChainCache<S> {
    /// Registry keys are unique and the store invariant holds.
    pub closed spec fn wf(&self) -> bool {
        &&& forall|i: int, j: int|
            0 <= i < j < self.cache@.len() ==> (#[trigger] self.cache@[i]).0
                != (#[trigger] self.cache@[j]).0
        &&& self.store.inv()
    }

    pub closed spec fn cycle(&self) -> u8 {
        self.cycle
    }

    pub closed spec fn store_view(&self) -> S {
        self.store
    }

    pub closed spec fn has_session(&self, chat_id: i64) -> bool {
        exists|i: int| 0 <= i < self.cache@.len() && (#[trigger] self.cache@[i]).0 == chat_id
    }

    closed spec fn idx_of(&self, chat_id: i64) -> int {
        choose|i: int| 0 <= i < self.cache@.len() && (#[trigger] self.cache@[i]).0 == chat_id
    }

    pub closed spec fn countdown(&self, chat_id: i64) -> u8 {
        self.cache@[self.idx_of(chat_id)].1.counter
    }

    pub closed spec fn handle_of(&self, chat_id: i64) -> Arc<RwLock<Chain, ChainPred>> {
        self.cache@[self.idx_of(chat_id)].1.chain
    }

    pub fn new(settings: &Settings, store: S) -> (r: ChainCache<S>)
        requires
            store.inv(),
        ensures
            r.wf(),
            r.cycle() == settings.constants.cache_cycle,
            r.store_view() == store,
            forall|x: i64| !r.has_session(x),
    {
        ChainCache { cache: Vec::new(), cycle: settings.constants.cache_cycle, store }
    }

    /// Returns the shared handle for a session's chain.  A cached session is
    /// answered from the registry unchanged; otherwise the chain is loaded
    /// from the store, or created fresh and written back, and the new entry
    /// starts a full countdown cycle.  Corrupt stored text is an error and
    /// caches nothing.
    pub fn get_chain(&mut self, chat_id: i64) -> (r: Result<
        Arc<RwLock<Chain, ChainPred>>,
        CacheError,
    >)
        requires
            old(self).wf(),
        ensures
            final(self).wf(),
            final(self).cycle() == old(self).cycle(),
            final(self).store_view().infallible() == old(self).store_view().infallible(),
            old(self).store_view().infallible() ==> !(r matches Err(CacheError::Store(_))),
            !old(self).has_session(chat_id) && old(self).store_view().infallible() ==> (r is Ok
                <==> (old(self).store_view().contents().contains_key(chat_id) ==> exists|v: TableV|
                wf_view(v) && old(self).store_view().contents()[chat_id] == enc_table(v))),
            old(self).has_session(chat_id) ==> *final(self) == *old(self) && (r matches Ok(h)
                && h == old(self).handle_of(chat_id)),
            !old(self).has_session(chat_id) ==> match r {
                Ok(h) => {
                    &&& final(self).has_session(chat_id)
                    &&& final(self).countdown(chat_id) == old(self).cycle()
                    &&& h == final(self).handle_of(chat_id)
                    &&& wf_view(h.pred().init)
                    &&& (old(self).store_view().contents().contains_key(chat_id) ==> enc_table(
                        h.pred().init,
                    ) == old(self).store_view().contents()[chat_id])
                    &&& (!old(self).store_view().contents().contains_key(chat_id)
                        ==> h.pred().init == Chain::new_view())
                    &&& (old(self).store_view().contents().contains_key(chat_id)
                        ==> exists|v: TableV|
                        wf_view(v) && old(self).store_view().contents()[chat_id] == enc_table(v))
                    &&& forall|x: i64|
                        x != chat_id ==> (final(self).has_session(x) <==> old(self).has_session(x)) && (old(self).has_session(x)
                            ==> final(self).countdown(x) == old(self).countdown(x) && final(self).handle_of(x) == old(self).handle_of(x))
                    &&& (old(self).store_view().contents().contains_key(chat_id)
                        ==> final(self).store_view() == old(self).store_view())
                    &&& (!old(self).store_view().contents().contains_key(chat_id) ==> final(self).store_view().saves() == old(self).store_view().saves().push(
                        (chat_id, enc_table(Chain::new_view())),
                    ) && final(self).store_view().contents() == old(
                        self,
                    ).store_view().contents().insert(chat_id, enc_table(Chain::new_view())))
                },
                Err(e) => {
                    &&& forall|x: i64|
                        (final(self).has_session(x) <==> old(self).has_session(x)) && (old(self).has_session(x) ==> final(self).countdown(x) == old(self).countdown(x)
                            && final(self).handle_of(x) == old(self).handle_of(x))
                    &&& !(e is Protocol)
                    &&& (e matches CacheError::Decode(_) ==> old(self).store_view().contents().contains_key(chat_id) && !(exists|v: TableV|
                        wf_view(v) && old(self).store_view().contents()[chat_id] == enc_table(
                            v,
                        )))
                },
            },
    {
        let ghost pre = *old(self);
        let n = self.cache.len();
        let mut i: usize = 0;
        while i < n
            invariant
                i <= n,
                n == self.cache@.len(),
                *self == pre,
                pre.wf(),
                forall|k: int| 0 <= k < i ==> (#[trigger] self.cache@[k]).0 != chat_id,
            decreases n - i,
        {
            if self.cache[i].0 == chat_id {
                let h = arc_clone(&self.cache[i].1.chain);
                proof {
                    let c = self.idx_of(chat_id);
                    assert(self.cache@[i as int].0 == chat_id);
                    assert(0 <= c < self.cache@.len() && self.cache@[c].0 == chat_id);
                    assert(c == i as int);
                }
                return Ok(h);
            }
            i += 1;
        }
        assert(!pre.has_session(chat_id));
        match self.store.load_text(chat_id) {
            Err(e) => Err(CacheError::Store(e)),
            Ok(Some(data)) => match Chain::load(data.as_str()) {
                Err(_) => {
                    proof {
                        assert forall|v: TableV|
                            wf_view(v) && pre.store_view().contents()[chat_id] == enc_table(
                                v,
                            ) implies false by {
                            assert(data@ == enc_table(v));
                        }
                    }
                    Err(CacheError::Decode(DecodeError))
                },
                Ok(c) => {
                    let h = self.insert_entry(chat_id, c);
                    Ok(h)
                },
            },
            Ok(None) => {
                let c = Chain::new();
                let text = c.save();
                match self.store.save_text(chat_id, text.as_str()) {
                    Err(e) => Err(CacheError::Store(e)),
                    Ok(()) => {
                        proof {
                            assert(text@ == enc_table(Chain::new_view()));
                        }
                        let h = self.insert_entry(chat_id, c);
                        Ok(h)
                    },
                }
            },
        }
    }

    /// A view of the store behind the cache.
    pub fn store_ref(&self) -> (r: &S)
        ensures
            *r == self.store_view(),
    {
        &self.store
    }

    /// Finds a session's position in the registry.
    fn find_idx(&self, chat_id: i64) -> (r: Option<usize>)
        requires
            self.wf(),
        ensures
            match r {
                Some(i) => i < self.cache@.len() && self.cache@[i as int].0 == chat_id
                    && i as int == self.idx_of(chat_id) && self.has_session(chat_id),
                None => !self.has_session(chat_id),
            },
    {
        let n = self.cache.len();
        let mut i: usize = 0;
        while i < n
            invariant
                i <= n,
                n == self.cache@.len(),
                self.wf(),
                forall|k: int| 0 <= k < i ==> (#[trigger] self.cache@[k]).0 != chat_id,
            decreases n - i,
        {
            if self.cache[i].0 == chat_id {
                proof {
                    let c = self.idx_of(chat_id);
                    assert(0 <= c < self.cache@.len() && self.cache@[c].0 == chat_id);
                    assert(c == i as int);
                }
                return Some(i);
            }
            i += 1;
        }
        None
    }

    /// Defers or performs this session's flush.  A missing session is a
    /// protocol error.  A positive countdown is decremented and the store is
    /// left alone; a countdown at zero starts a fresh cycle and the chain's
    /// current text form is written to the store at once, a store failure
    /// being surfaced after the countdown was already reset.
    pub fn save_chain(&mut self, chat_id: i64) -> (r: Result<(), CacheError>)
        requires
            old(self).wf(),
        ensures
            final(self).wf(),
            final(self).cycle() == old(self).cycle(),
            final(self).store_view().infallible() == old(self).store_view().infallible(),
            forall|x: i64|
                (final(self).has_session(x) <==> old(self).has_session(x)) && (old(self).has_session(x) ==> final(self).handle_of(x) == old(self).handle_of(x)),
            !old(self).has_session(chat_id) ==> (r matches Err(CacheError::Protocol)) && *final(self) == *old(self),
            old(self).has_session(chat_id) && old(self).countdown(chat_id) > 0 ==> {
                &&& r is Ok
                &&& final(self).countdown(chat_id) == old(self).countdown(chat_id) - 1
                &&& forall|x: i64|
                    x != chat_id && old(self).has_session(x) ==> final(self).countdown(x) == old(self).countdown(x)
                &&& final(self).store_view() == old(self).store_view()
            },
            old(self).has_session(chat_id) && old(self).countdown(chat_id) == 0 ==> {
                &&& final(self).countdown(chat_id) == old(self).cycle()
                &&& forall|x: i64|
                    x != chat_id && old(self).has_session(x) ==> final(self).countdown(x) == old(self).countdown(x)
                &&& exists|c: Chain|
                    c.wf() && extends(c@, old(self).handle_of(chat_id).pred().init) && final(self).store_view().saves() == old(self).store_view().saves().push((chat_id, enc_table(c@))) && (r is Ok ==> final(self).store_view().contents() == old(self).store_view().contents().insert(
                        chat_id,
                        enc_table(c@),
                    ))
                &&& (r is Ok || r matches Err(CacheError::Store(_)))
                &&& (old(self).store_view().infallible() ==> r is Ok)
            },
    {
        let ghost pre = *old(self);
        match self.find_idx(chat_id) {
            None => Err(CacheError::Protocol),
            Some(i) => {
                let cyc = self.cycle;
                let ghost regpre = self.cache@;
                let (id0, cc) = self.cache.remove(i);
                if cc.counter > 0 {
                    let c2 = cc.counter - 1;
                    self.cache.insert(i, (id0, CounterChain { counter: c2, chain: cc.chain }));
                    proof {
                        assert(self.cache@ =~= regpre.update(
                            i as int,
                            (id0, self.cache@[i as int].1),
                        ));
                        self.lemma_entry_update(pre, chat_id, i as int);
                    }
                    Ok(())
                } else {
                    let arc = arc_clone(&cc.chain);
                    self.cache.insert(i, (id0, CounterChain { counter: cyc, chain: cc.chain }));
                    proof {
                        assert(self.cache@ =~= regpre.update(
                            i as int,
                            (id0, self.cache@[i as int].1),
                        ));
                        self.lemma_entry_update(pre, chat_id, i as int);
                    }
                    let read = arc.acquire_read();
                    let b = read.borrow();
                    let ghost cw = *b;
                    let text = b.save();
                    read.release_read();
                    proof {
                        assert(cw.wf());
                        assert(text@ == enc_table(cw@));
                    }
                    let sres = self.store.save_text(chat_id, text.as_str());
                    proof {
                        assert(self.cache@ =~= regpre.update(
                            i as int,
                            (id0, self.cache@[i as int].1),
                        ));
                        self.lemma_entry_update(pre, chat_id, i as int);
                    }
                    match sres {
                        Ok(()) => Ok(()),
                        Err(e) => Err(CacheError::Store(e)),
                    }
                }
            },
        }
    }

    /// After replacing the entry at a session's own position, every other
    /// session is untouched.
    proof fn lemma_entry_update(&self, pre: ChainCache<S>, chat_id: i64, i: int)
        requires
            pre.wf(),
            0 <= i < pre.cache@.len(),
            pre.cache@[i].0 == chat_id,
            i == pre.idx_of(chat_id),
            self.cache@ == pre.cache@.update(i, (chat_id, self.cache@[i].1)),
            self.cycle == pre.cycle,
            self.store.inv(),
        ensures
            self.wf(),
            self.has_session(chat_id),
            self.idx_of(chat_id) == i,
            self.countdown(chat_id) == self.cache@[i].1.counter,
            self.handle_of(chat_id) == self.cache@[i].1.chain,
            forall|x: i64|
                (self.has_session(x) <==> pre.has_session(x)) && (x != chat_id
                    && pre.has_session(x) ==> self.countdown(x) == pre.countdown(x)
                    && self.handle_of(x) == pre.handle_of(x)),
    {
        assert(self.cache@.len() == pre.cache@.len());
        assert(forall|k: int|
            0 <= k < pre.cache@.len() && k != i ==> (#[trigger] self.cache@[k]) == pre.cache@[k]);
        assert(self.cache@[i].0 == chat_id);
        assert forall|a: int, b: int|
            0 <= a < b < self.cache@.len() implies (#[trigger] self.cache@[a]).0
            != (#[trigger] self.cache@[b]).0 by {
            assert(pre.cache@[a].0 == self.cache@[a].0);
            assert(pre.cache@[b].0 == self.cache@[b].0);
        }
        assert(self.has_session(chat_id)) by {
            assert(self.cache@[i].0 == chat_id);
        }
        let ci = self.idx_of(chat_id);
        assert(0 <= ci < self.cache@.len() && self.cache@[ci].0 == chat_id);
        assert(ci == i);
        assert forall|x: i64|
            (self.has_session(x) <==> pre.has_session(x)) && (x != chat_id && pre.has_session(x)
                ==> self.countdown(x) == pre.countdown(x) && self.handle_of(x) == pre.handle_of(x)) by {
            if self.has_session(x) {
                let k = choose|k: int|
                    0 <= k < self.cache@.len() && (#[trigger] self.cache@[k]).0 == x;
                assert(pre.cache@[k].0 == x);
            }
            if pre.has_session(x) {
                let k = choose|k: int|
                    0 <= k < pre.cache@.len() && (#[trigger] pre.cache@[k]).0 == x;
                assert(self.cache@[k].0 == x);
                if x != chat_id {
                    let c1 = self.idx_of(x);
                    let c2 = pre.idx_of(x);
                    assert(0 <= c1 < self.cache@.len() && self.cache@[c1].0 == x);
                    assert(0 <= c2 < pre.cache@.len() && pre.cache@[c2].0 == x);
                    assert(c1 != i);
                    assert(c1 == c2);
                }
            }
        }
    }

    /// Inserts a fresh entry with a full countdown and hands back its
    /// shared handle.
    fn insert_entry(&mut self, chat_id: i64, c: Chain) -> (h: Arc<RwLock<Chain, ChainPred>>)
        requires
            old(self).wf(),
            !old(self).has_session(chat_id),
            c.wf(),
        ensures
            final(self).wf(),
            final(self).cycle() == old(self).cycle(),
            final(self).store_view() == old(self).store_view(),
            final(self).has_session(chat_id),
            final(self).countdown(chat_id) == old(self).cycle(),
            h == final(self).handle_of(chat_id),
            h.pred() == (ChainPred { init: c@ }),
            forall|x: i64|
                x != chat_id ==> (final(self).has_session(x) <==> old(self).has_session(x)) && (
                old(self).has_session(x) ==> final(self).countdown(x) == old(self).countdown(x)
                    && final(self).handle_of(x) == old(self).handle_of(x)),
    {
        let ghost pre = *old(self);
        let cc = CounterChain::new(self.cycle, c);
        let h = arc_clone(&cc.chain);
        self.cache.push((chat_id, cc));
        proof {
            assert(self.cache@[self.cache@.len() - 1].0 == chat_id);
            let ci = self.idx_of(chat_id);
            assert(0 <= ci < self.cache@.len() && self.cache@[ci].0 == chat_id);
            assert(forall|k: int|
                0 <= k < pre.cache@.len() ==> (#[trigger] self.cache@[k]) == pre.cache@[k]);
            assert forall|k: int|
                0 <= k < pre.cache@.len() implies (#[trigger] self.cache@[k]).0 != chat_id by {
                if self.cache@[k].0 == chat_id {
                    assert(pre.cache@[k].0 == chat_id);
                    assert(pre.has_session(chat_id));
                }
            }
            assert(ci == self.cache@.len() - 1);
            assert forall|x: i64|
                x != chat_id implies (self.has_session(x) <==> pre.has_session(x)) && (
            pre.has_session(x) ==> self.countdown(x) == pre.countdown(x) && self.handle_of(x)
                == pre.handle_of(x)) by {
                if self.has_session(x) {
                    let k = choose|k: int|
                        0 <= k < self.cache@.len() && (#[trigger] self.cache@[k]).0 == x;
                    assert(k < pre.cache@.len());
                    assert(pre.cache@[k].0 == x);
                }
                if pre.has_session(x) {
                    let k = choose|k: int|
                        0 <= k < pre.cache@.len() && (#[trigger] pre.cache@[k]).0 == x;
                    assert(self.cache@[k].0 == x);
                    let c1 = self.idx_of(x);
                    let c2 = pre.idx_of(x);
                    assert(0 <= c1 < self.cache@.len() && self.cache@[c1].0 == x);
                    assert(0 <= c2 < pre.cache@.len() && pre.cache@[c2].0 == x);
                    assert(c1 < pre.cache@.len());
                    assert(c1 == c2);
                }
            }
        }
        h
    }
}


} // verus!
