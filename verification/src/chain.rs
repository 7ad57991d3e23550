//! The weighted-transition table and the chain model built on it: `feed`
//! records token transitions, `generate*` walks them by weighted random
//! choice.

use vstd::prelude::*;

use crate::tok_view;
use crate::tok_eq;
use crate::tok_clone;
use crate::chars_to_string;
use rand::Rng;
use vstd::string::StrSliceExecFns;
use vstd::string::StringExecFns;

verus! {

#[verifier::external_type_specification]
#[verifier::external_body]
pub struct ExThreadRng(rand::rngs::ThreadRng);

/// Relies on `rand::thread_rng`: a handle to the thread-local generator.
#[verifier::external_body]
fn new_rng() -> rand::rngs::ThreadRng {
    rand::thread_rng()
}

/// Relies on `Rng::gen_range` over `0..n`: one uniform draw below `n`; the
/// range is non-empty, so the draw cannot panic.  Nothing more is promised
/// of a random draw.
#[verifier::external_body]
fn rng_below(rng: &mut rand::rngs::ThreadRng, n: u64) -> (r: u64)
    requires
        n >= 1,
    ensures
        r < n,
{
    rng.gen_range(0..n)
}

/// A distribution: next-token slots with positive counts, keys unique.
pub type DistV = Seq<(Option<Seq<char>>, u64)>;

/// The transition table: state slots mapped to distributions, keys unique.
pub type TableV = Seq<(Option<Seq<char>>, DistV)>;

pub open spec fn dist_view(d: Vec<(Option<String>, u64)>) -> DistV {
    d@.map_values(|p: (Option<String>, u64)| (tok_view(&p.0), p.1))
}

pub open spec fn table_view(t: Vec<(Option<String>, Vec<(Option<String>, u64)>)>) -> TableV {
    t@.map_values(|e: (Option<String>, Vec<(Option<String>, u64)>)| (tok_view(&e.0), dist_view(e.1)))
}

/// A count grows by one per observation and pins at the machine maximum.
pub open spec fn sat_inc(c: u64) -> u64 {
    if c == u64::MAX {
        c
    } else {
        (c + 1) as u64
    }
}

/// Recording one observation of `t` in a distribution: the first entry for
/// `t` is incremented, or a fresh entry with count 1 is appended.
pub open spec fn dist_bump(d: DistV, t: Option<Seq<char>>) -> DistV
    decreases d.len(),
{
    if d.len() == 0 {
        seq![(t, 1u64)]
    } else if d[0].0 == t {
        seq![(d[0].0, sat_inc(d[0].1))] + d.drop_first()
    } else {
        seq![d[0]] + dist_bump(d.drop_first(), t)
    }
}

/// Recording one transition `s -> t` in the table.
pub open spec fn table_bump(v: TableV, s: Option<Seq<char>>, t: Option<Seq<char>>) -> TableV
    decreases v.len(),
{
    if v.len() == 0 {
        seq![(s, seq![(t, 1u64)])]
    } else if v[0].0 == s {
        seq![(v[0].0, dist_bump(v[0].1, t))] + v.drop_first()
    } else {
        seq![v[0]] + table_bump(v.drop_first(), s, t)
    }
}

pub open spec fn dist_has(d: DistV, t: Option<Seq<char>>) -> bool {
    exists|i: int| 0 <= i < d.len() && (#[trigger] d[i]).0 == t
}

pub open spec fn has_state(v: TableV, s: Option<Seq<char>>) -> bool {
    exists|i: int| 0 <= i < v.len() && (#[trigger] v[i]).0 == s
}

/// The distribution stored for state `s`, meaningful when `has_state(v, s)`.
pub open spec fn dist_of(v: TableV, s: Option<Seq<char>>) -> DistV {
    v[choose|i: int| 0 <= i < v.len() && (#[trigger] v[i]).0 == s].1
}

/// The count stored for `t` in a distribution, zero where absent.
pub open spec fn dist_count(d: DistV, t: Option<Seq<char>>) -> u64 {
    if dist_has(d, t) {
        d[choose|j: int| 0 <= j < d.len() && (#[trigger] d[j]).0 == t].1
    } else {
        0
    }
}

/// The count recorded for the transition `s -> t`, zero where absent.
pub open spec fn count_of(v: TableV, s: Option<Seq<char>>, t: Option<Seq<char>>) -> u64 {
    if has_state(v, s) {
        dist_count(dist_of(v, s), t)
    } else {
        0
    }
}

pub open spec fn dist_keys_unique(d: DistV) -> bool {
    forall|i: int, j: int| 0 <= i < j < d.len() ==> (#[trigger] d[i]).0 != (#[trigger] d[j]).0
}

pub open spec fn keys_unique(v: TableV) -> bool {
    forall|i: int, j: int| 0 <= i < j < v.len() ==> (#[trigger] v[i]).0 != (#[trigger] v[j]).0
}

pub open spec fn dist_wf(d: DistV) -> bool {
    dist_keys_unique(d) && forall|i: int| 0 <= i < d.len() ==> (#[trigger] d[i]).1 >= 1
}

/// `t` occurs as the right-hand side of some recorded transition.
pub open spec fn appears_rhs(v: TableV, t: Option<Seq<char>>) -> bool {
    exists|i: int, j: int|
        0 <= i < v.len() && 0 <= j < v[i].1.len() && (#[trigger] v[i].1[j]).0 == t
}

/// Every recorded next-token is the end sentinel, a state of the table, or
/// the named pending token (used mid-feed, where the right-hand side of the
/// window just recorded becomes a state when the next window is recorded).
pub open spec fn closed_except(v: TableV, pend: Option<Seq<char>>) -> bool {
    forall|i: int, j: int|
        0 <= i < v.len() && 0 <= j < v[i].1.len() ==> ((#[trigger] v[i].1[j]).0 is None
            || has_state(v, v[i].1[j].0) || v[i].1[j].0 == pend)
}

/// Every recorded next-token is the end sentinel or a state of the table.
pub open spec fn table_closed(v: TableV) -> bool {
    closed_except(v, None)
}

/// Well-formedness of a transition table: unique keys inside and out, the
/// start state present, all counts positive, every non-start state's
/// distribution populated, and the table closed under its own transitions.
pub open spec fn wf_view(v: TableV) -> bool {
    &&& keys_unique(v)
    &&& has_state(v, None)
    &&& forall|i: int| 0 <= i < v.len() ==> dist_wf((#[trigger] v[i]).1)
    &&& forall|i: int| 0 <= i < v.len() && (#[trigger] v[i]).0 is Some ==> v[i].1.len() >= 1
    &&& table_closed(v)
}

/// A table reachable from `Chain::new` by `feed` alone: well-formed, and
/// every non-start state was itself observed as a next-token.
pub open spec fn fed_view(v: TableV) -> bool {
    &&& wf_view(v)
    &&& forall|i: int|
        0 <= i < v.len() && (#[trigger] v[i]).0 is Some ==> appears_rhs(v, v[i].0)
}

proof fn lemma_dist_bump_found(d: DistV, t: Option<Seq<char>>, i: int)
    requires
        0 <= i < d.len(),
        d[i].0 == t,
        forall|k: int| 0 <= k < i ==> (#[trigger] d[k]).0 != t,
    ensures
        dist_bump(d, t) == d.update(i, (t, sat_inc(d[i].1))),
    decreases i,
{
    if i == 0 {
        assert(dist_bump(d, t) =~= d.update(0, (t, sat_inc(d[0].1))));
    } else {
        lemma_dist_bump_found(d.drop_first(), t, i - 1);
        assert(dist_bump(d, t) =~= d.update(i, (t, sat_inc(d[i].1))));
    }
}

proof fn lemma_dist_bump_miss(d: DistV, t: Option<Seq<char>>)
    requires
        forall|k: int| 0 <= k < d.len() ==> (#[trigger] d[k]).0 != t,
    ensures
        dist_bump(d, t) == d.push((t, 1u64)),
    decreases d.len(),
{
    if d.len() == 0 {
        assert(dist_bump(d, t) =~= d.push((t, 1u64)));
    } else {
        lemma_dist_bump_miss(d.drop_first(), t);
        assert(dist_bump(d, t) =~= d.push((t, 1u64)));
    }
}

proof fn lemma_table_bump_found(v: TableV, s: Option<Seq<char>>, t: Option<Seq<char>>, i: int)
    requires
        0 <= i < v.len(),
        v[i].0 == s,
        forall|k: int| 0 <= k < i ==> (#[trigger] v[k]).0 != s,
    ensures
        table_bump(v, s, t) == v.update(i, (s, dist_bump(v[i].1, t))),
    decreases i,
{
    if i == 0 {
        assert(table_bump(v, s, t) =~= v.update(0, (s, dist_bump(v[0].1, t))));
    } else {
        lemma_table_bump_found(v.drop_first(), s, t, i - 1);
        assert(table_bump(v, s, t) =~= v.update(i, (s, dist_bump(v[i].1, t))));
    }
}

proof fn lemma_table_bump_miss(v: TableV, s: Option<Seq<char>>, t: Option<Seq<char>>)
    requires
        forall|k: int| 0 <= k < v.len() ==> (#[trigger] v[k]).0 != s,
    ensures
        table_bump(v, s, t) == v.push((s, seq![(t, 1u64)])),
    decreases v.len(),
{
    if v.len() == 0 {
        assert(table_bump(v, s, t) =~= v.push((s, seq![(t, 1u64)])));
    } else {
        lemma_table_bump_miss(v.drop_first(), s, t);
        assert(table_bump(v, s, t) =~= v.push((s, seq![(t, 1u64)])));
    }
}

fn sat_inc_exec(c: u64) -> (r: u64)
    ensures
        r == sat_inc(c),
{
    if c == u64::MAX {
        c
    } else {
        c + 1
    }
}

/// Records one observation of `t` in the distribution `d`.
fn dist_add(d: &mut Vec<(Option<String>, u64)>, t: Option<String>)
    ensures
        dist_view(*final(d)) == dist_bump(dist_view(*old(d)), tok_view(&t)),
{
    let ghost dv = dist_view(*old(d));
    let ghost tv = tok_view(&t);
    let mut i: usize = 0;
    while i < d.len()
        invariant
            i <= d.len(),
            dv == dist_view(*d),
            dv == dist_view(*old(d)),
            tv == tok_view(&t),
            forall|k: int| 0 <= k < i ==> (#[trigger] dv[k]).0 != tv,
        decreases d.len() - i,
    {
        assert(dv[i as int] == (tok_view(&d@[i as int].0), d@[i as int].1));
        if tok_eq(&d[i].0, &t) {
            let ghost dseq = d@;
            let (k, c) = d.remove(i);
            let c2 = sat_inc_exec(c);
            d.insert(i, (k, c2));
            proof {
                lemma_dist_bump_found(dv, tv, i as int);
                assert(d@ =~= dseq.update(i as int, (k, c2)));
                assert(dist_view(*d) =~= dv.update(i as int, (tv, sat_inc(dv[i as int].1))));
            }
            return;
        }
        i += 1;
    }
    d.push((t, 1u64));
    proof {
        lemma_dist_bump_miss(dv, tv);
        assert(dist_view(*d) =~= dv.push((tv, 1u64)));
    }
}

proof fn lemma_dist_bump_props(d: DistV, t: Option<Seq<char>>)
    requires
        dist_wf(d),
    ensures
        dist_wf(dist_bump(d, t)),
        dist_bump(d, t).len() >= 1,
        forall|x: Option<Seq<char>>| #![trigger dist_has(dist_bump(d, t), x)]
            dist_has(dist_bump(d, t), x) <==> (dist_has(d, x) || x == t),
{
    if dist_has(d, t) {
        let i = choose|i: int| 0 <= i < d.len() && (#[trigger] d[i]).0 == t;
        assert(forall|k: int| 0 <= k < i ==> (#[trigger] d[k]).0 != t);
        lemma_dist_bump_found(d, t, i);
        let b = d.update(i, (t, sat_inc(d[i].1)));
        assert forall|x: Option<Seq<char>>|
            dist_has(b, x) <==> (dist_has(d, x) || x == t) by {
            if dist_has(b, x) {
                let j = choose|j: int| 0 <= j < b.len() && (#[trigger] b[j]).0 == x;
                if j == i {
                } else {
                    assert(d[j].0 == x);
                }
            }
            if dist_has(d, x) {
                let j = choose|j: int| 0 <= j < d.len() && (#[trigger] d[j]).0 == x;
                assert(b[j].0 == x);
            }
            if x == t {
                assert(b[i].0 == x);
            }
        }
    } else {
        assert(forall|k: int| 0 <= k < d.len() ==> (#[trigger] d[k]).0 != t);
        lemma_dist_bump_miss(d, t);
        let b = d.push((t, 1u64));
        assert forall|x: Option<Seq<char>>|
            dist_has(b, x) <==> (dist_has(d, x) || x == t) by {
            if dist_has(b, x) {
                let j = choose|j: int| 0 <= j < b.len() && (#[trigger] b[j]).0 == x;
                if j < d.len() {
                    assert(d[j].0 == x);
                }
            }
            if dist_has(d, x) {
                let j = choose|j: int| 0 <= j < d.len() && (#[trigger] d[j]).0 == x;
                assert(b[j].0 == x);
            }
            if x == t {
                assert(b[d.len() as int].0 == x);
            }
        }
    }
}

proof fn lemma_table_bump_props(v: TableV, s: Option<Seq<char>>, t: Option<Seq<char>>)
    requires
        keys_unique(v),
        forall|i: int| 0 <= i < v.len() ==> dist_wf((#[trigger] v[i]).1),
        forall|i: int| 0 <= i < v.len() && (#[trigger] v[i]).0 is Some ==> v[i].1.len() >= 1,
    ensures
        keys_unique(table_bump(v, s, t)),
        forall|i: int|
            0 <= i < table_bump(v, s, t).len() ==> dist_wf((#[trigger] table_bump(v, s, t)[i]).1),
        forall|i: int|
            0 <= i < table_bump(v, s, t).len() && (#[trigger] table_bump(v, s, t)[i]).0 is Some
                ==> table_bump(v, s, t)[i].1.len() >= 1,
        forall|x: Option<Seq<char>>| #![trigger has_state(table_bump(v, s, t), x)]
            has_state(table_bump(v, s, t), x) <==> (has_state(v, x) || x == s),
        forall|x: Option<Seq<char>>| #![trigger appears_rhs(table_bump(v, s, t), x)]
            appears_rhs(table_bump(v, s, t), x) <==> (appears_rhs(v, x) || x == t),
{
    let b = table_bump(v, s, t);
    if has_state(v, s) {
        let i = choose|i: int| 0 <= i < v.len() && (#[trigger] v[i]).0 == s;
        assert(forall|k: int| 0 <= k < i ==> (#[trigger] v[k]).0 != s);
        lemma_table_bump_found(v, s, t, i);
        lemma_dist_bump_props(v[i].1, t);
        assert forall|x: Option<Seq<char>>|
            has_state(b, x) <==> (has_state(v, x) || x == s) by {
            if has_state(b, x) {
                let j = choose|j: int| 0 <= j < b.len() && (#[trigger] b[j]).0 == x;
                if j != i {
                    assert(v[j].0 == x);
                }
            }
            if has_state(v, x) {
                let j = choose|j: int| 0 <= j < v.len() && (#[trigger] v[j]).0 == x;
                assert(b[j].0 == x);
            }
            if x == s {
                assert(b[i].0 == x);
            }
        }
        assert forall|x: Option<Seq<char>>|
            appears_rhs(b, x) <==> (appears_rhs(v, x) || x == t) by {
            if appears_rhs(b, x) {
                let (j, k) = choose|j: int, k: int|
                    0 <= j < b.len() && 0 <= k < b[j].1.len() && (#[trigger] b[j].1[k]).0 == x;
                if j == i {
                    assert(dist_has(b[i].1, x));
                    if dist_has(v[i].1, x) {
                        let m = choose|m: int|
                            0 <= m < v[i].1.len() && (#[trigger] v[i].1[m]).0 == x;
                        assert(v[i].1[m].0 == x);
                    }
                } else {
                    assert(v[j].1[k].0 == x);
                }
            }
            if appears_rhs(v, x) {
                let (j, k) = choose|j: int, k: int|
                    0 <= j < v.len() && 0 <= k < v[j].1.len() && (#[trigger] v[j].1[k]).0 == x;
                if j == i {
                    assert(dist_has(v[i].1, x));
                    assert(b[i].1 == dist_bump(v[i].1, t));
                    assert(dist_has(dist_bump(v[i].1, t), x));
                    let m = choose|m: int| 0 <= m < b[i].1.len() && (#[trigger] b[i].1[m]).0 == x;
                    assert(b[i].1[m].0 == x);
                } else {
                    assert(b[j].1[k].0 == x);
                }
            }
            if x == t {
                assert(b[i].1 == dist_bump(v[i].1, t));
                assert(dist_has(dist_bump(v[i].1, t), x));
                let m = choose|m: int| 0 <= m < b[i].1.len() && (#[trigger] b[i].1[m]).0 == x;
                assert(b[i].1[m].0 == x);
            }
        }
    } else {
        assert(forall|k: int| 0 <= k < v.len() ==> (#[trigger] v[k]).0 != s);
        lemma_table_bump_miss(v, s, t);
        assert(b[v.len() as int].1 == seq![(t, 1u64)]);
        assert forall|x: Option<Seq<char>>|
            has_state(b, x) <==> (has_state(v, x) || x == s) by {
            if has_state(b, x) {
                let j = choose|j: int| 0 <= j < b.len() && (#[trigger] b[j]).0 == x;
                if j < v.len() {
                    assert(v[j].0 == x);
                }
            }
            if has_state(v, x) {
                let j = choose|j: int| 0 <= j < v.len() && (#[trigger] v[j]).0 == x;
                assert(b[j].0 == x);
            }
            if x == s {
                assert(b[v.len() as int].0 == x);
            }
        }
        assert forall|x: Option<Seq<char>>|
            appears_rhs(b, x) <==> (appears_rhs(v, x) || x == t) by {
            if appears_rhs(b, x) {
                let (j, k) = choose|j: int, k: int|
                    0 <= j < b.len() && 0 <= k < b[j].1.len() && (#[trigger] b[j].1[k]).0 == x;
                if j < v.len() {
                    assert(v[j].1[k].0 == x);
                } else {
                    assert(b[j].1[k] == (t, 1u64));
                }
            }
            if appears_rhs(v, x) {
                let (j, k) = choose|j: int, k: int|
                    0 <= j < v.len() && 0 <= k < v[j].1.len() && (#[trigger] v[j].1[k]).0 == x;
                assert(b[j].1[k].0 == x);
            }
            if x == t {
                assert(b[v.len() as int].1[0].0 == x);
            }
        }
    }
}

proof fn lemma_closed_step(v: TableV, s: Option<Seq<char>>, t: Option<Seq<char>>)
    requires
        keys_unique(v),
        forall|i: int| 0 <= i < v.len() ==> dist_wf((#[trigger] v[i]).1),
        forall|i: int| 0 <= i < v.len() && (#[trigger] v[i]).0 is Some ==> v[i].1.len() >= 1,
        closed_except(v, s),
    ensures
        closed_except(table_bump(v, s, t), t),
{
    lemma_table_bump_props(v, s, t);
    let b = table_bump(v, s, t);
    assert forall|i: int, j: int|
        0 <= i < b.len() && 0 <= j < b[i].1.len() implies ((#[trigger] b[i].1[j]).0 is None
        || has_state(b, b[i].1[j].0) || b[i].1[j].0 == t) by {
        let x = b[i].1[j].0;
        assert(appears_rhs(b, x));
        if x != t {
            assert(appears_rhs(v, x));
            let (m, n) = choose|m: int, n: int|
                0 <= m < v.len() && 0 <= n < v[m].1.len() && (#[trigger] v[m].1[n]).0 == x;
            if x is Some {
                if v[m].1[n].0 == s {
                    assert(has_state(b, x));
                } else {
                    assert(has_state(v, x));
                    assert(has_state(b, x));
                }
            }
        }
    }
}

proof fn lemma_orphan_step(v: TableV, s: Option<Seq<char>>, t: Option<Seq<char>>)
    requires
        keys_unique(v),
        forall|i: int| 0 <= i < v.len() ==> dist_wf((#[trigger] v[i]).1),
        forall|i: int| 0 <= i < v.len() && (#[trigger] v[i]).0 is Some ==> v[i].1.len() >= 1,
        s is None || appears_rhs(v, s),
        forall|i: int|
            0 <= i < v.len() && (#[trigger] v[i]).0 is Some ==> appears_rhs(v, v[i].0),
    ensures
        forall|i: int|
            0 <= i < table_bump(v, s, t).len() && (#[trigger] table_bump(v, s, t)[i]).0 is Some
                ==> appears_rhs(table_bump(v, s, t), table_bump(v, s, t)[i].0),
{
    lemma_table_bump_props(v, s, t);
    let b = table_bump(v, s, t);
    assert forall|i: int|
        0 <= i < b.len() && (#[trigger] b[i]).0 is Some implies appears_rhs(b, b[i].0) by {
        let x = b[i].0;
        assert(has_state(b, x));
        if has_state(v, x) {
            let j = choose|j: int| 0 <= j < v.len() && (#[trigger] v[j]).0 == x;
            assert(appears_rhs(v, x));
            assert(appears_rhs(b, x));
        } else {
            assert(x == s);
            assert(appears_rhs(v, s));
            assert(appears_rhs(b, x));
        }
    }
}

/// Splitting a character sequence on single spaces: an empty text yields
/// one empty token, and every space starts a new token.
pub open spec fn split_sp(s: Seq<char>) -> Seq<Seq<char>>
    decreases s.len(),
{
    if s.len() == 0 {
        seq![Seq::<char>::empty()]
    } else if s[0] == ' ' {
        seq![Seq::<char>::empty()] + split_sp(s.drop_first())
    } else {
        let rest = split_sp(s.drop_first());
        seq![seq![s[0]] + rest[0]] + rest.drop_first()
    }
}

proof fn lemma_split_sp_len(s: Seq<char>)
    ensures
        1 <= split_sp(s).len() <= s.len() + 1,
    decreases s.len(),
{
    if s.len() > 0 {
        lemma_split_sp_len(s.drop_first());
    }
}

/// Splits a text on single spaces; the seam with `feed`'s tokenization.
pub fn split_spaces(s: &str) -> (r: Vec<String>)
    ensures
        r@.map_values(|t: String| t@) == split_sp(s@),
        r@.len() <= s@.len() + 1,
{
    let n = s.unicode_len();
    let mut out: Vec<String> = Vec::new();
    let mut cur: Vec<char> = Vec::new();
    let mut i: usize = 0;
    proof {
        lemma_split_sp_len(s@);
        assert(s@.skip(0) =~= s@);
        assert(out@.map_values(|t: String| t@) =~= Seq::<Seq<char>>::empty());
        assert(cur@ + split_sp(s@.skip(0))[0] =~= split_sp(s@)[0]);
        assert(split_sp(s@) =~= out@.map_values(|t: String| t@) + seq![cur@ + split_sp(
            s@.skip(0),
        )[0]] + split_sp(s@.skip(0)).drop_first());
    }
    while i < n
        invariant
            i <= n,
            n == s@.len(),
            out@.len() <= i,
            split_sp(s@) == out@.map_values(|t: String| t@) + seq![cur@ + split_sp(
                s@.skip(i as int),
            )[0]] + split_sp(s@.skip(i as int)).drop_first(),
        decreases n - i,
    {
        let ghost pre_rest = split_sp(s@.skip(i as int));
        proof {
            lemma_split_sp_len(s@.skip(i as int));
            lemma_split_sp_len(s@.skip(i + 1 as int));
            assert(s@.skip(i as int).drop_first() =~= s@.skip(i + 1 as int));
            assert(s@.skip(i as int)[0] == s@[i as int]);
        }
        let c = s.get_char(i);
        if c == ' ' {
            let ghost curv = cur@;
            let ghost outv = out@.map_values(|t: String| t@);
            out.push(chars_to_string(cur));
            cur = Vec::new();
            proof {
                let rest2 = split_sp(s@.skip(i + 1 as int));
                assert(pre_rest == seq![Seq::<char>::empty()] + rest2);
                assert(curv + pre_rest[0] =~= curv);
                assert(pre_rest.drop_first() =~= rest2);
                assert(cur@ + rest2[0] =~= rest2[0]);
                assert(rest2 =~= seq![rest2[0]] + rest2.drop_first());
                assert(out@.map_values(|t: String| t@) =~= outv.push(curv));
                assert(split_sp(s@) =~= out@.map_values(|t: String| t@) + seq![cur@ + rest2[0]]
                    + rest2.drop_first());
            }
        } else {
            let ghost curv0 = cur@;
            cur.push(c);
            proof {
                let rest2 = split_sp(s@.skip(i + 1 as int));
                assert(pre_rest == seq![seq![s@[i as int]] + rest2[0]] + rest2.drop_first());
                assert(cur@ =~= curv0.push(s@[i as int]));
                assert(cur@ + rest2[0] =~= curv0 + pre_rest[0]);
                assert(pre_rest.drop_first() =~= rest2.drop_first());
                assert(split_sp(s@) =~= out@.map_values(|t: String| t@) + seq![cur@ + rest2[0]]
                    + rest2.drop_first());
            }
        }
        i += 1;
    }
    proof {
        assert(s@.skip(n as int) =~= Seq::<char>::empty());
        assert(split_sp(s@.skip(n as int)) == seq![Seq::<char>::empty()]);
        assert(cur@ + split_sp(s@.skip(n as int))[0] =~= cur@);
    }
    let ghost curv = cur@;
    out.push(chars_to_string(cur));
    proof {
        assert(out@.map_values(|t: String| t@) =~= out@.drop_last().map_values(
            |t: String| t@,
        ).push(curv));
        assert(out@.map_values(|t: String| t@) =~= split_sp(s@));
    }
    out
}

/// Joining tokens with single spaces, the inverse presentation of
/// `split_sp` for generated text.
pub open spec fn join_sp(ts: Seq<Seq<char>>) -> Seq<char>
    decreases ts.len(),
{
    if ts.len() == 0 {
        Seq::empty()
    } else if ts.len() == 1 {
        ts[0]
    } else {
        ts[0] + seq![' '] + join_sp(ts.drop_first())
    }
}

proof fn lemma_join_push(ts: Seq<Seq<char>>, x: Seq<char>)
    ensures
        ts.len() == 0 ==> join_sp(ts.push(x)) == x,
        ts.len() >= 1 ==> join_sp(ts.push(x)) == join_sp(ts) + seq![' '] + x,
    decreases ts.len(),
{
    if ts.len() == 0 {
        assert(ts.push(x)[0] =~= x);
        assert(join_sp(ts.push(x)) == x);
    } else {
        lemma_join_push(ts.drop_first(), x);
        assert(ts.push(x).drop_first() =~= ts.drop_first().push(x));
        if ts.len() == 1 {
            assert(ts.drop_first().len() == 0);
            assert(join_sp(ts.push(x)) =~= ts[0] + seq![' '] + x);
            assert(join_sp(ts) == ts[0]);
        } else {
            assert(join_sp(ts.push(x)) =~= ts[0] + seq![' '] + join_sp(ts.drop_first()) + seq![' ']
                + x);
            assert(join_sp(ts) + seq![' '] + x =~= ts[0] + seq![' '] + join_sp(ts.drop_first())
                + seq![' '] + x);
        }
    }
}

/// Joins tokens with single spaces; the seam with the generators' text form.
pub fn join_tokens(ts: &Vec<String>) -> (r: String)
    ensures
        r@ == join_sp(ts@.map_values(|t: String| t@)),
{
    let ghost tsv = ts@.map_values(|t: String| t@);
    let mut out = String::new();
    let mut i: usize = 0;
    while i < ts.len()
        invariant
            i <= ts.len(),
            tsv == ts@.map_values(|t: String| t@),
            out@ == join_sp(tsv.take(i as int)),
        decreases ts.len() - i,
    {
        proof {
            assert(tsv.take(i + 1 as int) =~= tsv.take(i as int).push(tsv[i as int]));
            lemma_join_push(tsv.take(i as int), tsv[i as int]);
        }
        if i > 0 {
            out.append(" ");
            proof {
                reveal_strlit(" ");
            }
        }
        out.append(ts[i].as_str());
        i += 1;
    }
    proof {
        assert(tsv.take(ts@.len() as int) =~= tsv);
    }
    out
}

/// Addition that pins at the machine maximum instead of overflowing.
pub open spec fn sat_add(a: u64, b: u64) -> u64 {
    if a + b > u64::MAX {
        u64::MAX
    } else {
        (a + b) as u64
    }
}

/// The saturating total weight of the first `i` entries of a distribution.
pub open spec fn total_to(d: DistV, i: int) -> u64
    decreases i,
{
    if i <= 0 {
        0
    } else {
        sat_add(total_to(d, i - 1), d[i - 1].1)
    }
}

proof fn lemma_total_mono(d: DistV, i: int, j: int)
    requires
        0 <= i <= j,
    ensures
        total_to(d, i) <= total_to(d, j),
    decreases j - i,
{
    if i < j {
        lemma_total_mono(d, i, j - 1);
    }
}

fn sat_add_exec(a: u64, b: u64) -> (r: u64)
    ensures
        r == sat_add(a, b),
{
    if a > u64::MAX - b {
        u64::MAX
    } else {
        a + b
    }
}

/// The walk's step bound: far beyond any reachable walk length, it keeps
/// every run finite; a walk shorter than it can only have ended by drawing
/// the end sentinel.
pub const WALK_CAP: u64 = u64::MAX;

/// The total weight of a distribution, pinned at the machine maximum.
pub open spec fn dist_total(d: DistV) -> u64 {
    total_to(d, d.len() as int)
}

/// The selection rule: a draw selects the first entry whose cumulative
/// count exceeds it, so each entry is selected with probability
/// proportional to its count.
pub open spec fn picked(d: DistV, cap: u64) -> Option<Seq<char>>
    decreases d.len(),
{
    if d.len() == 0 {
        None
    } else if cap < d[0].1 {
        d[0].0
    } else {
        picked(d.drop_first(), (cap - d[0].1) as u64)
    }
}

/// While the exact cumulative weight of the first `i` entries stays at or
/// below the draw, selection proceeds in the remaining entries with the
/// weight already passed subtracted from the draw.
proof fn lemma_picked_skip(d: DistV, cap: u64, i: int)
    requires
        0 <= i <= d.len(),
        total_to(d, i) <= cap,
        cap < u64::MAX,
    ensures
        picked(d, cap) == picked(d.skip(i), (cap - total_to(d, i)) as u64),
    decreases i,
{
    if i > 0 {
        lemma_total_mono(d, i - 1, i);
        lemma_picked_skip(d, cap, i - 1);
        assert(total_to(d, i) == sat_add(total_to(d, i - 1), d[i - 1].1));
        assert(total_to(d, i) == total_to(d, i - 1) + d[i - 1].1) by {
            if total_to(d, i - 1) + d[i - 1].1 > u64::MAX {
                assert(total_to(d, i) == u64::MAX);
                assert(false);
            }
        }
        let c1 = (cap - total_to(d, i - 1)) as u64;
        assert(d.skip(i - 1)[0] == d[i - 1]);
        assert(c1 >= d[i - 1].1);
        assert(d.skip(i - 1).drop_first() =~= d.skip(i));
        assert(picked(d.skip(i - 1), c1) == picked(d.skip(i), (c1 - d[i - 1].1) as u64));
        assert((c1 - d[i - 1].1) as u64 == (cap - total_to(d, i)) as u64);
    } else {
        assert(d.skip(0) =~= d);
    }
}

/// Selects deterministically for a given draw: the first entry whose
/// cumulative count exceeds `cap`.
fn pick_at(d: &Vec<(Option<String>, u64)>, cap: u64) -> (r: Option<String>)
    requires
        dist_wf(dist_view(*d)),
        d@.len() >= 1,
        cap < dist_total(dist_view(*d)),
    ensures
        tok_view(&r) == picked(dist_view(*d), cap),
        dist_has(dist_view(*d), tok_view(&r)),
{
    let ghost dv = dist_view(*d);
    let mut acc: u64 = 0;
    let mut i: usize = 0;
    while i < d.len()
        invariant
            i <= d.len(),
            dv == dist_view(*d),
            acc == total_to(dv, i as int),
            acc <= cap,
            cap < dist_total(dv),
        decreases d.len() - i,
    {
        let acc2 = sat_add_exec(acc, d[i].1);
        proof {
            assert(dv[i as int] == (tok_view(&d@[i as int].0), d@[i as int].1));
        }
        if acc2 > cap {
            let r = tok_clone(&d[i].0);
            proof {
                assert(dv[i as int].0 == tok_view(&r));
                lemma_picked_skip(dv, cap, i as int);
                assert(dv.skip(i as int)[0] == dv[i as int]);
                let c1 = (cap - total_to(dv, i as int)) as u64;
                assert(c1 < dv[i as int].1) by {
                    assert(sat_add(acc, dv[i as int].1) > cap);
                }
                assert(picked(dv.skip(i as int), c1) == dv[i as int].0);
            }
            return r;
        }
        acc = acc2;
        i += 1;
    }
    proof {
        assert(acc == dist_total(dv));
        assert(false);
    }
    tok_clone(&d[0].0)
}

/// Draws the next token slot from a distribution, each entry weighted by
/// its count: a uniform draw below the total weight is made, and the first
/// entry whose cumulative weight exceeds the draw is selected.  Which entry
/// comes back is random; that it is `picked` at some draw below the total
/// is not.
fn pick_next(d: &Vec<(Option<String>, u64)>) -> (r: Option<String>)
    requires
        dist_wf(dist_view(*d)),
        d@.len() >= 1,
    ensures
        dist_has(dist_view(*d), tok_view(&r)),
        exists|cap: u64|
            cap < dist_total(dist_view(*d)) && tok_view(&r) == picked(dist_view(*d), cap),
{
    let ghost dv = dist_view(*d);
    let mut total: u64 = 0;
    let mut i: usize = 0;
    while i < d.len()
        invariant
            i <= d.len(),
            dv == dist_view(*d),
            total == total_to(dv, i as int),
        decreases d.len() - i,
    {
        total = sat_add_exec(total, d[i].1);
        i += 1;
    }
    proof {
        assert(dv[0] == (tok_view(&d@[0].0), d@[0].1));
        assert(total_to(dv, 0) == 0);
        assert(total_to(dv, 1) == sat_add(0, dv[0].1));
        lemma_total_mono(dv, 1, d@.len() as int);
        assert(total >= 1);
    }
    let mut rng = new_rng();
    let cap = rng_below(&mut rng, total);
    let r = pick_at(d, cap);
    proof {
        assert(cap < dist_total(dv) && tok_view(&r) == picked(dv, cap));
    }
    r
}

/// Left slot of window `k` of the padded sequence `[start, toks..., end]`:
/// the start sentinel for the first window, else the token before the window.
pub open spec fn win_l(toks: Seq<Seq<char>>, k: int) -> Option<Seq<char>> {
    if k == 0 {
        None
    } else {
        Some(toks[k - 1])
    }
}

/// Right slot of window `k`: the end sentinel for the last window, else the
/// token at the window.
pub open spec fn win_r(toks: Seq<Seq<char>>, k: int) -> Option<Seq<char>> {
    if k == toks.len() {
        None
    } else {
        Some(toks[k])
    }
}

/// The table after recording the first `n` windows of the padded sequence.
pub open spec fn feed_win(v: TableV, toks: Seq<Seq<char>>, n: int) -> TableV
    decreases n,
{
    if n <= 0 {
        v
    } else {
        table_bump(feed_win(v, toks, n - 1), win_l(toks, n - 1), win_r(toks, n - 1))
    }
}

/// The table after feeding `toks`: a no-op for an empty sequence, else one
/// bump per consecutive pair of `[start, toks..., end]`.
pub open spec fn feed_view(v: TableV, toks: Seq<Seq<char>>) -> TableV {
    if toks.len() == 0 {
        v
    } else {
        feed_win(v, toks, toks.len() + 1 as int)
    }
}

/// `v2` extends `v1`: every state of `v1` is a state of `v2`, and no
/// recorded transition count shrank.  This is what any sequence of feeds
/// does to a model, and the lock predicate every cached chain is held
/// under relates the current model to the one first loaded or created.
pub open spec fn extends(v2: TableV, v1: TableV) -> bool {
    &&& forall|s: Option<Seq<char>>|
        #![trigger has_state(v1, s)]
        #![trigger has_state(v2, s)]
        has_state(v1, s) ==> has_state(v2, s)
    &&& forall|s: Option<Seq<char>>, t: Option<Seq<char>>|
        #![trigger count_of(v1, s, t)]
        #![trigger count_of(v2, s, t)]
        count_of(v1, s, t) <= count_of(v2, s, t)
}

pub proof fn lemma_extends_refl(v: TableV)
    ensures
        extends(v, v),
{
}

pub proof fn lemma_extends_trans(v3: TableV, v2: TableV, v1: TableV)
    requires
        extends(v3, v2),
        extends(v2, v1),
    ensures
        extends(v3, v1),
{
}

/// One recorded transition only grows the model.
proof fn lemma_dist_bump_count(d: DistV, t: Option<Seq<char>>, y: Option<Seq<char>>)
    requires
        dist_wf(d),
    ensures
        dist_count(d, y) <= dist_count(dist_bump(d, t), y),
{
    lemma_dist_bump_props(d, t);
    let b = dist_bump(d, t);
    if dist_has(d, t) {
        let i = choose|i: int| 0 <= i < d.len() && (#[trigger] d[i]).0 == t;
        assert(forall|k: int| 0 <= k < i ==> (#[trigger] d[k]).0 != t);
        lemma_dist_bump_found(d, t, i);
        if dist_has(d, y) {
            let j = choose|j: int| 0 <= j < d.len() && (#[trigger] d[j]).0 == y;
            assert(b[j].0 == y);
            assert(dist_has(b, y));
            let j2 = choose|j2: int| 0 <= j2 < b.len() && (#[trigger] b[j2]).0 == y;
            assert(b[j2].0 == b[j].0);
            assert(j2 == j) by {
                if j2 != j {
                    if j2 == i {
                        assert(d[j].0 == t);
                        assert(j == i);
                    } else {
                        assert(d[j2].0 == y);
                    }
                }
            }
            if j == i {
                assert(dist_count(b, y) == sat_inc(d[i].1));
            } else {
                assert(b[j] == d[j]);
            }
        } else {
            assert(dist_count(d, y) == 0);
        }
    } else {
        assert(forall|k: int| 0 <= k < d.len() ==> (#[trigger] d[k]).0 != t);
        lemma_dist_bump_miss(d, t);
        if dist_has(d, y) {
            let j = choose|j: int| 0 <= j < d.len() && (#[trigger] d[j]).0 == y;
            assert(b[j].0 == y);
            assert(dist_has(b, y));
            let j2 = choose|j2: int| 0 <= j2 < b.len() && (#[trigger] b[j2]).0 == y;
            assert(j2 == j) by {
                if j2 != j {
                    if j2 == d.len() {
                        assert(b[j2].0 == t);
                        assert(d[j].0 == t);
                        assert(false);
                    } else {
                        assert(d[j2].0 == y);
                    }
                }
            }
            assert(b[j] == d[j]);
        } else {
            assert(dist_count(d, y) == 0);
        }
    }
}

/// One recorded transition only extends the table.
proof fn lemma_bump_extends(v: TableV, s: Option<Seq<char>>, t: Option<Seq<char>>)
    requires
        keys_unique(v),
        forall|i: int| 0 <= i < v.len() ==> dist_wf((#[trigger] v[i]).1),
        forall|i: int| 0 <= i < v.len() && (#[trigger] v[i]).0 is Some ==> v[i].1.len() >= 1,
    ensures
        extends(table_bump(v, s, t), v),
{
    lemma_table_bump_props(v, s, t);
    let b = table_bump(v, s, t);
    assert forall|x: Option<Seq<char>>, y: Option<Seq<char>>|
        count_of(v, x, y) <= count_of(b, x, y) by {
        if has_state(v, x) {
            assert(has_state(b, x));
            let i = choose|i: int| 0 <= i < v.len() && (#[trigger] v[i]).0 == x;
            let i2 = choose|i2: int| 0 <= i2 < b.len() && (#[trigger] b[i2]).0 == x;
            assert(dist_of(v, x) == v[i].1);
            assert(dist_of(b, x) == b[i2].1);
            if has_state(v, s) {
                let js = choose|js: int| 0 <= js < v.len() && (#[trigger] v[js]).0 == s;
                assert(forall|k: int| 0 <= k < js ==> (#[trigger] v[k]).0 != s);
                lemma_table_bump_found(v, s, t, js);
                assert(i2 == i) by {
                    if i2 != i {
                        if i2 == js {
                            assert(v[i].0 == s);
                            assert(i == js);
                        } else {
                            assert(v[i2].0 == x);
                        }
                    }
                }
                if i == js {
                    assert(b[i].1 == dist_bump(v[i].1, t));
                    lemma_dist_bump_count(v[i].1, t, y);
                } else {
                    assert(b[i] == v[i]);
                }
            } else {
                assert(forall|k: int| 0 <= k < v.len() ==> (#[trigger] v[k]).0 != s);
                lemma_table_bump_miss(v, s, t);
                assert(i2 == i) by {
                    if i2 != i {
                        if i2 == v.len() {
                            assert(b[i2].0 == s);
                            assert(v[i].0 == s);
                            assert(false);
                        } else {
                            assert(v[i2].0 == x);
                        }
                    }
                }
                assert(b[i] == v[i]);
            }
        } else {
            assert(count_of(v, x, y) == 0);
        }
    }
}

/// Feeding only extends the model: every recorded state stays recorded and
/// no transition count shrinks.
pub proof fn lemma_feed_extends(v: TableV, toks: Seq<Seq<char>>)
    requires
        wf_view(v),
    ensures
        extends(feed_view(v, toks), v),
{
    if toks.len() == 0 {
        lemma_extends_refl(v);
    } else {
        lemma_feed_win_extends(v, toks, toks.len() + 1 as int);
    }
}

proof fn lemma_feed_win_extends(v: TableV, toks: Seq<Seq<char>>, n: int)
    requires
        keys_unique(v),
        forall|i: int| 0 <= i < v.len() ==> dist_wf((#[trigger] v[i]).1),
        forall|i: int| 0 <= i < v.len() && (#[trigger] v[i]).0 is Some ==> v[i].1.len() >= 1,
        0 <= n,
    ensures
        keys_unique(feed_win(v, toks, n)),
        forall|i: int|
            0 <= i < feed_win(v, toks, n).len() ==> dist_wf((#[trigger] feed_win(v, toks, n)[i]).1),
        forall|i: int|
            0 <= i < feed_win(v, toks, n).len() && (#[trigger] feed_win(v, toks, n)[i]).0 is Some
                ==> feed_win(v, toks, n)[i].1.len() >= 1,
        extends(feed_win(v, toks, n), v),
    decreases n,
{
    if n == 0 {
        lemma_extends_refl(v);
    } else {
        lemma_feed_win_extends(v, toks, n - 1);
        let w = feed_win(v, toks, n - 1);
        lemma_table_bump_props(w, win_l(toks, n - 1), win_r(toks, n - 1));
        lemma_bump_extends(w, win_l(toks, n - 1), win_r(toks, n - 1));
        lemma_extends_trans(feed_win(v, toks, n), w, v);
    }
}

/// `path` is a transition path through `v`: each element was drawn from
/// the distribution of the state before it, beginning at `start`.
pub open spec fn is_walk(v: TableV, start: Option<Seq<char>>, path: Seq<Seq<char>>) -> bool {
    forall|k: int|
        0 <= k < path.len() ==> dist_has(
            dist_of(
                v,
                if k == 0 {
                    start
                } else {
                    Some(path[k - 1])
                },
            ),
            Some(#[trigger] path[k]),
        )
}

pub struct Chain {
    table: Vec<(Option<String>, Vec<(Option<String>, u64)>)>,
}

impl View for Chain {
    type V = TableV;

    closed spec fn view(&self) -> TableV {
        table_view(self.table)
    }
}

impl Chain {
    pub open spec fn wf(&self) -> bool {
        wf_view(self@)
    }

    /// The view of a freshly created model: only the start state, with an
    /// empty distribution.
    pub open spec fn new_view() -> TableV {
        seq![(None::<Seq<char>>, Seq::<(Option<Seq<char>>, u64)>::empty())]
    }

    /// A fresh model: only the start state, with an empty distribution.
    pub fn new() -> (r: Chain)
        ensures
            r@ == Chain::new_view(),
            r.wf(),
            fed_view(r@),
    {
        let mut table: Vec<(Option<String>, Vec<(Option<String>, u64)>)> = Vec::new();
        let dist: Vec<(Option<String>, u64)> = Vec::new();
        let ghost dv = dist_view(dist);
        table.push((None, dist));
        let r = Chain { table };
        proof {
            assert(dv =~= Seq::<(Option<Seq<char>>, u64)>::empty());
            assert(r@ =~= seq![(None::<Seq<char>>, Seq::<(Option<Seq<char>>, u64)>::empty())]);
            assert(r@[0].0 == None::<Seq<char>>);
        }
        r
    }

    /// Records one transition `s -> t` in the table.
    fn bump(&mut self, s: Option<String>, t: Option<String>)
        ensures
            final(self)@ == table_bump(old(self)@, tok_view(&s), tok_view(&t)),
    {
        let ghost vv = self@;
        let ghost sv = tok_view(&s);
        let ghost tv = tok_view(&t);
        let mut i: usize = 0;
        while i < self.table.len()
            invariant
                i <= self.table.len(),
                vv == self@,
                vv == old(self)@,
                sv == tok_view(&s),
                tv == tok_view(&t),
                forall|k: int| 0 <= k < i ==> (#[trigger] vv[k]).0 != sv,
            decreases self.table.len() - i,
        {
            assert(vv[i as int]
                == (tok_view(&self.table@[i as int].0), dist_view(self.table@[i as int].1)));
            if tok_eq(&self.table[i].0, &s) {
                let ghost tseq = self.table@;
                let (k, mut dvec) = self.table.remove(i);
                let ghost dv0 = dist_view(dvec);
                dist_add(&mut dvec, t);
                let ghost dv1 = dist_view(dvec);
                self.table.insert(i, (k, dvec));
                proof {
                    lemma_table_bump_found(vv, sv, tv, i as int);
                    assert(self.table@ =~= tseq.update(
                        i as int,
                        (tseq[i as int].0, self.table@[i as int].1),
                    ));
                    assert(dv0 == vv[i as int].1);
                    assert(dv1 == dist_bump(vv[i as int].1, tv));
                    assert(self@ =~= vv.update(i as int, (sv, dist_bump(vv[i as int].1, tv))));
                }
                return;
            }
            i += 1;
        }
        let mut nd: Vec<(Option<String>, u64)> = Vec::new();
        nd.push((t, 1u64));
        let ghost ndv = dist_view(nd);
        self.table.push((s, nd));
        proof {
            lemma_table_bump_miss(vv, sv, tv);
            assert(ndv =~= seq![(tv, 1u64)]);
            assert(self@ =~= vv.push((sv, seq![(tv, 1u64)])));
        }
    }

    /// Feeds one tokenized message into the model: an empty sequence is a
    /// no-op; otherwise every consecutive pair of `[start, tokens..., end]`
    /// has its transition count incremented by one.
    pub fn feed_tokens(&mut self, tokens: &Vec<String>)
        requires
            old(self).wf(),
            tokens@.len() < usize::MAX,
        ensures
            final(self)@ == feed_view(old(self)@, tokens@.map_values(|s: String| s@)),
            final(self).wf(),
            fed_view(old(self)@) ==> fed_view(final(self)@),
    {
        let ghost toksv = tokens@.map_values(|s: String| s@);
        let ghost v0 = self@;
        if tokens.len() == 0 {
            return;
        }
        let mut w: usize = 0;
        while w <= tokens.len()
            invariant
                w <= tokens.len() + 1,
                tokens@.len() >= 1,
                tokens@.len() < usize::MAX,
                toksv == tokens@.map_values(|s: String| s@),
                v0 == old(self)@,
                wf_view(v0),
                self@ == feed_win(v0, toksv, w as int),
                keys_unique(self@),
                has_state(self@, None),
                forall|i: int| 0 <= i < self@.len() ==> dist_wf((#[trigger] self@[i]).1),
                forall|i: int|
                    0 <= i < self@.len() && (#[trigger] self@[i]).0 is Some
                        ==> self@[i].1.len() >= 1,
                closed_except(
                    self@,
                    if w <= tokens@.len() {
                        win_l(toksv, w as int)
                    } else {
                        None
                    },
                ),
                w >= 1 && w <= tokens@.len() ==> appears_rhs(self@, win_l(toksv, w as int)),
                fed_view(v0) ==> forall|i: int|
                    0 <= i < self@.len() && (#[trigger] self@[i]).0 is Some
                        ==> appears_rhs(self@, self@[i].0),
            decreases tokens.len() + 1 - w,
        {
            let l: Option<String> = if w == 0 {
                None
            } else {
                Some(tokens[w - 1].clone())
            };
            let r: Option<String> = if w == tokens.len() {
                None
            } else {
                Some(tokens[w].clone())
            };
            proof {
                assert(tok_view(&l) == win_l(toksv, w as int));
                assert(tok_view(&r) == win_r(toksv, w as int));
            }
            let ghost pre = self@;
            self.bump(l, r);
            proof {
                lemma_table_bump_props(pre, win_l(toksv, w as int), win_r(toksv, w as int));
                lemma_closed_step(pre, win_l(toksv, w as int), win_r(toksv, w as int));
                if fed_view(v0) {
                    lemma_orphan_step(pre, win_l(toksv, w as int), win_r(toksv, w as int));
                }
            }
            w += 1;
        }
        proof {
            assert(self@ == feed_win(v0, toksv, toksv.len() + 1 as int));
            assert(table_closed(self@));
        }
    }

    /// Decides whether the table holds a state for the given slot.
    pub fn has_key(&self, t: &Option<String>) -> (r: bool)
        ensures
            r <==> has_state(self@, tok_view(t)),
    {
        let ghost vv = self@;
        let mut i: usize = 0;
        while i < self.table.len()
            invariant
                i <= self.table.len(),
                vv == self@,
                forall|k: int| 0 <= k < i ==> (#[trigger] vv[k]).0 != tok_view(t),
            decreases self.table.len() - i,
        {
            assert(vv[i as int]
                == (tok_view(&self.table@[i as int].0), dist_view(self.table@[i as int].1)));
            if tok_eq(&self.table[i].0, t) {
                return true;
            }
            i += 1;
        }
        false
    }

    /// Borrows the distribution stored for a state known to be present.
    fn find_dist(&self, t: &Option<String>) -> (r: &Vec<(Option<String>, u64)>)
        requires
            keys_unique(self@),
            has_state(self@, tok_view(t)),
        ensures
            dist_view(*r) == dist_of(self@, tok_view(t)),
    {
        let ghost vv = self@;
        let mut i: usize = 0;
        while i < self.table.len()
            invariant
                i <= self.table.len(),
                vv == self@,
                keys_unique(vv),
                has_state(vv, tok_view(t)),
                forall|k: int| 0 <= k < i ==> (#[trigger] vv[k]).0 != tok_view(t),
            decreases self.table.len() - i,
        {
            assert(vv[i as int]
                == (tok_view(&self.table@[i as int].0), dist_view(self.table@[i as int].1)));
            if tok_eq(&self.table[i].0, t) {
                proof {
                    let c = choose|c: int| 0 <= c < vv.len() && (#[trigger] vv[c]).0 == tok_view(t);
                    assert(c == i as int);
                }
                return &self.table[i].1;
            }
            i += 1;
        }
        proof {
            assert(false);
        }
        &self.table[0].1
    }

    /// One random walk from `start`, collecting every concrete token drawn
    /// until the end sentinel comes up: a transition path through the
    /// table.  The step bound keeps every run finite; any walk shorter than
    /// the bound ended by drawing the sentinel from its last state.
    fn walk(&self, start: Option<String>) -> (r: Vec<String>)
        requires
            self.wf(),
            has_state(self@, tok_view(&start)),
            tok_view(&start) is None ==> dist_of(self@, None).len() >= 1,
        ensures
            forall|k: int| 0 <= k < r@.len() ==> appears_rhs(self@, Some((#[trigger] r@[k])@)),
            is_walk(self@, tok_view(&start), r@.map_values(|t: String| t@)),
            r@.len() < WALK_CAP ==> dist_has(
                dist_of(
                    self@,
                    if r@.len() == 0 {
                        tok_view(&start)
                    } else {
                        Some(r@.last()@)
                    },
                ),
                None,
            ),
    {
        let ghost start0 = tok_view(&start);
        let mut out: Vec<String> = Vec::new();
        let mut cur: Option<String> = start;
        let mut steps: u64 = 0;
        while steps < WALK_CAP
            invariant
                self.wf(),
                has_state(self@, tok_view(&cur)),
                tok_view(&cur) is None ==> dist_of(self@, None).len() >= 1,
                forall|k: int|
                    0 <= k < out@.len() ==> appears_rhs(self@, Some((#[trigger] out@[k])@)),
                is_walk(self@, start0, out@.map_values(|t: String| t@)),
                start0 == tok_view(&start),
                out@.len() == steps,
                tok_view(&cur) == if out@.len() == 0 {
                    start0
                } else {
                    Some(out@.last()@)
                },
            decreases WALK_CAP - steps,
        {
            let d = self.find_dist(&cur);
            proof {
                let c = choose|c: int|
                    0 <= c < self@.len() && (#[trigger] self@[c]).0 == tok_view(&cur);
                assert(dist_view(*d) == self@[c].1);
                if tok_view(&cur) is Some {
                    assert(self@[c].1.len() >= 1);
                }
                assert(dist_wf(dist_view(*d)));
            }
            let next = pick_next(d);
            proof {
                let c = choose|c: int|
                    0 <= c < self@.len() && (#[trigger] self@[c]).0 == tok_view(&cur);
                let j = choose|j: int|
                    0 <= j < dist_view(*d).len() && (#[trigger] dist_view(*d)[j]).0 == tok_view(
                        &next,
                    );
                assert(self@[c].1[j].0 == tok_view(&next));
                assert(appears_rhs(self@, tok_view(&next)));
            }
            proof {
                assert(dist_has(dist_of(self@, tok_view(&cur)), tok_view(&next)));
            }
            match next {
                None => {
                    return out;
                },
                Some(s) => {
                    let ghost outv0 = out@.map_values(|t: String| t@);
                    let s2 = s.clone();
                    out.push(s);
                    cur = Some(s2);
                    proof {
                        assert(out@.map_values(|t: String| t@) =~= outv0.push(
                            out@.last()@,
                        ));
                        assert(is_walk(self@, start0, out@.map_values(|t: String| t@)));
                    }
                },
            }
            steps += 1;
        }
        out
    }

    /// A random walk that begins at the given token, which is also the first
    /// element of the result; an unknown token yields an empty sequence.
    pub fn generate_from_token(&self, token: String) -> (r: Vec<String>)
        requires
            self.wf(),
        ensures
            has_state(self@, Some(token@)) ==> r@.len() >= 1 && r@[0]@ == token@ && (forall|k: int|
                1 <= k < r@.len() ==> appears_rhs(self@, Some((#[trigger] r@[k])@))) && is_walk(
                self@,
                Some(token@),
                r@.map_values(|t: String| t@).drop_first(),
            ) && (r@.len() <= WALK_CAP ==> dist_has(
                dist_of(self@, Some(r@.last()@)),
                None,
            )),
            !has_state(self@, Some(token@)) ==> r@.len() == 0,
    {
        let key = Some(token.clone());
        if !self.has_key(&key) {
            return Vec::new();
        }
        let mut out = vec![token];
        let mut rest = self.walk(key);
        let ghost restv = rest@.map_values(|t: String| t@);
        out.append(&mut rest);
        proof {
            assert(out@.map_values(|t: String| t@).drop_first() =~= restv);
        }
        out
    }

    /// A random walk from the start sentinel: the model's ordinary
    /// generation entry point, defined once anything has been fed.
    pub fn generate(&self) -> (r: Vec<String>)
        requires
            self.wf(),
            dist_of(self@, None).len() >= 1,
        ensures
            forall|k: int| 0 <= k < r@.len() ==> appears_rhs(self@, Some((#[trigger] r@[k])@)),
            is_walk(self@, None, r@.map_values(|t: String| t@)),
            r@.len() < WALK_CAP ==> dist_has(
                dist_of(
                    self@,
                    if r@.len() == 0 {
                        None
                    } else {
                        Some(r@.last()@)
                    },
                ),
                None,
            ),
    {
        self.walk(None)
    }

    /// The lossless text form of the model: one record per state with its
    /// (next, count) pairs, in this library's own length-prefixed syntax
    /// (see the codec module for why it is not serializer JSON).
    pub fn save(&self) -> (r: String)
        ensures
            r@ == crate::codec::enc_table(self@),
    {
        let mut out: Vec<char> = Vec::new();
        crate::codec::encode_table(&self.table, &mut out);
        chars_to_string(out)
    }

    /// Rebuilds a model from its text form; exactly the encodings of
    /// well-formed tables are accepted.
    pub fn load(data: &str) -> (r: Result<Chain, crate::codec::DecodeError>)
        ensures
            r is Ok ==> (r->Ok_0).wf() && crate::codec::enc_table((r->Ok_0)@) == data@,
            forall|v: TableV|
                wf_view(v) && data@ == crate::codec::enc_table(v) ==> r is Ok && (r->Ok_0)@ == v,
    {
        let cv = crate::str_to_chars(data);
        match crate::codec::decode_table(&cv) {
            None => {
                proof {
                    assert forall|v: TableV|
                        wf_view(v) && data@ == crate::codec::enc_table(v) implies false by {
                        assert(crate::codec::table_counts_pos(v));
                        assert(cv@ != crate::codec::enc_table(v));
                    }
                }
                Err(crate::codec::DecodeError)
            },
            Some(table) => {
                let c = Chain { table };
                if c.check_wf() {
                    proof {
                        assert forall|v: TableV|
                            wf_view(v) && data@ == crate::codec::enc_table(v) implies c@ == v by {
                            crate::codec::lemma_encode_injective(c@, v);
                        }
                    }
                    Ok(c)
                } else {
                    proof {
                        assert forall|v: TableV|
                            wf_view(v) && data@ == crate::codec::enc_table(v) implies false by {
                            crate::codec::lemma_encode_injective(c@, v);
                        }
                    }
                    Err(crate::codec::DecodeError)
                }
            },
        }
    }

    /// Decides well-formedness of the whole table.
    fn check_wf(&self) -> (r: bool)
        ensures
            r == wf_view(self@),
    {
        let ghost vv = self@;
        if !self.has_key(&None) {
            return false;
        }
        let n = self.table.len();
        let mut i: usize = 0;
        while i < n
            invariant
                i <= n,
                n == self.table@.len(),
                vv == self@,
                has_state(vv, None),
                forall|a: int, b: int| 0 <= a < b < i ==> (#[trigger] vv[a]).0 != (#[trigger] vv[b]).0,
                forall|a: int| 0 <= a < i ==> dist_wf((#[trigger] vv[a]).1),
                forall|a: int| 0 <= a < i && (#[trigger] vv[a]).0 is Some ==> vv[a].1.len() >= 1,
                forall|a: int, b: int|
                    0 <= a < i && 0 <= b < vv[a].1.len() ==> ((#[trigger] vv[a].1[b]).0 is None
                        || has_state(vv, vv[a].1[b].0)),
            decreases n - i,
        {
            assert(vv[i as int]
                == (tok_view(&self.table@[i as int].0), dist_view(self.table@[i as int].1)));
            let mut a: usize = 0;
            while a < i
                invariant
                    a <= i < n,
                    n == self.table@.len(),
                    vv == self@,
                    forall|b: int| 0 <= b < a ==> (#[trigger] vv[b]).0 != vv[i as int].0,
                decreases i - a,
            {
                assert(vv[a as int]
                    == (tok_view(&self.table@[a as int].0), dist_view(self.table@[a as int].1)));
                assert(vv[i as int]
                    == (tok_view(&self.table@[i as int].0), dist_view(self.table@[i as int].1)));
                if tok_eq(&self.table[a].0, &self.table[i].0) {
                    proof {
                        assert(vv.len() == n);
                        assert(!keys_unique(vv));
                    }
                    return false;
                }
                a += 1;
            }
            let is_some = self.table[i].0.is_some();
            let dlen = self.table[i].1.len();
            if is_some && dlen == 0 {
                return false;
            }
            let ghost dv = dist_view(self.table@[i as int].1);
            let mut b: usize = 0;
            while b < dlen
                invariant
                    b <= dlen,
                    dlen == self.table@[i as int].1@.len(),
                    i < n,
                    n == self.table@.len(),
                    vv == self@,
                    dv == dist_view(self.table@[i as int].1),
                    dv == vv[i as int].1,
                    forall|x: int, y: int|
                        0 <= x < y < b ==> (#[trigger] dv[x]).0 != (#[trigger] dv[y]).0,
                    forall|x: int| 0 <= x < b ==> (#[trigger] dv[x]).1 >= 1,
                    forall|x: int|
                        0 <= x < b ==> ((#[trigger] dv[x]).0 is None || has_state(vv, dv[x].0)),
                decreases dlen - b,
            {
                assert(dv[b as int]
                    == (tok_view(&self.table@[i as int].1@[b as int].0),
                self.table@[i as int].1@[b as int].1));
                if self.table[i].1[b].1 == 0 {
                    proof {
                        assert(vv.len() == n);
                        assert(!dist_wf(vv[i as int].1));
                    }
                    return false;
                }
                let mut x: usize = 0;
                while x < b
                    invariant
                        x <= b < dlen,
                        dlen == self.table@[i as int].1@.len(),
                        i < n,
                        n == self.table@.len(),
                        vv == self@,
                        dv == dist_view(self.table@[i as int].1),
                        forall|y: int| 0 <= y < x ==> (#[trigger] dv[y]).0 != dv[b as int].0,
                    decreases b - x,
                {
                    assert(dv[x as int]
                        == (tok_view(&self.table@[i as int].1@[x as int].0),
                    self.table@[i as int].1@[x as int].1));
                    assert(dv[b as int]
                        == (tok_view(&self.table@[i as int].1@[b as int].0),
                    self.table@[i as int].1@[b as int].1));
                    if tok_eq(&self.table[i].1[x].0, &self.table[i].1[b].0) {
                        proof {
                            assert(vv.len() == n);
                            assert(vv[i as int]
                                == (tok_view(&self.table@[i as int].0),
                            dist_view(self.table@[i as int].1)));
                            assert(!dist_keys_unique(dv));
                            assert(!dist_wf(vv[i as int].1));
                        }
                        return false;
                    }
                    x += 1;
                }
                if self.table[i].1[b].0.is_some() {
                    if !self.has_key(&self.table[i].1[b].0) {
                        return false;
                    }
                }
                b += 1;
            }
            i += 1;
        }
        proof {
            assert(wf_view(vv)) by {
                assert(keys_unique(vv));
                assert(forall|a: int| 0 <= a < vv.len() ==> dist_wf((#[trigger] vv[a]).1));
                assert(table_closed(vv)) by {
                    assert(forall|a: int, b: int|
                        0 <= a < vv.len() && 0 <= b < vv[a].1.len() ==> ((#[trigger] vv[a].1[b]).0
                            is None || has_state(vv, vv[a].1[b].0)));
                }
            }
        }
        true
    }

    /// Feeds one message, tokenized on single spaces.
    pub fn feed(&mut self, string: &str)
        requires
            old(self).wf(),
            string@.len() + 1 < usize::MAX,
        ensures
            final(self)@ == feed_view(old(self)@, split_sp(string@)),
            final(self).wf(),
            fed_view(old(self)@) ==> fed_view(final(self)@),
    {
        let tokens = split_spaces(string);
        self.feed_tokens(&tokens);
    }

    /// A walk from the given token rendered as space-separated text; empty
    /// for an unknown token.
    pub fn generate_str_from_token(&self, string: &str) -> (r: String)
        requires
            self.wf(),
        ensures
            !has_state(self@, Some(string@)) ==> r@ == Seq::<char>::empty(),
            has_state(self@, Some(string@)) ==> exists|ts: Seq<Seq<char>>|
                ts.len() >= 1 && ts[0] == string@ && (forall|k: int|
                    1 <= k < ts.len() ==> appears_rhs(self@, Some(#[trigger] ts[k]))) && is_walk(
                    self@,
                    Some(string@),
                    ts.drop_first(),
                ) && (ts.len() <= WALK_CAP ==> dist_has(
                    dist_of(self@, Some(ts.last())),
                    None,
                )) && r@ == join_sp(ts),
    {
        let toks = self.generate_from_token(string.to_owned());
        let r = join_tokens(&toks);
        proof {
            let tsv = toks@.map_values(|t: String| t@);
            if has_state(self@, Some(string@)) {
                assert(tsv.len() >= 1 && tsv[0] == string@ && (forall|k: int|
                    1 <= k < tsv.len() ==> appears_rhs(self@, Some(#[trigger] tsv[k]))) && is_walk(
                    self@,
                    Some(string@),
                    tsv.drop_first(),
                ) && (tsv.len() <= WALK_CAP ==> dist_has(
                    dist_of(self@, Some(tsv.last())),
                    None,
                )) && r@ == join_sp(tsv));
            }
        }
        r
    }

    /// The recorded count for the transition `state -> next`, zero where no
    /// such transition was recorded.
    pub fn transition_count(&self, state: &Option<String>, next: &Option<String>) -> (r: u64)
        requires
            self.wf(),
        ensures
            r == count_of(self@, tok_view(state), tok_view(next)),
    {
        let ghost vv = self@;
        let ghost sv = tok_view(state);
        let ghost nv = tok_view(next);
        let mut i: usize = 0;
        while i < self.table.len()
            invariant
                i <= self.table.len(),
                vv == self@,
                self.wf(),
                sv == tok_view(state),
                nv == tok_view(next),
                forall|k: int| 0 <= k < i ==> (#[trigger] vv[k]).0 != sv,
            decreases self.table.len() - i,
        {
            assert(vv[i as int]
                == (tok_view(&self.table@[i as int].0), dist_view(self.table@[i as int].1)));
            if tok_eq(&self.table[i].0, state) {
                proof {
                    let c = choose|c: int| 0 <= c < vv.len() && (#[trigger] vv[c]).0 == sv;
                    assert(c == i as int);
                    assert(dist_of(vv, sv) == vv[i as int].1);
                }
                let d = &self.table[i].1;
                let ghost dv = dist_view(*d);
                let mut j: usize = 0;
                while j < d.len()
                    invariant
                        j <= d.len(),
                        dv == dist_view(*d),
                        dist_keys_unique(dv),
                        vv == self@,
                        sv == tok_view(state),
                        nv == tok_view(next),
                        has_state(vv, sv),
                        dist_of(vv, sv) == dv,
                        forall|k: int| 0 <= k < j ==> (#[trigger] dv[k]).0 != nv,
                    decreases d.len() - j,
                {
                    assert(dv[j as int] == (tok_view(&d@[j as int].0), d@[j as int].1));
                    if tok_eq(&d[j].0, next) {
                        proof {
                            let c = choose|c: int|
                                0 <= c < dv.len() && (#[trigger] dv[c]).0 == nv;
                            assert(c == j as int);
                        }
                        return d[j].1;
                    }
                    j += 1;
                }
                assert(!dist_has(dv, nv));
                return 0;
            }
            i += 1;
        }
        assert(!has_state(vv, sv));
        0
    }
}

/// For a table built purely by `feed`, a token is a state exactly when it
/// was observed as the right-hand side of some recorded transition; with
/// `generate_from_token`'s contract this says its result is empty exactly
/// when the token was never fed.
pub proof fn lemma_state_iff_observed(v: TableV, t: Seq<char>)
    requires
        fed_view(v),
    ensures
        has_state(v, Some(t)) <==> appears_rhs(v, Some(t)),
{
    if has_state(v, Some(t)) {
        let i = choose|i: int| 0 <= i < v.len() && (#[trigger] v[i]).0 == Some(t);
        assert(appears_rhs(v, v[i].0));
    }
    if appears_rhs(v, Some(t)) {
        let (i, j) = choose|i: int, j: int|
            0 <= i < v.len() && 0 <= j < v[i].1.len() && (#[trigger] v[i].1[j]).0 == Some(t);
        assert(v[i].1[j].0 is None || has_state(v, v[i].1[j].0) || v[i].1[j].0
            == None::<Seq<char>>);
    }
}

/// In a well-formed table every recorded next-token is the end sentinel or a
/// state with a populated distribution: a generation walk always finds a
/// distribution to draw from, so it can only stop by drawing the sentinel or
/// by exhausting its step bound.
pub proof fn lemma_walk_supported(v: TableV)
    requires
        wf_view(v),
    ensures
        forall|i: int, j: int|
            0 <= i < v.len() && 0 <= j < v[i].1.len() ==> ((#[trigger] v[i].1[j]).0 is None || (
            has_state(v, v[i].1[j].0) && dist_of(v, v[i].1[j].0).len() >= 1)),
{
    assert forall|i: int, j: int|
        0 <= i < v.len() && 0 <= j < v[i].1.len() implies ((#[trigger] v[i].1[j]).0 is None || (
        has_state(v, v[i].1[j].0) && dist_of(v, v[i].1[j].0).len() >= 1)) by {
        let x = v[i].1[j].0;
        if x is Some {
            assert(has_state(v, x));
            let c = choose|c: int| 0 <= c < v.len() && (#[trigger] v[c]).0 == x;
            assert(dist_of(v, x) == v[c].1);
            assert(v[c].1.len() >= 1);
        }
    }
}

} // verus!
