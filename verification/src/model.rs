//! The mathematical model of the cache: a sequence of `(key, value)` pairs
//! ordered from least- to most-recently-used, with pairwise distinct keys.
//! `spec_put` and `spec_promote` say exactly how `put` and `get` transform
//! that sequence.

use vstd::prelude::*;

verus! {

/// The sequence holds a pair whose key is `k`.
pub open spec fn has_key<A, B>(s: Seq<(A, B)>, k: A) -> bool {
    exists|i: int| 0 <= i < s.len() && s[i].0 == k
}

/// An index at which key `k` sits (unique when the keys are distinct).
pub open spec fn key_index<A, B>(s: Seq<(A, B)>, k: A) -> int {
    choose|i: int| 0 <= i < s.len() && s[i].0 == k
}

/// No two pairs share a key.
pub open spec fn distinct_keys<A, B>(s: Seq<(A, B)>) -> bool {
    forall|i: int, j: int| 0 <= i < j < s.len() ==> s[i].0 != s[j].0
}

/// The value stored under `k`, if any.
pub open spec fn spec_lookup<A, B>(s: Seq<(A, B)>, k: A) -> Option<B> {
    if has_key(s, k) {
        Some(s[key_index(s, k)].1)
    } else {
        None
    }
}

/// How `put` transforms the state: an existing key is re-bound and moved to
/// the most-recent end; a fresh key is appended, evicting the front
/// (least-recently-used) pair when the cache is full.  With capacity zero the
/// new pair is conceptually inserted and at once evicted, so nothing changes.
pub open spec fn spec_put<A, B>(s: Seq<(A, B)>, cap: nat, k: A, v: B) -> Seq<(A, B)> {
    if has_key(s, k) {
        s.remove(key_index(s, k)).push((k, v))
    } else if s.len() < cap {
        s.push((k, v))
    } else if cap > 0 {
        s.drop_first().push((k, v))
    } else {
        s
    }
}

/// How a successful `get` transforms the state: the pair holding `k` moves to
/// the most-recent end; a miss changes nothing.
pub open spec fn spec_promote<A, B>(s: Seq<(A, B)>, k: A) -> Seq<(A, B)> {
    if has_key(s, k) {
        let i = key_index(s, k);
        s.remove(i).push(s[i])
    } else {
        s
    }
}

/// The state after replaying a sequence of `put` operations in order.
pub open spec fn run_puts<A, B>(s: Seq<(A, B)>, cap: nat, ops: Seq<(A, B)>) -> Seq<(A, B)>
    decreases ops.len(),
{
    if ops.len() == 0 {
        s
    } else {
        run_puts(spec_put(s, cap, ops[0].0, ops[0].1), cap, ops.drop_first())
    }
}

/// When the keys are distinct, `key_index` is the one index holding `k`.
pub proof fn lemma_key_index_unique<A, B>(s: Seq<(A, B)>, k: A, i: int)
    requires
        distinct_keys(s),
        0 <= i < s.len(),
        s[i].0 == k,
    ensures
        key_index(s, k) == i,
{
    assert(has_key(s, k));
    let j = key_index(s, k);
    assert(0 <= j < s.len() && s[j].0 == k);
    if i < j {
        assert(s[i].0 != s[j].0);
    } else if j < i {
        assert(s[j].0 != s[i].0);
    }
}

/// Removing a pair keeps the remaining keys distinct, and removes the one
/// occurrence of its key.
pub proof fn lemma_remove_keeps_distinct<A, B>(s: Seq<(A, B)>, i: int)
    requires
        distinct_keys(s),
        0 <= i < s.len(),
    ensures
        distinct_keys(s.remove(i)),
        !has_key(s.remove(i), s[i].0),
        forall|k: A| has_key(s.remove(i), k) ==> has_key(s, k),
{
    let r = s.remove(i);
    assert forall|a: int, b: int| 0 <= a < b < r.len() implies r[a].0 != r[b].0 by {
        let a0 = if a < i { a } else { a + 1 };
        let b0 = if b < i { b } else { b + 1 };
        assert(r[a] == s[a0]);
        assert(r[b] == s[b0]);
    }
    assert forall|j: int| 0 <= j < r.len() implies r[j].0 != s[i].0 by {
        let j0 = if j < i { j } else { j + 1 };
        assert(r[j] == s[j0]);
        if j0 < i {
            assert(s[j0].0 != s[i].0);
        } else {
            assert(s[i].0 != s[j0].0);
        }
    }
    assert forall|k: A| has_key(r, k) implies has_key(s, k) by {
        let j = choose|j: int| 0 <= j < r.len() && r[j].0 == k;
        let j0 = if j < i { j } else { j + 1 };
        assert(r[j] == s[j0]);
    }
}

/// Appending a pair with a fresh key keeps the keys distinct.
pub proof fn lemma_push_fresh_keeps_distinct<A, B>(s: Seq<(A, B)>, k: A, v: B)
    requires
        distinct_keys(s),
        !has_key(s, k),
    ensures
        distinct_keys(s.push((k, v))),
{
    let r = s.push((k, v));
    assert forall|a: int, b: int| 0 <= a < b < r.len() implies r[a].0 != r[b].0 by {
        if b < s.len() {
            assert(r[a] == s[a] && r[b] == s[b]);
        } else {
            assert(r[a] == s[a] && r[b] == (k, v));
            assert(!(s[a].0 == k));
        }
    }
}

/// Dropping the front pair keeps the keys distinct and only loses keys.
pub proof fn lemma_drop_first_keeps_distinct<A, B>(s: Seq<(A, B)>)
    requires
        distinct_keys(s),
        s.len() > 0,
    ensures
        distinct_keys(s.drop_first()),
        forall|k: A| has_key(s.drop_first(), k) ==> has_key(s, k),
        !has_key(s.drop_first(), s[0].0),
{
    assert(s.drop_first() =~= s.remove(0));
    lemma_remove_keeps_distinct(s, 0);
}

/// `put` keeps the state well formed: distinct keys, and never more pairs
/// than the capacity allows.
pub proof fn lemma_spec_put_wf<A, B>(s: Seq<(A, B)>, cap: nat, k: A, v: B)
    requires
        distinct_keys(s),
        s.len() <= cap,
    ensures
        distinct_keys(spec_put(s, cap, k, v)),
        spec_put(s, cap, k, v).len() <= cap,
{
    if has_key(s, k) {
        let i = key_index(s, k);
        assert(0 <= i < s.len() && s[i].0 == k);
        lemma_remove_keeps_distinct(s, i);
        lemma_push_fresh_keeps_distinct(s.remove(i), k, v);
    } else if s.len() < cap {
        lemma_push_fresh_keeps_distinct(s, k, v);
    } else if cap > 0 {
        lemma_drop_first_keeps_distinct(s);
        lemma_push_fresh_keeps_distinct(s.drop_first(), k, v);
    }
}

/// Replaying a concatenation of operation sequences is replaying one after
/// the other.
pub proof fn lemma_run_puts_concat<A, B>(s: Seq<(A, B)>, cap: nat, a: Seq<(A, B)>, b: Seq<(A, B)>)
    ensures
        run_puts(s, cap, a + b) == run_puts(run_puts(s, cap, a), cap, b),
    decreases a.len(),
{
    if a.len() == 0 {
        assert(a + b =~= b);
    } else {
        let s1 = spec_put(s, cap, a[0].0, a[0].1);
        assert((a + b).drop_first() =~= a.drop_first() + b);
        lemma_run_puts_concat(s1, cap, a.drop_first(), b);
    }
}

/// Replaying one more operation after a sequence of them.
pub proof fn lemma_run_puts_snoc<A, B>(s: Seq<(A, B)>, cap: nat, ops: Seq<(A, B)>, p: (A, B))
    ensures
        run_puts(s, cap, ops.push(p)) == spec_put(run_puts(s, cap, ops), cap, p.0, p.1),
{
    assert(ops.push(p) =~= ops + seq![p]);
    lemma_run_puts_concat(s, cap, ops, seq![p]);
    let s1 = run_puts(s, cap, ops);
    assert(run_puts(s1, cap, seq![p]) == run_puts(
        spec_put(s1, cap, p.0, p.1),
        cap,
        seq![p].drop_first(),
    ));
    assert(seq![p].drop_first() =~= Seq::<(A, B)>::empty());
    assert(p == (p.0, p.1));
}

} // verus!
