//! The behavioural laws of the cache and its codec, stated over the
//! functional model and proved once and for all.

use vstd::prelude::*;
use crate::codec::{
    lemma_parse_lines_concat, lemma_parse_single, lemma_sole_separator_unique, line_fields,
    parse_lines_spec, render_line_spec, separator_at, sole_separator, valid_field,
    FIELD_SEPARATOR,
};
use crate::model::{
    distinct_keys, has_key, lemma_key_index_unique, lemma_run_puts_concat, lemma_spec_put_wf,
    run_puts, spec_lookup, spec_promote, spec_put,
};

verus! {

/// A lookup of a key that is absent returns nothing and leaves the state —
/// in particular which key is least-recently-used — untouched.
pub proof fn lemma_get_absent<A, B>(s: Seq<(A, B)>, k: A)
    requires
        !has_key(s, k),
    ensures
        spec_lookup(s, k) is None,
        spec_promote(s, k) == s,
{
}

/// A cache of capacity zero retains nothing, whatever is put into it.
pub proof fn lemma_zero_capacity<A, B>(ops: Seq<(A, B)>)
    ensures
        run_puts(Seq::<(A, B)>::empty(), 0, ops) == Seq::<(A, B)>::empty(),
    decreases ops.len(),
{
    let e = Seq::<(A, B)>::empty();
    if ops.len() > 0 {
        assert(spec_put(e, 0, ops[0].0, ops[0].1) == e);
        lemma_zero_capacity::<A, B>(ops.drop_first());
    }
}

/// No sequence of `put` operations pushes a well-formed state over its
/// capacity, and the keys stay pairwise distinct.
pub proof fn lemma_capacity_invariant<A, B>(s: Seq<(A, B)>, cap: nat, ops: Seq<(A, B)>)
    requires
        distinct_keys(s),
        s.len() <= cap,
    ensures
        run_puts(s, cap, ops).len() <= cap,
        distinct_keys(run_puts(s, cap, ops)),
    decreases ops.len(),
{
    if ops.len() > 0 {
        lemma_spec_put_wf(s, cap, ops[0].0, ops[0].1);
        lemma_capacity_invariant(spec_put(s, cap, ops[0].0, ops[0].1), cap, ops.drop_first());
    }
}

/// After a `put` into a cache of positive capacity, the key holds the new
/// value and is the most-recently-used entry.
pub proof fn lemma_put_stores<A, B>(s: Seq<(A, B)>, cap: nat, k: A, v: B)
    requires
        distinct_keys(s),
        s.len() <= cap,
        cap > 0,
    ensures
        spec_put(s, cap, k, v).last() == (k, v),
        spec_lookup(spec_put(s, cap, k, v), k) == Some(v),
{
    let f = spec_put(s, cap, k, v);
    lemma_spec_put_wf(s, cap, k, v);
    assert(f.len() > 0 && f.last() == (k, v));
    lemma_key_index_unique(f, k, f.len() - 1);
}

/// Replaying pairs whose keys are fresh and distinct, with room for all of
/// them, simply appends them in order.
pub proof fn lemma_fill_fresh<A, B>(s: Seq<(A, B)>, cap: nat, ops: Seq<(A, B)>)
    requires
        distinct_keys(s + ops),
        s.len() + ops.len() <= cap,
    ensures
        run_puts(s, cap, ops) == s + ops,
    decreases ops.len(),
{
    if ops.len() == 0 {
        assert(s + ops =~= s);
    } else {
        let k = ops[0].0;
        let v = ops[0].1;
        assert(!has_key(s, k)) by {
            if has_key(s, k) {
                let j = choose|j: int| 0 <= j < s.len() && s[j].0 == k;
                assert((s + ops)[j] == s[j]);
                assert((s + ops)[s.len() as int] == ops[0]);
            }
        }
        assert(spec_put(s, cap, k, v) == s.push((k, v)));
        assert(ops[0] == (ops[0].0, ops[0].1));
        assert(s.push((k, v)) =~= s + seq![ops[0]]);
        assert((s + seq![ops[0]]) + ops.drop_first() =~= s + ops);
        lemma_fill_fresh(s + seq![ops[0]], cap, ops.drop_first());
    }
}

/// Putting `capacity + 1` pairwise distinct keys into a fresh cache, in
/// order and with no intervening reads, evicts exactly the first key: it is
/// absent afterwards, and every later key still holds its value.
pub proof fn lemma_eviction_correctness<A, B>(cap: nat, ops: Seq<(A, B)>)
    requires
        cap >= 1,
        ops.len() == cap + 1,
        distinct_keys(ops),
    ensures
        !has_key(run_puts(Seq::<(A, B)>::empty(), cap, ops), ops[0].0),
        forall|i: int|
            1 <= i < ops.len() ==> spec_lookup(
                run_puts(Seq::<(A, B)>::empty(), cap, ops),
                ops[i].0,
            ) == Some(ops[i].1),
{
    let e = Seq::<(A, B)>::empty();
    let front = ops.take(cap as int);
    let back = ops.skip(cap as int);
    let last = ops[cap as int];
    assert(ops =~= front + back);
    lemma_run_puts_concat(e, cap, front, back);
    assert(e + front =~= front);
    assert(distinct_keys(e + front));
    lemma_fill_fresh(e, cap, front);
    assert(run_puts(e, cap, front) == front);
    assert(back.len() == 1 && back[0] == last);
    let f = spec_put(front, cap, last.0, last.1);
    assert(run_puts(front, cap, back) == run_puts(f, cap, back.drop_first()));
    assert(back.drop_first() =~= Seq::<(A, B)>::empty());
    assert(run_puts(f, cap, Seq::<(A, B)>::empty()) == f);
    assert(!has_key(front, last.0)) by {
        if has_key(front, last.0) {
            let j = choose|j: int| 0 <= j < front.len() && front[j].0 == last.0;
            assert(ops[j] == front[j]);
        }
    }
    assert(front.len() == cap);
    assert(f == front.drop_first().push((last.0, last.1)));
    assert forall|j: int| 0 <= j < f.len() implies f[j].0 != ops[0].0 by {
        if j < f.len() - 1 {
            assert(f[j] == front[j + 1]);
            assert(ops[j + 1] == front[j + 1]);
        } else {
            assert(f[j].0 == last.0);
        }
    }
    assert(distinct_keys(front));
    lemma_spec_put_wf(front, cap, last.0, last.1);
    assert forall|i: int| 1 <= i < ops.len() implies spec_lookup(f, ops[i].0) == Some(
        ops[i].1,
    ) by {
        if i < cap {
            assert(f[i - 1] == front[i]);
            assert(front[i] == ops[i]);
            lemma_key_index_unique(f, ops[i].0, i - 1);
        } else {
            assert(f[f.len() - 1] == (last.0, last.1));
            lemma_key_index_unique(f, ops[i].0, f.len() - 1);
        }
    }
}

/// With capacity 2: put `a`, put `b`, read `a`, put `c`.  The read promoted
/// `a`, so the final put evicts `b`, and both `a` and `c` keep their values.
pub proof fn lemma_promotion_on_read<A, B>(a: A, b: A, c: A, va: B, vb: B, vc: B)
    requires
        a != b,
        a != c,
        b != c,
    ensures
        ({
            let s1 = spec_put(Seq::<(A, B)>::empty(), 2, a, va);
            let s2 = spec_put(s1, 2, b, vb);
            let s3 = spec_promote(s2, a);
            let s4 = spec_put(s3, 2, c, vc);
            &&& !has_key(s4, b)
            &&& spec_lookup(s4, a) == Some(va)
            &&& spec_lookup(s4, c) == Some(vc)
        }),
{
    let e = Seq::<(A, B)>::empty();
    let s1 = spec_put(e, 2, a, va);
    assert(s1 =~= seq![(a, va)]);
    let s2 = spec_put(s1, 2, b, vb);
    assert(!has_key(s1, b));
    assert(s2 =~= seq![(a, va), (b, vb)]);
    let s3 = spec_promote(s2, a);
    assert(has_key(s2, a));
    assert(distinct_keys(s2));
    lemma_key_index_unique(s2, a, 0);
    assert(s3 =~= seq![(b, vb), (a, va)]);
    let s4 = spec_put(s3, 2, c, vc);
    assert(!has_key(s3, c));
    assert(s4 =~= seq![(a, va), (c, vc)]);
    assert(distinct_keys(s4));
    lemma_key_index_unique(s4, a, 0);
    lemma_key_index_unique(s4, c, 1);
    assert forall|i: int| 0 <= i < s4.len() implies s4[i].0 != b by {}
}

/// With capacity 2: put `a`, put `b`, then put `a` again with a new value.
/// The update refreshed `a`'s recency without growing the cache, so a fourth
/// put of a fresh key `c` evicts `b`, and `a` still holds its second value.
pub proof fn lemma_update_resets_recency<A, B>(a: A, b: A, c: A, va1: B, vb: B, va2: B, vc: B)
    requires
        a != b,
        a != c,
        b != c,
    ensures
        ({
            let s1 = spec_put(Seq::<(A, B)>::empty(), 2, a, va1);
            let s2 = spec_put(s1, 2, b, vb);
            let s3 = spec_put(s2, 2, a, va2);
            let s4 = spec_put(s3, 2, c, vc);
            &&& s3.len() == 2
            &&& !has_key(s4, b)
            &&& spec_lookup(s4, a) == Some(va2)
            &&& spec_lookup(s4, c) == Some(vc)
        }),
{
    let e = Seq::<(A, B)>::empty();
    let s1 = spec_put(e, 2, a, va1);
    assert(s1 =~= seq![(a, va1)]);
    let s2 = spec_put(s1, 2, b, vb);
    assert(!has_key(s1, b));
    assert(s2 =~= seq![(a, va1), (b, vb)]);
    let s3 = spec_put(s2, 2, a, va2);
    assert(has_key(s2, a));
    assert(distinct_keys(s2));
    lemma_key_index_unique(s2, a, 0);
    assert(s3 =~= seq![(b, vb), (a, va2)]);
    let s4 = spec_put(s3, 2, c, vc);
    assert(!has_key(s3, c));
    assert(s4 =~= seq![(a, va2), (c, vc)]);
    assert(distinct_keys(s4));
    lemma_key_index_unique(s4, a, 0);
    lemma_key_index_unique(s4, c, 1);
    assert forall|i: int| 0 <= i < s4.len() implies s4[i].0 != b by {}
}

/// Rendering an entry and splitting the line again gives the entry back,
/// provided key and value are free of tabs and newlines.
pub proof fn lemma_line_round_trip(k: Seq<u8>, v: Seq<u8>)
    requires
        valid_field(k),
        valid_field(v),
    ensures
        line_fields(render_line_spec(k, v)) == Some((k, v)),
{
    let l = render_line_spec(k, v);
    let kn = k.len() as int;
    assert(l.len() == k.len() + 1 + v.len());
    assert(l[kn] == FIELD_SEPARATOR);
    assert forall|j: int| 0 <= j < l.len() && j != kn implies l[j] != FIELD_SEPARATOR by {
        if j < kn {
            assert(l[j] == k[j]);
        } else {
            assert(l[j] == v[j - kn - 1]);
        }
    }
    assert(sole_separator(l, kn));
    let c = separator_at(l);
    assert(sole_separator(l, c));
    lemma_sole_separator_unique(l, c, kn);
    assert(l.take(kn) =~= k);
    assert(l.skip(kn + 1) =~= v);
}

/// A malformed line anywhere in the input changes nothing: loading skips it
/// and keeps every well-formed entry.
pub proof fn lemma_malformed_line_skipped(lines: Seq<Seq<u8>>, i: int, bad: Seq<u8>)
    requires
        0 <= i <= lines.len(),
        line_fields(bad) is None,
    ensures
        parse_lines_spec(lines.insert(i, bad)) == parse_lines_spec(lines),
{
    let front = lines.take(i);
    let back = lines.skip(i);
    assert(lines.insert(i, bad) =~= (front + seq![bad]) + back);
    lemma_parse_lines_concat(front + seq![bad], back);
    lemma_parse_lines_concat(front, seq![bad]);
    lemma_parse_single(bad);
    lemma_parse_lines_concat(front, back);
    assert(front + back =~= lines);
    assert(parse_lines_spec(front) + Seq::<(Seq<u8>, Seq<u8>)>::empty() =~= parse_lines_spec(
        front,
    ));
}

/// The entries rendered as lines parse back to exactly those entries.
pub proof fn lemma_parse_rendered(es: Seq<(Seq<u8>, Seq<u8>)>)
    requires
        forall|i: int|
            0 <= i < es.len() ==> valid_field(#[trigger] es[i].0) && valid_field(es[i].1),
    ensures
        parse_lines_spec(es.map_values(|p: (Seq<u8>, Seq<u8>)| render_line_spec(p.0, p.1)))
            == es,
    decreases es.len(),
{
    let f = |p: (Seq<u8>, Seq<u8>)| render_line_spec(p.0, p.1);
    let lines = es.map_values(f);
    if es.len() == 0 {
        assert(lines =~= Seq::<Seq<u8>>::empty());
    } else {
        assert(lines =~= seq![f(es[0])] + es.drop_first().map_values(f));
        lemma_parse_lines_concat(seq![f(es[0])], es.drop_first().map_values(f));
        lemma_parse_single(f(es[0]));
        lemma_line_round_trip(es[0].0, es[0].1);
        assert(es[0] == (es[0].0, es[0].1));
        lemma_parse_rendered(es.drop_first());
        assert(seq![es[0]] + es.drop_first() =~= es);
    }
}

/// Saving a well-formed cache and loading what was written reproduces its
/// contents exactly: every line parses back to its entry, and replaying the
/// entries in order through `put` — as loading does — rebuilds the same
/// state whenever the capacity has room for them.
pub proof fn lemma_save_load_round_trip(es: Seq<(Seq<u8>, Seq<u8>)>, cap: nat)
    requires
        distinct_keys(es),
        es.len() <= cap,
        forall|i: int|
            0 <= i < es.len() ==> valid_field(#[trigger] es[i].0) && valid_field(es[i].1),
    ensures
        parse_lines_spec(es.map_values(|p: (Seq<u8>, Seq<u8>)| render_line_spec(p.0, p.1)))
            == es,
        run_puts(Seq::<(Seq<u8>, Seq<u8>)>::empty(), cap, es) == es,
{
    lemma_parse_rendered(es);
    let e = Seq::<(Seq<u8>, Seq<u8>)>::empty();
    assert(e + es =~= es);
    lemma_fill_fresh(e, cap, es);
}

} // verus!
