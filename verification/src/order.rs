//! Stable ordering of records by keys.
//!
//! A key is a sequence of integers; keys are compared entry by entry, and a key that
//! another one continues comes first.

use vstd::prelude::*;

verus! {

/// Whether key `a` comes strictly before key `b`.
pub open spec fn key_lt(a: Seq<i128>, b: Seq<i128>) -> bool
    decreases a.len(),
{
    if b.len() == 0 {
        false
    } else if a.len() == 0 {
        true
    } else if a[0] != b[0] {
        a[0] < b[0]
    } else {
        key_lt(a.drop_first(), b.drop_first())
    }
}

/// Whether record `x` stands before record `y`: by key, and by position where the keys
/// are the same.
pub open spec fn record_before(keys: Seq<Seq<i128>>, x: int, y: int) -> bool {
    key_lt(keys[x], keys[y]) || (keys[x] == keys[y] && x < y)
}

/// Whether `p` lists each of the `n` records once.
pub open spec fn lists_all(p: Seq<usize>, n: int) -> bool {
    &&& p.len() == n
    &&& p.no_duplicates()
    &&& forall|i: int| 0 <= i < p.len() ==> 0 <= #[trigger] p[i] < n
}

/// Whether `p` lists the records of `keys` in order.
pub open spec fn ordered_by(p: Seq<usize>, keys: Seq<Seq<i128>>) -> bool {
    &&& lists_all(p, keys.len() as int)
    &&& forall|a: int, b: int|
        0 <= a < b < p.len() ==> record_before(keys, #[trigger] p[a] as int, #[trigger] p[b] as int)
}

/// A listing of all records has each of them somewhere.
pub proof fn lemma_lists_all(p: Seq<usize>, n: int, k: int)
    requires
        lists_all(p, n),
        0 <= k < n,
    ensures
        exists|i: int| 0 <= i < p.len() && #[trigger] p[i] == k,
{
    let s = p.map_values(|x: usize| x as int);
    assert(s.no_duplicates()) by {
        assert forall|i: int, j: int| 0 <= i < s.len() && 0 <= j < s.len() && i != j implies s[i]
            != s[j] by {
            assert(p[i] != p[j]);
        }
    }
    s.unique_seq_to_set();
    let all = vstd::set_lib::set_int_range(0, n);
    vstd::set_lib::lemma_int_range(0, n);
    assert(s.to_set().subset_of(all)) by {
        assert forall|x: int| s.to_set().contains(x) implies all.contains(x) by {
            let i = choose|i: int| 0 <= i < s.len() && s[i] == x;
            assert(p[i] == x);
        }
    }
    vstd::set_lib::lemma_subset_equality(s.to_set(), all);
    assert(all.contains(k));
    let i = choose|i: int| 0 <= i < s.len() && s[i] == k;
    assert(p[i] == k);
}

/// No key comes before itself.
pub proof fn lemma_key_irreflexive(a: Seq<i128>)
    ensures
        !key_lt(a, a),
    decreases a.len(),
{
    if a.len() > 0 {
        lemma_key_irreflexive(a.drop_first());
    }
}

/// The order of keys is transitive.
pub proof fn lemma_key_transitive(a: Seq<i128>, b: Seq<i128>, c: Seq<i128>)
    requires
        key_lt(a, b),
        key_lt(b, c),
    ensures
        key_lt(a, c),
    decreases a.len(),
{
    if a.len() > 0 && a[0] == b[0] && b[0] == c[0] {
        lemma_key_transitive(a.drop_first(), b.drop_first(), c.drop_first());
    }
}

/// Of two different keys one comes first.
pub proof fn lemma_key_total(a: Seq<i128>, b: Seq<i128>)
    ensures
        key_lt(a, b) || key_lt(b, a) || a == b,
    decreases a.len(),
{
    if a.len() == 0 || b.len() == 0 {
        if a.len() == b.len() {
            assert(a =~= b);
        }
    } else if a[0] == b[0] {
        lemma_key_total(a.drop_first(), b.drop_first());
        if a.drop_first() == b.drop_first() {
            assert(a =~= seq![a[0]] + a.drop_first());
            assert(b =~= seq![b[0]] + b.drop_first());
        }
    }
}

/// Whether key `a` comes strictly before key `b`.
pub fn key_before(a: &[i128], b: &[i128]) -> (r: bool)
    ensures
        r == key_lt(a@, b@),
{
    let mut i: usize = 0;
    assert(a@.skip(0) =~= a@);
    assert(b@.skip(0) =~= b@);
    while i < a.len() && i < b.len()
        invariant
            i <= a@.len(),
            i <= b@.len(),
            key_lt(a@, b@) == key_lt(a@.skip(i as int), b@.skip(i as int)),
        decreases a@.len() - i,
    {
        if a[i] != b[i] {
            return a[i] < b[i];
        }
        assert(a@.skip(i as int).drop_first() =~= a@.skip(i + 1));
        assert(b@.skip(i as int).drop_first() =~= b@.skip(i + 1));
        i += 1;
    }
    i < b.len()
}

/// The keys of a vector of keys.
pub open spec fn key_seqs(keys: Seq<Vec<i128>>) -> Seq<Seq<i128>> {
    keys.map_values(|k: Vec<i128>| k@)
}

/// The positions of the records in the order of their keys; equal keys keep their order.
pub fn stable_order(keys: &Vec<Vec<i128>>) -> (p: Vec<usize>)
    ensures
        ordered_by(p@, key_seqs(keys@)),
{
    let ghost ks = key_seqs(keys@);
    let mut p: Vec<usize> = Vec::new();
    let mut i: usize = 0;
    while i < keys.len()
        invariant
            i <= keys@.len(),
            ks == key_seqs(keys@),
            lists_all(p@, i as int),
            forall|a: int, b: int|
                0 <= a < b < p@.len() ==> record_before(
                    ks,
                    #[trigger] p@[a] as int,
                    #[trigger] p@[b] as int,
                ),
        decreases keys@.len() - i,
    {
        let mut j: usize = i;
        while j > 0 && key_before(&keys[i], &keys[p[j - 1]])
            invariant
                j <= i < keys@.len(),
                ks == key_seqs(keys@),
                lists_all(p@, i as int),
                forall|m: int| j <= m < i ==> key_lt(ks[i as int], ks[#[trigger] p@[m] as int]),
            decreases j,
        {
            j -= 1;
        }
        let ghost q = p@;
        p.insert(j, i);
        proof {
            assert forall|a: int, b: int| 0 <= a < b < p@.len() implies record_before(
                ks,
                #[trigger] p@[a] as int,
                #[trigger] p@[b] as int,
            ) by {
                let a0 = if a < j {
                    a
                } else {
                    a - 1
                };
                let b0 = if b < j {
                    b
                } else {
                    b - 1
                };
                if a != j && b != j {
                    assert(p@[a] == q[a0] && p@[b] == q[b0]);
                } else if a == j {
                    assert(p@[b] == q[b0]);
                } else {
                    assert(p@[a] == q[a]);
                    let last = q[j - 1] as int;
                    lemma_key_total(ks[i as int], ks[last]);
                    assert(record_before(ks, last, i as int));
                    if a < j - 1 {
                        assert(record_before(ks, q[a] as int, q[j - 1] as int));
                        if key_lt(ks[q[a] as int], ks[last]) && key_lt(ks[last], ks[i as int]) {
                            lemma_key_transitive(ks[q[a] as int], ks[last], ks[i as int]);
                        }
                    }
                }
            }
            assert(p@.no_duplicates()) by {
                assert forall|a: int, b: int|
                    0 <= a < p@.len() && 0 <= b < p@.len() && a != b implies p@[a] != p@[b] by {
                    let a0 = if a < j {
                        a
                    } else {
                        a - 1
                    };
                    let b0 = if b < j {
                        b
                    } else {
                        b - 1
                    };
                    if a != j {
                        assert(p@[a] == q[a0]);
                    }
                    if b != j {
                        assert(p@[b] == q[b0]);
                    }
                }
            }
            assert forall|m: int| 0 <= m < p@.len() implies 0 <= #[trigger] p@[m] < i + 1 by {
                let m0 = if m < j {
                    m
                } else {
                    m - 1
                };
                if m != j {
                    assert(p@[m] == q[m0]);
                }
            }
        }
        i += 1;
    }
    p
}

/// Two lists of the same numbers, both strictly in order, are the same list.
pub proof fn lemma_sorted_unique(p: Seq<int>, q: Seq<int>, lt: spec_fn(int, int) -> bool)
    requires
        forall|i: int| !#[trigger] lt(i, i),
        forall|i: int, j: int, k: int| #[trigger] lt(i, j) && #[trigger] lt(j, k) ==> lt(i, k),
        forall|a: int, b: int| 0 <= a < b < p.len() ==> lt(#[trigger] p[a], #[trigger] p[b]),
        forall|a: int, b: int| 0 <= a < b < q.len() ==> lt(#[trigger] q[a], #[trigger] q[b]),
        forall|x: int| #[trigger] p.contains(x) <==> q.contains(x),
    ensures
        p == q,
    decreases p.len(),
{
    if p.len() == 0 {
        if q.len() > 0 {
            assert(q.contains(q[0]));
            assert(p.contains(q[0]));
        }
        assert(p =~= q);
    } else {
        assert(p.contains(p[0]));
        assert(q.contains(p[0]));
        let x = p.last();
        assert(p[p.len() - 1] == x);
        assert(p.contains(x));
        let b = choose|b: int| 0 <= b < q.len() && q[b] == x;
        let y = q.last();
        assert(q[q.len() - 1] == y);
        assert(q.contains(y));
        assert(p.contains(y));
        let a = choose|a: int| 0 <= a < p.len() && p[a] == y;
        if x != y {
            assert(lt(q[b], q[q.len() - 1]));
            assert(lt(p[a], p[p.len() - 1]));
            assert(lt(x, y) && lt(y, x));
            assert(lt(x, x));
        }
        let pf = p.drop_last();
        let qf = q.drop_last();
        assert forall|v: int| #[trigger] pf.contains(v) <==> qf.contains(v) by {
            if pf.contains(v) {
                let k = choose|k: int| 0 <= k < pf.len() && pf[k] == v;
                assert(lt(p[k], p[p.len() - 1]));
                assert(p.contains(v));
                let m = choose|m: int| 0 <= m < q.len() && q[m] == v;
                assert(v != y);
                assert(qf[m] == v);
            }
            if qf.contains(v) {
                let k = choose|k: int| 0 <= k < qf.len() && qf[k] == v;
                assert(lt(q[k], q[q.len() - 1]));
                assert(q[k] == v);
                assert(q.contains(v));
                assert(p.contains(v));
                let m = choose|m: int| 0 <= m < p.len() && p[m] == v;
                assert(v != x);
                assert(pf[m] == v);
            }
        }
        assert forall|c: int, d: int| 0 <= c < d < pf.len() implies lt(
            #[trigger] pf[c],
            #[trigger] pf[d],
        ) by {
            assert(lt(p[c], p[d]));
        }
        assert forall|c: int, d: int| 0 <= c < d < qf.len() implies lt(
            #[trigger] qf[c],
            #[trigger] qf[d],
        ) by {
            assert(lt(q[c], q[d]));
        }
        lemma_sorted_unique(pf, qf, lt);
        assert(p =~= pf.push(x));
        assert(q =~= qf.push(y));
    }
}

/// The order of records is fixed by their keys and positions.
pub proof fn law_order_is_unique(p: Seq<usize>, q: Seq<usize>, keys: Seq<Seq<i128>>)
    requires
        ordered_by(p, keys),
        ordered_by(q, keys),
    ensures
        p == q,
{
    let pi = p.map_values(|x: usize| x as int);
    let qi = q.map_values(|x: usize| x as int);
    let lt = |x: int, y: int| record_before(keys, x, y);
    assert forall|x: int| !#[trigger] lt(x, x) by {
        lemma_key_irreflexive(keys[x]);
    }
    assert forall|x: int, y: int, z: int| #[trigger] lt(x, y) && #[trigger] lt(y, z) implies lt(
        x,
        z,
    ) by {
        if key_lt(keys[x], keys[y]) && key_lt(keys[y], keys[z]) {
            lemma_key_transitive(keys[x], keys[y], keys[z]);
        }
    }
    assert forall|a: int, b: int| 0 <= a < b < pi.len() implies lt(
        #[trigger] pi[a],
        #[trigger] pi[b],
    ) by {
        assert(record_before(keys, p[a] as int, p[b] as int));
    }
    assert forall|a: int, b: int| 0 <= a < b < qi.len() implies lt(
        #[trigger] qi[a],
        #[trigger] qi[b],
    ) by {
        assert(record_before(keys, q[a] as int, q[b] as int));
    }
    assert forall|x: int| #[trigger] pi.contains(x) <==> qi.contains(x) by {
        if pi.contains(x) {
            let a = choose|a: int| 0 <= a < pi.len() && pi[a] == x;
            assert(0 <= p[a] < keys.len());
            lemma_lists_all(q, keys.len() as int, x);
            let b = choose|b: int| 0 <= b < q.len() && #[trigger] q[b] == x;
            assert(qi[b] == x);
        }
        if qi.contains(x) {
            let a = choose|a: int| 0 <= a < qi.len() && qi[a] == x;
            assert(0 <= q[a] < keys.len());
            lemma_lists_all(p, keys.len() as int, x);
            let b = choose|b: int| 0 <= b < p.len() && #[trigger] p[b] == x;
            assert(pi[b] == x);
        }
    }
    lemma_sorted_unique(pi, qi, lt);
    assert forall|a: int| 0 <= a < p.len() implies p[a] == q[a] by {
        assert(pi[a] == qi[a]);
    }
    assert(p =~= q);
}

/// The first difference decides which of two keys comes first; the beginning of a key comes
/// before the key.
pub proof fn law_key_order(p: Seq<i128>, x: i128, a: Seq<i128>, y: i128, b: Seq<i128>)
    requires
        x != y,
    ensures
        key_lt(p.push(x) + a, p.push(y) + b) == (x < y),
        key_lt(p, p.push(x) + a),
        !key_lt(p.push(x) + a, p),
        !key_lt(p, p),
    decreases p.len(),
{
    if p.len() > 0 {
        let q = p.drop_first();
        law_key_order(q, x, a, y, b);
        assert((p.push(x) + a).drop_first() =~= q.push(x) + a);
        assert((p.push(y) + b).drop_first() =~= q.push(y) + b);
        assert((p.push(x) + a)[0] == p[0] && (p.push(y) + b)[0] == p[0]);
    } else {
        assert((p.push(x) + a)[0] == x && (p.push(y) + b)[0] == y);
    }
}

/// An order of records lists every record once, none before one with a lower key, and those
/// with the same key as they stood.
pub proof fn law_order_lists_all(p: Seq<usize>, keys: Seq<Seq<i128>>)
    requires
        ordered_by(p, keys),
    ensures
        p.len() == keys.len(),
        p.no_duplicates(),
        forall|k: int| 0 <= k < keys.len() ==> p.contains(#[trigger] (k as usize)),
        forall|a: int, b: int|
            0 <= a < b < p.len() ==> !key_lt(keys[#[trigger] p[b] as int], keys[#[trigger] p[a] as int]),
        forall|a: int, b: int|
            0 <= a < b < p.len() && keys[#[trigger] p[a] as int] == keys[#[trigger] p[b] as int]
                ==> p[a] < p[b],
{
    assert forall|k: int| 0 <= k < keys.len() implies p.contains(#[trigger] (k as usize)) by {
        lemma_lists_all(p, keys.len() as int, k);
        let i = choose|i: int| 0 <= i < p.len() && #[trigger] p[i] == k;
        assert(p[i] == k as usize);
    }
    assert forall|a: int, b: int| 0 <= a < b < p.len() implies !key_lt(
        keys[#[trigger] p[b] as int],
        keys[#[trigger] p[a] as int],
    ) by {
        let x = keys[p[a] as int];
        let y = keys[p[b] as int];
        assert(record_before(keys, p[a] as int, p[b] as int));
        if key_lt(y, x) {
            if key_lt(x, y) {
                lemma_key_transitive(x, y, x);
            }
            lemma_key_irreflexive(x);
        }
    }
    assert forall|a: int, b: int|
        0 <= a < b < p.len() && keys[#[trigger] p[a] as int] == keys[#[trigger] p[b] as int] implies p[a]
        < p[b] by {
        assert(record_before(keys, p[a] as int, p[b] as int));
        lemma_key_irreflexive(keys[p[a] as int]);
    }
}

} // verus!
