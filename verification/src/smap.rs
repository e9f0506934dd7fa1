use vstd::prelude::*;

use crate::text::{lex_lt, lemma_lex_trichotomy, lemma_lex_trans, str_cmp, str_eq, StrCmp};

verus! {

// Association sequences sorted by key are the mathematical model of every
// string-keyed map in this crate: keys strictly increase in lexicographic
// order, so a map's content determines its representation and a plain
// left-to-right traversal visits keys alphabetically.

/// Keys strictly increase in lexicographic order.
pub open spec fn map_sorted<V>(m: Seq<(Seq<char>, V)>) -> bool {
    forall|i: int, j: int| 0 <= i < j < m.len() ==> lex_lt(m[i].0, m[j].0)
}

pub open spec fn map_has<V>(m: Seq<(Seq<char>, V)>, k: Seq<char>) -> bool {
    exists|i: int| 0 <= i < m.len() && m[i].0 == k
}

/// The value bound to `k`, if any: the first binding from the left.
pub open spec fn map_get<V>(m: Seq<(Seq<char>, V)>, k: Seq<char>) -> Option<V>
    decreases m.len(),
{
    if m.len() == 0 {
        None
    } else if m[0].0 == k {
        Some(m[0].1)
    } else {
        map_get(m.drop_first(), k)
    }
}

/// Insertion at the sorted position; an existing binding of the same key
/// is replaced.
pub open spec fn minsert<V>(m: Seq<(Seq<char>, V)>, k: Seq<char>, v: V) -> Seq<(Seq<char>, V)>
    decreases m.len(),
{
    if m.len() == 0 {
        seq![(k, v)]
    } else if lex_lt(k, m[0].0) {
        seq![(k, v)] + m
    } else if k == m[0].0 {
        seq![(k, v)] + m.drop_first()
    } else {
        seq![m[0]] + minsert(m.drop_first(), k, v)
    }
}

/// Maps the values of an association sequence, keeping the keys.
pub open spec fn vmap_vals<V, W>(m: Seq<(Seq<char>, V)>, f: spec_fn(V) -> W) -> Seq<
    (Seq<char>, W),
> {
    m.map_values(|p: (Seq<char>, V)| (p.0, f(p.1)))
}

pub proof fn lemma_map_get_has<V>(m: Seq<(Seq<char>, V)>, k: Seq<char>)
    ensures
        map_get(m, k) is Some <==> map_has(m, k),
    decreases m.len(),
{
    if m.len() == 0 {
    } else if m[0].0 == k {
        assert(map_has(m, k));
    } else {
        lemma_map_get_has(m.drop_first(), k);
        if map_has(m, k) {
            let i = choose|i: int| 0 <= i < m.len() && m[i].0 == k;
            assert(m.drop_first()[i - 1].0 == k);
            assert(map_has(m.drop_first(), k));
        }
        if map_has(m.drop_first(), k) {
            let i = choose|i: int| 0 <= i < m.drop_first().len() && m.drop_first()[i].0 == k;
            assert(m[i + 1].0 == k);
        }
    }
}

/// Where the scan for the sorted position stopped determines what
/// `minsert` is concretely: a replacement if the key was found, an
/// insertion just before the first key not below `k` otherwise.
pub proof fn lemma_minsert_at<V>(m: Seq<(Seq<char>, V)>, k: Seq<char>, v: V, p: int)
    requires
        0 <= p <= m.len(),
        forall|j: int| 0 <= j < p ==> lex_lt(#[trigger] m[j].0, k),
    ensures
        p < m.len() && m[p].0 == k ==> minsert(m, k, v) == m.update(p, (k, v)),
        p < m.len() && lex_lt(k, m[p].0) ==> minsert(m, k, v) == m.insert(p, (k, v)),
        p == m.len() ==> minsert(m, k, v) == m.push((k, v)),
    decreases m.len(),
{
    if m.len() == 0 {
        assert(minsert(m, k, v) =~= m.push((k, v)));
    } else if p == 0 {
        if m[0].0 == k {
            lemma_lex_trichotomy(k, m[0].0);
            assert(minsert(m, k, v) =~= m.update(0, (k, v)));
        } else if lex_lt(k, m[0].0) {
            assert(minsert(m, k, v) =~= m.insert(0, (k, v)));
        }
    } else {
        lemma_lex_trichotomy(k, m[0].0);
        assert(lex_lt(m[0].0, k));
        let md = m.drop_first();
        assert(forall|j: int| 0 <= j < p - 1 ==> lex_lt(#[trigger] md[j].0, k));
        lemma_minsert_at(md, k, v, p - 1);
        if p < m.len() && m[p].0 == k {
            assert(md[p - 1].0 == k);
            assert(minsert(m, k, v) =~= m.update(p, (k, v)));
        } else if p < m.len() && lex_lt(k, m[p].0) {
            assert(md[p - 1].0 == m[p].0);
            assert(minsert(m, k, v) =~= m.insert(p, (k, v)));
        } else if p == m.len() {
            assert(minsert(m, k, v) =~= m.push((k, v)));
        }
    }
}

/// Insertion keeps the keys sorted, binds `k` to `v`, and leaves every
/// other binding alone.
pub proof fn lemma_minsert_sorted<V>(m: Seq<(Seq<char>, V)>, k: Seq<char>, v: V)
    requires
        map_sorted(m),
    ensures
        map_sorted(minsert(m, k, v)),
        map_get(minsert(m, k, v), k) == Some(v),
        forall|k2: Seq<char>| k2 != k ==> map_get(minsert(m, k, v), k2) == map_get(m, k2),
        forall|k2: Seq<char>| map_has(minsert(m, k, v), k2) <==> (k2 == k || map_has(m, k2)),
    decreases m.len(),
{
    let r = minsert(m, k, v);
    let empty = Seq::<(Seq<char>, V)>::empty();
    if m.len() == 0 {
        assert forall|k2: Seq<char>| k2 != k implies map_get(r, k2) == map_get(m, k2) by {
            assert(r.drop_first() =~= empty);
            assert(map_get(empty, k2) is None);
        }
        assert forall|k2: Seq<char>| map_has(r, k2) implies (k2 == k || map_has(m, k2)) by {
            let i = choose|i: int| 0 <= i < r.len() && r[i].0 == k2;
        }
        assert(r[0].0 == k);
    } else if lex_lt(k, m[0].0) {
        assert(r == seq![(k, v)] + m);
        assert(r.drop_first() =~= m);
        assert forall|i: int, j: int| 0 <= i < j < r.len() implies lex_lt(r[i].0, r[j].0) by {
            if i == 0 {
                if j > 1 {
                    lemma_lex_trans(k, m[0].0, m[j - 1].0);
                }
            }
        }
        assert(r[0].0 == k);
        assert forall|k2: Seq<char>| map_has(r, k2) implies (k2 == k || map_has(m, k2)) by {
            let i = choose|i: int| 0 <= i < r.len() && r[i].0 == k2;
            if i > 0 {
                assert(m[i - 1].0 == k2);
            }
        }
        assert forall|k2: Seq<char>| (k2 == k || map_has(m, k2)) implies map_has(r, k2) by {
            if k2 == k {
                assert(r[0].0 == k2);
            } else {
                let i = choose|i: int| 0 <= i < m.len() && m[i].0 == k2;
                assert(r[i + 1].0 == k2);
            }
        }
    } else if k == m[0].0 {
        assert(r == seq![(k, v)] + m.drop_first());
        assert(r.drop_first() =~= m.drop_first());
        assert forall|i: int, j: int| 0 <= i < j < r.len() implies lex_lt(r[i].0, r[j].0) by {
            if i == 0 {
                assert(r[j].0 == m[j].0);
            }
        }
        assert(r[0].0 == k);
        assert forall|k2: Seq<char>| k2 != k implies map_get(r, k2) == map_get(m, k2) by {
            assert(map_get(r, k2) == map_get(m.drop_first(), k2));
            assert(map_get(m, k2) == map_get(m.drop_first(), k2));
        }
        assert forall|k2: Seq<char>| map_has(r, k2) implies (k2 == k || map_has(m, k2)) by {
            let i = choose|i: int| 0 <= i < r.len() && r[i].0 == k2;
            if i > 0 {
                assert(m[i].0 == k2);
            }
        }
        assert forall|k2: Seq<char>| (k2 == k || map_has(m, k2)) implies map_has(r, k2) by {
            if k2 == k {
                assert(r[0].0 == k);
            } else {
                let i = choose|i: int| 0 <= i < m.len() && m[i].0 == k2;
                assert(i > 0);
                assert(r[i].0 == k2);
            }
        }
    } else {
        lemma_lex_trichotomy(k, m[0].0);
        assert(lex_lt(m[0].0, k));
        let md = m.drop_first();
        assert(map_sorted(md)) by {
            assert forall|i: int, j: int| 0 <= i < j < md.len() implies lex_lt(md[i].0, md[j].0)
                by {
                assert(md[i] == m[i + 1] && md[j] == m[j + 1]);
            }
        }
        lemma_minsert_sorted(md, k, v);
        let rd = minsert(md, k, v);
        assert(r == seq![m[0]] + rd);
        assert(r.drop_first() =~= rd);
        assert(r[0] == m[0]);
        assert(map_sorted(r)) by {
            assert forall|i: int, j: int| 0 <= i < j < r.len() implies lex_lt(r[i].0, r[j].0) by {
                if i == 0 {
                    assert(r[j].0 == rd[j - 1].0);
                    assert(map_has(rd, rd[j - 1].0));
                    if rd[j - 1].0 == k {
                    } else {
                        assert(map_has(md, rd[j - 1].0));
                        let t = choose|t: int| 0 <= t < md.len() && md[t].0 == rd[j - 1].0;
                        assert(md[t] == m[t + 1]);
                        assert(lex_lt(m[0].0, m[t + 1].0));
                    }
                } else {
                    assert(r[i].0 == rd[i - 1].0 && r[j].0 == rd[j - 1].0);
                }
            }
        }
        assert(r[0].0 == m[0].0 && m[0].0 != k);
        assert(map_get(r, k) == map_get(rd, k));
        assert forall|k2: Seq<char>| k2 != k implies map_get(r, k2) == map_get(m, k2) by {
            if m[0].0 == k2 {
                assert(map_get(r, k2) == Some(r[0].1));
                assert(map_get(m, k2) == Some(m[0].1));
            } else {
                assert(map_get(r, k2) == map_get(rd, k2));
                assert(map_get(m, k2) == map_get(md, k2));
                assert(map_get(minsert(md, k, v), k2) == map_get(md, k2));
            }
        }
        assert forall|k2: Seq<char>| map_has(r, k2) implies (k2 == k || map_has(m, k2)) by {
            let i = choose|i: int| 0 <= i < r.len() && r[i].0 == k2;
            if i == 0 {
                assert(m[0].0 == k2);
            } else {
                assert(rd[i - 1].0 == k2);
                assert(map_has(rd, k2));
                if k2 != k {
                    assert(map_has(md, k2));
                    let t = choose|t: int| 0 <= t < md.len() && md[t].0 == k2;
                    assert(m[t + 1].0 == k2);
                }
            }
        }
        assert forall|k2: Seq<char>| (k2 == k || map_has(m, k2)) implies map_has(r, k2) by {
            if k2 == k || (map_has(m, k2) && m[0].0 != k2) {
                if k2 != k {
                    let i = choose|i: int| 0 <= i < m.len() && m[i].0 == k2;
                    assert(i > 0);
                    assert(md[i - 1].0 == k2);
                    assert(map_has(md, k2));
                    lemma_map_get_has(md, k2);
                    assert(map_get(minsert(md, k, v), k2) == map_get(md, k2));
                } else {
                    assert(map_get(minsert(md, k, v), k2) == Some(v));
                }
                lemma_map_get_has(minsert(md, k, v), k2);
                assert(map_has(minsert(md, k, v), k2));
                let t = choose|t: int| 0 <= t < rd.len() && rd[t].0 == k2;
                assert(r[t + 1].0 == k2);
            } else {
                assert(r[0].0 == k2);
            }
        }
    }
}

/// Mapping the values commutes with insertion.
pub proof fn lemma_vmap_vals_minsert<V, W>(
    m: Seq<(Seq<char>, V)>,
    k: Seq<char>,
    v: V,
    f: spec_fn(V) -> W,
)
    ensures
        vmap_vals(minsert(m, k, v), f) == minsert(vmap_vals(m, f), k, f(v)),
    decreases m.len(),
{
    if m.len() == 0 {
        assert(vmap_vals(minsert(m, k, v), f) =~= minsert(vmap_vals(m, f), k, f(v)));
    } else if lex_lt(k, m[0].0) || k == m[0].0 {
        assert(vmap_vals(m, f)[0] == (m[0].0, f(m[0].1)));
        assert(vmap_vals(m, f).drop_first() =~= vmap_vals(m.drop_first(), f));
        assert(vmap_vals(minsert(m, k, v), f) =~= minsert(vmap_vals(m, f), k, f(v)));
    } else {
        lemma_vmap_vals_minsert(m.drop_first(), k, v, f);
        assert(vmap_vals(m, f)[0] == (m[0].0, f(m[0].1)));
        assert(vmap_vals(m, f).drop_first() =~= vmap_vals(m.drop_first(), f));
        assert(vmap_vals(minsert(m, k, v), f) =~= minsert(vmap_vals(m, f), k, f(v)));
    }
}

// Sorted string sets: the same model without values.

pub open spec fn set_sorted(s: Seq<Seq<char>>) -> bool {
    forall|i: int, j: int| 0 <= i < j < s.len() ==> lex_lt(s[i], s[j])
}

pub open spec fn set_has(s: Seq<Seq<char>>, k: Seq<char>) -> bool {
    exists|i: int| 0 <= i < s.len() && s[i] == k
}

/// Insertion at the sorted position; inserting a member changes nothing.
pub open spec fn sinsert(s: Seq<Seq<char>>, k: Seq<char>) -> Seq<Seq<char>>
    decreases s.len(),
{
    if s.len() == 0 {
        seq![k]
    } else if lex_lt(k, s[0]) {
        seq![k] + s
    } else if k == s[0] {
        s
    } else {
        seq![s[0]] + sinsert(s.drop_first(), k)
    }
}

pub proof fn lemma_sinsert_at(s: Seq<Seq<char>>, k: Seq<char>, p: int)
    requires
        0 <= p <= s.len(),
        forall|j: int| 0 <= j < p ==> lex_lt(#[trigger] s[j], k),
    ensures
        p < s.len() && s[p] == k ==> sinsert(s, k) == s,
        p < s.len() && lex_lt(k, s[p]) ==> sinsert(s, k) == s.insert(p, k),
        p == s.len() ==> sinsert(s, k) == s.push(k),
    decreases s.len(),
{
    if s.len() == 0 {
        assert(sinsert(s, k) =~= s.push(k));
    } else if p == 0 {
        if s[0] == k {
            lemma_lex_trichotomy(k, s[0]);
        } else if lex_lt(k, s[0]) {
            assert(sinsert(s, k) =~= s.insert(0, k));
        }
    } else {
        lemma_lex_trichotomy(k, s[0]);
        assert(lex_lt(s[0], k));
        let sd = s.drop_first();
        assert(forall|j: int| 0 <= j < p - 1 ==> lex_lt(#[trigger] sd[j], k));
        lemma_sinsert_at(sd, k, p - 1);
        if p < s.len() && s[p] == k {
            assert(sd[p - 1] == k);
            assert(sinsert(s, k) =~= s);
        } else if p < s.len() && lex_lt(k, s[p]) {
            assert(sd[p - 1] == s[p]);
            assert(sinsert(s, k) =~= s.insert(p, k));
        } else if p == s.len() {
            assert(sinsert(s, k) =~= s.push(k));
        }
    }
}

/// Insertion keeps a sorted set sorted and adds exactly `k` to its members.
pub proof fn lemma_sinsert_sorted(s: Seq<Seq<char>>, k: Seq<char>)
    requires
        set_sorted(s),
    ensures
        set_sorted(sinsert(s, k)),
        forall|k2: Seq<char>| set_has(sinsert(s, k), k2) <==> (k2 == k || set_has(s, k2)),
        set_has(sinsert(s, k), k),
    decreases s.len(),
{
    let r = sinsert(s, k);
    if s.len() == 0 {
        assert(r[0] == k);
    } else if lex_lt(k, s[0]) {
        assert(r == seq![k] + s);
        assert forall|i: int, j: int| 0 <= i < j < r.len() implies lex_lt(r[i], r[j]) by {
            if i == 0 {
                if j > 1 {
                    lemma_lex_trans(k, s[0], s[j - 1]);
                }
            }
        }
        assert(r[0] == k);
        assert forall|k2: Seq<char>| set_has(r, k2) implies (k2 == k || set_has(s, k2)) by {
            let i = choose|i: int| 0 <= i < r.len() && r[i] == k2;
            if i > 0 {
                assert(s[i - 1] == k2);
            }
        }
        assert forall|k2: Seq<char>| (k2 == k || set_has(s, k2)) implies set_has(r, k2) by {
            if k2 == k {
                assert(r[0] == k2);
            } else {
                let i = choose|i: int| 0 <= i < s.len() && s[i] == k2;
                assert(r[i + 1] == k2);
            }
        }
    } else if k == s[0] {
        assert(r == s);
        assert(r[0] == k);
    } else {
        lemma_lex_trichotomy(k, s[0]);
        assert(lex_lt(s[0], k));
        let sd = s.drop_first();
        assert(set_sorted(sd)) by {
            assert forall|i: int, j: int| 0 <= i < j < sd.len() implies lex_lt(sd[i], sd[j]) by {
                assert(sd[i] == s[i + 1] && sd[j] == s[j + 1]);
            }
        }
        lemma_sinsert_sorted(sd, k);
        let rd = sinsert(sd, k);
        assert(r == seq![s[0]] + rd);
        assert(set_sorted(r)) by {
            assert forall|i: int, j: int| 0 <= i < j < r.len() implies lex_lt(r[i], r[j]) by {
                if i == 0 {
                    assert(r[j] == rd[j - 1]);
                    assert(set_has(rd, rd[j - 1]));
                    if rd[j - 1] == k {
                    } else {
                        assert(set_has(sd, rd[j - 1]));
                        let t = choose|t: int| 0 <= t < sd.len() && sd[t] == rd[j - 1];
                        assert(sd[t] == s[t + 1]);
                    }
                } else {
                    assert(r[i] == rd[i - 1] && r[j] == rd[j - 1]);
                }
            }
        }
        assert(set_has(rd, k));
        assert forall|k2: Seq<char>| set_has(r, k2) implies (k2 == k || set_has(s, k2)) by {
            let i = choose|i: int| 0 <= i < r.len() && r[i] == k2;
            if i == 0 {
                assert(s[0] == k2);
            } else {
                assert(rd[i - 1] == k2);
                assert(set_has(rd, k2));
                if k2 != k {
                    assert(set_has(sd, k2));
                    let t = choose|t: int| 0 <= t < sd.len() && sd[t] == k2;
                    assert(s[t + 1] == k2);
                }
            }
        }
        assert forall|k2: Seq<char>| (k2 == k || set_has(s, k2)) implies set_has(r, k2) by {
            if k2 == k || (set_has(s, k2) && s[0] != k2) {
                if k2 != k {
                    let i = choose|i: int| 0 <= i < s.len() && s[i] == k2;
                    assert(i > 0);
                    assert(sd[i - 1] == k2);
                    assert(set_has(sd, k2));
                }
                assert(set_has(rd, k2));
                let t = choose|t: int| 0 <= t < rd.len() && rd[t] == k2;
                assert(r[t + 1] == rd[t]);
                assert(r[t + 1] == k2);
            } else {
                assert(r[0] == k2);
            }
        }
        let t0 = choose|t: int| 0 <= t < rd.len() && rd[t] == k;
        assert(r[t0 + 1] == k);
    }
}

// Executable counterparts on vectors of owned strings.

/// The character sequences of a vector of strings.
pub open spec fn ss_view(s: Seq<String>) -> Seq<Seq<char>> {
    s.map_values(|x: String| x@)
}

/// The association sequence of a vector of key-value pairs.
pub open spec fn kv_view<V>(m: Seq<(String, V)>) -> Seq<(Seq<char>, V)> {
    m.map_values(|p: (String, V)| (p.0@, p.1))
}

/// Inserts `k` into a sorted vector of strings, keeping it a sorted set.
pub fn sset_insert(s: &mut Vec<String>, k: String)
    ensures
        ss_view(final(s)@) == sinsert(ss_view(old(s)@), k@),
{
    let mut p: usize = 0;
    loop
        invariant
            0 <= p <= s@.len(),
            forall|j: int| 0 <= j < p ==> lex_lt(#[trigger] ss_view(s@)[j], k@),
            s@ == old(s)@,
        ensures
            0 <= p <= s@.len(),
            forall|j: int| 0 <= j < p ==> lex_lt(#[trigger] ss_view(s@)[j], k@),
            s@ == old(s)@,
            p < s@.len() ==> !lex_lt(ss_view(s@)[p as int], k@),
        decreases s@.len() - p,
    {
        if p == s.len() {
            break;
        }
        match str_cmp(s[p].as_str(), k.as_str()) {
            StrCmp::Lt => {
                p = p + 1;
            },
            _ => {
                break;
            },
        }
    }
    if p < s.len() && str_eq(s[p].as_str(), k.as_str()) {
        proof {
            lemma_sinsert_at(ss_view(s@), k@, p as int);
        }
        return;
    }
    proof {
        lemma_sinsert_at(ss_view(old(s)@), k@, p as int);
        if p < s@.len() {
            lemma_lex_trichotomy(ss_view(s@)[p as int], k@);
        }
    }
    s.insert(p, k);
    proof {
        if p < old(s)@.len() {
            assert(ss_view(s@) =~= ss_view(old(s)@).insert(p as int, k@));
        } else {
            assert(ss_view(s@) =~= ss_view(old(s)@).push(k@));
        }
    }
}


/// The index of the first binding of `k`, if there is one.
pub fn kv_find<V>(m: &Vec<(String, V)>, k: &str) -> (r: Option<usize>)
    ensures
        match r {
            Some(j) => j < m@.len() && kv_view(m@)[j as int].0 == k@ && forall|u: int|
                0 <= u < j ==> kv_view(m@)[u].0 != k@,
            None => !map_has(kv_view(m@), k@),
        },
{
    let mut i: usize = 0;
    while i < m.len()
        invariant
            0 <= i <= m@.len(),
            forall|j: int| 0 <= j < i ==> kv_view(m@)[j].0 != k@,
        decreases m@.len() - i,
    {
        if str_eq(m[i].0.as_str(), k) {
            assert(kv_view(m@)[i as int].0 == k@);
            return Some(i);
        }
        i = i + 1;
    }
    None
}


/// The first binding of a key is what `map_get` yields.
pub proof fn lemma_map_get_first<V>(m: Seq<(Seq<char>, V)>, k: Seq<char>, j: int)
    requires
        0 <= j < m.len(),
        m[j].0 == k,
        forall|u: int| 0 <= u < j ==> m[u].0 != k,
    ensures
        map_get(m, k) == Some(m[j].1),
    decreases m.len(),
{
    if j > 0 {
        assert(m.drop_first()[j - 1] == m[j]);
        assert(forall|u: int| 0 <= u < j - 1 ==> m.drop_first()[u] == m[u + 1]);
        lemma_map_get_first(m.drop_first(), k, j - 1);
    }
}

/// Inserts the binding `(k, v)` at the sorted position, replacing any
/// binding of the same key.
pub fn kv_insert<V>(m: &mut Vec<(String, V)>, k: String, v: V)
    ensures
        kv_view(final(m)@) == minsert(kv_view(old(m)@), k@, v),
{
    let mut p: usize = 0;
    loop
        invariant
            0 <= p <= m@.len(),
            forall|j: int| 0 <= j < p ==> lex_lt(#[trigger] kv_view(m@)[j].0, k@),
            m@ == old(m)@,
        ensures
            0 <= p <= m@.len(),
            forall|j: int| 0 <= j < p ==> lex_lt(#[trigger] kv_view(m@)[j].0, k@),
            m@ == old(m)@,
            p < m@.len() ==> !lex_lt(kv_view(m@)[p as int].0, k@),
        decreases m@.len() - p,
    {
        if p == m.len() {
            break;
        }
        match str_cmp(m[p].0.as_str(), k.as_str()) {
            StrCmp::Lt => {
                p = p + 1;
            },
            _ => {
                break;
            },
        }
    }
    if p < m.len() && str_eq(m[p].0.as_str(), k.as_str()) {
        proof {
            lemma_minsert_at(kv_view(m@), k@, v, p as int);
        }
        let _ = m.remove(p);
        m.insert(p, (k, v));
        proof {
            assert(kv_view(m@) =~= minsert(kv_view(old(m)@), k@, v));
        }
        return;
    }
    proof {
        lemma_minsert_at(kv_view(old(m)@), k@, v, p as int);
        if p < m@.len() {
            lemma_lex_trichotomy(kv_view(m@)[p as int].0, k@);
        }
    }
    m.insert(p, (k, v));
    proof {
        if p < old(m)@.len() {
            assert(kv_view(m@) =~= kv_view(old(m)@).insert(p as int, (k@, v)));
        } else {
            assert(kv_view(m@) =~= kv_view(old(m)@).push((k@, v)));
        }
    }
}

} // verus!
