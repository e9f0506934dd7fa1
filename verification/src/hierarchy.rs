use vstd::prelude::*;

use crate::smap::{
    kv_find, kv_insert, kv_view, lemma_minsert_at, lemma_minsert_sorted, lemma_sinsert_sorted,
    lemma_vmap_vals_minsert, map_get, map_has, map_sorted, minsert, set_has, set_sorted, sinsert,
    ss_view, sset_insert,
};
use crate::text::{lex_lt, strip_prefix, strip_prefix_s, strip_suffix, strip_suffix_s};

verus! {

// ------------------------------------------------------------------
// The data: the raw trie built from the spec walk, and the final
// entity-resolved hierarchy. Every map is a vector of key-value pairs
// whose keys strictly increase in lexicographic order, so equal content
// means equal representation and traversal is alphabetical at every
// level.
// ------------------------------------------------------------------

/// A node of the raw path-segment trie: children keyed by constant path
/// segment text, and the operation identifiers attached at this node, as
/// a sorted set.
pub struct RawEntry {
    pub children: Vec<(String, RawEntry)>,
    pub operation_ids: Vec<String>,
}

/// A node of the final tree: the resolved entity name, the child entries
/// keyed by path segment text, and one operation identifier per verb.
#[derive(Debug, PartialEq, Eq)]
pub struct HierarchyEntry {
    pub entity_name: Option<String>,
    pub entries: Vec<(String, HierarchyEntry)>,
    pub verbs: Vec<(String, String)>,
}

/// The finished hierarchy: the top-level entries keyed by their first
/// path segment.
#[derive(Debug, PartialEq, Eq)]
pub struct Hierarchy {
    pub entries: Vec<(String, HierarchyEntry)>,
}

/// The one structural conflict: two operations claiming the same verb on
/// the same merged entry.
#[derive(Debug, PartialEq, Eq)]
pub enum HierarchyError {
    VerbCollision,
}

// Ghost mirrors of the two trees, over character sequences.

pub struct RawV {
    pub children: Seq<(Seq<char>, RawV)>,
    pub ops: Seq<Seq<char>>,
}

pub struct EntryV {
    pub entity_name: Option<Seq<char>>,
    pub entries: Seq<(Seq<char>, EntryV)>,
    pub verbs: Seq<(Seq<char>, Seq<char>)>,
}

pub open spec fn raw_view(r: RawEntry) -> RawV
    decreases r,
{
    RawV { children: raw_children_view(r.children@), ops: ss_view(r.operation_ids@) }
}

pub open spec fn raw_children_view(cs: Seq<(String, RawEntry)>) -> Seq<(Seq<char>, RawV)>
    decreases cs,
{
    if cs.len() == 0 {
        Seq::empty()
    } else {
        raw_children_view(cs.drop_first()).insert(0, (cs[0].0@, raw_view(cs[0].1)))
    }
}

/// The spec value of an optional owned string.
pub open spec fn opt_str_view(o: Option<String>) -> Option<Seq<char>> {
    match o {
        Some(n) => Some(n@),
        None => None,
    }
}

/// The value view used for verb maps: each owned string viewed.
pub open spec fn strv_fn() -> spec_fn(String) -> Seq<char> {
    |s: String| s@
}

/// The association sequence of a verb map, keys and values viewed.
pub open spec fn verbs_vv(v: Seq<(String, String)>) -> Seq<(Seq<char>, Seq<char>)> {
    crate::smap::vmap_vals(kv_view(v), strv_fn())
}

pub open spec fn entry_view(e: HierarchyEntry) -> EntryV
    decreases e,
{
    EntryV {
        entity_name: opt_str_view(e.entity_name),
        entries: entries_view(e.entries@),
        verbs: verbs_vv(e.verbs@),
    }
}

pub open spec fn entries_view(cs: Seq<(String, HierarchyEntry)>) -> Seq<(Seq<char>, EntryV)>
    decreases cs,
{
    if cs.len() == 0 {
        Seq::empty()
    } else {
        entries_view(cs.drop_first()).insert(0, (cs[0].0@, entry_view(cs[0].1)))
    }
}

pub open spec fn hier_view(h: Hierarchy) -> Seq<(Seq<char>, EntryV)> {
    entries_view(h.entries@)
}

/// The children view is the pointwise view of the pairs.
pub proof fn lemma_raw_children_view(cs: Seq<(String, RawEntry)>)
    ensures
        raw_children_view(cs).len() == cs.len(),
        forall|i: int|
            0 <= i < cs.len() ==> raw_children_view(cs)[i] == (cs[i].0@, raw_view(cs[i].1)),
    decreases cs,
{
    if cs.len() > 0 {
        lemma_raw_children_view(cs.drop_first());
        assert forall|i: int| 0 <= i < cs.len() implies raw_children_view(cs)[i] == (
            cs[i].0@,
            raw_view(cs[i].1),
        ) by {
            if i > 0 {
                assert(cs.drop_first()[i - 1] == cs[i]);
            }
        }
    }
}

pub proof fn lemma_entries_view(cs: Seq<(String, HierarchyEntry)>)
    ensures
        entries_view(cs).len() == cs.len(),
        forall|i: int| 0 <= i < cs.len() ==> entries_view(cs)[i] == (cs[i].0@, entry_view(cs[i].1)),
    decreases cs,
{
    if cs.len() > 0 {
        lemma_entries_view(cs.drop_first());
        assert forall|i: int| 0 <= i < cs.len() implies entries_view(cs)[i] == (
            cs[i].0@,
            entry_view(cs[i].1),
        ) by {
            if i > 0 {
                assert(cs.drop_first()[i - 1] == cs[i]);
            }
        }
    }
}

// Well-formedness: sorted keys at every level.

pub open spec fn raw_wf(r: RawV) -> bool
    decreases r,
{
    &&& map_sorted(r.children)
    &&& set_sorted(r.ops)
    &&& forall|i: int| 0 <= i < r.children.len() ==> raw_wf(#[trigger] r.children[i].1)
}

pub open spec fn entry_wf(e: EntryV) -> bool
    decreases e,
{
    &&& map_sorted(e.entries)
    &&& map_sorted(e.verbs)
    &&& forall|i: int| 0 <= i < e.entries.len() ==> entry_wf(#[trigger] e.entries[i].1)
}

// ------------------------------------------------------------------
// The spec walk: each path template that carries the prefix adds its
// operation identifiers to the trie node reached by its constant
// segments, and to the global identifier set.
// ------------------------------------------------------------------

pub open spec fn empty_raw() -> RawV {
    RawV { children: Seq::empty(), ops: Seq::empty() }
}

/// Adds the present identifiers, in order, to a sorted set.
pub open spec fn add_ops(s: Seq<Seq<char>>, new_ops: Seq<Option<Seq<char>>>) -> Seq<Seq<char>>
    decreases new_ops.len(),
{
    if new_ops.len() == 0 {
        s
    } else {
        let prev = add_ops(s, new_ops.drop_last());
        match new_ops.last() {
            Some(id) => sinsert(prev, id),
            None => prev,
        }
    }
}

/// Descends along the constant segments from index `i`, creating missing
/// nodes, and adds the identifiers at the node reached.
pub open spec fn rawv_insert(
    r: RawV,
    segs: Seq<Seq<char>>,
    i: int,
    new_ops: Seq<Option<Seq<char>>>,
) -> RawV
    decreases segs.len() - i,
{
    if 0 <= i < segs.len() {
        let child = match map_get(r.children, segs[i]) {
            Some(c) => c,
            None => empty_raw(),
        };
        RawV {
            children: minsert(r.children, segs[i], rawv_insert(child, segs, i + 1, new_ops)),
            ops: r.ops,
        }
    } else {
        RawV { children: r.children, ops: add_ops(r.ops, new_ops) }
    }
}

/// One spec path: what the walk does with it.
pub open spec fn walk_one(
    acc: (RawV, Seq<Seq<char>>),
    template: Seq<char>,
    new_ops: Seq<Option<Seq<char>>>,
    prefix: Seq<char>,
) -> (RawV, Seq<Seq<char>>) {
    match strip_prefix_s(template, prefix) {
        None => acc,
        Some(rem) => match crate::path::path_parse(rem) {
            None => acc,
            Some(segs) => (
                rawv_insert(acc.0, crate::path::consts_of(segs), 0, new_ops),
                add_ops(acc.1, new_ops),
            ),
        },
    }
}

/// The whole walk, in the order the paths are listed.
pub open spec fn walk_all(
    paths: Seq<(Seq<char>, Seq<Option<Seq<char>>>)>,
    prefix: Seq<char>,
) -> (RawV, Seq<Seq<char>>)
    decreases paths.len(),
{
    if paths.len() == 0 {
        (empty_raw(), Seq::empty())
    } else {
        walk_one(walk_all(paths.drop_last(), prefix), paths.last().0, paths.last().1, prefix)
    }
}

// Well-formedness is kept by every walk step.

pub proof fn lemma_add_ops_wf(s: Seq<Seq<char>>, new_ops: Seq<Option<Seq<char>>>)
    requires
        set_sorted(s),
    ensures
        set_sorted(add_ops(s, new_ops)),
    decreases new_ops.len(),
{
    if new_ops.len() > 0 {
        lemma_add_ops_wf(s, new_ops.drop_last());
        match new_ops.last() {
            Some(id) => {
                lemma_sinsert_sorted(add_ops(s, new_ops.drop_last()), id);
            },
            None => {},
        }
    }
}

pub proof fn lemma_rawv_insert_wf(
    r: RawV,
    segs: Seq<Seq<char>>,
    i: int,
    new_ops: Seq<Option<Seq<char>>>,
)
    requires
        raw_wf(r),
    ensures
        raw_wf(rawv_insert(r, segs, i, new_ops)),
    decreases segs.len() - i,
{
    if 0 <= i < segs.len() {
        let child = match map_get(r.children, segs[i]) {
            Some(c) => c,
            None => empty_raw(),
        };
        assert(raw_wf(child)) by {
            if map_get(r.children, segs[i]) is Some {
                lemma_map_get_is_element(r.children, segs[i]);
                let t = choose|t: int|
                    0 <= t < r.children.len() && r.children[t] == (
                        segs[i],
                        map_get(r.children, segs[i])->Some_0,
                    );
                assert(raw_wf(r.children[t].1));
            }
        }
        lemma_rawv_insert_wf(child, segs, i + 1, new_ops);
        let new_child = rawv_insert(child, segs, i + 1, new_ops);
        lemma_minsert_sorted(r.children, segs[i], new_child);
        let rc = minsert(r.children, segs[i], new_child);
        assert forall|t: int| 0 <= t < rc.len() implies raw_wf(#[trigger] rc[t].1) by {
            lemma_minsert_elements(r.children, segs[i], new_child, t);
            if rc[t] != (segs[i], new_child) {
                assert(raw_wf(rc[t].1));
            }
        }
    } else {
        lemma_add_ops_wf(r.ops, new_ops);
    }
}

/// A value read out of a map is one of its elements.
pub proof fn lemma_map_get_is_element<V>(m: Seq<(Seq<char>, V)>, k: Seq<char>)
    requires
        map_get(m, k) is Some,
    ensures
        exists|i: int|
            0 <= i < m.len() && m[i] == (k, map_get(m, k)->Some_0),
    decreases m.len(),
{
    if m.len() > 0 {
        if m[0].0 == k {
            assert(m[0] == (k, map_get(m, k)->Some_0));
        } else {
            lemma_map_get_is_element(m.drop_first(), k);
            let i = choose|i: int|
                0 <= i < m.drop_first().len() && m.drop_first()[i] == (
                    k,
                    map_get(m.drop_first(), k)->Some_0,
                );
            assert(m[i + 1] == (k, map_get(m, k)->Some_0));
        }
    }
}

/// Every element of an inserted map is the new binding or an old element.
pub proof fn lemma_minsert_elements<V>(m: Seq<(Seq<char>, V)>, k: Seq<char>, v: V, t: int)
    requires
        0 <= t < minsert(m, k, v).len(),
    ensures
        minsert(m, k, v)[t] == (k, v) || exists|j: int|
            0 <= j < m.len() && m[j] == minsert(m, k, v)[t],
    decreases m.len(),
{
    let r = minsert(m, k, v);
    if m.len() == 0 {
    } else if lex_lt(k, m[0].0) {
        if t > 0 {
            assert(r[t] == m[t - 1]);
        }
    } else if k == m[0].0 {
        if t > 0 {
            assert(r[t] == m.drop_first()[t - 1]);
            assert(m[t] == r[t]);
        }
    } else {
        if t == 0 {
            assert(r[0] == m[0]);
        } else {
            let rd = minsert(m.drop_first(), k, v);
            assert(r[t] == rd[t - 1]);
            lemma_minsert_elements(m.drop_first(), k, v, t - 1);
            if rd[t - 1] != (k, v) {
                let j = choose|j: int|
                    0 <= j < m.drop_first().len() && m.drop_first()[j] == rd[t - 1];
                assert(m[j + 1] == r[t]);
            }
        }
    }
}

pub proof fn lemma_walk_all_wf(paths: Seq<(Seq<char>, Seq<Option<Seq<char>>>)>, prefix: Seq<char>)
    ensures
        raw_wf(walk_all(paths, prefix).0),
        set_sorted(walk_all(paths, prefix).1),
    decreases paths.len(),
{
    if paths.len() > 0 {
        lemma_walk_all_wf(paths.drop_last(), prefix);
        let acc = walk_all(paths.drop_last(), prefix);
        match strip_prefix_s(paths.last().0, prefix) {
            None => {},
            Some(rem) => match crate::path::path_parse(rem) {
                None => {},
                Some(segs) => {
                    lemma_rawv_insert_wf(acc.0, crate::path::consts_of(segs), 0, paths.last().1);
                    lemma_add_ops_wf(acc.1, paths.last().1);
                },
            },
        }
    }
}

// ------------------------------------------------------------------
// Executable walk.
// ------------------------------------------------------------------

/// One path of the input spec: its template and the operation
/// identifiers its operations carry, absent where an operation has none.
pub struct PathOperations {
    pub template: String,
    pub operation_ids: Vec<Option<String>>,
}

/// The part of an already-parsed API description that the hierarchy is
/// built from: every path with its operations' identifiers.
pub struct ApiSpec {
    pub paths: Vec<PathOperations>,
}

pub open spec fn ops_opt_view(v: Seq<Option<String>>) -> Seq<Option<Seq<char>>> {
    v.map_values(
        |o: Option<String>|
            match o {
                Some(s) => Some(s@),
                None => None,
            },
    )
}

pub open spec fn path_ops_view(p: PathOperations) -> (Seq<char>, Seq<Option<Seq<char>>>) {
    (p.template@, ops_opt_view(p.operation_ids@))
}

pub open spec fn api_view(a: ApiSpec) -> Seq<(Seq<char>, Seq<Option<Seq<char>>>)> {
    a.paths@.map_values(|p: PathOperations| path_ops_view(p))
}

impl RawEntry {
    pub fn empty() -> (r: RawEntry)
        ensures
            raw_view(r) == empty_raw(),
    {
        let r = RawEntry { children: Vec::new(), operation_ids: Vec::new() };
        proof {
            assert(raw_children_view(r.children@) =~= Seq::<(Seq<char>, RawV)>::empty());
            assert(ss_view(r.operation_ids@) =~= Seq::<Seq<char>>::empty());
        }
        r
    }

    /// Adds the present identifiers of `new_ops` to the sorted
    /// identifier set of this node.
    fn add_ops_here(&mut self, new_ops: &Vec<Option<String>>)
        ensures
            final(self).children == old(self).children,
            ss_view(final(self).operation_ids@) == add_ops(
                ss_view(old(self).operation_ids@),
                ops_opt_view(new_ops@),
            ),
    {
        add_ids(&mut self.operation_ids, new_ops);
    }

    /// Walks the constant segments from index `i`, creating missing
    /// children, and attaches the identifiers at the node reached, as
    /// `rawv_insert` describes.
    pub fn insert_path(&mut self, segs: &Vec<String>, i: usize, new_ops: &Vec<Option<String>>)
        requires
            i <= segs@.len(),
            raw_wf(raw_view(*old(self))),
        ensures
            raw_view(*final(self)) == rawv_insert(
                raw_view(*old(self)),
                ss_view(segs@),
                i as int,
                ops_opt_view(new_ops@),
            ),
        decreases segs@.len() - i,
    {
        proof {
            lemma_raw_children_view(self.children@);
        }
        if i == segs.len() {
            self.add_ops_here(new_ops);
            proof {
                assert(raw_view(*self) =~= RawV {
                    children: raw_children_view(self.children@),
                    ops: ss_view(self.operation_ids@),
                });
                assert(raw_children_view(self.children@) == raw_children_view(
                    old(self).children@,
                ));
            }
            return;
        }
        let key = &segs[i];
        let ghost oldview = raw_view(*old(self));
        let found = kv_find(&self.children, key.as_str());
        match found {
            Some(j) => {
                let (name, mut child) = self.children.remove(j);
                proof {
                    lemma_raw_children_view(old(self).children@);
                    // the key sits at j in a sorted map, so every key
                    // before it is below it
                    assert(oldview.children[j as int].0 == key@);
                    assert(raw_wf(oldview));
                    assert(0 <= j < oldview.children.len());
                    assert(oldview.children[j as int].1 == raw_view(
                        old(self).children@[j as int].1,
                    ));
                    assert(raw_wf(oldview.children[j as int].1));
                    assert(raw_view(child) == oldview.children[j as int].1);
                    assert(raw_wf(raw_view(child)));
                }
                let ghost childview = raw_view(child);
                child.insert_path(segs, i + 1, new_ops);
                let ghost newchild = raw_view(child);
                self.children.insert(j, (name, child));
                proof {
                    let oc = old(self).children@;
                    assert(self.children@ =~= oc.update(j as int, (oc[j as int].0, child)));
                    lemma_raw_children_view(self.children@);
                    // map_get at the key yields the old child
                    assert(map_get(oldview.children, key@) == Some(childview)) by {
                        lemma_map_get_at(oldview.children, key@, j as int);
                    }
                    assert forall|t: int| 0 <= t < j implies lex_lt(
                        #[trigger] oldview.children[t].0,
                        key@,
                    ) by {}
                    lemma_minsert_at(oldview.children, key@, newchild, j as int);
                    assert(minsert(oldview.children, key@, newchild) == oldview.children.update(
                        j as int,
                        (key@, newchild),
                    ));
                    assert(raw_children_view(self.children@) =~= oldview.children.update(
                        j as int,
                        (key@, newchild),
                    ));
                    assert(raw_view(*self) =~= rawv_insert(
                        oldview,
                        ss_view(segs@),
                        i as int,
                        ops_opt_view(new_ops@),
                    ));
                }
            },
            None => {
                let mut child = RawEntry::empty();
                proof {
                    lemma_raw_children_view(old(self).children@);
                    assert(!map_has(oldview.children, key@)) by {
                        if map_has(oldview.children, key@) {
                            let t = choose|t: int|
                                0 <= t < oldview.children.len() && oldview.children[t].0 == key@;
                            assert(kv_view(old(self).children@)[t].0 == key@);
                        }
                    }
                    lemma_smap_get_none(raw_view(*old(self)).children, key@);
                }
                child.insert_path(segs, i + 1, new_ops);
                let ghost childsnap = child;
                let keyowned = key.clone();
                kv_insert(&mut self.children, keyowned, child);
                proof {
                    let newchild = raw_view(childsnap);
                    lemma_kv_children_minsert(old(self).children@, self.children@, key@, childsnap);
                    assert(raw_view(*self) =~= rawv_insert(
                        oldview,
                        ss_view(segs@),
                        i as int,
                        ops_opt_view(new_ops@),
                    ));
                }
            },
        }
    }
}

/// At a sorted map, the binding at the key's index is what `map_get`
/// yields.
pub proof fn lemma_map_get_at<V>(m: Seq<(Seq<char>, V)>, k: Seq<char>, j: int)
    requires
        0 <= j < m.len(),
        m[j].0 == k,
        map_sorted(m),
    ensures
        map_get(m, k) == Some(m[j].1),
    decreases m.len(),
{
    if j == 0 {
    } else {
        assert(m[0].0 != k) by {
            assert(lex_lt(m[0].0, m[j].0));
            crate::text::lemma_lex_trichotomy(m[0].0, m[j].0);
        }
        assert(m.drop_first()[j - 1] == m[j]);
        assert(map_sorted(m.drop_first())) by {
            assert forall|a: int, b: int|
                0 <= a < b < m.drop_first().len() implies lex_lt(
                m.drop_first()[a].0,
                m.drop_first()[b].0,
            ) by {
                assert(m.drop_first()[a] == m[a + 1] && m.drop_first()[b] == m[b + 1]);
            }
        }
        lemma_map_get_at(m.drop_first(), k, j - 1);
    }
}

/// Where `map_has` fails, `map_get` yields nothing.
pub proof fn lemma_smap_get_none<V>(m: Seq<(Seq<char>, V)>, k: Seq<char>)
    requires
        !map_has(m, k),
    ensures
        map_get(m, k) is None,
    decreases m.len(),
{
    crate::smap::lemma_map_get_has(m, k);
}

/// The children view is the key-value view with each child viewed.
pub proof fn lemma_raw_children_as_vmap(cs: Seq<(String, RawEntry)>)
    ensures
        raw_children_view(cs) == crate::smap::vmap_vals(
            kv_view(cs),
            |r: RawEntry| raw_view(r),
        ),
{
    let f = |r: RawEntry| raw_view(r);
    lemma_raw_children_view(cs);
    assert(raw_children_view(cs) =~= crate::smap::vmap_vals(kv_view(cs), f));
}

/// Viewing the children commutes with one insertion.
pub proof fn lemma_kv_children_minsert(
    oldcs: Seq<(String, RawEntry)>,
    newcs: Seq<(String, RawEntry)>,
    k: Seq<char>,
    c: RawEntry,
)
    requires
        kv_view(newcs) == minsert(kv_view(oldcs), k, c),
    ensures
        raw_children_view(newcs) == minsert(raw_children_view(oldcs), k, raw_view(c)),
{
    let f = |r: RawEntry| raw_view(r);
    lemma_raw_children_as_vmap(newcs);
    lemma_raw_children_as_vmap(oldcs);
    lemma_vmap_vals_minsert(kv_view(oldcs), k, c, f);
}


// ------------------------------------------------------------------
// Verb and entity inference: pure string-set algebra over the global
// identifier set, in two passes.
// ------------------------------------------------------------------

/// What singularizing a word yields. The result depends on the word
/// alone; it is computed by an outside library and never spelled out
/// here.
pub uninterp spec fn singular_of(s: Seq<char>) -> Seq<char>;

/// Relies on pluralizer::pluralize with count 1 and no count prefix: it
/// singularizes the word with the library's built-in rule set, a fixed
/// function of the word as long as no caller registers custom rules,
/// which this crate never does. The ASCII bound keeps out words on
/// which the library's case-restoring step slices a string inside a
/// multi-byte character and panics; callers test it before the call.
#[verifier::external_body]
fn singularize(s: &str) -> (r: String)
    requires
        crate::text::all_ascii(s@),
    ensures
        r@ == singular_of(s@),
{
    pluralizer::pluralize(s, 1, false)
}

/// The fixed seed verbs, in sorted order.
pub open spec fn seed_verbs() -> Seq<Seq<char>> {
    seq!["add"@, "create"@, "delete"@, "get"@, "list"@, "update"@, "upgrade"@, "verify"@]
}

proof fn lemma_lt_chain(s: Seq<Seq<char>>, i: int, j: int)
    requires
        forall|t: int| 0 <= t < s.len() - 1 ==> lex_lt(#[trigger] s[t], s[t + 1]),
        0 <= i < j < s.len(),
    ensures
        lex_lt(s[i], s[j]),
    decreases j - i,
{
    if j > i + 1 {
        lemma_lt_chain(s, i, j - 1);
        crate::text::lemma_lex_trans(s[i], s[j - 1], s[j]);
    }
}

/// A sequence whose adjacent elements increase is sorted.
pub proof fn lemma_adjacent_sorted(s: Seq<Seq<char>>)
    requires
        forall|t: int| 0 <= t < s.len() - 1 ==> lex_lt(#[trigger] s[t], s[t + 1]),
    ensures
        set_sorted(s),
{
    assert forall|i: int, j: int| 0 <= i < j < s.len() implies lex_lt(s[i], s[j]) by {
        lemma_lt_chain(s, i, j);
    }
}

/// The seed verb list as owned strings.
pub fn known_verbs() -> (r: Vec<String>)
    ensures
        ss_view(r@) == seed_verbs(),
        set_sorted(seed_verbs()),
{
    let r: Vec<String> = vec![
        "add".to_owned(),
        "create".to_owned(),
        "delete".to_owned(),
        "get".to_owned(),
        "list".to_owned(),
        "update".to_owned(),
        "upgrade".to_owned(),
        "verify".to_owned(),
    ];
    proof {
        reveal_strlit("add");
        reveal_strlit("create");
        reveal_strlit("delete");
        reveal_strlit("get");
        reveal_strlit("list");
        reveal_strlit("update");
        reveal_strlit("upgrade");
        reveal_strlit("verify");
        assert(ss_view(r@) =~= seed_verbs());
        let sv = seed_verbs();
        assert(lex_lt(sv[0], sv[1])) by { reveal_with_fuel(lex_lt, 4); }
        assert(lex_lt(sv[1], sv[2])) by { reveal_with_fuel(lex_lt, 4); }
        assert(lex_lt(sv[2], sv[3])) by { reveal_with_fuel(lex_lt, 4); }
        assert(lex_lt(sv[3], sv[4])) by { reveal_with_fuel(lex_lt, 4); }
        assert(lex_lt(sv[4], sv[5])) by { reveal_with_fuel(lex_lt, 4); }
        assert(lex_lt(sv[5], sv[6])) by { reveal_with_fuel(lex_lt, 4); }
        assert(lex_lt(sv[6], sv[7])) by { reveal_with_fuel(lex_lt, 8); }
        lemma_adjacent_sorted(sv);
    }
    r
}

/// Pass 1, one identifier against one verb list: every remainder left by
/// stripping a matching seed verb is singularized and collected. The
/// singularizer is called only on ASCII remainders (it does not accept
/// every string, see `singularize`); any other remainder is kept as its
/// own best-effort singular.
pub open spec fn ent_scan_op(acc: Seq<Seq<char>>, op: Seq<char>, seeds: Seq<Seq<char>>) -> Seq<
    Seq<char>,
>
    decreases seeds.len(),
{
    if seeds.len() == 0 {
        acc
    } else {
        let prev = ent_scan_op(acc, op, seeds.drop_last());
        match strip_prefix_s(op, seeds.last()) {
            Some(rem) => sinsert(
                prev,
                if crate::text::all_ascii(rem) {
                    singular_of(rem)
                } else {
                    rem
                },
            ),
            None => prev,
        }
    }
}

/// Pass 1 over the whole identifier set: the candidate entity set.
pub open spec fn discover_entities(ops: Seq<Seq<char>>, seeds: Seq<Seq<char>>) -> Seq<Seq<char>>
    decreases ops.len(),
{
    if ops.len() == 0 {
        Seq::empty()
    } else {
        ent_scan_op(discover_entities(ops.drop_last(), seeds), ops.last(), seeds)
    }
}

/// Pass 2, one identifier: among the entities that are a suffix of the
/// identifier, scanning in sorted order, the one leaving the shortest
/// remaining prefix wins; a strictly shorter prefix replaces the
/// candidate, an equal one does not. Length here is in characters:
/// every candidate is a prefix of the same identifier, so the order by
/// character count and the order by encoded byte count coincide.
pub open spec fn best_verb(
    op: Seq<char>,
    ents: Seq<Seq<char>>,
    j: int,
    best: Option<Seq<char>>,
) -> Option<Seq<char>>
    decreases ents.len() - j,
{
    if 0 <= j < ents.len() {
        let next = match strip_suffix_s(op, ents[j]) {
            Some(v) => match best {
                Some(b) => if v.len() < b.len() {
                    Some(v)
                } else {
                    best
                },
                None => Some(v),
            },
            None => best,
        };
        best_verb(op, ents, j + 1, next)
    } else {
        best
    }
}

/// Pass 2 over the whole identifier set: the verb set, grown from the
/// seeds by each identifier's best suffix match.
pub open spec fn discover_verbs(
    ops: Seq<Seq<char>>,
    ents: Seq<Seq<char>>,
    verbs0: Seq<Seq<char>>,
) -> Seq<Seq<char>>
    decreases ops.len(),
{
    if ops.len() == 0 {
        verbs0
    } else {
        let prev = discover_verbs(ops.drop_last(), ents, verbs0);
        match best_verb(ops.last(), ents, 0, None) {
            Some(v) => sinsert(prev, v),
            None => prev,
        }
    }
}

// ------------------------------------------------------------------
// The builder model: local entity resolution, pruning, recursion with
// entity-aware merging of siblings.
// ------------------------------------------------------------------

/// The local scan of one identifier against the verb list: matching
/// remainders become candidate entities, and each matching verb maps to
/// the identifier. A verb already bound to a different identifier is a
/// collision: two distinct identifiers claiming one verb at one node
/// mean ambiguous input, and the scan fails.
pub open spec fn scan_op(
    ents: Seq<Seq<char>>,
    vm: Seq<(Seq<char>, Seq<char>)>,
    op: Seq<char>,
    verbs: Seq<Seq<char>>,
) -> Option<(Seq<Seq<char>>, Seq<(Seq<char>, Seq<char>)>)>
    decreases verbs.len(),
{
    if verbs.len() == 0 {
        Some((ents, vm))
    } else {
        match scan_op(ents, vm, op, verbs.drop_last()) {
            None => None,
            Some(prev) => match strip_prefix_s(op, verbs.last()) {
                Some(rem) => if map_has(prev.1, verbs.last()) && map_get(prev.1, verbs.last())
                    != Some(op) {
                    None
                } else {
                    Some((sinsert(prev.0, rem), minsert(prev.1, verbs.last(), op)))
                },
                None => Some(prev),
            },
        }
    }
}

/// The local scan of all identifiers attached at one node.
pub open spec fn scan_ops(
    ents: Seq<Seq<char>>,
    vm: Seq<(Seq<char>, Seq<char>)>,
    ops: Seq<Seq<char>>,
    verbs: Seq<Seq<char>>,
) -> Option<(Seq<Seq<char>>, Seq<(Seq<char>, Seq<char>)>)>
    decreases ops.len(),
{
    if ops.len() == 0 {
        Some((ents, vm))
    } else {
        match scan_ops(ents, vm, ops.drop_last(), verbs) {
            None => None,
            Some(prev) => scan_op(prev.0, prev.1, ops.last(), verbs),
        }
    }
}

/// Strips each already-resolved ancestor entity name, in order, wherever
/// it is a prefix of the name at hand.
pub open spec fn strip_ancestors(e: Seq<char>, prefix: Seq<Seq<char>>) -> Seq<char>
    decreases prefix.len(),
{
    if prefix.len() == 0 {
        e
    } else {
        let prev = strip_ancestors(e, prefix.drop_last());
        match strip_prefix_s(prev, prefix.last()) {
            Some(r) => r,
            None => prev,
        }
    }
}

/// What one merged verb map is: the target's bindings, then each source
/// binding inserted, any key already present aborting the merge.
pub open spec fn verbs_union(
    a: Seq<(Seq<char>, Seq<char>)>,
    b: Seq<(Seq<char>, Seq<char>)>,
) -> Option<Seq<(Seq<char>, Seq<char>)>>
    decreases b.len(),
{
    if b.len() == 0 {
        Some(a)
    } else {
        match verbs_union(a, b.drop_last()) {
            None => None,
            Some(m) => if map_has(m, b.last().0) {
                None
            } else {
                Some(minsert(m, b.last().0, b.last().1))
            },
        }
    }
}

/// The outcome of building one raw node.
pub enum BuildV {
    Fail,
    Skip,
    Built(EntryV),
}

/// Merging two entries: the verb maps must not collide, and children
/// with the same key merge recursively.
pub open spec fn merge_v(a: EntryV, b: EntryV) -> Option<EntryV>
    decreases b,
{
    match verbs_union(a.verbs, b.verbs) {
        None => None,
        Some(vm) => match entries_union(a.entries, b.entries) {
            None => None,
            Some(em) => Some(EntryV { entity_name: a.entity_name, entries: em, verbs: vm }),
        },
    }
}

pub open spec fn entries_union(
    a: Seq<(Seq<char>, EntryV)>,
    b: Seq<(Seq<char>, EntryV)>,
) -> Option<Seq<(Seq<char>, EntryV)>>
    decreases b,
{
    if b.len() == 0 {
        Some(a)
    } else {
        match entries_union(a, b.drop_last()) {
            None => None,
            Some(m) => match map_get(m, b.last().0) {
                Some(ex) => match merge_v(ex, b.last().1) {
                    None => None,
                    Some(mm) => Some(minsert(m, b.last().0, mm)),
                },
                None => Some(minsert(m, b.last().0, b.last().1)),
            },
        }
    }
}

/// The first already-built sibling whose resolved entity name equals the
/// given one, absent included.
pub open spec fn find_entity(acc: Seq<(Seq<char>, EntryV)>, name: Option<Seq<char>>) -> Option<
    int,
>
    decreases acc.len(),
{
    if acc.len() == 0 {
        None
    } else if acc[0].1.entity_name == name {
        Some(0)
    } else {
        match find_entity(acc.drop_first(), name) {
            Some(j) => Some(j + 1),
            None => None,
        }
    }
}

/// Builds one raw node: resolve the local entity, prune empty nodes,
/// build the children in key order, merging each into the first earlier
/// sibling of the same entity name.
pub open spec fn build_v(rv: RawV, prefix: Seq<Seq<char>>, verbs: Seq<Seq<char>>) -> BuildV
    decreases rv,
{
    match scan_ops(Seq::empty(), Seq::empty(), rv.ops, verbs) {
        None => BuildV::Fail,
        Some(scanned) => {
            let entity_name: Option<Seq<char>> = if scanned.0.len() == 0 {
                None
            } else {
                Some(strip_ancestors(scanned.0[0], prefix))
            };
            if rv.children.len() == 0 && rv.ops.len() == 0 {
                BuildV::Skip
            } else {
                let new_prefix = match entity_name {
                    Some(e) => prefix.push(e),
                    None => prefix,
                };
                match build_children(rv.children, new_prefix, verbs) {
                    None => BuildV::Fail,
                    Some(em) => BuildV::Built(
                        EntryV { entity_name, entries: em, verbs: scanned.1 },
                    ),
                }
            }
        },
    }
}

pub open spec fn build_children(
    cs: Seq<(Seq<char>, RawV)>,
    prefix: Seq<Seq<char>>,
    verbs: Seq<Seq<char>>,
) -> Option<Seq<(Seq<char>, EntryV)>>
    decreases cs,
{
    if cs.len() == 0 {
        Some(Seq::empty())
    } else {
        match build_children(cs.drop_last(), prefix, verbs) {
            None => None,
            Some(acc) => match build_v(cs.last().1, prefix, verbs) {
                BuildV::Fail => None,
                BuildV::Skip => Some(acc),
                BuildV::Built(e) => match find_entity(acc, e.entity_name) {
                    Some(j) => match merge_v(acc[j].1, e) {
                        None => None,
                        Some(m) => Some(acc.update(j, (acc[j].0, m))),
                    },
                    None => Some(minsert(acc, cs.last().0, e)),
                },
            },
        }
    }
}

/// The top level: each first-segment subtree built with an empty
/// ancestor prefix and keyed by its segment; no entity merging happens
/// here.
pub open spec fn top_build(cs: Seq<(Seq<char>, RawV)>, verbs: Seq<Seq<char>>) -> Option<
    Seq<(Seq<char>, EntryV)>,
>
    decreases cs.len(),
{
    if cs.len() == 0 {
        Some(Seq::empty())
    } else {
        match top_build(cs.drop_last(), verbs) {
            None => None,
            Some(acc) => match build_v(cs.last().1, Seq::empty(), verbs) {
                BuildV::Fail => None,
                BuildV::Skip => Some(acc),
                BuildV::Built(e) => Some(minsert(acc, cs.last().0, e)),
            },
        }
    }
}

/// The whole pipeline: walk, infer, build. Nothing if and only if a verb
/// collision aborts the build.
pub open spec fn hierarchy_spec(
    paths: Seq<(Seq<char>, Seq<Option<Seq<char>>>)>,
    prefix: Seq<char>,
) -> Option<Seq<(Seq<char>, EntryV)>> {
    let walked = walk_all(paths, prefix);
    let ents = discover_entities(walked.1, seed_verbs());
    let verbs = discover_verbs(walked.1, ents, seed_verbs());
    top_build(walked.0.children, verbs)
}

// A failed prefix of the fold keeps the whole fold failed.

pub proof fn lemma_verbs_union_none_mono(
    a: Seq<(Seq<char>, Seq<char>)>,
    b: Seq<(Seq<char>, Seq<char>)>,
    i: int,
)
    requires
        0 <= i <= b.len(),
        verbs_union(a, b.take(i)) is None,
    ensures
        verbs_union(a, b) is None,
    decreases b.len() - i,
{
    if i < b.len() {
        assert(b.take(i + 1).drop_last() =~= b.take(i));
        lemma_verbs_union_none_mono(a, b, i + 1);
    } else {
        assert(b.take(i) =~= b);
    }
}

pub proof fn lemma_entries_union_none_mono(
    a: Seq<(Seq<char>, EntryV)>,
    b: Seq<(Seq<char>, EntryV)>,
    i: int,
)
    requires
        0 <= i <= b.len(),
        entries_union(a, b.take(i)) is None,
    ensures
        entries_union(a, b) is None,
    decreases b.len() - i,
{
    if i < b.len() {
        assert(b.take(i + 1).drop_last() =~= b.take(i));
        lemma_entries_union_none_mono(a, b, i + 1);
    } else {
        assert(b.take(i) =~= b);
    }
}

pub proof fn lemma_build_children_none_mono(
    cs: Seq<(Seq<char>, RawV)>,
    prefix: Seq<Seq<char>>,
    verbs: Seq<Seq<char>>,
    i: int,
)
    requires
        0 <= i <= cs.len(),
        build_children(cs.take(i), prefix, verbs) is None,
    ensures
        build_children(cs, prefix, verbs) is None,
    decreases cs.len() - i,
{
    if i < cs.len() {
        assert(cs.take(i + 1).drop_last() =~= cs.take(i));
        lemma_build_children_none_mono(cs, prefix, verbs, i + 1);
    } else {
        assert(cs.take(i) =~= cs);
    }
}

pub proof fn lemma_top_build_none_mono(
    cs: Seq<(Seq<char>, RawV)>,
    verbs: Seq<Seq<char>>,
    i: int,
)
    requires
        0 <= i <= cs.len(),
        top_build(cs.take(i), verbs) is None,
    ensures
        top_build(cs, verbs) is None,
    decreases cs.len() - i,
{
    if i < cs.len() {
        assert(cs.take(i + 1).drop_last() =~= cs.take(i));
        lemma_top_build_none_mono(cs, verbs, i + 1);
    } else {
        assert(cs.take(i) =~= cs);
    }
}


// ------------------------------------------------------------------
// Executable merge.
// ------------------------------------------------------------------

/// The verb-map view is pointwise.
pub proof fn lemma_verbs_vv(v: Seq<(String, String)>)
    ensures
        verbs_vv(v).len() == v.len(),
        forall|i: int| 0 <= i < v.len() ==> verbs_vv(v)[i] == (v[i].0@, v[i].1@),
{
    assert forall|i: int| 0 <= i < v.len() implies verbs_vv(v)[i] == (v[i].0@, v[i].1@) by {
        assert(kv_view(v)[i] == (v[i].0@, v[i].1));
    }
}

/// Membership agrees between the key-value view and the full view.
pub proof fn lemma_verbs_vv_has(v: Seq<(String, String)>, k: Seq<char>)
    ensures
        map_has(verbs_vv(v), k) <==> map_has(kv_view(v), k),
{
    lemma_verbs_vv(v);
    if map_has(verbs_vv(v), k) {
        let i = choose|i: int| 0 <= i < verbs_vv(v).len() && verbs_vv(v)[i].0 == k;
        assert(kv_view(v)[i].0 == k);
    }
    if map_has(kv_view(v), k) {
        let i = choose|i: int| 0 <= i < kv_view(v).len() && kv_view(v)[i].0 == k;
        assert(verbs_vv(v)[i].0 == k);
    }
}

/// Inserting into a verb map commutes with viewing it.
pub proof fn lemma_verbs_vv_minsert(
    oldv: Seq<(String, String)>,
    newv: Seq<(String, String)>,
    k: Seq<char>,
    v: String,
)
    requires
        kv_view(newv) == minsert(kv_view(oldv), k, v),
    ensures
        verbs_vv(newv) == minsert(verbs_vv(oldv), k, v@),
{
    lemma_vmap_vals_minsert(kv_view(oldv), k, v, strv_fn());
    assert(strv_fn()(v) == v@);
}

/// The entries view is the key-value view with each entry viewed.
pub proof fn lemma_entries_as_vmap(cs: Seq<(String, HierarchyEntry)>)
    ensures
        entries_view(cs) == crate::smap::vmap_vals(
            kv_view(cs),
            |e: HierarchyEntry| entry_view(e),
        ),
{
    let f = |e: HierarchyEntry| entry_view(e);
    lemma_entries_view(cs);
    assert(entries_view(cs) =~= crate::smap::vmap_vals(kv_view(cs), f));
}

/// Inserting a child entry commutes with viewing the child map.
pub proof fn lemma_entries_minsert(
    oldcs: Seq<(String, HierarchyEntry)>,
    newcs: Seq<(String, HierarchyEntry)>,
    k: Seq<char>,
    c: HierarchyEntry,
)
    requires
        kv_view(newcs) == minsert(kv_view(oldcs), k, c),
    ensures
        entries_view(newcs) == minsert(entries_view(oldcs), k, entry_view(c)),
{
    let f = |e: HierarchyEntry| entry_view(e);
    lemma_entries_as_vmap(newcs);
    lemma_entries_as_vmap(oldcs);
    lemma_vmap_vals_minsert(kv_view(oldcs), k, c, f);
}

/// Membership agrees between the key-value view and the entries view.
pub proof fn lemma_entries_has(cs: Seq<(String, HierarchyEntry)>, k: Seq<char>)
    ensures
        map_has(entries_view(cs), k) <==> map_has(kv_view(cs), k),
{
    lemma_entries_view(cs);
    if map_has(entries_view(cs), k) {
        let i = choose|i: int| 0 <= i < entries_view(cs).len() && entries_view(cs)[i].0 == k;
        assert(kv_view(cs)[i].0 == k);
    }
    if map_has(kv_view(cs), k) {
        let i = choose|i: int| 0 <= i < kv_view(cs).len() && kv_view(cs)[i].0 == k;
        assert(entries_view(cs)[i].0 == k);
    }
}

/// Whether two optional entity names hold the same text.
fn opt_name_eq(a: &Option<String>, b: &Option<String>) -> (r: bool)
    ensures
        r <==> (opt_str_view(*a) == opt_str_view(*b)),
{
    match (a, b) {
        (None, None) => true,
        (Some(x), Some(y)) => crate::text::str_eq(x.as_str(), y.as_str()),
        _ => false,
    }
}

/// A deep copy with the same view.
fn entry_clone(e: &HierarchyEntry) -> (r: HierarchyEntry)
    ensures
        entry_view(r) == entry_view(*e),
    decreases *e,
{
    let entity_name = match &e.entity_name {
        Some(n) => Some(n.clone()),
        None => None,
    };
    let mut entries: Vec<(String, HierarchyEntry)> = Vec::new();
    let mut i: usize = 0;
    while i < e.entries.len()
        invariant
            0 <= i <= e.entries@.len(),
            entries@.len() == i,
            forall|t: int|
                0 <= t < i ==> #[trigger] entries@[t].0@ == e.entries@[t].0@ && entry_view(
                    entries@[t].1,
                ) == entry_view(e.entries@[t].1),
        decreases e.entries@.len() - i,
    {
        let kc = &e.entries[i];
        entries.push((kc.0.clone(), entry_clone(&kc.1)));
        i = i + 1;
    }
    let mut verbs: Vec<(String, String)> = Vec::new();
    let mut j: usize = 0;
    while j < e.verbs.len()
        invariant
            0 <= j <= e.verbs@.len(),
            verbs@.len() == j,
            forall|t: int|
                0 <= t < j ==> #[trigger] verbs@[t].0@ == e.verbs@[t].0@ && verbs@[t].1@
                    == e.verbs@[t].1@,
        decreases e.verbs@.len() - j,
    {
        let kv = &e.verbs[j];
        verbs.push((kv.0.clone(), kv.1.clone()));
        j = j + 1;
    }
    let r = HierarchyEntry { entity_name, entries, verbs };
    proof {
        lemma_entries_view(r.entries@);
        lemma_entries_view(e.entries@);
        assert(entries_view(r.entries@) =~= entries_view(e.entries@));
        lemma_verbs_vv(r.verbs@);
        lemma_verbs_vv(e.verbs@);
        assert(verbs_vv(r.verbs@) =~= verbs_vv(e.verbs@));
    }
    r
}

/// Builds the merge of two entries into a fresh value, touching
/// neither, as `merge_v` describes: the target's bindings first, then
/// each of the source's folded in. A verb key claimed by both sides is
/// a collision and aborts; children of equal key merge recursively.
fn merge_make(a: &HierarchyEntry, b: &HierarchyEntry) -> (res: Result<
    HierarchyEntry,
    HierarchyError,
>)
    requires
        entry_wf(entry_view(*a)),
        entry_wf(entry_view(*b)),
    ensures
        match res {
            Ok(m) => merge_v(entry_view(*a), entry_view(*b)) == Some(entry_view(m))
                && entry_wf(entry_view(m)),
            Err(_) => merge_v(entry_view(*a), entry_view(*b)) is None,
        },
    decreases *b,
{
    let ghost av = entry_view(*a);
    let ghost bv = entry_view(*b);
    proof {
        lemma_verbs_vv(b.verbs@);
        lemma_entries_view(b.entries@);
        assert(bv.verbs.take(0) =~= Seq::<(Seq<char>, Seq<char>)>::empty());
    }
    let entity_name: Option<String> = match &a.entity_name {
        Some(n) => Some(n.clone()),
        None => None,
    };

    // start from a fresh copy of the target's verb map
    let mut verbs: Vec<(String, String)> = Vec::new();
    let mut ci: usize = 0;
    while ci < a.verbs.len()
        invariant
            0 <= ci <= a.verbs@.len(),
            verbs@.len() == ci,
            forall|t: int|
                0 <= t < ci ==> #[trigger] verbs@[t].0@ == a.verbs@[t].0@ && verbs@[t].1@
                    == a.verbs@[t].1@,
        decreases a.verbs@.len() - ci,
    {
        let kvp = &a.verbs[ci];
        verbs.push((kvp.0.clone(), kvp.1.clone()));
        ci = ci + 1;
    }
    proof {
        lemma_verbs_vv(verbs@);
        lemma_verbs_vv(a.verbs@);
        assert(verbs_vv(verbs@) =~= av.verbs);
        assert(entry_wf(av));
    }

    // fold the source's verbs in; a key already bound is a collision
    let mut i: usize = 0;
    while i < b.verbs.len()
        invariant
            0 <= i <= b.verbs@.len(),
            entry_wf(entry_view(*a)),
            entry_wf(entry_view(*b)),
            av == entry_view(*a),
            bv == entry_view(*b),
            bv.verbs.len() == b.verbs@.len(),
            forall|t: int|
                0 <= t < b.verbs@.len() ==> #[trigger] bv.verbs[t] == (
                    b.verbs@[t].0@,
                    b.verbs@[t].1@,
                ),
            verbs_union(av.verbs, bv.verbs.take(i as int)) == Some(verbs_vv(verbs@)),
            map_sorted(verbs_vv(verbs@)),
        decreases b.verbs@.len() - i,
    {
        let ghost cur = verbs_vv(verbs@);
        proof {
            assert(bv.verbs.take(i + 1).drop_last() =~= bv.verbs.take(i as int));
            assert(bv.verbs.take(i + 1).last() == bv.verbs[i as int]);
        }
        let kv = &b.verbs[i];
        match kv_find(&verbs, kv.0.as_str()) {
            Some(_) => {
                proof {
                    lemma_verbs_vv_has(verbs@, kv.0@);
                    assert(map_has(verbs_vv(verbs@), kv.0@));
                    assert(verbs_union(av.verbs, bv.verbs.take(i + 1)) is None);
                    lemma_verbs_union_none_mono(av.verbs, bv.verbs, i + 1);
                }
                return Err(HierarchyError::VerbCollision);
            },
            None => {
                proof {
                    lemma_verbs_vv_has(verbs@, kv.0@);
                }
                let ghost oldverbs = verbs@;
                let keyc = kv.0.clone();
                let valc = kv.1.clone();
                let ghost vsnap = valc;
                kv_insert(&mut verbs, keyc, valc);
                proof {
                    lemma_verbs_vv_minsert(oldverbs, verbs@, kv.0@, vsnap);
                    assert(vsnap@ == kv.1@);
                    lemma_minsert_sorted(cur, kv.0@, kv.1@);
                }
            },
        }
        i = i + 1;
    }
    proof {
        assert(bv.verbs.take(b.verbs@.len() as int) =~= bv.verbs);
        assert(bv.entries.take(0) =~= Seq::<(Seq<char>, EntryV)>::empty());
    }
    let ghost vm_done = verbs_vv(verbs@);

    // start from a fresh deep copy of the target's children
    let mut entries: Vec<(String, HierarchyEntry)> = Vec::new();
    let mut cj: usize = 0;
    while cj < a.entries.len()
        invariant
            0 <= cj <= a.entries@.len(),
            entries@.len() == cj,
            forall|t: int|
                0 <= t < cj ==> #[trigger] entries@[t].0@ == a.entries@[t].0@ && entry_view(
                    entries@[t].1,
                ) == entry_view(a.entries@[t].1),
        decreases a.entries@.len() - cj,
    {
        let kc = &a.entries[cj];
        let cloned_child = entry_clone(&kc.1);
        let ghost prelen = entries@.len();
        entries.push((kc.0.clone(), cloned_child));
        proof {
            assert(entries@[prelen as int].0@ == a.entries@[cj as int].0@);
            assert(entry_view(entries@[prelen as int].1) == entry_view(a.entries@[cj as int].1));
        }
        cj = cj + 1;
    }
    proof {
        lemma_entries_view(entries@);
        lemma_entries_view(a.entries@);
        assert(entries_view(entries@) =~= av.entries);
        assert(entry_wf(av));
        assert forall|t: int|
            0 <= t < entries@.len() implies entry_wf(
            #[trigger] entries_view(entries@)[t].1,
        ) by {
            assert(entries_view(entries@)[t].1 == av.entries[t].1);
            assert(entry_wf(av.entries[t].1));
        }
    }

    // fold the source's children in, merging under shared keys
    let mut j: usize = 0;
    while j < b.entries.len()
        invariant
            0 <= j <= b.entries@.len(),
            entry_wf(entry_view(*a)),
            entry_wf(entry_view(*b)),
            av == entry_view(*a),
            bv == entry_view(*b),
            bv.entries.len() == b.entries@.len(),
            forall|t: int|
                0 <= t < b.entries@.len() ==> #[trigger] bv.entries[t] == (
                    b.entries@[t].0@,
                    entry_view(b.entries@[t].1),
                ),
            verbs_vv(verbs@) == vm_done,
            verbs_union(av.verbs, bv.verbs) == Some(vm_done),
            map_sorted(vm_done),
            entries_union(av.entries, bv.entries.take(j as int)) == Some(
                entries_view(entries@),
            ),
            map_sorted(entries_view(entries@)),
            forall|t: int|
                0 <= t < entries@.len() ==> entry_wf(
                    #[trigger] entries_view(entries@)[t].1,
                ),
        decreases b.entries@.len() - j,
    {
        let ghost cur = entries_view(entries@);
        proof {
            assert(bv.entries.take(j + 1).drop_last() =~= bv.entries.take(j as int));
            assert(bv.entries.take(j + 1).last() == bv.entries[j as int]);
            lemma_entries_view(entries@);
        }
        let key = &b.entries[j].0;
        match kv_find(&entries, key.as_str()) {
            Some(t) => {
                proof {
                    assert(cur[t as int].0 == key@);
                    lemma_map_get_at(cur, key@, t as int);
                    assert(map_get(cur, key@) == Some(cur[t as int].1));
                    assert(entry_wf(cur[t as int].1));
                    assert(entry_wf(bv.entries[j as int].1));
                    assert(entry_view(entries@[t as int].1) == cur[t as int].1);
                }
                let merged = match merge_make(&entries[t].1, &b.entries[j].1) {
                    Ok(m) => m,
                    Err(e) => {
                        proof {
                            assert(merge_v(cur[t as int].1, bv.entries[j as int].1) is None);
                            assert(entries_union(av.entries, bv.entries.take(j + 1)) is None);
                            lemma_entries_union_none_mono(av.entries, bv.entries, j + 1);
                        }
                        return Err(e);
                    },
                };
                let removed = entries.remove(t);
                let (nm, _replaced) = removed;
                entries.insert(t, (nm, merged));
                proof {
                    lemma_entries_view(entries@);
                    let mergedv = merge_v(cur[t as int].1, bv.entries[j as int].1)->Some_0;
                    assert forall|u: int| 0 <= u < t implies lex_lt(
                        #[trigger] cur[u].0,
                        key@,
                    ) by {}
                    lemma_minsert_at(cur, key@, mergedv, t as int);
                    assert(minsert(cur, key@, mergedv) == cur.update(t as int, (key@, mergedv)));
                    assert(entries_view(entries@) =~= cur.update(t as int, (key@, mergedv)));
                    assert(map_sorted(entries_view(entries@))) by {
                        assert forall|u: int, w: int|
                            0 <= u < w < entries_view(entries@).len() implies lex_lt(
                            entries_view(entries@)[u].0,
                            entries_view(entries@)[w].0,
                        ) by {
                            assert(entries_view(entries@)[u].0 == cur[u].0);
                            assert(entries_view(entries@)[w].0 == cur[w].0);
                        }
                    }
                    assert forall|u: int|
                        0 <= u < entries@.len() implies entry_wf(
                        #[trigger] entries_view(entries@)[u].1,
                    ) by {
                        if u != t {
                            assert(entries_view(entries@)[u].1 == cur[u].1);
                        }
                    }
                }
            },
            None => {
                proof {
                    lemma_entries_has(entries@, key@);
                    lemma_smap_get_none(cur, key@);
                }
                let cloned = entry_clone(&b.entries[j].1);
                let ghost cloneview = entry_view(cloned);
                let ghost oldentries = entries@;
                kv_insert(&mut entries, key.clone(), cloned);
                proof {
                    assert(cur == entries_view(oldentries));
                    lemma_entries_minsert(oldentries, entries@, key@, cloned);
                    assert(entries_view(entries@) == minsert(cur, key@, cloneview));
                    lemma_minsert_sorted(cur, key@, cloneview);
                    assert(cloneview == bv.entries[j as int].1);
                    assert(entry_wf(cloneview));
                    assert forall|u: int|
                        0 <= u < entries@.len() implies entry_wf(
                        #[trigger] entries_view(entries@)[u].1,
                    ) by {
                        lemma_entries_view(entries@);
                        assert(0 <= u < minsert(cur, key@, cloneview).len());
                        lemma_minsert_elements(cur, key@, cloneview, u);
                        if entries_view(entries@)[u] == (key@, cloneview) {
                            assert(entry_wf(cloneview));
                        } else {
                            let w = choose|w: int|
                                0 <= w < cur.len() && cur[w] == minsert(cur, key@, cloneview)[u];
                            assert(entry_wf(cur[w].1));
                        }
                    }
                }
            },
        }
        j = j + 1;
    }
    let r = HierarchyEntry { entity_name, entries, verbs };
    proof {
        assert(bv.entries.take(b.entries@.len() as int) =~= bv.entries);
        assert(entry_view(r) == EntryV {
            entity_name: av.entity_name,
            entries: entries_view(r.entries@),
            verbs: vm_done,
        });
        assert(merge_v(av, bv) == Some(entry_view(r)));
        let ev = entry_view(r);
        assert forall|t: int| 0 <= t < ev.entries.len() implies entry_wf(
            #[trigger] ev.entries[t].1,
        ) by {
            lemma_entries_view(r.entries@);
            assert(0 <= t < r.entries@.len());
            assert(ev.entries[t].1 == entries_view(r.entries@)[t].1);
        }
        assert(entry_wf(ev));
    }
    Ok(r)
}

impl HierarchyEntry {
    /// Merges `other` into this entry. The caller has already
    /// established that both resolved to the same entity name; the merge
    /// itself only joins the verb and child maps, and fails on the first
    /// verb key claimed by both sides. All or nothing: on a collision
    /// anywhere in the recursive merge the entry is left exactly as it
    /// was.
    pub fn merge(&mut self, other: HierarchyEntry) -> (res: Result<(), HierarchyError>)
        requires
            entry_wf(entry_view(*old(self))),
            entry_wf(entry_view(other)),
        ensures
            match res {
                Ok(_) => merge_v(entry_view(*old(self)), entry_view(other)) == Some(
                    entry_view(*final(self)),
                ) && entry_wf(entry_view(*final(self))),
                Err(_) => merge_v(entry_view(*old(self)), entry_view(other)) is None
                    && *final(self) == *old(self),
            },
    {
        match merge_make(self, &other) {
            Ok(m) => {
                *self = m;
                Ok(())
            },
            Err(e) => Err(e),
        }
    }
}


// ------------------------------------------------------------------
// Executable builder.
// ------------------------------------------------------------------

/// Where a scan for an entity name stopped determines what
/// `find_entity` is.
pub proof fn lemma_find_entity_at(
    acc: Seq<(Seq<char>, EntryV)>,
    name: Option<Seq<char>>,
    t: int,
)
    requires
        0 <= t <= acc.len(),
        forall|u: int| 0 <= u < t ==> (#[trigger] acc[u].1).entity_name != name,
        t < acc.len() ==> acc[t].1.entity_name == name,
    ensures
        find_entity(acc, name) == if t < acc.len() {
            Some(t)
        } else {
            None::<int>
        },
    decreases acc.len(),
{
    if acc.len() == 0 {
    } else if t == 0 {
    } else {
        assert(acc[0].1.entity_name != name);
        let ad = acc.drop_first();
        assert(forall|u: int| 0 <= u < t - 1 ==> (#[trigger] ad[u].1).entity_name != name);
        if t - 1 < ad.len() {
            assert(ad[t - 1] == acc[t]);
        }
        lemma_find_entity_at(ad, name, t - 1);
    }
}


/// The first entry whose resolved entity name equals `name`, as
/// `find_entity` describes.
fn find_sibling(entries: &Vec<(String, HierarchyEntry)>, name: &Option<String>) -> (found: Option<
    usize,
>)
    ensures
        match found {
            Some(f) => f < entries@.len() && find_entity(
                entries_view(entries@),
                opt_str_view(*name),
            ) == Some(f as int),
            None => find_entity(entries_view(entries@), opt_str_view(*name)) is None,
        },
{
    proof {
        lemma_entries_view(entries@);
    }
    let ghost acc = entries_view(entries@);
    let mut t: usize = 0;
    loop
        invariant
            0 <= t <= entries@.len(),
            acc == entries_view(entries@),
            acc.len() == entries@.len(),
            forall|u: int|
                0 <= u < entries@.len() ==> #[trigger] acc[u] == (
                    entries@[u].0@,
                    entry_view(entries@[u].1),
                ),
            forall|u: int|
                0 <= u < t ==> (#[trigger] acc[u].1).entity_name != opt_str_view(*name),
        ensures
            0 <= t <= entries@.len(),
            forall|u: int|
                0 <= u < t ==> (#[trigger] acc[u].1).entity_name != opt_str_view(*name),
            t < entries@.len() ==> acc[t as int].1.entity_name == opt_str_view(*name),
        decreases entries@.len() - t,
    {
        if t == entries.len() {
            break;
        }
        if opt_name_eq(&entries[t].1.entity_name, name) {
            break;
        }
        t = t + 1;
    }
    proof {
        lemma_find_entity_at(acc, opt_str_view(*name), t as int);
    }
    if t < entries.len() {
        Some(t)
    } else {
        None
    }
}

proof fn lemma_scan_op_none_mono(
    ents: Seq<Seq<char>>,
    vm: Seq<(Seq<char>, Seq<char>)>,
    op: Seq<char>,
    verbs: Seq<Seq<char>>,
    j: int,
)
    requires
        0 <= j <= verbs.len(),
        scan_op(ents, vm, op, verbs.take(j)) is None,
    ensures
        scan_op(ents, vm, op, verbs) is None,
    decreases verbs.len() - j,
{
    if j < verbs.len() {
        assert(verbs.take(j + 1).drop_last() =~= verbs.take(j));
        lemma_scan_op_none_mono(ents, vm, op, verbs, j + 1);
    } else {
        assert(verbs.take(j) =~= verbs);
    }
}

proof fn lemma_scan_ops_none_mono(
    ents: Seq<Seq<char>>,
    vm: Seq<(Seq<char>, Seq<char>)>,
    ops: Seq<Seq<char>>,
    verbs: Seq<Seq<char>>,
    i: int,
)
    requires
        0 <= i <= ops.len(),
        scan_ops(ents, vm, ops.take(i), verbs) is None,
    ensures
        scan_ops(ents, vm, ops, verbs) is None,
    decreases ops.len() - i,
{
    if i < ops.len() {
        assert(ops.take(i + 1).drop_last() =~= ops.take(i));
        lemma_scan_ops_none_mono(ents, vm, ops, verbs, i + 1);
    } else {
        assert(ops.take(i) =~= ops);
    }
}

/// Scans one node's identifiers against the verb list, as `scan_ops`
/// describes: the candidate entities and the verb map, or the collision
/// two distinct identifiers claiming one verb are.
#[verifier::rlimit(100)]
#[verifier::loop_isolation(false)]
fn scan_node(ops: &Vec<String>, verbs: &Vec<String>) -> (res: Result<
    (Vec<String>, Vec<(String, String)>),
    HierarchyError,
>)
    ensures
        match res {
            Ok(pair) => scan_ops(Seq::empty(), Seq::empty(), ss_view(ops@), ss_view(verbs@))
                == Some((ss_view(pair.0@), verbs_vv(pair.1@))) && set_sorted(ss_view(pair.0@))
                && map_sorted(verbs_vv(pair.1@)),
            Err(_) => scan_ops(Seq::empty(), Seq::empty(), ss_view(ops@), ss_view(verbs@))
                is None,
        },
{
    let ghost ov = ss_view(ops@);
    let ghost vv = ss_view(verbs@);
    let ghost e0 = Seq::<Seq<char>>::empty();
    let ghost m0 = Seq::<(Seq<char>, Seq<char>)>::empty();
    let mut ents: Vec<String> = Vec::new();
    let mut vm: Vec<(String, String)> = Vec::new();
    proof {
        assert(ss_view(ents@) =~= e0);
        assert(verbs_vv(vm@) =~= m0);
        assert(ov.take(0) =~= Seq::<Seq<char>>::empty());
    }
    let mut i: usize = 0;
    while i < ops.len()
        invariant
            0 <= i <= ops@.len(),
            ov.len() == ops@.len(),
            scan_ops(e0, m0, ov.take(i as int), vv) == Some((ss_view(ents@), verbs_vv(vm@))),
            set_sorted(ss_view(ents@)),
            map_sorted(verbs_vv(vm@)),
        decreases ops@.len() - i,
    {
        let ghost ents_pre = ss_view(ents@);
        let ghost vm_pre = verbs_vv(vm@);
        let op = &ops[i];
        proof {
            assert(ov.take(i + 1).drop_last() =~= ov.take(i as int));
            assert(ov.take(i + 1).last() == ov[i as int]);
            assert(ov[i as int] == op@);
            assert(vv.take(0) =~= Seq::<Seq<char>>::empty());
        }
        let mut j: usize = 0;
        while j < verbs.len()
            invariant
                0 <= j <= verbs@.len(),
                scan_op(ents_pre, vm_pre, op@, vv.take(j as int)) == Some(
                    (ss_view(ents@), verbs_vv(vm@)),
                ),
                set_sorted(ss_view(ents@)),
                map_sorted(verbs_vv(vm@)),
            decreases verbs@.len() - j,
        {
            proof {
                assert(vv.take(j + 1).drop_last() =~= vv.take(j as int));
                assert(vv.take(j + 1).last() == vv[j as int]);
                assert(vv[j as int] == verbs@[j as int]@);
            }
            let ghost scur = ss_view(ents@);
            let ghost vcur = verbs_vv(vm@);
            match strip_prefix(op.as_str(), verbs[j].as_str()) {
                Some(rem) => {
                    match kv_find(&vm, verbs[j].as_str()) {
                        Some(t) => {
                            proof {
                                lemma_verbs_vv(vm@);
                                assert(vcur[t as int].0 == verbs@[j as int]@);
                                lemma_map_get_at(vcur, verbs@[j as int]@, t as int);
                                assert(map_has(vcur, vv[j as int])) by {
                                    assert(vcur[t as int].0 == vv[j as int]);
                                }
                            }
                            if !crate::text::str_eq(vm[t].1.as_str(), op.as_str()) {
                                proof {
                                    assert(map_get(vcur, vv[j as int]) != Some(op@));
                                    assert(scan_op(ents_pre, vm_pre, op@, vv.take(j + 1))
                                        is None);
                                    lemma_scan_op_none_mono(ents_pre, vm_pre, op@, vv, j + 1);
                                    assert(scan_ops(e0, m0, ov.take(i + 1), vv) is None);
                                    lemma_scan_ops_none_mono(e0, m0, ov, vv, i + 1);
                                }
                                return Err(HierarchyError::VerbCollision);
                            }
                            proof {
                                assert(map_get(vcur, vv[j as int]) == Some(op@));
                            }
                        },
                        None => {
                            proof {
                                lemma_verbs_vv_has(vm@, verbs@[j as int]@);
                                assert(!map_has(vcur, vv[j as int]));
                            }
                        },
                    }
                    let remo = rem.to_owned();
                    sset_insert(&mut ents, remo);
                    let ghost oldvm = vm@;
                    let keyc = verbs[j].clone();
                    let valc = op.clone();
                    let ghost vsnap = valc;
                    kv_insert(&mut vm, keyc, valc);
                    proof {
                        lemma_sinsert_sorted(scur, rem@);
                        lemma_verbs_vv_minsert(oldvm, vm@, verbs@[j as int]@, vsnap);
                        lemma_minsert_sorted(vcur, verbs@[j as int]@, op@);
                    }
                },
                None => {},
            }
            j = j + 1;
        }
        proof {
            assert(vv.take(verbs@.len() as int) =~= vv);
        }
        i = i + 1;
    }
    proof {
        assert(ov.take(ops@.len() as int) =~= ov);
    }
    Ok((ents, vm))
}

/// Builds one raw node by reference, as `build_v` describes.
#[verifier::rlimit(100)]
#[verifier::loop_isolation(false)]
fn build_ref(r: &RawEntry, prefix: &Vec<String>, verbs: &Vec<String>) -> (res: Result<
    Option<HierarchyEntry>,
    HierarchyError,
>)
    requires
        raw_wf(raw_view(*r)),
    ensures
        match res {
            Ok(Some(e)) => build_v(raw_view(*r), ss_view(prefix@), ss_view(verbs@))
                == BuildV::Built(entry_view(e)) && entry_wf(entry_view(e)),
            Ok(None) => build_v(raw_view(*r), ss_view(prefix@), ss_view(verbs@)) is Skip,
            Err(_) => build_v(raw_view(*r), ss_view(prefix@), ss_view(verbs@)) is Fail,
        },
    decreases *r,
{
    let ghost rv = raw_view(*r);
    let ghost pv = ss_view(prefix@);
    let ghost vv = ss_view(verbs@);

    // Step 1: the local scan of the identifiers attached here.
    proof {
        assert(rv.ops == ss_view(r.operation_ids@));
    }
    let (ents, vm) = match scan_node(&r.operation_ids, verbs) {
        Ok(pair) => pair,
        Err(e) => {
            proof {
                assert(build_v(rv, pv, vv) is Fail);
            }
            return Err(e);
        },
    };
    let ghost scanned = scan_ops(Seq::empty(), Seq::empty(), rv.ops, vv)->Some_0;
    proof {
        assert(scan_ops(Seq::empty(), Seq::empty(), rv.ops, vv) == Some(scanned));
        assert(ss_view(ents@) == scanned.0);
        assert(verbs_vv(vm@) == scanned.1);
    }

    // Step 2: resolve the entity name, stripping ancestor names.
    let entity_name: Option<String> = if ents.len() > 0 {
        let mut en: String = ents[0].clone();
        proof {
            assert(en@ == scanned.0[0]);
            assert(pv.take(0) =~= Seq::<Seq<char>>::empty());
        }
        let mut pi: usize = 0;
        while pi < prefix.len()
            invariant
                0 <= pi <= prefix@.len(),
                pv == ss_view(prefix@),
                pv.len() == prefix@.len(),
                en@ == strip_ancestors(scanned.0[0], pv.take(pi as int)),
            decreases prefix@.len() - pi,
        {
            proof {
                assert(pv.take(pi + 1).drop_last() =~= pv.take(pi as int));
                assert(pv.take(pi + 1).last() == pv[pi as int]);
                assert(pv[pi as int] == prefix@[pi as int]@);
            }
            let stripped: Option<String> = match strip_prefix(en.as_str(), prefix[pi].as_str()) {
                Some(rr) => Some(rr.to_owned()),
                None => None,
            };
            if let Some(t) = stripped {
                en = t;
            }
            pi = pi + 1;
        }
        proof {
            assert(pv.take(prefix@.len() as int) =~= pv);
        }
        Some(en)
    } else {
        None
    };
    let ghost ename: Option<Seq<char>> = if scanned.0.len() == 0 {
        None
    } else {
        Some(strip_ancestors(scanned.0[0], pv))
    };
    proof {
        assert(opt_str_view(entity_name) == ename);
    }

    // Step 3: prune nodes that carry nothing.
    proof {
        lemma_raw_children_view(r.children@);
    }
    if r.children.len() == 0 && r.operation_ids.len() == 0 {
        return Ok(None);
    }

    // Step 4: the prefix handed to the children.
    let mut new_prefix: Vec<String> = Vec::new();
    let mut pi: usize = 0;
    while pi < prefix.len()
        invariant
            0 <= pi <= prefix@.len(),
            new_prefix@.len() == pi,
            forall|t: int| 0 <= t < pi ==> #[trigger] new_prefix@[t]@ == prefix@[t]@,
        decreases prefix@.len() - pi,
    {
        new_prefix.push(prefix[pi].clone());
        pi = pi + 1;
    }
    if let Some(e) = &entity_name {
        new_prefix.push(e.clone());
    }
    let ghost npv: Seq<Seq<char>> = match ename {
        Some(e) => pv.push(e),
        None => pv,
    };
    proof {
        assert(ss_view(new_prefix@) =~= npv);
    }

    // Step 5: build the children, merging equal entity names.
    let mut entries: Vec<(String, HierarchyEntry)> = Vec::new();
    proof {
        assert(rv.children.take(0) =~= Seq::<(Seq<char>, RawV)>::empty());
        assert(entries_view(entries@) =~= Seq::<(Seq<char>, EntryV)>::empty());
    }
    let mut ci: usize = 0;
    while ci < r.children.len()
        invariant
            0 <= ci <= r.children@.len(),
            rv == raw_view(*r),
            raw_wf(rv),
            vv == ss_view(verbs@),
            npv == ss_view(new_prefix@),
            rv.children.len() == r.children@.len(),
            forall|t: int|
                0 <= t < r.children@.len() ==> #[trigger] rv.children[t] == (
                    r.children@[t].0@,
                    raw_view(r.children@[t].1),
                ),
            build_children(rv.children.take(ci as int), npv, vv) == Some(
                entries_view(entries@),
            ),
            map_sorted(entries_view(entries@)),
            forall|t: int|
                0 <= t < entries@.len() ==> entry_wf(
                    #[trigger] entries_view(entries@)[t].1,
                ),
        decreases r.children@.len() - ci,
    {
        let ghost acc = entries_view(entries@);
        proof {
            assert(rv.children.take(ci + 1).drop_last() =~= rv.children.take(ci as int));
            assert(rv.children.take(ci + 1).last() == rv.children[ci as int]);
            assert(raw_wf(rv.children[ci as int].1));
            assert forall|x: int| 0 <= x < acc.len() implies entry_wf(#[trigger] acc[x].1) by {
                lemma_entries_view(entries@);
                assert(acc[x].1 == entries_view(entries@)[x].1);
            }
        }
        let child_res = build_ref(&r.children[ci].1, &new_prefix, verbs);
        match child_res {
            Err(e) => {
                proof {
                    assert(build_children(rv.children.take(ci + 1), npv, vv) is None);
                    lemma_build_children_none_mono(rv.children, npv, vv, ci + 1);
                    assert(rv.children.len() > 0);
                    assert(build_v(rv, pv, vv) is Fail);
                }
                return Err(e);
            },
            Ok(None) => {},
            Ok(Some(built)) => {
                // find an earlier sibling with the same entity name
                let found = find_sibling(&entries, &built.entity_name);
                match found {
                    Some(f) => {
                        proof {
                            lemma_entries_view(entries@);
                            assert(find_entity(acc, entry_view(built).entity_name) == Some(
                                f as int,
                            ));
                            assert(entry_wf(acc[f as int].1));
                        }
                        let removed = entries.remove(f);
                        let (nm, mut ex) = removed;
                        proof {
                            assert(entry_view(ex) == acc[f as int].1);
                        }
                        let mres = ex.merge(built);
                        match mres {
                            Err(e) => {
                                proof {
                                    assert(build_children(rv.children.take(ci + 1), npv, vv)
                                        is None);
                                    lemma_build_children_none_mono(rv.children, npv, vv, ci + 1);
                                    assert(rv.children.len() > 0);
                                    assert(build_v(rv, pv, vv) is Fail);
                                }
                                return Err(e);
                            },
                            Ok(_) => {
                                entries.insert(f, (nm, ex));
                                proof {
                                    lemma_entries_view(entries@);
                                    let merged = entry_view(ex);
                                    assert forall|u: int| 0 <= u < f implies lex_lt(
                                        #[trigger] acc[u].0,
                                        acc[f as int].0,
                                    ) by {}
                                    lemma_minsert_at(acc, acc[f as int].0, merged, f as int);
                                    assert(entries_view(entries@) =~= acc.update(
                                        f as int,
                                        (acc[f as int].0, merged),
                                    ));
                                    assert(map_sorted(entries_view(entries@))) by {
                                        assert forall|u: int, w: int|
                                            0 <= u < w < entries_view(entries@).len() implies
                                            lex_lt(
                                            entries_view(entries@)[u].0,
                                            entries_view(entries@)[w].0,
                                        ) by {
                                            assert(entries_view(entries@)[u].0 == acc[u].0);
                                            assert(entries_view(entries@)[w].0 == acc[w].0);
                                        }
                                    }
                                    assert forall|u: int|
                                        0 <= u < entries@.len() implies entry_wf(
                                        #[trigger] entries_view(entries@)[u].1,
                                    ) by {
                                        if u != f {
                                            assert(entries_view(entries@)[u].1 == acc[u].1);
                                        }
                                    }
                                }
                            },
                        }
                    },
                    None => {
                        proof {
                            assert(find_entity(acc, entry_view(built).entity_name) is None);
                        }
                        let ghost builtview = entry_view(built);
                        let ghost oldentries = entries@;
                        let keyc = r.children[ci].0.clone();
                        kv_insert(&mut entries, keyc, built);
                        proof {
                            lemma_entries_minsert(
                                oldentries,
                                entries@,
                                r.children@[ci as int].0@,
                                built,
                            );
                            lemma_minsert_sorted(acc, r.children@[ci as int].0@, builtview);
                            assert forall|u: int|
                                0 <= u < entries@.len() implies entry_wf(
                                #[trigger] entries_view(entries@)[u].1,
                            ) by {
                                lemma_entries_view(entries@);
                                lemma_minsert_elements(
                                    acc,
                                    r.children@[ci as int].0@,
                                    builtview,
                                    u,
                                );
                                if entries_view(entries@)[u] == (
                                    r.children@[ci as int].0@,
                                    builtview,
                                ) {
                                } else {
                                    let w = choose|w: int|
                                        0 <= w < acc.len() && acc[w] == minsert(
                                            acc,
                                            r.children@[ci as int].0@,
                                            builtview,
                                        )[u];
                                    assert(entry_wf(acc[w].1));
                                }
                            }
                        }
                    },
                }
            },
        }
        ci = ci + 1;
    }
    proof {
        assert(rv.children.take(r.children@.len() as int) =~= rv.children);
    }
    let result = HierarchyEntry { entity_name, entries, verbs: vm };
    proof {
        assert(entry_view(result) == EntryV {
            entity_name: ename,
            entries: entries_view(result.entries@),
            verbs: scanned.1,
        });
        assert(build_v(rv, pv, vv) == BuildV::Built(entry_view(result)));
        let ev = entry_view(result);
        assert forall|t: int| 0 <= t < ev.entries.len() implies entry_wf(
            #[trigger] ev.entries[t].1,
        ) by {
            lemma_entries_view(result.entries@);
            assert(0 <= t < result.entries@.len());
            assert(ev.entries[t].1 == entries_view(result.entries@)[t].1);
        }
        assert(entry_wf(ev));
    }
    Ok(Some(result))
}

impl RawEntry {
    /// Builds this subtree with no resolved ancestors.
    pub fn into_hierarchy_entry(self, verbs: &Vec<String>) -> (res: Result<
        Option<HierarchyEntry>,
        HierarchyError,
    >)
        requires
            raw_wf(raw_view(self)),
        ensures
            match res {
                Ok(Some(e)) => build_v(raw_view(self), Seq::empty(), ss_view(verbs@))
                    == BuildV::Built(entry_view(e)) && entry_wf(entry_view(e)),
                Ok(None) => build_v(raw_view(self), Seq::empty(), ss_view(verbs@)) is Skip,
                Err(_) => build_v(raw_view(self), Seq::empty(), ss_view(verbs@)) is Fail,
            },
    {
        let empty_prefix: Vec<String> = Vec::new();
        proof {
            assert(ss_view(empty_prefix@) =~= Seq::<Seq<char>>::empty());
        }
        build_ref(&self, &empty_prefix, verbs)
    }

    /// Builds this subtree under the given already-resolved ancestor
    /// entity names.
    pub fn into_hierarchy_entry_inner(
        self,
        prefix: &Vec<String>,
        verbs: &Vec<String>,
    ) -> (res: Result<Option<HierarchyEntry>, HierarchyError>)
        requires
            raw_wf(raw_view(self)),
        ensures
            match res {
                Ok(Some(e)) => build_v(raw_view(self), ss_view(prefix@), ss_view(verbs@))
                    == BuildV::Built(entry_view(e)) && entry_wf(entry_view(e)),
                Ok(None) => build_v(raw_view(self), ss_view(prefix@), ss_view(verbs@)) is Skip,
                Err(_) => build_v(raw_view(self), ss_view(prefix@), ss_view(verbs@)) is Fail,
            },
    {
        build_ref(&self, prefix, verbs)
    }
}


// ------------------------------------------------------------------
// The whole pipeline, executably.
// ------------------------------------------------------------------

/// Adds the present identifiers of `new_ops` to a sorted identifier set.
fn add_ids(set: &mut Vec<String>, new_ops: &Vec<Option<String>>)
    ensures
        ss_view(final(set)@) == add_ops(ss_view(old(set)@), ops_opt_view(new_ops@)),
{
    let ghost full = ops_opt_view(new_ops@);
    let mut i: usize = 0;
    proof {
        assert(full.take(0) =~= Seq::<Option<Seq<char>>>::empty());
    }
    while i < new_ops.len()
        invariant
            0 <= i <= new_ops@.len(),
            full == ops_opt_view(new_ops@),
            ss_view(set@) == add_ops(ss_view(old(set)@), full.take(i as int)),
        decreases new_ops@.len() - i,
    {
        proof {
            assert(full.take(i + 1).drop_last() =~= full.take(i as int));
            assert(full.take(i + 1).last() == full[i as int]);
        }
        match &new_ops[i] {
            Some(id) => {
                sset_insert(set, id.clone());
            },
            None => {},
        }
        i = i + 1;
    }
    proof {
        assert(full.take(new_ops@.len() as int) =~= full);
    }
}

impl Hierarchy {
    /// Derives the hierarchy from the paths of an API description and a
    /// path prefix: walk the paths under the prefix into the raw trie,
    /// infer the verb set from the collected identifiers, and build the
    /// entity tree. Fails exactly when two distinct identifiers claim
    /// one verb -- at a single node, or across entries joined by a
    /// merge -- and then no hierarchy is produced.
    #[verifier::rlimit(100)]
    #[verifier::loop_isolation(false)]
    pub fn from_openapi_spec(prefix: &str, spec: &ApiSpec) -> (res: Result<
        Hierarchy,
        HierarchyError,
    >)
        ensures
            match res {
                Ok(h) => hierarchy_spec(api_view(*spec), prefix@) == Some(hier_view(h))
                    && map_sorted(hier_view(h)) && forall|t: int|
                    0 <= t < hier_view(h).len() ==> entry_wf(#[trigger] hier_view(h)[t].1),
                Err(_) => hierarchy_spec(api_view(*spec), prefix@) is None,
            },
    {
        let ghost pathsv = api_view(*spec);

        // walk the paths under the prefix
        let mut root = RawEntry::empty();
        let mut op_set: Vec<String> = Vec::new();
        proof {
            assert(pathsv.take(0) =~= Seq::<(Seq<char>, Seq<Option<Seq<char>>>)>::empty());
            assert(ss_view(op_set@) =~= Seq::<Seq<char>>::empty());
        }
        let mut i: usize = 0;
        while i < spec.paths.len()
            invariant
                0 <= i <= spec.paths@.len(),
                pathsv.len() == spec.paths@.len(),
                raw_view(root) == walk_all(pathsv.take(i as int), prefix@).0,
                ss_view(op_set@) == walk_all(pathsv.take(i as int), prefix@).1,
            decreases spec.paths@.len() - i,
        {
            proof {
                assert(pathsv.take(i + 1).drop_last() =~= pathsv.take(i as int));
                assert(pathsv.take(i + 1).last() == pathsv[i as int]);
                assert(pathsv[i as int] == path_ops_view(spec.paths@[i as int]));
            }
            let po = &spec.paths[i];
            match strip_prefix(po.template.as_str(), prefix) {
                None => {},
                Some(rem) => {
                    match crate::path::Path::from_str(rem) {
                        None => {},
                        Some(path) => {
                            let consts = path.consts();
                            proof {
                                lemma_walk_all_wf(pathsv.take(i as int), prefix@);
                            }
                            root.insert_path(&consts, 0, &po.operation_ids);
                            add_ids(&mut op_set, &po.operation_ids);
                        },
                    }
                },
            }
            i = i + 1;
        }
        proof {
            assert(pathsv.take(spec.paths@.len() as int) =~= pathsv);
            lemma_walk_all_wf(pathsv, prefix@);
        }
        let ghost opsv = ss_view(op_set@);
        let ghost rootv = raw_view(root);

        // pass 1: entity discovery
        let seeds = known_verbs();
        let ghost seedsv = seed_verbs();
        let mut entities: Vec<String> = Vec::new();
        proof {
            assert(opsv.take(0) =~= Seq::<Seq<char>>::empty());
            assert(ss_view(entities@) =~= Seq::<Seq<char>>::empty());
        }
        let mut i2: usize = 0;
        while i2 < op_set.len()
            invariant
                0 <= i2 <= op_set@.len(),
                opsv.len() == op_set@.len(),
                ss_view(seeds@) == seedsv,
                seedsv.len() == seeds@.len(),
                ss_view(entities@) == discover_entities(opsv.take(i2 as int), seedsv),
            decreases op_set@.len() - i2,
        {
            let ghost epre = ss_view(entities@);
            let op = &op_set[i2];
            proof {
                assert(opsv.take(i2 + 1).drop_last() =~= opsv.take(i2 as int));
                assert(opsv.take(i2 + 1).last() == opsv[i2 as int]);
                assert(opsv[i2 as int] == op@);
                assert(seedsv.take(0) =~= Seq::<Seq<char>>::empty());
            }
            let mut j: usize = 0;
            while j < seeds.len()
                invariant
                    0 <= j <= seeds@.len(),
                    ss_view(entities@) == ent_scan_op(epre, op@, seedsv.take(j as int)),
                decreases seeds@.len() - j,
            {
                proof {
                    assert(seedsv.take(j + 1).drop_last() =~= seedsv.take(j as int));
                    assert(seedsv.take(j + 1).last() == seedsv[j as int]);
                    assert(seedsv[j as int] == seeds@[j as int]@);
                }
                match strip_prefix(op.as_str(), seeds[j].as_str()) {
                    Some(rem) => {
                        let sing = if crate::text::check_all_ascii(rem) {
                            singularize(rem)
                        } else {
                            rem.to_owned()
                        };
                        sset_insert(&mut entities, sing);
                    },
                    None => {},
                }
                j = j + 1;
            }
            proof {
                assert(seedsv.take(seeds@.len() as int) =~= seedsv);
            }
            i2 = i2 + 1;
        }
        proof {
            assert(opsv.take(op_set@.len() as int) =~= opsv);
        }
        let ghost entsv = ss_view(entities@);

        // pass 2: verb discovery
        let mut verbs = known_verbs();
        proof {
            assert(ss_view(verbs@) == discover_verbs(opsv.take(0), entsv, seedsv));
        }
        let mut i3: usize = 0;
        while i3 < op_set.len()
            invariant
                0 <= i3 <= op_set@.len(),
                opsv.len() == op_set@.len(),
                entsv == ss_view(entities@),
                entsv.len() == entities@.len(),
                ss_view(verbs@) == discover_verbs(opsv.take(i3 as int), entsv, seedsv),
            decreases op_set@.len() - i3,
        {
            let op = &op_set[i3];
            proof {
                assert(opsv.take(i3 + 1).drop_last() =~= opsv.take(i3 as int));
                assert(opsv.take(i3 + 1).last() == opsv[i3 as int]);
                assert(opsv[i3 as int] == op@);
            }
            let mut best: Option<String> = None;
            let mut j: usize = 0;
            while j < entities.len()
                invariant
                    0 <= j <= entities@.len(),
                    best_verb(op@, entsv, 0, None) == best_verb(
                        op@,
                        entsv,
                        j as int,
                        opt_str_view(best),
                    ),
                decreases entities@.len() - j,
            {
                proof {
                    assert(entsv[j as int] == entities@[j as int]@);
                }
                match strip_suffix(op.as_str(), entities[j].as_str()) {
                    Some(v) => {
                        let better = match &best {
                            None => true,
                            Some(b) => v.unicode_len() < b.as_str().unicode_len(),
                        };
                        if better {
                            best = Some(v.to_owned());
                        }
                    },
                    None => {},
                }
                j = j + 1;
            }
            match best {
                Some(v) => {
                    sset_insert(&mut verbs, v);
                },
                None => {},
            }
            i3 = i3 + 1;
        }
        proof {
            assert(opsv.take(op_set@.len() as int) =~= opsv);
        }
        let ghost vv = ss_view(verbs@);

        // build the top level; no entity merging happens here
        let mut entries: Vec<(String, HierarchyEntry)> = Vec::new();
        let empty_prefix: Vec<String> = Vec::new();
        proof {
            assert(ss_view(empty_prefix@) =~= Seq::<Seq<char>>::empty());
            assert(rootv.children.take(0) =~= Seq::<(Seq<char>, RawV)>::empty());
            assert(entries_view(entries@) =~= Seq::<(Seq<char>, EntryV)>::empty());
            lemma_raw_children_view(root.children@);
        }
        let mut i4: usize = 0;
        while i4 < root.children.len()
            invariant
                0 <= i4 <= root.children@.len(),
                rootv == raw_view(root),
                raw_wf(rootv),
                rootv.children.len() == root.children@.len(),
                forall|t: int|
                    0 <= t < root.children@.len() ==> #[trigger] rootv.children[t] == (
                        root.children@[t].0@,
                        raw_view(root.children@[t].1),
                    ),
                top_build(rootv.children.take(i4 as int), vv) == Some(entries_view(entries@)),
                map_sorted(entries_view(entries@)),
                forall|t: int|
                    0 <= t < entries@.len() ==> entry_wf(
                        #[trigger] entries_view(entries@)[t].1,
                    ),
            decreases root.children@.len() - i4,
        {
            let ghost acc = entries_view(entries@);
            proof {
                assert(rootv.children.take(i4 + 1).drop_last() =~= rootv.children.take(
                    i4 as int,
                ));
                assert(rootv.children.take(i4 + 1).last() == rootv.children[i4 as int]);
                assert(raw_wf(rootv.children[i4 as int].1));
                assert forall|x: int| 0 <= x < acc.len() implies entry_wf(
                    #[trigger] acc[x].1,
                ) by {
                    lemma_entries_view(entries@);
                    assert(acc[x].1 == entries_view(entries@)[x].1);
                }
            }
            let child_res = build_ref(&root.children[i4].1, &empty_prefix, &verbs);
            match child_res {
                Err(e) => {
                    proof {
                        assert(top_build(rootv.children.take(i4 + 1), vv) is None);
                        lemma_top_build_none_mono(rootv.children, vv, i4 + 1);
                    }
                    return Err(e);
                },
                Ok(None) => {},
                Ok(Some(built)) => {
                    let ghost builtview = entry_view(built);
                    let ghost oldentries = entries@;
                    let keyc = root.children[i4].0.clone();
                    kv_insert(&mut entries, keyc, built);
                    proof {
                        lemma_entries_minsert(
                            oldentries,
                            entries@,
                            root.children@[i4 as int].0@,
                            built,
                        );
                        lemma_minsert_sorted(acc, root.children@[i4 as int].0@, builtview);
                        assert forall|u: int|
                            0 <= u < entries@.len() implies entry_wf(
                            #[trigger] entries_view(entries@)[u].1,
                        ) by {
                            lemma_entries_view(entries@);
                            lemma_minsert_elements(
                                acc,
                                root.children@[i4 as int].0@,
                                builtview,
                                u,
                            );
                            if entries_view(entries@)[u] == (
                                root.children@[i4 as int].0@,
                                builtview,
                            ) {
                            } else {
                                let w = choose|w: int|
                                    0 <= w < acc.len() && acc[w] == minsert(
                                        acc,
                                        root.children@[i4 as int].0@,
                                        builtview,
                                    )[u];
                                assert(entry_wf(acc[w].1));
                            }
                        }
                    }
                },
            }
            i4 = i4 + 1;
        }
        proof {
            assert(rootv.children.take(root.children@.len() as int) =~= rootv.children);
        }
        let h = Hierarchy { entries };
        proof {
            assert(hier_view(h) == entries_view(h.entries@));
            assert(hierarchy_spec(pathsv, prefix@) == Some(hier_view(h)));
            lemma_entries_view(h.entries@);
            assert forall|t: int| 0 <= t < hier_view(h).len() implies entry_wf(
                #[trigger] hier_view(h)[t].1,
            ) by {
                assert(0 <= t < h.entries@.len());
                assert(hier_view(h)[t].1 == entries_view(h.entries@)[t].1);
            }
        }
        Ok(h)
    }
}


// ------------------------------------------------------------------
// Stated laws.
// ------------------------------------------------------------------

/// Insertion never removes a member.
pub proof fn lemma_sinsert_keeps(s: Seq<Seq<char>>, k: Seq<char>, v: Seq<char>)
    requires
        set_has(s, v),
    ensures
        set_has(sinsert(s, k), v),
    decreases s.len(),
{
    let r = sinsert(s, k);
    if s.len() == 0 {
    } else if lex_lt(k, s[0]) {
        let i = choose|i: int| 0 <= i < s.len() && s[i] == v;
        assert(r[i + 1] == v);
    } else if k == s[0] {
    } else {
        let i = choose|i: int| 0 <= i < s.len() && s[i] == v;
        if i == 0 {
            assert(r[0] == v);
        } else {
            assert(s.drop_first()[i - 1] == v);
            lemma_sinsert_keeps(s.drop_first(), k, v);
            let t = choose|t: int|
                0 <= t < sinsert(s.drop_first(), k).len() && sinsert(s.drop_first(), k)[t] == v;
            assert(r[t + 1] == v);
        }
    }
}

/// Verb-set monotonicity: the verb set that pass 2 yields keeps every
/// verb it started from, so the inferred set is always a superset of the
/// seed list.
pub proof fn lemma_verb_set_monotone(
    ops: Seq<Seq<char>>,
    ents: Seq<Seq<char>>,
    verbs0: Seq<Seq<char>>,
    v: Seq<char>,
)
    requires
        set_has(verbs0, v),
    ensures
        set_has(discover_verbs(ops, ents, verbs0), v),
    decreases ops.len(),
{
    if ops.len() > 0 {
        lemma_verb_set_monotone(ops.drop_last(), ents, verbs0, v);
        match best_verb(ops.last(), ents, 0, None) {
            Some(b) => {
                lemma_sinsert_keeps(discover_verbs(ops.drop_last(), ents, verbs0), b, v);
            },
            None => {},
        }
    }
}


// ------------------------------------------------------------------
// No-orphan pruning.
// ------------------------------------------------------------------

/// Every node of a final tree keeps at least one verb or one child.
pub open spec fn no_orphans(e: EntryV) -> bool
    decreases e,
{
    &&& e.entries.len() > 0 || e.verbs.len() > 0
    &&& forall|i: int| 0 <= i < e.entries.len() ==> no_orphans(#[trigger] e.entries[i].1)
}

/// Raw trees from which the builder prunes nothing: every node carries
/// an identifier or a child, and every identifier starts with some verb
/// of the set. The spec walk yields such trees whenever every operation
/// carries an identifier that starts with a seed verb.
pub open spec fn raw_fruitful(r: RawV, verbs: Seq<Seq<char>>) -> bool
    decreases r,
{
    &&& r.children.len() > 0 || r.ops.len() > 0
    &&& forall|i: int|
        0 <= i < r.ops.len() ==> exists|j: int|
            0 <= j < verbs.len() && strip_prefix_s(#[trigger] r.ops[i], verbs[j]) is Some
    &&& forall|i: int| 0 <= i < r.children.len() ==> raw_fruitful(#[trigger] r.children[i].1, verbs)
}

pub proof fn lemma_minsert_len<V>(m: Seq<(Seq<char>, V)>, k: Seq<char>, v: V)
    ensures
        minsert(m, k, v).len() >= m.len(),
        minsert(m, k, v).len() >= 1,
    decreases m.len(),
{
    if m.len() > 0 && !lex_lt(k, m[0].0) && k != m[0].0 {
        lemma_minsert_len(m.drop_first(), k, v);
    }
}

proof fn lemma_scan_op_vm_len(
    ents: Seq<Seq<char>>,
    vm: Seq<(Seq<char>, Seq<char>)>,
    op: Seq<char>,
    verbs: Seq<Seq<char>>,
)
    ensures
        scan_op(ents, vm, op, verbs) matches Some(p) ==> p.1.len() >= vm.len(),
    decreases verbs.len(),
{
    if verbs.len() > 0 {
        lemma_scan_op_vm_len(ents, vm, op, verbs.drop_last());
        match scan_op(ents, vm, op, verbs.drop_last()) {
            None => {},
            Some(prev) => match strip_prefix_s(op, verbs.last()) {
                Some(_) => {
                    lemma_minsert_len(prev.1, verbs.last(), op);
                },
                None => {},
            },
        }
    }
}

proof fn lemma_scan_op_match(
    ents: Seq<Seq<char>>,
    vm: Seq<(Seq<char>, Seq<char>)>,
    op: Seq<char>,
    verbs: Seq<Seq<char>>,
)
    requires
        exists|j: int| 0 <= j < verbs.len() && strip_prefix_s(op, #[trigger] verbs[j]) is Some,
    ensures
        scan_op(ents, vm, op, verbs) matches Some(p) ==> p.1.len() > 0,
    decreases verbs.len(),
{
    let j = choose|j: int| 0 <= j < verbs.len() && strip_prefix_s(op, #[trigger] verbs[j]) is Some;
    match scan_op(ents, vm, op, verbs.drop_last()) {
        None => {},
        Some(prev) => match strip_prefix_s(op, verbs.last()) {
            Some(_) => {
                lemma_minsert_len(prev.1, verbs.last(), op);
            },
            None => {
                assert(j < verbs.len() - 1);
                assert(verbs.drop_last()[j] == verbs[j]);
                lemma_scan_op_match(ents, vm, op, verbs.drop_last());
            },
        },
    }
}

proof fn lemma_scan_ops_vm_len(
    ents: Seq<Seq<char>>,
    vm: Seq<(Seq<char>, Seq<char>)>,
    ops: Seq<Seq<char>>,
    verbs: Seq<Seq<char>>,
)
    ensures
        scan_ops(ents, vm, ops, verbs) matches Some(p) ==> p.1.len() >= vm.len(),
    decreases ops.len(),
{
    if ops.len() > 0 {
        lemma_scan_ops_vm_len(ents, vm, ops.drop_last(), verbs);
        match scan_ops(ents, vm, ops.drop_last(), verbs) {
            None => {},
            Some(prev) => {
                lemma_scan_op_vm_len(prev.0, prev.1, ops.last(), verbs);
            },
        }
    }
}

proof fn lemma_scan_ops_match(
    ents: Seq<Seq<char>>,
    vm: Seq<(Seq<char>, Seq<char>)>,
    ops: Seq<Seq<char>>,
    verbs: Seq<Seq<char>>,
)
    requires
        exists|i: int, j: int|
            0 <= i < ops.len() && 0 <= j < verbs.len() && strip_prefix_s(
                #[trigger] ops[i],
                #[trigger] verbs[j],
            ) is Some,
    ensures
        scan_ops(ents, vm, ops, verbs) matches Some(p) ==> p.1.len() > 0,
    decreases ops.len(),
{
    let (i, j) = choose|i: int, j: int|
        0 <= i < ops.len() && 0 <= j < verbs.len() && strip_prefix_s(
            #[trigger] ops[i],
            #[trigger] verbs[j],
        ) is Some;
    match scan_ops(ents, vm, ops.drop_last(), verbs) {
        None => {},
        Some(prev) => {
            if i == ops.len() - 1 {
                lemma_scan_op_match(prev.0, prev.1, ops.last(), verbs);
            } else {
                assert(ops.drop_last()[i] == ops[i]);
                lemma_scan_ops_match(ents, vm, ops.drop_last(), verbs);
                lemma_scan_op_vm_len(prev.0, prev.1, ops.last(), verbs);
            }
        },
    }
}

proof fn lemma_verbs_union_len(a: Seq<(Seq<char>, Seq<char>)>, b: Seq<(Seq<char>, Seq<char>)>)
    requires
        verbs_union(a, b) is Some,
    ensures
        verbs_union(a, b)->Some_0.len() >= a.len(),
    decreases b.len(),
{
    if b.len() > 0 {
        lemma_verbs_union_len(a, b.drop_last());
        let m = verbs_union(a, b.drop_last())->Some_0;
        lemma_minsert_len(m, b.last().0, b.last().1);
    }
}

/// Merging two trees without orphans yields a tree without orphans.
pub proof fn lemma_merge_no_orphans(a: EntryV, b: EntryV)
    requires
        merge_v(a, b) is Some,
        no_orphans(a),
        no_orphans(b),
    ensures
        no_orphans(merge_v(a, b)->Some_0),
    decreases b,
{
    let vm = verbs_union(a.verbs, b.verbs)->Some_0;
    let em = entries_union(a.entries, b.entries)->Some_0;
    lemma_verbs_union_len(a.verbs, b.verbs);
    lemma_entries_union_props(a.entries, b.entries);
    assert(a.entries.len() > 0 ==> em.len() > 0);
    assert(a.verbs.len() > 0 ==> vm.len() > 0);
}

proof fn lemma_entries_union_props(a: Seq<(Seq<char>, EntryV)>, b: Seq<(Seq<char>, EntryV)>)
    requires
        entries_union(a, b) is Some,
        forall|i: int| 0 <= i < a.len() ==> no_orphans(#[trigger] a[i].1),
        forall|i: int| 0 <= i < b.len() ==> no_orphans(#[trigger] b[i].1),
    ensures
        entries_union(a, b)->Some_0.len() >= a.len(),
        forall|t: int|
            0 <= t < entries_union(a, b)->Some_0.len() ==> no_orphans(
                #[trigger] entries_union(a, b)->Some_0[t].1,
            ),
    decreases b,
{
    if b.len() > 0 {
        let bd = b.drop_last();
        assert(forall|i: int| 0 <= i < bd.len() ==> bd[i] == b[i]);
        lemma_entries_union_props(a, bd);
        let m = entries_union(a, bd)->Some_0;
        let key = b.last().0;
        let bv = b.last().1;
        assert(no_orphans(bv)) by {
            assert(b[b.len() - 1].1 == bv);
        }
        let r = entries_union(a, b)->Some_0;
        match map_get(m, key) {
            Some(ex) => {
                lemma_map_get_is_element(m, key);
                let w = choose|w: int| 0 <= w < m.len() && m[w] == (key, ex);
                assert(no_orphans(entries_union(a, bd)->Some_0[w].1));
                assert(m[w].1 == ex);
                assert(no_orphans(ex));
                lemma_merge_no_orphans(ex, bv);
                let mm = merge_v(ex, bv)->Some_0;
                lemma_minsert_len(m, key, mm);
                assert forall|t: int| 0 <= t < r.len() implies no_orphans(#[trigger] r[t].1) by {
                    lemma_minsert_elements(m, key, mm, t);
                    if r[t] != (key, mm) {
                        let u = choose|u: int| 0 <= u < m.len() && m[u] == r[t];
                        assert(no_orphans(m[u].1));
                    }
                }
            },
            None => {
                lemma_minsert_len(m, key, bv);
                assert forall|t: int| 0 <= t < r.len() implies no_orphans(#[trigger] r[t].1) by {
                    lemma_minsert_elements(m, key, bv, t);
                    if r[t] != (key, bv) {
                        let u = choose|u: int| 0 <= u < m.len() && m[u] == r[t];
                        assert(no_orphans(m[u].1));
                    }
                }
            },
        }
    }
}

/// No-orphan pruning: built from a raw tree whose every node carries an
/// identifier or a child, and whose every identifier starts with a verb
/// of the set, the resulting tree has no entry with an empty child map
/// and an empty verb map.
pub proof fn lemma_build_no_orphans(rv: RawV, prefix: Seq<Seq<char>>, verbs: Seq<Seq<char>>)
    requires
        raw_fruitful(rv, verbs),
    ensures
        !(build_v(rv, prefix, verbs) is Skip),
        build_v(rv, prefix, verbs) matches BuildV::Built(e) ==> no_orphans(e),
    decreases rv,
{
    match scan_ops(Seq::empty(), Seq::empty(), rv.ops, verbs) {
        None => {},
        Some(scanned) => {
            let entity_name: Option<Seq<char>> = if scanned.0.len() == 0 {
                None
            } else {
                Some(strip_ancestors(scanned.0[0], prefix))
            };
            let new_prefix = match entity_name {
                Some(e) => prefix.push(e),
                None => prefix,
            };
            match build_children(rv.children, new_prefix, verbs) {
                None => {},
                Some(em) => {
                    lemma_build_children_no_orphans(rv.children, new_prefix, verbs);
                    if rv.ops.len() > 0 {
                        assert(exists|i: int, j: int|
                            0 <= i < rv.ops.len() && 0 <= j < verbs.len() && strip_prefix_s(
                                #[trigger] rv.ops[i],
                                #[trigger] verbs[j],
                            ) is Some) by {
                            assert(exists|j: int|
                                0 <= j < verbs.len() && strip_prefix_s(
                                    rv.ops[0],
                                    #[trigger] verbs[j],
                                ) is Some);
                            let j = choose|j: int|
                                0 <= j < verbs.len() && strip_prefix_s(
                                    rv.ops[0],
                                    #[trigger] verbs[j],
                                ) is Some;
                            assert(strip_prefix_s(rv.ops[0], verbs[j]) is Some);
                        }
                        lemma_scan_ops_match(Seq::empty(), Seq::empty(), rv.ops, verbs);
                    }
                },
            }
        },
    }
}

proof fn lemma_build_children_no_orphans(
    cs: Seq<(Seq<char>, RawV)>,
    prefix: Seq<Seq<char>>,
    verbs: Seq<Seq<char>>,
)
    requires
        forall|i: int| 0 <= i < cs.len() ==> raw_fruitful(#[trigger] cs[i].1, verbs),
    ensures
        build_children(cs, prefix, verbs) matches Some(em) ==> (forall|t: int|
            0 <= t < em.len() ==> no_orphans(#[trigger] em[t].1)) && (cs.len() > 0 ==> em.len()
            > 0),
    decreases cs,
{
    if cs.len() > 0 {
        let cd = cs.drop_last();
        assert(forall|i: int| 0 <= i < cd.len() ==> cd[i] == cs[i]);
        lemma_build_children_no_orphans(cd, prefix, verbs);
        match build_children(cd, prefix, verbs) {
            None => {},
            Some(acc) => {
                assert(raw_fruitful(cs[cs.len() - 1].1, verbs));
                lemma_build_no_orphans(cs.last().1, prefix, verbs);
                match build_v(cs.last().1, prefix, verbs) {
                    BuildV::Fail => {},
                    BuildV::Skip => {
                        assert(false);
                    },
                    BuildV::Built(e) => {
                        match build_children(cs, prefix, verbs) {
                            None => {},
                            Some(em) => {
                                match find_entity(acc, e.entity_name) {
                                    Some(j) => {
                                        assert(0 <= j < acc.len()) by {
                                            lemma_find_entity_bounds(acc, e.entity_name);
                                        }
                                        match merge_v(acc[j].1, e) {
                                            None => {},
                                            Some(m) => {
                                                lemma_merge_no_orphans(acc[j].1, e);
                                                assert forall|t: int|
                                                    0 <= t < em.len() implies no_orphans(
                                                    #[trigger] em[t].1,
                                                ) by {
                                                    if t != j {
                                                        assert(em[t] == acc[t]);
                                                    }
                                                }
                                            },
                                        }
                                    },
                                    None => {
                                        lemma_minsert_len(acc, cs.last().0, e);
                                        assert forall|t: int|
                                            0 <= t < em.len() implies no_orphans(
                                            #[trigger] em[t].1,
                                        ) by {
                                            lemma_minsert_elements(acc, cs.last().0, e, t);
                                            if em[t] != (cs.last().0, e) {
                                                let u = choose|u: int|
                                                    0 <= u < acc.len() && acc[u] == em[t];
                                                assert(no_orphans(acc[u].1));
                                            }
                                        }
                                    },
                                }
                            },
                        }
                    },
                }
            },
        }
    }
}

proof fn lemma_find_entity_bounds(acc: Seq<(Seq<char>, EntryV)>, name: Option<Seq<char>>)
    ensures
        find_entity(acc, name) matches Some(j) ==> 0 <= j < acc.len(),
    decreases acc.len(),
{
    if acc.len() > 0 && acc[0].1.entity_name != name {
        lemma_find_entity_bounds(acc.drop_first(), name);
    }
}


// ------------------------------------------------------------------
// Merge commutativity on content.
// ------------------------------------------------------------------

proof fn lemma_map_sorted_drop_first<V>(m: Seq<(Seq<char>, V)>)
    requires
        map_sorted(m),
        m.len() > 0,
    ensures
        map_sorted(m.drop_first()),
        !map_has(m.drop_first(), m[0].0),
{
    let md = m.drop_first();
    assert forall|i: int, j: int| 0 <= i < j < md.len() implies lex_lt(md[i].0, md[j].0) by {
        assert(md[i] == m[i + 1] && md[j] == m[j + 1]);
    }
    if map_has(md, m[0].0) {
        let i = choose|i: int| 0 <= i < md.len() && md[i].0 == m[0].0;
        assert(md[i] == m[i + 1]);
        assert(lex_lt(m[0].0, m[i + 1].0));
        crate::text::lemma_lex_trichotomy(m[0].0, m[i + 1].0);
    }
}

proof fn lemma_map_sorted_drop_last<V>(m: Seq<(Seq<char>, V)>)
    requires
        map_sorted(m),
        m.len() > 0,
    ensures
        map_sorted(m.drop_last()),
        !map_has(m.drop_last(), m.last().0),
{
    let md = m.drop_last();
    assert(forall|i: int| 0 <= i < md.len() ==> md[i] == m[i]);
    if map_has(md, m.last().0) {
        let i = choose|i: int| 0 <= i < md.len() && md[i].0 == m.last().0;
        assert(lex_lt(m[i].0, m[m.len() - 1].0));
        crate::text::lemma_lex_trichotomy(m[i].0, m.last().0);
    }
}

/// Two sorted maps with the same bindings are the same sequence: the
/// sorted representation is canonical.
pub proof fn lemma_sorted_map_ext<V>(x: Seq<(Seq<char>, V)>, y: Seq<(Seq<char>, V)>)
    requires
        map_sorted(x),
        map_sorted(y),
        forall|k: Seq<char>| #[trigger] map_get(x, k) == map_get(y, k),
    ensures
        x == y,
    decreases x.len() + y.len(),
{
    if x.len() == 0 && y.len() == 0 {
        assert(x =~= y);
    } else if x.len() == 0 {
        assert(map_get(y, y[0].0) == Some(y[0].1));
        assert(map_get(x, y[0].0) is None);
    } else if y.len() == 0 {
        assert(map_get(x, x[0].0) == Some(x[0].1));
        assert(map_get(y, x[0].0) is None);
    } else {
        assert(map_get(x, x[0].0) == Some(x[0].1));
        assert(map_get(y, y[0].0) == Some(y[0].1));
        crate::smap::lemma_map_get_has(y, x[0].0);
        crate::smap::lemma_map_get_has(x, y[0].0);
        let iy = choose|i: int| 0 <= i < y.len() && y[i].0 == x[0].0;
        let ix = choose|i: int| 0 <= i < x.len() && x[i].0 == y[0].0;
        assert(y[0] == x[0]) by {
            if iy > 0 {
                assert(lex_lt(y[0].0, y[iy].0));
                if ix > 0 {
                    assert(lex_lt(x[0].0, x[ix].0));
                    crate::text::lemma_lex_trans(x[0].0, y[0].0, x[0].0);
                    crate::text::lemma_lex_trichotomy(x[0].0, x[0].0);
                } else {
                    crate::text::lemma_lex_trichotomy(y[0].0, x[0].0);
                }
            } else {
                assert(y[0].0 == x[0].0);
                assert(y[0].1 == x[0].1) by {
                    lemma_map_get_at(y, x[0].0, 0);
                }
            }
        }
        let xd = x.drop_first();
        let yd = y.drop_first();
        lemma_map_sorted_drop_first(x);
        lemma_map_sorted_drop_first(y);
        assert forall|k: Seq<char>| #[trigger] map_get(xd, k) == map_get(yd, k) by {
            if k == x[0].0 {
                lemma_smap_get_none(xd, k);
                assert(!map_has(yd, y[0].0));
                lemma_smap_get_none(yd, k);
            } else {
                assert(map_get(x, k) == map_get(xd, k));
                assert(map_get(y, k) == map_get(yd, k));
            }
        }
        lemma_sorted_map_ext(xd, yd);
        assert(x =~= y) by {
            assert forall|i: int| 0 <= i < x.len() implies x[i] == y[i] by {
                if i > 0 {
                    assert(x[i] == xd[i - 1] && y[i] == yd[i - 1]);
                }
            }
        }
    }
}

/// What a successful verb merge holds: the source's bindings where the
/// source has the key, the target's elsewhere; and the key sets are
/// disjoint.
proof fn lemma_verbs_union_get(a: Seq<(Seq<char>, Seq<char>)>, b: Seq<(Seq<char>, Seq<char>)>)
    requires
        map_sorted(a),
        map_sorted(b),
        verbs_union(a, b) is Some,
    ensures
        map_sorted(verbs_union(a, b)->Some_0),
        forall|k: Seq<char>| #[trigger]
            map_get(verbs_union(a, b)->Some_0, k) == if map_has(b, k) {
                map_get(b, k)
            } else {
                map_get(a, k)
            },
        forall|k: Seq<char>| map_has(b, k) ==> !map_has(a, k),
    decreases b.len(),
{
    if b.len() == 0 {
        assert(forall|k: Seq<char>| !map_has(b, k));
    } else {
        let bd = b.drop_last();
        lemma_map_sorted_drop_last(b);
        lemma_verbs_union_get(a, bd);
        let m0 = verbs_union(a, bd)->Some_0;
        let key = b.last().0;
        let val = b.last().1;
        assert(!map_has(m0, key));
        let m = verbs_union(a, b)->Some_0;
        assert(m == minsert(m0, key, val));
        lemma_minsert_sorted(m0, key, val);
        lemma_map_get_at(b, key, b.len() - 1);
        assert forall|k: Seq<char>| #[trigger]
            map_get(m, k) == (if map_has(b, k) {
                map_get(b, k)
            } else {
                map_get(a, k)
            }) by {
            if k == key {
                assert(map_get(m, k) == Some(val));
                assert(map_has(b, k)) by {
                    assert(b[b.len() - 1].0 == k);
                }
                assert(map_get(b, k) == Some(val));
            } else {
                assert(map_get(m, k) == map_get(m0, k));
                if map_has(b, k) {
                    let i = choose|i: int| 0 <= i < b.len() && b[i].0 == k;
                    assert(i < b.len() - 1);
                    assert(bd[i].0 == k);
                    assert(map_has(bd, k));
                    lemma_map_get_at(b, k, i);
                    lemma_map_get_at(bd, k, i);
                } else {
                    if map_has(bd, k) {
                        let i = choose|i: int| 0 <= i < bd.len() && bd[i].0 == k;
                        assert(b[i].0 == k);
                    }
                    assert(!map_has(bd, k));
                }
            }
        }
        assert forall|k: Seq<char>| map_has(b, k) implies !map_has(a, k) by {
            if k == key {
                if map_has(a, k) {
                    crate::smap::lemma_map_get_has(a, k);
                    if map_has(bd, k) {
                    } else {
                        assert(map_get(m0, k) == map_get(a, k));
                        crate::smap::lemma_map_get_has(m0, k);
                    }
                }
            } else {
                let i = choose|i: int| 0 <= i < b.len() && b[i].0 == k;
                assert(i < b.len() - 1);
                assert(bd[i].0 == k);
                assert(map_has(bd, k));
            }
        }
    }
}


/// What a successful child merge holds at each key: the recursive merge
/// where both sides have the key, the one side's entry elsewhere.
proof fn lemma_entries_union_get(a: Seq<(Seq<char>, EntryV)>, b: Seq<(Seq<char>, EntryV)>)
    requires
        map_sorted(a),
        map_sorted(b),
        entries_union(a, b) is Some,
    ensures
        map_sorted(entries_union(a, b)->Some_0),
        forall|k: Seq<char>| #[trigger]
            map_get(entries_union(a, b)->Some_0, k) == (match (map_get(a, k), map_get(b, k)) {
                (Some(x), Some(y)) => Some(merge_v(x, y)->Some_0),
                (None, Some(y)) => Some(y),
                (Some(x), None) => Some(x),
                (None, None) => None::<EntryV>,
            }),
        forall|k: Seq<char>|
            (map_has(a, k) && #[trigger] map_has(b, k)) ==> merge_v(
                map_get(a, k)->Some_0,
                map_get(b, k)->Some_0,
            ) is Some,
    decreases b.len(),
{
    if b.len() == 0 {
        assert(forall|k: Seq<char>| !map_has(b, k));
        assert forall|k: Seq<char>| #[trigger] map_get(b, k) is None by {
            crate::smap::lemma_map_get_has(b, k);
        }
    } else {
        let bd = b.drop_last();
        lemma_map_sorted_drop_last(b);
        lemma_entries_union_get(a, bd);
        let m0 = entries_union(a, bd)->Some_0;
        let key = b.last().0;
        let bval = b.last().1;
        let m = entries_union(a, b)->Some_0;
        lemma_map_get_at(b, key, b.len() - 1);
        assert(map_get(b, key) == Some(bval));
        assert(!map_has(bd, key));
        crate::smap::lemma_map_get_has(bd, key);
        assert(map_get(bd, key) is None);
        assert(map_get(m0, key) == map_get(a, key));
        // bd and b agree away from the last key
        assert forall|k: Seq<char>| k != key implies #[trigger] map_get(b, k) == map_get(bd, k) by {
            crate::smap::lemma_map_get_has(b, k);
            crate::smap::lemma_map_get_has(bd, k);
            if map_has(b, k) {
                let i = choose|i: int| 0 <= i < b.len() && b[i].0 == k;
                assert(i < b.len() - 1);
                assert(bd[i].0 == k);
                lemma_map_get_at(b, k, i);
                lemma_map_get_at(bd, k, i);
            } else {
                if map_has(bd, k) {
                    let i = choose|i: int| 0 <= i < bd.len() && bd[i].0 == k;
                    assert(b[i].0 == k);
                }
            }
        }
        match map_get(m0, key) {
            Some(ex) => {
                let mm = merge_v(ex, bval)->Some_0;
                assert(m == minsert(m0, key, mm));
                lemma_minsert_sorted(m0, key, mm);
                assert forall|k: Seq<char>| #[trigger]
                    map_get(m, k) == (match (map_get(a, k), map_get(b, k)) {
                        (Some(x), Some(y)) => Some(merge_v(x, y)->Some_0),
                        (None, Some(y)) => Some(y),
                        (Some(x), None) => Some(x),
                        (None, None) => None::<EntryV>,
                    }) by {
                    if k == key {
                        assert(map_get(m, k) == Some(mm));
                        assert(map_get(a, k) == Some(ex));
                    } else {
                        assert(map_get(m, k) == map_get(m0, k));
                    }
                }
                assert forall|k: Seq<char>|
                    (map_has(a, k) && #[trigger] map_has(b, k)) implies merge_v(
                    map_get(a, k)->Some_0,
                    map_get(b, k)->Some_0,
                ) is Some by {
                    crate::smap::lemma_map_get_has(a, k);
                    crate::smap::lemma_map_get_has(b, k);
                    if k == key {
                    } else {
                        crate::smap::lemma_map_get_has(bd, k);
                        assert(map_has(bd, k));
                    }
                }
            },
            None => {
                assert(m == minsert(m0, key, bval));
                lemma_minsert_sorted(m0, key, bval);
                assert(map_get(a, key) is None) by {
                    crate::smap::lemma_map_get_has(a, key);
                }
                assert forall|k: Seq<char>| #[trigger]
                    map_get(m, k) == (match (map_get(a, k), map_get(b, k)) {
                        (Some(x), Some(y)) => Some(merge_v(x, y)->Some_0),
                        (None, Some(y)) => Some(y),
                        (Some(x), None) => Some(x),
                        (None, None) => None::<EntryV>,
                    }) by {
                    if k == key {
                        assert(map_get(m, k) == Some(bval));
                    } else {
                        assert(map_get(m, k) == map_get(m0, k));
                    }
                }
                assert forall|k: Seq<char>|
                    (map_has(a, k) && #[trigger] map_has(b, k)) implies merge_v(
                    map_get(a, k)->Some_0,
                    map_get(b, k)->Some_0,
                ) is Some by {
                    crate::smap::lemma_map_get_has(a, k);
                    crate::smap::lemma_map_get_has(b, k);
                    if k != key {
                        crate::smap::lemma_map_get_has(bd, k);
                        assert(map_has(bd, k));
                    }
                }
            },
        }
    }
}

/// Entries whose merges commute all the way down: equal resolved entity
/// names, and, under every key both sides share, compatible children.
pub open spec fn merge_compat(a: EntryV, b: EntryV) -> bool
    decreases a,
{
    &&& a.entity_name == b.entity_name
    &&& forall|i: int, j: int|
        0 <= i < a.entries.len() && 0 <= j < b.entries.len() && (#[trigger] a.entries[i]).0 == (
        #[trigger] b.entries[j]).0 ==> merge_compat(a.entries[i].1, b.entries[j].1)
}

/// Merge commutativity on content: where a merge succeeds and the two
/// sides are compatible, the other order succeeds too and yields the
/// very same entry -- the same verb map and the same child map.
pub proof fn lemma_merge_commutes(a: EntryV, b: EntryV)
    requires
        entry_wf(a),
        entry_wf(b),
        merge_compat(a, b),
        merge_v(a, b) is Some,
    ensures
        merge_v(b, a) is Some,
        merge_v(a, b) == merge_v(b, a),
    decreases a,
{
    lemma_merge_succeeds_iff_mergeable(a, b);
    lemma_mergeable_symmetric(a, b);
    lemma_merge_succeeds_iff_mergeable(b, a);
    let vm1 = verbs_union(a.verbs, b.verbs)->Some_0;
    let vm2 = verbs_union(b.verbs, a.verbs)->Some_0;
    lemma_verbs_union_get(a.verbs, b.verbs);
    lemma_verbs_union_get(b.verbs, a.verbs);
    assert forall|k: Seq<char>| #[trigger] map_get(vm1, k) == map_get(vm2, k) by {
        crate::smap::lemma_map_get_has(a.verbs, k);
        crate::smap::lemma_map_get_has(b.verbs, k);
    }
    lemma_sorted_map_ext(vm1, vm2);

    let em1 = entries_union(a.entries, b.entries)->Some_0;
    let em2 = entries_union(b.entries, a.entries)->Some_0;
    lemma_entries_union_get(a.entries, b.entries);
    lemma_entries_union_get(b.entries, a.entries);
    assert forall|k: Seq<char>| #[trigger] map_get(em1, k) == map_get(em2, k) by {
        crate::smap::lemma_map_get_has(a.entries, k);
        crate::smap::lemma_map_get_has(b.entries, k);
        match (map_get(a.entries, k), map_get(b.entries, k)) {
            (Some(x), Some(y)) => {
                lemma_map_get_is_element(a.entries, k);
                lemma_map_get_is_element(b.entries, k);
                let i = choose|i: int| 0 <= i < a.entries.len() && a.entries[i] == (k, x);
                let j = choose|j: int| 0 <= j < b.entries.len() && b.entries[j] == (k, y);
                assert(merge_compat(a.entries[i].1, b.entries[j].1));
                assert(entry_wf(a.entries[i].1));
                assert(entry_wf(b.entries[j].1));
                lemma_merge_commutes(x, y);
            },
            _ => {},
        }
    }
    lemma_sorted_map_ext(em1, em2);
}


/// Every member of an inserted set is the new key or an old member.
proof fn lemma_sinsert_elements(s: Seq<Seq<char>>, k: Seq<char>, t: int)
    requires
        0 <= t < sinsert(s, k).len(),
    ensures
        sinsert(s, k)[t] == k || exists|j: int| 0 <= j < s.len() && s[j] == sinsert(s, k)[t],
    decreases s.len(),
{
    let r = sinsert(s, k);
    if s.len() == 0 {
    } else if lex_lt(k, s[0]) {
        if t > 0 {
            assert(r[t] == s[t - 1]);
        }
    } else if k == s[0] {
        assert(r[t] == s[t]);
    } else {
        if t == 0 {
            assert(r[0] == s[0]);
        } else {
            let rd = sinsert(s.drop_first(), k);
            assert(r[t] == rd[t - 1]);
            lemma_sinsert_elements(s.drop_first(), k, t - 1);
            if rd[t - 1] != k {
                let j = choose|j: int| 0 <= j < s.drop_first().len() && s.drop_first()[j] == rd[t
                    - 1];
                assert(s[j + 1] == r[t]);
            }
        }
    }
}

proof fn lemma_sinsert_len(s: Seq<Seq<char>>, k: Seq<char>)
    ensures
        sinsert(s, k).len() >= s.len(),
        sinsert(s, k).len() >= 1,
    decreases s.len(),
{
    if s.len() > 0 && !lex_lt(k, s[0]) && k != s[0] {
        lemma_sinsert_len(s.drop_first(), k);
    }
}

/// Whether an identifier starts with some verb of the set.
pub open spec fn op_matches(op: Seq<char>, verbs: Seq<Seq<char>>) -> bool {
    exists|j: int| 0 <= j < verbs.len() && strip_prefix_s(op, #[trigger] verbs[j]) is Some
}

/// Adding identifiers that match keeps a set of matching identifiers
/// matching, and a present identifier makes it non-empty.
proof fn lemma_add_ops_good(
    s: Seq<Seq<char>>,
    new_ops: Seq<Option<Seq<char>>>,
    verbs: Seq<Seq<char>>,
)
    requires
        forall|t: int| 0 <= t < s.len() ==> op_matches(#[trigger] s[t], verbs),
        forall|t: int|
            0 <= t < new_ops.len() ==> ((#[trigger] new_ops[t]) matches Some(id) ==> op_matches(
                id,
                verbs,
            )),
    ensures
        forall|t: int|
            0 <= t < add_ops(s, new_ops).len() ==> op_matches(#[trigger] add_ops(s, new_ops)[t], verbs),
        add_ops(s, new_ops).len() >= s.len(),
        (exists|t: int| 0 <= t < new_ops.len() && (#[trigger] new_ops[t]) is Some) ==> add_ops(
            s,
            new_ops,
        ).len() > 0,
    decreases new_ops.len(),
{
    if new_ops.len() > 0 {
        let nd = new_ops.drop_last();
        assert(forall|t: int| 0 <= t < nd.len() ==> nd[t] == new_ops[t]);
        lemma_add_ops_good(s, nd, verbs);
        let prev = add_ops(s, nd);
        match new_ops.last() {
            Some(id) => {
                assert(op_matches(id, verbs)) by {
                    assert(new_ops[new_ops.len() - 1] matches Some(i2) && i2 == id);
                }
                lemma_sinsert_len(prev, id);
                assert forall|t: int|
                    0 <= t < add_ops(s, new_ops).len() implies op_matches(
                    #[trigger] add_ops(s, new_ops)[t],
                    verbs,
                ) by {
                    lemma_sinsert_elements(prev, id, t);
                    if add_ops(s, new_ops)[t] != id {
                        let j = choose|j: int|
                            0 <= j < prev.len() && prev[j] == add_ops(s, new_ops)[t];
                        assert(op_matches(prev[j], verbs));
                    }
                }
            },
            None => {
                if exists|t: int| 0 <= t < new_ops.len() && (#[trigger] new_ops[t]) is Some {
                    let t = choose|t: int|
                        0 <= t < new_ops.len() && (#[trigger] new_ops[t]) is Some;
                    assert(t < new_ops.len() - 1);
                    assert(nd[t] is Some);
                }
            },
        }
    }
}

/// A raw tree whose identifiers all match and whose every node below
/// the root carries something.
pub open spec fn raw_good(r: RawV, verbs: Seq<Seq<char>>) -> bool
    decreases r,
{
    &&& forall|t: int| 0 <= t < r.ops.len() ==> op_matches(#[trigger] r.ops[t], verbs)
    &&& forall|i: int|
        0 <= i < r.children.len() ==> raw_good(#[trigger] r.children[i].1, verbs) && (
        r.children[i].1.children.len() > 0 || r.children[i].1.ops.len() > 0)
}

proof fn lemma_good_is_fruitful(r: RawV, verbs: Seq<Seq<char>>)
    requires
        raw_good(r, verbs),
        r.children.len() > 0 || r.ops.len() > 0,
    ensures
        raw_fruitful(r, verbs),
    decreases r,
{
    assert forall|i: int| 0 <= i < r.children.len() implies raw_fruitful(
        #[trigger] r.children[i].1,
        verbs,
    ) by {
        lemma_good_is_fruitful(r.children[i].1, verbs);
    }
    assert forall|i: int| 0 <= i < r.ops.len() implies exists|j: int|
        0 <= j < verbs.len() && strip_prefix_s(#[trigger] r.ops[i], verbs[j]) is Some by {
        assert(op_matches(r.ops[i], verbs));
        let j = choose|j: int|
            0 <= j < verbs.len() && strip_prefix_s(r.ops[i], #[trigger] verbs[j]) is Some;
        assert(strip_prefix_s(r.ops[i], verbs[j]) is Some);
    }
}

/// One walk step keeps the tree good, and leaves the node it reaches
/// non-empty when it brings a present identifier.
proof fn lemma_rawv_insert_good(
    r: RawV,
    segs: Seq<Seq<char>>,
    i: int,
    new_ops: Seq<Option<Seq<char>>>,
    verbs: Seq<Seq<char>>,
)
    requires
        raw_good(r, verbs),
        path_ops_good(new_ops, verbs),
    ensures
        raw_good(rawv_insert(r, segs, i, new_ops), verbs),
        rawv_insert(r, segs, i, new_ops).children.len() > 0 || rawv_insert(
            r,
            segs,
            i,
            new_ops,
        ).ops.len() > 0,
    decreases segs.len() - i,
{
    if 0 <= i < segs.len() {
        let child = match map_get(r.children, segs[i]) {
            Some(c) => c,
            None => empty_raw(),
        };
        assert(raw_good(child, verbs)) by {
            if map_get(r.children, segs[i]) is Some {
                lemma_map_get_is_element(r.children, segs[i]);
                let t = choose|t: int|
                    0 <= t < r.children.len() && r.children[t] == (
                        segs[i],
                        map_get(r.children, segs[i])->Some_0,
                    );
                assert(raw_good(r.children[t].1, verbs));
            }
        }
        lemma_rawv_insert_good(child, segs, i + 1, new_ops, verbs);
        let newchild = rawv_insert(child, segs, i + 1, new_ops);
        let rc = minsert(r.children, segs[i], newchild);
        lemma_minsert_len(r.children, segs[i], newchild);
        assert forall|t: int|
            0 <= t < rc.len() implies raw_good(#[trigger] rc[t].1, verbs) && (rc[t].1.children.len()
            > 0 || rc[t].1.ops.len() > 0) by {
            lemma_minsert_elements(r.children, segs[i], newchild, t);
            if rc[t] != (segs[i], newchild) {
                let u = choose|u: int| 0 <= u < r.children.len() && r.children[u] == rc[t];
                assert(raw_good(r.children[u].1, verbs));
            }
        }
    } else {
        lemma_add_ops_good(r.ops, new_ops, verbs);
    }
}

/// One path's identifier list fit for orphan-free building: at least
/// one identifier is present, and every present one matches a verb.
pub open spec fn path_ops_good(ops: Seq<Option<Seq<char>>>, verbs: Seq<Seq<char>>) -> bool {
    &&& forall|t: int|
        0 <= t < ops.len() ==> ((#[trigger] ops[t]) matches Some(id) ==> op_matches(id, verbs))
    &&& exists|t: int| 0 <= t < ops.len() && (#[trigger] ops[t]) is Some
}

/// Walked from paths that each carry a present identifier, all of them
/// matching a verb, the raw tree is good.
pub proof fn lemma_walk_all_good(
    paths: Seq<(Seq<char>, Seq<Option<Seq<char>>>)>,
    prefix: Seq<char>,
    verbs: Seq<Seq<char>>,
)
    requires
        forall|p: int| 0 <= p < paths.len() ==> path_ops_good((#[trigger] paths[p]).1, verbs),
    ensures
        raw_good(walk_all(paths, prefix).0, verbs),
    decreases paths.len(),
{
    if paths.len() > 0 {
        let pd = paths.drop_last();
        assert forall|p: int| 0 <= p < pd.len() implies path_ops_good(
            (#[trigger] pd[p]).1,
            verbs,
        ) by {
            assert(pd[p] == paths[p]);
            assert(path_ops_good(paths[p].1, verbs));
        }
        lemma_walk_all_good(pd, prefix, verbs);
        let acc = walk_all(pd, prefix);
        let last = paths.last();
        assert(last == paths[paths.len() - 1]);
        assert(path_ops_good(paths[paths.len() - 1].1, verbs));
        assert(path_ops_good(last.1, verbs));
        match strip_prefix_s(last.0, prefix) {
            None => {},
            Some(rem) => match crate::path::path_parse(rem) {
                None => {},
                Some(segs) => {
                    lemma_rawv_insert_good(
                        acc.0,
                        crate::path::consts_of(segs),
                        0,
                        last.1,
                        verbs,
                    );
                },
            },
        }
    }
}


proof fn lemma_top_build_no_orphans(cs: Seq<(Seq<char>, RawV)>, verbs: Seq<Seq<char>>)
    requires
        forall|i: int| 0 <= i < cs.len() ==> raw_fruitful(#[trigger] cs[i].1, verbs),
    ensures
        top_build(cs, verbs) matches Some(em) ==> forall|t: int|
            0 <= t < em.len() ==> no_orphans(#[trigger] em[t].1),
    decreases cs.len(),
{
    if cs.len() > 0 {
        let cd = cs.drop_last();
        assert(forall|i: int| 0 <= i < cd.len() ==> cd[i] == cs[i]);
        lemma_top_build_no_orphans(cd, verbs);
        match top_build(cd, verbs) {
            None => {},
            Some(acc) => {
                assert(raw_fruitful(cs[cs.len() - 1].1, verbs));
                lemma_build_no_orphans(cs.last().1, Seq::empty(), verbs);
                match build_v(cs.last().1, Seq::empty(), verbs) {
                    BuildV::Fail => {},
                    BuildV::Skip => {},
                    BuildV::Built(e) => {
                        match top_build(cs, verbs) {
                            None => {},
                            Some(em) => {
                                assert forall|t: int| 0 <= t < em.len() implies no_orphans(
                                    #[trigger] em[t].1,
                                ) by {
                                    lemma_minsert_elements(acc, cs.last().0, e, t);
                                    if em[t] != (cs.last().0, e) {
                                        let u = choose|u: int|
                                            0 <= u < acc.len() && acc[u] == em[t];
                                        assert(no_orphans(acc[u].1));
                                    }
                                }
                            },
                        }
                    },
                }
            },
        }
    }
}

/// No-orphan pruning, end to end: where every listed path carries at
/// least one operation identifier and every identifier starts with a
/// seed verb, no entry of the derived hierarchy has an empty child map
/// and an empty verb map.
pub proof fn lemma_hierarchy_no_orphans(
    paths: Seq<(Seq<char>, Seq<Option<Seq<char>>>)>,
    prefix: Seq<char>,
)
    requires
        forall|p: int|
            0 <= p < paths.len() ==> path_ops_good((#[trigger] paths[p]).1, seed_verbs()),
    ensures
        hierarchy_spec(paths, prefix) matches Some(em) ==> forall|t: int|
            0 <= t < em.len() ==> no_orphans(#[trigger] em[t].1),
{
    let walked = walk_all(paths, prefix);
    let ents = discover_entities(walked.1, seed_verbs());
    let verbs = discover_verbs(walked.1, ents, seed_verbs());
    assert forall|p: int| 0 <= p < paths.len() implies path_ops_good(
        (#[trigger] paths[p]).1,
        verbs,
    ) by {
        let ops = paths[p].1;
        assert(path_ops_good(ops, seed_verbs()));
        assert forall|t: int|
            0 <= t < ops.len() implies ((#[trigger] ops[t]) matches Some(id) ==> op_matches(
            id,
            verbs,
        )) by {
            match ops[t] {
                Some(id) => {
                    assert(op_matches(id, seed_verbs()));
                    let j = choose|j: int|
                        0 <= j < seed_verbs().len() && strip_prefix_s(
                            id,
                            #[trigger] seed_verbs()[j],
                        ) is Some;
                    lemma_verb_set_monotone(walked.1, ents, seed_verbs(), seed_verbs()[j]);
                    assert(set_has(seed_verbs(), seed_verbs()[j]));
                    assert(set_has(verbs, seed_verbs()[j]));
                    let w = choose|w: int| 0 <= w < verbs.len() && verbs[w] == seed_verbs()[j];
                    assert(strip_prefix_s(id, verbs[w]) is Some);
                },
                None => {},
            }
        }
    }
    lemma_walk_all_good(paths, prefix, verbs);
    assert forall|i: int| 0 <= i < walked.0.children.len() implies raw_fruitful(
        #[trigger] walked.0.children[i].1,
        verbs,
    ) by {
        assert(raw_good(walked.0.children[i].1, verbs));
        lemma_good_is_fruitful(walked.0.children[i].1, verbs);
    }
    lemma_top_build_no_orphans(walked.0.children, verbs);
}


// ------------------------------------------------------------------
// Merge succeeds exactly in the absence of collisions.
// ------------------------------------------------------------------

/// No collision anywhere in the recursive merge: the verb key sets are
/// disjoint, and children under every shared key are themselves
/// collision-free.
pub open spec fn mergeable(a: EntryV, b: EntryV) -> bool
    decreases a,
{
    &&& forall|k: Seq<char>| !(map_has(a.verbs, k) && #[trigger] map_has(b.verbs, k))
    &&& forall|i: int, j: int|
        0 <= i < a.entries.len() && 0 <= j < b.entries.len() && (#[trigger] a.entries[i]).0 == (
        #[trigger] b.entries[j]).0 ==> mergeable(a.entries[i].1, b.entries[j].1)
}

/// Freedom from collisions does not depend on the order of the sides.
pub proof fn lemma_mergeable_symmetric(a: EntryV, b: EntryV)
    ensures
        mergeable(a, b) <==> mergeable(b, a),
    decreases a, b,
{
    if mergeable(a, b) {
        assert forall|i: int, j: int|
            0 <= i < b.entries.len() && 0 <= j < a.entries.len() && (#[trigger] b.entries[i]).0
                == (#[trigger] a.entries[j]).0 implies mergeable(b.entries[i].1, a.entries[j].1)
            by {
            assert(mergeable(a.entries[j].1, b.entries[i].1));
            lemma_mergeable_symmetric(a.entries[j].1, b.entries[i].1);
        }
    }
    if mergeable(b, a) {
        assert forall|i: int, j: int|
            0 <= i < a.entries.len() && 0 <= j < b.entries.len() && (#[trigger] a.entries[i]).0
                == (#[trigger] b.entries[j]).0 implies mergeable(a.entries[i].1, b.entries[j].1)
            by {
            assert(mergeable(b.entries[j].1, a.entries[i].1));
            lemma_mergeable_symmetric(a.entries[i].1, b.entries[j].1);
        }
    }
}

/// With pairwise-absent keys the verb fold cannot fail.
proof fn lemma_verbs_union_some(a: Seq<(Seq<char>, Seq<char>)>, b: Seq<(Seq<char>, Seq<char>)>)
    requires
        map_sorted(a),
        map_sorted(b),
        forall|k: Seq<char>| !(map_has(a, k) && #[trigger] map_has(b, k)),
    ensures
        verbs_union(a, b) is Some,
    decreases b.len(),
{
    if b.len() > 0 {
        let bd = b.drop_last();
        lemma_map_sorted_drop_last(b);
        assert forall|k: Seq<char>| !(map_has(a, k) && #[trigger] map_has(bd, k)) by {
            if map_has(bd, k) {
                let t = choose|t: int| 0 <= t < bd.len() && bd[t].0 == k;
                assert(b[t].0 == k);
                assert(map_has(b, k));
            }
        }
        lemma_verbs_union_some(a, bd);
        lemma_verbs_union_get(a, bd);
        let m = verbs_union(a, bd)->Some_0;
        let key = b.last().0;
        assert(map_has(b, key)) by {
            assert(b[b.len() - 1].0 == key);
        }
        assert(!map_has(m, key)) by {
            crate::smap::lemma_map_get_has(m, key);
            crate::smap::lemma_map_get_has(a, key);
            crate::smap::lemma_map_get_has(bd, key);
        }
    }
}

/// Merging two well-formed entries succeeds exactly when no collision
/// exists anywhere in the recursive merge.
pub proof fn lemma_merge_succeeds_iff_mergeable(a: EntryV, b: EntryV)
    requires
        entry_wf(a),
        entry_wf(b),
    ensures
        merge_v(a, b) is Some <==> mergeable(a, b),
    decreases a, b, b.entries.len() + 1,
{
    // success implies no collision
    if merge_v(a, b) is Some {
        lemma_verbs_union_get(a.verbs, b.verbs);
        lemma_entries_union_get(a.entries, b.entries);
        assert forall|i: int, j: int|
            0 <= i < a.entries.len() && 0 <= j < b.entries.len() && (#[trigger] a.entries[i]).0
                == (#[trigger] b.entries[j]).0 implies mergeable(a.entries[i].1, b.entries[j].1)
            by {
            let k = a.entries[i].0;
            lemma_map_get_at(a.entries, k, i);
            lemma_map_get_at(b.entries, k, j);
            assert(map_has(a.entries, k) && map_has(b.entries, k));
            assert(merge_v(a.entries[i].1, b.entries[j].1) is Some);
            assert(entry_wf(a.entries[i].1));
            assert(entry_wf(b.entries[j].1));
            lemma_merge_succeeds_iff_mergeable(a.entries[i].1, b.entries[j].1);
        }
        assert(mergeable(a, b));
    }
    // no collision implies success
    if mergeable(a, b) {
        lemma_verbs_union_some(a.verbs, b.verbs);
        lemma_entries_union_some_steps(a, b, b.entries.len() as int);
        assert(b.entries.take(b.entries.len() as int) =~= b.entries);
        assert(merge_v(a, b) is Some);
    }
}

/// The child fold of a collision-free merge cannot fail.
proof fn lemma_entries_union_some_steps(a: EntryV, b: EntryV, j: int)
    requires
        entry_wf(a),
        entry_wf(b),
        mergeable(a, b),
        0 <= j <= b.entries.len(),
    ensures
        entries_union(a.entries, b.entries.take(j)) is Some,
        entries_union(a.entries, b.entries.take(j)) matches Some(m) ==> map_sorted(m)
            && (forall|k: Seq<char>| #[trigger]
            map_get(m, k) == (match (map_get(a.entries, k), map_get(b.entries.take(j), k)) {
                (Some(x), Some(y)) => Some(merge_v(x, y)->Some_0),
                (None, Some(y)) => Some(y),
                (Some(x), None) => Some(x),
                (None, None) => None::<EntryV>,
            })),
    decreases a, b, j,
{
    let bs = b.entries.take(j);
    if j == 0 {
        assert(bs =~= Seq::<(Seq<char>, EntryV)>::empty());
        assert forall|k: Seq<char>| #[trigger] map_get(bs, k) is None by {}
        assert(entries_union(a.entries, bs) == Some(a.entries));
    } else {
        let bd = b.entries.take(j - 1);
        assert(bs.drop_last() =~= bd);
        lemma_entries_union_some_steps(a, b, j - 1);
        let m = entries_union(a.entries, bd)->Some_0;
        let key = bs.last().0;
        let bval = bs.last().1;
        assert(bs.last() == b.entries[j - 1]);
        // bd does not hold the key: b's keys are sorted and distinct
        assert(!map_has(bd, key)) by {
            if map_has(bd, key) {
                let t = choose|t: int| 0 <= t < bd.len() && bd[t].0 == key;
                assert(b.entries[t].0 == key);
                assert(lex_lt(b.entries[t].0, b.entries[j - 1].0));
                crate::text::lemma_lex_trichotomy(b.entries[t].0, b.entries[j - 1].0);
            }
        }
        crate::smap::lemma_map_get_has(bd, key);
        match map_get(m, key) {
            Some(ex) => {
                assert(map_get(m, key) == map_get(a.entries, key));
                assert(map_has(a.entries, key)) by {
                    crate::smap::lemma_map_get_has(a.entries, key);
                }
                let i = choose|i: int| 0 <= i < a.entries.len() && a.entries[i].0 == key;
                lemma_map_get_at(a.entries, key, i);
                assert(ex == a.entries[i].1);
                assert(mergeable(a.entries[i].1, b.entries[j - 1].1));
                assert(entry_wf(a.entries[i].1));
                assert(entry_wf(b.entries[j - 1].1));
                lemma_merge_succeeds_iff_mergeable(a.entries[i].1, b.entries[j - 1].1);
                assert(merge_v(ex, bval) is Some);
                let mm = merge_v(ex, bval)->Some_0;
                assert(entries_union(a.entries, bs) == Some(minsert(m, key, mm)));
                lemma_minsert_sorted(m, key, mm);
                assert forall|k: Seq<char>| #[trigger]
                    map_get(minsert(m, key, mm), k) == (match (
                    map_get(a.entries, k),
                    map_get(bs, k),
                ) {
                    (Some(x), Some(y)) => Some(merge_v(x, y)->Some_0),
                    (None, Some(y)) => Some(y),
                    (Some(x), None) => Some(x),
                    (None, None) => None::<EntryV>,
                }) by {
                    lemma_take_step_get(b.entries, j, k);
                    if k == key {
                        assert(map_get(minsert(m, key, mm), k) == Some(mm));
                        assert(map_get(bs, k) == Some(bval));
                        assert(map_get(a.entries, k) == Some(ex));
                    } else {
                        assert(map_get(minsert(m, key, mm), k) == map_get(m, k));
                        assert(map_get(bs, k) == map_get(bd, k));
                        assert(map_get(m, k) == (match (map_get(a.entries, k), map_get(bd, k)) {
                            (Some(x), Some(y)) => Some(merge_v(x, y)->Some_0),
                            (None, Some(y)) => Some(y),
                            (Some(x), None) => Some(x),
                            (None, None) => None::<EntryV>,
                        }));
                    }
                }
            },
            None => {
                assert(entries_union(a.entries, bs) == Some(minsert(m, key, bval)));
                lemma_minsert_sorted(m, key, bval);
                assert(map_get(a.entries, key) is None);
                assert forall|k: Seq<char>| #[trigger]
                    map_get(minsert(m, key, bval), k) == (match (
                    map_get(a.entries, k),
                    map_get(bs, k),
                ) {
                    (Some(x), Some(y)) => Some(merge_v(x, y)->Some_0),
                    (None, Some(y)) => Some(y),
                    (Some(x), None) => Some(x),
                    (None, None) => None::<EntryV>,
                }) by {
                    lemma_take_step_get(b.entries, j, k);
                    if k == key {
                        assert(map_get(minsert(m, key, bval), k) == Some(bval));
                        assert(map_get(bs, k) == Some(bval));
                    } else {
                        assert(map_get(minsert(m, key, bval), k) == map_get(m, k));
                        assert(map_get(bs, k) == map_get(bd, k));
                        assert(map_get(m, k) == (match (map_get(a.entries, k), map_get(bd, k)) {
                            (Some(x), Some(y)) => Some(merge_v(x, y)->Some_0),
                            (None, Some(y)) => Some(y),
                            (Some(x), None) => Some(x),
                            (None, None) => None::<EntryV>,
                        }));
                    }
                }
            },
        }
    }
}

/// `map_get` on one more taken element: the new key's binding, the old
/// ones elsewhere.
proof fn lemma_take_step_get(bs: Seq<(Seq<char>, EntryV)>, j: int, k: Seq<char>)
    requires
        map_sorted(bs),
        0 < j <= bs.len(),
    ensures
        k == bs[j - 1].0 ==> map_get(bs.take(j), k) == Some(bs[j - 1].1),
        k != bs[j - 1].0 ==> map_get(bs.take(j), k) == map_get(bs.take(j - 1), k),
{
    let t = bs.take(j);
    assert(map_sorted(t)) by {
        assert forall|u: int, w: int| 0 <= u < w < t.len() implies lex_lt(t[u].0, t[w].0) by {
            assert(t[u] == bs[u] && t[w] == bs[w]);
        }
    }
    if k == bs[j - 1].0 {
        assert(t[j - 1] == bs[j - 1]);
        lemma_map_get_at(t, k, j - 1);
    } else {
        crate::smap::lemma_map_get_has(t, k);
        crate::smap::lemma_map_get_has(bs.take(j - 1), k);
        if map_has(t, k) {
            let u = choose|u: int| 0 <= u < t.len() && t[u].0 == k;
            assert(u < j - 1);
            assert(bs.take(j - 1)[u].0 == k);
            lemma_map_get_at(t, k, u);
            assert(map_sorted(bs.take(j - 1))) by {
                assert forall|x: int, w: int|
                    0 <= x < w < bs.take(j - 1).len() implies lex_lt(
                    #[trigger] bs.take(j - 1)[x].0,
                    #[trigger] bs.take(j - 1)[w].0,
                ) by {
                    assert(bs.take(j - 1)[x] == bs[x] && bs.take(j - 1)[w] == bs[w]);
                }
            }
            lemma_map_get_at(bs.take(j - 1), k, u);
        } else {
            if map_has(bs.take(j - 1), k) {
                let u = choose|u: int| 0 <= u < j - 1 && (#[trigger] bs.take(j - 1)[u]).0 == k;
                assert(t[u].0 == k);
            }
        }
    }
}

} // verus!
