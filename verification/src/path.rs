use vstd::prelude::*;

use crate::text::{lex_lt, str_cmp, StrCmp};

verus! {

/// The mathematical value of a path segment: either constant template
/// text, or the name of a path parameter that stood between braces.
pub enum SegV {
    Constant(Seq<char>),
    Id(Seq<char>),
}

/// One segment of a URL path template.
#[derive(Debug, PartialEq, Eq, Clone, Hash)]
pub enum PathSegment {
    Constant(String),
    Id(String),
}

impl View for PathSegment {
    type V = SegV;

    open spec fn view(&self) -> SegV {
        match self {
            PathSegment::Constant(c) => SegV::Constant(c@),
            PathSegment::Id(c) => SegV::Id(c@),
        }
    }
}

/// A URL path template: a non-empty sequence of segments.
#[derive(Debug, PartialEq, Eq, Clone, Hash)]
pub struct Path(pub Vec<PathSegment>);

impl View for Path {
    type V = Seq<SegV>;

    open spec fn view(&self) -> Seq<SegV> {
        self.0@.map_values(|s: PathSegment| s@)
    }
}

/// How one non-empty fragment parses: the inner text as a parameter if
/// the fragment is wrapped in one pair of braces, the fragment itself as
/// constant text otherwise; an empty fragment parses to nothing.
pub open spec fn seg_parse(f: Seq<char>) -> Option<SegV> {
    if f.len() == 0 {
        None
    } else if f.len() >= 2 && f[0] == '{' && f[f.len() - 1] == '}' {
        Some(SegV::Id(f.subrange(1, f.len() - 1)))
    } else {
        Some(SegV::Constant(f))
    }
}

/// The position of the first slash, or -1 if there is none.
pub open spec fn first_slash(s: Seq<char>) -> int
    decreases s.len(),
{
    if s.len() == 0 {
        -1
    } else if s[0] == '/' {
        0
    } else {
        let r = first_slash(s.drop_first());
        if r < 0 {
            -1
        } else {
            r + 1
        }
    }
}

pub proof fn lemma_first_slash(s: Seq<char>)
    ensures
        -1 <= first_slash(s) < s.len(),
        first_slash(s) >= 0 ==> s[first_slash(s)] == '/',
        forall|j: int| 0 <= j < first_slash(s) ==> s[j] != '/',
        first_slash(s) == -1 ==> forall|j: int| 0 <= j < s.len() ==> s[j] != '/',
    decreases s.len(),
{
    if s.len() == 0 {
    } else if s[0] == '/' {
    } else {
        lemma_first_slash(s.drop_first());
        let sd = s.drop_first();
        let fs = first_slash(s);
        assert forall|j: int| 0 <= j < fs implies s[j] != '/' by {
            if j > 0 {
                assert(sd[j - 1] == s[j]);
            }
        }
        if fs == -1 {
            assert forall|j: int| 0 <= j < s.len() implies s[j] != '/' by {
                if j > 0 {
                    assert(sd[j - 1] == s[j]);
                }
            }
        }
    }
}

/// The fragments of `s`: the maximal slash-free runs, split at every
/// slash. Empty fragments (around a leading, trailing or doubled slash)
/// appear here and are dropped by parsing.
pub open spec fn fragments(s: Seq<char>) -> Seq<Seq<char>>
    decreases s.len(),
{
    let i = first_slash(s);
    if 0 <= i < s.len() {
        seq![s.subrange(0, i)] + fragments(s.skip(i + 1))
    } else {
        seq![s]
    }
}

/// Splitting at a known first slash unfolds one step of `fragments`.
pub proof fn lemma_fragments_step(s: Seq<char>, m: int)
    requires
        0 <= m <= s.len(),
        forall|j: int| 0 <= j < m ==> s[j] != '/',
        m < s.len() ==> s[m] == '/',
    ensures
        m == s.len() ==> fragments(s) == seq![s],
        m < s.len() ==> fragments(s) == seq![s.subrange(0, m)] + fragments(s.skip(m + 1)),
{
    lemma_first_slash(s);
    let fs = first_slash(s);
    if m == s.len() {
        assert(fs == -1) by {
            if fs >= 0 {
                assert(s[fs] == '/');
            }
        }
    } else {
        assert(fs == m) by {
            if fs < m {
                if fs >= 0 {
                    assert(s[fs] == '/');
                } else {
                    assert(s[m] != '/');
                }
            }
            if fs > m {
                assert(s[m] != '/');
            }
        }
    }
}

/// The segments of a fragment sequence: each fragment parsed, the empty
/// ones skipped.
pub open spec fn seg_parse_all(fs: Seq<Seq<char>>) -> Seq<SegV>
    decreases fs.len(),
{
    if fs.len() == 0 {
        Seq::empty()
    } else {
        match seg_parse(fs[0]) {
            None => seg_parse_all(fs.drop_first()),
            Some(v) => seq![v] + seg_parse_all(fs.drop_first()),
        }
    }
}

/// What parsing a path template yields: its fragments' segments, or
/// nothing when no segment is left.
pub open spec fn path_parse(s: Seq<char>) -> Option<Seq<SegV>> {
    let segs = seg_parse_all(fragments(s));
    if segs.len() == 0 {
        None
    } else {
        Some(segs)
    }
}

/// The texts of the constant segments, in order.
pub open spec fn consts_of(segs: Seq<SegV>) -> Seq<Seq<char>>
    decreases segs.len(),
{
    if segs.len() == 0 {
        Seq::empty()
    } else {
        match segs[0] {
            SegV::Constant(c) => seq![c] + consts_of(segs.drop_first()),
            SegV::Id(_) => consts_of(segs.drop_first()),
        }
    }
}

impl PathSegment {
    /// Parses one fragment, as `seg_parse` describes.
    pub fn from_str(s: &str) -> (r: Option<PathSegment>)
        ensures
            match r {
                Some(seg) => seg_parse(s@) == Some(seg@),
                None => seg_parse(s@) is None,
            },
    {
        let n = s.unicode_len();
        if n == 0 {
            return None;
        }
        if n >= 2 && s.get_char(0) == '{' && s.get_char(n - 1) == '}' {
            let inner = s.substring_char(1, n - 1);
            Some(PathSegment::Id(inner.to_owned()))
        } else {
            Some(PathSegment::Constant(s.to_owned()))
        }
    }

    /// The same parse; segments always own their text here, so the
    /// borrowing and the owning entry point coincide.
    pub fn from_str_owned(s: &str) -> (r: Option<PathSegment>)
        ensures
            match r {
                Some(seg) => seg_parse(s@) == Some(seg@),
                None => seg_parse(s@) is None,
            },
    {
        PathSegment::from_str(s)
    }
}

impl Path {
    /// Parses a path template, as `path_parse` describes.
    pub fn from_str(s: &str) -> (r: Option<Path>)
        ensures
            match r {
                Some(p) => path_parse(s@) == Some(p@) && p@.len() > 0,
                None => path_parse(s@) is None,
            },
    {
        let n = s.unicode_len();
        let mut segs: Vec<PathSegment> = Vec::new();
        let mut start: usize = 0;
        proof {
            assert(s@.skip(0) =~= s@);
            assert(segs@.map_values(|t: PathSegment| t@) =~= Seq::<SegV>::empty());
        }
        loop
            invariant_except_break
                seg_parse_all(fragments(s@)) == segs@.map_values(|t: PathSegment| t@)
                    + seg_parse_all(fragments(s@.skip(start as int))),
            invariant
                0 <= start <= n,
                n == s@.len(),
            ensures
                seg_parse_all(fragments(s@)) == segs@.map_values(|t: PathSegment| t@),
            decreases n - start,
        {
            let ghost rest = s@.skip(start as int);
            let mut j: usize = start;
            loop
                invariant
                    start <= j <= n,
                    n == s@.len(),
                    forall|t: int| start <= t < j ==> s@[t] != '/',
                ensures
                    start <= j <= n,
                    forall|t: int| start <= t < j ==> s@[t] != '/',
                    j < n ==> s@[j as int] == '/',
                decreases n - j,
            {
                if j == n {
                    break;
                }
                if s.get_char(j) == '/' {
                    break;
                }
                j = j + 1;
            }
            // j is the end of the fragment that starts at `start`
            proof {
                assert(forall|t: int| 0 <= t < j - start ==> rest[t] == s@[start + t]);
                assert(j < n ==> s@[j as int] == '/' || !(s@[j as int] == '/'));
            }
            let frag = s.substring_char(start, j);
            proof {
                assert(frag@ =~= rest.subrange(0, j - start));
                if j < n && s@[j as int] == '/' {
                    lemma_fragments_step(rest, j - start);
                } else {
                    assert(j == n || s@[j as int] != '/');
                }
            }
            if j < n {
                // the scan above stopped at a slash
                proof {
                    lemma_fragments_step(rest, j - start);
                    assert(rest.subrange(0, j - start) == frag@);
                    assert(rest.skip(j - start + 1) =~= s@.skip(j + 1));
                }
            } else {
                proof {
                    lemma_fragments_step(rest, j - start);
                    assert(rest.subrange(0, j - start) =~= rest);
                }
            }
            let ghost frag_rest: Seq<Seq<char>> = if (j as int) < n as int {
                fragments(s@.skip(j + 1))
            } else {
                Seq::empty()
            };
            proof {
                if j < n {
                    assert(fragments(rest) == seq![frag@] + frag_rest);
                } else {
                    assert(fragments(rest) == seq![rest] && rest == frag@);
                    assert(fragments(rest) == seq![frag@]);
                    assert(fragments(rest) =~= seq![frag@] + frag_rest);
                }
                let fr = seq![frag@] + frag_rest;
                assert(fr[0] == frag@);
                assert(fr.drop_first() =~= frag_rest);
            }
            let seg = PathSegment::from_str(frag);
            match seg {
                Some(seg) => {
                    let ghost old_segs = segs@;
                    segs.push(seg);
                    proof {
                        assert(segs@.map_values(|t: PathSegment| t@) =~= old_segs.map_values(
                            |t: PathSegment| t@,
                        ) + seq![segs@[old_segs.len() as int]@]);
                        assert(seg_parse_all(fragments(rest)) == seq![segs@[old_segs.len() as int]@]
                            + seg_parse_all(frag_rest));
                    }
                },
                None => {
                    proof {
                        assert(seg_parse_all(fragments(rest)) == seg_parse_all(frag_rest));
                    }
                },
            }
            proof {
                if j == n {
                    assert(seg_parse_all(frag_rest) =~= Seq::<SegV>::empty());
                }
            }
            if j == n {
                break;
            }
            start = j + 1;
        }
        if segs.len() == 0 {
            proof {
                assert(seg_parse_all(fragments(s@)) =~= Seq::<SegV>::empty());
            }
            None
        } else {
            let p = Path(segs);
            proof {
                assert(p@ == segs@.map_values(|t: PathSegment| t@));
                assert(p@.len() == segs@.len());
            }
            Some(p)
        }
    }

    /// The same parse; see `PathSegment::from_str_owned`.
    ///
    pub fn from_str_owned(s: &str) -> (r: Option<Path>)
        ensures
            match r {
                Some(p) => path_parse(s@) == Some(p@) && p@.len() > 0,
                None => path_parse(s@) is None,
            },
    {
        Path::from_str(s)
    }

    /// The texts of the constant segments, in order; parameter segments
    /// are skipped. This is the projection that places a path in the raw
    /// trie.
    pub fn consts(&self) -> (r: Vec<String>)
        ensures
            crate::smap::ss_view(r@) == consts_of(self@),
    {
        let mut r: Vec<String> = Vec::new();
        let mut i: usize = 0;
        proof {
            assert(self@.skip(0) =~= self@);
            assert(crate::smap::ss_view(r@) =~= Seq::<Seq<char>>::empty());
            assert(Seq::<Seq<char>>::empty() + consts_of(self@) =~= consts_of(self@));
        }
        while i < self.0.len()
            invariant
                0 <= i <= self.0@.len(),
                consts_of(self@) == crate::smap::ss_view(r@) + consts_of(self@.skip(i as int)),
                self@.len() == self.0@.len(),
            decreases self.0@.len() - i,
        {
            let ghost pre = r@;
            let ghost restv = self@.skip(i as int);
            proof {
                assert(restv[0] == self@[i as int]);
                assert(restv.drop_first() =~= self@.skip(i + 1));
            }
            match &self.0[i] {
                PathSegment::Constant(c) => {
                    r.push(c.clone());
                    proof {
                        assert(self@[i as int] matches SegV::Constant(cc) && cc == c@);
                        assert(crate::smap::ss_view(r@) =~= crate::smap::ss_view(pre) + seq![c@]);
                        assert(crate::smap::ss_view(pre) + consts_of(restv) =~= crate::smap::ss_view(
                            r@,
                        ) + consts_of(self@.skip(i + 1)));
                    }
                },
                PathSegment::Id(_) => {
                    proof {
                        assert(consts_of(restv) == consts_of(self@.skip(i + 1)));
                    }
                },
            }
            i = i + 1;
        }
        proof {
            assert(consts_of(self@.skip(i as int)) =~= Seq::<Seq<char>>::empty());
            assert(crate::smap::ss_view(r@) =~= crate::smap::ss_view(r@) + Seq::<
                Seq<char>,
            >::empty());
        }
        r
    }
}

/// A total order on segments: parameters before constants,
/// lexicographic within one kind. It has no semantic meaning; it only
/// fixes a deterministic order for storage.
pub open spec fn seg_lt(a: SegV, b: SegV) -> bool {
    match (a, b) {
        (SegV::Id(x), SegV::Id(y)) => lex_lt(x, y),
        (SegV::Id(_), SegV::Constant(_)) => true,
        (SegV::Constant(_), SegV::Id(_)) => false,
        (SegV::Constant(x), SegV::Constant(y)) => lex_lt(x, y),
    }
}

impl PathSegment {
    /// Three-way comparison in the `seg_lt` order.
    pub fn compare(&self, other: &PathSegment) -> (r: core::cmp::Ordering)
        ensures
            r is Less <==> seg_lt(self@, other@),
            r is Greater <==> seg_lt(other@, self@),
            r is Equal <==> self@ == other@,
    {
        match (self, other) {
            (PathSegment::Id(x), PathSegment::Id(y)) | (
                PathSegment::Constant(x),
                PathSegment::Constant(y),
            ) => {
                match str_cmp(x.as_str(), y.as_str()) {
                    StrCmp::Lt => core::cmp::Ordering::Less,
                    StrCmp::Eq => core::cmp::Ordering::Equal,
                    StrCmp::Gt => core::cmp::Ordering::Greater,
                }
            },
            (PathSegment::Id(_), PathSegment::Constant(_)) => core::cmp::Ordering::Less,
            (PathSegment::Constant(_), PathSegment::Id(_)) => core::cmp::Ordering::Greater,
        }
    }
}


/// The text a segment shows: the carried text, braces not restored.
pub open spec fn seg_text(s: SegV) -> Seq<char> {
    match s {
        SegV::Constant(c) => c,
        SegV::Id(c) => c,
    }
}

/// The text a path shows: the segments' texts joined by slashes.
pub open spec fn path_text(segs: Seq<SegV>) -> Seq<char>
    decreases segs.len(),
{
    if segs.len() == 0 {
        Seq::empty()
    } else if segs.len() == 1 {
        seg_text(segs[0])
    } else {
        path_text(segs.drop_last()) + seq!['/'] + seg_text(segs.last())
    }
}

impl PathSegment {
    /// The segment's text.
    pub fn to_text(&self) -> (r: String)
        ensures
            r@ == seg_text(self@),
    {
        match self {
            PathSegment::Constant(c) => c.clone(),
            PathSegment::Id(c) => c.clone(),
        }
    }
}

impl Path {
    /// The path's text, segments joined by slashes.
    #[verifier::loop_isolation(false)]
    pub fn to_text(&self) -> (r: String)
        ensures
            r@ == path_text(self@),
    {
        let mut out = String::new();
        proof {
            reveal_strlit("/");
            assert(self@.take(0) =~= Seq::<SegV>::empty());
        }
        let mut i: usize = 0;
        while i < self.0.len()
            invariant
                0 <= i <= self.0@.len(),
                out@ == path_text(self@.take(i as int)),
            decreases self.0@.len() - i,
        {
            proof {
                assert(self@.take(i + 1).drop_last() =~= self@.take(i as int));
                assert(self@.take(i + 1).last() == self@[i as int]);
            }
            if i != 0 {
                out.append("/");
                proof {
                    assert("/"@ =~= seq!['/']);
                }
            }
            let t = self.0[i].to_text();
            out.append(t.as_str());
            proof {
                if i == 0 {
                    assert(out@ =~= path_text(self@.take(1)));
                }
            }
            i = i + 1;
        }
        proof {
            assert(self@.take(self.0@.len() as int) =~= self@);
        }
        out
    }
}

impl PartialOrd for PathSegment {
    /// The comparison the `seg_lt` order induces.
    fn partial_cmp(&self, other: &PathSegment) -> (r: Option<core::cmp::Ordering>) {
        let c = self.compare(other);
        proof {
            match (self@, other@) {
                (SegV::Id(x), SegV::Id(y)) => {
                    crate::text::lemma_lex_trichotomy(x, y);
                },
                (SegV::Constant(x), SegV::Constant(y)) => {
                    crate::text::lemma_lex_trichotomy(x, y);
                },
                _ => {},
            }
        }
        Some(c)
    }
}

impl vstd::std_specs::cmp::PartialOrdSpecImpl for PathSegment {
    open spec fn obeys_partial_cmp_spec() -> bool {
        true
    }

    open spec fn partial_cmp_spec(&self, other: &PathSegment) -> Option<core::cmp::Ordering> {
        Some(
            if seg_lt(self@, other@) {
                core::cmp::Ordering::Less
            } else if seg_lt(other@, self@) {
                core::cmp::Ordering::Greater
            } else {
                core::cmp::Ordering::Equal
            },
        )
    }
}
} // verus!
