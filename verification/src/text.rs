use vstd::prelude::*;

verus! {

/// Lexicographic order on character sequences, by Unicode code point.
/// For strings this agrees with the byte order of their UTF-8 encodings,
/// so sorting by it reproduces the usual ordered-map ordering on strings.
pub open spec fn lex_lt(a: Seq<char>, b: Seq<char>) -> bool
    decreases a.len(),
{
    if b.len() == 0 {
        false
    } else if a.len() == 0 {
        true
    } else if (a[0] as int) < (b[0] as int) {
        true
    } else if a[0] == b[0] {
        lex_lt(a.drop_first(), b.drop_first())
    } else {
        false
    }
}

/// Exactly one of `lex_lt(a, b)`, `a == b`, `lex_lt(b, a)` holds.
pub proof fn lemma_lex_trichotomy(a: Seq<char>, b: Seq<char>)
    ensures
        lex_lt(a, b) || lex_lt(b, a) || a == b,
        lex_lt(a, b) ==> !lex_lt(b, a) && a != b,
        lex_lt(b, a) ==> !lex_lt(a, b) && a != b,
    decreases a.len() + b.len(),
{
    if a.len() == 0 && b.len() == 0 {
        assert(a =~= b);
    } else if a.len() > 0 && b.len() > 0 {
        if a[0] == b[0] {
            lemma_lex_trichotomy(a.drop_first(), b.drop_first());
            if a.drop_first() == b.drop_first() {
                assert forall|j: int| 0 <= j < a.len() implies a[j] == b[j] by {
                    if j > 0 {
                        assert(a[j] == a.drop_first()[j - 1]);
                        assert(b[j] == b.drop_first()[j - 1]);
                    }
                }
                assert(a =~= b);
            }
            if a == b {
                assert(a.drop_first() =~= b.drop_first());
            }
        } else {
            assert((a[0] as int) != (b[0] as int));
            assert(a != b);
        }
    }
}

pub proof fn lemma_lex_trans(a: Seq<char>, b: Seq<char>, c: Seq<char>)
    requires
        lex_lt(a, b),
        lex_lt(b, c),
    ensures
        lex_lt(a, c),
    decreases a.len() + b.len() + c.len(),
{
    if a.len() == 0 {
        assert(b.len() > 0 && c.len() > 0);
    } else {
        assert(b.len() > 0 && c.len() > 0);
        if a[0] == b[0] && b[0] == c[0] {
            lemma_lex_trans(a.drop_first(), b.drop_first(), c.drop_first());
        }
    }
}

/// If `a` and `b` agree on their first `i` characters and differ at `i`,
/// the order is decided by the characters at `i`; if `a` is a strict
/// prefix of `b`, then `a` comes first.
pub proof fn lemma_lex_from_common_prefix(a: Seq<char>, b: Seq<char>, i: int)
    requires
        0 <= i <= a.len(),
        0 <= i <= b.len(),
        forall|j: int| 0 <= j < i ==> a[j] == b[j],
    ensures
        i < a.len() && i < b.len() && (a[i] as int) < (b[i] as int) ==> lex_lt(a, b),
        i == a.len() && i < b.len() ==> lex_lt(a, b),
        i == a.len() && i == b.len() ==> a == b,
    decreases i,
{
    if i == 0 {
        if a.len() == 0 && b.len() == 0 {
            assert(a =~= b);
        }
    } else {
        assert(a.len() > 0 && b.len() > 0 && a[0] == b[0]);
        lemma_lex_from_common_prefix(a.drop_first(), b.drop_first(), i - 1);
        if i == a.len() && i == b.len() {
            assert(a.drop_first() =~= b.drop_first());
            assert(a =~= b);
        }
    }
}

/// Three-way comparison result for strings.
pub enum StrCmp {
    Lt,
    Eq,
    Gt,
}

/// Compares two strings in lexicographic code-point order.
pub fn str_cmp(a: &str, b: &str) -> (c: StrCmp)
    ensures
        c is Lt <==> lex_lt(a@, b@),
        c is Eq <==> a@ == b@,
        c is Gt <==> lex_lt(b@, a@),
{
    let alen = a.unicode_len();
    let blen = b.unicode_len();
    let n = if alen < blen { alen } else { blen };
    let mut i: usize = 0;
    while i < n
        invariant
            0 <= i <= n,
            n <= alen <= a@.len(),
            n <= blen <= b@.len(),
            alen == a@.len(),
            blen == b@.len(),
            n == if alen < blen { alen } else { blen },
            forall|j: int| 0 <= j < i ==> a@[j] == b@[j],
        decreases n - i,
    {
        let ca = a.get_char(i);
        let cb = b.get_char(i);
        if (ca as u32) < (cb as u32) {
            proof {
                lemma_lex_from_common_prefix(a@, b@, i as int);
                lemma_lex_trichotomy(a@, b@);
            }
            return StrCmp::Lt;
        }
        if (cb as u32) < (ca as u32) {
            proof {
                lemma_lex_from_common_prefix(b@, a@, i as int);
                lemma_lex_trichotomy(a@, b@);
            }
            return StrCmp::Gt;
        }
        proof {
            assert((ca as u32) == (cb as u32));
            assert(ca == cb);
        }
        i = i + 1;
    }
    proof {
        lemma_lex_trichotomy(a@, b@);
    }
    if alen < blen {
        proof {
            lemma_lex_from_common_prefix(a@, b@, alen as int);
        }
        StrCmp::Lt
    } else if blen < alen {
        proof {
            lemma_lex_from_common_prefix(b@, a@, blen as int);
        }
        StrCmp::Gt
    } else {
        proof {
            lemma_lex_from_common_prefix(a@, b@, alen as int);
        }
        StrCmp::Eq
    }
}

/// True when the strings hold the same characters.
pub fn str_eq(a: &str, b: &str) -> (r: bool)
    ensures
        r <==> a@ == b@,
{
    matches!(str_cmp(a, b), StrCmp::Eq)
}

/// What stripping the prefix `p` from `s` leaves: the rest of `s` if `p`
/// is a prefix of `s`, absent otherwise.
pub open spec fn strip_prefix_s(s: Seq<char>, p: Seq<char>) -> Option<Seq<char>> {
    if p.len() <= s.len() && s.subrange(0, p.len() as int) == p {
        Some(s.skip(p.len() as int))
    } else {
        None
    }
}

/// What stripping the suffix `p` from `s` leaves.
pub open spec fn strip_suffix_s(s: Seq<char>, p: Seq<char>) -> Option<Seq<char>> {
    if p.len() <= s.len() && s.skip(s.len() - p.len()) == p {
        Some(s.subrange(0, s.len() - p.len()))
    } else {
        None
    }
}

pub fn strip_prefix<'a>(s: &'a str, p: &str) -> (r: Option<&'a str>)
    ensures
        match r {
            Some(t) => strip_prefix_s(s@, p@) == Some(t@),
            None => strip_prefix_s(s@, p@) is None,
        },
{
    let slen = s.unicode_len();
    let plen = p.unicode_len();
    if plen > slen {
        return None;
    }
    let mut i: usize = 0;
    while i < plen
        invariant
            0 <= i <= plen,
            plen <= slen,
            slen == s@.len(),
            plen == p@.len(),
            forall|j: int| 0 <= j < i ==> s@[j] == p@[j],
        decreases plen - i,
    {
        let cs = s.get_char(i);
        let cp = p.get_char(i);
        if (cs as u32) != (cp as u32) {
            proof {
                assert(s@.subrange(0, p@.len() as int)[i as int] != p@[i as int]);
            }
            return None;
        }
        i = i + 1;
    }
    let rest = s.substring_char(plen, slen);
    proof {
        assert(s@.subrange(0, p@.len() as int) =~= p@);
        assert(rest@ =~= s@.skip(p@.len() as int));
    }
    Some(rest)
}

pub fn strip_suffix<'a>(s: &'a str, p: &str) -> (r: Option<&'a str>)
    ensures
        match r {
            Some(t) => strip_suffix_s(s@, p@) == Some(t@),
            None => strip_suffix_s(s@, p@) is None,
        },
{
    let slen = s.unicode_len();
    let plen = p.unicode_len();
    if plen > slen {
        return None;
    }
    let off = slen - plen;
    let mut i: usize = 0;
    while i < plen
        invariant
            0 <= i <= plen,
            plen <= slen,
            slen == s@.len(),
            plen == p@.len(),
            off == slen - plen,
            forall|j: int| 0 <= j < i ==> s@[off + j] == p@[j],
        decreases plen - i,
    {
        let cs = s.get_char(off + i);
        let cp = p.get_char(i);
        if (cs as u32) != (cp as u32) {
            proof {
                assert(s@.skip(off as int)[i as int] != p@[i as int]);
            }
            return None;
        }
        i = i + 1;
    }
    let rest = s.substring_char(0, off);
    proof {
        assert(s@.skip(off as int) =~= p@);
        assert(rest@ =~= s@.subrange(0, s@.len() - p@.len()));
    }
    Some(rest)
}


/// Whether every character is ASCII.
pub open spec fn all_ascii(s: Seq<char>) -> bool {
    forall|i: int| 0 <= i < s.len() ==> (#[trigger] s[i] as int) < 128
}

/// Tests whether a string holds ASCII characters only.
pub fn check_all_ascii(s: &str) -> (r: bool)
    ensures
        r == all_ascii(s@),
{
    let n = s.unicode_len();
    let mut i: usize = 0;
    while i < n
        invariant
            0 <= i <= n,
            n == s@.len(),
            forall|j: int| 0 <= j < i ==> (#[trigger] s@[j] as int) < 128,
        decreases n - i,
    {
        let c = s.get_char(i);
        if (c as u32) >= 128 {
            return false;
        }
        i = i + 1;
    }
    true
}
} // verus!
