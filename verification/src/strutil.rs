//! Character-level string operations for the filter engine: equality,
//! prefix, suffix and substring tests, and a lexicographic order by
//! code point used for sorted distinct-value listings.

use vstd::prelude::*;
use vstd::string::StrSliceExecFns;
use vstd::utf8::char_u32_cast;

verus! {

/// Lexicographic strictly-less order on character sequences, by code
/// point.
pub open spec fn lex_lt(a: Seq<char>, b: Seq<char>) -> bool
    decreases a.len(),
{
    if b.len() == 0 {
        false
    } else if a.len() == 0 {
        true
    } else if (a[0] as u32) < (b[0] as u32) {
        true
    } else if (b[0] as u32) < (a[0] as u32) {
        false
    } else {
        lex_lt(a.drop_first(), b.drop_first())
    }
}

proof fn lemma_char_eq(c1: char, c2: char)
    requires
        c1 as u32 == c2 as u32,
    ensures
        c1 == c2,
{
    char_u32_cast(c1, c1 as u32);
    char_u32_cast(c2, c2 as u32);
}

/// Of two character sequences, exactly one holds: the first is
/// lexicographically smaller, they are equal, or the second is smaller.
pub proof fn lemma_lex_trichotomy(a: Seq<char>, b: Seq<char>)
    ensures
        lex_lt(a, b) || lex_lt(b, a) || a == b,
        lex_lt(a, b) ==> !lex_lt(b, a) && a != b,
        lex_lt(b, a) ==> !lex_lt(a, b) && a != b,
    decreases a.len(),
{
    if b.len() == 0 || a.len() == 0 {
        if a.len() == 0 && b.len() == 0 {
            assert(a =~= b);
        }
    } else if (a[0] as u32) < (b[0] as u32) {
    } else if (b[0] as u32) < (a[0] as u32) {
    } else {
        lemma_char_eq(a[0], b[0]);
        lemma_lex_trichotomy(a.drop_first(), b.drop_first());
        if !lex_lt(a, b) && !lex_lt(b, a) {
            assert(a.drop_first() == b.drop_first());
            assert forall|i: int| 0 <= i < a.len() implies a[i] == b[i] by {
                if i >= 1 {
                    assert(a.drop_first()[i - 1] == b.drop_first()[i - 1]);
                }
            }
            assert(a =~= b);
        }
        if a == b {
            assert(a.drop_first() =~= b.drop_first());
        }
    }
}

/// The lexicographic order is transitive.
pub proof fn lemma_lex_trans(a: Seq<char>, b: Seq<char>, c: Seq<char>)
    requires
        lex_lt(a, b),
        lex_lt(b, c),
    ensures
        lex_lt(a, c),
    decreases a.len(),
{
    if c.len() == 0 {
    } else if a.len() == 0 {
    } else {
        if b.len() == 0 {
        } else {
            if (a[0] as u32) < (b[0] as u32) {
                if (b[0] as u32) < (c[0] as u32) {
                } else if (c[0] as u32) < (b[0] as u32) {
                } else {
                    lemma_char_eq(b[0], c[0]);
                }
            } else if (b[0] as u32) < (a[0] as u32) {
            } else {
                lemma_char_eq(a[0], b[0]);
                if (b[0] as u32) < (c[0] as u32) {
                } else if (c[0] as u32) < (b[0] as u32) {
                } else {
                    lemma_char_eq(b[0], c[0]);
                    lemma_lex_trans(a.drop_first(), b.drop_first(), c.drop_first());
                }
            }
        }
    }
}

proof fn lemma_lex_skip(a: Seq<char>, b: Seq<char>, i: int)
    requires
        0 <= i <= a.len(),
        i <= b.len(),
        forall|j: int| 0 <= j < i ==> a[j] == b[j],
    ensures
        lex_lt(a, b) == lex_lt(a.skip(i), b.skip(i)),
    decreases i,
{
    if i > 0 {
        if a.len() > 0 && b.len() > 0 {
            lemma_char_eq(a[0], b[0]);
            assert(a.drop_first() =~= a.skip(1));
            assert(b.drop_first() =~= b.skip(1));
            lemma_lex_skip(a.skip(1), b.skip(1), i - 1);
            assert(a.skip(1).skip(i - 1) =~= a.skip(i));
            assert(b.skip(1).skip(i - 1) =~= b.skip(i));
        }
    } else {
        assert(a.skip(0) =~= a);
        assert(b.skip(0) =~= b);
    }
}

/// The three outcomes of comparing two strings.
#[derive(Clone, Copy, Debug, PartialEq, Eq, Structural)]
pub enum StrOrder {
    Less,
    Equal,
    Greater,
}

/// Three-way lexicographic comparison of two strings by code point.
pub fn str_compare(a: &str, b: &str) -> (r: StrOrder)
    ensures
        r == StrOrder::Less <==> lex_lt(a@, b@),
        r == StrOrder::Equal <==> a@ == b@,
        r == StrOrder::Greater <==> lex_lt(b@, a@),
{
    proof {
        lemma_lex_trichotomy(a@, b@);
    }
    let alen = a.unicode_len();
    let blen = b.unicode_len();
    let m = if alen < blen {
        alen
    } else {
        blen
    };
    let mut i: usize = 0;
    while i < m
        invariant
            alen == a@.len(),
            blen == b@.len(),
            m == if alen < blen {
                alen
            } else {
                blen
            },
            0 <= i <= m,
            forall|j: int| 0 <= j < i ==> a@[j] == b@[j],
        decreases m - i,
    {
        let ca = a.get_char(i);
        let cb = b.get_char(i);
        let ua = ca as u32;
        let ub = cb as u32;
        if ua < ub {
            proof {
                lemma_lex_skip(a@, b@, i as int);
                lemma_lex_trichotomy(a@, b@);
            }
            return StrOrder::Less;
        }
        if ub < ua {
            proof {
                lemma_lex_skip(a@, b@, i as int);
                lemma_lex_trichotomy(a@, b@);
            }
            return StrOrder::Greater;
        }
        proof {
            lemma_char_eq(ca, cb);
        }
        i += 1;
    }
    proof {
        lemma_lex_skip(a@, b@, m as int);
        lemma_lex_trichotomy(a@, b@);
        if alen == blen {
            assert(a@ =~= b@);
        }
    }
    if alen < blen {
        StrOrder::Less
    } else if blen < alen {
        StrOrder::Greater
    } else {
        StrOrder::Equal
    }
}

/// Whether the two strings hold the same characters.
pub fn str_eq(a: &str, b: &str) -> (r: bool)
    ensures
        r == (a@ == b@),
{
    match str_compare(a, b) {
        StrOrder::Equal => true,
        _ => false,
    }
}

/// Whether `p` occurs in `s` starting at position `pos`.
pub open spec fn matches_at(s: Seq<char>, p: Seq<char>, pos: int) -> bool {
    &&& 0 <= pos
    &&& pos + p.len() <= s.len()
    &&& s.subrange(pos, pos + p.len() as int) == p
}

/// Whether `p` is a prefix of `s`.
pub open spec fn is_prefix(s: Seq<char>, p: Seq<char>) -> bool {
    matches_at(s, p, 0)
}

/// Whether `p` is a suffix of `s`.
pub open spec fn is_suffix(s: Seq<char>, p: Seq<char>) -> bool {
    matches_at(s, p, s.len() - p.len())
}

/// Whether `p` occurs anywhere in `s`.
pub open spec fn contains_sub(s: Seq<char>, p: Seq<char>) -> bool {
    exists|pos: int| matches_at(s, p, pos)
}

/// Checks whether `p@` occurs in `s@` at position `pos`.
fn check_match_at(s: &str, p: &str, pos: usize) -> (r: bool)
    requires
        pos + p@.len() <= s@.len(),
    ensures
        r == matches_at(s@, p@, pos as int),
{
    let slen = s.unicode_len();
    let plen = p.unicode_len();
    let mut j: usize = 0;
    while j < plen
        invariant
            slen == s@.len(),
            plen == p@.len(),
            pos + plen <= s@.len(),
            0 <= j <= plen,
            forall|t: int| 0 <= t < j ==> s@[pos + t] == p@[t],
        decreases plen - j,
    {
        let cs = s.get_char(pos + j);
        let cp = p.get_char(j);
        if (cs as u32) != (cp as u32) {
            proof {
                if matches_at(s@, p@, pos as int) {
                    assert(s@.subrange(pos as int, pos + plen as int)[j as int] == p@[j as int]);
                }
            }
            return false;
        }
        proof {
            lemma_char_eq(cs, cp);
        }
        j += 1;
    }
    proof {
        assert(s@.subrange(pos as int, pos + plen as int) =~= p@);
    }
    true
}

/// Whether `p@` is a prefix of `s@`.
pub fn str_starts_with(s: &str, p: &str) -> (r: bool)
    ensures
        r == is_prefix(s@, p@),
{
    let plen = p.unicode_len();
    let slen = s.unicode_len();
    if plen > slen {
        return false;
    }
    check_match_at(s, p, 0)
}

/// Whether `p@` is a suffix of `s@`.
pub fn str_ends_with(s: &str, p: &str) -> (r: bool)
    ensures
        r == is_suffix(s@, p@),
{
    let plen = p.unicode_len();
    let slen = s.unicode_len();
    if plen > slen {
        return false;
    }
    check_match_at(s, p, slen - plen)
}

/// Whether `p@` occurs anywhere in `s@`.
pub fn str_contains(s: &str, p: &str) -> (r: bool)
    ensures
        r == contains_sub(s@, p@),
{
    let plen = p.unicode_len();
    let slen = s.unicode_len();
    if plen > slen {
        proof {
            if contains_sub(s@, p@) {
                let pos = choose|pos: int| matches_at(s@, p@, pos);
            }
        }
        return false;
    }
    if plen == 0 {
        proof {
            assert(s@.subrange(0, 0) =~= p@);
            assert(matches_at(s@, p@, 0));
        }
        return true;
    }
    let last = slen - plen;
    let mut pos: usize = 0;
    while pos <= last
        invariant
            plen == p@.len(),
            slen == s@.len(),
            1 <= plen <= slen,
            last == slen - plen,
            0 <= pos <= last + 1,
            forall|t: int| 0 <= t < pos ==> !matches_at(s@, p@, t),
        decreases last + 1 - pos,
    {
        if check_match_at(s, p, pos) {
            return true;
        }
        pos += 1;
    }
    proof {
        if contains_sub(s@, p@) {
            let t = choose|t: int| matches_at(s@, p@, t);
            assert(t <= last);
        }
    }
    false
}

/// The stable textual form of a message sequence: the messages joined
/// by a newline character.
pub open spec fn joined_text(ms: Seq<Seq<char>>) -> Seq<char>
    decreases ms.len(),
{
    if ms.len() == 0 {
        Seq::empty()
    } else if ms.len() == 1 {
        ms[0]
    } else {
        ms[0] + seq!['\n'] + joined_text(ms.drop_first())
    }
}

/// Joins the messages of a record into their stable textual form.
pub fn join_messages(ms: &Vec<String>) -> (r: String)
    ensures
        r@ == joined_text(ms.deep_view()),
{
    let n = ms.len();
    if n == 0 {
        return String::new();
    }
    let mut out: String = ms[0].clone();
    let mut i: usize = 1;
    while i < n
        invariant
            n == ms@.len(),
            1 <= i <= n,
            out@ == joined_text(ms.deep_view().take(i as int)),
        decreases n - i,
    {
        out.append("\n");
        out.append(ms[i].as_str());
        proof {
            reveal_strlit("\n");
            let dv = ms.deep_view();
            lemma_joined_push(dv.take(i as int), dv[i as int]);
            assert(dv.take(i as int).push(dv[i as int]) =~= dv.take(i as int + 1));
            assert(ms@[i as int]@ == dv[i as int]);
        }
        i += 1;
    }
    proof {
        assert(ms.deep_view().take(n as int) =~= ms.deep_view());
    }
    out
}

proof fn lemma_joined_push(ms: Seq<Seq<char>>, m: Seq<char>)
    requires
        ms.len() >= 1,
    ensures
        joined_text(ms.push(m)) == joined_text(ms) + seq!['\n'] + m,
    decreases ms.len(),
{
    if ms.len() == 1 {
        assert(ms.push(m)[0] == ms[0]);
        assert(ms.push(m).drop_first() =~= seq![m]);
        assert(joined_text(seq![m]) == m);
        assert(joined_text(ms.push(m)) =~= joined_text(ms) + seq!['\n'] + m);
    } else {
        assert(ms.push(m).drop_first() =~= ms.drop_first().push(m));
        lemma_joined_push(ms.drop_first(), m);
        assert(ms.push(m)[0] == ms[0]);
        assert(joined_text(ms.push(m)) =~= joined_text(ms) + seq!['\n'] + m);
    }
}

/// Clones a vector of strings, preserving every character.
pub fn clone_strings(v: &Vec<String>) -> (r: Vec<String>)
    ensures
        r.deep_view() == v.deep_view(),
{
    let mut r: Vec<String> = Vec::new();
    let n = v.len();
    let mut i: usize = 0;
    while i < n
        invariant
            n == v@.len(),
            0 <= i <= n,
            r@.len() == i,
            r.deep_view() == v.deep_view().take(i as int),
        decreases n - i,
    {
        let ghost prevseq = r@;
        let ghost prevdeep = r.deep_view();
        let s = v[i].clone();
        r.push(s);
        proof {
            assert(r@ == prevseq.push(s));
            assert forall|j: int| 0 <= j < i + 1 implies r.deep_view()[j] == v.deep_view().take(
                i as int + 1,
            )[j] by {
                if j < i {
                    assert(r@[j] == prevseq[j]);
                    assert(r.deep_view()[j] == prevdeep[j]);
                } else {
                    assert(r@[j] == s);
                    assert(s@ == v@[i as int]@);
                }
            }
            assert(r.deep_view() =~= v.deep_view().take(i as int + 1));
        }
        i += 1;
    }
    assert(v.deep_view().take(n as int) =~= v.deep_view());
    r
}

} // verus!
