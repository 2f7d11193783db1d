//! Plain lexicographic ordering of strings by code point, which for
//! UTF-8 encoded strings coincides with byte order.  The page-name view
//! sorts its synthesized names this way.

use vstd::prelude::*;

use crate::natord::int_ord;

verus! {

use core::cmp::Ordering;
use vstd::multiset::Multiset;
use vstd::seq_lib::group_to_multiset_ensures;
use vstd::seq_lib::lemma_multiset_commutative;

/// Lexicographic comparison by code point: negative, zero or positive.
pub open spec fn lex_cmp(a: Seq<char>, b: Seq<char>) -> int
    decreases a.len() + b.len(),
{
    if a.len() == 0 && b.len() == 0 {
        0
    } else if a.len() == 0 {
        -1
    } else if b.len() == 0 {
        1
    } else if (a[0] as int) < (b[0] as int) {
        -1
    } else if (b[0] as int) < (a[0] as int) {
        1
    } else {
        lex_cmp(a.skip(1), b.skip(1))
    }
}

pub proof fn lemma_lex_cmp_flip(a: Seq<char>, b: Seq<char>)
    ensures
        lex_cmp(b, a) == -lex_cmp(a, b),
    decreases a.len() + b.len(),
{
    if a.len() == 0 || b.len() == 0 {
    } else if a[0] == b[0] {
        lemma_lex_cmp_flip(a.skip(1), b.skip(1));
    }
}

pub proof fn lemma_lex_cmp_range(a: Seq<char>, b: Seq<char>)
    ensures
        -1 <= lex_cmp(a, b) <= 1,
    decreases a.len() + b.len(),
{
    if a.len() == 0 || b.len() == 0 {
    } else if a[0] == b[0] {
        lemma_lex_cmp_range(a.skip(1), b.skip(1));
    }
}

pub proof fn lemma_lex_cmp_trans(a: Seq<char>, b: Seq<char>, c: Seq<char>)
    requires
        lex_cmp(a, b) <= 0,
        lex_cmp(b, c) <= 0,
    ensures
        lex_cmp(a, c) <= 0,
    decreases a.len() + b.len() + c.len(),
{
    if a.len() == 0 {
    } else if b.len() == 0 || c.len() == 0 {
    } else {
        if (a[0] as int) < (c[0] as int) {
        } else if a[0] == c[0] {
            if (a[0] as int) < (b[0] as int) {
                // then b[0] > c[0], so lex_cmp(b, c) would be 1
                assert(lex_cmp(b, c) == 1);
            } else if a[0] == b[0] {
                lemma_lex_cmp_trans(a.skip(1), b.skip(1), c.skip(1));
            }
        } else {
            // a[0] > c[0]: one of the hypotheses fails
            if (a[0] as int) <= (b[0] as int) {
                assert(lex_cmp(b, c) == 1);
            } else {
                assert(lex_cmp(a, b) == 1);
            }
        }
    }
}

/// Comparing two concatenations whose left parts have one length: the
/// left parts decide unless they tie exactly.
pub proof fn lemma_lex_block(u: Seq<char>, v: Seq<char>, s: Seq<char>, t: Seq<char>)
    requires
        u.len() == v.len(),
    ensures
        lex_cmp(u + s, v + t) == if lex_cmp(u, v) != 0 {
            lex_cmp(u, v)
        } else {
            lex_cmp(s, t)
        },
    decreases u.len(),
{
    if u.len() == 0 {
        assert(u + s =~= s);
        assert(v + t =~= t);
    } else {
        assert((u + s)[0] == u[0]);
        assert((v + t)[0] == v[0]);
        if u[0] == v[0] {
            assert((u + s).skip(1) =~= u.skip(1) + s);
            assert((v + t).skip(1) =~= v.skip(1) + t);
            lemma_lex_block(u.skip(1), v.skip(1), s, t);
        } else {
            assert((u + s).len() > 0 && (v + t).len() > 0);
        }
    }
}

/// Stable insertion of a name into a lexicographically sorted list.
pub open spec fn insert_lex(s: Seq<Seq<char>>, x: Seq<char>) -> Seq<Seq<char>>
    decreases s.len(),
{
    if s.len() == 0 {
        seq![x]
    } else if lex_cmp(x, s[0]) < 0 {
        seq![x] + s
    } else {
        seq![s[0]] + insert_lex(s.drop_first(), x)
    }
}

/// Stable insertion sort of names in lexicographic order.
pub open spec fn sort_lex(s: Seq<Seq<char>>) -> Seq<Seq<char>>
    decreases s.len(),
{
    if s.len() == 0 {
        Seq::empty()
    } else {
        insert_lex(sort_lex(s.drop_last()), s.last())
    }
}

pub open spec fn lex_sorted(s: Seq<Seq<char>>) -> bool {
    forall|i: int, j: int| 0 <= i < j < s.len() ==> lex_cmp(#[trigger] s[i], #[trigger] s[j]) <= 0
}

proof fn lemma_insert_lex_props(s: Seq<Seq<char>>, x: Seq<char>)
    requires
        lex_sorted(s),
    ensures
        insert_lex(s, x).to_multiset() == s.to_multiset().insert(x),
        lex_sorted(insert_lex(s, x)),
        insert_lex(s, x).len() == s.len() + 1,
    decreases s.len(),
{
    broadcast use group_to_multiset_ensures;

    let r = insert_lex(s, x);
    if s.len() == 0 {
        assert(seq![x] =~= Seq::<Seq<char>>::empty().push(x));
        assert(r.to_multiset() =~= s.to_multiset().insert(x));
    } else if lex_cmp(x, s[0]) < 0 {
        assert(r == seq![x] + s);
        lemma_multiset_commutative(seq![x], s);
        assert(seq![x].to_multiset() =~= Multiset::<Seq<char>>::empty().insert(x));
        assert(r.to_multiset() =~= s.to_multiset().insert(x));
        assert forall|i: int, j: int| 0 <= i < j < r.len() implies lex_cmp(r[i], r[j]) <= 0 by {
            if i == 0 {
                if j == 1 {
                    assert(r[j] == s[0]);
                } else {
                    assert(lex_cmp(s[0], s[j - 1]) <= 0);
                    lemma_lex_cmp_trans(x, s[0], s[j - 1]);
                }
            } else {
                assert(r[i] == s[i - 1] && r[j] == s[j - 1]);
            }
        }
    } else {
        let df = s.drop_first();
        assert(forall|k: int| 0 <= k < df.len() ==> #[trigger] df[k] == s[k + 1]);
        assert(lex_sorted(df));
        lemma_insert_lex_props(df, x);
        let t = insert_lex(df, x);
        assert(r == seq![s[0]] + t);
        lemma_multiset_commutative(seq![s[0]], t);
        lemma_multiset_commutative(seq![s[0]], df);
        assert(seq![s[0]] + df =~= s);
        assert(seq![s[0]].to_multiset() =~= Multiset::<Seq<char>>::empty().insert(s[0]));
        assert(r.to_multiset() =~= s.to_multiset().insert(x));
        lemma_lex_cmp_flip(x, s[0]);
        assert forall|i: int, j: int| 0 <= i < j < r.len() implies lex_cmp(r[i], r[j]) <= 0 by {
            if i == 0 {
                assert(r[j] == t[j - 1]);
                assert(t.to_multiset().contains(t[j - 1]));
                assert(t.to_multiset() == df.to_multiset().insert(x));
                if t[j - 1] == x {
                    assert(lex_cmp(s[0], x) <= 0);
                } else {
                    assert(df.to_multiset().contains(t[j - 1]));
                    assert(df.contains(t[j - 1]));
                    let k = choose|k: int| 0 <= k < df.len() && df[k] == t[j - 1];
                    assert(lex_cmp(s[0], s[k + 1]) <= 0);
                }
            } else {
                assert(r[i] == t[i - 1] && r[j] == t[j - 1]);
                assert(lex_cmp(t[i - 1], t[j - 1]) <= 0);
            }
        }
    }
}

proof fn lemma_insert_lex_at(s: Seq<Seq<char>>, x: Seq<char>, j: int)
    requires
        0 <= j <= s.len(),
        forall|k: int| 0 <= k < j ==> lex_cmp(x, #[trigger] s[k]) >= 0,
        j == s.len() || lex_cmp(x, s[j]) < 0,
    ensures
        insert_lex(s, x) == s.take(j) + seq![x] + s.skip(j),
    decreases j,
{
    if j == 0 {
        if s.len() == 0 {
            assert(insert_lex(s, x) =~= s.take(0) + seq![x] + s.skip(0));
        } else {
            assert(insert_lex(s, x) =~= s.take(0) + seq![x] + s.skip(0));
        }
    } else {
        let df = s.drop_first();
        assert(forall|k: int| 0 <= k < df.len() ==> #[trigger] df[k] == s[k + 1]);
        lemma_insert_lex_at(df, x, j - 1);
        assert(seq![s[0]] + (df.take(j - 1) + seq![x] + df.skip(j - 1)) =~= s.take(j) + seq![x]
            + s.skip(j));
    }
}

/// The lexicographic sort keeps every name exactly once and leaves the
/// list in byte order.
pub proof fn lemma_sort_lex_props(s: Seq<Seq<char>>)
    ensures
        sort_lex(s).to_multiset() == s.to_multiset(),
        lex_sorted(sort_lex(s)),
        sort_lex(s).len() == s.len(),
    decreases s.len(),
{
    broadcast use group_to_multiset_ensures;

    if s.len() == 0 {
        assert(sort_lex(s).to_multiset() =~= s.to_multiset());
    } else {
        let dl = s.drop_last();
        lemma_sort_lex_props(dl);
        lemma_insert_lex_props(sort_lex(dl), s.last());
        assert(dl.push(s.last()) =~= s);
        assert(sort_lex(s).to_multiset() =~= s.to_multiset());
    }
}

/// The code point of a character.
fn code_of(c: char) -> (r: u32)
    ensures
        r as int == c as int,
{
    c as u32
}

/// Lexicographic comparison of two strings.
pub fn lex_compare(a: &str, b: &str) -> (r: Ordering)
    ensures
        r == int_ord(lex_cmp(a@, b@)),
{
    let va = crate::dirs::str_chars(a);
    let vb = crate::dirs::str_chars(b);
    let alen = va.len();
    let blen = vb.len();
    let mut i: usize = 0;
    proof {
        assert(va@.skip(0) =~= va@);
        assert(vb@.skip(0) =~= vb@);
    }
    loop
        invariant
            i <= alen == va@.len(),
            i <= blen == vb@.len(),
            va@ == a@,
            vb@ == b@,
            lex_cmp(a@, b@) == lex_cmp(va@.skip(i as int), vb@.skip(i as int)),
        decreases alen + blen - 2 * i,
    {
        let ghost sa = va@.skip(i as int);
        let ghost sb = vb@.skip(i as int);
        if i == alen && i == blen {
            return Ordering::Equal;
        }
        if i == alen {
            return Ordering::Less;
        }
        if i == blen {
            return Ordering::Greater;
        }
        let ca = code_of(va[i]);
        let cb = code_of(vb[i]);
        proof {
            assert(sa[0] == va@[i as int]);
            assert(sb[0] == vb@[i as int]);
        }
        if ca < cb {
            return Ordering::Less;
        }
        if cb < ca {
            return Ordering::Greater;
        }
        proof {
            assert(sa.skip(1) =~= va@.skip(i + 1));
            assert(sb.skip(1) =~= vb@.skip(i + 1));
        }
        i = i + 1;
    }
}

/// Where a name is inserted into a lexicographically sorted list.
fn insert_lex_pos(arr: &Vec<String>, x: &str) -> (j: usize)
    ensures
        j <= arr@.len(),
        forall|k: int| 0 <= k < j ==> lex_cmp(x@, #[trigger] arr@[k]@) >= 0,
        j == arr@.len() || lex_cmp(x@, arr@[j as int]@) < 0,
{
    let len = arr.len();
    let mut j: usize = 0;
    while j < len
        invariant
            j <= len == arr@.len(),
            forall|k: int| 0 <= k < j ==> lex_cmp(x@, #[trigger] arr@[k]@) >= 0,
        decreases len - j,
    {
        let ord = lex_compare(x, arr.get(j).unwrap().as_str());
        proof {
            lemma_lex_cmp_range(x@, arr@[j as int]@);
        }
        match ord {
            Ordering::Less => {
                return j;
            },
            _ => {},
        }
        j = j + 1;
    }
    j
}

/// Sorts a list of names in byte-lexicographic order.
pub fn sort_lex_vec(names: Vec<String>) -> (r: Vec<String>)
    ensures
        crate::scan::path_views(r@) == sort_lex(crate::scan::path_views(names@)),
{
    let len = names.len();
    let mut r: Vec<String> = Vec::new();
    let mut i: usize = 0;
    proof {
        assert(crate::scan::path_views(names@.take(0)) =~= Seq::<Seq<char>>::empty());
        assert(crate::scan::path_views(r@) =~= Seq::<Seq<char>>::empty());
        lemma_sort_lex_props(crate::scan::path_views(names@.take(0)));
        assert(sort_lex(crate::scan::path_views(names@.take(0))) =~= Seq::<Seq<char>>::empty());
    }
    while i < len
        invariant
            i <= len == names@.len(),
            crate::scan::path_views(r@) == sort_lex(crate::scan::path_views(names@.take(i as int))),
            lex_sorted(crate::scan::path_views(r@)),
        decreases len - i,
    {
        let x = names.get(i).unwrap().clone();
        proof {
            let pv = crate::scan::path_views(names@.take(i as int));
            let pv1 = crate::scan::path_views(names@.take(i as int + 1));
            assert(pv1.drop_last() =~= pv);
            assert(pv1.last() == names@[i as int]@);
            assert(sort_lex(pv1) == insert_lex(sort_lex(pv), names@[i as int]@));
        }
        let j = insert_lex_pos(&r, x.as_str());
        proof {
            let pv = crate::scan::path_views(r@);
            assert(forall|k: int| 0 <= k < pv.len() ==> #[trigger] pv[k] == r@[k]@);
            lemma_insert_lex_at(pv, x@, j as int);
            lemma_insert_lex_props(pv, x@);
        }
        let ghost before = r@;
        r.insert(j, x);
        proof {
            assert(r@ == before.insert(j as int, x));
            assert(crate::scan::path_views(r@) =~= crate::scan::path_views(before).take(j as int)
                + seq![x@] + crate::scan::path_views(before).skip(j as int));
        }
        i = i + 1;
    }
    proof {
        assert(names@.take(len as int) =~= names@);
    }
    r
}

} // verus!
