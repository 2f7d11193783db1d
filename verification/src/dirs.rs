//! Path segmentation and last-N-segment comparison keys.
//!
//! A path is modelled as a string whose segments are its maximal runs of
//! non-`/` characters.  The comparison key over the last `n` segments is
//! their concatenation, in original order and with no separator, filtered
//! to its alphanumeric subsequence.

use vstd::prelude::*;

use crate::natord::{alnum_pred, cmp_alnum, filter_alnum, int_ord, is_alnum_exec, nat_cmp};

verus! {

use core::cmp::Ordering;
use vstd::string::*;

/// Length of the maximal run of non-separator characters at the head.
pub open spec fn nonslash_run(s: Seq<char>) -> nat
    decreases s.len(),
{
    if s.len() == 0 || s[0] == '/' {
        0
    } else {
        1 + nonslash_run(s.skip(1))
    }
}

/// The segments of a path: its maximal runs of non-`/` characters.
pub open spec fn seg_split(s: Seq<char>) -> Seq<Seq<char>>
    decreases s.len(),
    via seg_split_decreases
{
    if s.len() == 0 {
        Seq::empty()
    } else if s[0] == '/' {
        seg_split(s.skip(1))
    } else {
        seq![s.take(nonslash_run(s) as int)] + seg_split(s.skip(nonslash_run(s) as int))
    }
}

#[via_fn]
proof fn seg_split_decreases(s: Seq<char>) {
    if s.len() != 0 && s[0] != '/' {
        lemma_nonslash_run_le(s);
    }
}

pub open spec fn concat_segs(ss: Seq<Seq<char>>) -> Seq<char>
    decreases ss.len(),
{
    if ss.len() == 0 {
        Seq::empty()
    } else {
        ss[0] + concat_segs(ss.drop_first())
    }
}

/// The concatenation of the last `n` segments of a path, in original order.
pub open spec fn last_n_key(p: Seq<char>, n: int) -> Seq<char> {
    let segs = seg_split(p);
    if n >= segs.len() {
        concat_segs(segs)
    } else {
        concat_segs(segs.skip(segs.len() - n))
    }
}

/// The alphanumeric comparison key over the last `n` segments of a path.
pub open spec fn path_key(p: Seq<char>, n: int) -> Seq<char> {
    filter_alnum(last_n_key(p, n))
}

/// The final segment of a path, or empty if the path has no segment.
pub open spec fn base_name(p: Seq<char>) -> Seq<char> {
    let segs = seg_split(p);
    if segs.len() == 0 {
        Seq::empty()
    } else {
        segs.last()
    }
}

/// `c` names a direct child of `d`: one more segment, same prefix.
pub open spec fn is_child_path(c: Seq<char>, d: Seq<char>) -> bool {
    let sc = seg_split(c);
    let sd = seg_split(d);
    sc.len() == sd.len() + 1 && sc.take(sd.len() as int) == sd
}

pub proof fn lemma_nonslash_run_le(s: Seq<char>)
    ensures
        nonslash_run(s) <= s.len(),
        1 <= nonslash_run(s) <==> s.len() > 0 && s[0] != '/',
    decreases s.len(),
{
    if s.len() != 0 && s[0] != '/' {
        lemma_nonslash_run_le(s.skip(1));
    }
}

/// A position bounded as `r` is, with no separator before it and one (or
/// the end) at it, is exactly the length of the head run.
pub proof fn lemma_nonslash_run_is(s: Seq<char>, r: int)
    requires
        0 <= r <= s.len(),
        forall|k: int| 0 <= k < r ==> (#[trigger] s[k]) != '/',
        r == s.len() || s[r] == '/',
    ensures
        nonslash_run(s) == r,
    decreases r,
{
    if r == 0 {
    } else {
        assert(s[0] != '/');
        assert forall|k: int| 0 <= k < r - 1 implies (#[trigger] s.skip(1)[k]) != '/' by {
            assert(s.skip(1)[k] == s[k + 1]);
        }
        if r < s.len() {
            assert(s.skip(1)[r - 1] == s[r]);
        }
        lemma_nonslash_run_is(s.skip(1), r - 1);
    }
}

pub proof fn lemma_concat_snoc(ss: Seq<Seq<char>>, x: Seq<char>)
    ensures
        concat_segs(ss.push(x)) == concat_segs(ss) + x,
    decreases ss.len(),
{
    if ss.len() == 0 {
        assert(ss.push(x).drop_first() =~= Seq::<Seq<char>>::empty());
        assert(ss.push(x)[0] == x);
        assert(concat_segs(ss.push(x)) == x + concat_segs(Seq::<Seq<char>>::empty()));
        assert(x + Seq::<char>::empty() =~= x);
        assert(concat_segs(ss) + x =~= x);
    } else {
        assert(ss.push(x).drop_first() =~= ss.drop_first().push(x));
        lemma_concat_snoc(ss.drop_first(), x);
        assert(ss.push(x)[0] == ss[0]);
        assert(ss[0] + (concat_segs(ss.drop_first()) + x) =~= (ss[0] + concat_segs(
            ss.drop_first(),
        )) + x);
    }
}

/// The characters of a string, one element per `char`.
pub fn str_chars(s: &str) -> (v: Vec<char>)
    ensures
        v@ == s@,
{
    let n = s.unicode_len();
    let mut v: Vec<char> = Vec::new();
    let mut i: usize = 0;
    while i < n
        invariant
            i <= n == s@.len(),
            v@ == s@.take(i as int),
        decreases n - i,
    {
        let c = s.get_char(i);
        proof {
            assert(s@.take(i + 1) =~= s@.take(i as int).push(s@[i as int]));
        }
        v.push(c);
        i = i + 1;
    }
    proof {
        assert(s@.take(n as int) =~= s@);
    }
    v
}

/// What a bounds list denotes: the subranges it carves out of `v`.
pub open spec fn bounds_segs(v: Seq<char>, bs: Seq<(usize, usize)>) -> Seq<Seq<char>> {
    bs.map_values(|p: (usize, usize)| v.subrange(p.0 as int, p.1 as int))
}

/// The start and end position of every segment of `v`, in order.
pub fn seg_bounds(v: &Vec<char>) -> (bs: Vec<(usize, usize)>)
    ensures
        bs@.len() == seg_split(v@).len(),
        forall|t: int|
            0 <= t < bs@.len() ==> {
                &&& (#[trigger] bs@[t]).0 < bs@[t].1 <= v@.len()
                &&& v@.subrange(bs@[t].0 as int, bs@[t].1 as int) == seg_split(v@)[t]
            },
{
    let n = v.len();
    let mut bs: Vec<(usize, usize)> = Vec::new();
    let mut i: usize = 0;
    proof {
        assert(v@.skip(0) =~= v@);
        assert(bounds_segs(v@, bs@) =~= Seq::<Seq<char>>::empty());
    }
    while i < n
        invariant
            i <= n == v@.len(),
            seg_split(v@) == bounds_segs(v@, bs@) + seg_split(v@.skip(i as int)),
            forall|t: int| 0 <= t < bs@.len() ==> (#[trigger] bs@[t]).0 < bs@[t].1 <= i,
        decreases n - i,
    {
        let c = v[i];
        if c == '/' {
            proof {
                assert(v@.skip(i as int)[0] == v@[i as int]);
                assert(v@.skip(i as int).skip(1) =~= v@.skip(i as int + 1));
            }
            i = i + 1;
        } else {
            let st = i;
            i = i + 1;
            while i < n && v[i] != '/'
                invariant
                    st < i <= n == v@.len(),
                    forall|k: int| st < k < i ==> (#[trigger] v@[k]) != '/',
                decreases n - i,
            {
                i = i + 1;
            }
            proof {
                let s = v@.skip(st as int);
                assert forall|k: int| 0 <= k < i - st implies (#[trigger] s[k]) != '/' by {
                    assert(s[k] == v@[k + st]);
                }
                if i < n {
                    assert(s[i - st] == v@[i as int]);
                }
                lemma_nonslash_run_is(s, i - st);
                assert(s.take(i - st) =~= v@.subrange(st as int, i as int));
                assert(s.skip(i - st) =~= v@.skip(i as int));
                let seg = v@.subrange(st as int, i as int);
                assert(seg_split(s) == seq![seg] + seg_split(v@.skip(i as int)));
                assert(bounds_segs(v@, bs@.push((st, i))) =~= bounds_segs(v@, bs@).push(seg));
                assert(bounds_segs(v@, bs@).push(seg) + seg_split(v@.skip(i as int)) =~= bounds_segs(
                    v@,
                    bs@,
                ) + (seq![seg] + seg_split(v@.skip(i as int))));
            }
            bs.push((st, i));
        }
    }
    proof {
        assert(v@.skip(n as int) =~= Seq::<char>::empty());
        assert(seg_split(v@) =~= bounds_segs(v@, bs@));
    }
    bs
}

/// The alphanumeric key over the last `n` segments, as characters.
pub fn key_chars(v: &Vec<char>, n: usize) -> (r: Vec<char>)
    ensures
        r@ == path_key(v@, n as int),
{
    let bs = seg_bounds(v);
    let count = bs.len();
    let start = if n >= count {
        0
    } else {
        count - n
    };
    let ghost segs = seg_split(v@);
    let mut r: Vec<char> = Vec::new();
    let mut t = start;
    proof {
        assert(segs.subrange(start as int, start as int) =~= Seq::<Seq<char>>::empty());
        Seq::<char>::lemma_filter_len(Seq::<char>::empty(), alnum_pred());
        assert(filter_alnum(concat_segs(Seq::<Seq<char>>::empty())) =~= Seq::<char>::empty());
    }
    while t < count
        invariant
            start <= t <= count == segs.len(),
            segs == seg_split(v@),
            bs@.len() == count,
            forall|q: int|
                0 <= q < bs@.len() ==> {
                    &&& (#[trigger] bs@[q]).0 < bs@[q].1 <= v@.len()
                    &&& v@.subrange(bs@[q].0 as int, bs@[q].1 as int) == segs[q]
                },
            r@ == filter_alnum(concat_segs(segs.subrange(start as int, t as int))),
        decreases count - t,
    {
        let (st, en) = bs[t];
        let ghost pre = concat_segs(segs.subrange(start as int, t as int));
        let mut c = st;
        while c < en
            invariant
                st <= c <= en <= v@.len(),
                segs[t as int] == v@.subrange(st as int, en as int),
                r@ == filter_alnum(pre + v@.subrange(st as int, c as int)),
            decreases en - c,
        {
            let ch = v[c];
            proof {
                let p = pre + v@.subrange(st as int, c as int);
                assert(pre + v@.subrange(st as int, c as int + 1) =~= p.push(v@[c as int]));
                Seq::<char>::lemma_filter_push(p, v@[c as int], alnum_pred());
            }
            if is_alnum_exec(ch) {
                r.push(ch);
            }
            c = c + 1;
        }
        proof {
            assert(segs.subrange(start as int, t as int + 1) =~= segs.subrange(
                start as int,
                t as int,
            ).push(segs[t as int]));
            lemma_concat_snoc(segs.subrange(start as int, t as int), segs[t as int]);
        }
        t = t + 1;
    }
    proof {
        if n >= count {
            assert(segs.subrange(start as int, count as int) =~= segs);
        } else {
            assert(segs.subrange(start as int, count as int) =~= segs.skip(segs.len() - n));
        }
    }
    r
}

/// Natural-lexical comparison of the keys over the last `n` segments of
/// two paths: the core ordering operation of the library.
pub fn compare_last_n(n: usize, a: &str, b: &str) -> (r: Ordering)
    ensures
        r == int_ord(nat_cmp(path_key(a@, n as int), path_key(b@, n as int))),
{
    let va = str_chars(a);
    let vb = str_chars(b);
    let ka = key_chars(&va, n);
    let kb = key_chars(&vb, n);
    cmp_alnum(&ka, &kb)
}

/// A value that exposes a path whose trailing segments can form a key.
pub trait LastNPath {
    spec fn path_chars(&self) -> Seq<char>;

    /// The concatenation of the last `n` segments of the path.
    fn last_n(&self, n: usize) -> (r: String)
        ensures
            r@ == last_n_key(self.path_chars(), n as int),
    ;
}

/// Natural-lexical comparison over the last `n` segments of two path-like
/// values.
pub fn sort_lex_by_last_n<T: LastNPath>(n: usize, a: &T, b: &T) -> (r: Ordering)
    ensures
        r == int_ord(nat_cmp(filter_alnum(last_n_key(a.path_chars(), n as int)), filter_alnum(
            last_n_key(b.path_chars(), n as int),
        ))),
{
    let ka = a.last_n(n);
    let kb = b.last_n(n);
    let va = str_chars(ka.as_str());
    let vb = str_chars(kb.as_str());
    let fa = filter_chars(&va);
    let fb = filter_chars(&vb);
    cmp_alnum(&fa, &fb)
}

/// The alphanumeric subsequence of `v`.
pub fn filter_chars(v: &Vec<char>) -> (r: Vec<char>)
    ensures
        r@ == filter_alnum(v@),
{
    let n = v.len();
    let mut r: Vec<char> = Vec::new();
    let mut i: usize = 0;
    proof {
        assert(v@.take(0) =~= Seq::<char>::empty());
        Seq::<char>::lemma_filter_len(Seq::<char>::empty(), alnum_pred());
    }
    while i < n
        invariant
            i <= n == v@.len(),
            r@ == filter_alnum(v@.take(i as int)),
        decreases n - i,
    {
        let ch = v[i];
        proof {
            assert(v@.take(i as int + 1) =~= v@.take(i as int).push(v@[i as int]));
            Seq::<char>::lemma_filter_push(v@.take(i as int), v@[i as int], alnum_pred());
        }
        if is_alnum_exec(ch) {
            r.push(ch);
        }
        i = i + 1;
    }
    proof {
        assert(v@.take(n as int) =~= v@);
    }
    r
}

/// The final segment of a path string, as an owned title.
pub fn base_name_str(s: &str) -> (r: String)
    ensures
        r@ == base_name(s@),
{
    let v = str_chars(s);
    let bs = seg_bounds(&v);
    if bs.len() == 0 {
        String::new()
    } else {
        let (st, en) = bs[bs.len() - 1];
        let piece = s.substring_char(st, en);
        proof {
            assert(seg_split(s@).last() == s@.subrange(st as int, en as int));
        }
        piece.to_owned()
    }
}

/// Whether the path in `v` names a direct child of the path in `w`.
pub fn is_child_of(v: &Vec<char>, w: &Vec<char>) -> (r: bool)
    ensures
        r == is_child_path(v@, w@),
{
    let bv = seg_bounds(v);
    let bw = seg_bounds(w);
    if bv.len() == 0 || bv.len() - 1 != bw.len() {
        return false;
    }
    let m = bw.len();
    let mut t: usize = 0;
    while t < m
        invariant
            t <= m,
            bv@.len() == m + 1,
            bw@.len() == m,
            seg_split(v@).len() == m + 1,
            seg_split(w@).len() == m,
            forall|q: int|
                0 <= q < bv@.len() ==> {
                    &&& (#[trigger] bv@[q]).0 < bv@[q].1 <= v@.len()
                    &&& v@.subrange(bv@[q].0 as int, bv@[q].1 as int) == seg_split(v@)[q]
                },
            forall|q: int|
                0 <= q < bw@.len() ==> {
                    &&& (#[trigger] bw@[q]).0 < bw@[q].1 <= w@.len()
                    &&& w@.subrange(bw@[q].0 as int, bw@[q].1 as int) == seg_split(w@)[q]
                },
            forall|q: int| 0 <= q < t ==> seg_split(v@)[q] == seg_split(w@)[q],
        decreases m - t,
    {
        let (vs, ve) = bv[t];
        let (ws, we) = bw[t];
        if !range_eq(v, vs, ve, w, ws, we) {
            proof {
                assert(seg_split(v@)[t as int] != seg_split(w@)[t as int]);
                assert(seg_split(v@).take(m as int)[t as int] == seg_split(v@)[t as int]);
            }
            return false;
        }
        t = t + 1;
    }
    proof {
        assert(seg_split(v@).take(m as int) =~= seg_split(w@));
    }
    true
}

/// Whether two character ranges hold the same characters.
pub fn range_eq(v: &Vec<char>, vs: usize, ve: usize, w: &Vec<char>, ws: usize, we: usize) -> (r:
    bool)
    requires
        vs <= ve <= v@.len(),
        ws <= we <= w@.len(),
    ensures
        r == (v@.subrange(vs as int, ve as int) == w@.subrange(ws as int, we as int)),
{
    if ve - vs != we - ws {
        proof {
            assert(v@.subrange(vs as int, ve as int).len() != w@.subrange(
                ws as int,
                we as int,
            ).len());
        }
        return false;
    }
    let n = ve - vs;
    let mut k: usize = 0;
    while k < n
        invariant
            k <= n == ve - vs == we - ws,
            vs <= ve <= v@.len(),
            ws <= we <= w@.len(),
            forall|j: int| 0 <= j < k ==> #[trigger] v@[vs + j] == w@[ws + j],
        decreases n - k,
    {
        if v[vs + k] != w[ws + k] {
            proof {
                assert(v@.subrange(vs as int, ve as int)[k as int] != w@.subrange(
                    ws as int,
                    we as int,
                )[k as int]);
            }
            return false;
        }
        k = k + 1;
    }
    proof {
        assert forall|j: int| 0 <= j < n implies v@.subrange(vs as int, ve as int)[j] == w@.subrange(
            ws as int,
            we as int,
        )[j] by {
            assert(v@[vs + j] == w@[ws + j]);
        }
        assert(v@.subrange(vs as int, ve as int) =~= w@.subrange(ws as int, we as int));
    }
    true
}

} // verus!
