//! The library scanner: discovering series and chapter directories from a
//! snapshot of the directory tree under the configured root.
//!
//! The root holds two layouts at once: `downloads/<source>/<series>` and
//! `local/<series>`, each series directory holding chapter directories,
//! each chapter holding page files.  The scanner works on a flat snapshot
//! of root-relative paths, so that every rule about which entry is a
//! series or a chapter is a statement about path segments.

use vstd::prelude::*;

use crate::dirs::{
    base_name, base_name_str, is_child_path, is_child_of, last_n_key, path_key, seg_bounds,
    seg_split, str_chars, LastNPath, concat_segs, lemma_concat_snoc, range_eq,
};
use crate::natord::{
    all_alnum, alnum_pred, is_alnum_char, lemma_nat_cmp_flip, lemma_nat_cmp_range,
    lemma_nat_cmp_trans, nat_cmp,
};

verus! {

use core::cmp::Ordering;
use vstd::string::*;
use vstd::multiset::Multiset;
use vstd::seq_lib::group_to_multiset_ensures;
use vstd::seq_lib::lemma_multiset_commutative;

/// One entry of the snapshot that the caller takes of the tree under the
/// root: a root-relative path with `/` separators, and whether it is a
/// directory.
pub struct FsEntry {
    pub path: String,
    pub is_dir: bool,
}

/// A series as the index page shows it.
pub struct Manga {
    pub title: String,
    pub thumb: String,
    pub path: String,
}

/// A chapter of a series.
pub struct Chapter {
    pub title: String,
    pub thumb: String,
    pub path: String,
}

impl LastNPath for FsEntry {
    open spec fn path_chars(&self) -> Seq<char> {
        self.path@
    }

    fn last_n(&self, n: usize) -> (r: String) {
        let v = str_chars(self.path.as_str());
        let bs = seg_bounds(&v);
        let count = bs.len();
        let start = if n >= count {
            0
        } else {
            count - n
        };
        let ghost segs = seg_split(self.path@);
        let mut out = String::new();
        let mut t = start;
        proof {
            assert(segs.subrange(start as int, start as int) =~= Seq::<Seq<char>>::empty());
        }
        while t < count
            invariant
                start <= t <= count == segs.len(),
                segs == seg_split(self.path@),
                v@ == self.path@,
                bs@.len() == count,
                forall|q: int|
                    0 <= q < bs@.len() ==> {
                        &&& (#[trigger] bs@[q]).0 < bs@[q].1 <= v@.len()
                        &&& v@.subrange(bs@[q].0 as int, bs@[q].1 as int) == segs[q]
                    },
                out@ == concat_segs(segs.subrange(start as int, t as int)),
            decreases count - t,
        {
            let (st, en) = bs[t];
            let piece = self.path.as_str().substring_char(st, en);
            out.append(piece);
            proof {
                assert(segs.subrange(start as int, t as int + 1) =~= segs.subrange(
                    start as int,
                    t as int,
                ).push(segs[t as int]));
                lemma_concat_snoc(segs.subrange(start as int, t as int), segs[t as int]);
            }
            t = t + 1;
        }
        proof {
            if n >= count {
                assert(segs.subrange(start as int, count as int) =~= segs);
            } else {
                assert(segs.subrange(start as int, count as int) =~= segs.skip(segs.len() - n));
            }
        }
        out
    }
}

/// A root-relative path that names a series directory: either
/// `downloads/<source>/<series>` or `local/<series>`.
pub open spec fn is_series_path(p: Seq<char>) -> bool {
    let segs = seg_split(p);
    ||| (segs.len() == 3 && segs[0] == "downloads"@)
    ||| (segs.len() == 2 && segs[0] == "local"@)
}

/// A root-relative path that names a chapter of the series called `name`:
/// either `downloads/<source>/<name>/<chapter>` or `local/<name>/<chapter>`.
pub open spec fn is_chapter_path(p: Seq<char>, name: Seq<char>) -> bool {
    let segs = seg_split(p);
    ||| (segs.len() == 4 && segs[0] == "downloads"@ && segs[2] == name)
    ||| (segs.len() == 3 && segs[0] == "local"@ && segs[1] == name)
}

pub open spec fn series_pred() -> spec_fn(FsEntry) -> bool {
    |e: FsEntry| e.is_dir && is_series_path(e.path@)
}

pub open spec fn chapter_pred(name: Seq<char>) -> spec_fn(FsEntry) -> bool {
    |e: FsEntry| is_chapter_path(e.path@, name)
}

pub open spec fn child_pred(d: Seq<char>) -> spec_fn(FsEntry) -> bool {
    |e: FsEntry| is_child_path(e.path@, d)
}

/// The paths of the snapshot entries that are series directories, in
/// snapshot order.
pub open spec fn series_paths(es: Seq<FsEntry>) -> Seq<Seq<char>> {
    es.filter(series_pred()).map_values(|e: FsEntry| e.path@)
}

/// The paths of the snapshot entries that are chapters of `name`, in
/// snapshot order.
pub open spec fn chapter_paths(es: Seq<FsEntry>, name: Seq<char>) -> Seq<Seq<char>> {
    es.filter(chapter_pred(name)).map_values(|e: FsEntry| e.path@)
}

/// Stable insertion of a path into a sorted path list, ordering by the
/// natural key over the last `n` segments.
pub open spec fn insert_path(s: Seq<Seq<char>>, x: Seq<char>, n: int) -> Seq<Seq<char>>
    decreases s.len(),
{
    if s.len() == 0 {
        seq![x]
    } else if nat_cmp(path_key(x, n), path_key(s[0], n)) < 0 {
        seq![x] + s
    } else {
        seq![s[0]] + insert_path(s.drop_first(), x, n)
    }
}

/// Stable insertion sort of a path list by the natural key over the last
/// `n` segments: the order every scan result is returned in.
pub open spec fn sort_paths(s: Seq<Seq<char>>, n: int) -> Seq<Seq<char>>
    decreases s.len(),
{
    if s.len() == 0 {
        Seq::empty()
    } else {
        insert_path(sort_paths(s.drop_last(), n), s.last(), n)
    }
}

/// Pairwise natural order of a path list.
pub open spec fn sorted_by_key(s: Seq<Seq<char>>, n: int) -> bool {
    forall|i: int, j: int|
        0 <= i < j < s.len() ==> nat_cmp(
            #[trigger] path_key(s[i], n),
            #[trigger] path_key(s[j], n),
        ) <= 0
}

/// A comparison key is always purely alphanumeric.
pub proof fn lemma_path_key_alnum(p: Seq<char>, n: int)
    ensures
        all_alnum(path_key(p, n)),
{
    let k = path_key(p, n);
    assert forall|i: int| 0 <= i < k.len() implies is_alnum_char(#[trigger] k[i]) by {
        last_n_key(p, n).lemma_filter_pred(alnum_pred(), i);
    }
}

proof fn lemma_insert_path_props(s: Seq<Seq<char>>, x: Seq<char>, n: int)
    requires
        sorted_by_key(s, n),
    ensures
        insert_path(s, x, n).to_multiset() == s.to_multiset().insert(x),
        sorted_by_key(insert_path(s, x, n), n),
        insert_path(s, x, n).len() == s.len() + 1,
    decreases s.len(),
{
    broadcast use group_to_multiset_ensures;

    let r = insert_path(s, x, n);
    if s.len() == 0 {
        assert(seq![x] =~= Seq::<Seq<char>>::empty().push(x));
        assert(r.to_multiset() =~= s.to_multiset().insert(x));
    } else if nat_cmp(path_key(x, n), path_key(s[0], n)) < 0 {
        assert(r == seq![x] + s);
        lemma_multiset_commutative(seq![x], s);
        assert(seq![x].to_multiset() =~= Multiset::<Seq<char>>::empty().insert(x));
        assert(r.to_multiset() =~= s.to_multiset().insert(x));
        assert forall|i: int, j: int| 0 <= i < j < r.len() implies nat_cmp(
            path_key(r[i], n),
            path_key(r[j], n),
        ) <= 0 by {
            if i == 0 {
                if j == 1 {
                    assert(r[j] == s[0]);
                } else {
                    lemma_path_key_alnum(x, n);
                    lemma_path_key_alnum(s[0], n);
                    lemma_path_key_alnum(s[j - 1], n);
                    assert(nat_cmp(path_key(s[0], n), path_key(s[j - 1], n)) <= 0);
                    lemma_nat_cmp_trans(path_key(x, n), path_key(s[0], n), path_key(s[j - 1], n));
                }
            } else {
                assert(r[i] == s[i - 1] && r[j] == s[j - 1]);
            }
        }
    } else {
        let df = s.drop_first();
        assert(forall|k: int| 0 <= k < df.len() ==> #[trigger] df[k] == s[k + 1]);
        assert(sorted_by_key(df, n));
        lemma_insert_path_props(df, x, n);
        let t = insert_path(df, x, n);
        assert(r == seq![s[0]] + t);
        lemma_multiset_commutative(seq![s[0]], t);
        lemma_multiset_commutative(seq![s[0]], df);
        assert(seq![s[0]] + df =~= s);
        assert(seq![s[0]].to_multiset() =~= Multiset::<Seq<char>>::empty().insert(s[0]));
        assert(r.to_multiset() =~= s.to_multiset().insert(x));
        lemma_nat_cmp_flip(path_key(x, n), path_key(s[0], n));
        assert forall|i: int, j: int| 0 <= i < j < r.len() implies nat_cmp(
            path_key(r[i], n),
            path_key(r[j], n),
        ) <= 0 by {
            if i == 0 {
                // r[j] is either x or an element of df; either way s[0]'s key
                // is below its key
                assert(r[j] == t[j - 1]);
                assert(t.to_multiset().contains(t[j - 1]));
                assert(t.to_multiset() == df.to_multiset().insert(x));
                if t[j - 1] == x {
                    assert(nat_cmp(path_key(s[0], n), path_key(x, n)) <= 0);
                } else {
                    assert(df.to_multiset().contains(t[j - 1]));
                    assert(df.contains(t[j - 1]));
                    let k = choose|k: int| 0 <= k < df.len() && df[k] == t[j - 1];
                    assert(nat_cmp(path_key(s[0], n), path_key(s[k + 1], n)) <= 0);
                }
            } else {
                assert(r[i] == t[i - 1] && r[j] == t[j - 1]);
                assert(nat_cmp(path_key(t[i - 1], n), path_key(t[j - 1], n)) <= 0);
            }
        }
    }
}

/// Where a stable insertion lands: before the first element whose key is
/// strictly above the inserted key.
proof fn lemma_insert_path_at(s: Seq<Seq<char>>, x: Seq<char>, n: int, j: int)
    requires
        0 <= j <= s.len(),
        forall|k: int| 0 <= k < j ==> nat_cmp(path_key(x, n), #[trigger] path_key(s[k], n)) >= 0,
        j == s.len() || nat_cmp(path_key(x, n), path_key(s[j], n)) < 0,
    ensures
        insert_path(s, x, n) == s.take(j) + seq![x] + s.skip(j),
    decreases j,
{
    if j == 0 {
        if s.len() == 0 {
            assert(insert_path(s, x, n) =~= s.take(0) + seq![x] + s.skip(0));
        } else {
            assert(nat_cmp(path_key(x, n), path_key(s[0], n)) < 0);
            assert(insert_path(s, x, n) =~= s.take(0) + seq![x] + s.skip(0));
        }
    } else {
        assert(nat_cmp(path_key(x, n), path_key(s[0], n)) >= 0);
        let df = s.drop_first();
        assert(forall|k: int| 0 <= k < df.len() ==> #[trigger] df[k] == s[k + 1]);
        lemma_insert_path_at(df, x, n, j - 1);
        assert(seq![s[0]] + (df.take(j - 1) + seq![x] + df.skip(j - 1)) =~= s.take(j) + seq![x]
            + s.skip(j));
    }
}

/// The scan order: a stable sort keeps every path, exactly once, and
/// leaves the list in natural key order.
pub proof fn lemma_sort_paths_props(s: Seq<Seq<char>>, n: int)
    ensures
        sort_paths(s, n).to_multiset() == s.to_multiset(),
        sorted_by_key(sort_paths(s, n), n),
        sort_paths(s, n).len() == s.len(),
    decreases s.len(),
{
    broadcast use group_to_multiset_ensures;

    if s.len() == 0 {
        assert(sort_paths(s, n).to_multiset() =~= s.to_multiset());
    } else {
        let dl = s.drop_last();
        lemma_sort_paths_props(dl, n);
        lemma_insert_path_props(sort_paths(dl, n), s.last(), n);
        assert(dl.push(s.last()) =~= s);
        assert(sort_paths(s, n).to_multiset() =~= s.to_multiset());
    }
}

/// Every path in a sort's output came from its input.
pub proof fn lemma_sort_paths_contains(s: Seq<Seq<char>>, n: int, i: int)
    requires
        0 <= i < sort_paths(s, n).len(),
    ensures
        s.contains(sort_paths(s, n)[i]),
{
    broadcast use group_to_multiset_ensures;

    lemma_sort_paths_props(s, n);
    let r = sort_paths(s, n);
    assert(r.to_multiset().contains(r[i]));
}

/// Whether a root-relative path names a series directory.
pub fn is_series_dir(p: &str) -> (r: bool)
    ensures
        r == is_series_path(p@),
{
    let v = str_chars(p);
    let bs = seg_bounds(&v);
    let dl = str_chars("downloads");
    let lc = str_chars("local");
    proof {
        assert(dl@.subrange(0, dl@.len() as int) =~= dl@);
        assert(lc@.subrange(0, lc@.len() as int) =~= lc@);
    }
    if bs.len() == 3 {
        let (st, en) = bs[0];
        range_eq(&v, st, en, &dl, 0, dl.len())
    } else if bs.len() == 2 {
        let (st, en) = bs[0];
        range_eq(&v, st, en, &lc, 0, lc.len())
    } else {
        false
    }
}

/// Whether a root-relative path names a chapter of the series `name`.
pub fn is_chapter_dir(p: &str, name: &str) -> (r: bool)
    ensures
        r == is_chapter_path(p@, name@),
{
    let v = str_chars(p);
    let bs = seg_bounds(&v);
    let nm = str_chars(name);
    let dl = str_chars("downloads");
    let lc = str_chars("local");
    proof {
        assert(dl@.subrange(0, dl@.len() as int) =~= dl@);
        assert(lc@.subrange(0, lc@.len() as int) =~= lc@);
        assert(nm@.subrange(0, nm@.len() as int) =~= nm@);
    }
    if bs.len() == 4 {
        let (s0, e0) = bs[0];
        let (s2, e2) = bs[2];
        range_eq(&v, s0, e0, &dl, 0, dl.len()) && range_eq(&v, s2, e2, &nm, 0, nm.len())
    } else if bs.len() == 3 {
        let (s0, e0) = bs[0];
        let (s1, e1) = bs[1];
        range_eq(&v, s0, e0, &lc, 0, lc.len()) && range_eq(&v, s1, e1, &nm, 0, nm.len())
    } else {
        false
    }
}

/// The paths a list of strings denotes.
pub open spec fn path_views(v: Seq<String>) -> Seq<Seq<char>> {
    v.map_values(|s: String| s@)
}

/// The paths of a series list.
pub open spec fn manga_views(v: Seq<Manga>) -> Seq<Seq<char>> {
    v.map_values(|m: Manga| m.path@)
}

/// The paths of a chapter list.
pub open spec fn chapter_views(v: Seq<Chapter>) -> Seq<Seq<char>> {
    v.map_values(|c: Chapter| c.path@)
}

/// Where `x` is inserted into a list sorted by the last-`n`-segment key:
/// before the first element whose key is strictly above `x`'s.
fn insert_pos(arr: &Vec<String>, x: &str, n: usize) -> (j: usize)
    ensures
        j <= arr@.len(),
        forall|k: int|
            0 <= k < j ==> nat_cmp(path_key(x@, n as int), #[trigger] path_key(arr@[k]@, n as int))
                >= 0,
        j == arr@.len() || nat_cmp(path_key(x@, n as int), path_key(arr@[j as int]@, n as int))
            < 0,
{
    let len = arr.len();
    let mut j: usize = 0;
    while j < len
        invariant
            j <= len == arr@.len(),
            forall|k: int|
                0 <= k < j ==> nat_cmp(
                    path_key(x@, n as int),
                    #[trigger] path_key(arr@[k]@, n as int),
                ) >= 0,
        decreases len - j,
    {
        let ord = crate::dirs::compare_last_n(n, x, arr.get(j).unwrap().as_str());
        proof {
            lemma_nat_cmp_range(path_key(x@, n as int), path_key(arr@[j as int]@, n as int));
        }
        match ord {
            Ordering::Less => {
                return j;
            },
            _ => {},
        }
        j = j + 1;
    }
    j
}

/// Inserts a path into a list kept in natural key order.
fn insert_sorted(arr: &mut Vec<String>, x: String, n: usize)
    requires
        sorted_by_key(path_views(old(arr)@), n as int),
    ensures
        path_views(final(arr)@) == insert_path(path_views(old(arr)@), x@, n as int),
        sorted_by_key(path_views(final(arr)@), n as int),
{
    let j = insert_pos(arr, x.as_str(), n);
    proof {
        let pv = path_views(arr@);
        assert(forall|k: int| 0 <= k < pv.len() ==> #[trigger] pv[k] == arr@[k]@);
        lemma_insert_path_at(pv, x@, n as int, j as int);
        lemma_insert_path_props(pv, x@, n as int);
    }
    let ghost before = arr@;
    arr.insert(j, x);
    proof {
        assert(arr@ == before.insert(j as int, x));
        assert(path_views(arr@) =~= path_views(before).take(j as int) + seq![x@] + path_views(
            before,
        ).skip(j as int));
    }
}

/// Sorts a list of paths by the natural key over the last `n` segments.
pub fn sort_path_vec(src: &Vec<String>, n: usize) -> (r: Vec<String>)
    ensures
        path_views(r@) == sort_paths(path_views(src@), n as int),
{
    let len = src.len();
    let mut r: Vec<String> = Vec::new();
    let mut i: usize = 0;
    proof {
        assert(path_views(src@.take(0)) =~= Seq::<Seq<char>>::empty());
        assert(path_views(r@) =~= Seq::<Seq<char>>::empty());
        lemma_sort_paths_props(path_views(src@.take(0)), n as int);
        assert(sort_paths(path_views(src@.take(0)), n as int) =~= Seq::<Seq<char>>::empty());
    }
    while i < len
        invariant
            i <= len == src@.len(),
            path_views(r@) == sort_paths(path_views(src@.take(i as int)), n as int),
            sorted_by_key(path_views(r@), n as int),
        decreases len - i,
    {
        let x = src.get(i).unwrap().clone();
        proof {
            let pv = path_views(src@.take(i as int));
            let pv1 = path_views(src@.take(i as int + 1));
            assert(pv1.drop_last() =~= pv);
            assert(pv1.last() == src@[i as int]@);
            assert(sort_paths(pv1, n as int) == insert_path(
                sort_paths(pv, n as int),
                src@[i as int]@,
                n as int,
            ));
        }
        insert_sorted(&mut r, x, n);
        i = i + 1;
    }
    proof {
        assert(src@.take(len as int) =~= src@);
    }
    r
}

/// What the thumbnail of a series directory must be: the natural-greatest
/// direct child in the snapshot, or empty where the directory has none.
pub open spec fn thumb_ok(es: Seq<FsEntry>, d: Seq<char>, t: Seq<char>) -> bool {
    let cs = es.filter(child_pred(d));
    if cs.len() == 0 {
        t == Seq::<char>::empty()
    } else {
        &&& exists|k: int| 0 <= k < cs.len() && (#[trigger] cs[k]).path@ == t
        &&& forall|k: int|
            0 <= k < cs.len() ==> nat_cmp(path_key((#[trigger] cs[k]).path@, 1), path_key(t, 1))
                <= 0
    }
}

/// The representative child of a directory: the last of its direct
/// children in natural order of their names, or empty where it has none.
pub fn best_child(entries: &Vec<FsEntry>, d: &str) -> (r: String)
    ensures
        thumb_ok(entries@, d@, r@),
{
    let dv = str_chars(d);
    let len = entries.len();
    let mut have = false;
    let mut best = String::new();
    let mut i: usize = 0;
    proof {
        assert(entries@.take(0) =~= Seq::<FsEntry>::empty());
        Seq::<FsEntry>::lemma_filter_len(Seq::<FsEntry>::empty(), child_pred(d@));
    }
    while i < len
        invariant
            i <= len == entries@.len(),
            dv@ == d@,
            !have ==> entries@.take(i as int).filter(child_pred(d@)).len() == 0 && best@
                == Seq::<char>::empty(),
            have ==> entries@.take(i as int).filter(child_pred(d@)).len() > 0,
            have ==> thumb_ok(entries@.take(i as int), d@, best@),
        decreases len - i,
    {
        let e = entries.get(i).unwrap();
        let ev = str_chars(e.path.as_str());
        let ghost pre = entries@.take(i as int).filter(child_pred(d@));
        proof {
            assert(entries@.take(i as int + 1) =~= entries@.take(i as int).push(
                entries@[i as int],
            ));
            Seq::<FsEntry>::lemma_filter_push(
                entries@.take(i as int),
                entries@[i as int],
                child_pred(d@),
            );
        }
        if is_child_of(&ev, &dv) {
            let ghost cs = entries@.take(i as int + 1).filter(child_pred(d@));
            proof {
                assert(cs == pre.push(entries@[i as int]));
            }
            if !have {
                have = true;
                best = e.path.clone();
                proof {
                    assert(cs[pre.len() as int].path@ == best@);
                    crate::natord::lemma_nat_cmp_refl(path_key(best@, 1));
                    assert forall|k: int| 0 <= k < cs.len() implies nat_cmp(
                        path_key((#[trigger] cs[k]).path@, 1),
                        path_key(best@, 1),
                    ) <= 0 by {
                        assert(k == pre.len());
                    }
                }
            } else {
                let ord = crate::dirs::compare_last_n(1, e.path.as_str(), best.as_str());
                let replace = match ord {
                    Ordering::Greater => true,
                    _ => false,
                };
                proof {
                    lemma_nat_cmp_range(path_key(e.path@, 1), path_key(best@, 1));
                }
                if replace {
                    proof {
                        lemma_nat_cmp_flip(path_key(e.path@, 1), path_key(best@, 1));
                        crate::natord::lemma_nat_cmp_refl(path_key(entries@[i as int].path@, 1));
                        assert forall|k: int| 0 <= k < cs.len() implies nat_cmp(
                            path_key((#[trigger] cs[k]).path@, 1),
                            path_key(entries@[i as int].path@, 1),
                        ) <= 0 by {
                            if k < pre.len() {
                                assert(cs[k] == pre[k]);
                                lemma_path_key_alnum(pre[k].path@, 1);
                                lemma_path_key_alnum(best@, 1);
                                lemma_path_key_alnum(entries@[i as int].path@, 1);
                                lemma_nat_cmp_trans(
                                    path_key(pre[k].path@, 1),
                                    path_key(best@, 1),
                                    path_key(entries@[i as int].path@, 1),
                                );
                            } else {
                                assert(cs[k] == entries@[i as int]);
                            }
                        }
                    }
                    best = e.path.clone();
                    proof {
                        assert(cs[pre.len() as int].path@ == best@);
                    }
                } else {
                    proof {
                        assert(thumb_ok(entries@.take(i as int), d@, best@));
                        assert(exists|k: int|
                            0 <= k < pre.len() && (#[trigger] pre[k]).path@ == best@);
                        let w = choose|k: int|
                            0 <= k < pre.len() && (#[trigger] pre[k]).path@ == best@;
                        assert(cs[w] == pre[w]);
                        assert(cs[w].path@ == best@);
                        assert forall|k: int| 0 <= k < cs.len() implies nat_cmp(
                            path_key((#[trigger] cs[k]).path@, 1),
                            path_key(best@, 1),
                        ) <= 0 by {
                            if k < pre.len() {
                                assert(cs[k] == pre[k]);
                            } else {
                                assert(cs[k] == entries@[i as int]);
                            }
                        }
                    }
                }
            }
        } else {
            proof {
                assert(entries@.take(i as int + 1).filter(child_pred(d@)) == pre);
            }
        }
        i = i + 1;
    }
    proof {
        assert(entries@.take(len as int) =~= entries@);
    }
    best
}

/// The series index: every snapshot directory in one of the two layouts,
/// in natural order of the concatenation of its last two path segments,
/// each with its on-disk title and its representative thumbnail.
pub fn get_manga(entries: &Vec<FsEntry>) -> (r: Vec<Manga>)
    ensures
        manga_views(r@) == sort_paths(series_paths(entries@), 2),
        forall|i: int|
            0 <= i < r@.len() ==> (#[trigger] r@[i]).title@ == base_name(r@[i].path@),
        forall|i: int|
            0 <= i < r@.len() ==> thumb_ok(entries@, (#[trigger] r@[i]).path@, r@[i].thumb@),
{
    let len = entries.len();
    let mut paths: Vec<String> = Vec::new();
    let mut i: usize = 0;
    proof {
        assert(entries@.take(0) =~= Seq::<FsEntry>::empty());
        Seq::<FsEntry>::lemma_filter_len(Seq::<FsEntry>::empty(), series_pred());
        assert(path_views(paths@) =~= series_paths(entries@.take(0)));
    }
    while i < len
        invariant
            i <= len == entries@.len(),
            path_views(paths@) == series_paths(entries@.take(i as int)),
        decreases len - i,
    {
        let e = entries.get(i).unwrap();
        proof {
            assert(entries@.take(i as int + 1) =~= entries@.take(i as int).push(
                entries@[i as int],
            ));
            Seq::<FsEntry>::lemma_filter_push(
                entries@.take(i as int),
                entries@[i as int],
                series_pred(),
            );
        }
        if e.is_dir && is_series_dir(e.path.as_str()) {
            let ghost pp = paths@;
            paths.push(e.path.clone());
            proof {
                assert(series_pred()(entries@[i as int]));
                let target = series_paths(entries@.take(i as int + 1));
                assert(paths@.len() == pp.len() + 1);
                assert(paths@[pp.len() as int]@ == entries@[i as int].path@);
                assert(entries@.take(i as int + 1).filter(series_pred()) == entries@.take(
                    i as int,
                ).filter(series_pred()).push(entries@[i as int]));
                assert(path_views(pp).len() == pp.len());
                assert(series_paths(entries@.take(i as int)).len() == entries@.take(
                    i as int,
                ).filter(series_pred()).len());
                assert(entries@.take(i as int).filter(series_pred()).len() == pp.len());
                assert(entries@.take(i as int + 1).filter(series_pred()).len() == pp.len() + 1);
                assert(target.len() == entries@.take(i as int + 1).filter(series_pred()).len());
                assert(target.len() == paths@.len());
                assert forall|k: int| 0 <= k < paths@.len() implies path_views(paths@)[k]
                    == target[k] by {
                    if k < pp.len() {
                        assert(path_views(pp)[k] == series_paths(entries@.take(i as int))[k]);
                        assert(paths@[k] == pp[k]);
                    }
                }
                assert(path_views(paths@) =~= target);
            }
        } else {
            proof {
                assert(!series_pred()(entries@[i as int]));
                assert(path_views(paths@) =~= series_paths(entries@.take(i as int + 1)));
            }
        }
        i = i + 1;
    }
    proof {
        assert(entries@.take(len as int) =~= entries@);
    }
    let sorted = sort_path_vec(&paths, 2);
    let ghost target = sort_paths(series_paths(entries@), 2);
    let mut r: Vec<Manga> = Vec::new();
    let mut j: usize = 0;
    while j < sorted.len()
        invariant
            j == r@.len() <= sorted@.len(),
            path_views(sorted@) == target,
            forall|k: int| 0 <= k < j ==> (#[trigger] r@[k]).path@ == target[k],
            forall|k: int|
                0 <= k < j ==> (#[trigger] r@[k]).title@ == base_name(r@[k].path@),
            forall|k: int|
                0 <= k < j ==> thumb_ok(entries@, (#[trigger] r@[k]).path@, r@[k].thumb@),
        decreases sorted@.len() - j,
    {
        let p = sorted.get(j).unwrap().clone();
        let title = base_name_str(p.as_str());
        let thumb = best_child(entries, p.as_str());
        r.push(Manga { title, thumb, path: p });
        j = j + 1;
    }
    proof {
        assert(manga_views(r@) =~= target);
    }
    r
}

/// The chapter list of the series called `name`: every snapshot entry in
/// either chapter layout for that name, in natural order of its final
/// path segment, with its on-disk title and a placeholder thumbnail.
pub fn get_chapters(entries: &Vec<FsEntry>, name: &str) -> (r: Vec<Chapter>)
    ensures
        chapter_views(r@) == sort_paths(chapter_paths(entries@, name@), 1),
        forall|i: int|
            0 <= i < r@.len() ==> (#[trigger] r@[i]).title@ == base_name(r@[i].path@),
        forall|i: int| 0 <= i < r@.len() ==> (#[trigger] r@[i]).thumb@ == "/"@,
{
    let len = entries.len();
    let mut paths: Vec<String> = Vec::new();
    let mut i: usize = 0;
    proof {
        assert(entries@.take(0) =~= Seq::<FsEntry>::empty());
        Seq::<FsEntry>::lemma_filter_len(Seq::<FsEntry>::empty(), chapter_pred(name@));
        assert(path_views(paths@) =~= chapter_paths(entries@.take(0), name@));
    }
    while i < len
        invariant
            i <= len == entries@.len(),
            path_views(paths@) == chapter_paths(entries@.take(i as int), name@),
        decreases len - i,
    {
        let e = entries.get(i).unwrap();
        proof {
            assert(entries@.take(i as int + 1) =~= entries@.take(i as int).push(
                entries@[i as int],
            ));
            Seq::<FsEntry>::lemma_filter_push(
                entries@.take(i as int),
                entries@[i as int],
                chapter_pred(name@),
            );
        }
        if is_chapter_dir(e.path.as_str(), name) {
            let ghost pp = paths@;
            paths.push(e.path.clone());
            proof {
                assert(chapter_pred(name@)(entries@[i as int]));
                let target = chapter_paths(entries@.take(i as int + 1), name@);
                assert(paths@.len() == pp.len() + 1);
                assert(paths@[pp.len() as int]@ == entries@[i as int].path@);
                assert(entries@.take(i as int + 1).filter(chapter_pred(name@)) == entries@.take(
                    i as int,
                ).filter(chapter_pred(name@)).push(entries@[i as int]));
                assert(path_views(pp).len() == pp.len());
                assert(chapter_paths(entries@.take(i as int), name@).len() == entries@.take(
                    i as int,
                ).filter(chapter_pred(name@)).len());
                assert(entries@.take(i as int).filter(chapter_pred(name@)).len() == pp.len());
                assert(entries@.take(i as int + 1).filter(chapter_pred(name@)).len() == pp.len()
                    + 1);
                assert(target.len() == entries@.take(i as int + 1).filter(
                    chapter_pred(name@),
                ).len());
                assert(target.len() == paths@.len());
                assert forall|k: int| 0 <= k < paths@.len() implies path_views(paths@)[k]
                    == target[k] by {
                    if k < pp.len() {
                        assert(path_views(pp)[k] == chapter_paths(
                            entries@.take(i as int),
                            name@,
                        )[k]);
                        assert(paths@[k] == pp[k]);
                    }
                }
                assert(path_views(paths@) =~= target);
            }
        } else {
            proof {
                assert(!chapter_pred(name@)(entries@[i as int]));
                assert(path_views(paths@) =~= chapter_paths(entries@.take(i as int + 1), name@));
            }
        }
        i = i + 1;
    }
    proof {
        assert(entries@.take(len as int) =~= entries@);
    }
    let sorted = sort_path_vec(&paths, 1);
    let ghost target = sort_paths(chapter_paths(entries@, name@), 1);
    let mut r: Vec<Chapter> = Vec::new();
    let mut j: usize = 0;
    while j < sorted.len()
        invariant
            j == r@.len() <= sorted@.len(),
            path_views(sorted@) == target,
            forall|k: int| 0 <= k < j ==> (#[trigger] r@[k]).path@ == target[k],
            forall|k: int|
                0 <= k < j ==> (#[trigger] r@[k]).title@ == base_name(r@[k].path@),
            forall|k: int| 0 <= k < j ==> (#[trigger] r@[k]).thumb@ == "/"@,
        decreases sorted@.len() - j,
    {
        let p = sorted.get(j).unwrap().clone();
        let title = base_name_str(p.as_str());
        let thumb = "/".to_owned();
        r.push(Chapter { title, thumb, path: p });
        j = j + 1;
    }
    proof {
        assert(chapter_views(r@) =~= target);
    }
    r
}

/// Law: the index lists each matching series directory exactly once —
/// the sorted output is a permutation of the matching snapshot entries,
/// and its count equals theirs.
pub proof fn lemma_series_exactly_once(es: Seq<FsEntry>)
    ensures
        sort_paths(series_paths(es), 2).to_multiset() == series_paths(es).to_multiset(),
        sort_paths(series_paths(es), 2).len() == series_paths(es).len(),
{
    lemma_sort_paths_props(series_paths(es), 2);
}

/// Law: any two distinct positions of the series index compare `Less`
/// over the keys of their last two path segments, unless the keys tie.
pub proof fn lemma_series_sorted(es: Seq<FsEntry>, i: int, j: int)
    requires
        0 <= i < j < sort_paths(series_paths(es), 2).len(),
    ensures
        ({
            let out = sort_paths(series_paths(es), 2);
            nat_cmp(path_key(out[i], 2), path_key(out[j], 2)) == -1 || nat_cmp(
                path_key(out[i], 2),
                path_key(out[j], 2),
            ) == 0
        }),
{
    lemma_sort_paths_props(series_paths(es), 2);
    let out = sort_paths(series_paths(es), 2);
    lemma_nat_cmp_range(path_key(out[i], 2), path_key(out[j], 2));
}

/// Law: an empty snapshot yields an empty series index.
pub proof fn lemma_empty_root()
    ensures
        sort_paths(series_paths(Seq::<FsEntry>::empty()), 2).len() == 0,
{
    Seq::<FsEntry>::lemma_filter_len(Seq::<FsEntry>::empty(), series_pred());
    lemma_sort_paths_props(series_paths(Seq::<FsEntry>::empty()), 2);
}

/// Law: every chapter returned for `name` lies directly under a
/// directory whose name is exactly `name`.
pub proof fn lemma_chapters_under_series(es: Seq<FsEntry>, name: Seq<char>, i: int)
    requires
        0 <= i < sort_paths(chapter_paths(es, name), 1).len(),
    ensures
        ({
            let segs = seg_split(sort_paths(chapter_paths(es, name), 1)[i]);
            segs.len() >= 2 && segs[segs.len() - 2] == name
        }),
{
    lemma_sort_paths_contains(chapter_paths(es, name), 1, i);
    let p = sort_paths(chapter_paths(es, name), 1)[i];
    let cp = chapter_paths(es, name);
    let w = choose|w: int| 0 <= w < cp.len() && cp[w] == p;
    let fs = es.filter(chapter_pred(name));
    assert(cp[w] == fs[w].path@);
    es.lemma_filter_pred(chapter_pred(name), w);
    assert(is_chapter_path(p, name));
}

} // verus!
