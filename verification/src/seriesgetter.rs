//! Pages of a series: extracting page numbers from file names and
//! synthesizing monotonic, byte-sortable names of the form
//! `{chapter:04}{page:03}.{ext}`.

use vstd::prelude::*;

use crate::dirs::{base_name, is_child_of, is_child_path, seg_bounds, str_chars};
use crate::natord::{all_digits, digits_val, is_digit_char, lemma_digits_val_append,
    lemma_digits_val_nonneg, lemma_pow10_pos, pow10};
use crate::scan::{chapter_paths, sort_paths, FsEntry};

verus! {

use vstd::string::*;

/// The index of the last `.` in a file name, or -1 where it has none.
pub open spec fn last_dot(f: Seq<char>) -> int
    decreases f.len(),
{
    if f.len() == 0 {
        -1
    } else if f.last() == '.' {
        f.len() - 1
    } else {
        last_dot(f.drop_last())
    }
}

/// The file stem: the part of the file name before its last `.`, or the
/// whole name where the `.` is missing or leading.
pub open spec fn stem_of(p: Seq<char>) -> Seq<char> {
    let f = base_name(p);
    let d = last_dot(f);
    if d >= 1 {
        f.take(d)
    } else {
        f
    }
}

/// The file extension: what follows the last `.` of the file name, absent
/// where the `.` is missing or leading.
pub open spec fn ext_of(p: Seq<char>) -> Option<Seq<char>> {
    let f = base_name(p);
    let d = last_dot(f);
    if d >= 1 {
        Some(f.skip(d + 1))
    } else {
        None
    }
}

pub open spec fn trim_start_nondigit(s: Seq<char>) -> Seq<char>
    decreases s.len(),
{
    if s.len() == 0 || is_digit_char(s[0]) {
        s
    } else {
        trim_start_nondigit(s.skip(1))
    }
}

pub open spec fn trim_end_nondigit(s: Seq<char>) -> Seq<char>
    decreases s.len(),
{
    if s.len() == 0 || is_digit_char(s.last()) {
        s
    } else {
        trim_end_nondigit(s.drop_last())
    }
}

/// The file stem with leading and trailing non-digit characters stripped.
pub open spec fn trimmed_stem(p: Seq<char>) -> Seq<char> {
    trim_end_nondigit(trim_start_nondigit(stem_of(p)))
}

/// The page number a path encodes: the numeric value of its trimmed stem,
/// absent where the trimmed stem is empty, holds a non-digit, or exceeds
/// the machine word.
pub open spec fn pagenum_of(p: Seq<char>) -> Option<int> {
    let t = trimmed_stem(p);
    if t.len() > 0 && all_digits(t) && digits_val(t) <= usize::MAX as int {
        Some(digits_val(t))
    } else {
        None
    }
}

pub open spec fn digit_char(d: int) -> char {
    if d == 0 {
        '0'
    } else if d == 1 {
        '1'
    } else if d == 2 {
        '2'
    } else if d == 3 {
        '3'
    } else if d == 4 {
        '4'
    } else if d == 5 {
        '5'
    } else if d == 6 {
        '6'
    } else if d == 7 {
        '7'
    } else if d == 8 {
        '8'
    } else {
        '9'
    }
}

/// The decimal rendering of a non-negative integer.
pub open spec fn dec_str(n: int) -> Seq<char>
    decreases n,
{
    if n < 10 {
        seq![digit_char(n)]
    } else {
        dec_str(n / 10).push(digit_char(n % 10))
    }
}

/// `s` left-padded with zeros to width `w` (never truncated).
pub open spec fn pad_to(s: Seq<char>, w: int) -> Seq<char> {
    if s.len() >= w {
        s
    } else {
        Seq::new((w - s.len()) as nat, |i: int| '0') + s
    }
}

/// The synthesized page name `{chapter:04}{page:03}.{ext}`.
pub open spec fn sort_name_spec(ci: int, pn: int, ext: Seq<char>) -> Seq<char> {
    pad_to(dec_str(ci), 4) + pad_to(dec_str(pn), 3) + seq!['.'] + ext
}

/// A position that has a dot at it and none after it is the last dot.
proof fn lemma_last_dot_is(f: Seq<char>, d: int)
    requires
        -1 <= d < f.len(),
        d >= 0 ==> f[d] == '.',
        forall|m: int| d < m < f.len() ==> (#[trigger] f[m]) != '.',
    ensures
        last_dot(f) == d,
    decreases f.len(),
{
    if f.len() == 0 {
    } else if f.last() == '.' {
        assert(d == f.len() - 1);
    } else {
        assert(d < f.len() - 1);
        assert(forall|m: int|
            d < m < f.len() - 1 ==> (#[trigger] f.drop_last()[m]) == f[m]);
        if d >= 0 {
            assert(f.drop_last()[d] == f[d]);
        }
        lemma_last_dot_is(f.drop_last(), d);
    }
}

/// A bounded scan that stops at the first digit finds the start trim.
proof fn lemma_trim_start_is(s: Seq<char>, a: int)
    requires
        0 <= a <= s.len(),
        forall|k: int| 0 <= k < a ==> !is_digit_char(#[trigger] s[k]),
        a == s.len() || is_digit_char(s[a]),
    ensures
        trim_start_nondigit(s) == s.skip(a),
    decreases a,
{
    if a == 0 {
        assert(s.skip(0) =~= s);
    } else {
        assert(!is_digit_char(s[0]));
        assert(forall|k: int|
            0 <= k < a - 1 ==> !is_digit_char(#[trigger] s.skip(1)[k]));
        if a < s.len() {
            assert(s.skip(1)[a - 1] == s[a]);
        }
        lemma_trim_start_is(s.skip(1), a - 1);
        assert(s.skip(1).skip(a - 1) =~= s.skip(a));
    }
}

/// A bounded scan back from the end that stops at the first digit finds
/// the end trim.
proof fn lemma_trim_end_is(s: Seq<char>, b: int)
    requires
        0 <= b <= s.len(),
        forall|k: int| b <= k < s.len() ==> !is_digit_char(#[trigger] s[k]),
        b == 0 || is_digit_char(s[b - 1]),
    ensures
        trim_end_nondigit(s) == s.take(b),
    decreases s.len(),
{
    if b == s.len() {
        if s.len() == 0 || is_digit_char(s.last()) {
            assert(s.take(b) =~= s);
        } else {
            assert(false);
        }
    } else {
        assert(!is_digit_char(s.last()));
        assert(forall|k: int|
            b <= k < s.len() - 1 ==> !is_digit_char(#[trigger] s.drop_last()[k]));
        if b > 0 {
            assert(s.drop_last()[b - 1] == s[b - 1]);
        }
        lemma_trim_end_is(s.drop_last(), b);
        assert(s.drop_last().take(b) =~= s.take(b));
    }
}

/// A digit string dominates the value of any of its prefixes.
proof fn lemma_digits_prefix_le(s: Seq<char>, k: int)
    requires
        all_digits(s),
        0 <= k <= s.len(),
    ensures
        digits_val(s) >= digits_val(s.take(k)),
{
    assert(s =~= s.take(k) + s.skip(k));
    lemma_digits_val_append(s.take(k), s.skip(k));
    assert(all_digits(s.take(k))) by {
        assert(forall|j: int| 0 <= j < k ==> #[trigger] s.take(k)[j] == s[j]);
    }
    assert(all_digits(s.skip(k))) by {
        assert(forall|j: int|
            0 <= j < s.len() - k ==> #[trigger] s.skip(k)[j] == s[j + k]);
    }
    lemma_digits_val_nonneg(s.take(k));
    lemma_digits_val_nonneg(s.skip(k));
    lemma_pow10_pos((s.len() - k) as nat);
    let a = digits_val(s.take(k));
    let p = pow10((s.len() - k) as nat);
    assert(a * p >= a) by (nonlinear_arith)
        requires
            a >= 0,
            p >= 1,
    ;
}

/// One image page: its path and the index of its chapter in the sorted
/// chapter list of its series.
pub struct MangaImage {
    pub path: String,
    pub chapter: usize,
}

impl MangaImage {
    /// The page number encoded in the file stem: its digits after both
    /// ends are stripped of non-digit characters.  `Err` exactly where no
    /// such number exists or it does not fit the machine word.
    #[verifier::rlimit(100)]
    #[verifier::spinoff_prover]
    pub fn get_pagenum(&self) -> (r: Result<usize, String>)
        ensures
            match r {
                Ok(n) => pagenum_of(self.path@) == Some(n as int),
                Err(e) => pagenum_of(self.path@) is None && e@ == "bad int"@,
            },
    {
        let v = str_chars(self.path.as_str());
        let bs = seg_bounds(&v);
        let ghost f = base_name(self.path@);
        if bs.len() == 0 {
            proof {
                assert(f =~= Seq::<char>::empty());
                assert(trimmed_stem(self.path@) =~= Seq::<char>::empty());
            }
            return Err("bad int".to_owned());
        }
        let (st, en) = bs[bs.len() - 1];
        proof {
            assert(f == v@.subrange(st as int, en as int));
        }
        // locate the last dot of the file name
        let mut hasdot = false;
        let mut dpos: usize = 0;
        let mut k = st;
        while k < en
            invariant
                st <= k <= en <= v@.len(),
                hasdot ==> st <= dpos < k && v@[dpos as int] == '.' && forall|m: int|
                    dpos < m < k ==> (#[trigger] v@[m]) != '.',
                !hasdot ==> forall|m: int| st <= m < k ==> (#[trigger] v@[m]) != '.',
            decreases en - k,
        {
            if v[k] == '.' {
                hasdot = true;
                dpos = k;
            }
            k = k + 1;
        }
        proof {
            let d = if hasdot {
                dpos - st
            } else {
                -1
            };
            assert forall|m: int| d < m < f.len() implies (#[trigger] f[m]) != '.' by {
                assert(f[m] == v@[m + st]);
            }
            if hasdot {
                assert(f[d] == v@[dpos as int]);
            }
            lemma_last_dot_is(f, d);
        }
        // the stem: before the last dot where that dot is not leading
        let (ss, se) = if hasdot && dpos > st {
            (st, dpos)
        } else {
            (st, en)
        };
        let ghost stem = stem_of(self.path@);
        proof {
            if hasdot && dpos > st {
                assert(stem =~= v@.subrange(ss as int, se as int));
            } else {
                assert(stem =~= v@.subrange(ss as int, se as int));
            }
        }
        // trim non-digits from both ends
        let mut a = ss;
        while a < se && !digit_at(&v, a)
            invariant
                ss <= a <= se <= v@.len(),
                forall|m: int| ss <= m < a ==> !is_digit_char(#[trigger] v@[m]),
            decreases se - a,
        {
            a = a + 1;
        }
        let mut b = se;
        while b > a && !digit_at(&v, b - 1)
            invariant
                a <= b <= se <= v@.len(),
                forall|m: int| b <= m < se ==> !is_digit_char(#[trigger] v@[m]),
            decreases b,
        {
            b = b - 1;
        }
        let ghost t = trimmed_stem(self.path@);
        proof {
            let srel = a - ss;
            assert forall|m: int| 0 <= m < srel implies !is_digit_char(
                #[trigger] stem[m],
            ) by {
                assert(stem[m] == v@[m + ss]);
            }
            if a < se {
                assert(stem[srel] == v@[a as int]);
            }
            lemma_trim_start_is(stem, srel);
            let ts = stem.skip(srel);
            assert(ts =~= v@.subrange(a as int, se as int));
            let brel = b - a;
            assert forall|m: int| brel <= m < ts.len() implies !is_digit_char(
                #[trigger] ts[m],
            ) by {
                assert(ts[m] == v@[m + a]);
            }
            if b > a {
                assert(ts[brel - 1] == v@[b - 1]);
            }
            lemma_trim_end_is(ts, brel);
            assert(t =~= v@.subrange(a as int, b as int));
        }
        if a == b {
            proof {
                assert(t.len() == 0);
            }
            return Err("bad int".to_owned());
        }
        // every character of the trimmed stem must be a digit
        let mut k2 = a;
        while k2 < b
            invariant
                a <= k2 <= b <= v@.len(),
                t == trimmed_stem(self.path@),
                t == v@.subrange(a as int, b as int),
                t.len() == b - a,
                forall|m: int| a <= m < k2 ==> is_digit_char(#[trigger] v@[m]),
            decreases b - k2,
        {
            if !digit_at(&v, k2) {
                proof {
                    assert(t[k2 - a] == v@[k2 as int]);
                    assert(!all_digits(t));
                }
                return Err("bad int".to_owned());
            }
            k2 = k2 + 1;
        }
        proof {
            assert forall|m: int| 0 <= m < t.len() implies is_digit_char(
                #[trigger] t[m],
            ) by {
                assert(t[m] == v@[m + a]);
            }
        }
        // accumulate the value, watching for overflow
        let mut val: usize = 0;
        let mut k3 = a;
        proof {
            assert(v@.subrange(a as int, a as int) =~= Seq::<char>::empty());
        }
        while k3 < b
            invariant
                a <= k3 <= b <= v@.len(),
                a < b,
                all_digits(t),
                t == trimmed_stem(self.path@),
                t == v@.subrange(a as int, b as int),
                t.len() == b - a,
                val as int == digits_val(v@.subrange(a as int, k3 as int)),
            decreases b - k3,
        {
            let c = v[k3];
            proof {
                assert(t[k3 - a] == v@[k3 as int]);
                assert(is_digit_char(c));
            }
            let d = (c as u32) - 48;
            proof {
                assert(v@.subrange(a as int, k3 as int + 1).drop_last() =~= v@.subrange(
                    a as int,
                    k3 as int,
                ));
                assert(v@.subrange(a as int, k3 as int + 1).last() == v@[k3 as int]);
            }
            let step = match val.checked_mul(10) {
                Some(v10) => v10.checked_add(d as usize),
                None => None,
            };
            match step {
                Some(nv) => {
                    val = nv;
                },
                None => {
                    proof {
                        assert(digits_val(v@.subrange(a as int, k3 as int + 1)) > usize::MAX
                            as int);
                        assert(v@.subrange(a as int, k3 as int + 1) =~= t.take(k3 - a + 1));
                        lemma_digits_prefix_le(t, k3 - a + 1);
                    }
                    return Err("bad int".to_owned());
                },
            }
            k3 = k3 + 1;
        }
        proof {
            assert(v@.subrange(a as int, b as int) =~= t);
        }
        Ok(val)
    }

    /// The synthesized, byte-sortable page name
    /// `{chapter:04}{page:03}.{ext}`.  `Err("bad int")` exactly where the
    /// stem encodes no page number, `Err("No extension")` exactly where a
    /// number exists but the file name has no extension.
    pub fn lex_sorted_name(&self) -> (r: Result<String, String>)
        ensures
            match r {
                Ok(s) => pagenum_of(self.path@) is Some && ext_of(self.path@) is Some && s@
                    == sort_name_spec(
                    self.chapter as int,
                    pagenum_of(self.path@).unwrap(),
                    ext_of(self.path@).unwrap(),
                ),
                Err(e) => if pagenum_of(self.path@) is None {
                    e@ == "bad int"@
                } else {
                    ext_of(self.path@) is None && e@ == "No extension"@
                },
            },
    {
        let pn = match self.get_pagenum() {
            Ok(n) => n,
            Err(e) => {
                return Err(e);
            },
        };
        let ext = match extension_of(self.path.as_str()) {
            Some(x) => x,
            None => {
                return Err("No extension".to_owned());
            },
        };
        let mut s = pad_render(self.chapter, 4);
        let p2 = pad_render(pn, 3);
        s.append(p2.as_str());
        s.append(".");
        s.append(ext.as_str());
        proof {
            reveal_strlit(".");
            assert("."@ =~= seq!['.']);
            assert(s@ =~= sort_name_spec(
                self.chapter as int,
                pagenum_of(self.path@).unwrap(),
                ext_of(self.path@).unwrap(),
            ));
        }
        Ok(s)
    }
}

/// The extension of a path's file name, where it has one.
#[verifier::rlimit(100)]
fn extension_of(path: &str) -> (r: Option<String>)
    ensures
        match r {
            Some(x) => ext_of(path@) == Some(x@),
            None => ext_of(path@) is None,
        },
{
    let v = str_chars(path);
    let bs = seg_bounds(&v);
    let ghost f = base_name(path@);
    if bs.len() == 0 {
        proof {
            assert(f =~= Seq::<char>::empty());
        }
        return None;
    }
    let (st, en) = bs[bs.len() - 1];
    proof {
        assert(f == v@.subrange(st as int, en as int));
    }
    let mut hasdot = false;
    let mut dpos: usize = 0;
    let mut k = st;
    while k < en
        invariant
            st <= k <= en <= v@.len(),
            hasdot ==> st <= dpos < k && v@[dpos as int] == '.' && forall|m: int|
                dpos < m < k ==> (#[trigger] v@[m]) != '.',
            !hasdot ==> forall|m: int| st <= m < k ==> (#[trigger] v@[m]) != '.',
        decreases en - k,
    {
        if v[k] == '.' {
            hasdot = true;
            dpos = k;
        }
        k = k + 1;
    }
    proof {
        let d = if hasdot {
            dpos - st
        } else {
            -1
        };
        assert forall|m: int| d < m < f.len() implies (#[trigger] f[m]) != '.' by {
            assert(f[m] == v@[m + st]);
        }
        if hasdot {
            assert(f[d] == v@[dpos as int]);
        }
        lemma_last_dot_is(f, d);
    }
    if hasdot && dpos > st {
        let piece = path.substring_char(dpos + 1, en);
        proof {
            assert(f.skip(dpos - st + 1) =~= path@.subrange(dpos as int + 1, en as int));
        }
        Some(piece.to_owned())
    } else {
        None
    }
}

/// One decimal digit as a string slice.
fn digit_str(d: usize) -> (r: &'static str)
    requires
        d < 10,
    ensures
        r@ == seq![digit_char(d as int)],
{
    proof {
        reveal_strlit("0");
        reveal_strlit("1");
        reveal_strlit("2");
        reveal_strlit("3");
        reveal_strlit("4");
        reveal_strlit("5");
        reveal_strlit("6");
        reveal_strlit("7");
        reveal_strlit("8");
        reveal_strlit("9");
    }
    let r = match d {
        0 => "0",
        1 => "1",
        2 => "2",
        3 => "3",
        4 => "4",
        5 => "5",
        6 => "6",
        7 => "7",
        8 => "8",
        _ => "9",
    };
    proof {
        assert(r@ =~= seq![digit_char(d as int)]);
    }
    r
}

/// The decimal rendering of `n`.
fn dec_render(n: usize) -> (s: String)
    ensures
        s@ == dec_str(n as int),
    decreases n,
{
    if n < 10 {
        digit_str(n).to_owned()
    } else {
        let mut s = dec_render(n / 10);
        s.append(digit_str(n % 10));
        proof {
            assert(dec_str((n / 10) as int).push(digit_char((n % 10) as int)) =~= dec_str(
                (n / 10) as int,
            ) + seq![digit_char((n % 10) as int)]);
        }
        s
    }
}

/// `n` rendered in decimal and zero-padded to width `w`.
fn pad_render(n: usize, w: usize) -> (s: String)
    ensures
        s@ == pad_to(dec_str(n as int), w as int),
{
    let d = dec_render(n);
    let dl = d.as_str().unicode_len();
    if dl >= w {
        d
    } else {
        proof {
            reveal_strlit("0");
        }
        let mut s = String::new();
        let mut k = dl;
        while k < w
            invariant
                dl <= k <= w,
                dl == dec_str(n as int).len(),
                s@ =~= Seq::new((k - dl) as nat, |i: int| '0'),
            decreases w - k,
        {
            s.append("0");
            proof {
                reveal_strlit("0");
                assert(s@ =~= Seq::new((k + 1 - dl) as nat, |i: int| '0'));
            }
            k = k + 1;
        }
        s.append(d.as_str());
        proof {
            assert(s@ =~= pad_to(dec_str(n as int), w as int));
        }
        s
    }
}

/// Whether the character at `i` is an ASCII digit.
fn digit_at(v: &Vec<char>, i: usize) -> (r: bool)
    requires
        i < v@.len(),
    ensures
        r == is_digit_char(v@[i as int]),
{
    let c = v[i];
    crate::natord::is_digit_exec(c)
}

/// A direct non-directory child of `d` in the snapshot.
pub open spec fn file_child_pred(d: Seq<char>) -> spec_fn(FsEntry) -> bool {
    |e: FsEntry| !e.is_dir && is_child_path(e.path@, d)
}

/// The direct file children of directory `d`, in snapshot order.
pub open spec fn files_under(es: Seq<FsEntry>, d: Seq<char>) -> Seq<Seq<char>> {
    es.filter(file_child_pred(d)).map_values(|e: FsEntry| e.path@)
}

/// Pages tagged with their chapter index.
pub open spec fn tagged(ps: Seq<Seq<char>>, i: int) -> Seq<(Seq<char>, int)> {
    ps.map_values(|p: Seq<char>| (p, i))
}

/// The sorted chapter directories of the series called `name`.
pub open spec fn chapter_list(es: Seq<FsEntry>, name: Seq<char>) -> Seq<Seq<char>> {
    sort_paths(chapter_paths(es, name), 1)
}

/// The pack from chapter `i` on: each chapter's direct file children in
/// snapshot order, tagged with the chapter's index, chapters in order.
pub open spec fn pack_pages(es: Seq<FsEntry>, chs: Seq<Seq<char>>, i: int) -> Seq<
    (Seq<char>, int),
>
    decreases chs.len() - i,
{
    if i >= chs.len() {
        Seq::empty()
    } else {
        tagged(files_under(es, chs[i]), i) + pack_pages(es, chs, i + 1)
    }
}

/// The pack over the chapters before `i`.
pub open spec fn pack_upto(es: Seq<FsEntry>, chs: Seq<Seq<char>>, i: int) -> Seq<
    (Seq<char>, int),
>
    decreases i,
{
    if i <= 0 {
        Seq::empty()
    } else {
        pack_upto(es, chs, i - 1) + tagged(files_under(es, chs[i - 1]), i - 1)
    }
}

/// The image pack of the series called `name`: every page of every
/// chapter, chapters in natural order, pages in snapshot order, each
/// tagged with its chapter's index.
pub open spec fn image_pack_spec(es: Seq<FsEntry>, name: Seq<char>) -> Seq<(Seq<char>, int)> {
    pack_pages(es, chapter_list(es, name), 0)
}

/// The pages a list of images denotes.
pub open spec fn image_views(s: Seq<MangaImage>) -> Seq<(Seq<char>, int)> {
    s.map_values(|m: MangaImage| (m.path@, m.chapter as int))
}

proof fn lemma_pack_decompose(es: Seq<FsEntry>, chs: Seq<Seq<char>>, i: int)
    requires
        0 <= i <= chs.len(),
    ensures
        pack_pages(es, chs, 0) == pack_upto(es, chs, i) + pack_pages(es, chs, i),
    decreases i,
{
    if i == 0 {
        assert(pack_upto(es, chs, 0) + pack_pages(es, chs, 0) =~= pack_pages(es, chs, 0));
    } else {
        lemma_pack_decompose(es, chs, i - 1);
        assert(pack_pages(es, chs, i - 1) == tagged(files_under(es, chs[i - 1]), i - 1)
            + pack_pages(es, chs, i));
        assert(pack_upto(es, chs, i - 1) + (tagged(files_under(es, chs[i - 1]), i - 1)
            + pack_pages(es, chs, i)) =~= pack_upto(es, chs, i) + pack_pages(es, chs, i));
    }
}

/// An ordered collection of pages of one series.
pub struct ImagePack {
    pub images: Vec<MangaImage>,
}

impl ImagePack {
    /// Wraps an already-ordered page list.
    pub fn from_iter(images: Vec<MangaImage>) -> (r: ImagePack)
        ensures
            r.images@ == images@,
    {
        ImagePack { images }
    }

    /// How many pages the pack holds.
    pub fn count(&self) -> (n: usize)
        ensures
            n == self.images@.len(),
    {
        self.images.len()
    }
}

/// Which chapters of a series a query asks for.
pub enum ChapterRange {
    All,
    Range(usize, usize),
    Count(usize),
}

/// A query over one series, by its exact directory name.
pub struct SeriesGetter {
    pub name: String,
    pub chapter_range: ChapterRange,
}

impl SeriesGetter {
    pub fn from_name(name: &str) -> (r: SeriesGetter)
        ensures
            r.name@ == name@,
            r.chapter_range == ChapterRange::All,
    {
        SeriesGetter { name: name.to_owned(), chapter_range: ChapterRange::All }
    }

    pub fn all_chapters(&mut self)
        ensures
            final(self).name == old(self).name,
            final(self).chapter_range == ChapterRange::All,
    {
        self.chapter_range = ChapterRange::All;
    }

    /// Asks for the chapters whose ordinals lie in `[start, end)`.
    pub fn chapter_range(&mut self, start: usize, end: usize)
        ensures
            final(self).name == old(self).name,
            final(self).chapter_range == ChapterRange::Range(start, end),
    {
        self.chapter_range = ChapterRange::Range(start, end);
    }

    pub fn chapter_count(&mut self, count: usize)
        ensures
            final(self).name == old(self).name,
            final(self).chapter_range == ChapterRange::Count(count),
    {
        self.chapter_range = ChapterRange::Count(count);
    }

    /// The sorted chapter list of this series.
    pub fn get_chapters(&self, entries: &Vec<FsEntry>) -> (r: Vec<crate::scan::Chapter>)
        ensures
            crate::scan::chapter_views(r@) == chapter_list(entries@, self.name@),
            forall|i: int|
                0 <= i < r@.len() ==> (#[trigger] r@[i]).title@ == base_name(r@[i].path@),
    {
        crate::scan::get_chapters(entries, self.name.as_str())
    }

    /// The image pack of this series: every page of every chapter,
    /// chapters in natural order, each page tagged with its chapter's
    /// 0-based index in the sorted chapter list.
    pub fn get_image_pack(&self, entries: &Vec<FsEntry>) -> (r: ImagePack)
        ensures
            image_views(r.images@) == image_pack_spec(entries@, self.name@),
    {
        let chs = crate::scan::get_chapters(entries, self.name.as_str());
        let ghost chlist = chapter_list(entries@, self.name@);
        let mut images: Vec<MangaImage> = Vec::new();
        let mut ci: usize = 0;
        proof {
            assert(image_views(images@) =~= Seq::<(Seq<char>, int)>::empty());
            assert(pack_upto(entries@, chlist, 0) =~= Seq::<(Seq<char>, int)>::empty());
        }
        let chn = chs.len();
        while ci < chn
            invariant
                ci <= chn == chs@.len(),
                crate::scan::chapter_views(chs@) == chlist,
                chlist == chapter_list(entries@, self.name@),
                image_views(images@) == pack_upto(entries@, chlist, ci as int),
            decreases chn - ci,
        {
            let ch = chs.get(ci).unwrap();
            let cv = str_chars(ch.path.as_str());
            let ghost d = chlist[ci as int];
            proof {
                assert(cv@ == d);
            }
            let len = entries.len();
            let mut j: usize = 0;
            proof {
                assert(entries@.take(0) =~= Seq::<FsEntry>::empty());
                Seq::<FsEntry>::lemma_filter_len(Seq::<FsEntry>::empty(), file_child_pred(d));
                assert(tagged(files_under(entries@.take(0), d), ci as int) =~= Seq::<
                    (Seq<char>, int),
                >::empty());
                assert(image_views(images@) =~= pack_upto(entries@, chlist, ci as int) + tagged(
                    files_under(entries@.take(0), d),
                    ci as int,
                ));
            }
            while j < len
                invariant
                    j <= len == entries@.len(),
                    ci < chlist.len(),
                    cv@ == d,
                    d == chlist[ci as int],
                    image_views(images@) == pack_upto(entries@, chlist, ci as int) + tagged(
                        files_under(entries@.take(j as int), d),
                        ci as int,
                    ),
                decreases len - j,
            {
                let e = entries.get(j).unwrap();
                proof {
                    assert(entries@.take(j as int + 1) =~= entries@.take(j as int).push(
                        entries@[j as int],
                    ));
                    Seq::<FsEntry>::lemma_filter_push(
                        entries@.take(j as int),
                        entries@[j as int],
                        file_child_pred(d),
                    );
                }
                let keep = if e.is_dir {
                    false
                } else {
                    let ev = str_chars(e.path.as_str());
                    is_child_of(&ev, &cv)
                };
                if keep {
                    let ghost before = images@;
                    images.push(MangaImage { path: e.path.clone(), chapter: ci });
                    proof {
                        assert(file_child_pred(d)(entries@[j as int]));
                        let target = pack_upto(entries@, chlist, ci as int) + tagged(
                            files_under(entries@.take(j as int + 1), d),
                            ci as int,
                        );
                        let fu = entries@.take(j as int).filter(file_child_pred(d));
                        assert(entries@.take(j as int + 1).filter(file_child_pred(d))
                            == fu.push(entries@[j as int]));
                        assert(files_under(entries@.take(j as int + 1), d).len() == fu.len()
                            + 1);
                        assert(image_views(images@).len() == before.len() + 1);
                        assert(image_views(before).len() == target.len() - 1);
                        assert(images@[before.len() as int].path@ == entries@[j as int].path@);
                        assert forall|k: int| 0 <= k < image_views(images@).len() implies
                            image_views(images@)[k] == target[k] by {
                            if k < before.len() {
                                assert(images@[k] == before[k]);
                                assert(image_views(before)[k] == (pack_upto(
                                    entries@,
                                    chlist,
                                    ci as int,
                                ) + tagged(files_under(entries@.take(j as int), d), ci as int))[
                                    k]);
                            }
                        }
                        assert(image_views(images@) =~= target);
                    }
                } else {
                    proof {
                        assert(!file_child_pred(d)(entries@[j as int]));
                        assert(files_under(entries@.take(j as int + 1), d) == files_under(
                            entries@.take(j as int),
                            d,
                        ));
                    }
                }
                j = j + 1;
            }
            proof {
                assert(entries@.take(len as int) =~= entries@);
                assert(pack_upto(entries@, chlist, ci as int + 1) == pack_upto(
                    entries@,
                    chlist,
                    ci as int,
                ) + tagged(files_under(entries@, chlist[ci as int]), ci as int));
            }
            ci = ci + 1;
        }
        proof {
            assert(chlist.len() == chn);
            lemma_pack_decompose(entries@, chlist, chlist.len() as int);
            assert(pack_pages(entries@, chlist, chlist.len() as int) =~= Seq::<
                (Seq<char>, int),
            >::empty());
            assert(image_views(images@) =~= image_pack_spec(entries@, self.name@));
        }
        ImagePack::from_iter(images)
    }
}

/// What the pack projects a page onto: its synthesized name, absent
/// where the page encodes no number or has no extension.
pub open spec fn name_of_page(pg: (Seq<char>, int)) -> Option<Seq<char>> {
    if pagenum_of(pg.0) is Some && ext_of(pg.0) is Some {
        Some(sort_name_spec(pg.1, pagenum_of(pg.0).unwrap(), ext_of(pg.0).unwrap()))
    } else {
        None
    }
}

/// The surviving synthesized names of a pack, in pack order.
pub open spec fn projected_names(pack: Seq<(Seq<char>, int)>) -> Seq<Seq<char>>
    decreases pack.len(),
{
    if pack.len() == 0 {
        Seq::empty()
    } else {
        let rest = projected_names(pack.drop_last());
        match name_of_page(pack.last()) {
            Some(nm) => rest.push(nm),
            None => rest,
        }
    }
}

/// The all-pages view of a series: each page of the pack projected onto
/// its synthesized name, pages without a number or an extension dropped,
/// and the survivors sorted in byte-lexicographic order.
pub fn all_pages(entries: &Vec<FsEntry>, title: &str) -> (r: Vec<String>)
    ensures
        crate::scan::path_views(r@) == crate::lexord::sort_lex(
            projected_names(image_pack_spec(entries@, title@)),
        ),
{
    let getter = SeriesGetter::from_name(title);
    let pack = getter.get_image_pack(entries);
    let ghost pk = image_pack_spec(entries@, title@);
    let mut names: Vec<String> = Vec::new();
    let n = pack.images.len();
    let mut i: usize = 0;
    proof {
        assert(pk.take(0) =~= Seq::<(Seq<char>, int)>::empty());
        assert(crate::scan::path_views(names@) =~= projected_names(pk.take(0)));
    }
    while i < n
        invariant
            i <= n == pack.images@.len(),
            image_views(pack.images@) == pk,
            crate::scan::path_views(names@) == projected_names(pk.take(i as int)),
        decreases n - i,
    {
        let img = pack.images.get(i).unwrap();
        let ghost pgi = pk[i as int];
        proof {
            assert(pgi == (img.path@, img.chapter as int));
            assert(pk.take(i as int + 1).drop_last() =~= pk.take(i as int));
            assert(pk.take(i as int + 1).last() == pgi);
        }
        match img.lex_sorted_name() {
            Ok(s) => {
                proof {
                    assert(name_of_page(pgi) == Some(s@));
                }
                names.push(s);
                proof {
                    assert(crate::scan::path_views(names@) =~= projected_names(
                        pk.take(i as int + 1),
                    ));
                }
            },
            Err(_) => {
                proof {
                    assert(name_of_page(pgi) is None);
                    assert(crate::scan::path_views(names@) =~= projected_names(
                        pk.take(i as int + 1),
                    ));
                }
            },
        }
        i = i + 1;
    }
    proof {
        assert(pk.take(n as int) =~= pk);
    }
    crate::lexord::sort_lex_vec(names)
}

proof fn lemma_pack_pages_elem(es: Seq<FsEntry>, chs: Seq<Seq<char>>, i: int, k: int)
    requires
        0 <= i <= chs.len(),
        0 <= k < pack_pages(es, chs, i).len(),
    ensures
        ({
            let pg = pack_pages(es, chs, i)[k];
            i <= pg.1 < chs.len() && files_under(es, chs[pg.1]).contains(pg.0)
        }),
    decreases chs.len() - i,
{
    let head = tagged(files_under(es, chs[i]), i);
    if k < head.len() {
        assert(pack_pages(es, chs, i)[k] == head[k]);
        assert(head[k] == (files_under(es, chs[i])[k], i));
    } else {
        lemma_pack_pages_elem(es, chs, i + 1, k - head.len());
        assert(pack_pages(es, chs, i)[k] == pack_pages(es, chs, i + 1)[k - head.len()]);
    }
}

/// Law: every page of the pack names a chapter of the sorted chapter
/// list by index, and its path is a direct file child of that chapter's
/// directory in the snapshot.
pub proof fn lemma_pack_sound(es: Seq<FsEntry>, name: Seq<char>, k: int)
    requires
        0 <= k < image_pack_spec(es, name).len(),
    ensures
        ({
            let pg = image_pack_spec(es, name)[k];
            let chs = chapter_list(es, name);
            0 <= pg.1 < chs.len() && files_under(es, chs[pg.1]).contains(pg.0)
        }),
{
    lemma_pack_pages_elem(es, chapter_list(es, name), 0, k);
}

proof fn lemma_pack_pages_has(es: Seq<FsEntry>, chs: Seq<Seq<char>>, i: int, ci: int, p: Seq<
    char,
>)
    requires
        0 <= i <= ci < chs.len(),
        files_under(es, chs[ci]).contains(p),
    ensures
        pack_pages(es, chs, i).contains((p, ci)),
    decreases chs.len() - i,
{
    let head = tagged(files_under(es, chs[i]), i);
    if ci == i {
        let w = choose|w: int| 0 <= w < files_under(es, chs[i]).len() && files_under(es, chs[i])[w]
            == p;
        assert(head[w] == (p, i));
        assert(pack_pages(es, chs, i)[w] == head[w]);
    } else {
        lemma_pack_pages_has(es, chs, i + 1, ci, p);
        let w = choose|w: int|
            0 <= w < pack_pages(es, chs, i + 1).len() && #[trigger] pack_pages(es, chs, i + 1)[w]
                == (p, ci);
        assert(pack_pages(es, chs, i)[head.len() + w] == (p, ci));
    }
}

/// Law: conversely, every direct file child of every chapter directory
/// appears in the pack, tagged with that chapter's index — the pack is
/// exactly the union of the chapters' file children.
pub proof fn lemma_pack_complete(es: Seq<FsEntry>, name: Seq<char>, ci: int, p: Seq<char>)
    requires
        0 <= ci < chapter_list(es, name).len(),
        files_under(es, chapter_list(es, name)[ci]).contains(p),
    ensures
        image_pack_spec(es, name).contains((p, ci)),
{
    lemma_pack_pages_has(es, chapter_list(es, name), 0, ci, p);
}

/// Law: a series with no matching chapter entries has an empty chapter
/// list and an empty pack.
pub proof fn lemma_no_chapters(es: Seq<FsEntry>, name: Seq<char>)
    requires
        chapter_paths(es, name).len() == 0,
    ensures
        chapter_list(es, name).len() == 0,
        image_pack_spec(es, name).len() == 0,
{
    crate::scan::lemma_sort_paths_props(chapter_paths(es, name), 1);
}

/// Law: a chapter without file children contributes no pages, and the
/// chapters after it keep their ordinary indices.
pub proof fn lemma_empty_chapter(es: Seq<FsEntry>, chs: Seq<Seq<char>>, i: int)
    requires
        0 <= i < chs.len(),
        files_under(es, chs[i]).len() == 0,
    ensures
        pack_pages(es, chs, i) == pack_pages(es, chs, i + 1),
{
    assert(tagged(files_under(es, chs[i]), i) =~= Seq::<(Seq<char>, int)>::empty());
    assert(tagged(files_under(es, chs[i]), i) + pack_pages(es, chs, i + 1) =~= pack_pages(
        es,
        chs,
        i + 1,
    ));
}

proof fn lemma_projected_from_pack(pack: Seq<(Seq<char>, int)>, k: int)
    requires
        0 <= k < projected_names(pack).len(),
    ensures
        exists|w: int|
            0 <= w < pack.len() && name_of_page(#[trigger] pack[w]) == Some(
                projected_names(pack)[k],
            ),
    decreases pack.len(),
{
    let rest = projected_names(pack.drop_last());
    match name_of_page(pack.last()) {
        Some(nm) => {
            if k < rest.len() {
                lemma_projected_from_pack(pack.drop_last(), k);
                let w = choose|w: int|
                    0 <= w < pack.drop_last().len() && name_of_page(
                        #[trigger] pack.drop_last()[w],
                    ) == Some(rest[k]);
                assert(pack[w] == pack.drop_last()[w]);
                assert(projected_names(pack)[k] == rest[k]);
            } else {
                assert(projected_names(pack)[k] == nm);
                assert(name_of_page(pack[pack.len() - 1]) == Some(nm));
            }
        },
        None => {
            lemma_projected_from_pack(pack.drop_last(), k);
            let w = choose|w: int|
                0 <= w < pack.drop_last().len() && name_of_page(#[trigger] pack.drop_last()[w])
                    == Some(rest[k]);
            assert(pack[w] == pack.drop_last()[w]);
        },
    }
}

/// Law: every name of the sorted all-pages view is the synthesized name
/// of a page of the pack; together with the pairwise byte-order result
/// on synthesized names, the view's (chapter, page) pairs never decrease.
pub proof fn lemma_all_pages_from_pack(es: Seq<FsEntry>, name: Seq<char>, k: int)
    requires
        0 <= k < crate::lexord::sort_lex(projected_names(image_pack_spec(es, name))).len(),
    ensures
        exists|w: int|
            0 <= w < image_pack_spec(es, name).len() && name_of_page(
                #[trigger] image_pack_spec(es, name)[w],
            ) == Some(crate::lexord::sort_lex(projected_names(image_pack_spec(es, name)))[k]),
{
    broadcast use vstd::seq_lib::group_to_multiset_ensures;

    let pr = projected_names(image_pack_spec(es, name));
    let sorted = crate::lexord::sort_lex(pr);
    crate::lexord::lemma_sort_lex_props(pr);
    assert(sorted.to_multiset().contains(sorted[k]));
    assert(pr.contains(sorted[k]));
    let i = choose|i: int| 0 <= i < pr.len() && pr[i] == sorted[k];
    lemma_projected_from_pack(image_pack_spec(es, name), i);
}

proof fn lemma_digits_val_singleton(c: char)
    ensures
        digits_val(seq![c]) == c as int - 48,
{
    let s1 = seq![c];
    assert(s1.drop_last() =~= Seq::<char>::empty());
    assert(digits_val(Seq::<char>::empty()) == 0);
    assert(s1.last() == c);
}

proof fn lemma_dec_str_props(n: int)
    requires
        n >= 0,
    ensures
        all_digits(dec_str(n)),
        digits_val(dec_str(n)) == n,
        dec_str(n).len() >= 1,
    decreases n,
{
    if n < 10 {
        lemma_digits_val_singleton(digit_char(n));
        assert(is_digit_char(digit_char(n)));
        assert(forall|k: int|
            0 <= k < dec_str(n).len() ==> is_digit_char(#[trigger] dec_str(n)[k]));
    } else {
        lemma_dec_str_props(n / 10);
        let d = dec_str(n / 10);
        let r = dec_str(n);
        assert(r == d.push(digit_char(n % 10)));
        assert(r.drop_last() =~= d);
        assert(r.last() == digit_char(n % 10));
        assert(digits_val(r) == n / 10 * 10 + n % 10);
        assert(is_digit_char(digit_char(n % 10)));
        assert forall|k: int| 0 <= k < r.len() implies is_digit_char(#[trigger] r[k]) by {
            if k < d.len() {
                assert(r[k] == d[k]);
            }
        }
    }
}

proof fn lemma_dec_str_len_le(n: int, w: nat)
    requires
        w >= 1,
        0 <= n < pow10(w),
    ensures
        dec_str(n).len() <= w,
    decreases n,
{
    if n < 10 {
    } else {
        assert(w >= 2) by {
            if w == 1 {
                assert(pow10(1) == 10 * pow10(0));
                assert(pow10(0) == 1);
            }
        }
        assert(pow10(w) == 10 * pow10((w - 1) as nat));
        let p = pow10((w - 1) as nat);
        assert(n / 10 < p) by (nonlinear_arith)
            requires
                n < 10 * p,
                n >= 0,
                p >= 1,
        ;
        lemma_dec_str_len_le(n / 10, (w - 1) as nat);
    }
}

proof fn lemma_pad_block(c: int, w: nat)
    requires
        w >= 1,
        0 <= c < pow10(w),
    ensures
        pad_to(dec_str(c), w as int).len() == w,
        all_digits(pad_to(dec_str(c), w as int)),
        digits_val(pad_to(dec_str(c), w as int)) == c,
{
    lemma_dec_str_props(c);
    lemma_dec_str_len_le(c, w);
    let d = dec_str(c);
    let blk = pad_to(d, w as int);
    if d.len() >= w {
        assert(blk == d);
    } else {
        let z = Seq::new((w - d.len()) as nat, |i: int| '0');
        assert(blk == z + d);
        assert(forall|k: int| 0 <= k < z.len() ==> (#[trigger] z[k]) as int == 48);
        crate::natord::lemma_zeros_val(z);
        lemma_digits_val_append(z, d);
        assert(digits_val(blk) == 0 * pow10(d.len()) + c);
        assert forall|k: int| 0 <= k < blk.len() implies is_digit_char(#[trigger] blk[k]) by {
            if k < z.len() {
                assert(blk[k] == z[k]);
            } else {
                assert(blk[k] == d[k - z.len()]);
            }
        }
    }
}

/// Equal-length digit blocks order lexicographically exactly as their
/// numeric values order.
proof fn lemma_digit_block_lex(u: Seq<char>, v: Seq<char>)
    requires
        all_digits(u),
        all_digits(v),
        u.len() == v.len(),
    ensures
        crate::lexord::lex_cmp(u, v) == if digits_val(u) < digits_val(v) {
            -1
        } else if digits_val(v) < digits_val(u) {
            1
        } else {
            0
        },
    decreases u.len(),
{
    if u.len() == 0 {
    } else if (u[0] as int) < (v[0] as int) {
        crate::natord::lemma_digits_lex_lt(u, v, 0);
    } else if (v[0] as int) < (u[0] as int) {
        crate::natord::lemma_digits_lex_lt(v, u, 0);
    } else {
        let us = u.skip(1);
        let vs = v.skip(1);
        assert(all_digits(us)) by {
            assert(forall|j: int| 0 <= j < us.len() ==> #[trigger] us[j] == u[j + 1]);
        }
        assert(all_digits(vs)) by {
            assert(forall|j: int| 0 <= j < vs.len() ==> #[trigger] vs[j] == v[j + 1]);
        }
        assert(u =~= seq![u[0]] + us);
        assert(v =~= seq![v[0]] + vs);
        lemma_digits_val_append(seq![u[0]], us);
        lemma_digits_val_append(seq![v[0]], vs);
        lemma_digits_val_singleton(u[0]);
        lemma_digits_val_singleton(v[0]);
        lemma_digit_block_lex(us, vs);
    }
}

/// Law: byte-lexicographic order of two synthesized page names recovers
/// the order of their (chapter index, page number) pairs, within the
/// documented bounds of the format.
pub proof fn lemma_sort_name_monotonic(
    c1: int,
    p1: int,
    e1: Seq<char>,
    c2: int,
    p2: int,
    e2: Seq<char>,
)
    requires
        0 <= c1 < 10000,
        0 <= p1 < 1000,
        0 <= c2 < 10000,
        0 <= p2 < 1000,
        crate::lexord::lex_cmp(sort_name_spec(c1, p1, e1), sort_name_spec(c2, p2, e2)) <= 0,
    ensures
        c1 < c2 || (c1 == c2 && p1 <= p2),
{
    assert(pow10(0) == 1);
    assert(pow10(1) == 10);
    assert(pow10(2) == 100);
    assert(pow10(3) == 1000);
    assert(pow10(4) == 10000);
    lemma_pad_block(c1, 4);
    lemma_pad_block(c2, 4);
    lemma_pad_block(p1, 3);
    lemma_pad_block(p2, 3);
    let b1 = pad_to(dec_str(c1), 4);
    let b2 = pad_to(dec_str(c2), 4);
    let q1 = pad_to(dec_str(p1), 3);
    let q2 = pad_to(dec_str(p2), 3);
    let r1 = q1 + (seq!['.'] + e1);
    let r2 = q2 + (seq!['.'] + e2);
    assert(sort_name_spec(c1, p1, e1) =~= b1 + r1);
    assert(sort_name_spec(c2, p2, e2) =~= b2 + r2);
    crate::lexord::lemma_lex_block(b1, b2, r1, r2);
    lemma_digit_block_lex(b1, b2);
    if c1 == c2 {
        assert(crate::lexord::lex_cmp(b1, b2) == 0);
        assert(crate::lexord::lex_cmp(r1, r2) <= 0);
        crate::lexord::lemma_lex_block(q1, q2, seq!['.'] + e1, seq!['.'] + e2);
        lemma_digit_block_lex(q1, q2);
        if p1 > p2 {
            assert(crate::lexord::lex_cmp(q1, q2) == 1);
            assert(false);
        }
    } else if c1 > c2 {
        assert(crate::lexord::lex_cmp(b1, b2) == 1);
        assert(false);
    }
}

} // verus!
