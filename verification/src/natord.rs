//! Natural-lexical, alphanumeric-only ordering of strings.
//!
//! The comparison key of a string is its subsequence of ASCII alphanumeric
//! characters.  Runs of digits compare by numeric value; letters compare
//! case-insensitively (ASCII fold); every other character is ignored.
//! An empty key compares equal to an empty key and less than any other.

use vstd::prelude::*;

verus! {

use core::cmp::Ordering;

/// ASCII decimal digit.
pub open spec fn is_digit_char(c: char) -> bool {
    48 <= c as int && c as int <= 57
}

/// ASCII letter, either case.
pub open spec fn is_letter_char(c: char) -> bool {
    (65 <= c as int && c as int <= 90) || (97 <= c as int && c as int <= 122)
}

/// ASCII alphanumeric character: the only characters that order a key.
pub open spec fn is_alnum_char(c: char) -> bool {
    is_digit_char(c) || is_letter_char(c)
}

/// Code point after folding an upper-case ASCII letter to lower case.
pub open spec fn fold_code(c: char) -> int {
    if 65 <= c as int && c as int <= 90 {
        c as int + 32
    } else {
        c as int
    }
}

/// The predicate that keeps a character in a comparison key.
pub open spec fn alnum_pred() -> spec_fn(char) -> bool {
    |c: char| is_alnum_char(c)
}

/// The comparison key of a string: its ASCII alphanumeric subsequence.
pub open spec fn filter_alnum(s: Seq<char>) -> Seq<char> {
    s.filter(alnum_pred())
}

pub open spec fn all_alnum(s: Seq<char>) -> bool {
    forall|k: int| 0 <= k < s.len() ==> is_alnum_char(#[trigger] s[k])
}

pub open spec fn all_digits(s: Seq<char>) -> bool {
    forall|k: int| 0 <= k < s.len() ==> is_digit_char(#[trigger] s[k])
}

/// Length of the maximal digit run at the head of `s`.
pub open spec fn digit_run_len(s: Seq<char>) -> nat
    decreases s.len(),
{
    if s.len() == 0 || !is_digit_char(s[0]) {
        0
    } else {
        1 + digit_run_len(s.skip(1))
    }
}

/// Numeric value of a sequence of digit characters.
pub open spec fn digits_val(s: Seq<char>) -> int
    decreases s.len(),
{
    if s.len() == 0 {
        0
    } else {
        digits_val(s.drop_last()) * 10 + (s.last() as int - 48)
    }
}

pub open spec fn pow10(n: nat) -> int
    decreases n,
{
    if n == 0 {
        1
    } else {
        10 * pow10((n - 1) as nat)
    }
}

/// Natural comparison of two alphanumeric keys: negative, zero or positive
/// as the left key orders before, together with, or after the right one.
pub open spec fn nat_cmp(a: Seq<char>, b: Seq<char>) -> int
    decreases a.len() + b.len(),
    via nat_cmp_decreases
{
    if a.len() == 0 && b.len() == 0 {
        0
    } else if a.len() == 0 {
        -1
    } else if b.len() == 0 {
        1
    } else if is_digit_char(a[0]) && is_digit_char(b[0]) {
        let la = digit_run_len(a) as int;
        let lb = digit_run_len(b) as int;
        let va = digits_val(a.take(la));
        let vb = digits_val(b.take(lb));
        if va < vb {
            -1
        } else if vb < va {
            1
        } else {
            nat_cmp(a.skip(la), b.skip(lb))
        }
    } else {
        let fa = fold_code(a[0]);
        let fb = fold_code(b[0]);
        if fa < fb {
            -1
        } else if fb < fa {
            1
        } else {
            nat_cmp(a.skip(1), b.skip(1))
        }
    }
}

#[via_fn]
proof fn nat_cmp_decreases(a: Seq<char>, b: Seq<char>) {
    if a.len() != 0 && b.len() != 0 && is_digit_char(a[0]) && is_digit_char(b[0]) {
        lemma_digit_run_le(a);
        lemma_digit_run_le(b);
    }
}

/// The `Ordering` that a comparison integer denotes.
pub open spec fn int_ord(i: int) -> Ordering {
    if i < 0 {
        Ordering::Less
    } else if i == 0 {
        Ordering::Equal
    } else {
        Ordering::Greater
    }
}

pub proof fn lemma_digit_run_le(s: Seq<char>)
    ensures
        digit_run_len(s) <= s.len(),
        1 <= digit_run_len(s) <==> s.len() > 0 && is_digit_char(s[0]),
        all_digits(s.take(digit_run_len(s) as int)),
        digit_run_len(s) < s.len() ==> !is_digit_char(s[digit_run_len(s) as int]),
    decreases s.len(),
{
    if s.len() == 0 || !is_digit_char(s[0]) {
    } else {
        lemma_digit_run_le(s.skip(1));
        let r = digit_run_len(s) as int;
        assert forall|k: int| 0 <= k < r implies is_digit_char(#[trigger] s.take(r)[k]) by {
            if k > 0 {
                assert(s.skip(1).take(r - 1)[k - 1] == s[k]);
                assert(all_digits(s.skip(1).take(r - 1)));
            }
        }
        if r < s.len() {
            assert(s.skip(1)[r - 1] == s[r]);
        }
    }
}

/// A position bounded as `r` is, with digits before it and a non-digit (or
/// the end) at it, is exactly the length of the head digit run.
pub proof fn lemma_digit_run_is(s: Seq<char>, r: int)
    requires
        0 <= r <= s.len(),
        forall|k: int| 0 <= k < r ==> is_digit_char(#[trigger] s[k]),
        r == s.len() || !is_digit_char(s[r]),
    ensures
        digit_run_len(s) == r,
    decreases r,
{
    if r == 0 {
    } else {
        assert(is_digit_char(s[0]));
        assert forall|k: int| 0 <= k < r - 1 implies is_digit_char(#[trigger] s.skip(1)[k]) by {
            assert(s.skip(1)[k] == s[k + 1]);
        }
        if r < s.len() {
            assert(s.skip(1)[r - 1] == s[r]);
        }
        lemma_digit_run_is(s.skip(1), r - 1);
    }
}

pub proof fn lemma_digits_val_nonneg(s: Seq<char>)
    requires
        all_digits(s),
    ensures
        digits_val(s) >= 0,
    decreases s.len(),
{
    if s.len() > 0 {
        assert(all_digits(s.drop_last())) by {
            assert(forall|k: int| 0 <= k < s.len() - 1 ==> #[trigger] s.drop_last()[k] == s[k]);
        }
        lemma_digits_val_nonneg(s.drop_last());
        assert(is_digit_char(s.last()));
    }
}

pub proof fn lemma_pow10_pos(n: nat)
    ensures
        pow10(n) >= 1,
    decreases n,
{
    if n > 0 {
        lemma_pow10_pos((n - 1) as nat);
    }
}

pub proof fn lemma_pow10_mono(m: nat, n: nat)
    requires
        m <= n,
    ensures
        pow10(m) <= pow10(n),
    decreases n,
{
    if m < n {
        lemma_pow10_mono(m, (n - 1) as nat);
        lemma_pow10_pos((n - 1) as nat);
    }
}

pub proof fn lemma_digits_val_append(u: Seq<char>, v: Seq<char>)
    ensures
        digits_val(u + v) == digits_val(u) * pow10(v.len()) + digits_val(v),
    decreases v.len(),
{
    if v.len() == 0 {
        assert(u + v =~= u);
    } else {
        assert((u + v).drop_last() =~= u + v.drop_last());
        assert((u + v).last() == v.last());
        lemma_digits_val_append(u, v.drop_last());
        assert(digits_val(u + v) == (digits_val(u) * pow10((v.len() - 1) as nat) + digits_val(
            v.drop_last(),
        )) * 10 + (v.last() as int - 48));
        assert(digits_val(u) * pow10((v.len() - 1) as nat) * 10 == digits_val(u) * pow10(v.len()))
            by (nonlinear_arith)
            requires
                pow10(v.len()) == 10 * pow10((v.len() - 1) as nat),
        ;
    }
}

pub proof fn lemma_digits_val_upper(s: Seq<char>)
    requires
        all_digits(s),
    ensures
        digits_val(s) < pow10(s.len()),
    decreases s.len(),
{
    if s.len() == 0 {
    } else {
        assert(all_digits(s.drop_last())) by {
            assert(forall|k: int| 0 <= k < s.len() - 1 ==> #[trigger] s.drop_last()[k] == s[k]);
        }
        lemma_digits_val_upper(s.drop_last());
        assert(is_digit_char(s.last()));
    }
}

pub proof fn lemma_digits_val_lower(s: Seq<char>)
    requires
        all_digits(s),
        s.len() >= 1,
        s[0] as int != 48,
    ensures
        digits_val(s) >= pow10((s.len() - 1) as nat),
    decreases s.len(),
{
    if s.len() == 1 {
        assert(is_digit_char(s[0]));
        assert(digits_val(s) == digits_val(s.drop_last()) * 10 + (s.last() as int - 48));
        assert(s.last() == s[0]);
    } else {
        assert(all_digits(s.drop_last())) by {
            assert(forall|k: int| 0 <= k < s.len() - 1 ==> #[trigger] s.drop_last()[k] == s[k]);
        }
        assert(s.drop_last()[0] == s[0]);
        lemma_digits_val_lower(s.drop_last());
        assert(is_digit_char(s.last()));
    }
}

/// A run of zeros contributes nothing to the numeric value.
pub proof fn lemma_digits_strip_zeros(s: Seq<char>, z: int)
    requires
        all_digits(s),
        0 <= z <= s.len(),
        forall|k: int| 0 <= k < z ==> (#[trigger] s[k]) as int == 48,
    ensures
        digits_val(s) == digits_val(s.skip(z)),
{
    assert(s =~= s.take(z) + s.skip(z));
    lemma_digits_val_append(s.take(z), s.skip(z));
    lemma_zeros_val(s.take(z));
}

pub proof fn lemma_zeros_val(s: Seq<char>)
    requires
        forall|k: int| 0 <= k < s.len() ==> (#[trigger] s[k]) as int == 48,
    ensures
        digits_val(s) == 0,
    decreases s.len(),
{
    if s.len() > 0 {
        assert(forall|k: int| 0 <= k < s.len() - 1 ==> (#[trigger] s.drop_last()[k]) as int == 48);
        lemma_zeros_val(s.drop_last());
    }
}

/// A shorter digit string is numerically below a longer one that does not
/// start with zero.
pub proof fn lemma_digits_len_lt(u: Seq<char>, v: Seq<char>)
    requires
        all_digits(u),
        all_digits(v),
        u.len() < v.len(),
        v[0] as int != 48,
    ensures
        digits_val(u) < digits_val(v),
{
    lemma_digits_val_upper(u);
    lemma_digits_val_lower(v);
    lemma_pow10_mono(u.len(), (v.len() - 1) as nat);
}

/// Equal-length digit strings order numerically as they order
/// lexicographically.
pub proof fn lemma_digits_lex_lt(u: Seq<char>, v: Seq<char>, k: int)
    requires
        all_digits(u),
        all_digits(v),
        u.len() == v.len(),
        0 <= k < u.len(),
        forall|j: int| 0 <= j < k ==> u[j] == v[j],
        (u[k] as int) < (v[k] as int),
    ensures
        digits_val(u) < digits_val(v),
{
    let n = u.len() as int;
    assert(u =~= u.take(k) + u.skip(k));
    assert(v =~= v.take(k) + v.skip(k));
    lemma_digits_val_append(u.take(k), u.skip(k));
    lemma_digits_val_append(v.take(k), v.skip(k));
    assert(u.take(k) =~= v.take(k));
    let us = u.skip(k);
    let vs = v.skip(k);
    assert(us =~= seq![u[k]] + u.skip(k + 1));
    assert(vs =~= seq![v[k]] + v.skip(k + 1));
    lemma_digits_val_append(seq![u[k]], u.skip(k + 1));
    lemma_digits_val_append(seq![v[k]], v.skip(k + 1));
    assert(digits_val(seq![u[k]]) == u[k] as int - 48) by {
        let s1 = seq![u[k]];
        assert(s1.drop_last() =~= Seq::<char>::empty());
        assert(digits_val(Seq::<char>::empty()) == 0);
        assert(s1.last() == u[k]);
    }
    assert(digits_val(seq![v[k]]) == v[k] as int - 48) by {
        let s1 = seq![v[k]];
        assert(s1.drop_last() =~= Seq::<char>::empty());
        assert(digits_val(Seq::<char>::empty()) == 0);
        assert(s1.last() == v[k]);
    }
    assert(all_digits(u.skip(k + 1))) by {
        assert(forall|j: int| 0 <= j < n - k - 1 ==> #[trigger] u.skip(k + 1)[j] == u[j + k + 1]);
    }
    assert(all_digits(v.skip(k + 1))) by {
        assert(forall|j: int| 0 <= j < n - k - 1 ==> #[trigger] v.skip(k + 1)[j] == v[j + k + 1]);
    }
    lemma_digits_val_upper(u.skip(k + 1));
    lemma_digits_val_nonneg(v.skip(k + 1));
    lemma_pow10_pos((n - k - 1) as nat);
    let p = pow10((n - k - 1) as nat);
    assert((u[k] as int - 48) * p + p <= (v[k] as int - 48) * p) by (nonlinear_arith)
        requires
            (u[k] as int) < (v[k] as int),
            p >= 1,
    ;
}

/// Reversing the arguments negates the comparison.
pub proof fn lemma_nat_cmp_flip(a: Seq<char>, b: Seq<char>)
    ensures
        nat_cmp(b, a) == -nat_cmp(a, b),
    decreases a.len() + b.len(),
{
    if a.len() == 0 || b.len() == 0 {
    } else if is_digit_char(a[0]) && is_digit_char(b[0]) {
        let la = digit_run_len(a) as int;
        let lb = digit_run_len(b) as int;
        lemma_digit_run_le(a);
        lemma_digit_run_le(b);
        if digits_val(a.take(la)) == digits_val(b.take(lb)) {
            lemma_nat_cmp_flip(a.skip(la), b.skip(lb));
        }
    } else {
        if fold_code(a[0]) == fold_code(b[0]) {
            lemma_nat_cmp_flip(a.skip(1), b.skip(1));
        }
    }
}

/// A key ties with itself.
pub proof fn lemma_nat_cmp_refl(a: Seq<char>)
    ensures
        nat_cmp(a, a) == 0,
{
    lemma_nat_cmp_flip(a, a);
}

/// The comparison takes only the values -1, 0 and 1.
pub proof fn lemma_nat_cmp_range(a: Seq<char>, b: Seq<char>)
    ensures
        -1 <= nat_cmp(a, b) <= 1,
    decreases a.len() + b.len(),
{
    if a.len() == 0 || b.len() == 0 {
    } else if is_digit_char(a[0]) && is_digit_char(b[0]) {
        let la = digit_run_len(a) as int;
        let lb = digit_run_len(b) as int;
        lemma_digit_run_le(a);
        lemma_digit_run_le(b);
        if digits_val(a.take(la)) == digits_val(b.take(lb)) {
            lemma_nat_cmp_range(a.skip(la), b.skip(lb));
        }
    } else {
        if fold_code(a[0]) == fold_code(b[0]) {
            lemma_nat_cmp_range(a.skip(1), b.skip(1));
        }
    }
}

proof fn lemma_all_alnum_skip(s: Seq<char>, i: int)
    requires
        all_alnum(s),
        0 <= i <= s.len(),
    ensures
        all_alnum(s.skip(i)),
{
    assert(forall|k: int| 0 <= k < s.len() - i ==> #[trigger] s.skip(i)[k] == s[k + i]);
}

/// The order is transitive on alphanumeric keys.
pub proof fn lemma_nat_cmp_trans(a: Seq<char>, b: Seq<char>, c: Seq<char>)
    requires
        all_alnum(a),
        all_alnum(b),
        all_alnum(c),
        nat_cmp(a, b) <= 0,
        nat_cmp(b, c) <= 0,
    ensures
        nat_cmp(a, c) <= 0,
    decreases a.len() + b.len() + c.len(),
{
    if a.len() == 0 {
        // an empty key is below everything
    } else if b.len() == 0 || c.len() == 0 {
        // then nat_cmp(a, b) or nat_cmp(b, c) would be positive
    } else {
        let ha = is_digit_char(a[0]);
        let hb = is_digit_char(b[0]);
        let hc = is_digit_char(c[0]);
        if ha && hb && hc {
            let la = digit_run_len(a) as int;
            let lb = digit_run_len(b) as int;
            let lc = digit_run_len(c) as int;
            lemma_digit_run_le(a);
            lemma_digit_run_le(b);
            lemma_digit_run_le(c);
            let va = digits_val(a.take(la));
            let vb = digits_val(b.take(lb));
            let vc = digits_val(c.take(lc));
            if va == vc {
                assert(va == vb && vb == vc);
                lemma_all_alnum_skip(a, la);
                lemma_all_alnum_skip(b, lb);
                lemma_all_alnum_skip(c, lc);
                lemma_nat_cmp_trans(a.skip(la), b.skip(lb), c.skip(lc));
            } else {
                assert(va <= vb && vb <= vc);
            }
        } else if ha && !hb {
            // a digit orders below a letter, so nat_cmp(b, c) <= 0 forces
            // c to start with a letter as well
            assert(is_letter_char(b[0]));
            if hc {
                assert(fold_code(b[0]) > fold_code(c[0]));
                assert(nat_cmp(b, c) == 1);
            } else {
                assert(is_letter_char(c[0]));
                assert(fold_code(a[0]) < fold_code(c[0]));
            }
        } else if !ha {
            assert(is_letter_char(a[0]));
            if hb {
                assert(fold_code(a[0]) > fold_code(b[0]));
                assert(nat_cmp(a, b) == 1);
            } else {
                assert(is_letter_char(b[0]));
                if hc {
                    assert(fold_code(b[0]) > fold_code(c[0]));
                    assert(nat_cmp(b, c) == 1);
                } else {
                    assert(is_letter_char(c[0]));
                    let fa = fold_code(a[0]);
                    let fb = fold_code(b[0]);
                    let fc = fold_code(c[0]);
                    if fa == fc {
                        assert(fa == fb && fb == fc);
                        lemma_all_alnum_skip(a, 1);
                        lemma_all_alnum_skip(b, 1);
                        lemma_all_alnum_skip(c, 1);
                        lemma_nat_cmp_trans(a.skip(1), b.skip(1), c.skip(1));
                    } else {
                        assert(fa <= fb && fb <= fc);
                    }
                }
            }
        } else {
            // ha && hb && !hc: nat_cmp(b, c) compares a digit against a
            // letter and is negative, and so does nat_cmp(a, c)
            assert(is_letter_char(c[0]));
            assert(fold_code(a[0]) < fold_code(c[0]));
        }
    }
}

/// True of the folded code of every ASCII alphanumeric character.
fn fold_exec(c: char) -> (r: u32)
    ensures
        r as int == fold_code(c),
{
    let x = c as u32;
    if 65 <= x && x <= 90 {
        x + 32
    } else {
        x
    }
}

pub fn is_digit_exec(c: char) -> (r: bool)
    ensures
        r == is_digit_char(c),
{
    let x = c as u32;
    48 <= x && x <= 57
}

pub fn is_alnum_exec(c: char) -> (r: bool)
    ensures
        r == is_alnum_char(c),
{
    let x = c as u32;
    (48 <= x && x <= 57) || (65 <= x && x <= 90) || (97 <= x && x <= 122)
}

/// Compares two digit runs by numeric value without materializing the
/// values: leading zeros are stripped, then a longer run of significant
/// digits wins, then the first differing digit decides.
fn cmp_digit_runs(a: &Vec<char>, ia: usize, ra: usize, b: &Vec<char>, ib: usize, rb: usize) -> (r:
    Ordering)
    requires
        ia <= ra <= a@.len(),
        ib <= rb <= b@.len(),
        all_digits(a@.subrange(ia as int, ra as int)),
        all_digits(b@.subrange(ib as int, rb as int)),
    ensures
        r == int_ord(
            if digits_val(a@.subrange(ia as int, ra as int)) < digits_val(
                b@.subrange(ib as int, rb as int),
            ) {
                -1
            } else if digits_val(b@.subrange(ib as int, rb as int)) < digits_val(
                a@.subrange(ia as int, ra as int),
            ) {
                1
            } else {
                0
            },
        ),
{
    let ghost u = a@.subrange(ia as int, ra as int);
    let ghost v = b@.subrange(ib as int, rb as int);
    let mut za = ia;
    while za < ra && *a.get(za).unwrap() == '0'
        invariant
            ia <= za <= ra <= a@.len(),
            forall|k: int| ia <= k < za ==> (#[trigger] a@[k]) as int == 48,
        decreases ra - za,
    {
        za = za + 1;
    }
    let mut zb = ib;
    while zb < rb && *b.get(zb).unwrap() == '0'
        invariant
            ib <= zb <= rb <= b@.len(),
            forall|k: int| ib <= k < zb ==> (#[trigger] b@[k]) as int == 48,
        decreases rb - zb,
    {
        zb = zb + 1;
    }
    let ghost us = a@.subrange(za as int, ra as int);
    let ghost vs = b@.subrange(zb as int, rb as int);
    proof {
        assert(us =~= u.skip(za - ia));
        assert(vs =~= v.skip(zb - ib));
        lemma_digits_strip_zeros(u, za - ia);
        lemma_digits_strip_zeros(v, zb - ib);
        assert(all_digits(us));
        assert(all_digits(vs));
        if za < ra {
            assert(us[0] == a@[za as int]);
        }
        if zb < rb {
            assert(vs[0] == b@[zb as int]);
        }
    }
    if ra - za < rb - zb {
        proof {
            lemma_digits_len_lt(us, vs);
        }
        return Ordering::Less;
    }
    if rb - zb < ra - za {
        proof {
            lemma_digits_len_lt(vs, us);
        }
        return Ordering::Greater;
    }
    // equal significant length: the first differing digit decides
    let n = ra - za;
    let mut k: usize = 0;
    while k < n
        invariant
            n == ra - za == rb - zb,
            ia <= za <= ra <= a@.len(),
            ib <= zb <= rb <= b@.len(),
            0 <= k <= n,
            us == a@.subrange(za as int, ra as int),
            vs == b@.subrange(zb as int, rb as int),
            all_digits(us),
            all_digits(vs),
            digits_val(u) == digits_val(us),
            digits_val(v) == digits_val(vs),
            u == a@.subrange(ia as int, ra as int),
            v == b@.subrange(ib as int, rb as int),
            forall|j: int| 0 <= j < k ==> us[j] == vs[j],
        decreases n - k,
    {
        let ca = *a.get(za + k).unwrap();
        let cb = *b.get(zb + k).unwrap();
        proof {
            assert(us[k as int] == a@[za + k]);
            assert(vs[k as int] == b@[zb + k]);
        }
        if (ca as u32) < (cb as u32) {
            proof {
                lemma_digits_lex_lt(us, vs, k as int);
            }
            return Ordering::Less;
        }
        if (cb as u32) < (ca as u32) {
            proof {
                lemma_digits_lex_lt(vs, us, k as int);
            }
            return Ordering::Greater;
        }
        k = k + 1;
    }
    proof {
        assert(us =~= vs);
    }
    Ordering::Equal
}

/// Compares two alphanumeric keys in natural-lexical order.
pub fn cmp_alnum(a: &Vec<char>, b: &Vec<char>) -> (r: Ordering)
    ensures
        r == int_ord(nat_cmp(a@, b@)),
{
    let alen = a.len();
    let blen = b.len();
    let mut i: usize = 0;
    let mut j: usize = 0;
    proof {
        assert(a@.skip(0) =~= a@);
        assert(b@.skip(0) =~= b@);
    }
    loop
        invariant
            i <= alen == a@.len(),
            j <= blen == b@.len(),
            nat_cmp(a@, b@) == nat_cmp(a@.skip(i as int), b@.skip(j as int)),
        decreases alen - i + blen - j,
    {
        let ghost sa = a@.skip(i as int);
        let ghost sb = b@.skip(j as int);
        if i == alen && j == blen {
            return Ordering::Equal;
        }
        if i == alen {
            return Ordering::Less;
        }
        if j == blen {
            return Ordering::Greater;
        }
        let ca = *a.get(i).unwrap();
        let cb = *b.get(j).unwrap();
        proof {
            assert(sa[0] == a@[i as int]);
            assert(sb[0] == b@[j as int]);
        }
        if is_digit_exec(ca) && is_digit_exec(cb) {
            // find the ends of both digit runs
            let mut ra = i;
            while ra < alen && is_digit_exec(*a.get(ra).unwrap())
                invariant
                    i <= ra <= alen == a@.len(),
                    forall|k: int| i <= k < ra ==> is_digit_char(#[trigger] a@[k]),
                decreases alen - ra,
            {
                ra = ra + 1;
            }
            let mut rb = j;
            while rb < blen && is_digit_exec(*b.get(rb).unwrap())
                invariant
                    j <= rb <= blen == b@.len(),
                    forall|k: int| j <= k < rb ==> is_digit_char(#[trigger] b@[k]),
                decreases blen - rb,
            {
                rb = rb + 1;
            }
            proof {
                assert forall|k: int| 0 <= k < ra - i implies is_digit_char(#[trigger] sa[k]) by {
                    assert(sa[k] == a@[k + i]);
                }
                assert forall|k: int| 0 <= k < rb - j implies is_digit_char(#[trigger] sb[k]) by {
                    assert(sb[k] == b@[k + j]);
                }
                if ra < alen {
                    assert(sa[ra - i] == a@[ra as int]);
                }
                if rb < blen {
                    assert(sb[rb - j] == b@[rb as int]);
                }
                lemma_digit_run_is(sa, ra - i);
                lemma_digit_run_is(sb, rb - j);
                assert(sa.take(ra - i) =~= a@.subrange(i as int, ra as int));
                assert(sb.take(rb - j) =~= b@.subrange(j as int, rb as int));
            }
            let ord = cmp_digit_runs(a, i, ra, b, j, rb);
            match ord {
                Ordering::Equal => {
                    proof {
                        assert(sa.skip(ra - i) =~= a@.skip(ra as int));
                        assert(sb.skip(rb - j) =~= b@.skip(rb as int));
                    }
                    i = ra;
                    j = rb;
                },
                _ => {
                    return ord;
                },
            }
        } else {
            let fa = fold_exec(ca);
            let fb = fold_exec(cb);
            if fa < fb {
                return Ordering::Less;
            }
            if fb < fa {
                return Ordering::Greater;
            }
            proof {
                assert(sa.skip(1) =~= a@.skip(i + 1));
                assert(sb.skip(1) =~= b@.skip(j + 1));
            }
            i = i + 1;
            j = j + 1;
        }
    }
}

} // verus!
