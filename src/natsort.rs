//! Natural ("human") ordering of strings.
//!
//! Each string is turned into a sort key, a sequence of integers, and two
//! strings are ordered by comparing their keys lexicographically. A maximal run
//! of decimal digits contributes `[0, s, d_1, ..., d_s, n]`, where `d_1..d_s`
//! are its significant digits (leading zeros removed) and `n` the full length
//! of the run; any other character `c` contributes `[1, c]`. Hence:
//! - digit runs compare by magnitude (fewer significant digits first, then
//!   digit by digit), and runs of equal magnitude put the one with fewer
//!   leading zeros first;
//! - characters outside digit runs compare by code point, optionally with
//!   ASCII letters folded to lower case;
//! - a digit run sorts before any other character at the same position, and a
//!   string that ends sorts before one that goes on.
use vstd::prelude::*;
use core::cmp::Ordering;

verus! {

/// Whether `c` is an ASCII decimal digit.
pub open spec fn is_digit(c: char) -> bool {
    '0' <= c && c <= '9'
}

/// The number of digits at the start of `s`.
pub open spec fn digit_run_len(s: Seq<char>) -> nat
    decreases s.len(),
{
    if s.len() > 0 && is_digit(s[0]) {
        1 + digit_run_len(s.drop_first())
    } else {
        0
    }
}

/// The number of `'0'` characters at the start of `s`.
pub open spec fn zero_run_len(s: Seq<char>) -> nat
    decreases s.len(),
{
    if s.len() > 0 && s[0] == '0' {
        1 + zero_run_len(s.drop_first())
    } else {
        0
    }
}

/// The key of a character outside a digit run: its code point, with ASCII
/// upper-case letters folded to lower case when case is ignored.
pub open spec fn char_key(c: char, ignore_case: bool) -> int {
    if ignore_case && 'A' <= c && c <= 'Z' {
        (c as u32) as int + 32
    } else {
        (c as u32) as int
    }
}

/// The digits of a run that remain once its leading zeros are removed.
pub open spec fn significant(run: Seq<char>) -> Seq<char> {
    run.skip(zero_run_len(run) as int)
}

/// The key of a digit run: a `0` tag, the number of significant digits, the
/// significant digits, and the length of the whole run.
pub open spec fn number_key(run: Seq<char>) -> Seq<int> {
    let sig = significant(run);
    seq![0int, sig.len() as int] + sig.map_values(|c: char| (c as u32) as int) + seq![run.len() as int]
}

/// The sort key of a string.
pub open spec fn sort_key(s: Seq<char>, ignore_case: bool) -> Seq<int>
    decreases s.len(),
    via sort_key_decreases
{
    if s.len() == 0 {
        seq![]
    } else if is_digit(s[0]) {
        let n = digit_run_len(s) as int;
        number_key(s.take(n)) + sort_key(s.skip(n), ignore_case)
    } else {
        seq![1int, char_key(s[0], ignore_case)] + sort_key(s.drop_first(), ignore_case)
    }
}

#[via_fn]
proof fn sort_key_decreases(s: Seq<char>, ignore_case: bool) {
    lemma_digit_run_len_bounds(s);
}

/// Lexicographic order of integer sequences; a proper prefix comes first.
pub open spec fn lex_cmp(x: Seq<int>, y: Seq<int>) -> Ordering
    decreases x.len(),
{
    if x.len() == 0 {
        if y.len() == 0 {
            Ordering::Equal
        } else {
            Ordering::Less
        }
    } else if y.len() == 0 {
        Ordering::Greater
    } else if x[0] < y[0] {
        Ordering::Less
    } else if x[0] > y[0] {
        Ordering::Greater
    } else {
        lex_cmp(x.drop_first(), y.drop_first())
    }
}

/// The natural order of two strings.
pub open spec fn natural_cmp(a: Seq<char>, b: Seq<char>, ignore_case: bool) -> Ordering {
    lex_cmp(sort_key(a, ignore_case), sort_key(b, ignore_case))
}

/// The opposite of an ordering.
pub open spec fn flip(o: Ordering) -> Ordering {
    match o {
        Ordering::Less => Ordering::Greater,
        Ordering::Equal => Ordering::Equal,
        Ordering::Greater => Ordering::Less,
    }
}

pub proof fn lemma_digit_run_len_bounds(s: Seq<char>)
    ensures
        digit_run_len(s) <= s.len(),
        s.len() > 0 && is_digit(s[0]) ==> digit_run_len(s) >= 1,
        forall|i: int| 0 <= i < digit_run_len(s) ==> is_digit(#[trigger] s[i]),
        digit_run_len(s) < s.len() ==> !is_digit(s[digit_run_len(s) as int]),
    decreases s.len(),
{
    if s.len() > 0 && is_digit(s[0]) {
        lemma_digit_run_len_bounds(s.drop_first());
        assert forall|i: int| 0 <= i < digit_run_len(s) implies is_digit(#[trigger] s[i]) by {
            if i > 0 {
                assert(s[i] == s.drop_first()[i - 1]);
            }
        }
    }
}

pub proof fn lemma_zero_run_len_bounds(s: Seq<char>)
    ensures
        zero_run_len(s) <= s.len(),
        forall|i: int| 0 <= i < zero_run_len(s) ==> #[trigger] s[i] == '0',
        zero_run_len(s) < s.len() ==> s[zero_run_len(s) as int] != '0',
    decreases s.len(),
{
    if s.len() > 0 && s[0] == '0' {
        lemma_zero_run_len_bounds(s.drop_first());
        assert forall|i: int| 0 <= i < zero_run_len(s) implies #[trigger] s[i] == '0' by {
            if i > 0 {
                assert(s[i] == s.drop_first()[i - 1]);
            }
        }
    }
}

proof fn lemma_lex_reflexive(x: Seq<int>)
    ensures
        lex_cmp(x, x) == Ordering::Equal,
    decreases x.len(),
{
    if x.len() > 0 {
        lemma_lex_reflexive(x.drop_first());
    }
}

proof fn lemma_lex_equal(x: Seq<int>, y: Seq<int>)
    requires
        lex_cmp(x, y) == Ordering::Equal,
    ensures
        x == y,
    decreases x.len(),
{
    if x.len() > 0 {
        lemma_lex_equal(x.drop_first(), y.drop_first());
        assert(x =~= seq![x[0]] + x.drop_first());
        assert(y =~= seq![y[0]] + y.drop_first());
    }
}

proof fn lemma_lex_flip(x: Seq<int>, y: Seq<int>)
    ensures
        lex_cmp(y, x) == flip(lex_cmp(x, y)),
    decreases x.len(),
{
    if x.len() > 0 && y.len() > 0 {
        lemma_lex_flip(x.drop_first(), y.drop_first());
    }
}

proof fn lemma_lex_transitive(x: Seq<int>, y: Seq<int>, z: Seq<int>, o: Ordering)
    requires
        o != Ordering::Equal,
        lex_cmp(x, y) == o,
        lex_cmp(y, z) == o,
    ensures
        lex_cmp(x, z) == o,
    decreases x.len(),
{
    if x.len() > 0 && y.len() > 0 && z.len() > 0 {
        if x[0] == y[0] && y[0] == z[0] {
            lemma_lex_transitive(x.drop_first(), y.drop_first(), z.drop_first(), o);
        }
    }
}


proof fn lemma_char_code_injective(c: char, d: char)
    requires
        (c as u32) == (d as u32),
    ensures
        c == d,
{
    vstd::utf8::char_u32_cast(c, c as u32);
    vstd::utf8::char_u32_cast(d, d as u32);
}

proof fn lemma_number_key_injective(x: Seq<char>, y: Seq<char>)
    requires
        number_key(x) == number_key(y),
    ensures
        x == y,
{
    let kx = number_key(x);
    let ky = number_key(y);
    let sx = significant(x);
    let sy = significant(y);
    lemma_zero_run_len_bounds(x);
    lemma_zero_run_len_bounds(y);
    assert(kx[1] == sx.len());
    assert(ky[1] == sy.len());
    assert(kx.len() == sx.len() + 3);
    assert(kx[kx.len() - 1] == x.len());
    assert(ky[ky.len() - 1] == y.len());
    let zx = zero_run_len(x) as int;
    let zy = zero_run_len(y) as int;
    assert(zx == zy);
    assert forall|i: int| 0 <= i < sx.len() implies sx[i] == sy[i] by {
        assert(kx[i + 2] == (sx[i] as u32) as int);
        assert(ky[i + 2] == (sy[i] as u32) as int);
        lemma_char_code_injective(sx[i], sy[i]);
    }
    assert forall|i: int| 0 <= i < x.len() implies x[i] == y[i] by {
        if i >= zx {
            assert(x[i] == sx[i - zx]);
            assert(y[i] == sy[i - zx]);
        }
    }
    assert(x =~= y);
}

proof fn lemma_sort_key_nonempty(s: Seq<char>, ignore_case: bool)
    requires
        s.len() > 0,
    ensures
        sort_key(s, ignore_case).len() >= 2,
        sort_key(s, ignore_case)[0] == if is_digit(s[0]) { 0int } else { 1int },
{
    lemma_digit_run_len_bounds(s);
}

/// Under case-sensitive comparison, distinct strings have distinct keys.
proof fn lemma_sort_key_injective(a: Seq<char>, b: Seq<char>)
    requires
        sort_key(a, false) == sort_key(b, false),
    ensures
        a == b,
    decreases a.len() + b.len(),
{
    let ka = sort_key(a, false);
    let kb = sort_key(b, false);
    if a.len() == 0 || b.len() == 0 {
        if a.len() > 0 {
            lemma_sort_key_nonempty(a, false);
        }
        if b.len() > 0 {
            lemma_sort_key_nonempty(b, false);
        }
        assert(a =~= b);
    } else {
        lemma_sort_key_nonempty(a, false);
        lemma_sort_key_nonempty(b, false);
        lemma_digit_run_len_bounds(a);
        lemma_digit_run_len_bounds(b);
        if is_digit(a[0]) {
            let na = digit_run_len(a) as int;
            let nb = digit_run_len(b) as int;
            let pa = number_key(a.take(na));
            let pb = number_key(b.take(nb));
            assert(ka == pa + sort_key(a.skip(na), false));
            assert(kb == pb + sort_key(b.skip(nb), false));
            assert(pa[1] == ka[1]);
            assert(pb[1] == kb[1]);
            assert(pa.len() == pb.len());
            assert(pa =~= ka.take(pa.len() as int));
            assert(pb =~= kb.take(pb.len() as int));
            assert(sort_key(a.skip(na), false) =~= ka.skip(pa.len() as int));
            assert(sort_key(b.skip(nb), false) =~= kb.skip(pb.len() as int));
            lemma_number_key_injective(a.take(na), b.take(nb));
            lemma_sort_key_injective(a.skip(na), b.skip(nb));
            assert(a =~= a.take(na) + a.skip(na));
            assert(b =~= b.take(nb) + b.skip(nb));
        } else {
            assert(ka[1] == (a[0] as u32) as int);
            assert(kb[1] == (b[0] as u32) as int);
            lemma_char_code_injective(a[0], b[0]);
            assert(sort_key(a.drop_first(), false) =~= ka.skip(2));
            assert(sort_key(b.drop_first(), false) =~= kb.skip(2));
            lemma_sort_key_injective(a.drop_first(), b.drop_first());
            assert(a =~= seq![a[0]] + a.drop_first());
            assert(b =~= seq![b[0]] + b.drop_first());
        }
    }
}

/// Every string is equal to itself in natural order.
pub proof fn lemma_compare_reflexive(a: Seq<char>, ignore_case: bool)
    ensures
        natural_cmp(a, a, ignore_case) == Ordering::Equal,
{
    lemma_lex_reflexive(sort_key(a, ignore_case));
}

/// Swapping the two strings reverses the result.
pub proof fn lemma_compare_antisymmetric(a: Seq<char>, b: Seq<char>, ignore_case: bool)
    ensures
        natural_cmp(b, a, ignore_case) == flip(natural_cmp(a, b, ignore_case)),
{
    lemma_lex_flip(sort_key(a, ignore_case), sort_key(b, ignore_case));
}

/// Natural order is transitive: `a < b` and `b < c` give `a < c`, likewise
/// for `>` and for `==`.
pub proof fn lemma_compare_transitive(
    a: Seq<char>,
    b: Seq<char>,
    c: Seq<char>,
    ignore_case: bool,
    o: Ordering,
)
    requires
        natural_cmp(a, b, ignore_case) == o,
        natural_cmp(b, c, ignore_case) == o,
    ensures
        natural_cmp(a, c, ignore_case) == o,
{
    let (ka, kb, kc) = (sort_key(a, ignore_case), sort_key(b, ignore_case), sort_key(c, ignore_case));
    if o == Ordering::Equal {
        lemma_lex_equal(ka, kb);
        lemma_lex_equal(kb, kc);
        lemma_lex_reflexive(ka);
    } else {
        lemma_lex_transitive(ka, kb, kc, o);
    }
}

/// Case-sensitive natural order ties two strings only when they are identical.
pub proof fn lemma_compare_equal_iff_identical(a: Seq<char>, b: Seq<char>)
    ensures
        natural_cmp(a, b, false) == Ordering::Equal <==> a == b,
{
    lemma_lex_reflexive(sort_key(a, false));
    if natural_cmp(a, b, false) == Ordering::Equal {
        lemma_lex_equal(sort_key(a, false), sort_key(b, false));
        lemma_sort_key_injective(a, b);
    }
}

/// The value of a decimal digit.
pub open spec fn digit_value(c: char) -> int {
    (c as u32) as int - ('0' as u32) as int
}

/// `10` to the power `n`.
pub open spec fn pow10(n: nat) -> nat
    decreases n,
{
    if n == 0 {
        1
    } else {
        10 * pow10((n - 1) as nat)
    }
}

/// The number a string of decimal digits denotes, of any size.
pub open spec fn digits_value(s: Seq<char>) -> nat
    decreases s.len(),
{
    if s.len() == 0 {
        0
    } else {
        (digit_value(s[0]) * pow10((s.len() - 1) as nat) + digits_value(s.drop_first())) as nat
    }
}

/// Whether every character of `s` is a digit.
pub open spec fn all_digits(s: Seq<char>) -> bool {
    forall|i: int| 0 <= i < s.len() ==> is_digit(#[trigger] s[i])
}

/// Digit runs ordered by the numbers they denote, and runs that denote the
/// same number by length, so fewer leading zeros come first.
pub open spec fn magnitude_cmp(x: Seq<char>, y: Seq<char>) -> Ordering {
    if digits_value(x) < digits_value(y) {
        Ordering::Less
    } else if digits_value(x) > digits_value(y) {
        Ordering::Greater
    } else if x.len() < y.len() {
        Ordering::Less
    } else if x.len() > y.len() {
        Ordering::Greater
    } else {
        Ordering::Equal
    }
}

proof fn lemma_pow10_positive(n: nat)
    ensures
        pow10(n) >= 1,
    decreases n,
{
    if n > 0 {
        lemma_pow10_positive((n - 1) as nat);
    }
}

proof fn lemma_pow10_monotone(m: nat, n: nat)
    requires
        m <= n,
    ensures
        pow10(m) <= pow10(n),
    decreases n,
{
    if m < n {
        lemma_pow10_monotone(m, (n - 1) as nat);
    }
}

proof fn lemma_digits_value_bounds(s: Seq<char>)
    requires
        all_digits(s),
    ensures
        digits_value(s) < pow10(s.len()),
        s.len() > 0 && s[0] != '0' ==> digits_value(s) >= pow10((s.len() - 1) as nat),
    decreases s.len(),
{
    if s.len() > 0 {
        let rest = s.drop_first();
        assert(all_digits(rest)) by {
            assert forall|i: int| 0 <= i < rest.len() implies is_digit(#[trigger] rest[i]) by {
                assert(rest[i] == s[i + 1]);
            }
        }
        lemma_digits_value_bounds(rest);
        let p = pow10((s.len() - 1) as nat);
        let d = digit_value(s[0]);
        assert(is_digit(s[0]));
        assert(0 <= d <= 9);
        lemma_pow10_positive((s.len() - 1) as nat);
        assert(d * p <= 9 * p) by (nonlinear_arith)
            requires
                d <= 9,
                p >= 1,
        ;
        assert(0 <= d * p) by (nonlinear_arith)
            requires
                d >= 0,
                p >= 1,
        ;
        if s[0] != '0' {
            assert(d >= 1);
            assert(d * p >= p) by (nonlinear_arith)
                requires
                    d >= 1,
                    p >= 1,
            ;
        }
    }
}

proof fn lemma_leading_zeros_value(s: Seq<char>)
    ensures
        digits_value(s) == digits_value(significant(s)),
    decreases s.len(),
{
    if s.len() > 0 && s[0] == '0' {
        lemma_leading_zeros_value(s.drop_first());
        lemma_zero_run_len_bounds(s.drop_first());
        assert(s.drop_first().skip(zero_run_len(s.drop_first()) as int) =~= s.skip(
            zero_run_len(s) as int,
        ));
    } else {
        assert(s.skip(0) =~= s);
    }
}

/// For digit strings of one length, comparing digit codes in turn compares
/// the numbers they denote.
proof fn lemma_same_length_digits(p: Seq<char>, q: Seq<char>)
    requires
        all_digits(p),
        all_digits(q),
        p.len() == q.len(),
    ensures
        lex_cmp(p.map_values(|c: char| (c as u32) as int), q.map_values(|c: char| (c as u32) as int))
            == (if digits_value(p) < digits_value(q) {
            Ordering::Less
        } else if digits_value(p) > digits_value(q) {
            Ordering::Greater
        } else {
            Ordering::Equal
        }),
    decreases p.len(),
{
    let cp = p.map_values(|c: char| (c as u32) as int);
    let cq = q.map_values(|c: char| (c as u32) as int);
    if p.len() > 0 {
        let (rp, rq) = (p.drop_first(), q.drop_first());
        assert(all_digits(rp)) by {
            assert forall|i: int| 0 <= i < rp.len() implies is_digit(#[trigger] rp[i]) by {
                assert(rp[i] == p[i + 1]);
            }
        }
        assert(all_digits(rq)) by {
            assert forall|i: int| 0 <= i < rq.len() implies is_digit(#[trigger] rq[i]) by {
                assert(rq[i] == q[i + 1]);
            }
        }
        lemma_same_length_digits(rp, rq);
        assert(cp.drop_first() =~= rp.map_values(|c: char| (c as u32) as int));
        assert(cq.drop_first() =~= rq.map_values(|c: char| (c as u32) as int));
        lemma_digits_value_bounds(rp);
        lemma_digits_value_bounds(rq);
        let n = (p.len() - 1) as nat;
        let w = pow10(n);
        let (dp, dq) = (digit_value(p[0]), digit_value(q[0]));
        assert(is_digit(p[0]) && is_digit(q[0]));
        let (vp, vq) = (digits_value(rp) as int, digits_value(rq) as int);
        assert(digits_value(p) == dp * w + vp);
        assert(digits_value(q) == dq * w + vq);
        if dp < dq {
            assert(dp * w + vp < dq * w + vq) by (nonlinear_arith)
                requires
                    dp < dq,
                    0 <= vp < w,
                    0 <= vq,
            ;
        } else if dp > dq {
            assert(dp * w + vp > dq * w + vq) by (nonlinear_arith)
                requires
                    dp > dq,
                    0 <= vq < w,
                    0 <= vp,
            ;
        }
    }
}

proof fn lemma_lex_concat(a: Seq<int>, b: Seq<int>, c: Seq<int>, d: Seq<int>)
    requires
        a.len() == c.len(),
    ensures
        lex_cmp(a + b, c + d) == if lex_cmp(a, c) == Ordering::Equal {
            lex_cmp(b, d)
        } else {
            lex_cmp(a, c)
        },
    decreases a.len(),
{
    if a.len() == 0 {
        assert(a + b =~= b);
        assert(c + d =~= d);
    } else {
        lemma_lex_concat(a.drop_first(), b, c.drop_first(), d);
        assert((a + b).drop_first() =~= a.drop_first() + b);
        assert((c + d).drop_first() =~= c.drop_first() + d);
    }
}

/// Digit runs compare as the numbers they denote, however long; runs that
/// denote the same number put the one with fewer leading zeros first.
pub proof fn lemma_digit_runs_by_magnitude(x: Seq<char>, y: Seq<char>, ignore_case: bool)
    requires
        all_digits(x),
        all_digits(y),
    ensures
        natural_cmp(x, y, ignore_case) == magnitude_cmp(x, y),
{
    lemma_sort_key_of_digits(x, ignore_case);
    lemma_sort_key_of_digits(y, ignore_case);
    if x.len() == 0 || y.len() == 0 {
        if x.len() > 0 {
            lemma_sort_key_nonempty(x, ignore_case);
        }
        if y.len() > 0 {
            lemma_sort_key_nonempty(y, ignore_case);
        }
        assert(natural_cmp(x, y, ignore_case) == magnitude_cmp(x, y));
    } else {
        let (sx, sy) = (significant(x), significant(y));
        lemma_significant_digits(x);
        lemma_significant_digits(y);
        lemma_leading_zeros_value(x);
        lemma_leading_zeros_value(y);
        lemma_digits_value_bounds(sx);
        lemma_digits_value_bounds(sy);
        let (kx, ky) = (number_key(x), number_key(y));
        let cx = sx.map_values(|c: char| (c as u32) as int);
        let cy = sy.map_values(|c: char| (c as u32) as int);
        let (hx, hy) = (seq![0int, sx.len() as int], seq![0int, sy.len() as int]);
        assert(kx == hx + cx + seq![x.len() as int]);
        assert(ky == hy + cy + seq![y.len() as int]);
        if sx.len() != sy.len() {
            assert(kx[0] == 0 && ky[0] == 0);
            assert(kx.drop_first()[0] == sx.len());
            assert(ky.drop_first()[0] == sy.len());
            if sx.len() < sy.len() {
                lemma_pow10_monotone(sx.len(), (sy.len() - 1) as nat);
                assert(lex_cmp(kx.drop_first(), ky.drop_first()) == Ordering::Less);
                assert(lex_cmp(kx, ky) == Ordering::Less);
                assert(digits_value(x) < digits_value(y));
            } else {
                lemma_pow10_monotone(sy.len(), (sx.len() - 1) as nat);
                assert(lex_cmp(kx.drop_first(), ky.drop_first()) == Ordering::Greater);
                assert(lex_cmp(kx, ky) == Ordering::Greater);
                assert(digits_value(x) > digits_value(y));
            }
        } else {
            lemma_lex_concat(hx + cx, seq![x.len() as int], hy + cy, seq![y.len() as int]);
            lemma_lex_concat(hx, cx, hy, cy);
            assert(hx =~= hy);
            lemma_lex_reflexive(hx);
            lemma_same_length_digits(sx, sy);
            lemma_lex_single(x.len() as int, y.len() as int);
            assert(lex_cmp(kx, ky) == magnitude_cmp(x, y));
        }
        assert(natural_cmp(x, y, ignore_case) == lex_cmp(kx, ky));
    }
}

proof fn lemma_lex_single(a: int, b: int)
    ensures
        lex_cmp(seq![a], seq![b]) == if a < b {
            Ordering::Less
        } else if a > b {
            Ordering::Greater
        } else {
            Ordering::Equal
        },
{
    assert(seq![a].drop_first() =~= Seq::<int>::empty());
    assert(seq![b].drop_first() =~= Seq::<int>::empty());
    assert(seq![a][0] == a && seq![b][0] == b);
    assert(lex_cmp(Seq::<int>::empty(), Seq::<int>::empty()) == Ordering::Equal);
}

proof fn lemma_sort_key_of_digits(x: Seq<char>, ignore_case: bool)
    requires
        all_digits(x),
    ensures
        sort_key(x, ignore_case) == if x.len() == 0 {
            Seq::<int>::empty()
        } else {
            number_key(x)
        },
{
    if x.len() > 0 {
        lemma_digit_run_len_is(x, x.len() as int);
        assert(x.take(x.len() as int) =~= x);
        assert(x.skip(x.len() as int) =~= Seq::<char>::empty());
        assert(sort_key(x.skip(x.len() as int), ignore_case) =~= Seq::<int>::empty());
        assert(number_key(x) + Seq::<int>::empty() =~= number_key(x));
    } else {
        assert(sort_key(x, ignore_case) =~= Seq::<int>::empty());
    }
}

proof fn lemma_significant_digits(x: Seq<char>)
    requires
        all_digits(x),
    ensures
        all_digits(significant(x)),
        significant(x).len() > 0 ==> significant(x)[0] != '0',
{
    lemma_zero_run_len_bounds(x);
    let z = zero_run_len(x) as int;
    let sx = significant(x);
    assert forall|i: int| 0 <= i < sx.len() implies is_digit(#[trigger] sx[i]) by {
        assert(sx[i] == x[i + z]);
    }
}

proof fn lemma_sort_key_digit_prefix(x: Seq<char>, u: Seq<char>, ignore_case: bool)
    requires
        all_digits(x),
        x.len() > 0,
        u.len() == 0 || !is_digit(u[0]),
    ensures
        sort_key(x + u, ignore_case) == number_key(x) + sort_key(u, ignore_case),
{
    let s = x + u;
    assert forall|i: int| 0 <= i < x.len() implies is_digit(#[trigger] s[i]) by {
        assert(s[i] == x[i]);
    }
    lemma_digit_run_len_is(s, x.len() as int);
    assert(s.take(x.len() as int) =~= x);
    assert(s.skip(x.len() as int) =~= u);
}

proof fn lemma_sort_key_char_prefix(c: char, u: Seq<char>, ignore_case: bool)
    requires
        !is_digit(c),
    ensures
        sort_key(seq![c] + u, ignore_case) == seq![1int, char_key(c, ignore_case)] + sort_key(
            u,
            ignore_case,
        ),
{
    let s = seq![c] + u;
    assert(s[0] == c);
    assert(s.drop_first() =~= u);
}

/// Two strings that both start with a maximal digit run compare by those
/// runs' magnitude first, and by what follows the runs when that ties.
pub proof fn lemma_compare_digit_runs(
    x: Seq<char>,
    u: Seq<char>,
    y: Seq<char>,
    v: Seq<char>,
    ignore_case: bool,
)
    requires
        all_digits(x),
        all_digits(y),
        x.len() > 0,
        y.len() > 0,
        u.len() == 0 || !is_digit(u[0]),
        v.len() == 0 || !is_digit(v[0]),
    ensures
        natural_cmp(x + u, y + v, ignore_case) == if magnitude_cmp(x, y) == Ordering::Equal {
            natural_cmp(u, v, ignore_case)
        } else {
            magnitude_cmp(x, y)
        },
{
    lemma_sort_key_digit_prefix(x, u, ignore_case);
    lemma_sort_key_digit_prefix(y, v, ignore_case);
    lemma_digit_runs_by_magnitude(x, y, ignore_case);
    lemma_sort_key_of_digits(x, ignore_case);
    lemma_sort_key_of_digits(y, ignore_case);
    let (kx, ky) = (number_key(x), number_key(y));
    let (ku, kv) = (sort_key(u, ignore_case), sort_key(v, ignore_case));
    if kx.len() == ky.len() {
        lemma_lex_concat(kx, ku, ky, kv);
    } else {
        let (hx, hy) = (kx.take(2), ky.take(2));
        assert(kx =~= hx + kx.skip(2));
        assert(ky =~= hy + ky.skip(2));
        assert(kx + ku =~= hx + (kx.skip(2) + ku));
        assert(ky + kv =~= hy + (ky.skip(2) + kv));
        lemma_lex_concat(hx, kx.skip(2), hy, ky.skip(2));
        lemma_lex_concat(hx, kx.skip(2) + ku, hy, ky.skip(2) + kv);
        if lex_cmp(hx, hy) == Ordering::Equal {
            lemma_lex_equal(hx, hy);
            assert(hx[1] == kx[1] && hy[1] == ky[1]);
        }
    }
}

/// Two strings that both start with a character outside any digit run
/// compare by those characters first, and by what follows when they tie.
pub proof fn lemma_compare_text_chars(
    c: char,
    u: Seq<char>,
    d: char,
    v: Seq<char>,
    ignore_case: bool,
)
    requires
        !is_digit(c),
        !is_digit(d),
    ensures
        natural_cmp(seq![c] + u, seq![d] + v, ignore_case) == if char_key(c, ignore_case)
            < char_key(d, ignore_case) {
            Ordering::Less
        } else if char_key(c, ignore_case) > char_key(d, ignore_case) {
            Ordering::Greater
        } else {
            natural_cmp(u, v, ignore_case)
        },
{
    lemma_sort_key_char_prefix(c, u, ignore_case);
    lemma_sort_key_char_prefix(d, v, ignore_case);
    let (kc, kd) = (char_key(c, ignore_case), char_key(d, ignore_case));
    let (ku, kv) = (sort_key(u, ignore_case), sort_key(v, ignore_case));
    lemma_lex_concat(seq![1int, kc], ku, seq![1int, kd], kv);
    lemma_lex_concat(seq![1int], seq![kc], seq![1int], seq![kd]);
    assert(seq![1int, kc] =~= seq![1int] + seq![kc]);
    assert(seq![1int, kd] =~= seq![1int] + seq![kd]);
    lemma_lex_single(1, 1);
    lemma_lex_single(kc, kd);
}

/// A string that starts with a digit comes before one that starts with any
/// other character, and the empty string comes before every other string.
pub proof fn lemma_compare_digit_before_text(s: Seq<char>, t: Seq<char>, ignore_case: bool)
    requires
        t.len() > 0,
        s.len() == 0 || (is_digit(s[0]) && !is_digit(t[0])),
    ensures
        natural_cmp(s, t, ignore_case) == Ordering::Less,
{
    lemma_sort_key_nonempty(t, ignore_case);
    if s.len() > 0 {
        lemma_sort_key_nonempty(s, ignore_case);
    }
}

/// The characters of `s`, in order.
fn chars_of(s: &str) -> (r: Vec<char>)
    ensures
        r@ == s@,
{
    let mut out: Vec<char> = Vec::new();
    for c in it: s.chars()
        invariant
            out@ == it.seq().take(it.index() as int),
    {
        out.push(c);
    }
    assert(out@ =~= s@);
    out
}

/// The integers a key vector stands for.
pub open spec fn ints(v: Seq<u64>) -> Seq<int> {
    v.map_values(|x: u64| x as int)
}

proof fn lemma_ints_push(v: Seq<u64>, x: u64)
    ensures
        ints(v.push(x)) == ints(v) + seq![x as int],
{
    assert(ints(v.push(x)) =~= ints(v) + seq![x as int]);
}

/// A maximal digit run found by a scan determines `digit_run_len`.
proof fn lemma_digit_run_len_is(t: Seq<char>, k: int)
    requires
        0 <= k <= t.len(),
        forall|i: int| 0 <= i < k ==> is_digit(#[trigger] t[i]),
        k == t.len() || !is_digit(t[k]),
    ensures
        digit_run_len(t) == k,
{
    lemma_digit_run_len_bounds(t);
}

proof fn lemma_zero_run_len_is(t: Seq<char>, k: int)
    requires
        0 <= k <= t.len(),
        forall|i: int| 0 <= i < k ==> #[trigger] t[i] == '0',
        k == t.len() || t[k] != '0',
    ensures
        zero_run_len(t) == k,
{
    lemma_zero_run_len_bounds(t);
}

/// The sort key of `s`, as a vector.
fn sort_key_of(s: &Vec<char>, ignore_case: bool) -> (r: Vec<u64>)
    ensures
        ints(r@) == sort_key(s@, ignore_case),
{
    let mut out: Vec<u64> = Vec::new();
    let mut i: usize = 0;
    proof {
        assert(s@.skip(0) =~= s@);
        assert(ints(out@) + sort_key(s@, ignore_case) =~= sort_key(s@, ignore_case));
    }
    while i < s.len()
        invariant
            i <= s.len(),
            ints(out@) + sort_key(s@.skip(i as int), ignore_case) == sort_key(s@, ignore_case),
        decreases s.len() - i,
    {
        let ghost before = ints(out@);
        let ghost t = s@.skip(i as int);
        let c = s[i];
        if '0' <= c && c <= '9' {
            let mut j: usize = i;
            while j < s.len() && '0' <= s[j] && s[j] <= '9'
                invariant
                    i <= j <= s.len(),
                    forall|k: int| i <= k < j ==> is_digit(#[trigger] s@[k]),
                decreases s.len() - j,
            {
                j += 1;
            }
            let mut z: usize = i;
            while z < j && s[z] == '0'
                invariant
                    i <= z <= j <= s.len(),
                    forall|k: int| i <= k < z ==> #[trigger] s@[k] == '0',
                decreases j - z,
            {
                z += 1;
            }
            let ghost run = s@.subrange(i as int, j as int);
            proof {
                assert forall|k: int| 0 <= k < j - i implies is_digit(#[trigger] t[k]) by {
                    assert(t[k] == s@[i + k]);
                }
                lemma_digit_run_len_is(t, j - i);
                assert forall|k: int| 0 <= k < z - i implies #[trigger] run[k] == '0' by {
                    assert(run[k] == s@[i + k]);
                }
                lemma_zero_run_len_is(run, z - i);
                assert(t.take(j - i) =~= run);
                assert(t.skip(j - i) =~= s@.skip(j as int));
            }
            let ghost sig = significant(run);
            proof {
                assert(sig =~= s@.subrange(z as int, j as int));
            }
            let ghost at_start = out@;
            out.push(0);
            proof { lemma_ints_push(at_start, 0); }
            let ghost after_tag = out@;
            out.push((j - z) as u64);
            proof {
                lemma_ints_push(after_tag, (j - z) as u64);
                assert(s@.subrange(z as int, z as int).map_values(|c: char| (c as u32) as int) =~= seq![]);
                assert(ints(out@) =~= before + seq![0int, sig.len() as int] + s@.subrange(
                    z as int, z as int).map_values(|c: char| (c as u32) as int));
            }
            let mut k: usize = z;
            while k < j
                invariant
                    z <= k <= j <= s.len(),
                    sig == s@.subrange(z as int, j as int),
                    ints(out@) == before + seq![0int, sig.len() as int] + s@.subrange(
                        z as int,
                        k as int,
                    ).map_values(|c: char| (c as u32) as int),
                decreases j - k,
            {
                let ghost prev = out@;
                let d: u32 = s[k] as u32;
                out.push(d as u64);
                proof {
                    lemma_ints_push(prev, d as u64);
                    assert(s@.subrange(z as int, k + 1).map_values(|c: char| (c as u32) as int)
                        =~= s@.subrange(z as int, k as int).map_values(|c: char| (c as u32) as int)
                        + seq![(s@[k as int] as u32) as int]);
                }
                k += 1;
            }
            let ghost prev = out@;
            out.push((j - i) as u64);
            proof {
                lemma_ints_push(prev, (j - i) as u64);
                assert(ints(out@) =~= before + number_key(run));
            }
            i = j;
        } else {
            let ghost prev0 = out@;
            out.push(1);
            proof { lemma_ints_push(prev0, 1); }
            let ghost prev = out@;
            let code: u32 = c as u32;
            let key: u64 = if ignore_case && 'A' <= c && c <= 'Z' {
                code as u64 + 32
            } else {
                code as u64
            };
            out.push(key);
            proof {
                assert(key as int == char_key(c, ignore_case));
                lemma_ints_push(prev, key);
                assert(t.drop_first() =~= s@.skip(i + 1));
                assert(ints(out@) =~= before + seq![1int, char_key(c, ignore_case)]);
            }
            i += 1;
        }
    }
    proof {
        assert(ints(out@) =~= sort_key(s@, ignore_case));
    }
    out
}

/// Lexicographic comparison of two keys.
fn compare_keys(x: &Vec<u64>, y: &Vec<u64>) -> (r: Ordering)
    ensures
        r == lex_cmp(ints(x@), ints(y@)),
{
    let mut i: usize = 0;
    proof {
        assert(ints(x@).skip(0) =~= ints(x@));
        assert(ints(y@).skip(0) =~= ints(y@));
    }
    while i < x.len() && i < y.len()
        invariant
            i <= x.len(),
            i <= y.len(),
            lex_cmp(ints(x@), ints(y@)) == lex_cmp(ints(x@).skip(i as int), ints(y@).skip(i as int)),
        decreases x.len() - i,
    {
        if x[i] < y[i] {
            return Ordering::Less;
        }
        if x[i] > y[i] {
            return Ordering::Greater;
        }
        proof {
            assert(ints(x@).skip(i as int).drop_first() =~= ints(x@).skip(i + 1));
            assert(ints(y@).skip(i as int).drop_first() =~= ints(y@).skip(i + 1));
        }
        i += 1;
    }
    if i < x.len() {
        Ordering::Greater
    } else if i < y.len() {
        Ordering::Less
    } else {
        Ordering::Equal
    }
}

/// Compares two strings in natural order: digit runs by magnitude, other
/// characters by code point (ASCII letters folded to lower case when
/// `ignore_case` holds).
pub fn compare(a: &str, b: &str, ignore_case: bool) -> (r: Ordering)
    ensures
        r == natural_cmp(a@, b@, ignore_case),
{
    let ka = sort_key_of(&chars_of(a), ignore_case);
    let kb = sort_key_of(&chars_of(b), ignore_case);
    compare_keys(&ka, &kb)
}

} // verus!
