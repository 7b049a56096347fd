//! String ordering used by the emitter: plain lexicographic order, and a
//! natural order that compares runs of digits by their numeric value, so
//! that `R2` sorts before `R10`.

use vstd::assert_seqs_equal;
use vstd::prelude::*;

verus! {

/// Outcome of comparing two strings.
#[derive(Clone, Copy, Debug, PartialEq, Eq, Structural)]
pub enum StrOrder {
    Less,
    Equal,
    Greater,
}

/// Lexicographic comparison of two character sequences by code point.
pub open spec fn lex_cmp(a: Seq<char>, b: Seq<char>) -> StrOrder
    decreases a.len(),
{
    if a.len() == 0 && b.len() == 0 {
        StrOrder::Equal
    } else if a.len() == 0 {
        StrOrder::Less
    } else if b.len() == 0 {
        StrOrder::Greater
    } else if a[0] != b[0] {
        if (a[0] as u32) < (b[0] as u32) {
            StrOrder::Less
        } else {
            StrOrder::Greater
        }
    } else {
        lex_cmp(a.drop_first(), b.drop_first())
    }
}

/// Compares two strings lexicographically by code point.
pub fn lex_compare(a: &str, b: &str) -> (r: StrOrder)
    ensures
        r == lex_cmp(a@, b@),
{
    let a_len = a.unicode_len();
    let b_len = b.unicode_len();
    let mut i: usize = 0;
    proof {
        assert(a@.skip(0) =~= a@);
        assert(b@.skip(0) =~= b@);
    }
    while i < a_len && i < b_len
        invariant
            i <= a_len,
            i <= b_len,
            a_len == a@.len(),
            b_len == b@.len(),
            lex_cmp(a@, b@) == lex_cmp(a@.skip(i as int), b@.skip(i as int)),
        decreases a_len - i,
    {
        let ca = a.get_char(i);
        let cb = b.get_char(i);
        proof {
            assert(a@.skip(i as int)[0] == a@[i as int]);
            assert(b@.skip(i as int)[0] == b@[i as int]);
        }
        if ca != cb {
            if (ca as u32) < (cb as u32) {
                return StrOrder::Less;
            } else {
                return StrOrder::Greater;
            }
        }
        proof {
            assert(a@.skip(i as int).drop_first() =~= a@.skip(i + 1));
            assert(b@.skip(i as int).drop_first() =~= b@.skip(i + 1));
            assert(lex_cmp(a@.skip(i as int), b@.skip(i as int)) == lex_cmp(
                a@.skip(i + 1),
                b@.skip(i + 1),
            ));
        }
        i = i + 1;
    }
    proof {
        if i == a_len && i == b_len {
            assert(a@.skip(i as int).len() == 0);
            assert(b@.skip(i as int).len() == 0);
        } else if i == a_len {
            assert(a@.skip(i as int).len() == 0);
            assert(b@.skip(i as int).len() > 0);
        } else {
            assert(b@.skip(i as int).len() == 0);
            assert(a@.skip(i as int).len() > 0);
        }
    }
    if a_len == b_len {
        StrOrder::Equal
    } else if a_len < b_len {
        StrOrder::Less
    } else {
        StrOrder::Greater
    }
}

/// True for the characters `'0'` through `'9'`.
pub open spec fn is_digit_char(c: char) -> bool {
    48 <= c as u32 && c as u32 <= 57
}

/// Numeric value of a decimal digit character.
pub open spec fn digit_val(c: char) -> nat
    recommends
        is_digit_char(c),
{
    (c as u32 - 48) as nat
}

/// Length of the leading run of decimal digits.
pub open spec fn run_len(s: Seq<char>) -> nat
    decreases s.len(),
{
    if s.len() > 0 && is_digit_char(s[0]) {
        1 + run_len(s.drop_first())
    } else {
        0
    }
}

/// Numeric value of a sequence of decimal digits.
pub open spec fn run_val(s: Seq<char>) -> nat
    recommends
        all_digits(s),
    decreases s.len(),
{
    if s.len() == 0 {
        0
    } else {
        run_val(s.drop_last()) * 10 + digit_val(s.last())
    }
}

pub open spec fn all_digits(s: Seq<char>) -> bool {
    forall|k: int| 0 <= k < s.len() ==> is_digit_char(#[trigger] s[k])
}

pub open spec fn pow10(n: nat) -> nat
    decreases n,
{
    if n == 0 {
        1
    } else {
        10 * pow10((n - 1) as nat)
    }
}

/// Characters with the same code point are the same character.
pub proof fn lemma_char_eq_u32(c1: char, c2: char)
    requires
        c1 as u32 == c2 as u32,
    ensures
        c1 == c2,
{
    vstd::utf8::char_u32_cast(c1, c1 as u32);
    vstd::utf8::char_u32_cast(c2, c2 as u32);
}

pub proof fn lemma_run_len_le(s: Seq<char>)
    ensures
        run_len(s) <= s.len(),
    decreases s.len(),
{
    if s.len() > 0 && is_digit_char(s[0]) {
        lemma_run_len_le(s.drop_first());
    }
}

/// A prefix of digits, ended by the end of the string or a non-digit, is
/// exactly the leading digit run.
pub proof fn lemma_run_len_of(s: Seq<char>, n: int)
    requires
        0 <= n <= s.len(),
        forall|k: int| 0 <= k < n ==> is_digit_char(#[trigger] s[k]),
        n < s.len() ==> !is_digit_char(s[n]),
    ensures
        run_len(s) == n,
    decreases n,
{
    if n == 0 {
    } else {
        assert(is_digit_char(s[0]));
        lemma_run_len_of(s.drop_first(), n - 1);
    }
}

proof fn lemma_run_val_zeros(s: Seq<char>)
    requires
        forall|k: int| 0 <= k < s.len() ==> s[k] == '0',
    ensures
        run_val(s) == 0,
    decreases s.len(),
{
    if s.len() > 0 {
        lemma_run_val_zeros(s.drop_last());
        assert(s.last() == '0');
        assert(digit_val('0') == 0);
    }
}

/// Leading zeros do not change the numeric value of a digit run.
pub proof fn lemma_run_val_strip(s: Seq<char>, k: int)
    requires
        0 <= k <= s.len(),
        forall|idx: int| 0 <= idx < k ==> s[idx] == '0',
    ensures
        run_val(s) == run_val(s.skip(k)),
    decreases s.len(),
{
    if s.len() == k {
        lemma_run_val_zeros(s);
        assert(s.skip(k) =~= Seq::<char>::empty());
    } else if s.len() > k {
        lemma_run_val_strip(s.drop_last(), k);
        assert(s.skip(k).drop_last() =~= s.drop_last().skip(k));
        assert(s.skip(k).last() == s.last());
    }
}

pub proof fn lemma_pow10_pos(n: nat)
    ensures
        pow10(n) >= 1,
    decreases n,
{
    if n > 0 {
        lemma_pow10_pos((n - 1) as nat);
    }
}

pub proof fn lemma_pow10_mono(m: nat, n: nat)
    requires
        m <= n,
    ensures
        pow10(m) <= pow10(n),
    decreases n,
{
    if m < n {
        lemma_pow10_mono(m, (n - 1) as nat);
    }
}

/// The value of a digit run is bounded by ten to its length.
pub proof fn lemma_run_val_upper(s: Seq<char>)
    requires
        all_digits(s),
    ensures
        run_val(s) < pow10(s.len()),
    decreases s.len(),
{
    if s.len() > 0 {
        assert(all_digits(s.drop_last())) by {
            assert(forall|k: int|
                0 <= k < s.len() - 1 ==> #[trigger] s.drop_last()[k] == s[k]);
        }
        lemma_run_val_upper(s.drop_last());
        assert(is_digit_char(s.last()));
        assert(digit_val(s.last()) <= 9);
    }
}

/// Front decomposition of a digit run's value.
pub proof fn lemma_run_val_front(s: Seq<char>)
    requires
        s.len() > 0,
    ensures
        run_val(s) == digit_val(s[0]) * pow10((s.len() - 1) as nat) + run_val(s.drop_first()),
    decreases s.len(),
{
    if s.len() == 1 {
        assert(s.drop_last() =~= Seq::<char>::empty());
        assert(s.drop_first() =~= Seq::<char>::empty());
        assert(s.last() == s[0]);
        assert(run_val(s) == run_val(s.drop_last()) * 10 + digit_val(s.last()));
        assert(run_val(Seq::<char>::empty()) == 0);
        assert(pow10(0) == 1);
        assert(digit_val(s[0]) * 1 == digit_val(s[0]));
    } else {
        let dl = s.drop_last();
        lemma_run_val_front(dl);
        assert(dl.drop_first() =~= s.drop_first().drop_last());
        assert(s.drop_first().last() == s.last());
        assert(dl[0] == s[0]);
        let p = pow10((s.len() - 2) as nat);
        assert(run_val(s) == run_val(dl) * 10 + digit_val(s.last()));
        assert(run_val(s) == (digit_val(s[0]) * p + run_val(s.drop_first().drop_last())) * 10
            + digit_val(s.last()));
        assert((digit_val(s[0]) * p + run_val(s.drop_first().drop_last())) * 10
            == digit_val(s[0]) * p * 10 + run_val(s.drop_first().drop_last()) * 10)
            by (nonlinear_arith);
        assert(digit_val(s[0]) * p * 10 == digit_val(s[0]) * (10 * p)) by (nonlinear_arith);
        assert(pow10((s.len() - 1) as nat) == 10 * p);
        assert(s.drop_first().len() > 0);
        assert(run_val(s.drop_first()) == run_val(s.drop_first().drop_last()) * 10 + digit_val(
            s.drop_first().last(),
        ));
        assert(run_val(s) == digit_val(s[0]) * (10 * p) + (run_val(s.drop_first().drop_last())
            * 10 + digit_val(s.last())));
    }
}

/// A digit run with a nonzero leading digit is at least ten to one less
/// than its length.
pub proof fn lemma_run_val_lower(s: Seq<char>)
    requires
        all_digits(s),
        s.len() > 0,
        s[0] != '0',
    ensures
        run_val(s) >= pow10((s.len() - 1) as nat),
{
    lemma_run_val_front(s);
    assert(is_digit_char(s[0]));
    assert(digit_val(s[0]) >= 1) by {
        assert(s[0] as u32 != 48) by {
            assert('0' as u32 == 48);
            if s[0] as u32 == 48 {
                lemma_char_eq_u32(s[0], '0');
            }
        }
    }
    let p = pow10((s.len() - 1) as nat);
    assert(digit_val(s[0]) * p >= 1 * p) by (nonlinear_arith)
        requires
            digit_val(s[0]) >= 1,
            p >= 0,
    ;
}

/// Two strings are lexicographically equal exactly when they are equal.
pub proof fn lemma_lex_cmp_equal(s: Seq<char>, t: Seq<char>)
    ensures
        lex_cmp(s, t) == StrOrder::Equal <==> s =~= t,
    decreases s.len(),
{
    if s.len() > 0 && t.len() > 0 && s[0] == t[0] {
        lemma_lex_cmp_equal(s.drop_first(), t.drop_first());
        if s.drop_first() =~= t.drop_first() {
            assert_seqs_equal!(s == t, k => {
                if k >= 1 {
                    assert(s[k] == s.drop_first()[k - 1]);
                    assert(t[k] == t.drop_first()[k - 1]);
                }
            });
        }
        if s =~= t {
            assert(s.drop_first() =~= t.drop_first());
        }
    }
}

/// On equal-length digit runs, lexicographic order agrees with numeric
/// order, and equality of values means equality of runs.
pub proof fn lemma_digit_lex(s: Seq<char>, t: Seq<char>)
    requires
        all_digits(s),
        all_digits(t),
        s.len() == t.len(),
    ensures
        (lex_cmp(s, t) == StrOrder::Less <==> run_val(s) < run_val(t)),
        (run_val(s) == run_val(t) <==> s =~= t),
    decreases s.len(),
{
    if s.len() == 0 {
        assert(s =~= t);
    } else {
        lemma_run_val_front(s);
        lemma_run_val_front(t);
        let n = (s.len() - 1) as nat;
        let p = pow10(n);
        assert(all_digits(s.drop_first()) && all_digits(t.drop_first())) by {
            assert(forall|k: int|
                0 <= k < s.len() - 1 ==> #[trigger] s.drop_first()[k] == s[k + 1]);
            assert(forall|k: int|
                0 <= k < t.len() - 1 ==> #[trigger] t.drop_first()[k] == t[k + 1]);
        }
        lemma_run_val_upper(s.drop_first());
        lemma_run_val_upper(t.drop_first());
        lemma_digit_lex(s.drop_first(), t.drop_first());
        if s[0] == t[0] {
            if s.drop_first() =~= t.drop_first() {
                assert_seqs_equal!(s == t, k => {
                    if k >= 1 {
                        assert(s[k] == s.drop_first()[k - 1]);
                        assert(t[k] == t.drop_first()[k - 1]);
                    }
                });
            }
            if s =~= t {
                assert(s.drop_first() =~= t.drop_first());
            }
        } else {
            assert(s[0] as u32 != t[0] as u32) by {
                if s[0] as u32 == t[0] as u32 {
                    lemma_char_eq_u32(s[0], t[0]);
                }
            }
            assert(digit_val(s[0]) != digit_val(t[0]));
            if digit_val(s[0]) < digit_val(t[0]) {
                assert(digit_val(s[0]) * p + run_val(s.drop_first()) < digit_val(t[0]) * p
                    + run_val(t.drop_first())) by (nonlinear_arith)
                    requires
                        digit_val(s[0]) < digit_val(t[0]),
                        run_val(s.drop_first()) < p,
                ;
                assert((s[0] as u32) < (t[0] as u32));
            } else {
                assert(digit_val(s[0]) * p + run_val(s.drop_first()) > digit_val(t[0]) * p
                    + run_val(t.drop_first())) by (nonlinear_arith)
                    requires
                        digit_val(s[0]) > digit_val(t[0]),
                        run_val(t.drop_first()) < p,
                ;
                assert((s[0] as u32) > (t[0] as u32));
            }
        }
    }
}

/// Natural comparison of two character sequences: runs of decimal digits
/// compare by numeric value (ties broken by run length, so that the order
/// stays total in the presence of leading zeros), all other characters by
/// code point.
pub open spec fn nat_cmp(a: Seq<char>, b: Seq<char>) -> StrOrder
    decreases a.len() + b.len(),
    via nat_cmp_decreases
{
    if a.len() == 0 && b.len() == 0 {
        StrOrder::Equal
    } else if a.len() == 0 {
        StrOrder::Less
    } else if b.len() == 0 {
        StrOrder::Greater
    } else if is_digit_char(a[0]) && is_digit_char(b[0]) {
        let la = run_len(a) as int;
        let lb = run_len(b) as int;
        let va = run_val(a.take(la));
        let vb = run_val(b.take(lb));
        if va < vb {
            StrOrder::Less
        } else if va > vb {
            StrOrder::Greater
        } else if la < lb {
            StrOrder::Less
        } else if la > lb {
            StrOrder::Greater
        } else {
            nat_cmp(a.skip(la), b.skip(lb))
        }
    } else if a[0] != b[0] {
        if (a[0] as u32) < (b[0] as u32) {
            StrOrder::Less
        } else {
            StrOrder::Greater
        }
    } else {
        nat_cmp(a.drop_first(), b.drop_first())
    }
}

#[via_fn]
proof fn nat_cmp_decreases(a: Seq<char>, b: Seq<char>) {
    lemma_run_len_le(a);
    lemma_run_len_le(b);
    if a.len() > 0 && b.len() > 0 && is_digit_char(a[0]) && is_digit_char(b[0]) {
        assert(run_len(a) == 1 + run_len(a.drop_first()));
        assert(run_len(b) == 1 + run_len(b.drop_first()));
    }
}

/// First position at or after `from` that does not hold a decimal digit.
fn run_end(s: &str, len: usize, from: usize) -> (e: usize)
    requires
        len == s@.len(),
        from <= len,
    ensures
        from <= e <= len,
        forall|k: int| from <= k < e ==> is_digit_char(#[trigger] s@[k]),
        e < len ==> !is_digit_char(s@[e as int]),
        run_len(s@.skip(from as int)) == e - from,
{
    let mut e = from;
    while e < len
        invariant
            from <= e <= len,
            len == s@.len(),
            forall|k: int| from <= k < e ==> is_digit_char(#[trigger] s@[k]),
        decreases len - e,
    {
        let c = s.get_char(e);
        let u = c as u32;
        if !(48 <= u && u <= 57) {
            proof {
                lemma_run_end_spec(s@, from as int, e as int);
            }
            return e;
        }
        e = e + 1;
    }
    proof {
        lemma_run_end_spec(s@, from as int, e as int);
    }
    e
}

proof fn lemma_run_end_spec(s: Seq<char>, from: int, e: int)
    requires
        0 <= from <= e <= s.len(),
        forall|k: int| from <= k < e ==> is_digit_char(#[trigger] s[k]),
        e < s.len() ==> !is_digit_char(s[e]),
    ensures
        run_len(s.skip(from)) == e - from,
{
    let t = s.skip(from);
    assert(forall|k: int| 0 <= k < t.len() ==> t[k] == s[from + k]);
    lemma_run_len_of(t, e - from);
}

/// First position in `[from, to)` that does not hold a `'0'`.
fn skip_zeros(s: &str, len: usize, from: usize, to: usize) -> (p: usize)
    requires
        len == s@.len(),
        from <= to <= len,
    ensures
        from <= p <= to,
        forall|k: int| from <= k < p ==> s@[k] == '0',
        p < to ==> s@[p as int] != '0',
{
    let mut p = from;
    while p < to
        invariant
            from <= p <= to,
            to <= len,
            len == s@.len(),
            forall|k: int| from <= k < p ==> s@[k] == '0',
        decreases to - p,
    {
        if s.get_char(p) != '0' {
            return p;
        }
        p = p + 1;
    }
    p
}

/// Compares two strings in natural order.
#[verifier::rlimit(50)]
pub fn natural_compare(a: &str, b: &str) -> (r: StrOrder)
    ensures
        r == nat_cmp(a@, b@),
{
    let a_len = a.unicode_len();
    let b_len = b.unicode_len();
    let mut i: usize = 0;
    let mut j: usize = 0;
    proof {
        assert(a@.skip(0) =~= a@);
        assert(b@.skip(0) =~= b@);
    }
    while i < a_len && j < b_len
        invariant
            i <= a_len,
            j <= b_len,
            a_len == a@.len(),
            b_len == b@.len(),
            nat_cmp(a@, b@) == nat_cmp(a@.skip(i as int), b@.skip(j as int)),
        decreases a_len - i + b_len - j,
    {
        let ghost sa_all = a@.skip(i as int);
        let ghost sb_all = b@.skip(j as int);
        let ca = a.get_char(i);
        let cb = b.get_char(j);
        proof {
            assert(sa_all[0] == a@[i as int]);
            assert(sb_all[0] == b@[j as int]);
        }
        let ua = ca as u32;
        let ub = cb as u32;
        let ca_digit = 48 <= ua && ua <= 57;
        let cb_digit = 48 <= ub && ub <= 57;
        if ca_digit && cb_digit {
            let ra = run_end(a, a_len, i);
            let rb = run_end(b, b_len, j);
            let pa = skip_zeros(a, a_len, i, ra);
            let pb = skip_zeros(b, b_len, j, rb);
            let ghost run_a = a@.subrange(i as int, ra as int);
            let ghost run_b = b@.subrange(j as int, rb as int);
            let ghost stripped_a = a@.subrange(pa as int, ra as int);
            let ghost stripped_b = b@.subrange(pb as int, rb as int);
            proof {
                assert(run_a =~= sa_all.take((ra - i) as int));
                assert(run_b =~= sb_all.take((rb - j) as int));
                assert(stripped_a =~= run_a.skip((pa - i) as int));
                assert(stripped_b =~= run_b.skip((pb - j) as int));
                assert(forall|k: int| 0 <= k < run_a.len() ==> run_a[k] == a@[i + k]);
                assert(forall|k: int| 0 <= k < run_b.len() ==> run_b[k] == b@[j + k]);
                lemma_run_val_strip(run_a, (pa - i) as int);
                lemma_run_val_strip(run_b, (pb - j) as int);
                assert(all_digits(stripped_a)) by {
                    assert(forall|k: int|
                        0 <= k < stripped_a.len() ==> stripped_a[k] == a@[pa + k]);
                }
                assert(all_digits(stripped_b)) by {
                    assert(forall|k: int|
                        0 <= k < stripped_b.len() ==> stripped_b[k] == b@[pb + k]);
                }
            }
            let ghost va = run_val(sa_all.take(run_len(sa_all) as int));
            let ghost vb = run_val(sb_all.take(run_len(sb_all) as int));
            proof {
                assert(run_len(sa_all) == ra - i);
                assert(run_len(sb_all) == rb - j);
                assert(va == run_val(stripped_a));
                assert(vb == run_val(stripped_b));
            }
            let la_s = ra - pa;
            let lb_s = rb - pb;
            if la_s < lb_s {
                proof {
                    lemma_run_val_upper(stripped_a);
                    lemma_run_val_lower(stripped_b);
                    lemma_pow10_mono(la_s as nat, (lb_s - 1) as nat);
                    assert(va < vb);
                }
                return StrOrder::Less;
            }
            if la_s > lb_s {
                proof {
                    lemma_run_val_upper(stripped_b);
                    lemma_run_val_lower(stripped_a);
                    lemma_pow10_mono(lb_s as nat, (la_s - 1) as nat);
                    assert(va > vb);
                }
                return StrOrder::Greater;
            }
            let sub_a = a.substring_char(pa, ra);
            let sub_b = b.substring_char(pb, rb);
            let verdict = lex_compare(sub_a, sub_b);
            proof {
                lemma_digit_lex(stripped_a, stripped_b);
            }
            if verdict == StrOrder::Less {
                proof {
                    assert(va < vb);
                }
                return StrOrder::Less;
            }
            if verdict == StrOrder::Greater {
                proof {
                    lemma_lex_cmp_equal(stripped_a, stripped_b);
                    assert(va != vb ==> va > vb);
                    assert(va == vb ==> stripped_a =~= stripped_b);
                    assert(va > vb);
                }
                return StrOrder::Greater;
            }
            proof {
                lemma_lex_cmp_equal(stripped_a, stripped_b);
                assert(stripped_a =~= stripped_b);
                assert(va == vb);
            }
            // The runs hold the same value; shorter run (fewer leading
            // zeros) first.
            if ra - i < rb - j {
                return StrOrder::Less;
            }
            if ra - i > rb - j {
                return StrOrder::Greater;
            }
            proof {
                assert(sa_all.skip((ra - i) as int) =~= a@.skip(ra as int));
                assert(sb_all.skip((rb - j) as int) =~= b@.skip(rb as int));
            }
            i = ra;
            j = rb;
        } else if ca != cb {
            if ua < ub {
                return StrOrder::Less;
            } else {
                proof {
                    if ua == ub {
                        lemma_char_eq_u32(ca, cb);
                    }
                }
                return StrOrder::Greater;
            }
        } else {
            proof {
                assert(sa_all.drop_first() =~= a@.skip(i + 1));
                assert(sb_all.drop_first() =~= b@.skip(j + 1));
            }
            i = i + 1;
            j = j + 1;
        }
    }
    proof {
        if i == a_len {
            assert(a@.skip(i as int).len() == 0);
        }
        if j == b_len {
            assert(b@.skip(j as int).len() == 0);
        }
    }
    if i >= a_len && j >= b_len {
        StrOrder::Equal
    } else if i >= a_len {
        StrOrder::Less
    } else {
        StrOrder::Greater
    }
}

/// Swapping the operands of the lexicographic comparison flips its
/// outcome.
pub proof fn lemma_lex_cmp_flip(a: Seq<char>, b: Seq<char>)
    ensures
        lex_cmp(b, a) == (match lex_cmp(a, b) {
            StrOrder::Less => StrOrder::Greater,
            StrOrder::Equal => StrOrder::Equal,
            StrOrder::Greater => StrOrder::Less,
        }),
    decreases a.len(),
{
    if a.len() > 0 && b.len() > 0 {
        if a[0] != b[0] {
            if a[0] as u32 == b[0] as u32 {
                lemma_char_eq_u32(a[0], b[0]);
            }
        } else {
            lemma_lex_cmp_flip(a.drop_first(), b.drop_first());
        }
    }
}

/// Swapping the operands of the natural comparison flips its outcome.
pub proof fn lemma_nat_cmp_flip(a: Seq<char>, b: Seq<char>)
    ensures
        nat_cmp(b, a) == (match nat_cmp(a, b) {
            StrOrder::Less => StrOrder::Greater,
            StrOrder::Equal => StrOrder::Equal,
            StrOrder::Greater => StrOrder::Less,
        }),
    decreases a.len() + b.len(),
{
    if a.len() == 0 || b.len() == 0 {
    } else if is_digit_char(a[0]) && is_digit_char(b[0]) {
        lemma_run_len_le(a);
        lemma_run_len_le(b);
        assert(run_len(a) == 1 + run_len(a.drop_first()));
        assert(run_len(b) == 1 + run_len(b.drop_first()));
        let la = run_len(a) as int;
        let lb = run_len(b) as int;
        let va = run_val(a.take(la));
        let vb = run_val(b.take(lb));
        if va == vb && la == lb {
            lemma_nat_cmp_flip(a.skip(la), b.skip(lb));
        }
    } else if a[0] != b[0] {
        if a[0] as u32 == b[0] as u32 {
            lemma_char_eq_u32(a[0], b[0]);
        }
    } else {
        lemma_nat_cmp_flip(a.drop_first(), b.drop_first());
    }
}

/// Strict lexicographic order composes transitively.
pub proof fn lemma_lex_cmp_trans_less(a: Seq<char>, b: Seq<char>, c: Seq<char>)
    requires
        lex_cmp(a, b) == StrOrder::Less,
        lex_cmp(b, c) == StrOrder::Less,
    ensures
        lex_cmp(a, c) == StrOrder::Less,
    decreases a.len() + b.len() + c.len(),
{
    if a.len() == 0 {
        assert(b.len() > 0);
        assert(c.len() > 0);
    } else {
        assert(b.len() > 0);
        assert(c.len() > 0);
        if a[0] != b[0] {
            assert((a[0] as u32) < (b[0] as u32));
            if b[0] != c[0] {
                assert((b[0] as u32) < (c[0] as u32));
                assert((a[0] as u32) < (c[0] as u32));
                assert(a[0] != c[0]) by {
                    if a[0] == c[0] {
                        assert((a[0] as u32) == (c[0] as u32));
                    }
                }
            } else {
                assert(a[0] != c[0]) by {
                    if a[0] == c[0] {
                        assert((a[0] as u32) == (b[0] as u32));
                        lemma_char_eq_u32(a[0], b[0]);
                    }
                }
            }
        } else {
            if b[0] != c[0] {
                assert((b[0] as u32) < (c[0] as u32));
                assert(a[0] != c[0]) by {
                    if a[0] == c[0] {
                        assert((b[0] as u32) == (c[0] as u32));
                        lemma_char_eq_u32(b[0], c[0]);
                    }
                }
                assert((a[0] as u32) < (c[0] as u32));
            } else {
                lemma_lex_cmp_trans_less(a.drop_first(), b.drop_first(), c.drop_first());
            }
        }
    }
}

} // verus!
