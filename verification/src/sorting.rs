//! Deterministic sorting used by the emitter. Sorting is specified as an
//! insertion sort at the specification level; the executable sorts produce
//! exactly the sequence the specification names.

use crate::order::{lex_cmp, lex_compare, nat_cmp, natural_compare, StrOrder};
use vstd::multiset::Multiset;
use vstd::prelude::*;

verus! {

/// Inserts `x` in front of the first element that `x` is strictly below.
pub open spec fn insert_sorted_by<T>(lt: spec_fn(T, T) -> bool, x: T, s: Seq<T>) -> Seq<T>
    decreases s.len(),
{
    if s.len() == 0 {
        seq![x]
    } else if lt(x, s[0]) {
        seq![x] + s
    } else {
        seq![s[0]] + insert_sorted_by(lt, x, s.drop_first())
    }
}

/// Stable insertion sort of a sequence under a strict order.
pub open spec fn sort_by_spec<T>(lt: spec_fn(T, T) -> bool, s: Seq<T>) -> Seq<T>
    decreases s.len(),
{
    if s.len() == 0 {
        Seq::empty()
    } else {
        insert_sorted_by(lt, s.last(), sort_by_spec(lt, s.drop_last()))
    }
}

/// Strict natural order on strings.
pub open spec fn str_nat_lt(x: String, y: String) -> bool {
    nat_cmp(x@, y@) == StrOrder::Less
}

/// Strict lexicographic order on strings.
pub open spec fn str_lex_lt(x: String, y: String) -> bool {
    lex_cmp(x@, y@) == StrOrder::Less
}

/// Strict order on import pairs: natural order on the filename first, then
/// natural order on the imported symbol.
pub open spec fn import_lt(x: (String, String), y: (String, String)) -> bool {
    match nat_cmp(x.0@, y.0@) {
        StrOrder::Less => true,
        StrOrder::Greater => false,
        StrOrder::Equal => nat_cmp(x.1@, y.1@) == StrOrder::Less,
    }
}

/// The strings of `s`, sorted in natural order.
pub open spec fn sort_strings_nat_spec(s: Seq<String>) -> Seq<String> {
    sort_by_spec(|x: String, y: String| str_nat_lt(x, y), s)
}

/// The strings of `s`, sorted lexicographically.
pub open spec fn sort_strings_lex_spec(s: Seq<String>) -> Seq<String> {
    sort_by_spec(|x: String, y: String| str_lex_lt(x, y), s)
}

/// The import pairs of `s`, sorted by filename then symbol.
pub open spec fn sort_imports_spec(s: Seq<(String, String)>) -> Seq<(String, String)> {
    sort_by_spec(|x: (String, String), y: (String, String)| import_lt(x, y), s)
}

/// An insertion point `p` chosen so that everything before it is not above
/// `x` pins down the result of `insert_sorted_by`.
pub proof fn lemma_insert_position<T>(lt: spec_fn(T, T) -> bool, x: T, s: Seq<T>, p: int)
    requires
        0 <= p <= s.len(),
        forall|k: int| 0 <= k < p ==> !lt(x, #[trigger] s[k]),
        p < s.len() ==> lt(x, s[p]),
    ensures
        insert_sorted_by(lt, x, s) =~= s.take(p) + seq![x] + s.skip(p),
    decreases p,
{
    if p == 0 {
        assert(s.take(0) =~= Seq::<T>::empty());
        assert(s.skip(0) =~= s);
    } else {
        assert(!lt(x, s[0]));
        let rest = s.drop_first();
        assert(forall|k: int| 0 <= k < rest.len() ==> #[trigger] rest[k] == s[k + 1]);
        lemma_insert_position(lt, x, rest, p - 1);
        assert(rest.take(p - 1) =~= s.take(p).drop_first());
        assert(rest.skip(p - 1) =~= s.skip(p));
        assert(seq![s[0]] + (rest.take(p - 1) + seq![x] + rest.skip(p - 1)) =~= s.take(p)
            + seq![x] + s.skip(p));
    }
}

/// Sorting one more element is one more insertion.
pub proof fn lemma_sort_step<T>(lt: spec_fn(T, T) -> bool, s: Seq<T>, i: int)
    requires
        0 <= i < s.len(),
    ensures
        sort_by_spec(lt, s.take(i + 1)) == insert_sorted_by(lt, s[i], sort_by_spec(lt, s.take(i))),
{
    assert(s.take(i + 1).drop_last() =~= s.take(i));
    assert(s.take(i + 1).last() == s[i]);
}

/// Position in front of the first element that `x` is naturally below.
fn nat_insert_pos(out: &Vec<String>, x: &String) -> (p: usize)
    ensures
        p <= out@.len(),
        forall|k: int| 0 <= k < p ==> nat_cmp(x@, #[trigger] out@[k]@) != StrOrder::Less,
        p < out@.len() ==> nat_cmp(x@, out@[p as int]@) == StrOrder::Less,
{
    let mut p: usize = 0;
    while p < out.len()
        invariant
            p <= out@.len(),
            forall|k: int| 0 <= k < p ==> nat_cmp(x@, #[trigger] out@[k]@) != StrOrder::Less,
        decreases out@.len() - p,
    {
        let c = natural_compare(x.as_str(), out[p].as_str());
        if c == StrOrder::Less {
            return p;
        }
        p = p + 1;
    }
    p
}

/// Position in front of the first element that `x` is lexicographically
/// below.
fn lex_insert_pos(out: &Vec<String>, x: &String) -> (p: usize)
    ensures
        p <= out@.len(),
        forall|k: int| 0 <= k < p ==> lex_cmp(x@, #[trigger] out@[k]@) != StrOrder::Less,
        p < out@.len() ==> lex_cmp(x@, out@[p as int]@) == StrOrder::Less,
{
    let mut p: usize = 0;
    while p < out.len()
        invariant
            p <= out@.len(),
            forall|k: int| 0 <= k < p ==> lex_cmp(x@, #[trigger] out@[k]@) != StrOrder::Less,
        decreases out@.len() - p,
    {
        let c = lex_compare(x.as_str(), out[p].as_str());
        if c == StrOrder::Less {
            return p;
        }
        p = p + 1;
    }
    p
}

/// Compares two import pairs in the emitter's import order.
fn import_below(x: &(String, String), y: &(String, String)) -> (r: bool)
    ensures
        r == import_lt(*x, *y),
{
    let c = natural_compare(x.0.as_str(), y.0.as_str());
    match c {
        StrOrder::Less => true,
        StrOrder::Greater => false,
        StrOrder::Equal => {
            let c1 = natural_compare(x.1.as_str(), y.1.as_str());
            c1 == StrOrder::Less
        },
    }
}

/// Position in front of the first import pair that `x` is below.
fn import_insert_pos(out: &Vec<(String, String)>, x: &(String, String)) -> (p: usize)
    ensures
        p <= out@.len(),
        forall|k: int| 0 <= k < p ==> !import_lt(*x, #[trigger] out@[k]),
        p < out@.len() ==> import_lt(*x, out@[p as int]),
{
    let mut p: usize = 0;
    while p < out.len()
        invariant
            p <= out@.len(),
            forall|k: int| 0 <= k < p ==> !import_lt(*x, #[trigger] out@[k]),
        decreases out@.len() - p,
    {
        if import_below(x, &out[p]) {
            return p;
        }
        p = p + 1;
    }
    p
}

/// Sorts strings in natural order.
#[verifier::loop_isolation(false)]
pub fn sorted_strings_natural(v: &Vec<String>) -> (r: Vec<String>)
    ensures
        r@ == sort_strings_nat_spec(v@),
{
    let ghost lt = |x: String, y: String| str_nat_lt(x, y);
    let mut out: Vec<String> = Vec::new();
    let mut idx: usize = 0;
    proof {
        assert(v@.take(0) =~= Seq::<String>::empty());
    }
    while idx < v.len()
        invariant
            idx <= v@.len(),
            out@ == sort_by_spec(lt, v@.take(idx as int)),
        decreases v@.len() - idx,
    {
        let x = v[idx].clone();
        let p = nat_insert_pos(&out, &x);
        proof {
            assert(forall|k: int| 0 <= k < p ==> !lt(x, #[trigger] out@[k]));
            lemma_insert_position(lt, x, out@, p as int);
            lemma_sort_step(lt, v@, idx as int);
        }
        out.insert(p, x);
        idx = idx + 1;
    }
    proof {
        assert(v@.take(v@.len() as int) =~= v@);
    }
    out
}

/// Sorts strings lexicographically.
#[verifier::loop_isolation(false)]
pub fn sorted_strings_lex(v: &Vec<String>) -> (r: Vec<String>)
    ensures
        r@ == sort_strings_lex_spec(v@),
{
    let ghost lt = |x: String, y: String| str_lex_lt(x, y);
    let mut out: Vec<String> = Vec::new();
    let mut idx: usize = 0;
    proof {
        assert(v@.take(0) =~= Seq::<String>::empty());
    }
    while idx < v.len()
        invariant
            idx <= v@.len(),
            out@ == sort_by_spec(lt, v@.take(idx as int)),
        decreases v@.len() - idx,
    {
        let x = v[idx].clone();
        let p = lex_insert_pos(&out, &x);
        proof {
            assert(forall|k: int| 0 <= k < p ==> !lt(x, #[trigger] out@[k]));
            lemma_insert_position(lt, x, out@, p as int);
            lemma_sort_step(lt, v@, idx as int);
        }
        out.insert(p, x);
        idx = idx + 1;
    }
    proof {
        assert(v@.take(v@.len() as int) =~= v@);
    }
    out
}

/// Sorts import pairs by filename, then by symbol name.
#[verifier::loop_isolation(false)]
pub fn sorted_imports(v: &Vec<(String, String)>) -> (r: Vec<(String, String)>)
    ensures
        r@ == sort_imports_spec(v@),
{
    let ghost lt = |x: (String, String), y: (String, String)| import_lt(x, y);
    let mut out: Vec<(String, String)> = Vec::new();
    let mut idx: usize = 0;
    proof {
        assert(v@.take(0) =~= Seq::<(String, String)>::empty());
    }
    while idx < v.len()
        invariant
            idx <= v@.len(),
            out@ == sort_by_spec(lt, v@.take(idx as int)),
        decreases v@.len() - idx,
    {
        let x0 = v[idx].0.clone();
        let x1 = v[idx].1.clone();
        let x = (x0, x1);
        proof {
            assert(x == v@[idx as int]);
        }
        let p = import_insert_pos(&out, &x);
        proof {
            assert(forall|k: int| 0 <= k < p ==> !lt(x, #[trigger] out@[k]));
            lemma_insert_position(lt, x, out@, p as int);
            lemma_sort_step(lt, v@, idx as int);
        }
        out.insert(p, x);
        idx = idx + 1;
    }
    proof {
        assert(v@.take(v@.len() as int) =~= v@);
    }
    out
}

/// Inserting into a sorted sequence only adds the new element.
pub proof fn lemma_insert_sorted_multiset<T>(lt: spec_fn(T, T) -> bool, x: T, s: Seq<T>)
    ensures
        insert_sorted_by(lt, x, s).to_multiset() == s.to_multiset().insert(x),
    decreases s.len(),
{
    broadcast use vstd::seq_lib::group_to_multiset_ensures;

    if s.len() == 0 {
        assert(seq![x] =~= Seq::<T>::empty().push(x));
        assert(Seq::<T>::empty().push(x).to_multiset() =~= Seq::<T>::empty().to_multiset().insert(
            x,
        ));
    } else if lt(x, s[0]) {
        vstd::seq_lib::lemma_multiset_commutative(seq![x], s);
        assert(seq![x].to_multiset() =~= Multiset::<T>::empty().insert(x)) by {
            assert(seq![x] =~= Seq::<T>::empty().push(x));
        }
        assert(seq![x].to_multiset().add(s.to_multiset()) =~= s.to_multiset().insert(x));
    } else {
        lemma_insert_sorted_multiset(lt, x, s.drop_first());
        vstd::seq_lib::lemma_multiset_commutative(seq![s[0]], insert_sorted_by(lt, x, s.drop_first()));
        vstd::seq_lib::lemma_multiset_commutative(seq![s[0]], s.drop_first());
        assert(s =~= seq![s[0]] + s.drop_first());
        assert(seq![s[0]].to_multiset().add(s.drop_first().to_multiset().insert(x)) =~= (seq![
            s[0],
        ].to_multiset().add(s.drop_first().to_multiset())).insert(x));
    }
}

/// Sorting permutes: the sorted sequence holds exactly the elements of
/// the input.
pub proof fn lemma_sort_by_multiset<T>(lt: spec_fn(T, T) -> bool, s: Seq<T>)
    ensures
        sort_by_spec(lt, s).to_multiset() == s.to_multiset(),
    decreases s.len(),
{
    broadcast use vstd::seq_lib::group_to_multiset_ensures;

    if s.len() > 0 {
        lemma_sort_by_multiset(lt, s.drop_last());
        lemma_insert_sorted_multiset(lt, s.last(), sort_by_spec(lt, s.drop_last()));
        assert(s =~= s.drop_last().push(s.last()));
        assert(s.drop_last().push(s.last()).to_multiset() =~= s.drop_last().to_multiset().insert(
            s.last(),
        ));
    }
}

/// Natural sorting of strings permutes them.
pub proof fn lemma_sort_strings_nat_permutes(s: Seq<String>)
    ensures
        sort_strings_nat_spec(s).to_multiset() == s.to_multiset(),
{
    lemma_sort_by_multiset(|x: String, y: String| str_nat_lt(x, y), s);
}

/// Lexicographic sorting of strings permutes them.
pub proof fn lemma_sort_strings_lex_permutes(s: Seq<String>)
    ensures
        sort_strings_lex_spec(s).to_multiset() == s.to_multiset(),
{
    lemma_sort_by_multiset(|x: String, y: String| str_lex_lt(x, y), s);
}

/// Removal of consecutive duplicate strings.
pub open spec fn dedup_spec(s: Seq<String>) -> Seq<String>
    decreases s.len(),
{
    if s.len() == 0 {
        Seq::empty()
    } else if s.len() == 1 {
        s
    } else if s.last()@ == s[s.len() - 2]@ {
        dedup_spec(s.drop_last())
    } else {
        dedup_spec(s.drop_last()).push(s.last())
    }
}

/// Drops consecutive duplicates from a sorted list of strings.
#[verifier::loop_isolation(false)]
pub fn dedup_strings(v: &Vec<String>) -> (r: Vec<String>)
    ensures
        r@ == dedup_spec(v@),
{
    let mut out: Vec<String> = Vec::new();
    let mut idx: usize = 0;
    proof {
        assert(v@.take(0) =~= Seq::<String>::empty());
    }
    while idx < v.len()
        invariant
            idx <= v@.len(),
            out@ == dedup_spec(v@.take(idx as int)),
        decreases v@.len() - idx,
    {
        proof {
            assert(v@.take(idx + 1).drop_last() =~= v@.take(idx as int));
            assert(v@.take(idx + 1).last() == v@[idx as int]);
        }
        if idx == 0 {
            proof {
                assert(v@.take(1) =~= seq![v@[0]]);
            }
            out.push(v[idx].clone());
        } else if v[idx] == v[idx - 1] {
            proof {
                assert(v@.take(idx + 1)[idx - 1] == v@[idx - 1]);
            }
        } else {
            proof {
                assert(v@.take(idx + 1)[idx - 1] == v@[idx - 1]);
            }
            out.push(v[idx].clone());
        }
        idx = idx + 1;
    }
    proof {
        assert(v@.take(v@.len() as int) =~= v@);
    }
    out
}

/// Adjacent order of a sequence under a strict order: no element is
/// strictly below its predecessor.
pub open spec fn sorted_by<T>(lt: spec_fn(T, T) -> bool, s: Seq<T>) -> bool {
    forall|i: int| 0 <= i < s.len() - 1 ==> !lt(#[trigger] s[i + 1], s[i])
}

/// Inserting into an ordered sequence keeps it ordered, for any
/// asymmetric strict order.
pub proof fn lemma_insert_sorted_ordered<T>(lt: spec_fn(T, T) -> bool, x: T, s: Seq<T>)
    requires
        sorted_by(lt, s),
        forall|a: T, b: T| #[trigger] lt(a, b) ==> !lt(b, a),
    ensures
        sorted_by(lt, insert_sorted_by(lt, x, s)),
    decreases s.len(),
{
    let r = insert_sorted_by(lt, x, s);
    if s.len() == 0 {
        assert(r =~= seq![x]);
    } else if lt(x, s[0]) {
        assert(r =~= seq![x] + s);
        assert forall|i: int| 0 <= i < r.len() - 1 implies !lt(#[trigger] r[i + 1], r[i]) by {
            if i == 0 {
                assert(!lt(s[0], x));
            } else {
                assert(r[i] == s[i - 1] && r[i + 1] == s[i]);
                assert(!lt(s[i - 1 + 1], s[i - 1]));
            }
        }
    } else {
        let rest = s.drop_first();
        assert(forall|k: int| 0 <= k < rest.len() ==> #[trigger] rest[k] == s[k + 1]);
        assert(sorted_by(lt, rest)) by {
            assert forall|i: int| 0 <= i < rest.len() - 1 implies !lt(
                #[trigger] rest[i + 1],
                rest[i],
            ) by {
                assert(!lt(s[i + 1 + 1], s[i + 1]));
            }
        }
        lemma_insert_sorted_ordered(lt, x, rest);
        let inner = insert_sorted_by(lt, x, rest);
        assert(r =~= seq![s[0]] + inner);
        assert forall|i: int| 0 <= i < r.len() - 1 implies !lt(#[trigger] r[i + 1], r[i]) by {
            if i == 0 {
                if rest.len() == 0 || lt(x, rest[0]) {
                    assert(inner[0] == x);
                    assert(!lt(x, s[0]));
                } else {
                    assert(inner[0] == rest[0]);
                    assert(!lt(s[1 as int], s[0 as int]));
                }
            } else {
                assert(r[i] == inner[i - 1] && r[i + 1] == inner[i]);
                assert(!lt(inner[i - 1 + 1], inner[i - 1]));
            }
        }
    }
}

/// The insertion sort produces an ordered sequence, for any asymmetric
/// strict order.
pub proof fn lemma_sort_by_ordered<T>(lt: spec_fn(T, T) -> bool, s: Seq<T>)
    requires
        forall|a: T, b: T| #[trigger] lt(a, b) ==> !lt(b, a),
    ensures
        sorted_by(lt, sort_by_spec(lt, s)),
    decreases s.len(),
{
    if s.len() > 0 {
        lemma_sort_by_ordered(lt, s.drop_last());
        lemma_insert_sorted_ordered(lt, s.last(), sort_by_spec(lt, s.drop_last()));
    }
}

/// Naturally sorted strings come out in natural order: no string sorts
/// strictly below its predecessor.
pub proof fn lemma_sorted_strings_natural_ordered(s: Seq<String>)
    ensures
        sorted_by(
            |x: String, y: String| str_nat_lt(x, y),
            sort_strings_nat_spec(s),
        ),
{
    let lt = |x: String, y: String| str_nat_lt(x, y);
    assert forall|a: String, b: String| #[trigger] lt(a, b) implies !lt(b, a) by {
        crate::order::lemma_nat_cmp_flip(a@, b@);
    }
    lemma_sort_by_ordered(lt, s);
}

/// Lexicographically sorted strings come out in lexicographic order.
pub proof fn lemma_sorted_strings_lex_ordered(s: Seq<String>)
    ensures
        sorted_by(
            |x: String, y: String| str_lex_lt(x, y),
            sort_strings_lex_spec(s),
        ),
{
    let lt = |x: String, y: String| str_lex_lt(x, y);
    assert forall|a: String, b: String| #[trigger] lt(a, b) implies !lt(b, a) by {
        crate::order::lemma_lex_cmp_flip(a@, b@);
    }
    lemma_sort_by_ordered(lt, s);
}

/// Sorted imports come out ordered by filename, then symbol name.
pub proof fn lemma_sorted_imports_ordered(s: Seq<(String, String)>)
    ensures
        sorted_by(
            |x: (String, String), y: (String, String)| import_lt(x, y),
            sort_imports_spec(s),
        ),
{
    let lt = |x: (String, String), y: (String, String)| import_lt(x, y);
    assert forall|a: (String, String), b: (String, String)| #[trigger] lt(a, b) implies !lt(
        b,
        a,
    ) by {
        crate::order::lemma_nat_cmp_flip(a.0@, b.0@);
        crate::order::lemma_nat_cmp_flip(a.1@, b.1@);
    }
    lemma_sort_by_ordered(lt, s);
}

/// Deduplication of a lexicographically sorted list leaves pairwise
/// distinct strings: every duplicate reference collapses to one.
pub proof fn lemma_sorted_dedup_distinct(s: Seq<String>)
    ensures
        ({
            let r = dedup_spec(sort_strings_lex_spec(s));
            forall|i: int, j: int| 0 <= i < j < r.len() ==> (#[trigger] r[i])@ != (#[trigger] r[j])@
        }),
{
    lemma_sorted_strings_lex_ordered(s);
    lemma_dedup_distinct_of_sorted(sort_strings_lex_spec(s));
}

/// On a sorted list, deduplication leaves pairwise distinct strings, all
/// of them at or below the last element.
proof fn lemma_dedup_distinct_of_sorted(s: Seq<String>)
    requires
        sorted_by(|x: String, y: String| str_lex_lt(x, y), s),
    ensures
        ({
            let r = dedup_spec(s);
            &&& forall|i: int, j: int|
                0 <= i < j < r.len() ==> (#[trigger] r[i])@ != (#[trigger] r[j])@
            &&& s.len() > 0 ==> r.len() > 0 && r.last()@ == s.last()@
            &&& forall|i: int|
                0 <= i < r.len() && s.len() > 0 ==> lex_cmp((#[trigger] r[i])@, s.last()@)
                    != StrOrder::Greater
        }),
    decreases s.len(),
{
    let lt = |x: String, y: String| str_lex_lt(x, y);
    if s.len() <= 1 {
        if s.len() == 1 {
            assert(dedup_spec(s) == s);
            crate::order::lemma_lex_cmp_equal(s[0]@, s[0]@);
        }
    } else {
        let head = s.drop_last();
        assert(sorted_by(lt, head)) by {
            assert forall|i: int| 0 <= i < head.len() - 1 implies !lt(
                #[trigger] head[i + 1],
                head[i],
            ) by {
                assert(head[i] == s[i] && head[i + 1] == s[i + 1]);
                assert(!lt(s[i + 1], s[i]));
            }
        }
        lemma_dedup_distinct_of_sorted(head);
        let d = dedup_spec(head);
        let r = dedup_spec(s);
        assert(head.last() == s[s.len() - 2]);
        assert(s.last() == s[s.len() - 1]);
        assert(!lt(s[s.len() - 2 + 1], s[s.len() - 2]));
        assert(!lt(s.last(), s[s.len() - 2]));
        crate::order::lemma_lex_cmp_flip(s.last()@, s[s.len() - 2]@);
        if s.last()@ == s[s.len() - 2]@ {
            assert(r == d);
            assert forall|i: int|
                0 <= i < r.len() implies lex_cmp((#[trigger] r[i])@, s.last()@)
                != StrOrder::Greater by {
                assert(lex_cmp(r[i]@, head.last()@) != StrOrder::Greater);
            }
            assert(r.last()@ == head.last()@);
        } else {
            assert(r == d.push(s.last()));
            // The last element of the sorted list sits strictly above the
            // previous one, and so above everything deduplicated so far.
            assert(lex_cmp(s[s.len() - 2]@, s.last()@) == StrOrder::Less) by {
                crate::order::lemma_lex_cmp_equal(s[s.len() - 2]@, s.last()@);
                crate::order::lemma_lex_cmp_flip(s[s.len() - 2]@, s.last()@);
            }
            assert forall|i: int| 0 <= i < d.len() implies (#[trigger] d[i])@ != s.last()@ by {
                assert(lex_cmp(d[i]@, head.last()@) != StrOrder::Greater);
                if lex_cmp(d[i]@, head.last()@) == StrOrder::Less {
                    crate::order::lemma_lex_cmp_trans_less(d[i]@, head.last()@, s.last()@);
                    crate::order::lemma_lex_cmp_equal(d[i]@, s.last()@);
                } else {
                    crate::order::lemma_lex_cmp_equal(d[i]@, head.last()@);
                }
            }
            assert forall|i: int|
                0 <= i < r.len() implies lex_cmp((#[trigger] r[i])@, s.last()@)
                != StrOrder::Greater by {
                if i < d.len() {
                    assert(r[i] == d[i]);
                    assert(lex_cmp(d[i]@, head.last()@) != StrOrder::Greater);
                    if lex_cmp(d[i]@, head.last()@) == StrOrder::Less {
                        crate::order::lemma_lex_cmp_trans_less(d[i]@, head.last()@, s.last()@);
                    } else {
                        crate::order::lemma_lex_cmp_equal(d[i]@, head.last()@);
                    }
                } else {
                    assert(r[i] == s.last());
                    crate::order::lemma_lex_cmp_equal(s.last()@, s.last()@);
                }
            }
        }
    }
}

} // verus!
