//! Enumerating the orderings of a sequence of indices in lexicographic order.

use permutohedron::LexicalPermutation;
use vstd::prelude::*;

use crate::order::{lemma_lex_total, lex_lt, sorted_by, strict_total};

verus! {

/// The order of indices.
pub open spec fn index_order() -> spec_fn(usize, usize) -> bool {
    |a: usize, b: usize| a < b
}

/// `q` holds the same elements as `s`, each as many times.
pub open spec fn is_permutation_of(q: Seq<usize>, s: Seq<usize>) -> bool {
    q.to_multiset() == s.to_multiset()
}

/// Calls `LexicalPermutation::next_permutation` of the `permutohedron` crate
/// on the vector's slice. That function rearranges the slice into the
/// least of its permutations that comes lexicographically after it, and
/// returns `true`; when no permutation comes after it (the slice is weakly
/// decreasing) it leaves the slice as it is and returns `false`.
#[verifier::external_body]
pub(crate) fn next_permutation(v: &mut Vec<usize>) -> (res: bool)
    ensures
        res == exists|q: Seq<usize>|
            is_permutation_of(q, old(v)@) && #[trigger] lex_lt(old(v)@, q, index_order()),
        res ==> is_permutation_of(final(v)@, old(v)@),
        res ==> lex_lt(old(v)@, final(v)@, index_order()),
        res ==> forall|q: Seq<usize>|
            is_permutation_of(q, old(v)@) && #[trigger] lex_lt(old(v)@, q, index_order()) ==> !lex_lt(
                q,
                final(v)@,
                index_order(),
            ),
        !res ==> final(v)@ == old(v)@,
{
    v.as_mut_slice().next_permutation()
}

/// Indices are totally ordered.
pub proof fn lemma_index_order_strict_total()
    ensures
        strict_total(index_order()),
{
}

/// `b` to the power `e`.
pub open spec fn power(b: nat, e: nat) -> nat
    decreases e,
{
    if e == 0 {
        1
    } else {
        b * power(b, (e - 1) as nat)
    }
}

/// Reads `s` as the digits, most significant first, of a number in base `b`.
pub open spec fn rank(s: Seq<usize>, b: nat) -> nat
    decreases s.len(),
{
    if s.len() == 0 {
        0
    } else {
        (s[0] as nat) * power(b, (s.len() - 1) as nat) + rank(s.drop_first(), b)
    }
}

/// Every element of `s` is below `b`.
pub open spec fn bounded_by(s: Seq<usize>, b: nat) -> bool {
    forall|i: int| 0 <= i < s.len() ==> #[trigger] s[i] < b
}

/// A number with `s.len()` digits in base `b` is below `b` to that power.
pub proof fn lemma_rank_bound(s: Seq<usize>, b: nat)
    requires
        bounded_by(s, b),
    ensures
        rank(s, b) < power(b, s.len()),
    decreases s.len(),
{
    if s.len() > 0 {
        let rest = s.drop_first();
        assert(bounded_by(rest, b)) by {
            assert forall|i: int| 0 <= i < rest.len() implies #[trigger] rest[i] < b by {
                assert(rest[i] == s[i + 1]);
            }
        }
        lemma_rank_bound(rest, b);
        let p = power(b, (s.len() - 1) as nat);
        let d = s[0] as nat;
        let r = rank(rest, b);
        assert(d < b);
        assert(d * p + r < b * p) by (nonlinear_arith)
            requires
                d < b,
                r < p,
        ;
    }
}

/// The lexicographic order of digit sequences of the same length is the
/// order of the numbers they denote.
pub proof fn lemma_rank_monotonic(s: Seq<usize>, t: Seq<usize>, b: nat)
    requires
        s.len() == t.len(),
        bounded_by(s, b),
        bounded_by(t, b),
        lex_lt(s, t, index_order()),
    ensures
        rank(s, b) < rank(t, b),
    decreases s.len(),
{
    let rs = s.drop_first();
    let rt = t.drop_first();
    assert(bounded_by(rs, b)) by {
        assert forall|i: int| 0 <= i < rs.len() implies #[trigger] rs[i] < b by {
            assert(rs[i] == s[i + 1]);
        }
    }
    assert(bounded_by(rt, b)) by {
        assert forall|i: int| 0 <= i < rt.len() implies #[trigger] rt[i] < b by {
            assert(rt[i] == t[i + 1]);
        }
    }
    if s[0] != t[0] {
        lemma_rank_bound(rs, b);
        let p = power(b, (s.len() - 1) as nat);
        let ds = s[0] as nat;
        let dt = t[0] as nat;
        let r1 = rank(rs, b);
        let r2 = rank(rt, b);
        assert(ds < dt);
        assert(ds * p + r1 < dt * p + r2) by (nonlinear_arith)
            requires
                ds < dt,
                r1 < p,
        ;
    } else {
        lemma_rank_monotonic(rs, rt, b);
    }
}

/// What a permutation keeps: the length and the elements; it has no
/// duplicates when the sequence it reorders has none.
pub proof fn lemma_permutation_facts(q: Seq<usize>, s: Seq<usize>)
    requires
        is_permutation_of(q, s),
    ensures
        q.len() == s.len(),
        q.to_set() == s.to_set(),
        s.no_duplicates() ==> q.no_duplicates(),
{
    broadcast use vstd::seq_lib::group_to_multiset_ensures;

    assert(q.len() == q.to_multiset().len());
    assert(s.len() == s.to_multiset().len());
    assert forall|x: usize| q.to_set().contains(x) == s.to_set().contains(x) by {
        assert(q.contains(x) <==> q.to_multiset().count(x) > 0);
        assert(s.contains(x) <==> s.to_multiset().count(x) > 0);
    }
    assert(q.to_set() =~= s.to_set());
    if s.no_duplicates() {
        s.lemma_multiset_has_no_duplicates();
        q.lemma_multiset_has_no_duplicates_conv();
    }
}

/// Two duplicate-free sequences with the same elements are permutations of
/// each other.
pub proof fn lemma_same_elements_permutation(q: Seq<usize>, s: Seq<usize>)
    requires
        q.no_duplicates(),
        s.no_duplicates(),
        q.to_set() == s.to_set(),
    ensures
        is_permutation_of(q, s),
{
    broadcast use vstd::seq_lib::group_to_multiset_ensures;

    q.lemma_multiset_has_no_duplicates();
    s.lemma_multiset_has_no_duplicates();
    assert forall|x: usize| q.to_multiset().count(x) == s.to_multiset().count(x) by {
        assert(q.contains(x) <==> q.to_multiset().count(x) > 0);
        assert(s.contains(x) <==> s.to_multiset().count(x) > 0);
        assert(q.contains(x) == q.to_set().contains(x));
        assert(s.contains(x) == s.to_set().contains(x));
    }
    assert(q.to_multiset() =~= s.to_multiset());
}

/// A strictly increasing sequence comes first among its permutations.
pub proof fn lemma_sorted_is_first(s: Seq<usize>, q: Seq<usize>)
    requires
        sorted_by(s, index_order()),
        is_permutation_of(q, s),
        q != s,
    ensures
        lex_lt(s, q, index_order()),
    decreases s.len(),
{
    lemma_index_order_strict_total();
    crate::order::lemma_sorted_no_duplicates(s, index_order());
    lemma_permutation_facts(q, s);
    if s.len() == 0 {
        assert(q =~= s);
    } else if s[0] != q[0] {
        assert(s.to_set().contains(q[0]));
        let j = choose|j: int| 0 <= j < s.len() && s[j] == q[0];
        assert(j != 0);
        assert(index_order()(s[0], s[j]));
    } else {
        let s1 = s.drop_first();
        let q1 = q.drop_first();
        assert(sorted_by(s1, index_order())) by {
            assert forall|i: int, j: int| 0 <= i < j < s1.len() implies #[trigger] index_order()(s1[i], s1[j]) by {
                assert(index_order()(s[i + 1], s[j + 1]));
            }
        }
        assert(q1 != s1) by {
            if q1 == s1 {
                assert(q =~= seq![q[0]] + q1);
                assert(s =~= seq![s[0]] + s1);
            }
        }
        assert(q1.no_duplicates());
        assert(q1.to_set() =~= s1.to_set()) by {
            assert forall|x: usize| q1.to_set().contains(x) implies s1.to_set().contains(x) by {
                let i = choose|i: int| 0 <= i < q1.len() && q1[i] == x;
                assert(q[i + 1] == x);
                assert(x != q[0]);
                assert(s.to_set().contains(x));
                let j = choose|j: int| 0 <= j < s.len() && s[j] == x;
                assert(j != 0);
                assert(s1[j - 1] == x);
            }
            assert forall|x: usize| s1.to_set().contains(x) implies q1.to_set().contains(x) by {
                let i = choose|i: int| 0 <= i < s1.len() && s1[i] == x;
                assert(s[i + 1] == x);
                assert(x != s[0]);
                assert(q.to_set().contains(x));
                let j = choose|j: int| 0 <= j < q.len() && q[j] == x;
                assert(j != 0);
                assert(q1[j - 1] == x);
            }
        }
        lemma_same_elements_permutation(q1, s1);
        lemma_sorted_is_first(s1, q1);
    }
}

/// Arranges distinct positions in increasing order.
pub fn sort_positions(v: &mut Vec<usize>)
    requires
        old(v)@.no_duplicates(),
    ensures
        sorted_by(final(v)@, index_order()),
        is_permutation_of(final(v)@, old(v)@),
{
    let ghost src = v@;
    let mut out: Vec<usize> = Vec::new();
    proof {
        assert(out@.to_set() =~= src.take(0).to_set());
    }
    let mut i: usize = 0;
    while i < v.len()
        invariant
            v@ == src,
            src.no_duplicates(),
            i <= src.len(),
            sorted_by(out@, index_order()),
            out@.to_set() == src.take(i as int).to_set(),
        decreases src.len() - i,
    {
        let x = v[i];
        let ghost before = out@;
        let mut j: usize = 0;
        while j < out.len() && out[j] < x
            invariant
                out@ == before,
                j <= before.len(),
                forall|t: int| 0 <= t < j ==> #[trigger] before[t] < x,
            decreases before.len() - j,
        {
            j = j + 1;
        }
        proof {
            assert(!before.contains(x)) by {
                if before.contains(x) {
                    assert(before.to_set().contains(x));
                    let t = choose|t: int| 0 <= t < i && src.take(i as int)[t] == x;
                    assert(src[t] == src[i as int]);
                }
            }
            if j < before.len() {
                assert(before[j as int] != x);
            }
        }
        out.insert(j, x);
        proof {
            let after = out@;
            assert(after =~= before.insert(j as int, x));
            assert forall|a: int, b: int| 0 <= a < b < after.len() implies #[trigger] index_order()(after[a], after[b]) by {
                let lhs = if a < j { before[a] } else if a == j { x } else { before[a - 1] };
                let rhs = if b < j { before[b] } else if b == j { x } else { before[b - 1] };
                assert(after[a] == lhs);
                assert(after[b] == rhs);
                if b <= j {
                    if b == j {
                        assert(lhs < x);
                    } else {
                        assert(index_order()(before[a], before[b]));
                    }
                } else if a < j {
                    assert(x < before[j as int]);
                    if b - 1 > j {
                        assert(index_order()(before[j as int], before[b - 1]));
                    }
                    assert(index_order()(before[a], before[j as int]));
                } else if a == j {
                    if b - 1 > j {
                        assert(index_order()(before[j as int], before[b - 1]));
                    }
                } else {
                    assert(index_order()(before[a - 1], before[b - 1]));
                }
            }
            assert(src.take(i + 1) =~= src.take(i as int).push(x));
            src.take(i as int).lemma_push_to_set_commute(x);
            assert(after.to_set() =~= before.to_set().insert(x)) by {
                assert forall|y: usize| after.to_set().contains(y) implies before.to_set().insert(x).contains(y) by {
                    let t = choose|t: int| 0 <= t < after.len() && after[t] == y;
                    if t < j {
                        assert(before[t] == y);
                    } else if t > j {
                        assert(before[t - 1] == y);
                    }
                }
                assert forall|y: usize| before.to_set().insert(x).contains(y) implies after.to_set().contains(y) by {
                    if y == x {
                        assert(after[j as int] == x);
                    } else {
                        let t = choose|t: int| 0 <= t < before.len() && before[t] == y;
                        if t < j {
                            assert(after[t] == y);
                        } else {
                            assert(after[t + 1] == y);
                        }
                    }
                }
            }
        }
        i = i + 1;
    }
    proof {
        assert(src.take(i as int) =~= src);
        lemma_index_order_strict_total();
        crate::order::lemma_sorted_no_duplicates(out@, index_order());
        lemma_same_elements_permutation(out@, src);
    }
    *v = out;
}

/// `next` is the ordering that comes right after `cur`: a permutation of it,
/// lexicographically after it, with no permutation of it in between. This
/// is what `next_permutation` produces when it returns `true`.
pub open spec fn next_ordering(cur: Seq<usize>, next: Seq<usize>) -> bool {
    &&& is_permutation_of(next, cur)
    &&& lex_lt(cur, next, index_order())
    &&& forall|q: Seq<usize>|
        is_permutation_of(q, cur) && #[trigger] lex_lt(cur, q, index_order()) ==> !lex_lt(
            q,
            next,
            index_order(),
        )
}

/// Every ordering of a group is met when the orderings are enumerated from
/// the increasing one, each step going to the next ordering, until no
/// ordering comes after the current one.
pub proof fn lemma_enumeration_meets_every_ordering(chain: Seq<Seq<usize>>, q: Seq<usize>)
    requires
        chain.len() > 0,
        sorted_by(chain[0], index_order()),
        forall|k: int| 0 <= k < chain.len() - 1 ==> next_ordering(#[trigger] chain[k], chain[k + 1]),
        forall|p: Seq<usize>|
            is_permutation_of(p, chain.last()) ==> !#[trigger] lex_lt(chain.last(), p, index_order()),
        is_permutation_of(q, chain[0]),
    ensures
        chain.contains(q),
{
    lemma_index_order_strict_total();
    lemma_enumeration_prefix(chain, (chain.len() - 1) as int);
    let last = chain.last();
    assert(is_permutation_of(q, last));
    assert(!lex_lt(last, q, index_order()));
    let j = choose|j: int| 0 <= j <= chain.len() - 1 && chain[j] == q;
    assert(chain[j] == q);
}

/// After `k` steps from the increasing ordering, every ordering not after
/// the current one has been met, and the current one reorders the first.
proof fn lemma_enumeration_prefix(chain: Seq<Seq<usize>>, k: int)
    requires
        0 <= k < chain.len(),
        sorted_by(chain[0], index_order()),
        forall|j: int| 0 <= j < chain.len() - 1 ==> next_ordering(#[trigger] chain[j], chain[j + 1]),
    ensures
        is_permutation_of(chain[k], chain[0]),
        forall|q: Seq<usize>|
            is_permutation_of(q, chain[0]) && !lex_lt(chain[k], q, index_order()) ==> exists|j: int|
                0 <= j <= k && #[trigger] chain[j] == q,
    decreases k,
{
    lemma_index_order_strict_total();
    if k == 0 {
        assert forall|q: Seq<usize>|
            is_permutation_of(q, chain[0]) && !lex_lt(chain[0], q, index_order()) implies exists|j: int|
                0 <= j <= 0 && #[trigger] chain[j] == q by {
            if q != chain[0] {
                lemma_sorted_is_first(chain[0], q);
            }
            assert(chain[0] == q);
        }
    } else {
        lemma_enumeration_prefix(chain, k - 1);
        assert(next_ordering(chain[k - 1], chain[k]));
        let prev = chain[k - 1];
        let cur = chain[k];
        assert forall|q: Seq<usize>|
            is_permutation_of(q, chain[0]) && !lex_lt(cur, q, index_order()) implies exists|j: int|
                0 <= j <= k && #[trigger] chain[j] == q by {
            if q == cur {
                assert(chain[k] == q);
            } else {
                lemma_lex_total(q, cur, index_order());
                assert(is_permutation_of(q, prev));
                if lex_lt(prev, q, index_order()) {
                    assert(!lex_lt(q, cur, index_order()));
                }
                let j = choose|j: int| 0 <= j <= k - 1 && #[trigger] chain[j] == q;
                assert(chain[j] == q);
            }
        }
    }
}

} // verus!
