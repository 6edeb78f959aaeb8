//! Properties of the notions that the isomorphism check is built from: the
//! blank nodes of a dataset, the hash of a blank node, containment under a
//! renaming, and the search for a renaming.

use vstd::prelude::*;
use vstd::relations::injective_on;

use crate::isomorphism::{
    assign, blank_node_hash, blank_nodes_of, blank_nodes_of_quad, contained, fields_writes,
    group_of, hash_input, key_list_writes, key_writes, keys_writes, lemma_assign, mentions_blank,
    predicate_object_key, predicate_object_keys, rename_quad, renamer, sorted_enumeration,
    subject_predicate_key, subject_predicate_keys, Search,
};
use crate::order::{key_lt, key_order, lemma_key_order_strict_total, sorted_by};
use crate::model::{QuadModel, TermModel};
use crate::permutation::{
    is_permutation_of, lemma_permutation_facts, lemma_same_elements_permutation,
};

verus! {

// ---------------------------------------------------------------------------
// Blank nodes of a dataset
// ---------------------------------------------------------------------------

/// The blank nodes of the union of two datasets are those of the one and
/// those of the other.
pub proof fn lemma_blank_nodes_union(d1: Set<QuadModel>, d2: Set<QuadModel>)
    ensures
        blank_nodes_of(d1.union(d2)) == blank_nodes_of(d1).union(blank_nodes_of(d2)),
{
    let l = blank_nodes_of(d1.union(d2));
    let r = blank_nodes_of(d1).union(blank_nodes_of(d2));
    assert forall|x: Seq<char>| l.contains(x) implies r.contains(x) by {
        let q = choose|q: QuadModel| d1.union(d2).contains(q) && mentions_blank(q, x);
        if d1.contains(q) {
            assert(blank_nodes_of(d1).contains(x));
        } else {
            assert(blank_nodes_of(d2).contains(x));
        }
    }
    assert forall|x: Seq<char>| r.contains(x) implies l.contains(x) by {
        if blank_nodes_of(d1).contains(x) {
            let q = choose|q: QuadModel| d1.contains(q) && mentions_blank(q, x);
            assert(d1.union(d2).contains(q));
        } else {
            let q = choose|q: QuadModel| d2.contains(q) && mentions_blank(q, x);
            assert(d1.union(d2).contains(q));
        }
    }
    assert(l =~= r);
}

/// A part of a dataset has no blank node that the dataset lacks.
pub proof fn lemma_blank_nodes_subset(d1: Set<QuadModel>, d2: Set<QuadModel>)
    requires
        d1.subset_of(d2),
    ensures
        blank_nodes_of(d1).subset_of(blank_nodes_of(d2)),
{
    assert forall|x: Seq<char>| blank_nodes_of(d1).contains(x) implies blank_nodes_of(d2).contains(x) by {
        let q = choose|q: QuadModel| d1.contains(q) && mentions_blank(q, x);
        assert(d2.contains(q));
    }
}

/// A quad mentions at most its subject, its object and its graph name.
proof fn lemma_quad_blank_nodes_finite(q: QuadModel)
    ensures
        blank_nodes_of_quad(q).finite(),
{
    let g = match q.graph_name {
        Some(t) => t,
        None => q.subject,
    };
    let sup = set![q.subject->Blank_0, q.object->Blank_0, g->Blank_0];
    assert(blank_nodes_of_quad(q).subset_of(sup));
    vstd::set_lib::lemma_set_subset_finite(sup, blank_nodes_of_quad(q));
}

/// A finite dataset has finitely many blank nodes.
pub proof fn lemma_blank_nodes_finite(d: Set<QuadModel>)
    requires
        d.finite(),
    ensures
        blank_nodes_of(d).finite(),
    decreases d.len(),
{
    if d.len() == 0 {
        assert(blank_nodes_of(d) =~= Set::empty()) by {
            assert forall|x: Seq<char>| !blank_nodes_of(d).contains(x) by {
                if blank_nodes_of(d).contains(x) {
                    let q = choose|q: QuadModel| d.contains(q) && mentions_blank(q, x);
                    assert(d.contains(q));
                }
            }
        }
    } else {
        let q = d.choose();
        let rest = d.remove(q);
        lemma_blank_nodes_finite(rest);
        lemma_blank_nodes_union(rest, set![q]);
        assert(rest.union(set![q]) =~= d);
        assert(blank_nodes_of(set![q]) =~= blank_nodes_of_quad(q)) by {
            assert forall|x: Seq<char>| blank_nodes_of(set![q]).contains(x) implies blank_nodes_of_quad(q).contains(x) by {
                let r = choose|r: QuadModel| set![q].contains(r) && mentions_blank(r, x);
                assert(r == q);
            }
            assert forall|x: Seq<char>| blank_nodes_of_quad(q).contains(x) implies blank_nodes_of(set![q]).contains(x) by {
                assert(set![q].contains(q));
            }
        }
        lemma_quad_blank_nodes_finite(q);
    }
}

/// Renaming a dataset through `f`, which names each of its blank nodes,
/// renames its blank nodes: those of the result are the images of those of
/// the dataset.
pub proof fn lemma_renamed_blank_nodes(d: Set<QuadModel>, f: Map<Seq<char>, Seq<char>>)
    requires
        blank_nodes_of(d).subset_of(f.dom()),
    ensures
        blank_nodes_of(d.map(renamer(f))) == blank_nodes_of(d).map(|x: Seq<char>| f[x]),
{
    let l = blank_nodes_of(d.map(renamer(f)));
    let r = blank_nodes_of(d).map(|x: Seq<char>| f[x]);
    assert forall|y: Seq<char>| l.contains(y) implies r.contains(y) by {
        let q2 = choose|q2: QuadModel| d.map(renamer(f)).contains(q2) && mentions_blank(q2, y);
        let q = choose|q: QuadModel| d.contains(q) && q2 == renamer(f)(q);
        assert(q2 == rename_quad(q, f));
        let x = if q2.subject == TermModel::Blank(y) && q.subject is Blank {
            q.subject->Blank_0
        } else if q2.object == TermModel::Blank(y) && q.object is Blank {
            q.object->Blank_0
        } else {
            q.graph_name->Some_0->Blank_0
        };
        assert(mentions_blank(q, x));
        assert(blank_nodes_of(d).contains(x));
        assert(f[x] == y);
        assert((|x: Seq<char>| f[x])(x) == y);
    }
    assert forall|y: Seq<char>| r.contains(y) implies l.contains(y) by {
        let x = choose|x: Seq<char>| blank_nodes_of(d).contains(x) && (|x: Seq<char>| f[x])(x) == y;
        let q = choose|q: QuadModel| d.contains(q) && mentions_blank(q, x);
        assert(d.map(renamer(f)).contains(renamer(f)(q)));
        assert(mentions_blank(rename_quad(q, f), y));
    }
    assert(l =~= r);
}

/// Under a renaming that is one-to-one on the blank nodes of a finite
/// dataset, the renamed dataset has as many blank nodes.
pub proof fn lemma_renamed_blank_nodes_count(d: Set<QuadModel>, f: Map<Seq<char>, Seq<char>>)
    requires
        d.finite(),
        blank_nodes_of(d).subset_of(f.dom()),
        injective_on(|x: Seq<char>| f[x], blank_nodes_of(d)),
    ensures
        blank_nodes_of(d.map(renamer(f))).finite(),
        blank_nodes_of(d.map(renamer(f))).len() == blank_nodes_of(d).len(),
{
    lemma_blank_nodes_finite(d);
    lemma_renamed_blank_nodes(d, f);
    vstd::set_lib::lemma_map_size(
        blank_nodes_of(d),
        blank_nodes_of(d.map(renamer(f))),
        |x: Seq<char>| f[x],
    );
}

// ---------------------------------------------------------------------------
// The hash of a blank node
// ---------------------------------------------------------------------------

/// The (predicate, object) pairs, with an object that is not a blank node,
/// of the quads whose subject is the blank node `x`, in any graph.
pub open spec fn predicate_object_signature(ds: Set<QuadModel>, x: Seq<char>) -> Set<
    (Seq<char>, TermModel),
> {
    Set::new(
        |po: (Seq<char>, TermModel)|
            exists|q: QuadModel|
                #![trigger ds.contains(q)]
                ds.contains(q) && q.subject == TermModel::Blank(x) && !(q.object is Blank) && po
                    == (q.predicate, q.object),
    )
}

/// The (subject, predicate) pairs, with a subject that is not a blank node,
/// of the quads whose object is the blank node `x`, in any graph.
pub open spec fn subject_predicate_signature(ds: Set<QuadModel>, x: Seq<char>) -> Set<
    (TermModel, Seq<char>),
> {
    Set::new(
        |sp: (TermModel, Seq<char>)|
            exists|q: QuadModel|
                #![trigger ds.contains(q)]
                ds.contains(q) && q.object == TermModel::Blank(x) && !(q.subject is Blank) && sp
                    == (q.subject, q.predicate),
    )
}

/// The hash of a blank node depends on its signature alone: not on its
/// name, its blank neighbours, graph names, or the rest of the dataset.
pub proof fn lemma_hash_depends_on_signature(
    d1: Set<QuadModel>,
    x1: Seq<char>,
    d2: Set<QuadModel>,
    x2: Seq<char>,
)
    requires
        predicate_object_signature(d1, x1) == predicate_object_signature(d2, x2),
        subject_predicate_signature(d1, x1) == subject_predicate_signature(d2, x2),
    ensures
        blank_node_hash(d1, x1) == blank_node_hash(d2, x2),
{
    lemma_signature_keys(d1, x1, d2, x2);
    lemma_signature_keys(d2, x2, d1, x1);
    assert(predicate_object_keys(d1, x1) =~= predicate_object_keys(d2, x2));
    assert(subject_predicate_keys(d1, x1) =~= subject_predicate_keys(d2, x2));
}

/// Equal signatures give the keys of the one to the other.
proof fn lemma_signature_keys(d1: Set<QuadModel>, x1: Seq<char>, d2: Set<QuadModel>, x2: Seq<char>)
    requires
        predicate_object_signature(d1, x1) == predicate_object_signature(d2, x2),
        subject_predicate_signature(d1, x1) == subject_predicate_signature(d2, x2),
    ensures
        predicate_object_keys(d1, x1).subset_of(predicate_object_keys(d2, x2)),
        subject_predicate_keys(d1, x1).subset_of(subject_predicate_keys(d2, x2)),
{
    assert forall|k: Seq<Seq<u8>>| predicate_object_keys(d1, x1).contains(k) implies predicate_object_keys(d2, x2).contains(k) by {
        let q = choose|q: QuadModel| #![trigger d1.contains(q)] d1.contains(q) && q.subject == TermModel::Blank(x1) && !(q.object is Blank) && k == predicate_object_key(q.predicate, q.object);
        assert(predicate_object_signature(d1, x1).contains((q.predicate, q.object)));
        assert(predicate_object_signature(d2, x2).contains((q.predicate, q.object)));
        let q2 = choose|q2: QuadModel| #![trigger d2.contains(q2)] d2.contains(q2) && q2.subject == TermModel::Blank(x2) && !(q2.object is Blank) && (q.predicate, q.object) == (q2.predicate, q2.object);
        assert(d2.contains(q2));
    }
    assert forall|k: Seq<Seq<u8>>| subject_predicate_keys(d1, x1).contains(k) implies subject_predicate_keys(d2, x2).contains(k) by {
        let q = choose|q: QuadModel| #![trigger d1.contains(q)] d1.contains(q) && q.object == TermModel::Blank(x1) && !(q.subject is Blank) && k == subject_predicate_key(q.subject, q.predicate);
        assert(subject_predicate_signature(d1, x1).contains((q.subject, q.predicate)));
        assert(subject_predicate_signature(d2, x2).contains((q.subject, q.predicate)));
        let q2 = choose|q2: QuadModel| #![trigger d2.contains(q2)] d2.contains(q2) && q2.object == TermModel::Blank(x2) && !(q2.subject is Blank) && (q.subject, q.predicate) == (q2.subject, q2.predicate);
        assert(d2.contains(q2));
    }
}

// ---------------------------------------------------------------------------
// Containment under a renaming
// ---------------------------------------------------------------------------

/// Containment is monotone: when the renamed quads of `a` are in `b`, the
/// renamed quads of any part of `a` are in any dataset that includes `b`.
pub proof fn lemma_contained_monotone(
    a: Set<QuadModel>,
    b: Set<QuadModel>,
    a2: Set<QuadModel>,
    b2: Set<QuadModel>,
    a_nodes: Seq<Seq<char>>,
    b_nodes: Seq<Seq<char>>,
    m: Seq<Option<usize>>,
)
    requires
        contained(a, b, a_nodes, b_nodes, m),
        a2.subset_of(a),
        b.subset_of(b2),
    ensures
        contained(a2, b2, a_nodes, b_nodes, m),
{
    assert forall|q: QuadModel| #[trigger] a2.contains(q) implies a.contains(q) by {}
}

/// A dataset without quads is contained in any dataset, whatever the mapping.
pub proof fn lemma_contained_empty(
    b: Set<QuadModel>,
    a_nodes: Seq<Seq<char>>,
    b_nodes: Seq<Seq<char>>,
    m: Seq<Option<usize>>,
)
    ensures
        contained(Set::empty(), b, a_nodes, b_nodes, m),
{
}

// ---------------------------------------------------------------------------
// The search for a renaming
// ---------------------------------------------------------------------------

/// `m` pairs the positions of `an` one to one with those of `bn`: each
/// position of `an` goes to a position of `bn`, each position of `bn` is
/// reached from `an`, and no two positions of `an` go to the same one.
pub open spec fn pairs_one_to_one(an: Seq<usize>, bn: Seq<usize>, m: Seq<Option<usize>>) -> bool {
    &&& an.len() == bn.len()
    &&& forall|i: usize| #[trigger] an.contains(i) ==> m[i as int] is Some && bn.contains(m[i as int]->0)
    &&& forall|j: usize| #[trigger] bn.contains(j) ==> exists|i: usize| an.contains(i) && m[i as int] == Some(j)
    &&& forall|i1: usize, i2: usize|
        #[trigger] an.contains(i1) && #[trigger] an.contains(i2) && m[i1 as int] == m[i2 as int] ==> i1 == i2
}

/// The position `i` is in the group of `a`'s blank nodes of some hash of `hs`.
pub open spec fn in_pending_group(search: Search, hs: Seq<u64>, i: usize) -> bool {
    exists|h: u64| hs.contains(h) && #[trigger] group_of(search.a_groups, h).contains(i)
}

/// `m2` is `m` completed, for each hash of `hs`, by a one-to-one pairing of
/// the positions of `a`'s blank nodes with that hash with those of `b`'s;
/// the positions outside these groups are left as in `m`.
pub open spec fn completes(
    search: Search,
    hs: Seq<u64>,
    m: Seq<Option<usize>>,
    m2: Seq<Option<usize>>,
) -> bool {
    &&& m2.len() == m.len()
    &&& forall|h: u64|
        #[trigger] hs.contains(h) ==> pairs_one_to_one(
            group_of(search.a_groups, h),
            group_of(search.b_groups, h),
            m2,
        )
    &&& forall|i: int|
        0 <= i < m.len() && !in_pending_group(search, hs, i as usize) ==> #[trigger] m2[i] == m[i]
}

/// The groups of the hashes of `hs` suit a search from `m`: every position
/// of `m` is a `usize`, no group repeats a position, the positions of `a`'s
/// groups are positions of `m`, and no position is in `a`'s groups of two
/// different hashes.
pub open spec fn groups_fit(search: Search, hs: Seq<u64>, m: Seq<Option<usize>>) -> bool {
    &&& m.len() <= usize::MAX
    &&& forall|h: u64|
        #[trigger] hs.contains(h) ==> {
            &&& group_of(search.a_groups, h).no_duplicates()
            &&& group_of(search.b_groups, h).no_duplicates()
            &&& forall|k: int|
                0 <= k < group_of(search.a_groups, h).len() ==> #[trigger] group_of(
                    search.a_groups,
                    h,
                )[k] < m.len()
        }
    &&& forall|h1: u64, h2: u64, i: usize|
        hs.contains(h1) && hs.contains(h2) && h1 != h2 && #[trigger] group_of(
            search.a_groups,
            h1,
        ).contains(i) ==> !#[trigger] group_of(search.a_groups, h2).contains(i)
}

/// An element of `s` other than its last is an element of `s.drop_last()`.
proof fn lemma_contains_not_last<A>(s: Seq<A>, y: A)
    requires
        s.len() > 0,
        s.contains(y),
        y != s.last(),
    ensures
        s.drop_last().contains(y),
{
    let j = choose|j: int| 0 <= j < s.len() && s[j] == y;
    assert(j < s.len() - 1);
    assert(s.drop_last()[j] == y);
}

/// An element of `s.drop_last()` is an element of `s`.
proof fn lemma_contains_of_drop_last<A>(s: Seq<A>, y: A)
    requires
        s.len() > 0,
        s.drop_last().contains(y),
    ensures
        s.contains(y),
{
    let j = choose|j: int| 0 <= j < s.drop_last().len() && s.drop_last()[j] == y;
    assert(s[j] == y);
}

/// A successful search yields a completion of `m` that renames `a` into a
/// part of `b`.
proof fn lemma_search_ok_gives_completion(search: Search, hs: Seq<u64>, m: Seq<Option<usize>>) -> (m2: Seq<Option<usize>>)
    requires
        groups_fit(search, hs, m),
        search.search_ok(hs, m),
    ensures
        completes(search, hs, m, m2),
        search.contained(m2),
    decreases hs.len(),
{
    if hs.len() == 0 {
        m
    } else {
        let h = hs.last();
        let hs1 = hs.drop_last();
        let an = group_of(search.a_groups, h);
        let bn = group_of(search.b_groups, h);
        assert(hs.contains(h));
        let p = choose|p: Seq<usize>| #[trigger] is_permutation_of(p, an) && search.search_ok(hs1, assign(m, p, bn));
        lemma_permutation_facts(p, an);
        assert forall|k: int| 0 <= k < p.len() implies #[trigger] p[k] < m.len() by {
            assert(p.to_set().contains(p[k]));
            assert(an.to_set().contains(p[k]));
            let j = choose|j: int| 0 <= j < an.len() && an[j] == p[k];
            assert(an[j] < m.len());
        }
        lemma_assign(m, p, bn);
        let m1 = assign(m, p, bn);
        assert forall|h2: u64| #[trigger] hs1.contains(h2) implies hs.contains(h2) by {
            lemma_contains_of_drop_last(hs, h2);
        }
        assert(groups_fit(search, hs1, m1));
        let m2 = lemma_search_ok_gives_completion(search, hs1, m1);
        assert forall|k: int| 0 <= k < p.len() && !hs1.contains(h) implies m2[#[trigger] p[k] as int] == Some(bn[k]) by {
            assert(p.to_set().contains(p[k]));
            assert(an.contains(p[k]));
            if in_pending_group(search, hs1, p[k]) {
                let h2 = choose|h2: u64| hs1.contains(h2) && #[trigger] group_of(search.a_groups, h2).contains(p[k]);
                assert(hs.contains(h2));
                assert(h2 != h);
            }
            assert(m2[p[k] as int] == m1[p[k] as int]);
        }
        assert(pairs_one_to_one(an, bn, m2)) by {
            if !hs1.contains(h) {
                assert forall|i: usize| #[trigger] an.contains(i) implies m2[i as int] is Some && bn.contains(m2[i as int]->0) by {
                    assert(an.to_set().contains(i));
                    assert(p.to_set().contains(i));
                    let k = choose|k: int| 0 <= k < p.len() && p[k] == i;
                    assert(m2[p[k] as int] == Some(bn[k]));
                    assert(bn.contains(bn[k]));
                }
                assert forall|j: usize| #[trigger] bn.contains(j) implies exists|i: usize| an.contains(i) && m2[i as int] == Some(j) by {
                    let k = choose|k: int| 0 <= k < bn.len() && bn[k] == j;
                    assert(m2[p[k] as int] == Some(bn[k]));
                    assert(p.to_set().contains(p[k]));
                    assert(an.to_set().contains(p[k]));
                    assert(an.contains(p[k]));
                }
                assert forall|i1: usize, i2: usize|
                    #[trigger] an.contains(i1) && #[trigger] an.contains(i2) && m2[i1 as int] == m2[i2 as int] implies i1 == i2 by {
                    assert(an.to_set().contains(i1));
                    assert(p.to_set().contains(i1));
                    assert(an.to_set().contains(i2));
                    assert(p.to_set().contains(i2));
                    let k1 = choose|k: int| 0 <= k < p.len() && p[k] == i1;
                    let k2 = choose|k: int| 0 <= k < p.len() && p[k] == i2;
                    assert(m2[p[k1] as int] == Some(bn[k1]));
                    assert(m2[p[k2] as int] == Some(bn[k2]));
                }
            }
        }
        assert forall|h2: u64| #[trigger] hs.contains(h2) implies pairs_one_to_one(
            group_of(search.a_groups, h2),
            group_of(search.b_groups, h2),
            m2,
        ) by {
            if h2 != h {
                lemma_contains_not_last(hs, h2);
            }
        }
        assert forall|i: int| 0 <= i < m.len() && !in_pending_group(search, hs, i as usize) implies #[trigger] m2[i] == m[i] by {
            if in_pending_group(search, hs1, i as usize) {
                let h2 = choose|h2: u64| hs1.contains(h2) && #[trigger] group_of(search.a_groups, h2).contains(i as usize);
                assert(hs.contains(h2));
            }
            if p.contains(i as usize) {
                assert(p.to_set().contains(i as usize));
                assert(an.to_set().contains(i as usize));
                assert(an.contains(i as usize));
            }
        }
        m2
    }
}

/// A completion of `m` that renames `a` into a part of `b` makes the search
/// from `m` succeed.
proof fn lemma_completion_gives_search_ok(
    search: Search,
    hs: Seq<u64>,
    m: Seq<Option<usize>>,
    m2: Seq<Option<usize>>,
)
    requires
        groups_fit(search, hs, m),
        completes(search, hs, m, m2),
        search.contained(m2),
    ensures
        search.search_ok(hs, m),
    decreases hs.len(),
{
    if hs.len() == 0 {
        assert forall|i: int| 0 <= i < m.len() implies #[trigger] m2[i] == m[i] by {
            assert(!in_pending_group(search, hs, i as usize));
        }
        assert(m2 =~= m);
    } else {
        let h = hs.last();
        let hs1 = hs.drop_last();
        let an = group_of(search.a_groups, h);
        let bn = group_of(search.b_groups, h);
        assert(hs.contains(h));
        assert(pairs_one_to_one(an, bn, m2));
        let p = Seq::new(
            bn.len(),
            |k: int| choose|i: usize| an.contains(i) && m2[i as int] == Some(bn[k]),
        );
        assert forall|k: int| 0 <= k < p.len() implies an.contains(#[trigger] p[k]) && m2[p[k] as int] == Some(bn[k]) by {
            assert(bn.contains(bn[k]));
        }
        assert(p.no_duplicates()) by {
            assert forall|k1: int, k2: int| 0 <= k1 < p.len() && 0 <= k2 < p.len() && k1 != k2 implies #[trigger] p[k1] != #[trigger] p[k2] by {
                assert(m2[p[k1] as int] == Some(bn[k1]));
                assert(m2[p[k2] as int] == Some(bn[k2]));
            }
        }
        assert(p.to_set() =~= an.to_set()) by {
            assert forall|i: usize| an.to_set().contains(i) implies p.to_set().contains(i) by {
                assert(an.contains(i));
                let j = m2[i as int]->0;
                assert(bn.contains(j));
                let k = choose|k: int| 0 <= k < bn.len() && bn[k] == j;
                assert(an.contains(p[k]) && m2[p[k] as int] == Some(bn[k]));
                assert(p[k] == i);
                assert(p.contains(i));
            }
            assert forall|i: usize| p.to_set().contains(i) implies an.to_set().contains(i) by {
                let k = choose|k: int| 0 <= k < p.len() && p[k] == i;
                assert(an.contains(p[k]));
            }
        }
        lemma_same_elements_permutation(p, an);
        assert forall|k: int| 0 <= k < p.len() implies #[trigger] p[k] < m.len() by {
            assert(an.contains(p[k]));
            let j = choose|j: int| 0 <= j < an.len() && an[j] == p[k];
            assert(an[j] < m.len());
        }
        lemma_assign(m, p, bn);
        let m1 = assign(m, p, bn);
        assert forall|h2: u64| #[trigger] hs1.contains(h2) implies hs.contains(h2) by {
            lemma_contains_of_drop_last(hs, h2);
        }
        assert(groups_fit(search, hs1, m1));
        assert forall|i: int| 0 <= i < m1.len() && !in_pending_group(search, hs1, i as usize) implies #[trigger] m2[i] == m1[i] by {
            if an.contains(i as usize) {
                assert(an.to_set().contains(i as usize));
                assert(p.to_set().contains(i as usize));
                let k = choose|k: int| 0 <= k < p.len() && p[k] == i as usize;
                assert(m2[p[k] as int] == Some(bn[k]));
                assert(m1[p[k] as int] == Some(bn[k]));
            } else {
                if in_pending_group(search, hs, i as usize) {
                    let h2 = choose|h2: u64| hs.contains(h2) && #[trigger] group_of(search.a_groups, h2).contains(i as usize);
                    lemma_contains_not_last(hs, h2);
                }
                if p.contains(i as usize) {
                    let k = choose|k: int| 0 <= k < p.len() && p[k] == i as usize;
                    assert(an.contains(p[k]));
                }
            }
        }
        assert(completes(search, hs1, m1, m2));
        lemma_completion_gives_search_ok(search, hs1, m1, m2);
        assert(is_permutation_of(p, an) && search.search_ok(hs1, m1));
    }
}

/// The search from `m` succeeds exactly when some completion of `m`, one
/// one-to-one pairing per hash of `hs`, renames `a` into a part of `b`.
pub proof fn lemma_search_ok_iff_completion(search: Search, hs: Seq<u64>, m: Seq<Option<usize>>)
    requires
        groups_fit(search, hs, m),
    ensures
        search.search_ok(hs, m) == exists|m2: Seq<Option<usize>>|
            completes(search, hs, m, m2) && search.contained(m2),
{
    if search.search_ok(hs, m) {
        let m2 = lemma_search_ok_gives_completion(search, hs, m);
        assert(completes(search, hs, m, m2) && search.contained(m2));
    }
    if exists|m2: Seq<Option<usize>>| completes(search, hs, m, m2) && search.contained(m2) {
        let m2 = choose|m2: Seq<Option<usize>>| completes(search, hs, m, m2) && search.contained(m2);
        lemma_completion_gives_search_ok(search, hs, m, m2);
    }
}

/// Whether `m` pairs two groups one to one depends only on which positions
/// they hold.
proof fn lemma_pairs_same_elements(
    a1: Seq<usize>,
    b1: Seq<usize>,
    a2: Seq<usize>,
    b2: Seq<usize>,
    m: Seq<Option<usize>>,
)
    requires
        is_permutation_of(a1, a2),
        is_permutation_of(b1, b2),
    ensures
        pairs_one_to_one(a1, b1, m) == pairs_one_to_one(a2, b2, m),
{
    lemma_permutation_facts(a1, a2);
    lemma_permutation_facts(b1, b2);
    assert forall|i: usize| a1.contains(i) == a2.contains(i) by {
        assert(a1.to_set().contains(i) == a2.to_set().contains(i));
    }
    assert forall|j: usize| b1.contains(j) == b2.contains(j) by {
        assert(b1.to_set().contains(j) == b2.to_set().contains(j));
    }
}

/// The search does not depend on the order in which the hashes are taken,
/// nor on the order of the positions within each group: two searches over
/// the same datasets and node lists, whose hashes still to see are the same
/// set and whose groups for those hashes hold the same positions, succeed
/// or fail together.
pub proof fn lemma_search_order_independent(
    s1: Search,
    hs1: Seq<u64>,
    s2: Search,
    hs2: Seq<u64>,
    m: Seq<Option<usize>>,
)
    requires
        s1.a == s2.a,
        s1.b == s2.b,
        s1.a_nodes == s2.a_nodes,
        s1.b_nodes == s2.b_nodes,
        hs1.to_set() == hs2.to_set(),
        forall|h: u64|
            #[trigger] hs1.contains(h) ==> is_permutation_of(
                group_of(s1.a_groups, h),
                group_of(s2.a_groups, h),
            ) && is_permutation_of(group_of(s1.b_groups, h), group_of(s2.b_groups, h)),
        groups_fit(s1, hs1, m),
    ensures
        s1.search_ok(hs1, m) == s2.search_ok(hs2, m),
{
    assert forall|h: u64| hs1.contains(h) == hs2.contains(h) by {
        assert(hs1.to_set().contains(h) == hs1.contains(h));
        assert(hs2.to_set().contains(h) == hs2.contains(h));
    }
    assert forall|h: u64, i: usize| hs1.contains(h) implies
        #[trigger] group_of(s1.a_groups, h).contains(i) == #[trigger] group_of(s2.a_groups, h).contains(i) by {
        lemma_permutation_facts(group_of(s1.a_groups, h), group_of(s2.a_groups, h));
        assert(group_of(s1.a_groups, h).to_set().contains(i) == group_of(s2.a_groups, h).to_set().contains(i));
    }
    assert(groups_fit(s2, hs2, m)) by {
        assert forall|h: u64| #[trigger] hs2.contains(h) implies {
            &&& group_of(s2.a_groups, h).no_duplicates()
            &&& group_of(s2.b_groups, h).no_duplicates()
            &&& forall|k: int|
                0 <= k < group_of(s2.a_groups, h).len() ==> #[trigger] group_of(s2.a_groups, h)[k]
                    < m.len()
        } by {
            assert(hs1.contains(h));
            let g1 = group_of(s1.a_groups, h);
            let g2 = group_of(s2.a_groups, h);
            lemma_permutation_facts(g2, g1);
            lemma_permutation_facts(group_of(s2.b_groups, h), group_of(s1.b_groups, h));
            assert forall|k: int| 0 <= k < g2.len() implies #[trigger] g2[k] < m.len() by {
                assert(g2.to_set().contains(g2[k]));
                assert(g1.to_set().contains(g2[k]));
                let j = choose|j: int| 0 <= j < g1.len() && g1[j] == g2[k];
                assert(g1[j] < m.len());
            }
        }
        assert forall|h1: u64, h2: u64, i: usize|
            hs2.contains(h1) && hs2.contains(h2) && h1 != h2 && #[trigger] group_of(s2.a_groups, h1).contains(i)
            implies !#[trigger] group_of(s2.a_groups, h2).contains(i) by {
            assert(hs1.contains(h1) && hs1.contains(h2));
            assert(group_of(s1.a_groups, h1).contains(i));
            assert(!group_of(s1.a_groups, h2).contains(i));
            assert(group_of(s1.a_groups, h2).contains(i) == group_of(s2.a_groups, h2).contains(i));
        }
    }
    assert forall|m2: Seq<Option<usize>>|
        completes(s1, hs1, m, m2) == completes(s2, hs2, m, m2) by {
        assert forall|h: u64| #[trigger] hs1.contains(h) implies pairs_one_to_one(
            group_of(s1.a_groups, h),
            group_of(s1.b_groups, h),
            m2,
        ) == pairs_one_to_one(group_of(s2.a_groups, h), group_of(s2.b_groups, h), m2) by {
            lemma_pairs_same_elements(
                group_of(s1.a_groups, h),
                group_of(s1.b_groups, h),
                group_of(s2.a_groups, h),
                group_of(s2.b_groups, h),
                m2,
            );
        }
        assert forall|i: usize| in_pending_group(s1, hs1, i) == in_pending_group(s2, hs2, i) by {
            if in_pending_group(s1, hs1, i) {
                let h = choose|h: u64| hs1.contains(h) && #[trigger] group_of(s1.a_groups, h).contains(i);
                assert(hs2.contains(h) && group_of(s2.a_groups, h).contains(i));
            }
            if in_pending_group(s2, hs2, i) {
                let h = choose|h: u64| hs2.contains(h) && #[trigger] group_of(s2.a_groups, h).contains(i);
                assert(hs1.contains(h) && group_of(s1.a_groups, h).contains(i));
            }
        }
        if completes(s1, hs1, m, m2) {
            assert forall|h: u64| #[trigger] hs2.contains(h) implies pairs_one_to_one(
                group_of(s2.a_groups, h),
                group_of(s2.b_groups, h),
                m2,
            ) by {
                assert(hs1.contains(h));
            }
        }
        if completes(s2, hs2, m, m2) {
            assert forall|h: u64| #[trigger] hs1.contains(h) implies pairs_one_to_one(
                group_of(s1.a_groups, h),
                group_of(s1.b_groups, h),
                m2,
            ) by {
                assert(hs2.contains(h));
            }
        }
    }
    assert forall|m2: Seq<Option<usize>>| s1.contained(m2) == s2.contained(m2) by {}
    lemma_search_ok_iff_completion(s1, hs1, m);
    lemma_search_ok_iff_completion(s2, hs2, m);
    if s1.search_ok(hs1, m) {
        let m2 = choose|m2: Seq<Option<usize>>| completes(s1, hs1, m, m2) && s1.contained(m2);
        assert(completes(s2, hs2, m, m2) && s2.contained(m2));
    }
    if s2.search_ok(hs2, m) {
        let m2 = choose|m2: Seq<Option<usize>>| completes(s2, hs2, m, m2) && s2.contained(m2);
        assert(completes(s1, hs1, m, m2) && s1.contained(m2));
    }
}

/// The groups of a well-formed search suit a search from any mapping of
/// `a`'s positions that the machine can index, whatever hashes are left.
pub proof fn lemma_well_formed_groups_fit(search: Search, hs: Seq<u64>, m: Seq<Option<usize>>)
    requires
        search.well_formed(),
        m.len() == search.a_nodes.len(),
        m.len() <= usize::MAX,
    ensures
        groups_fit(search, hs, m),
{
    assert forall|h: u64| #[trigger] hs.contains(h) implies {
        &&& group_of(search.a_groups, h).no_duplicates()
        &&& group_of(search.b_groups, h).no_duplicates()
        &&& forall|k: int|
            0 <= k < group_of(search.a_groups, h).len() ==> #[trigger] group_of(search.a_groups, h)[k]
                < m.len()
    } by {
        if search.a_groups.contains_key(h) {
            assert(search.a_groups[h].no_duplicates());
        }
        if search.b_groups.contains_key(h) {
            assert(search.b_groups[h].no_duplicates());
        }
    }
}

// ---------------------------------------------------------------------------
// What is hashed for a blank node
// ---------------------------------------------------------------------------

/// The writes of the fields of a key: two per field, the field first.
proof fn lemma_fields_writes(k: Seq<Seq<u8>>)
    ensures
        fields_writes(k).len() == 2 * k.len(),
        forall|j: int| 0 <= j < k.len() ==> fields_writes(k)[2 * j] == #[trigger] k[j],
    decreases k.len(),
{
    if k.len() > 0 {
        let d = k.drop_last();
        lemma_fields_writes(d);
        assert forall|j: int| 0 <= j < k.len() implies fields_writes(k)[2 * j] == #[trigger] k[j] by {
            if j < k.len() - 1 {
                assert(d[j] == k[j]);
                assert(fields_writes(k)[2 * j] == fields_writes(d)[2 * j]);
            }
        }
    }
}

/// Writes that start with the writes of a key are read back into that key
/// and the writes that follow it.
proof fn lemma_key_writes_prefix(
    k1: Seq<Seq<u8>>,
    r1: Seq<Seq<u8>>,
    k2: Seq<Seq<u8>>,
    r2: Seq<Seq<u8>>,
)
    requires
        key_writes(k1) + r1 == key_writes(k2) + r2,
    ensures
        k1 == k2,
        r1 == r2,
{
    let w1 = key_writes(k1);
    let w2 = key_writes(k2);
    lemma_fields_writes(k1);
    lemma_fields_writes(k2);
    assert((w1 + r1)[0] == Seq::new(k1.len(), |i: int| 0u8));
    assert((w2 + r2)[0] == Seq::new(k2.len(), |i: int| 0u8));
    assert(k1.len() == Seq::new(k1.len(), |i: int| 0u8).len());
    assert(k2.len() == Seq::new(k2.len(), |i: int| 0u8).len());
    assert(w1.len() == w2.len());
    assert(w1 =~= (w1 + r1).subrange(0, w1.len() as int));
    assert(w2 =~= (w2 + r2).subrange(0, w2.len() as int));
    assert(r1 =~= (w1 + r1).subrange(w1.len() as int, (w1 + r1).len() as int));
    assert(r2 =~= (w2 + r2).subrange(w2.len() as int, (w2 + r2).len() as int));
    assert forall|j: int| 0 <= j < k1.len() implies k1[j] == k2[j] by {
        assert(w1[2 + 2 * j] == fields_writes(k1)[2 * j]);
        assert(w2[2 + 2 * j] == fields_writes(k2)[2 * j]);
        assert(fields_writes(k1)[2 * j] == k1[j]);
        assert(fields_writes(k2)[2 * j] == k2[j]);
    }
    assert(k1 =~= k2);
}

/// Writes that start with the writes of as many keys are read back into
/// those keys and the writes that follow them.
proof fn lemma_key_list_writes_prefix(
    ks1: Seq<Seq<Seq<u8>>>,
    r1: Seq<Seq<u8>>,
    ks2: Seq<Seq<Seq<u8>>>,
    r2: Seq<Seq<u8>>,
)
    requires
        ks1.len() == ks2.len(),
        key_list_writes(ks1) + r1 == key_list_writes(ks2) + r2,
    ensures
        ks1 == ks2,
        r1 == r2,
    decreases ks1.len(),
{
    if ks1.len() == 0 {
        assert(key_list_writes(ks1) + r1 =~= r1);
        assert(key_list_writes(ks2) + r2 =~= r2);
        assert(ks1 =~= ks2);
    } else {
        let t1 = key_list_writes(ks1.drop_first()) + r1;
        let t2 = key_list_writes(ks2.drop_first()) + r2;
        assert(key_list_writes(ks1) + r1 =~= key_writes(ks1[0]) + t1);
        assert(key_list_writes(ks2) + r2 =~= key_writes(ks2[0]) + t2);
        lemma_key_writes_prefix(ks1[0], t1, ks2[0], t2);
        lemma_key_list_writes_prefix(ks1.drop_first(), r1, ks2.drop_first(), r2);
        assert forall|j: int| 0 <= j < ks1.len() implies ks1[j] == ks2[j] by {
            if j > 0 {
                assert(ks1.drop_first()[j - 1] == ks2.drop_first()[j - 1]);
            }
        }
        assert(ks1 =~= ks2);
    }
}

/// Writes that start with the writes of a sequence of keys are read back
/// into that sequence and the writes that follow it.
proof fn lemma_keys_writes_prefix(
    ks1: Seq<Seq<Seq<u8>>>,
    r1: Seq<Seq<u8>>,
    ks2: Seq<Seq<Seq<u8>>>,
    r2: Seq<Seq<u8>>,
)
    requires
        keys_writes(ks1) + r1 == keys_writes(ks2) + r2,
    ensures
        ks1 == ks2,
        r1 == r2,
{
    let a = keys_writes(ks1) + r1;
    let b = keys_writes(ks2) + r2;
    assert(a[0] == Seq::new(ks1.len(), |i: int| 0u8));
    assert(b[0] == Seq::new(ks2.len(), |i: int| 0u8));
    assert(ks1.len() == Seq::new(ks1.len(), |i: int| 0u8).len());
    assert(ks2.len() == Seq::new(ks2.len(), |i: int| 0u8).len());
    assert(a.skip(2) =~= key_list_writes(ks1) + r1);
    assert(b.skip(2) =~= key_list_writes(ks2) + r2);
    lemma_key_list_writes_prefix(ks1, r1, ks2, r2);
}

/// Puts `x` into a strictly increasing sequence of keys, keeping it increasing.
spec fn insert_in_order(l: Seq<Seq<Seq<u8>>>, x: Seq<Seq<u8>>) -> Seq<Seq<Seq<u8>>>
    decreases l.len(),
{
    if l.len() == 0 {
        seq![x]
    } else if key_lt(x, l[0]) {
        seq![x] + l
    } else {
        seq![l[0]] + insert_in_order(l.drop_first(), x)
    }
}

/// Putting a new key into an increasing sequence keeps it increasing and
/// adds the key to its elements.
proof fn lemma_insert_in_order(l: Seq<Seq<Seq<u8>>>, x: Seq<Seq<u8>>)
    requires
        sorted_by(l, key_order()),
        !l.contains(x),
    ensures
        sorted_by(insert_in_order(l, x), key_order()),
        insert_in_order(l, x).to_set() == l.to_set().insert(x),
    decreases l.len(),
{
    lemma_key_order_strict_total();
    let r = insert_in_order(l, x);
    if l.len() == 0 {
        assert(r.to_set() =~= l.to_set().insert(x)) by {
            assert(r[0] == x);
        }
    } else if key_lt(x, l[0]) {
        assert(r == seq![x] + l);
        assert forall|i: int, j: int| 0 <= i < j < r.len() implies #[trigger] key_order()(r[i], r[j]) by {
            if i == 0 {
                assert(r[j] == l[j - 1]);
                if j - 1 > 0 {
                    assert(key_order()(l[0], l[j - 1]));
                    assert(key_order()(x, l[0]));
                }
            } else {
                assert(key_order()(l[i - 1], l[j - 1]));
            }
        }
        assert(r.to_set() =~= l.to_set().insert(x)) by {
            assert forall|y: Seq<Seq<u8>>| r.to_set().contains(y) implies l.to_set().insert(x).contains(y) by {
                let i = choose|i: int| 0 <= i < r.len() && r[i] == y;
                if i > 0 {
                    assert(l[i - 1] == y);
                }
            }
            assert forall|y: Seq<Seq<u8>>| l.to_set().insert(x).contains(y) implies r.to_set().contains(y) by {
                if y == x {
                    assert(r[0] == x);
                } else {
                    let i = choose|i: int| 0 <= i < l.len() && l[i] == y;
                    assert(r[i + 1] == y);
                }
            }
        }
    } else {
        let t = l.drop_first();
        assert(sorted_by(t, key_order())) by {
            assert forall|i: int, j: int| 0 <= i < j < t.len() implies #[trigger] key_order()(t[i], t[j]) by {
                assert(key_order()(l[i + 1], l[j + 1]));
            }
        }
        assert(!t.contains(x)) by {
            if t.contains(x) {
                let i = choose|i: int| 0 <= i < t.len() && t[i] == x;
                assert(l[i + 1] == x);
            }
        }
        lemma_insert_in_order(t, x);
        let rt = insert_in_order(t, x);
        assert(r == seq![l[0]] + rt);
        assert(x != l[0]) by {
            assert(l[0] == l[0]);
            if x == l[0] {
                assert(l.contains(l[0]));
            }
        }
        assert(key_lt(l[0], x)) by {
            assert(key_order()(l[0], x) || key_order()(x, l[0]));
        }
        assert forall|i: int, j: int| 0 <= i < j < r.len() implies #[trigger] key_order()(r[i], r[j]) by {
            if i == 0 {
                let y = rt[j - 1];
                assert(r[j] == y);
                assert(rt.to_set().contains(y));
                assert(t.to_set().insert(x).contains(y));
                if y == x {
                    assert(key_order()(l[0], x));
                } else {
                    let m = choose|m: int| 0 <= m < t.len() && t[m] == y;
                    assert(l[m + 1] == y);
                    assert(key_order()(l[0], l[m + 1]));
                }
            } else {
                assert(r[i] == rt[i - 1]);
                assert(r[j] == rt[j - 1]);
                assert(key_order()(rt[i - 1], rt[j - 1]));
            }
        }
        assert(r.to_set() =~= l.to_set().insert(x)) by {
            assert forall|y: Seq<Seq<u8>>| r.to_set().contains(y) implies l.to_set().insert(x).contains(y) by {
                let i = choose|i: int| 0 <= i < r.len() && r[i] == y;
                if i > 0 {
                    assert(rt[i - 1] == y);
                    assert(rt.to_set().contains(y));
                    assert(t.to_set().insert(x).contains(y));
                    if y != x {
                        let m = choose|m: int| 0 <= m < t.len() && t[m] == y;
                        assert(l[m + 1] == y);
                    }
                }
            }
            assert forall|y: Seq<Seq<u8>>| l.to_set().insert(x).contains(y) implies r.to_set().contains(y) by {
                if y == l[0] {
                    assert(r[0] == y);
                } else {
                    if y != x {
                        let i = choose|i: int| 0 <= i < l.len() && l[i] == y;
                        assert(i > 0);
                        assert(t[i - 1] == y);
                        assert(t.to_set().contains(y));
                    }
                    assert(rt.to_set().contains(y));
                    let m = choose|m: int| 0 <= m < rt.len() && rt[m] == y;
                    assert(r[m + 1] == y);
                }
            }
        }
    }
}

/// Every finite set of keys has an increasing enumeration.
proof fn lemma_sorted_seq_exists(s: Set<Seq<Seq<u8>>>) -> (l: Seq<Seq<Seq<u8>>>)
    requires
        s.finite(),
    ensures
        sorted_by(l, key_order()),
        l.to_set() == s,
    decreases s.len(),
{
    if s.len() == 0 {
        s.lemma_len0_is_empty();
        let l = Seq::<Seq<Seq<u8>>>::empty();
        assert(l.to_set() =~= s);
        l
    } else {
        let x = s.choose();
        let l0 = lemma_sorted_seq_exists(s.remove(x));
        assert(!l0.contains(x)) by {
            assert(l0.to_set().contains(x) == l0.contains(x));
        }
        lemma_insert_in_order(l0, x);
        let l = insert_in_order(l0, x);
        assert(l.to_set() =~= s);
        l
    }
}

/// The sorted enumeration of a finite set of keys is increasing and holds
/// exactly its elements.
proof fn lemma_sorted_enumeration_of(s: Set<Seq<Seq<u8>>>)
    requires
        s.finite(),
    ensures
        sorted_enumeration(s).to_set() == s,
{
    let l = lemma_sorted_seq_exists(s);
    assert(sorted_by(l, key_order()) && l.to_set() == s);
}

/// A finite dataset gives a blank node finitely many keys.
proof fn lemma_keys_finite(d: Set<QuadModel>, x: Seq<char>)
    requires
        d.finite(),
    ensures
        predicate_object_keys(d, x).finite(),
        subject_predicate_keys(d, x).finite(),
{
    let fpo = |q: QuadModel| predicate_object_key(q.predicate, q.object);
    let fsp = |q: QuadModel| subject_predicate_key(q.subject, q.predicate);
    d.lemma_map_finite(fpo);
    d.lemma_map_finite(fsp);
    assert forall|k: Seq<Seq<u8>>| predicate_object_keys(d, x).contains(k) implies d.map(fpo).contains(k) by {
        let q = choose|q: QuadModel| #![trigger d.contains(q)] d.contains(q) && q.subject == TermModel::Blank(x) && !(q.object is Blank) && k == predicate_object_key(q.predicate, q.object);
        assert(fpo(q) == k);
    }
    assert forall|k: Seq<Seq<u8>>| subject_predicate_keys(d, x).contains(k) implies d.map(fsp).contains(k) by {
        let q = choose|q: QuadModel| #![trigger d.contains(q)] d.contains(q) && q.object == TermModel::Blank(x) && !(q.subject is Blank) && k == subject_predicate_key(q.subject, q.predicate);
        assert(fsp(q) == k);
    }
    vstd::set_lib::lemma_set_subset_finite(d.map(fpo), predicate_object_keys(d, x));
    vstd::set_lib::lemma_set_subset_finite(d.map(fsp), subject_predicate_keys(d, x));
}

/// What is hashed for a blank node determines both of its key sets: two
/// blank nodes of finite datasets whose writes to the hasher are the same
/// have the same (predicate, object) keys and the same (subject, predicate)
/// keys.
pub proof fn lemma_hash_input_determines_keys(
    d1: Set<QuadModel>,
    x1: Seq<char>,
    d2: Set<QuadModel>,
    x2: Seq<char>,
)
    requires
        d1.finite(),
        d2.finite(),
        hash_input(d1, x1) == hash_input(d2, x2),
    ensures
        predicate_object_keys(d1, x1) == predicate_object_keys(d2, x2),
        subject_predicate_keys(d1, x1) == subject_predicate_keys(d2, x2),
{
    let po1 = sorted_enumeration(predicate_object_keys(d1, x1));
    let po2 = sorted_enumeration(predicate_object_keys(d2, x2));
    let sp1 = sorted_enumeration(subject_predicate_keys(d1, x1));
    let sp2 = sorted_enumeration(subject_predicate_keys(d2, x2));
    lemma_keys_writes_prefix(po1, keys_writes(sp1), po2, keys_writes(sp2));
    assert(keys_writes(sp1) + Seq::<Seq<u8>>::empty() =~= keys_writes(sp2) + Seq::<Seq<u8>>::empty());
    lemma_keys_writes_prefix(sp1, Seq::<Seq<u8>>::empty(), sp2, Seq::<Seq<u8>>::empty());
    lemma_keys_finite(d1, x1);
    lemma_keys_finite(d2, x2);
    lemma_sorted_enumeration_of(predicate_object_keys(d1, x1));
    lemma_sorted_enumeration_of(predicate_object_keys(d2, x2));
    lemma_sorted_enumeration_of(subject_predicate_keys(d1, x1));
    lemma_sorted_enumeration_of(subject_predicate_keys(d2, x2));
}

} // verus!
