//! Deciding whether two RDF datasets are the same up to a renaming of
//! their blank nodes.
//!
//! Each blank node gets a hash of what surrounds it that does not depend on
//! blank node names (the predicates and objects of the quads it is the
//! subject of, and the subjects and predicates of the quads it is the object
//! of). Blank nodes of the two datasets can only correspond when their
//! hashes agree, so the search for a renaming tries, hash by hash, every
//! one-to-one pairing of the blank nodes that share that hash.

use std::collections::hash_map::DefaultHasher;
use std::collections::HashMap;
use std::hash::Hasher;
use vstd::prelude::*;
use vstd::slice::slice_to_vec;
use vstd::std_specs::hash::DefaultHasherAdditionalSpecFns;

use vstd::relations::injective_on;

use crate::model::{
    has_object, has_subject, OwnedBlankNode, OwnedDataset, OwnedLiteral, OwnedNamedNode,
    OwnedNamedOrBlankNode, OwnedQuad, OwnedTerm, QuadModel, TermModel,
};
use crate::order::{
    insert_sorted, key_order, key_view, keys_view, lemma_key_order_strict_total,
    lemma_lex_irreflexive, lemma_lex_total, lemma_lex_transitive, lemma_sorted_unique, lex_lt,
    sorted_by,
};
use crate::permutation::{
    bounded_by, index_order, is_permutation_of, lemma_index_order_strict_total,
    lemma_permutation_facts, lemma_rank_bound, lemma_rank_monotonic, lemma_sorted_is_first,
    next_permutation, power, rank, sort_positions,
};

verus! {

// ---------------------------------------------------------------------------
// What isomorphism means
// ---------------------------------------------------------------------------

/// The quad mentions the blank node `x` as subject, object or graph name.
pub open spec fn mentions_blank(q: QuadModel, x: Seq<char>) -> bool {
    ||| q.subject == TermModel::Blank(x)
    ||| q.object == TermModel::Blank(x)
    ||| q.graph_name == Some(TermModel::Blank(x))
}

/// The identifiers of the blank nodes that occur in a set of quads.
pub open spec fn blank_nodes_of(ds: Set<QuadModel>) -> Set<Seq<char>> {
    Set::new(|x: Seq<char>| exists|q: QuadModel| ds.contains(q) && mentions_blank(q, x))
}

/// Renames a blank node through `f`; other terms are left as they are.
pub open spec fn rename_term(t: TermModel, f: Map<Seq<char>, Seq<char>>) -> TermModel {
    match t {
        TermModel::Blank(x) => TermModel::Blank(f[x]),
        _ => t,
    }
}

/// Renames the blank nodes of a quad through `f`.
pub open spec fn rename_quad(q: QuadModel, f: Map<Seq<char>, Seq<char>>) -> QuadModel {
    QuadModel {
        subject: rename_term(q.subject, f),
        predicate: q.predicate,
        object: rename_term(q.object, f),
        graph_name: match q.graph_name {
            Some(g) => Some(rename_term(g, f)),
            None => None,
        },
    }
}

/// `f` is a one-to-one renaming of the blank nodes of `a` that turns `a`
/// into `b`.
pub open spec fn is_isomorphism(
    a: Set<QuadModel>,
    b: Set<QuadModel>,
    f: Map<Seq<char>, Seq<char>>,
) -> bool {
    &&& f.dom() == blank_nodes_of(a)
    &&& f.is_injective()
    &&& a.map(renamer(f)) == b
}

/// `rename_quad` through `f`, as a function value.
pub open spec fn renamer(f: Map<Seq<char>, Seq<char>>) -> spec_fn(QuadModel) -> QuadModel {
    |q: QuadModel| rename_quad(q, f)
}

/// `a` and `b` are equal up to a one-to-one renaming of blank nodes.
pub open spec fn isomorphic(a: Set<QuadModel>, b: Set<QuadModel>) -> bool {
    exists|f: Map<Seq<char>, Seq<char>>| is_isomorphism(a, b, f)
}

// ---------------------------------------------------------------------------
// The hash of a blank node
// ---------------------------------------------------------------------------

/// The UTF-8 encoding of a string.
pub open spec fn utf8(s: Seq<char>) -> Seq<u8> {
    vstd::utf8::encode_utf8(s)
}

/// A term as a key: its kind, then its text fields. Keys order terms as
/// Rust's derived `Ord` on the term types does.
pub open spec fn term_key(t: TermModel) -> Seq<Seq<u8>> {
    match t {
        TermModel::Named(iri) => seq![seq![0u8], utf8(iri)],
        TermModel::Blank(id) => seq![seq![1u8], utf8(id)],
        TermModel::Simple(v) => seq![seq![2u8], seq![0u8], utf8(v)],
        TermModel::LangString(v, l) => seq![seq![2u8], seq![1u8], utf8(v), utf8(l)],
        TermModel::Typed(v, d) => seq![seq![2u8], seq![2u8], utf8(v), utf8(d)],
    }
}

/// The key of a (predicate, object) pair.
pub open spec fn predicate_object_key(p: Seq<char>, o: TermModel) -> Seq<Seq<u8>> {
    seq![utf8(p)] + term_key(o)
}

/// The key of a (subject, predicate) pair.
pub open spec fn subject_predicate_key(s: TermModel, p: Seq<char>) -> Seq<Seq<u8>> {
    term_key(s) + seq![utf8(p)]
}

/// The keys of the (predicate, object) pairs, with an object that is not a
/// blank node, of the quads whose subject is the blank node `x`.
pub open spec fn predicate_object_keys(ds: Set<QuadModel>, x: Seq<char>) -> Set<Seq<Seq<u8>>> {
    Set::new(
        |k: Seq<Seq<u8>>|
            exists|q: QuadModel|
                #![trigger ds.contains(q)]
                ds.contains(q) && q.subject == TermModel::Blank(x) && !(q.object is Blank) && k
                    == predicate_object_key(q.predicate, q.object),
    )
}

/// The keys of the (subject, predicate) pairs, with a subject that is not a
/// blank node, of the quads whose object is the blank node `x`.
pub open spec fn subject_predicate_keys(ds: Set<QuadModel>, x: Seq<char>) -> Set<Seq<Seq<u8>>> {
    Set::new(
        |k: Seq<Seq<u8>>|
            exists|q: QuadModel|
                #![trigger ds.contains(q)]
                ds.contains(q) && q.object == TermModel::Blank(x) && !(q.subject is Blank) && k
                    == subject_predicate_key(q.subject, q.predicate),
    )
}

/// The enumeration of a finite set of keys in increasing order.
pub open spec fn sorted_enumeration(s: Set<Seq<Seq<u8>>>) -> Seq<Seq<Seq<u8>>> {
    choose|l: Seq<Seq<Seq<u8>>>| sorted_by(l, key_order()) && l.to_set() == s
}

/// The byte written after each field, so that field boundaries count.
pub open spec fn field_end() -> Seq<u8> {
    seq![0xffu8]
}

/// The writes that announce a count `n`: `n` zero bytes, then `field_end()`.
pub open spec fn count_writes(n: nat) -> Seq<Seq<u8>> {
    seq![Seq::new(n, |i: int| 0u8), field_end()]
}

/// The writes of the fields of a key: each field, then `field_end()`.
pub open spec fn fields_writes(k: Seq<Seq<u8>>) -> Seq<Seq<u8>>
    decreases k.len(),
{
    if k.len() == 0 {
        Seq::empty()
    } else {
        fields_writes(k.drop_last()) + seq![k.last(), field_end()]
    }
}

/// The writes to the hasher for one key: its number of fields, then its fields.
pub open spec fn key_writes(k: Seq<Seq<u8>>) -> Seq<Seq<u8>> {
    count_writes(k.len()) + fields_writes(k)
}

/// The writes of the keys of a sequence, one key after the other.
pub open spec fn key_list_writes(ks: Seq<Seq<Seq<u8>>>) -> Seq<Seq<u8>>
    decreases ks.len(),
{
    if ks.len() == 0 {
        Seq::empty()
    } else {
        key_writes(ks[0]) + key_list_writes(ks.drop_first())
    }
}

/// The writes to the hasher for a sequence of keys: their number, then the
/// keys in order.
pub open spec fn keys_writes(ks: Seq<Seq<Seq<u8>>>) -> Seq<Seq<u8>> {
    count_writes(ks.len()) + key_list_writes(ks)
}

/// What is fed to the hasher for the blank node `x`: the writes of its
/// (predicate, object) keys in increasing order, then those of its
/// (subject, predicate) keys in increasing order.
pub open spec fn hash_input(ds: Set<QuadModel>, x: Seq<char>) -> Seq<Seq<u8>> {
    keys_writes(sorted_enumeration(predicate_object_keys(ds, x))) + keys_writes(
        sorted_enumeration(subject_predicate_keys(ds, x)),
    )
}

/// The hash of the blank node `x` in `ds`.
pub open spec fn blank_node_hash(ds: Set<QuadModel>, x: Seq<char>) -> u64 {
    DefaultHasher::spec_finish(hash_input(ds, x))
}

// ---------------------------------------------------------------------------
// Neighbourhoods of a term
// ---------------------------------------------------------------------------

/// A subject and a predicate of a quad.
struct SubjectPredicate<'a> {
    subject: &'a OwnedNamedOrBlankNode,
    predicate: &'a OwnedNamedNode,
}

/// A predicate and an object of a quad.
struct PredicateObject<'a> {
    predicate: &'a OwnedNamedNode,
    object: &'a OwnedTerm,
}

impl<'a> View for SubjectPredicate<'a> {
    type V = (TermModel, Seq<char>);

    closed spec fn view(&self) -> (TermModel, Seq<char>) {
        (self.subject@, self.predicate@)
    }
}

impl<'a> View for PredicateObject<'a> {
    type V = (Seq<char>, TermModel);

    closed spec fn view(&self) -> (Seq<char>, TermModel) {
        (self.predicate@, self.object@)
    }
}

/// The (subject, predicate) pairs of a sequence of quads.
pub open spec fn subject_predicates_of(qs: Seq<QuadModel>) -> Seq<(TermModel, Seq<char>)> {
    qs.map_values(|q: QuadModel| (q.subject, q.predicate))
}

/// The (predicate, object) pairs of a sequence of quads.
pub open spec fn predicate_objects_of(qs: Seq<QuadModel>) -> Seq<(Seq<char>, TermModel)> {
    qs.map_values(|q: QuadModel| (q.predicate, q.object))
}

/// The subject and predicate of each quad whose object is `object`.
fn subject_predicates_for_object<'a>(dataset: &'a OwnedDataset, object: &OwnedTerm) -> (res: Vec<
    SubjectPredicate<'a>,
>)
    ensures
        res@.map_values(|sp: SubjectPredicate<'a>| sp@) == subject_predicates_of(
            dataset.quad_seq().filter(has_object(object@)),
        ),
        res@.len() == dataset.quad_seq().filter(|q: QuadModel| q.object == object@).len(),
        forall|i: int|
            0 <= i < res@.len() ==> (#[trigger] res@[i])@ == (
                dataset.quad_seq().filter(|q: QuadModel| q.object == object@)[i].subject,
                dataset.quad_seq().filter(|q: QuadModel| q.object == object@)[i].predicate,
            ),
{
    let quads = dataset.triples_for_object(object);
    let ghost qs = dataset.quad_seq().filter(has_object(object@));
    let mut res: Vec<SubjectPredicate<'a>> = Vec::new();
    let mut i: usize = 0;
    while i < quads.len()
        invariant
            i <= quads@.len(),
            quads@.map_values(|q: &OwnedQuad| q@) == qs,
            res@.map_values(|sp: SubjectPredicate<'a>| sp@) == subject_predicates_of(
                qs.take(i as int),
            ),
        decreases quads@.len() - i,
    {
        let t = quads[i];
        let ghost prev = res@;
        let sp = SubjectPredicate { subject: &t.subject, predicate: &t.predicate };
        assert(sp@ == (qs[i as int].subject, qs[i as int].predicate));
        res.push(sp);
        proof {
            assert(res@ == prev.push(sp));
            assert(qs.take(i + 1) =~= qs.take(i as int).push(qs[i as int]));
            assert(prev.push(sp).map_values(|sp: SubjectPredicate<'a>| sp@) =~= prev.map_values(
                |sp: SubjectPredicate<'a>| sp@).push(sp@));
            assert(subject_predicates_of(qs.take(i + 1)) =~= subject_predicates_of(qs.take(i as int)).push(
                (qs[i as int].subject, qs[i as int].predicate)));
            assert(res@.map_values(|sp: SubjectPredicate<'a>| sp@) =~= subject_predicates_of(
                qs.take(i + 1),
            ));
        }
        i = i + 1;
    }
    proof {
        assert(qs.take(i as int) =~= qs);
        assert(has_object(object@) =~= (|q: QuadModel| q.object == object@));
        let rv = res@.map_values(|sp: SubjectPredicate<'a>| sp@);
        assert(rv.len() == res@.len());
        assert forall|i: int| 0 <= i < res@.len() implies (#[trigger] res@[i])@ == (
            qs[i].subject,
            qs[i].predicate,
        ) by {
            assert(rv[i] == res@[i]@);
            assert(subject_predicates_of(qs)[i] == (qs[i].subject, qs[i].predicate));
        }
    }
    res
}

/// The predicate and object of each quad whose subject is `subject`.
fn predicate_objects_for_subject<'a>(
    dataset: &'a OwnedDataset,
    subject: &OwnedNamedOrBlankNode,
) -> (res: Vec<PredicateObject<'a>>)
    ensures
        res@.map_values(|po: PredicateObject<'a>| po@) == predicate_objects_of(
            dataset.quad_seq().filter(has_subject(subject@)),
        ),
        res@.len() == dataset.quad_seq().filter(|q: QuadModel| q.subject == subject@).len(),
        forall|i: int|
            0 <= i < res@.len() ==> (#[trigger] res@[i])@ == (
                dataset.quad_seq().filter(|q: QuadModel| q.subject == subject@)[i].predicate,
                dataset.quad_seq().filter(|q: QuadModel| q.subject == subject@)[i].object,
            ),
{
    let quads = dataset.triples_for_subject(subject);
    let ghost qs = dataset.quad_seq().filter(has_subject(subject@));
    let mut res: Vec<PredicateObject<'a>> = Vec::new();
    let mut i: usize = 0;
    while i < quads.len()
        invariant
            i <= quads@.len(),
            quads@.map_values(|q: &OwnedQuad| q@) == qs,
            res@.map_values(|po: PredicateObject<'a>| po@) == predicate_objects_of(
                qs.take(i as int),
            ),
        decreases quads@.len() - i,
    {
        let t = quads[i];
        let ghost prev = res@;
        let po = PredicateObject { predicate: &t.predicate, object: &t.object };
        assert(po@ == (qs[i as int].predicate, qs[i as int].object));
        res.push(po);
        proof {
            assert(res@ == prev.push(po));
            assert(qs.take(i + 1) =~= qs.take(i as int).push(qs[i as int]));
            assert(prev.push(po).map_values(|po: PredicateObject<'a>| po@) =~= prev.map_values(
                |po: PredicateObject<'a>| po@).push(po@));
            assert(predicate_objects_of(qs.take(i + 1)) =~= predicate_objects_of(qs.take(i as int)).push(
                (qs[i as int].predicate, qs[i as int].object)));
            assert(res@.map_values(|po: PredicateObject<'a>| po@) =~= predicate_objects_of(
                qs.take(i + 1),
            ));
        }
        i = i + 1;
    }
    proof {
        assert(qs.take(i as int) =~= qs);
        assert(has_subject(subject@) =~= (|q: QuadModel| q.subject == subject@));
        let rv = res@.map_values(|po: PredicateObject<'a>| po@);
        assert(rv.len() == res@.len());
        assert forall|i: int| 0 <= i < res@.len() implies (#[trigger] res@[i])@ == (
            qs[i].predicate,
            qs[i].object,
        ) by {
            assert(rv[i] == res@[i]@);
            assert(predicate_objects_of(qs)[i] == (qs[i].predicate, qs[i].object));
        }
    }
    res
}


// ---------------------------------------------------------------------------
// Keys and hashes
// ---------------------------------------------------------------------------

/// The UTF-8 bytes of a string.
fn string_bytes(s: &String) -> (res: Vec<u8>)
    ensures
        res@ == utf8(s@),
{
    slice_to_vec(s.as_str().as_bytes())
}

/// A one-byte field.
fn tag(b: u8) -> (res: Vec<u8>)
    ensures
        res@ == seq![b],
{
    let mut v: Vec<u8> = Vec::new();
    v.push(b);
    proof {
        assert(v@ =~= seq![b]);
    }
    v
}

/// The key of an IRI in term position.
fn encode_named_node(n: &OwnedNamedNode) -> (res: Vec<Vec<u8>>)
    ensures
        key_view(res) == term_key(TermModel::Named(n@)),
{
    let mut k: Vec<Vec<u8>> = Vec::new();
    k.push(tag(0));
    k.push(string_bytes(&n.iri));
    proof {
        assert(key_view(k) =~= term_key(TermModel::Named(n@)));
    }
    k
}

/// The key of a blank node in term position.
fn encode_blank_node(b: &OwnedBlankNode) -> (res: Vec<Vec<u8>>)
    ensures
        key_view(res) == term_key(TermModel::Blank(b@)),
{
    let mut k: Vec<Vec<u8>> = Vec::new();
    k.push(tag(1));
    k.push(string_bytes(&b.id));
    proof {
        assert(key_view(k) =~= term_key(TermModel::Blank(b@)));
    }
    k
}

/// The key of a term.
fn encode_term(t: &OwnedTerm) -> (res: Vec<Vec<u8>>)
    ensures
        key_view(res) == term_key(t@),
{
    match t {
        OwnedTerm::NamedNode(n) => encode_named_node(n),
        OwnedTerm::BlankNode(b) => encode_blank_node(b),
        OwnedTerm::Literal(l) => {
            let mut k: Vec<Vec<u8>> = Vec::new();
            k.push(tag(2));
            match l {
                OwnedLiteral::Simple { value } => {
                    k.push(tag(0));
                    k.push(string_bytes(value));
                },
                OwnedLiteral::LanguageTaggedString { value, language } => {
                    k.push(tag(1));
                    k.push(string_bytes(value));
                    k.push(string_bytes(language));
                },
                OwnedLiteral::Typed { value, datatype } => {
                    k.push(tag(2));
                    k.push(string_bytes(value));
                    k.push(string_bytes(&datatype.iri));
                },
            }
            proof {
                assert(key_view(k) =~= term_key(t@));
            }
            k
        },
    }
}

/// The key of a subject.
fn encode_subject(s: &OwnedNamedOrBlankNode) -> (res: Vec<Vec<u8>>)
    ensures
        key_view(res) == term_key(s@),
{
    match s {
        OwnedNamedOrBlankNode::NamedNode(n) => encode_named_node(n),
        OwnedNamedOrBlankNode::BlankNode(b) => encode_blank_node(b),
    }
}

/// The key of a (predicate, object) pair.
fn encode_predicate_object(po: &PredicateObject) -> (res: Vec<Vec<u8>>)
    ensures
        key_view(res) == predicate_object_key(po@.0, po@.1),
{
    let mut k: Vec<Vec<u8>> = Vec::new();
    k.push(string_bytes(&po.predicate.iri));
    let mut rest = encode_term(po.object);
    let ghost first = k@;
    let ghost tail = rest@;
    k.append(&mut rest);
    proof {
        assert(k@ == first + tail);
        assert(key_view(k) =~= predicate_object_key(po@.0, po@.1));
    }
    k
}

/// The key of a (subject, predicate) pair.
fn encode_subject_predicate(sp: &SubjectPredicate) -> (res: Vec<Vec<u8>>)
    ensures
        key_view(res) == subject_predicate_key(sp@.0, sp@.1),
{
    let mut k = encode_subject(sp.subject);
    let ghost before = k@;
    k.push(string_bytes(&sp.predicate.iri));
    proof {
        assert(k@ == before.push(k@.last()));
        assert(key_view(k) =~= subject_predicate_key(sp@.0, sp@.1));
    }
    k
}

/// `n` zero bytes.
fn zeros(n: usize) -> (res: Vec<u8>)
    ensures
        res@ == Seq::new(n as nat, |i: int| 0u8),
{
    let mut v: Vec<u8> = Vec::new();
    let mut i: usize = 0;
    while i < n
        invariant
            i <= n,
            v@ == Seq::new(i as nat, |j: int| 0u8),
        decreases n - i,
    {
        v.push(0);
        i = i + 1;
        proof {
            assert(v@ =~= Seq::new(i as nat, |j: int| 0u8));
        }
    }
    v
}

/// Adding a key at the end of a sequence adds its writes at the end.
proof fn lemma_key_list_writes_push(ks: Seq<Seq<Seq<u8>>>, k: Seq<Seq<u8>>)
    ensures
        key_list_writes(ks.push(k)) == key_list_writes(ks) + key_writes(k),
    decreases ks.len(),
{
    if ks.len() == 0 {
        assert(ks.push(k).drop_first() =~= Seq::<Seq<Seq<u8>>>::empty());
        assert(key_list_writes(ks.push(k).drop_first()) == Seq::<Seq<u8>>::empty());
        assert(ks.push(k)[0] == k);
        assert(key_list_writes(ks) == Seq::<Seq<u8>>::empty());
        assert(key_list_writes(ks.push(k)) =~= key_list_writes(ks) + key_writes(k));
    } else {
        assert(ks.push(k).drop_first() =~= ks.drop_first().push(k));
        lemma_key_list_writes_push(ks.drop_first(), k);
        assert(key_list_writes(ks.push(k)) =~= key_list_writes(ks) + key_writes(k));
    }
}

/// Feeds the number of keys, then for each key its number of fields and its
/// fields, to the hasher; each count and each field is followed by the byte
/// 0xff.
fn write_keys(hasher: &mut DefaultHasher, keys: &Vec<Vec<Vec<u8>>>)
    ensures
        final(hasher)@ == old(hasher)@ + keys_writes(keys_view(keys@)),
{
    let ghost ks = keys_view(keys@);
    let end = tag(0xff);
    let count = zeros(keys.len());
    hasher.write(count.as_slice());
    hasher.write(end.as_slice());
    let ghost head = hasher@;
    let mut i: usize = 0;
    proof {
        assert(ks.take(0) =~= Seq::<Seq<Seq<u8>>>::empty());
        assert(head =~= old(hasher)@ + count_writes(ks.len()));
        assert(hasher@ =~= head + key_list_writes(ks.take(0)));
    }
    while i < keys.len()
        invariant
            i <= keys@.len(),
            ks == keys_view(keys@),
            end@ == field_end(),
            head == old(hasher)@ + count_writes(ks.len()),
            hasher@ == head + key_list_writes(ks.take(i as int)),
        decreases keys@.len() - i,
    {
        let key = &keys[i];
        let ghost fields = key_view(*key);
        let ghost before_key = hasher@;
        let field_count = zeros(key.len());
        hasher.write(field_count.as_slice());
        hasher.write(end.as_slice());
        let ghost start = hasher@;
        let mut j: usize = 0;
        proof {
            assert(fields.take(0) =~= Seq::<Seq<u8>>::empty());
            assert(hasher@ =~= start + fields_writes(fields.take(0)));
        }
        while j < key.len()
            invariant
                j <= key@.len(),
                fields == key_view(*key),
                end@ == field_end(),
                hasher@ == start + fields_writes(fields.take(j as int)),
            decreases key@.len() - j,
        {
            let ghost before = hasher@;
            hasher.write(key[j].as_slice());
            hasher.write(end.as_slice());
            proof {
                let t = fields.take(j + 1);
                assert(t.drop_last() =~= fields.take(j as int));
                assert(t.last() == fields[j as int]);
                assert(fields[j as int] == key@[j as int]@);
                assert(hasher@ =~= start + fields_writes(t));
            }
            j = j + 1;
        }
        proof {
            assert(fields.take(j as int) =~= fields);
            assert(ks[i as int] == fields);
            assert(fields.len() == key@.len());
            assert(start =~= before_key + count_writes(fields.len()));
            assert(hasher@ =~= before_key + key_writes(fields));
            assert(ks.take(i + 1) =~= ks.take(i as int).push(fields));
            lemma_key_list_writes_push(ks.take(i as int), fields);
            assert(hasher@ =~= head + key_list_writes(ks.take(i + 1)));
        }
        i = i + 1;
    }
    proof {
        assert(ks.take(i as int) =~= ks);
        assert(hasher@ =~= old(hasher)@ + keys_writes(ks));
    }
}

/// A sorted sequence with the elements of `s` is the sorted enumeration of `s`.
proof fn lemma_sorted_enumeration(l: Seq<Seq<Seq<u8>>>, s: Set<Seq<Seq<u8>>>)
    requires
        sorted_by(l, key_order()),
        l.to_set() == s,
    ensures
        sorted_enumeration(s) == l,
{
    lemma_key_order_strict_total();
    let c = sorted_enumeration(s);
    assert(sorted_by(c, key_order()) && c.to_set() == s);
    lemma_sorted_unique(c, l, key_order());
}


/// The keys of the (predicate, object) pairs, with a non-blank object, of
/// the first `n` quads of `qs`.
spec fn predicate_object_keys_upto(qs: Seq<QuadModel>, n: int) -> Set<Seq<Seq<u8>>> {
    Set::new(
        |k: Seq<Seq<u8>>|
            exists|j: int|
                0 <= j < n && (#[trigger] qs[j]).object !is Blank && k == predicate_object_key(
                    qs[j].predicate,
                    qs[j].object,
                ),
    )
}

/// The keys of the (subject, predicate) pairs, with a non-blank subject, of
/// the first `n` quads of `qs`.
spec fn subject_predicate_keys_upto(qs: Seq<QuadModel>, n: int) -> Set<Seq<Seq<u8>>> {
    Set::new(
        |k: Seq<Seq<u8>>|
            exists|j: int|
                0 <= j < n && (#[trigger] qs[j]).subject !is Blank && k == subject_predicate_key(
                    qs[j].subject,
                    qs[j].predicate,
                ),
    )
}

/// Over all the quads with subject `x`, the collected keys are those of
/// `predicate_object_keys`.
proof fn lemma_predicate_object_keys(qs: Seq<QuadModel>, x: Seq<char>)
    ensures
        predicate_object_keys_upto(
            qs.filter(has_subject(TermModel::Blank(x))),
            qs.filter(has_subject(TermModel::Blank(x))).len() as int,
        ) == predicate_object_keys(qs.to_set(), x),
{
    broadcast use vstd::seq_lib::group_filter_ensures;

    let p = has_subject(TermModel::Blank(x));
    let f = qs.filter(p);
    let lhs = predicate_object_keys_upto(f, f.len() as int);
    let rhs = predicate_object_keys(qs.to_set(), x);
    assert forall|k: Seq<Seq<u8>>| lhs.contains(k) implies rhs.contains(k) by {
        let j = choose|j: int|
            0 <= j < f.len() && (#[trigger] f[j]).object !is Blank && k == predicate_object_key(
                f[j].predicate,
                f[j].object,
            );
        assert(f.contains(f[j]));
        qs.lemma_filter_contains_rev(p, f[j]);
        assert(p(f[j]));
        assert(qs.to_set().contains(f[j]));
    }
    assert forall|k: Seq<Seq<u8>>| rhs.contains(k) implies lhs.contains(k) by {
        let q = choose|q: QuadModel|
            #![trigger qs.to_set().contains(q)]
            qs.to_set().contains(q) && q.subject == TermModel::Blank(x) && !(q.object is Blank)
                && k == predicate_object_key(q.predicate, q.object);
        let i = choose|i: int| 0 <= i < qs.len() && qs[i] == q;
        assert(p(qs[i]));
        assert(f.contains(q));
        let j = choose|j: int| 0 <= j < f.len() && f[j] == q;
        assert(f[j].object !is Blank);
    }
    assert(lhs =~= rhs);
}

/// Over all the quads with object `x`, the collected keys are those of
/// `subject_predicate_keys`.
proof fn lemma_subject_predicate_keys(qs: Seq<QuadModel>, x: Seq<char>)
    ensures
        subject_predicate_keys_upto(
            qs.filter(has_object(TermModel::Blank(x))),
            qs.filter(has_object(TermModel::Blank(x))).len() as int,
        ) == subject_predicate_keys(qs.to_set(), x),
{
    broadcast use vstd::seq_lib::group_filter_ensures;

    let p = has_object(TermModel::Blank(x));
    let f = qs.filter(p);
    let lhs = subject_predicate_keys_upto(f, f.len() as int);
    let rhs = subject_predicate_keys(qs.to_set(), x);
    assert forall|k: Seq<Seq<u8>>| lhs.contains(k) implies rhs.contains(k) by {
        let j = choose|j: int|
            0 <= j < f.len() && (#[trigger] f[j]).subject !is Blank && k == subject_predicate_key(
                f[j].subject,
                f[j].predicate,
            );
        assert(f.contains(f[j]));
        qs.lemma_filter_contains_rev(p, f[j]);
        assert(p(f[j]));
        assert(qs.to_set().contains(f[j]));
    }
    assert forall|k: Seq<Seq<u8>>| rhs.contains(k) implies lhs.contains(k) by {
        let q = choose|q: QuadModel|
            #![trigger qs.to_set().contains(q)]
            qs.to_set().contains(q) && q.object == TermModel::Blank(x) && !(q.subject is Blank)
                && k == subject_predicate_key(q.subject, q.predicate);
        let i = choose|i: int| 0 <= i < qs.len() && qs[i] == q;
        assert(p(qs[i]));
        assert(f.contains(q));
        let j = choose|j: int| 0 <= j < f.len() && f[j] == q;
        assert(f[j].subject !is Blank);
    }
    assert(lhs =~= rhs);
}

/// Computes the hash of a blank node: the keys of its surroundings are
/// gathered in sorted sets, which fixes the order in which they are hashed.
fn hash_blank_node(bnode: &OwnedBlankNode, dataset: &OwnedDataset) -> (res: u64)
    ensures
        res == blank_node_hash(dataset@, bnode@),
{
    let ghost x = bnode@;
    let ghost qs = dataset.quad_seq();
    let mut hasher = DefaultHasher::new();
    let subject = OwnedNamedOrBlankNode::BlankNode(bnode.clone());
    let pos = predicate_objects_for_subject(dataset, &subject);
    let ghost fs = qs.filter(has_subject(TermModel::Blank(x)));
    let mut po_set: Vec<Vec<Vec<u8>>> = Vec::new();
    proof {
        assert(keys_view(po_set@).to_set() =~= predicate_object_keys_upto(fs, 0));
    }
    let mut i: usize = 0;
    while i < pos.len()
        invariant
            i <= pos@.len(),
            pos@.map_values(|po: PredicateObject| po@) == predicate_objects_of(fs),
            sorted_by(keys_view(po_set@), key_order()),
            keys_view(po_set@).to_set() == predicate_object_keys_upto(fs, i as int),
        decreases pos@.len() - i,
    {
        let po = &pos[i];
        proof {
            assert(pos@.map_values(|po: PredicateObject| po@).len() == pos@.len());
            assert(fs.len() == pos@.len());
            assert(po@ == predicate_objects_of(fs)[i as int]);
            assert(po@ == (fs[i as int].predicate, fs[i as int].object));
        }
        match po.object {
            OwnedTerm::BlankNode(_) => {
                proof {
                    assert(predicate_object_keys_upto(fs, i + 1) =~= predicate_object_keys_upto(fs, i as int));
                }
            },
            _ => {
                let key = encode_predicate_object(po);
                insert_sorted(&mut po_set, key);
                proof {
                    assert(predicate_object_keys_upto(fs, i + 1) =~= predicate_object_keys_upto(fs, i as int).insert(
                        predicate_object_key(fs[i as int].predicate, fs[i as int].object)));
                }
            },
        }
        i = i + 1;
    }
    proof {
        assert(pos@.map_values(|po: PredicateObject| po@).len() == pos@.len());
        assert(fs.len() == pos@.len());
        lemma_predicate_object_keys(qs, x);
        lemma_sorted_enumeration(keys_view(po_set@), predicate_object_keys(dataset@, x));
    }
    write_keys(&mut hasher, &po_set);

    let object = OwnedTerm::BlankNode(bnode.clone());
    let sps = subject_predicates_for_object(dataset, &object);
    let ghost fo = qs.filter(has_object(TermModel::Blank(x)));
    let mut sp_set: Vec<Vec<Vec<u8>>> = Vec::new();
    proof {
        assert(keys_view(sp_set@).to_set() =~= subject_predicate_keys_upto(fo, 0));
    }
    let mut i: usize = 0;
    while i < sps.len()
        invariant
            i <= sps@.len(),
            sps@.map_values(|sp: SubjectPredicate| sp@) == subject_predicates_of(fo),
            sorted_by(keys_view(sp_set@), key_order()),
            keys_view(sp_set@).to_set() == subject_predicate_keys_upto(fo, i as int),
        decreases sps@.len() - i,
    {
        let sp = &sps[i];
        proof {
            assert(sps@.map_values(|sp: SubjectPredicate| sp@).len() == sps@.len());
            assert(fo.len() == sps@.len());
            assert(sp@ == subject_predicates_of(fo)[i as int]);
            assert(sp@ == (fo[i as int].subject, fo[i as int].predicate));
        }
        match sp.subject {
            OwnedNamedOrBlankNode::BlankNode(_) => {
                proof {
                    assert(subject_predicate_keys_upto(fo, i + 1) =~= subject_predicate_keys_upto(fo, i as int));
                }
            },
            _ => {
                let key = encode_subject_predicate(sp);
                insert_sorted(&mut sp_set, key);
                proof {
                    assert(subject_predicate_keys_upto(fo, i + 1) =~= subject_predicate_keys_upto(fo, i as int).insert(
                        subject_predicate_key(fo[i as int].subject, fo[i as int].predicate)));
                }
            },
        }
        i = i + 1;
    }
    proof {
        assert(sps@.map_values(|sp: SubjectPredicate| sp@).len() == sps@.len());
        assert(fo.len() == sps@.len());
        lemma_subject_predicate_keys(qs, x);
        lemma_sorted_enumeration(keys_view(sp_set@), subject_predicate_keys(dataset@, x));
    }
    write_keys(&mut hasher, &sp_set);
    proof {
        assert(hasher@ =~= hash_input(dataset@, x));
    }
    hasher.finish()
}


// ---------------------------------------------------------------------------
// The search for a renaming
// ---------------------------------------------------------------------------

/// The identifiers of a sequence of blank nodes.
pub open spec fn node_ids(v: Seq<&OwnedBlankNode>) -> Seq<Seq<char>> {
    v.map_values(|n: &OwnedBlankNode| n@)
}

/// The views of the groups of a map from hashes to index vectors.
pub open spec fn group_views(m: Map<u64, Vec<usize>>) -> Map<u64, Seq<usize>> {
    m.map_values(|v: Vec<usize>| v@)
}

/// Everything the search for a renaming from `a` to `b` works with: the
/// blank nodes of both datasets, and their positions grouped by hash.
pub struct Search {
    pub a: Set<QuadModel>,
    pub b: Set<QuadModel>,
    pub a_nodes: Seq<Seq<char>>,
    pub b_nodes: Seq<Seq<char>>,
    pub a_groups: Map<u64, Seq<usize>>,
    pub b_groups: Map<u64, Seq<usize>>,
}

/// The positions of `a`'s blank nodes with hash `h` (none when `h` is not a key).
pub open spec fn group_of(groups: Map<u64, Seq<usize>>, h: u64) -> Seq<usize> {
    if groups.contains_key(h) {
        groups[h]
    } else {
        Seq::empty()
    }
}

/// Sets `m[keys[k]]` to `vals[k]` for each `k` in turn.
pub open spec fn assign(m: Seq<Option<usize>>, keys: Seq<usize>, vals: Seq<usize>) -> Seq<
    Option<usize>,
>
    decreases keys.len(),
{
    if keys.len() == 0 || vals.len() == 0 {
        m
    } else {
        assign(m, keys.drop_last(), vals.drop_last()).update(
            keys.last() as int,
            Some(vals.last()),
        )
    }
}

/// The renaming of blank node identifiers that a mapping between positions
/// in `a_nodes` and positions in `b_nodes` stands for.
pub open spec fn renaming(
    a_nodes: Seq<Seq<char>>,
    b_nodes: Seq<Seq<char>>,
    m: Seq<Option<usize>>,
) -> Map<Seq<char>, Seq<char>> {
    Map::new(
        |x: Seq<char>| exists|i: int| 0 <= i < a_nodes.len() && a_nodes[i] == x && m[i] is Some,
        |x: Seq<char>| b_nodes[m[a_nodes.index_of(x)]->0 as int],
    )
}

/// Every blank node of every quad of `a` is renamed, and the renamed quad is in `b`.
pub open spec fn contained(
    a: Set<QuadModel>,
    b: Set<QuadModel>,
    a_nodes: Seq<Seq<char>>,
    b_nodes: Seq<Seq<char>>,
    m: Seq<Option<usize>>,
) -> bool {
    forall|q: QuadModel|
        #![trigger a.contains(q)]
        a.contains(q) ==> (forall|x: Seq<char>|
            mentions_blank(q, x) ==> renaming(a_nodes, b_nodes, m).dom().contains(x)) && b.contains(
            rename_quad(q, renaming(a_nodes, b_nodes, m)),
        )
}

impl Search {
    /// Every quad of `a`, renamed through `m`, is in `b`.
    pub open spec fn contained(self, m: Seq<Option<usize>>) -> bool {
        contained(self.a, self.b, self.a_nodes, self.b_nodes, m)
    }

    /// Whether some choice, for each hash of `hs`, of a one-to-one pairing of
    /// the blank nodes of `a` with that hash with those of `b` with that hash,
    /// added to `m`, renames `a` into a part of `b`.
    pub open spec fn search_ok(self, hs: Seq<u64>, m: Seq<Option<usize>>) -> bool
        decreases hs.len(),
    {
        if hs.len() == 0 {
            self.contained(m)
        } else {
            let an = group_of(self.a_groups, hs.last());
            let bn = group_of(self.b_groups, hs.last());
            &&& an.len() == bn.len()
            &&& exists|p: Seq<usize>|
                #[trigger] is_permutation_of(p, an) && self.search_ok(
                    hs.drop_last(),
                    assign(m, p, bn),
                )
        }
    }

    /// The shape of the search data: duplicate-free node lists, the first one
    /// holding exactly the blank nodes of `a`, and disjoint groups of valid,
    /// distinct positions.
    pub open spec fn well_formed(self) -> bool {
        &&& self.a_nodes.no_duplicates()
        &&& self.b_nodes.no_duplicates()
        &&& self.a_nodes.to_set() == blank_nodes_of(self.a)
        &&& forall|h: u64|
            #![trigger self.a_groups.contains_key(h)]
            self.a_groups.contains_key(h) ==> {
                &&& self.a_groups[h].no_duplicates()
                &&& forall|k: int|
                    0 <= k < self.a_groups[h].len() ==> #[trigger] self.a_groups[h][k]
                        < self.a_nodes.len()
            }
        &&& forall|h: u64|
            #![trigger self.b_groups.contains_key(h)]
            self.b_groups.contains_key(h) ==> {
                &&& self.b_groups[h].no_duplicates()
                &&& forall|k: int|
                    0 <= k < self.b_groups[h].len() ==> #[trigger] self.b_groups[h][k]
                        < self.b_nodes.len()
            }
        &&& forall|h1: u64, h2: u64, i: usize|
            h1 != h2 && #[trigger] group_of(self.a_groups, h1).contains(i) ==> !#[trigger] group_of(
                self.a_groups,
                h2,
            ).contains(i)
    }
}

/// In a duplicate-free sequence, `index_of` finds the one position of an element.
proof fn lemma_index_of_unique<A>(s: Seq<A>, i: int)
    requires
        s.no_duplicates(),
        0 <= i < s.len(),
    ensures
        s.index_of(s[i]) == i,
{
    let j = s.index_of(s[i]);
    assert(s.contains(s[i]));
    assert(0 <= j < s.len() && s[j] == s[i]);
}

/// What `assign` does, position by position.
pub(crate) proof fn lemma_assign(m: Seq<Option<usize>>, keys: Seq<usize>, vals: Seq<usize>)
    requires
        keys.no_duplicates(),
        keys.len() == vals.len(),
        forall|k: int| 0 <= k < keys.len() ==> #[trigger] keys[k] < m.len(),
    ensures
        assign(m, keys, vals).len() == m.len(),
        forall|k: int| 0 <= k < keys.len() ==> assign(m, keys, vals)[#[trigger] keys[k] as int] == Some(vals[k]),
        forall|i: int| 0 <= i < m.len() && !keys.contains(i as usize) ==> #[trigger] assign(m, keys, vals)[i] == m[i],
    decreases keys.len(),
{
    if keys.len() > 0 {
        let kd = keys.drop_last();
        let vd = vals.drop_last();
        assert(kd.no_duplicates());
        assert forall|k: int| 0 <= k < kd.len() implies #[trigger] kd[k] < m.len() by {
            assert(kd[k] == keys[k]);
        }
        lemma_assign(m, kd, vd);
        let r = assign(m, keys, vals);
        assert forall|k: int| 0 <= k < keys.len() implies r[#[trigger] keys[k] as int] == Some(vals[k]) by {
            if k < keys.len() - 1 {
                assert(kd[k] == keys[k]);
                assert(keys[k] != keys.last());
            }
        }
        assert forall|i: int| 0 <= i < m.len() && !keys.contains(i as usize) implies #[trigger] r[i] == m[i] by {
            assert(i != keys.last());
            if kd.contains(i as usize) {
                let k = choose|k: int| 0 <= k < kd.len() && kd[k] == i as usize;
                assert(keys[k] == i as usize);
            }
        }
    }
}


/// The position of a blank node in a list of distinct blank nodes.
fn position_of(nodes: &Vec<&OwnedBlankNode>, node: &OwnedBlankNode) -> (res: usize)
    requires
        node_ids(nodes@).contains(node@),
    ensures
        res < nodes@.len(),
        node_ids(nodes@)[res as int] == node@,
{
    let mut i: usize = 0;
    while i < nodes.len()
        invariant
            i <= nodes@.len(),
            node_ids(nodes@).contains(node@),
            forall|j: int| 0 <= j < i ==> node_ids(nodes@)[j] != node@,
        decreases nodes@.len() - i,
    {
        if nodes[i].equals(node) {
            return i;
        }
        i = i + 1;
    }
    proof {
        let j = choose|j: int| 0 <= j < node_ids(nodes@).len() && node_ids(nodes@)[j] == node@;
        assert(node_ids(nodes@)[j] == node@);
    }
    0
}

/// The mapping pairs every position of `a_nodes` with a position of `b_nodes`.
pub open spec fn total_mapping(m: Seq<Option<usize>>, a_len: nat, b_len: nat) -> bool {
    &&& m.len() == a_len
    &&& forall|i: int| 0 <= i < m.len() ==> (#[trigger] m[i] is Some && m[i]->0 < b_len)
}

/// The blank node that `node` is renamed to.
fn rename_blank_node(
    node: &OwnedBlankNode,
    mapping: &Vec<Option<usize>>,
    a_bnodes: &Vec<&OwnedBlankNode>,
    b_bnodes: &Vec<&OwnedBlankNode>,
) -> (res: OwnedBlankNode)
    requires
        node_ids(a_bnodes@).no_duplicates(),
        node_ids(a_bnodes@).contains(node@),
        total_mapping(mapping@, a_bnodes@.len(), b_bnodes@.len()),
    ensures
        renaming(node_ids(a_bnodes@), node_ids(b_bnodes@), mapping@).dom().contains(node@),
        res@ == renaming(node_ids(a_bnodes@), node_ids(b_bnodes@), mapping@)[node@],
{
    let i = position_of(a_bnodes, node);
    proof {
        lemma_index_of_unique(node_ids(a_bnodes@), i as int);
        assert(mapping@[i as int] is Some);
    }
    let j = match mapping[i] {
        Some(j) => j,
        None => 0,
    };
    b_bnodes[j].clone()
}

/// Renames a subject (or graph name).
fn rename_subject(
    s: &OwnedNamedOrBlankNode,
    mapping: &Vec<Option<usize>>,
    a_bnodes: &Vec<&OwnedBlankNode>,
    b_bnodes: &Vec<&OwnedBlankNode>,
) -> (res: OwnedNamedOrBlankNode)
    requires
        node_ids(a_bnodes@).no_duplicates(),
        s@ is Blank ==> node_ids(a_bnodes@).contains(s@->Blank_0),
        total_mapping(mapping@, a_bnodes@.len(), b_bnodes@.len()),
    ensures
        res@ == rename_term(s@, renaming(node_ids(a_bnodes@), node_ids(b_bnodes@), mapping@)),
{
    match s {
        OwnedNamedOrBlankNode::BlankNode(s_a) => OwnedNamedOrBlankNode::BlankNode(
            rename_blank_node(s_a, mapping, a_bnodes, b_bnodes),
        ),
        OwnedNamedOrBlankNode::NamedNode(_) => s.clone(),
    }
}

/// Renames an object.
fn rename_object(
    o: &OwnedTerm,
    mapping: &Vec<Option<usize>>,
    a_bnodes: &Vec<&OwnedBlankNode>,
    b_bnodes: &Vec<&OwnedBlankNode>,
) -> (res: OwnedTerm)
    requires
        node_ids(a_bnodes@).no_duplicates(),
        o@ is Blank ==> node_ids(a_bnodes@).contains(o@->Blank_0),
        total_mapping(mapping@, a_bnodes@.len(), b_bnodes@.len()),
    ensures
        res@ == rename_term(o@, renaming(node_ids(a_bnodes@), node_ids(b_bnodes@), mapping@)),
{
    match o {
        OwnedTerm::BlankNode(o_a) => OwnedTerm::BlankNode(
            rename_blank_node(o_a, mapping, a_bnodes, b_bnodes),
        ),
        _ => o.clone(),
    }
}

/// Whether every quad of `a`, with its blank nodes renamed through the
/// mapping, is a quad of `b`.
fn check_is_contained(
    a_to_b_mapping: &Vec<Option<usize>>,
    a: &OwnedDataset,
    b: &OwnedDataset,
    a_bnodes: &Vec<&OwnedBlankNode>,
    b_bnodes: &Vec<&OwnedBlankNode>,
) -> (res: bool)
    requires
        node_ids(a_bnodes@).no_duplicates(),
        blank_nodes_of(a@).subset_of(node_ids(a_bnodes@).to_set()),
        total_mapping(a_to_b_mapping@, a_bnodes@.len(), b_bnodes@.len()),
    ensures
        res == contained(a@, b@, node_ids(a_bnodes@), node_ids(b_bnodes@), a_to_b_mapping@),
{
    let ghost an = node_ids(a_bnodes@);
    let ghost ren = renaming(an, node_ids(b_bnodes@), a_to_b_mapping@);
    let quads = a.quads();
    let ghost qs = a.quad_seq();
    proof {
        assert forall|q: QuadModel, x: Seq<char>| a@.contains(q) && mentions_blank(q, x) implies ren.dom().contains(x) && an.contains(x) by {
            assert(blank_nodes_of(a@).contains(x));
            assert(an.to_set().contains(x));
            let i = choose|i: int| 0 <= i < an.len() && an[i] == x;
            assert(a_to_b_mapping@[i] is Some);
        }
    }
    let mut i: usize = 0;
    while i < quads.len()
        invariant
            i <= quads@.len(),
            quads@.map_values(|q: OwnedQuad| q@) == qs,
            qs.to_set() == a@,
            an == node_ids(a_bnodes@),
            an.no_duplicates(),
            ren == renaming(an, node_ids(b_bnodes@), a_to_b_mapping@),
            total_mapping(a_to_b_mapping@, a_bnodes@.len(), b_bnodes@.len()),
            forall|q: QuadModel, x: Seq<char>| a@.contains(q) && mentions_blank(q, x) ==> ren.dom().contains(x) && an.contains(x),
            forall|j: int| 0 <= j < i ==> b@.contains(rename_quad(#[trigger] qs[j], ren)),
        decreases quads@.len() - i,
    {
        let t_a = &quads[i];
        let ghost q = t_a@;
        proof {
            assert(qs[i as int] == q);
            assert(a@.contains(q));
            if q.subject is Blank {
                assert(mentions_blank(q, q.subject->Blank_0));
            }
            if q.object is Blank {
                assert(mentions_blank(q, q.object->Blank_0));
            }
        }
        let subject = rename_subject(&t_a.subject, a_to_b_mapping, a_bnodes, b_bnodes);
        let predicate = t_a.predicate.clone();
        let object = rename_object(&t_a.object, a_to_b_mapping, a_bnodes, b_bnodes);
        let graph_name = match &t_a.graph_name {
            Some(g) => {
                proof {
                    if g@ is Blank {
                        assert(mentions_blank(q, g@->Blank_0));
                    }
                }
                Some(rename_subject(g, a_to_b_mapping, a_bnodes, b_bnodes))
            },
            None => None,
        };
        let renamed = OwnedQuad { subject, predicate, object, graph_name };
        proof {
            assert(renamed@ == rename_quad(q, ren));
        }
        if !b.contains(&renamed) {
            return false;
        }
        i = i + 1;
    }
    proof {
        assert forall|q: QuadModel| a@.contains(q) implies b@.contains(rename_quad(q, ren)) by {
            let j = choose|j: int| 0 <= j < qs.len() && qs[j] == q;
        }
    }
    true
}


/// The search data of two datasets, their blank nodes, and their groups.
pub open spec fn search_of(
    a: &OwnedDataset,
    b: &OwnedDataset,
    a_bnodes: Seq<&OwnedBlankNode>,
    b_bnodes: Seq<&OwnedBlankNode>,
    a_groups: Map<u64, Vec<usize>>,
    b_groups: Map<u64, Vec<usize>>,
) -> Search {
    Search {
        a: a@,
        b: b@,
        a_nodes: node_ids(a_bnodes),
        b_nodes: node_ids(b_bnodes),
        a_groups: group_views(a_groups),
        b_groups: group_views(b_groups),
    }
}

/// Every assigned position of `m` points into `b_nodes`.
pub open spec fn partial_mapping(m: Seq<Option<usize>>, a_len: nat, b_len: nat) -> bool {
    &&& m.len() == a_len
    &&& forall|i: int| 0 <= i < m.len() && (#[trigger] m[i] is Some) ==> m[i]->0 < b_len
}

/// The blank nodes of the hashes still to see are unassigned, and every
/// other blank node is assigned.
pub open spec fn pending_exactly(search: Search, hs: Seq<u64>, m: Seq<Option<usize>>) -> bool {
    &&& forall|h: u64, i: usize|
        hs.contains(h) && #[trigger] group_of(search.a_groups, h).contains(i) ==> m[i as int] is None
    &&& forall|i: int|
        0 <= i < m.len() ==> #[trigger] m[i] is Some || exists|h: u64|
            hs.contains(h) && #[trigger] group_of(search.a_groups, h).contains(i as usize)
}

/// An element of `s.push(x)` other than `x` is an element of `s`.
proof fn lemma_contains_push<A>(s: Seq<A>, x: A, y: A)
    requires
        s.push(x).contains(y),
        y != x,
    ensures
        s.contains(y),
{
    let j = choose|j: int| 0 <= j < s.push(x).len() && s.push(x)[j] == y;
    assert(j < s.len());
    assert(s[j] == y);
}

/// The only ordering of a one-element sequence is itself.
proof fn lemma_single_permutation(p: Seq<usize>, s: Seq<usize>)
    requires
        s.len() == 1,
        is_permutation_of(p, s),
    ensures
        p == s,
{
    lemma_permutation_facts(p, s);
    assert(p.to_set().contains(p[0]));
    assert(s.to_set().contains(p[0]));
    assert(p =~= s);
}

/// The lexicographic order of indices is a strict order.
proof fn lemma_index_lex_asymmetric(s: Seq<usize>, t: Seq<usize>)
    requires
        lex_lt(s, t, index_order()),
    ensures
        !lex_lt(t, s, index_order()),
{
    lemma_index_order_strict_total();
    if lex_lt(t, s, index_order()) {
        lemma_lex_transitive(s, t, s, index_order());
        lemma_lex_irreflexive(s, index_order());
    }
}

/// Tries, hash after hash (taken from the end of `hashes_to_see`), every
/// one-to-one pairing of the blank nodes of `a` that have this hash with
/// those of `b` that have it, and checks the completed mapping with
/// `check_is_contained`. `hashes_to_see` and the mapping are given back as
/// they were.
#[verifier::loop_isolation(false)]
fn build_and_check_containment_from_hashes(
    hashes_to_see: &mut Vec<u64>,
    a_bnodes_by_hash: &HashMap<u64, Vec<usize>>,
    b_bnodes_by_hash: &HashMap<u64, Vec<usize>>,
    a_to_b_mapping: &mut Vec<Option<usize>>,
    a: &OwnedDataset,
    b: &OwnedDataset,
    a_bnodes: &Vec<&OwnedBlankNode>,
    b_bnodes: &Vec<&OwnedBlankNode>,
) -> (res: bool)
    requires
        search_of(a, b, a_bnodes@, b_bnodes@, a_bnodes_by_hash@, b_bnodes_by_hash@).well_formed(),
        old(hashes_to_see)@.no_duplicates(),
        partial_mapping(old(a_to_b_mapping)@, a_bnodes@.len(), b_bnodes@.len()),
        pending_exactly(
            search_of(a, b, a_bnodes@, b_bnodes@, a_bnodes_by_hash@, b_bnodes_by_hash@),
            old(hashes_to_see)@,
            old(a_to_b_mapping)@,
        ),
    ensures
        res == search_of(a, b, a_bnodes@, b_bnodes@, a_bnodes_by_hash@, b_bnodes_by_hash@).search_ok(
            old(hashes_to_see)@,
            old(a_to_b_mapping)@,
        ),
        final(hashes_to_see)@ == old(hashes_to_see)@,
        final(a_to_b_mapping)@ == old(a_to_b_mapping)@,
    decreases old(hashes_to_see)@.len(),
{
    broadcast use vstd::std_specs::hash::group_hash_axioms;

    let ghost ctx = search_of(a, b, a_bnodes@, b_bnodes@, a_bnodes_by_hash@, b_bnodes_by_hash@);
    let ghost hs0 = hashes_to_see@;
    let ghost m0 = a_to_b_mapping@;
    let a_len = a_bnodes.len();
    let ghost n_a = a_bnodes@.len();
    let ghost n_b = b_bnodes@.len();
    let hash = match hashes_to_see.pop() {
        Some(h) => h,
        None => {
            proof {
                assert forall|i: int| 0 <= i < m0.len() implies (#[trigger] m0[i] is Some && m0[i]->0 < n_b) by {
                    if m0[i] is None {
                        let h = choose|h: u64| hs0.contains(h) && #[trigger] group_of(ctx.a_groups, h).contains(i as usize);
                    }
                }
            }
            return check_is_contained(a_to_b_mapping, a, b, a_bnodes, b_bnodes);
        },
    };
    let ghost hs1 = hashes_to_see@;
    proof {
        assert(hs0 == hs1.push(hash));
        assert(hs1 =~= hs0.drop_last());
        assert(hs1.no_duplicates());
        assert(hs0.contains(hash));
        assert(!hs1.contains(hash));
    }
    let empty: Vec<usize> = Vec::new();
    let a_nodes: &Vec<usize> = match a_bnodes_by_hash.get(&hash) {
        Some(v) => v,
        None => &empty,
    };
    let b_nodes: &Vec<usize> = match b_bnodes_by_hash.get(&hash) {
        Some(v) => v,
        None => &empty,
    };
    let ghost an = group_of(ctx.a_groups, hash);
    let ghost bn = group_of(ctx.b_groups, hash);
    proof {
        assert(a_nodes@ == an);
        assert(b_nodes@ == bn);
        assert(an.no_duplicates());
        assert(bounded_by(an, n_a));
        assert(forall|k: int| 0 <= k < bn.len() ==> #[trigger] bn[k] < n_b);
        assert(bn.no_duplicates());
    }
    if a_nodes.len() != b_nodes.len() {
        // No pairing exists. The hash goes back on the stack on this path
        // too, so that a caller trying its next pairing sees every hash
        // still to be paired.
        hashes_to_see.push(hash);
        proof {
            assert(hashes_to_see@ =~= hs0);
        }
        return false;
    }
    if a_nodes.len() == 1 {
        // A single pairing: no need for an ordering to permute.
        a_to_b_mapping[a_nodes[0]] = Some(b_nodes[0]);
        proof {
            assert(an.last() == an[0]);
            assert(an.drop_last() =~= Seq::<usize>::empty());
            assert(bn.drop_last() =~= Seq::<usize>::empty());
            assert(assign(m0, an.drop_last(), bn.drop_last()) == m0);
            assert(a_to_b_mapping@ == assign(m0, an, bn));
            lemma_assign(m0, an, bn);
            assert(is_permutation_of(an, an));
            assert forall|h: u64, i: usize| hs1.contains(h) && #[trigger] group_of(ctx.a_groups, h).contains(i) implies a_to_b_mapping@[i as int] is None by {
                assert(hs0.contains(h));
                assert(h != hash);
                assert(!an.contains(i));
                assert(i != an[0]);
            }
            assert forall|i: int| 0 <= i < a_to_b_mapping@.len() implies #[trigger] a_to_b_mapping@[i] is Some || exists|h: u64|
                hs1.contains(h) && #[trigger] group_of(ctx.a_groups, h).contains(i as usize) by {
                assert(i < a_len);
                if i != an[0] as int && m0[i] is None {
                    let h = choose|h: u64| hs0.contains(h) && #[trigger] group_of(ctx.a_groups, h).contains(i as usize);
                    if h == hash {
                        let k = choose|k: int| 0 <= k < an.len() && an[k] == i as usize;
                        assert(k == 0);
                        assert(false);
                    }
                    lemma_contains_push(hs1, hash, h);
                }
            }
        }
        let result = build_and_check_containment_from_hashes(
            hashes_to_see,
            a_bnodes_by_hash,
            b_bnodes_by_hash,
            a_to_b_mapping,
            a,
            b,
            a_bnodes,
            b_bnodes,
        );
        a_to_b_mapping[a_nodes[0]] = None;
        hashes_to_see.push(hash);
        proof {
            assert(hashes_to_see@ =~= hs0);
            assert(an.contains(an[0]));
            assert(m0[an[0] as int] is None);
            assert(a_to_b_mapping@ =~= m0);
            assert forall|p: Seq<usize>| #[trigger] is_permutation_of(p, an) implies p == an by {
                lemma_single_permutation(p, an);
            }
            assert(hs0.last() == hash);
            assert(hs0.drop_last() == hs1);
            assert(result == ctx.search_ok(hs1, assign(m0, an, bn)));
            if result {
                assert(is_permutation_of(an, an));
            }
        }
        return result;
    }
    // Try every ordering of the nodes of `a`, starting from the first one
    // (the group in increasing order), paired with the nodes of `b`.
    let mut a_nodes_rotated: Vec<usize> = a_nodes.clone();
    proof {
        assert(a_nodes_rotated@ =~= an);
    }
    sort_positions(&mut a_nodes_rotated);
    proof {
        let first = a_nodes_rotated@;
        lemma_permutation_facts(first, an);
        assert(bounded_by(first, n_a)) by {
            assert forall|i: int| 0 <= i < first.len() implies #[trigger] first[i] < n_a by {
                assert(first.to_set().contains(first[i]));
                assert(an.to_set().contains(first[i]));
                let j = choose|j: int| 0 <= j < an.len() && an[j] == first[i];
            }
        }
        assert forall|q: Seq<usize>| is_permutation_of(q, an) implies !lex_lt(q, first, index_order()) by {
            if q == first {
                lemma_lex_irreflexive(first, index_order());
            } else {
                assert(is_permutation_of(q, first));
                lemma_sorted_is_first(first, q);
                lemma_index_lex_asymmetric(first, q);
            }
        }
        lemma_rank_bound(first, n_a);
    }
    loop
        invariant
            hashes_to_see@ == hs1,
            is_permutation_of(a_nodes_rotated@, an),
            a_nodes_rotated@.len() == an.len(),
            bounded_by(a_nodes_rotated@, n_a),
            rank(a_nodes_rotated@, n_a) < power(n_a, an.len()),
            a_to_b_mapping@.len() == m0.len(),
            forall|i: int| 0 <= i < m0.len() && !an.contains(i as usize) ==> #[trigger] a_to_b_mapping@[i] == m0[i],
            forall|q: Seq<usize>|
                is_permutation_of(q, an) && #[trigger] lex_lt(q, a_nodes_rotated@, index_order())
                    ==> !ctx.search_ok(hs1, assign(m0, q, bn)),
        decreases power(n_a, an.len()) - rank(a_nodes_rotated@, n_a),
    {
        let ghost rot = a_nodes_rotated@;
        proof {
            lemma_permutation_facts(rot, an);
        }
        let ghost base = a_to_b_mapping@;
        let mut k: usize = 0;
        while k < a_nodes_rotated.len() && k < b_nodes.len()
            invariant
                k <= rot.len(),
                a_nodes_rotated@ == rot,
                rot.len() == bn.len(),
                rot.no_duplicates(),
                forall|j: int| 0 <= j < rot.len() ==> #[trigger] rot[j] < base.len(),
                a_to_b_mapping@ == assign(base, rot.take(k as int), bn.take(k as int)),
            decreases rot.len() - k,
        {
            proof {
                assert(rot.take(k + 1).drop_last() =~= rot.take(k as int));
                assert(bn.take(k + 1).drop_last() =~= bn.take(k as int));
                assert(rot.take(k + 1).last() == rot[k as int]);
                assert(bn.take(k + 1).last() == bn[k as int]);
                lemma_assign(base, rot.take(k as int), bn.take(k as int));
            }
            a_to_b_mapping[a_nodes_rotated[k]] = Some(b_nodes[k]);
            k = k + 1;
        }
        let ghost assigned = assign(m0, rot, bn);
        proof {
            assert(rot.take(k as int) =~= rot);
            assert(bn.take(k as int) =~= bn);
            lemma_assign(base, rot, bn);
            lemma_assign(m0, rot, bn);
            assert forall|i: int| 0 <= i < m0.len() implies a_to_b_mapping@[i] == #[trigger] assigned[i] by {
                if rot.contains(i as usize) {
                    let j = choose|j: int| 0 <= j < rot.len() && rot[j] == i as usize;
                    assert(i < a_len);
                    assert(rot[j] as int == i);
                } else {
                    assert(!an.contains(i as usize)) by {
                        assert(an.to_set().contains(i as usize) == rot.to_set().contains(i as usize));
                    }
                }
            }
            assert(a_to_b_mapping@ =~= assigned);
            assert forall|i: int| 0 <= i < assigned.len() && (#[trigger] assigned[i] is Some) implies assigned[i]->0 < n_b by {
                if rot.contains(i as usize) {
                    let j = choose|j: int| 0 <= j < rot.len() && rot[j] == i as usize;
                    assert(assigned[rot[j] as int] == Some(bn[j]));
                }
            }
            assert forall|h: u64, i: usize| hs1.contains(h) && #[trigger] group_of(ctx.a_groups, h).contains(i) implies assigned[i as int] is None by {
                assert(hs0.contains(h));
                assert(h != hash);
                assert(!an.contains(i));
                assert(!rot.contains(i)) by {
                    assert(an.to_set().contains(i) == rot.to_set().contains(i));
                }
                assert(group_of(ctx.a_groups, h)[group_of(ctx.a_groups, h).index_of(i)] == i);
                assert(i < n_a);
            }
            assert forall|i: int| 0 <= i < assigned.len() implies #[trigger] assigned[i] is Some || exists|h: u64|
                hs1.contains(h) && #[trigger] group_of(ctx.a_groups, h).contains(i as usize) by {
                if !rot.contains(i as usize) && m0[i] is None {
                    let h = choose|h: u64| hs0.contains(h) && #[trigger] group_of(ctx.a_groups, h).contains(i as usize);
                    if h == hash {
                        assert(an.to_set().contains(i as usize) == rot.to_set().contains(i as usize));
                    }
                    lemma_contains_push(hs1, hash, h);
                }
                if rot.contains(i as usize) {
                    let j = choose|j: int| 0 <= j < rot.len() && rot[j] == i as usize;
                    assert(assigned[rot[j] as int] == Some(bn[j]));
                } else if m0[i] is Some {
                    assert(!an.contains(i as usize)) by {
                        assert(an.to_set().contains(i as usize) == rot.to_set().contains(i as usize));
                    }
                }
            }
        }
        let found = build_and_check_containment_from_hashes(
            hashes_to_see,
            a_bnodes_by_hash,
            b_bnodes_by_hash,
            a_to_b_mapping,
            a,
            b,
            a_bnodes,
            b_bnodes,
        );
        let result = if found {
            Some(true)
        } else if !next_permutation(&mut a_nodes_rotated) {
            Some(false)
        } else {
            None
        };
        if let Some(result) = result {
            let ghost before_restore = a_to_b_mapping@;
            let mut k: usize = 0;
            while k < a_nodes_rotated.len()
                invariant
                    k <= rot.len(),
                    a_nodes_rotated@ == rot,
                    before_restore.len() == m0.len(),
                    a_to_b_mapping@.len() == m0.len(),
                    forall|j: int| 0 <= j < rot.len() ==> #[trigger] rot[j] < m0.len(),
                    forall|i: int| 0 <= i < m0.len() && !rot.take(k as int).contains(i as usize) ==> #[trigger] a_to_b_mapping@[i] == before_restore[i],
                    forall|j: int| 0 <= j < k ==> a_to_b_mapping@[#[trigger] rot[j] as int] is None,
                decreases rot.len() - k,
            {
                a_to_b_mapping[a_nodes_rotated[k]] = None;
                proof {
                    assert forall|i: int| 0 <= i < m0.len() && !rot.take(k + 1).contains(i as usize) implies #[trigger] a_to_b_mapping@[i] == before_restore[i] by {
                        assert(i != rot[k as int]) by {
                            assert(rot.take(k + 1)[k as int] == rot[k as int]);
                        }
                        if rot.take(k as int).contains(i as usize) {
                            let j = choose|j: int| 0 <= j < k && rot.take(k as int)[j] == i as usize;
                            assert(rot.take(k + 1)[j] == i as usize);
                        }
                    }
                }
                k = k + 1;
            }
            hashes_to_see.push(hash);
            proof {
                assert(hashes_to_see@ =~= hs0);
                assert(rot.take(k as int) =~= rot);
                assert forall|i: int| 0 <= i < m0.len() implies #[trigger] a_to_b_mapping@[i] == m0[i] by {
                    if rot.contains(i as usize) {
                        let j = choose|j: int| 0 <= j < rot.len() && rot[j] == i as usize;
                        assert(a_to_b_mapping@[rot[j] as int] is None);
                        assert(an.to_set().contains(i as usize) == rot.to_set().contains(i as usize));
                        assert(group_of(ctx.a_groups, hash).contains(i as usize));
                    } else {
                        assert(!an.contains(i as usize)) by {
                            assert(an.to_set().contains(i as usize) == rot.to_set().contains(i as usize));
                        }
                    }
                }
                assert(a_to_b_mapping@ =~= m0);
                assert(hs0.last() == hash);
                assert(hs0.drop_last() == hs1);
                if result {
                    assert(found);
                    assert(ctx.search_ok(hs1, assign(m0, rot, bn)));
                    assert(is_permutation_of(rot, an));
                    assert(ctx.search_ok(hs0, m0));
                } else {
                    assert(!found);
                    assert(a_nodes_rotated@ == rot);
                    assert forall|p: Seq<usize>| #[trigger] is_permutation_of(p, an) implies !ctx.search_ok(hs1, assign(m0, p, bn)) by {
                        if p != rot {
                            lemma_index_order_strict_total();
                            lemma_lex_total(p, rot, index_order());
                            if lex_lt(rot, p, index_order()) {
                                assert(is_permutation_of(p, rot));
                            }
                        }
                    }
                }
            }
            return result;
        }
        proof {
            let next = a_nodes_rotated@;
            assert(is_permutation_of(next, an));
            lemma_permutation_facts(next, an);
            assert(bounded_by(next, n_a)) by {
                assert forall|i: int| 0 <= i < next.len() implies #[trigger] next[i] < n_a by {
                    assert(next.to_set().contains(next[i]));
                    assert(an.to_set().contains(next[i]));
                    let j = choose|j: int| 0 <= j < an.len() && an[j] == next[i];
                }
            }
            lemma_rank_monotonic(rot, next, n_a);
            lemma_rank_bound(next, n_a);
            assert(a_to_b_mapping@ == assigned);
            assert forall|i: int| 0 <= i < m0.len() && !an.contains(i as usize) implies #[trigger] a_to_b_mapping@[i] == m0[i] by {
                assert(i < a_len);
                assert(an.to_set().contains(i as usize) == rot.to_set().contains(i as usize));
            }
            assert forall|q: Seq<usize>|
                is_permutation_of(q, an) && #[trigger] lex_lt(q, next, index_order())
                    implies !ctx.search_ok(hs1, assign(m0, q, bn)) by {
                assert(is_permutation_of(q, rot));
                if q != rot {
                    lemma_index_order_strict_total();
                    lemma_lex_total(q, rot, index_order());
                    if lex_lt(rot, q, index_order()) {
                        assert(!lex_lt(q, next, index_order()));
                    }
                }
            }
        }
    }
}


// ---------------------------------------------------------------------------
// Collecting and grouping blank nodes
// ---------------------------------------------------------------------------

/// Adds a blank node to a list of distinct blank nodes, unless one with
/// the same identifier is there.
fn insert_blank_node<'a>(nodes: &mut Vec<&'a OwnedBlankNode>, node: &'a OwnedBlankNode)
    requires
        node_ids(old(nodes)@).no_duplicates(),
    ensures
        node_ids(final(nodes)@).no_duplicates(),
        node_ids(final(nodes)@).to_set() == node_ids(old(nodes)@).to_set().insert(node@),
{
    let ghost ids = node_ids(nodes@);
    let mut i: usize = 0;
    while i < nodes.len()
        invariant
            i <= nodes@.len(),
            nodes@ == old(nodes)@,
            ids == node_ids(nodes@),
            ids.no_duplicates(),
            forall|j: int| 0 <= j < i ==> ids[j] != node@,
        decreases nodes@.len() - i,
    {
        if nodes[i].equals(node) {
            proof {
                assert(ids[i as int] == node@);
                assert(ids.to_set().insert(node@) =~= ids.to_set());
            }
            return;
        }
        i = i + 1;
    }
    nodes.push(node);
    proof {
        let new_ids = node_ids(nodes@);
        assert(new_ids =~= ids.push(node@));
        assert(!ids.contains(node@));
        assert(new_ids.no_duplicates()) by {
            assert forall|x: int, y: int| 0 <= x < new_ids.len() && 0 <= y < new_ids.len() && x != y implies new_ids[x] != new_ids[y] by {
                if x < ids.len() && y < ids.len() {
                } else if x < ids.len() {
                    assert(ids.contains(ids[x]));
                } else {
                    assert(ids.contains(ids[y]));
                }
            }
        }
        ids.lemma_push_to_set_commute(node@);
    }
}

/// The blank nodes that a quad mentions.
pub open spec fn blank_nodes_of_quad(q: QuadModel) -> Set<Seq<char>> {
    Set::new(|x: Seq<char>| mentions_blank(q, x))
}

/// The distinct blank nodes of a dataset.
fn dataset_blank_nodes(dataset: &OwnedDataset) -> (res: Vec<&OwnedBlankNode>)
    ensures
        node_ids(res@).no_duplicates(),
        node_ids(res@).to_set() == blank_nodes_of(dataset@),
{
    let quads = dataset.quads();
    let ghost qs = dataset.quad_seq();
    let mut blank_nodes: Vec<&OwnedBlankNode> = Vec::new();
    proof {
        assert(node_ids(blank_nodes@).to_set() =~= blank_nodes_of(qs.take(0).to_set()));
    }
    let mut i: usize = 0;
    while i < quads.len()
        invariant
            i <= quads@.len(),
            quads@.map_values(|q: OwnedQuad| q@) == qs,
            node_ids(blank_nodes@).no_duplicates(),
            node_ids(blank_nodes@).to_set() == blank_nodes_of(qs.take(i as int).to_set()),
        decreases quads@.len() - i,
    {
        let t = &quads[i];
        let ghost before = node_ids(blank_nodes@).to_set();
        if let OwnedNamedOrBlankNode::BlankNode(subject) = &t.subject {
            insert_blank_node(&mut blank_nodes, subject);
        }
        if let OwnedTerm::BlankNode(object) = &t.object {
            insert_blank_node(&mut blank_nodes, object);
        }
        if let Some(OwnedNamedOrBlankNode::BlankNode(graph_name)) = &t.graph_name {
            insert_blank_node(&mut blank_nodes, graph_name);
        }
        proof {
            let q = qs[i as int];
            assert(q == t@);
            assert(node_ids(blank_nodes@).to_set() =~= before + blank_nodes_of_quad(q));
            assert(qs.take(i + 1) =~= qs.take(i as int).push(q));
            qs.take(i as int).lemma_push_to_set_commute(q);
            let s0 = qs.take(i as int).to_set();
            assert(blank_nodes_of(s0.insert(q)) =~= blank_nodes_of(s0) + blank_nodes_of_quad(q)) by {
                assert forall|x: Seq<char>| blank_nodes_of(s0.insert(q)).contains(x) implies (blank_nodes_of(s0) + blank_nodes_of_quad(q)).contains(x) by {
                    let r = choose|r: QuadModel| s0.insert(q).contains(r) && mentions_blank(r, x);
                    if r != q {
                        assert(s0.contains(r));
                    }
                }
                assert forall|x: Seq<char>| (blank_nodes_of(s0) + blank_nodes_of_quad(q)).contains(x) implies blank_nodes_of(s0.insert(q)).contains(x) by {
                    if blank_nodes_of(s0).contains(x) {
                        let r = choose|r: QuadModel| s0.contains(r) && mentions_blank(r, x);
                        assert(s0.insert(q).contains(r));
                    } else {
                        assert(s0.insert(q).contains(q));
                    }
                }
            }
        }
        i = i + 1;
    }
    proof {
        assert(qs.take(i as int) =~= qs);
    }
    blank_nodes
}

/// `groups` holds, for each hash of a blank node of `nodes` in `ds`, the
/// positions of the blank nodes with that hash, in increasing order.
pub open spec fn groups_by_hash(
    groups: Map<u64, Seq<usize>>,
    nodes: Seq<Seq<char>>,
    ds: Set<QuadModel>,
) -> bool {
    &&& forall|h: u64|
        #![trigger groups.contains_key(h)]
        groups.contains_key(h) ==> {
            &&& groups[h].len() > 0
            &&& sorted_by(groups[h], index_order())
            &&& forall|k: int|
                0 <= k < groups[h].len() ==> #[trigger] groups[h][k] < nodes.len()
                    && blank_node_hash(ds, nodes[groups[h][k] as int]) == h
        }
    &&& forall|i: int|
        0 <= i < nodes.len() ==> groups.contains_key(#[trigger] blank_node_hash(ds, nodes[i]))
            && groups[blank_node_hash(ds, nodes[i])].contains(i as usize)
}

/// Groups the positions of the blank nodes by their hash.
fn hash_blank_nodes(bnodes: &Vec<&OwnedBlankNode>, dataset: &OwnedDataset) -> (res: HashMap<
    u64,
    Vec<usize>,
>)
    ensures
        groups_by_hash(group_views(res@), node_ids(bnodes@), dataset@),
{
    broadcast use vstd::std_specs::hash::group_hash_axioms;

    let ghost ids = node_ids(bnodes@);
    let ghost ds = dataset@;
    let mut bnodes_by_hash: HashMap<u64, Vec<usize>> = HashMap::new();
    let mut i: usize = 0;
    while i < bnodes.len()
        invariant
            i <= bnodes@.len(),
            ids == node_ids(bnodes@),
            ds == dataset@,
            forall|h: u64|
                #![trigger bnodes_by_hash@.contains_key(h)]
                bnodes_by_hash@.contains_key(h) ==> {
                    &&& bnodes_by_hash@[h]@.len() > 0
                    &&& sorted_by(bnodes_by_hash@[h]@, index_order())
                    &&& forall|k: int|
                        0 <= k < bnodes_by_hash@[h]@.len() ==> #[trigger] bnodes_by_hash@[h]@[k] < i
                            && blank_node_hash(ds, ids[bnodes_by_hash@[h]@[k] as int]) == h
                },
            forall|j: int|
                0 <= j < i ==> bnodes_by_hash@.contains_key(#[trigger] blank_node_hash(ds, ids[j]))
                    && bnodes_by_hash@[blank_node_hash(ds, ids[j])]@.contains(j as usize),
        decreases bnodes@.len() - i,
    {
        let hash = hash_blank_node(bnodes[i], dataset);
        proof {
            assert(bnodes[i as int]@ == ids[i as int]);
        }
        let ghost old_map = bnodes_by_hash@;
        let mut group = match bnodes_by_hash.remove(&hash) {
            Some(g) => g,
            None => Vec::new(),
        };
        let ghost old_group = group@;
        group.push(i);
        bnodes_by_hash.insert(hash, group);
        proof {
            let new_map = bnodes_by_hash@;
            assert(new_map == old_map.insert(hash, new_map[hash]));
            assert(new_map[hash]@ == old_group.push(i));
            assert forall|h: u64| #[trigger] new_map.contains_key(h) implies {
                &&& new_map[h]@.len() > 0
                &&& sorted_by(new_map[h]@, index_order())
                &&& forall|k: int|
                    0 <= k < new_map[h]@.len() ==> #[trigger] new_map[h]@[k] < i + 1
                        && blank_node_hash(ds, ids[new_map[h]@[k] as int]) == h
            } by {
                if h == hash {
                    let g = new_map[h]@;
                    assert forall|k: int| 0 <= k < g.len() implies #[trigger] g[k] < i + 1 && blank_node_hash(ds, ids[g[k] as int]) == h by {
                        if k < old_group.len() {
                            assert(old_map.contains_key(hash));
                            assert(old_group == old_map[hash]@);
                            assert(g[k] == old_group[k]);
                        }
                    }
                    assert forall|x: int, y: int| 0 <= x < y < g.len() implies #[trigger] index_order()(g[x], g[y]) by {
                        if y < old_group.len() {
                            assert(old_group == old_map[hash]@);
                            assert(index_order()(old_group[x], old_group[y]));
                        } else {
                            assert(old_group == old_map[hash]@);
                            assert(old_group[x] < i);
                        }
                    }
                } else {
                    assert(old_map.contains_key(h));
                    assert(new_map[h] == old_map[h]);
                }
            }
            assert forall|j: int| 0 <= j < i + 1 implies new_map.contains_key(#[trigger] blank_node_hash(ds, ids[j]))
                && new_map[blank_node_hash(ds, ids[j])]@.contains(j as usize) by {
                if j == i {
                    assert(new_map[hash]@[old_group.len() as int] == i);
                } else if blank_node_hash(ds, ids[j]) == hash {
                    assert(old_group == old_map[hash]@);
                    let k = choose|k: int| 0 <= k < old_group.len() && old_group[k] == j as usize;
                    assert(new_map[hash]@[k] == j as usize);
                } else {
                    assert(new_map[blank_node_hash(ds, ids[j])] == old_map[blank_node_hash(ds, ids[j])]);
                }
            }
        }
        i = i + 1;
    }
    proof {
        let g = group_views(bnodes_by_hash@);
        assert forall|h: u64| #[trigger] g.contains_key(h) implies {
            &&& g[h].len() > 0
            &&& sorted_by(g[h], index_order())
            &&& forall|k: int| 0 <= k < g[h].len() ==> #[trigger] g[h][k] < ids.len()
                && blank_node_hash(ds, ids[g[h][k] as int]) == h
        } by {
            assert(g[h] == bnodes_by_hash@[h]@);
        }
        assert forall|j: int| 0 <= j < ids.len() implies g.contains_key(#[trigger] blank_node_hash(ds, ids[j]))
            && g[blank_node_hash(ds, ids[j])].contains(j as usize) by {
            assert(g[blank_node_hash(ds, ids[j])] == bnodes_by_hash@[blank_node_hash(ds, ids[j])]@);
        }
    }
    bnodes_by_hash
}


// ---------------------------------------------------------------------------
// The decision procedure
// ---------------------------------------------------------------------------

/// The hashes of a grouping, each once.
fn group_hashes(groups: &HashMap<u64, Vec<usize>>) -> (res: Vec<u64>)
    ensures
        res@.no_duplicates(),
        res@.to_set() == groups@.dom(),
{
    broadcast use vstd::std_specs::hash::group_hash_axioms;

    let mut hashes: Vec<u64> = Vec::new();
    for h in it: groups.keys()
        invariant
            it.seq().unref().to_set() == groups@.dom(),
            it.seq().unref().no_duplicates(),
            hashes@ == it.seq().unref().take(it.index() as int),
            it.index() == it.seq().len() ==> hashes@.to_set() == groups@.dom(),
    {
        proof {
            assert(it.seq().unref().take(it.index() + 1) =~= it.seq().unref().take(it.index() as int).push(*h));
        }
        hashes.push(*h);
        proof {
            assert(it.seq().unref().take(it.seq().len() as int) =~= it.seq().unref());
        }
    }
    hashes
}

/// An empty mapping for `n` blank nodes.
fn unassigned(n: usize) -> (res: Vec<Option<usize>>)
    ensures
        res@.len() == n,
        forall|i: int| 0 <= i < n ==> #[trigger] res@[i] is None,
{
    let mut m: Vec<Option<usize>> = Vec::new();
    let mut i: usize = 0;
    while i < n
        invariant
            i <= n,
            m@.len() == i,
            forall|j: int| 0 <= j < i ==> #[trigger] m@[j] is None,
        decreases n - i,
    {
        m.push(None);
        i = i + 1;
    }
    m
}


// ---------------------------------------------------------------------------
// Facts about isomorphisms
// ---------------------------------------------------------------------------

/// Renaming the terms through an injective renaming of the blank nodes that
/// they mention never merges two terms.
proof fn lemma_rename_term_injective(t1: TermModel, t2: TermModel, f: Map<Seq<char>, Seq<char>>)
    requires
        f.is_injective(),
        t1 is Blank ==> f.dom().contains(t1->Blank_0),
        t2 is Blank ==> f.dom().contains(t2->Blank_0),
        rename_term(t1, f) == rename_term(t2, f),
    ensures
        t1 == t2,
{
}

/// A one-to-one renaming of blank nodes never merges two quads.
proof fn lemma_rename_injective(a: Set<QuadModel>, f: Map<Seq<char>, Seq<char>>)
    requires
        f.dom() == blank_nodes_of(a),
        f.is_injective(),
    ensures
        injective_on(renamer(f), a),
{
    assert forall|q1: QuadModel, q2: QuadModel|
        a.contains(q1) && a.contains(q2) && #[trigger] renamer(f)(q1) == #[trigger] renamer(f)(q2) implies q1 == q2 by {
        assert(rename_quad(q1, f) == rename_quad(q2, f));
        if q1.subject is Blank {
            assert(mentions_blank(q1, q1.subject->Blank_0));
        }
        if q2.subject is Blank {
            assert(mentions_blank(q2, q2.subject->Blank_0));
        }
        if q1.object is Blank {
            assert(mentions_blank(q1, q1.object->Blank_0));
        }
        if q2.object is Blank {
            assert(mentions_blank(q2, q2.object->Blank_0));
        }
        lemma_rename_term_injective(q1.subject, q2.subject, f);
        lemma_rename_term_injective(q1.object, q2.object, f);
        match (q1.graph_name, q2.graph_name) {
            (Some(g1), Some(g2)) => {
                if g1 is Blank {
                    assert(mentions_blank(q1, g1->Blank_0));
                }
                if g2 is Blank {
                    assert(mentions_blank(q2, g2->Blank_0));
                }
                lemma_rename_term_injective(g1, g2, f);
            },
            _ => {},
        }
    }
}

/// An isomorphism preserves the number of quads.
proof fn lemma_isomorphism_same_size(a: Set<QuadModel>, b: Set<QuadModel>, f: Map<Seq<char>, Seq<char>>)
    requires
        a.finite(),
        is_isomorphism(a, b, f),
    ensures
        b.finite(),
        b.len() == a.len(),
{
    lemma_rename_injective(a, f);
    vstd::set_lib::lemma_map_size(a, b, renamer(f));
}

/// The blank nodes of `b` are the images of those of `a`.
proof fn lemma_isomorphism_blank_nodes(a: Set<QuadModel>, b: Set<QuadModel>, f: Map<Seq<char>, Seq<char>>, y: Seq<char>)
    requires
        is_isomorphism(a, b, f),
    ensures
        blank_nodes_of(b).contains(y) <==> exists|x: Seq<char>| blank_nodes_of(a).contains(x) && f[x] == y,
{
    if blank_nodes_of(b).contains(y) {
        let q2 = choose|q2: QuadModel| b.contains(q2) && mentions_blank(q2, y);
        assert(a.map(renamer(f)).contains(q2));
        let q = choose|q: QuadModel| a.contains(q) && q2 == renamer(f)(q);
        assert(q2 == rename_quad(q, f));
        if q2.subject == TermModel::Blank(y) {
            assert(q.subject is Blank);
            assert(mentions_blank(q, q.subject->Blank_0));
            assert(blank_nodes_of(a).contains(q.subject->Blank_0));
        } else if q2.object == TermModel::Blank(y) {
            assert(q.object is Blank);
            assert(mentions_blank(q, q.object->Blank_0));
            assert(blank_nodes_of(a).contains(q.object->Blank_0));
        } else {
            let g = q.graph_name->Some_0;
            assert(g is Blank);
            assert(mentions_blank(q, g->Blank_0));
            assert(blank_nodes_of(a).contains(g->Blank_0));
        }
    }
    if exists|x: Seq<char>| blank_nodes_of(a).contains(x) && f[x] == y {
        let x = choose|x: Seq<char>| blank_nodes_of(a).contains(x) && f[x] == y;
        let q = choose|q: QuadModel| a.contains(q) && mentions_blank(q, x);
        let q2 = rename_quad(q, f);
        assert(a.map(renamer(f)).contains(renamer(f)(q)));
        assert(b.contains(q2));
        assert(mentions_blank(q2, y));
    }
}

/// A one-to-one renaming keeps the (predicate, object) keys of a blank node.
proof fn lemma_isomorphism_predicate_object_keys(a: Set<QuadModel>, b: Set<QuadModel>, f: Map<Seq<char>, Seq<char>>, x: Seq<char>)
    requires
        is_isomorphism(a, b, f),
        blank_nodes_of(a).contains(x),
    ensures
        predicate_object_keys(a, x) == predicate_object_keys(b, f[x]),
{
    let l = predicate_object_keys(a, x);
    let r = predicate_object_keys(b, f[x]);
    assert forall|k: Seq<Seq<u8>>| l.contains(k) implies r.contains(k) by {
        let q = choose|q: QuadModel| #![trigger a.contains(q)] a.contains(q) && q.subject == TermModel::Blank(x) && !(q.object is Blank) && k == predicate_object_key(q.predicate, q.object);
        assert(a.map(renamer(f)).contains(renamer(f)(q)));
        assert(b.contains(rename_quad(q, f)));
    }
    assert forall|k: Seq<Seq<u8>>| r.contains(k) implies l.contains(k) by {
        let q2 = choose|q: QuadModel| #![trigger b.contains(q)] b.contains(q) && q.subject == TermModel::Blank(f[x]) && !(q.object is Blank) && k == predicate_object_key(q.predicate, q.object);
        assert(a.map(renamer(f)).contains(q2));
        let q = choose|q: QuadModel| a.contains(q) && q2 == renamer(f)(q);
        assert(q2 == rename_quad(q, f));
        assert(q.subject is Blank);
        let z = q.subject->Blank_0;
        assert(mentions_blank(q, z));
        assert(blank_nodes_of(a).contains(z));
        assert(f[z] == f[x]);
        assert(z == x);
        assert(a.contains(q));
    }
    assert(l =~= r);
}

/// A one-to-one renaming keeps the (subject, predicate) keys of a blank node.
proof fn lemma_isomorphism_subject_predicate_keys(a: Set<QuadModel>, b: Set<QuadModel>, f: Map<Seq<char>, Seq<char>>, x: Seq<char>)
    requires
        is_isomorphism(a, b, f),
        blank_nodes_of(a).contains(x),
    ensures
        subject_predicate_keys(a, x) == subject_predicate_keys(b, f[x]),
{
    let l = subject_predicate_keys(a, x);
    let r = subject_predicate_keys(b, f[x]);
    assert forall|k: Seq<Seq<u8>>| l.contains(k) implies r.contains(k) by {
        let q = choose|q: QuadModel| #![trigger a.contains(q)] a.contains(q) && q.object == TermModel::Blank(x) && !(q.subject is Blank) && k == subject_predicate_key(q.subject, q.predicate);
        assert(a.map(renamer(f)).contains(renamer(f)(q)));
        assert(b.contains(rename_quad(q, f)));
    }
    assert forall|k: Seq<Seq<u8>>| r.contains(k) implies l.contains(k) by {
        let q2 = choose|q: QuadModel| #![trigger b.contains(q)] b.contains(q) && q.object == TermModel::Blank(f[x]) && !(q.subject is Blank) && k == subject_predicate_key(q.subject, q.predicate);
        assert(a.map(renamer(f)).contains(q2));
        let q = choose|q: QuadModel| a.contains(q) && q2 == renamer(f)(q);
        assert(q2 == rename_quad(q, f));
        assert(q.object is Blank);
        let z = q.object->Blank_0;
        assert(mentions_blank(q, z));
        assert(blank_nodes_of(a).contains(z));
        assert(f[z] == f[x]);
        assert(z == x);
        assert(a.contains(q));
    }
    assert(l =~= r);
}

/// A blank node and its image under an isomorphism have the same hash.
pub proof fn lemma_isomorphism_keeps_hash(a: Set<QuadModel>, b: Set<QuadModel>, f: Map<Seq<char>, Seq<char>>, x: Seq<char>)
    requires
        is_isomorphism(a, b, f),
        blank_nodes_of(a).contains(x),
    ensures
        blank_node_hash(a, x) == blank_node_hash(b, f[x]),
{
    lemma_isomorphism_predicate_object_keys(a, b, f, x);
    lemma_isomorphism_subject_predicate_keys(a, b, f, x);
}


// ---------------------------------------------------------------------------
// The search finds an isomorphism when there is one
// ---------------------------------------------------------------------------

/// The node lists and groups of a search are those computed from its two
/// datasets.
pub open spec fn search_setup(search: Search) -> bool {
    &&& search.a.finite()
    &&& search.b.finite()
    &&& search.a_nodes.len() <= usize::MAX
    &&& search.b_nodes.len() <= usize::MAX
    &&& search.a_nodes.no_duplicates()
    &&& search.a_nodes.to_set() == blank_nodes_of(search.a)
    &&& search.b_nodes.no_duplicates()
    &&& search.b_nodes.to_set() == blank_nodes_of(search.b)
    &&& groups_by_hash(search.a_groups, search.a_nodes, search.a)
    &&& groups_by_hash(search.b_groups, search.b_nodes, search.b)
}

/// The assigned positions of `m` rename their blank node as `f` does.
pub open spec fn agrees_with(search: Search, m: Seq<Option<usize>>, f: Map<Seq<char>, Seq<char>>) -> bool {
    forall|i: int|
        0 <= i < m.len() && (#[trigger] m[i] is Some) ==> m[i]->0 < search.b_nodes.len()
            && search.b_nodes[m[i]->0 as int] == f[search.a_nodes[i]]
}

/// A blank node of `a` that `f` renames to `y`.
spec fn preimage(a: Set<QuadModel>, f: Map<Seq<char>, Seq<char>>, y: Seq<char>) -> Seq<char> {
    choose|x: Seq<char>| blank_nodes_of(a).contains(x) && f[x] == y
}

/// With every blank node assigned as `f` renames it, `contained`
/// holds.
proof fn lemma_agreeing_mapping_contained(search: Search, m: Seq<Option<usize>>, f: Map<Seq<char>, Seq<char>>)
    requires
        search_setup(search),
        is_isomorphism(search.a, search.b, f),
        m.len() == search.a_nodes.len(),
        agrees_with(search, m, f),
        forall|i: int| 0 <= i < m.len() ==> #[trigger] m[i] is Some,
    ensures
        search.contained(m),
{
    let an = search.a_nodes;
    let ren = renaming(an, search.b_nodes, m);
    assert forall|x: Seq<char>| blank_nodes_of(search.a).contains(x) implies ren.dom().contains(x) && ren[x] == f[x] by {
        assert(an.to_set().contains(x));
        let i = choose|i: int| 0 <= i < an.len() && an[i] == x;
        assert(m[i] is Some);
        lemma_index_of_unique(an, i);
    }
    assert forall|q: QuadModel| #![trigger search.a.contains(q)] search.a.contains(q) implies (forall|x: Seq<char>|
        mentions_blank(q, x) ==> ren.dom().contains(x)) && search.b.contains(rename_quad(q, ren)) by {
        assert forall|x: Seq<char>| mentions_blank(q, x) implies ren.dom().contains(x) by {
            assert(blank_nodes_of(search.a).contains(x));
        }
        if q.subject is Blank {
            assert(blank_nodes_of(search.a).contains(q.subject->Blank_0));
        }
        if q.object is Blank {
            assert(blank_nodes_of(search.a).contains(q.object->Blank_0));
        }
        if q.graph_name is Some && q.graph_name->Some_0 is Blank {
            assert(mentions_blank(q, q.graph_name->Some_0->Blank_0));
            assert(blank_nodes_of(search.a).contains(q.graph_name->Some_0->Blank_0));
        }
        assert(rename_quad(q, ren) == rename_quad(q, f));
        assert(search.a.map(renamer(f)).contains(renamer(f)(q)));
    }
}

/// When `f` is an isomorphism from `a` to `b` and `m` agrees with it, the
/// search over the hashes `hs` succeeds.
proof fn lemma_isomorphism_is_found(search: Search, f: Map<Seq<char>, Seq<char>>, hs: Seq<u64>, m: Seq<Option<usize>>)
    requires
        search_setup(search),
        is_isomorphism(search.a, search.b, f),
        hs.no_duplicates(),
        forall|h: u64| hs.contains(h) ==> search.a_groups.contains_key(h),
        m.len() == search.a_nodes.len(),
        agrees_with(search, m, f),
        forall|i: int|
            0 <= i < m.len() ==> #[trigger] m[i] is Some || exists|h: u64|
                hs.contains(h) && #[trigger] group_of(search.a_groups, h).contains(i as usize),
    ensures
        search.search_ok(hs, m),
    decreases hs.len(),
{
    let a = search.a;
    let b = search.b;
    let an_all = search.a_nodes;
    let bn_all = search.b_nodes;
    if hs.len() == 0 {
        assert forall|i: int| 0 <= i < m.len() implies #[trigger] m[i] is Some by {
            if m[i] is None {
                let h = choose|h: u64| hs.contains(h) && #[trigger] group_of(search.a_groups, h).contains(i as usize);
            }
        }
        lemma_agreeing_mapping_contained(search, m, f);
    } else {
        let h = hs.last();
        let hs1 = hs.drop_last();
        assert(hs.contains(h));
        assert(search.a_groups.contains_key(h));
        let an = group_of(search.a_groups, h);
        assert(an == search.a_groups[h]);
        // The images of the blank nodes with hash `h` are the blank nodes of
        // `b` with hash `h`.
        assert forall|k: int| 0 <= k < an.len() implies #[trigger] an[k] < an_all.len()
            && blank_node_hash(a, an_all[an[k] as int]) == h by {
        }
        let i0 = an[0];
        let x0 = an_all[i0 as int];
        assert(an_all.to_set().contains(x0));
        lemma_isomorphism_keeps_hash(a, b, f, x0);
        lemma_isomorphism_blank_nodes(a, b, f, f[x0]);
        assert(bn_all.to_set().contains(f[x0]));
        let j0 = choose|j: int| 0 <= j < bn_all.len() && bn_all[j] == f[x0];
        assert(blank_node_hash(b, bn_all[j0]) == h);
        assert(search.b_groups.contains_key(h));
        let bn = group_of(search.b_groups, h);
        assert(bn == search.b_groups[h]);
        assert forall|k: int| 0 <= k < bn.len() implies #[trigger] bn[k] < bn_all.len()
            && blank_node_hash(b, bn_all[bn[k] as int]) == h by {
        }
        lemma_index_order_strict_total();
        crate::order::lemma_sorted_no_duplicates(bn, index_order());
        // Pair each blank node of `b` with hash `h` with its preimage.
        let q = Seq::new(bn.len(), |k: int| an_all.index_of(preimage(a, f, bn_all[bn[k] as int])) as usize);
        assert forall|k: int| 0 <= k < bn.len() implies {
            &&& (#[trigger] q[k] as int) < an_all.len()
            &&& f[an_all[q[k] as int]] == bn_all[bn[k] as int]
            &&& an.contains(q[k])
        } by {
            let y = bn_all[bn[k] as int];
            assert(bn_all.to_set().contains(y));
            lemma_isomorphism_blank_nodes(a, b, f, y);
            let x = preimage(a, f, y);
            assert(blank_nodes_of(a).contains(x) && f[x] == y);
            assert(an_all.to_set().contains(x));
            let i = choose|i: int| 0 <= i < an_all.len() && an_all[i] == x;
            lemma_index_of_unique(an_all, i);
            assert(q[k] as int == i);
            lemma_isomorphism_keeps_hash(a, b, f, x);
            assert(blank_node_hash(a, an_all[i]) == h);
        }
        assert(q.no_duplicates()) by {
            assert forall|k1: int, k2: int| 0 <= k1 < q.len() && 0 <= k2 < q.len() && k1 != k2 implies q[k1] != q[k2] by {
                assert(bn[k1] != bn[k2]);
                assert(bn_all[bn[k1] as int] != bn_all[bn[k2] as int]);
            }
        }
        assert(q.to_set() =~= an.to_set()) by {
            assert forall|i: usize| an.to_set().contains(i) implies q.to_set().contains(i) by {
                let k = choose|k: int| 0 <= k < an.len() && an[k] == i;
                let x = an_all[i as int];
                assert(an_all.to_set().contains(x));
                lemma_isomorphism_keeps_hash(a, b, f, x);
                lemma_isomorphism_blank_nodes(a, b, f, f[x]);
                assert(bn_all.to_set().contains(f[x]));
                let j = choose|j: int| 0 <= j < bn_all.len() && bn_all[j] == f[x];
                assert(blank_node_hash(b, bn_all[j]) == h);
                assert(bn.contains(j as usize));
                let kb = choose|kb: int| 0 <= kb < bn.len() && bn[kb] == j as usize;
                assert(f[an_all[q[kb] as int]] == f[x]);
                assert(an_all.to_set().contains(an_all[q[kb] as int]));
                assert(an_all[q[kb] as int] == x);
                assert(q[kb] == i);
            }
        }
        crate::order::lemma_sorted_no_duplicates(an, index_order());
        an.unique_seq_to_set();
        q.unique_seq_to_set();
        assert(q.len() == an.len());
        crate::permutation::lemma_same_elements_permutation(q, an);
        let m2 = assign(m, q, bn);
        lemma_assign(m, q, bn);
        assert(agrees_with(search, m2, f)) by {
            assert forall|i: int| 0 <= i < m2.len() && (#[trigger] m2[i] is Some) implies m2[i]->0 < bn_all.len()
                && bn_all[m2[i]->0 as int] == f[an_all[i]] by {
                if q.contains(i as usize) {
                    let k = choose|k: int| 0 <= k < q.len() && q[k] == i as usize;
                    assert(m2[q[k] as int] == Some(bn[k]));
                }
            }
        }
        assert(hs1.no_duplicates());
        assert forall|h2: u64| hs1.contains(h2) implies search.a_groups.contains_key(h2) by {
            lemma_contains_drop_last(hs, h2);
        }
        assert forall|i: int| 0 <= i < m2.len() implies #[trigger] m2[i] is Some || exists|h2: u64|
            hs1.contains(h2) && #[trigger] group_of(search.a_groups, h2).contains(i as usize) by {
            if q.contains(i as usize) {
                let k = choose|k: int| 0 <= k < q.len() && q[k] == i as usize;
                assert(m2[q[k] as int] == Some(bn[k]));
            } else if m[i] is None {
                let h2 = choose|h2: u64| hs.contains(h2) && #[trigger] group_of(search.a_groups, h2).contains(i as usize);
                if h2 == h {
                    assert(an.to_set().contains(i as usize));
                }
                assert(hs == hs1.push(h));
                lemma_contains_push(hs1, h, h2);
            }
        }
        lemma_isomorphism_is_found(search, f, hs1, m2);
        assert(crate::permutation::is_permutation_of(q, an));
    }
}

/// An element of `s.drop_last()` is an element of `s`.
proof fn lemma_contains_drop_last<A>(s: Seq<A>, y: A)
    requires
        s.len() > 0,
        s.drop_last().contains(y),
    ensures
        s.contains(y),
{
    let j = choose|j: int| 0 <= j < s.drop_last().len() && s.drop_last()[j] == y;
    assert(s[j] == y);
}


// ---------------------------------------------------------------------------
// What the search finds is an isomorphism
// ---------------------------------------------------------------------------

/// No two positions of `a_nodes` are assigned the same position of `b_nodes`.
pub open spec fn injective_mapping(m: Seq<Option<usize>>) -> bool {
    forall|i: int, j: int|
        0 <= i < m.len() && 0 <= j < m.len() && i != j && #[trigger] m[i] is Some
            && #[trigger] m[j] is Some ==> m[i]->0 != m[j]->0
}

/// Each assigned pair of blank nodes has the same hash.
pub open spec fn hash_compatible(search: Search, m: Seq<Option<usize>>) -> bool {
    forall|i: int|
        0 <= i < m.len() && (#[trigger] m[i] is Some) ==> m[i]->0 < search.b_nodes.len()
            && blank_node_hash(search.b, search.b_nodes[m[i]->0 as int]) == blank_node_hash(
            search.a,
            search.a_nodes[i],
        )
}

/// A successful search over `hs` from `m` completes `m` into a one-to-one
/// mapping of all the blank nodes of `a` under which `a` is contained in `b`.
proof fn lemma_success_gives_mapping(search: Search, hs: Seq<u64>, m: Seq<Option<usize>>) -> (res: Seq<Option<usize>>)
    requires
        search_setup(search),
        search.search_ok(hs, m),
        hs.no_duplicates(),
        m.len() == search.a_nodes.len(),
        injective_mapping(m),
        hash_compatible(search, m),
        forall|i: int|
            0 <= i < m.len() ==> #[trigger] m[i] is Some || exists|h: u64|
                hs.contains(h) && #[trigger] group_of(search.a_groups, h).contains(i as usize),
    ensures
        total_mapping(res, search.a_nodes.len(), search.b_nodes.len()),
        injective_mapping(res),
        search.contained(res),
    decreases hs.len(),
{
    let a = search.a;
    let b = search.b;
    let an_all = search.a_nodes;
    let bn_all = search.b_nodes;
    if hs.len() == 0 {
        assert forall|i: int| 0 <= i < m.len() implies (#[trigger] m[i] is Some && m[i]->0 < bn_all.len()) by {
            if m[i] is None {
                let h = choose|h: u64| hs.contains(h) && #[trigger] group_of(search.a_groups, h).contains(i as usize);
            }
        }
        m
    } else {
        let h = hs.last();
        let hs1 = hs.drop_last();
        let an = group_of(search.a_groups, h);
        let bn = group_of(search.b_groups, h);
        let p = choose|p: Seq<usize>| #[trigger] is_permutation_of(p, an) && search.search_ok(hs1, assign(m, p, bn));
        lemma_index_order_strict_total();
        if search.a_groups.contains_key(h) {
            crate::order::lemma_sorted_no_duplicates(an, index_order());
        }
        if search.b_groups.contains_key(h) {
            crate::order::lemma_sorted_no_duplicates(bn, index_order());
        }
        lemma_permutation_facts(p, an);
        assert forall|k: int| 0 <= k < p.len() implies (#[trigger] p[k] as int) < m.len()
            && blank_node_hash(a, an_all[p[k] as int]) == h by {
            assert(p.to_set().contains(p[k]));
            assert(an.to_set().contains(p[k]));
        }
        assert forall|k: int| 0 <= k < bn.len() implies (#[trigger] bn[k] as int) < bn_all.len()
            && blank_node_hash(b, bn_all[bn[k] as int]) == h by {
        }
        let m2 = assign(m, p, bn);
        lemma_assign(m, p, bn);
        assert(hash_compatible(search, m2)) by {
            assert forall|i: int| 0 <= i < m2.len() && (#[trigger] m2[i] is Some) implies m2[i]->0 < bn_all.len()
                && blank_node_hash(b, bn_all[m2[i]->0 as int]) == blank_node_hash(a, an_all[i]) by {
                if p.contains(i as usize) {
                    let k = choose|k: int| 0 <= k < p.len() && p[k] == i as usize;
                    assert(m2[p[k] as int] == Some(bn[k]));
                }
            }
        }
        assert(injective_mapping(m2)) by {
            assert forall|i: int, j: int|
                0 <= i < m2.len() && 0 <= j < m2.len() && i != j && #[trigger] m2[i] is Some
                    && #[trigger] m2[j] is Some implies m2[i]->0 != m2[j]->0 by {
                if p.contains(i as usize) && p.contains(j as usize) {
                    let ki = choose|k: int| 0 <= k < p.len() && p[k] == i as usize;
                    let kj = choose|k: int| 0 <= k < p.len() && p[k] == j as usize;
                    assert(m2[p[ki] as int] == Some(bn[ki]));
                    assert(m2[p[kj] as int] == Some(bn[kj]));
                } else if p.contains(i as usize) {
                    let ki = choose|k: int| 0 <= k < p.len() && p[k] == i as usize;
                    assert(m2[p[ki] as int] == Some(bn[ki]));
                    assert(m2[j] == m[j]);
                    // `j` is not in the group of `h`, so its hash differs from `h`.
                    assert(blank_node_hash(a, an_all[j]) != h) by {
                        if blank_node_hash(a, an_all[j]) == h {
                            assert(search.a_groups[h].contains(j as usize));
                            assert(an.to_set().contains(j as usize));
                        }
                    }
                } else if p.contains(j as usize) {
                    let kj = choose|k: int| 0 <= k < p.len() && p[k] == j as usize;
                    assert(m2[p[kj] as int] == Some(bn[kj]));
                    assert(m2[i] == m[i]);
                    assert(blank_node_hash(a, an_all[i]) != h) by {
                        if blank_node_hash(a, an_all[i]) == h {
                            assert(search.a_groups[h].contains(i as usize));
                            assert(an.to_set().contains(i as usize));
                        }
                    }
                } else {
                    assert(m2[i] == m[i]);
                    assert(m2[j] == m[j]);
                }
            }
        }
        assert(hs1.no_duplicates());
        assert forall|i: int| 0 <= i < m2.len() implies #[trigger] m2[i] is Some || exists|h2: u64|
            hs1.contains(h2) && #[trigger] group_of(search.a_groups, h2).contains(i as usize) by {
            if p.contains(i as usize) {
                let k = choose|k: int| 0 <= k < p.len() && p[k] == i as usize;
                assert(m2[p[k] as int] == Some(bn[k]));
            } else if m[i] is None {
                let h2 = choose|h2: u64| hs.contains(h2) && #[trigger] group_of(search.a_groups, h2).contains(i as usize);
                if h2 == h {
                    assert(an.to_set().contains(i as usize));
                }
                assert(hs == hs1.push(h));
                lemma_contains_push(hs1, h, h2);
            }
        }
        lemma_success_gives_mapping(search, hs1, m2)
    }
}

/// A one-to-one mapping of all the blank nodes of `a` under which `a` is
/// contained in `b`, when `a` and `b` have as many quads, is an isomorphism.
proof fn lemma_mapping_gives_isomorphism(search: Search, m: Seq<Option<usize>>)
    requires
        search_setup(search),
        total_mapping(m, search.a_nodes.len(), search.b_nodes.len()),
        injective_mapping(m),
        search.contained(m),
        search.a.len() == search.b.len(),
    ensures
        is_isomorphism(search.a, search.b, renaming(search.a_nodes, search.b_nodes, m)),
{
    let a = search.a;
    let b = search.b;
    let an = search.a_nodes;
    let bnodes = search.b_nodes;
    let f = renaming(an, bnodes, m);
    assert(f.dom() =~= blank_nodes_of(a)) by {
        assert forall|x: Seq<char>| blank_nodes_of(a).contains(x) implies f.dom().contains(x) by {
            assert(an.to_set().contains(x));
            let i = choose|i: int| 0 <= i < an.len() && an[i] == x;
            assert(m[i] is Some);
        }
        assert forall|x: Seq<char>| f.dom().contains(x) implies blank_nodes_of(a).contains(x) by {
            let i = choose|i: int| 0 <= i < an.len() && an[i] == x && m[i] is Some;
            assert(an.to_set().contains(x));
        }
    }
    assert(f.is_injective()) by {
        assert forall|x: Seq<char>, y: Seq<char>| x != y && f.dom().contains(x) && f.dom().contains(y) implies #[trigger] f[x] != #[trigger] f[y] by {
            let i = choose|i: int| 0 <= i < an.len() && an[i] == x && m[i] is Some;
            let j = choose|j: int| 0 <= j < an.len() && an[j] == y && m[j] is Some;
            lemma_index_of_unique(an, i);
            lemma_index_of_unique(an, j);
            assert(m[i]->0 != m[j]->0);
            assert(m[i]->0 < bnodes.len() && m[j]->0 < bnodes.len());
        }
    }
    lemma_rename_injective(a, f);
    let image = a.map(renamer(f));
    vstd::set_lib::lemma_map_size(a, image, renamer(f));
    assert(image.subset_of(b)) by {
        assert forall|q2: QuadModel| image.contains(q2) implies b.contains(q2) by {
            let q = choose|q: QuadModel| a.contains(q) && q2 == renamer(f)(q);
        }
    }
    vstd::set_lib::lemma_subset_equality(image, b);
}


// ---------------------------------------------------------------------------
// The whole procedure
// ---------------------------------------------------------------------------

/// Groups computed from the datasets have the shape the search needs.
proof fn lemma_setup_well_formed(search: Search)
    requires
        search_setup(search),
    ensures
        search.well_formed(),
{
    lemma_index_order_strict_total();
    assert forall|h: u64| #![trigger search.b_groups.contains_key(h)] search.b_groups.contains_key(h) implies {
        &&& search.b_groups[h].no_duplicates()
        &&& forall|k: int|
            0 <= k < search.b_groups[h].len() ==> #[trigger] search.b_groups[h][k] < search.b_nodes.len()
    } by {
        crate::order::lemma_sorted_no_duplicates(search.b_groups[h], index_order());
    }
    assert forall|h: u64| #![trigger search.a_groups.contains_key(h)] search.a_groups.contains_key(h) implies {
        &&& search.a_groups[h].no_duplicates()
        &&& forall|k: int|
            0 <= k < search.a_groups[h].len() ==> #[trigger] search.a_groups[h][k] < search.a_nodes.len()
    } by {
        crate::order::lemma_sorted_no_duplicates(search.a_groups[h], index_order());
    }
    assert forall|h1: u64, h2: u64, i: usize|
        h1 != h2 && #[trigger] group_of(search.a_groups, h1).contains(i) implies !#[trigger] group_of(
            search.a_groups,
            h2,
        ).contains(i) by {
        let k1 = choose|k: int| 0 <= k < group_of(search.a_groups, h1).len() && group_of(search.a_groups, h1)[k] == i;
        assert(search.a_groups.contains_key(h1));
        assert(blank_node_hash(search.a, search.a_nodes[i as int]) == h1);
        if group_of(search.a_groups, h2).contains(i) {
            let k2 = choose|k: int| 0 <= k < group_of(search.a_groups, h2).len() && group_of(search.a_groups, h2)[k] == i;
            assert(search.a_groups.contains_key(h2));
            assert(blank_node_hash(search.a, search.a_nodes[i as int]) == h2);
        }
    }
}

/// Isomorphic datasets have the same blank node hashes.
proof fn lemma_isomorphism_same_hashes(search: Search, f: Map<Seq<char>, Seq<char>>)
    requires
        search_setup(search),
        is_isomorphism(search.a, search.b, f),
    ensures
        search.a_groups.dom() == search.b_groups.dom(),
{
    let a = search.a;
    let b = search.b;
    assert forall|h: u64| search.a_groups.contains_key(h) implies search.b_groups.contains_key(h) by {
        let i = search.a_groups[h][0];
        assert(search.a_groups[h][0] < search.a_nodes.len());
        let x = search.a_nodes[i as int];
        assert(search.a_nodes.to_set().contains(x));
        lemma_isomorphism_keeps_hash(a, b, f, x);
        lemma_isomorphism_blank_nodes(a, b, f, f[x]);
        assert(search.b_nodes.to_set().contains(f[x]));
        let j = choose|j: int| 0 <= j < search.b_nodes.len() && search.b_nodes[j] == f[x];
        assert(blank_node_hash(b, search.b_nodes[j]) == h);
    }
    assert forall|h: u64| search.b_groups.contains_key(h) implies search.a_groups.contains_key(h) by {
        let j = search.b_groups[h][0];
        assert(search.b_groups[h][0] < search.b_nodes.len());
        let y = search.b_nodes[j as int];
        assert(search.b_nodes.to_set().contains(y));
        lemma_isomorphism_blank_nodes(a, b, f, y);
        let x = choose|x: Seq<char>| blank_nodes_of(a).contains(x) && f[x] == y;
        lemma_isomorphism_keeps_hash(a, b, f, x);
        assert(search.a_nodes.to_set().contains(x));
        let i = choose|i: int| 0 <= i < search.a_nodes.len() && search.a_nodes[i] == x;
        assert(blank_node_hash(a, search.a_nodes[i]) == h);
    }
    assert(search.a_groups.dom() =~= search.b_groups.dom());
}

/// Starting from an empty mapping with every hash to see, the search
/// succeeds exactly when the datasets are isomorphic (given that they have
/// as many quads).
proof fn lemma_search_decides(search: Search, hs: Seq<u64>, m: Seq<Option<usize>>)
    requires
        search_setup(search),
        search.a.len() == search.b.len(),
        hs.no_duplicates(),
        hs.to_set() == search.a_groups.dom(),
        m.len() == search.a_nodes.len(),
        forall|i: int| 0 <= i < m.len() ==> #[trigger] m[i] is None,
    ensures
        search.search_ok(hs, m) == isomorphic(search.a, search.b),
{
    assert forall|i: int| 0 <= i < m.len() implies #[trigger] m[i] is Some || exists|h: u64|
        hs.contains(h) && #[trigger] group_of(search.a_groups, h).contains(i as usize) by {
        let h = blank_node_hash(search.a, search.a_nodes[i]);
        assert(search.a_groups.contains_key(h));
        assert(hs.to_set().contains(h));
        assert(group_of(search.a_groups, h).contains(i as usize));
    }
    if search.search_ok(hs, m) {
        let m2 = lemma_success_gives_mapping(search, hs, m);
        lemma_mapping_gives_isomorphism(search, m2);
    }
    if isomorphic(search.a, search.b) {
        let f = choose|f: Map<Seq<char>, Seq<char>>| is_isomorphism(search.a, search.b, f);
        assert forall|h: u64| hs.contains(h) implies search.a_groups.contains_key(h) by {
            assert(hs.to_set().contains(h));
        }
        lemma_isomorphism_is_found(search, f, hs, m);
    }
}

/// Whether two datasets are equal up to a one-to-one renaming of their blank
/// nodes.
pub fn are_datasets_isomorphic(a: &OwnedDataset, b: &OwnedDataset) -> (res: bool)
    ensures
        res == isomorphic(a@, b@),
{
    broadcast use vstd::std_specs::hash::group_hash_axioms;

    let a_len = a.len();
    let b_len = b.len();
    proof {
        a.quad_seq().unique_seq_to_set();
        b.quad_seq().unique_seq_to_set();
    }
    if a_len != b_len {
        proof {
            if isomorphic(a@, b@) {
                let f = choose|f: Map<Seq<char>, Seq<char>>| is_isomorphism(a@, b@, f);
                lemma_isomorphism_same_size(a@, b@, f);
            }
        }
        return false;
    }

    let a_bnodes = dataset_blank_nodes(a);
    let a_bnodes_by_hash = hash_blank_nodes(&a_bnodes, a);

    let b_bnodes = dataset_blank_nodes(b);
    let b_bnodes_by_hash = hash_blank_nodes(&b_bnodes, b);
    let a_count = a_bnodes.len();
    let b_count = b_bnodes.len();

    let ghost search = search_of(a, b, a_bnodes@, b_bnodes@, a_bnodes_by_hash@, b_bnodes_by_hash@);
    proof {
        assert(search.a_groups.dom() == a_bnodes_by_hash@.dom());
        assert(search.b_groups.dom() == b_bnodes_by_hash@.dom());
        vstd::seq_lib::seq_to_set_is_finite(a.quad_seq());
        vstd::seq_lib::seq_to_set_is_finite(b.quad_seq());
        assert(search.a.finite());
        assert(search.b.finite());
        assert(search.a_nodes.len() == a_count);
        assert(search.b_nodes.len() == b_count);
        assert(search.a_nodes.no_duplicates());
        assert(search.a_nodes.to_set() == blank_nodes_of(search.a));
        assert(groups_by_hash(search.a_groups, search.a_nodes, search.a));
        assert(groups_by_hash(search.b_groups, search.b_nodes, search.b));
        assert(search_setup(search));
        lemma_setup_well_formed(search);
    }

    // Hashes should have the same size everywhere
    if a_bnodes_by_hash.len() != b_bnodes_by_hash.len() {
        proof {
            if isomorphic(a@, b@) {
                let f = choose|f: Map<Seq<char>, Seq<char>>| is_isomorphism(a@, b@, f);
                lemma_isomorphism_same_hashes(search, f);
            }
        }
        return false;
    }

    let mut hashes_to_see = group_hashes(&a_bnodes_by_hash);
    let mut a_to_b_mapping = unassigned(a_count);
    proof {
        lemma_search_decides(search, hashes_to_see@, a_to_b_mapping@);
        assert forall|h: u64, i: usize| hashes_to_see@.contains(h) && #[trigger] group_of(search.a_groups, h).contains(i) implies a_to_b_mapping@[i as int] is None by {
            let k = choose|k: int| 0 <= k < group_of(search.a_groups, h).len() && group_of(search.a_groups, h)[k] == i;
            assert(hashes_to_see@.to_set().contains(h));
            assert(search.a_groups.contains_key(h));
        }
        assert forall|i: int| 0 <= i < a_to_b_mapping@.len() implies #[trigger] a_to_b_mapping@[i] is Some || exists|h: u64|
            hashes_to_see@.contains(h) && #[trigger] group_of(search.a_groups, h).contains(i as usize) by {
            let h = blank_node_hash(search.a, search.a_nodes[i]);
            assert(search.a_groups.contains_key(h));
            assert(hashes_to_see@.to_set().contains(h));
            assert(group_of(search.a_groups, h).contains(i as usize));
        }
    }
    build_and_check_containment_from_hashes(
        &mut hashes_to_see,
        &a_bnodes_by_hash,
        &b_bnodes_by_hash,
        &mut a_to_b_mapping,
        a,
        b,
        &a_bnodes,
        &b_bnodes,
    )
}


// ---------------------------------------------------------------------------
// Laws of isomorphism
// ---------------------------------------------------------------------------

/// Isomorphic finite datasets have the same number of quads.
pub proof fn lemma_isomorphic_same_size(a: Set<QuadModel>, b: Set<QuadModel>)
    requires
        a.finite(),
        isomorphic(a, b),
    ensures
        b.finite(),
        a.len() == b.len(),
{
    let f = choose|f: Map<Seq<char>, Seq<char>>| is_isomorphism(a, b, f);
    lemma_isomorphism_same_size(a, b, f);
}

/// Every dataset is isomorphic to itself.
pub proof fn lemma_isomorphic_reflexive(a: Set<QuadModel>)
    ensures
        isomorphic(a, a),
{
    let f = Map::new(|x: Seq<char>| blank_nodes_of(a).contains(x), |x: Seq<char>| x);
    assert(f.dom() =~= blank_nodes_of(a));
    assert forall|q: QuadModel| a.contains(q) implies rename_quad(q, f) == q by {
        if q.subject is Blank {
            assert(mentions_blank(q, q.subject->Blank_0));
        }
        if q.object is Blank {
            assert(mentions_blank(q, q.object->Blank_0));
        }
        if q.graph_name is Some && q.graph_name->Some_0 is Blank {
            assert(mentions_blank(q, q.graph_name->Some_0->Blank_0));
        }
    }
    assert forall|q: QuadModel| a.map(renamer(f)).contains(q) <==> a.contains(q) by {
        if a.contains(q) {
            assert(renamer(f)(q) == q);
        }
        if a.map(renamer(f)).contains(q) {
            let q0 = choose|q0: QuadModel| a.contains(q0) && q == renamer(f)(q0);
            assert(rename_quad(q0, f) == q0);
        }
    }
    assert(a.map(renamer(f)) =~= a);
    assert(is_isomorphism(a, a, f));
}

/// Renaming through `f` and then through `g` is renaming through their
/// composition, for the quads whose blank nodes `f` renames into the domain
/// of `g`.
proof fn lemma_rename_compose(q: QuadModel, f: Map<Seq<char>, Seq<char>>, g: Map<Seq<char>, Seq<char>>, h: Map<Seq<char>, Seq<char>>)
    requires
        forall|x: Seq<char>| mentions_blank(q, x) ==> h.dom().contains(x) && h[x] == g[f[x]],
    ensures
        rename_quad(rename_quad(q, f), g) == rename_quad(q, h),
{
    if q.subject is Blank {
        assert(mentions_blank(q, q.subject->Blank_0));
    }
    if q.object is Blank {
        assert(mentions_blank(q, q.object->Blank_0));
    }
    if q.graph_name is Some && q.graph_name->Some_0 is Blank {
        assert(mentions_blank(q, q.graph_name->Some_0->Blank_0));
    }
}

/// If `a` is isomorphic to `b`, then `b` is isomorphic to `a`.
pub proof fn lemma_isomorphic_symmetric(a: Set<QuadModel>, b: Set<QuadModel>)
    requires
        isomorphic(a, b),
    ensures
        isomorphic(b, a),
{
    let f = choose|f: Map<Seq<char>, Seq<char>>| is_isomorphism(a, b, f);
    let g = Map::new(|y: Seq<char>| blank_nodes_of(b).contains(y), |y: Seq<char>| preimage(a, f, y));
    assert(g.dom() =~= blank_nodes_of(b));
    assert forall|y: Seq<char>| blank_nodes_of(b).contains(y) implies blank_nodes_of(a).contains(#[trigger] g[y]) && f[g[y]] == y by {
        lemma_isomorphism_blank_nodes(a, b, f, y);
    }
    assert(g.is_injective()) by {
        assert forall|y1: Seq<char>, y2: Seq<char>| y1 != y2 && g.dom().contains(y1) && g.dom().contains(y2) implies #[trigger] g[y1] != #[trigger] g[y2] by {
            assert(f[g[y1]] == y1);
            assert(f[g[y2]] == y2);
        }
    }
    let id = Map::new(|x: Seq<char>| blank_nodes_of(a).contains(x), |x: Seq<char>| x);
    assert forall|q: QuadModel| a.contains(q) implies rename_quad(rename_quad(q, f), g) == q by {
        assert forall|x: Seq<char>| mentions_blank(q, x) implies id.dom().contains(x) && id[x] == g[f[x]] by {
            assert(blank_nodes_of(a).contains(x));
            lemma_isomorphism_blank_nodes(a, b, f, f[x]);
            assert(f[g[f[x]]] == f[x]);
        }
        lemma_rename_compose(q, f, g, id);
        if q.subject is Blank {
            assert(mentions_blank(q, q.subject->Blank_0));
        }
        if q.object is Blank {
            assert(mentions_blank(q, q.object->Blank_0));
        }
        if q.graph_name is Some && q.graph_name->Some_0 is Blank {
            assert(mentions_blank(q, q.graph_name->Some_0->Blank_0));
        }
    }
    assert forall|q: QuadModel| b.map(renamer(g)).contains(q) <==> a.contains(q) by {
        if a.contains(q) {
            assert(a.map(renamer(f)).contains(renamer(f)(q)));
            assert(renamer(g)(rename_quad(q, f)) == q);
        }
        if b.map(renamer(g)).contains(q) {
            let q2 = choose|q2: QuadModel| b.contains(q2) && q == renamer(g)(q2);
            assert(a.map(renamer(f)).contains(q2));
            let q0 = choose|q0: QuadModel| a.contains(q0) && q2 == renamer(f)(q0);
            assert(rename_quad(rename_quad(q0, f), g) == q0);
        }
    }
    assert(b.map(renamer(g)) =~= a);
    assert(is_isomorphism(b, a, g));
}

/// If `a` is isomorphic to `b` and `b` to `c`, then `a` is isomorphic to `c`.
pub proof fn lemma_isomorphic_transitive(a: Set<QuadModel>, b: Set<QuadModel>, c: Set<QuadModel>)
    requires
        isomorphic(a, b),
        isomorphic(b, c),
    ensures
        isomorphic(a, c),
{
    let f = choose|f: Map<Seq<char>, Seq<char>>| is_isomorphism(a, b, f);
    let g = choose|g: Map<Seq<char>, Seq<char>>| is_isomorphism(b, c, g);
    let h = Map::new(|x: Seq<char>| blank_nodes_of(a).contains(x), |x: Seq<char>| g[f[x]]);
    assert(h.dom() =~= blank_nodes_of(a));
    assert forall|x: Seq<char>| blank_nodes_of(a).contains(x) implies blank_nodes_of(b).contains(#[trigger] f[x]) by {
        lemma_isomorphism_blank_nodes(a, b, f, f[x]);
    }
    assert(h.is_injective()) by {
        assert forall|x1: Seq<char>, x2: Seq<char>| x1 != x2 && h.dom().contains(x1) && h.dom().contains(x2) implies #[trigger] h[x1] != #[trigger] h[x2] by {
            assert(f[x1] != f[x2]);
            assert(blank_nodes_of(b).contains(f[x1]));
            assert(blank_nodes_of(b).contains(f[x2]));
        }
    }
    assert forall|q: QuadModel| a.contains(q) implies rename_quad(rename_quad(q, f), g) == rename_quad(q, h) by {
        assert forall|x: Seq<char>| mentions_blank(q, x) implies h.dom().contains(x) && h[x] == g[f[x]] by {
            assert(blank_nodes_of(a).contains(x));
        }
        lemma_rename_compose(q, f, g, h);
    }
    assert forall|q: QuadModel| a.map(renamer(h)).contains(q) <==> c.contains(q) by {
        if a.map(renamer(h)).contains(q) {
            let q0 = choose|q0: QuadModel| a.contains(q0) && q == renamer(h)(q0);
            assert(a.map(renamer(f)).contains(renamer(f)(q0)));
            assert(b.map(renamer(g)).contains(renamer(g)(rename_quad(q0, f))));
        }
        if c.contains(q) {
            assert(b.map(renamer(g)).contains(q));
            let q1 = choose|q1: QuadModel| b.contains(q1) && q == renamer(g)(q1);
            assert(a.map(renamer(f)).contains(q1));
            let q0 = choose|q0: QuadModel| a.contains(q0) && q1 == renamer(f)(q0);
            assert(renamer(h)(q0) == q);
        }
    }
    assert(a.map(renamer(h)) =~= c);
    assert(is_isomorphism(a, c, h));
}

} // verus!
