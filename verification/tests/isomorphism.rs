use rio_isomorphism::isomorphism::are_datasets_isomorphic;
use rio_isomorphism::model::{
    OwnedBlankNode, OwnedDataset, OwnedLiteral, OwnedNamedNode, OwnedNamedOrBlankNode, OwnedQuad,
    OwnedTerm,
};

fn iri(s: &str) -> OwnedNamedNode {
    OwnedNamedNode { iri: s.to_string() }
}

fn bnode(s: &str) -> OwnedBlankNode {
    OwnedBlankNode { id: s.to_string() }
}

fn named_subject(s: &str) -> OwnedNamedOrBlankNode {
    OwnedNamedOrBlankNode::NamedNode(iri(s))
}

fn blank_subject(s: &str) -> OwnedNamedOrBlankNode {
    OwnedNamedOrBlankNode::BlankNode(bnode(s))
}

fn named_object(s: &str) -> OwnedTerm {
    OwnedTerm::NamedNode(iri(s))
}

fn blank_object(s: &str) -> OwnedTerm {
    OwnedTerm::BlankNode(bnode(s))
}

fn simple_literal(s: &str) -> OwnedTerm {
    OwnedTerm::Literal(OwnedLiteral::Simple { value: s.to_string() })
}

fn quad(
    subject: OwnedNamedOrBlankNode,
    predicate: &str,
    object: OwnedTerm,
    graph_name: Option<OwnedNamedOrBlankNode>,
) -> OwnedQuad {
    OwnedQuad { subject, predicate: iri(predicate), object, graph_name }
}

fn dataset(quads: Vec<OwnedQuad>) -> OwnedDataset {
    let mut d = OwnedDataset::new();
    for q in quads {
        d.insert(q);
    }
    d
}

#[test]
fn empty_datasets_are_isomorphic() {
    assert!(are_datasets_isomorphic(&OwnedDataset::new(), &OwnedDataset::new()));
}

#[test]
fn equal_datasets_without_blank_nodes_are_isomorphic() {
    let a = dataset(vec![
        quad(named_subject("http://ex/s"), "http://ex/p", named_object("http://ex/o"), None),
        quad(named_subject("http://ex/s"), "http://ex/p", simple_literal("v"), None),
    ]);
    let b = dataset(vec![
        quad(named_subject("http://ex/s"), "http://ex/p", simple_literal("v"), None),
        quad(named_subject("http://ex/s"), "http://ex/p", named_object("http://ex/o"), None),
    ]);
    assert!(are_datasets_isomorphic(&a, &b));
}

#[test]
fn different_literals_are_not_isomorphic() {
    let a = dataset(vec![quad(named_subject("http://ex/s"), "http://ex/p", simple_literal("v"), None)]);
    let b = dataset(vec![quad(named_subject("http://ex/s"), "http://ex/p", simple_literal("w"), None)]);
    assert!(!are_datasets_isomorphic(&a, &b));
}

#[test]
fn different_sizes_are_not_isomorphic() {
    let a = dataset(vec![quad(named_subject("http://ex/s"), "http://ex/p", simple_literal("v"), None)]);
    let b = dataset(vec![
        quad(named_subject("http://ex/s"), "http://ex/p", simple_literal("v"), None),
        quad(named_subject("http://ex/s"), "http://ex/q", simple_literal("v"), None),
    ]);
    assert!(!are_datasets_isomorphic(&a, &b));
    assert!(!are_datasets_isomorphic(&b, &a));
}

#[test]
fn renamed_blank_nodes_are_isomorphic() {
    let a = dataset(vec![
        quad(blank_subject("a"), "http://ex/p", blank_object("b"), None),
        quad(blank_subject("b"), "http://ex/q", simple_literal("v"), None),
    ]);
    let b = dataset(vec![
        quad(blank_subject("y"), "http://ex/q", simple_literal("v"), None),
        quad(blank_subject("x"), "http://ex/p", blank_object("y"), None),
    ]);
    assert!(are_datasets_isomorphic(&a, &b));
    assert!(are_datasets_isomorphic(&b, &a));
}

#[test]
fn blank_nodes_with_the_same_hash_are_paired_correctly() {
    // Both blank nodes of each dataset have the same surroundings without
    // blank nodes, so only the link between them decides the pairing.
    let a = dataset(vec![
        quad(blank_subject("x1"), "http://ex/p", named_object("http://ex/c"), None),
        quad(blank_subject("x2"), "http://ex/p", named_object("http://ex/c"), None),
        quad(blank_subject("x1"), "http://ex/q", blank_object("x2"), None),
    ]);
    let b = dataset(vec![
        quad(blank_subject("y1"), "http://ex/p", named_object("http://ex/c"), None),
        quad(blank_subject("y2"), "http://ex/p", named_object("http://ex/c"), None),
        quad(blank_subject("y2"), "http://ex/q", blank_object("y1"), None),
    ]);
    assert!(are_datasets_isomorphic(&a, &b));
}

#[test]
fn cycle_and_self_loops_are_not_isomorphic() {
    let a = dataset(vec![
        quad(blank_subject("x1"), "http://ex/p", blank_object("x2"), None),
        quad(blank_subject("x2"), "http://ex/p", blank_object("x1"), None),
    ]);
    let b = dataset(vec![
        quad(blank_subject("y1"), "http://ex/p", blank_object("y1"), None),
        quad(blank_subject("y2"), "http://ex/p", blank_object("y2"), None),
    ]);
    assert!(!are_datasets_isomorphic(&a, &b));
    assert!(are_datasets_isomorphic(&a, &a));
    assert!(are_datasets_isomorphic(&b, &b));
}

#[test]
fn blank_graph_names_are_renamed() {
    let a = dataset(vec![quad(
        named_subject("http://ex/s"),
        "http://ex/p",
        named_object("http://ex/o"),
        Some(blank_subject("g")),
    )]);
    let b = dataset(vec![quad(
        named_subject("http://ex/s"),
        "http://ex/p",
        named_object("http://ex/o"),
        Some(blank_subject("h")),
    )]);
    let c = dataset(vec![quad(
        named_subject("http://ex/s"),
        "http://ex/p",
        named_object("http://ex/o"),
        Some(named_subject("http://ex/g")),
    )]);
    assert!(are_datasets_isomorphic(&a, &b));
    assert!(!are_datasets_isomorphic(&a, &c));
}

#[test]
fn groups_of_different_sizes_are_not_isomorphic() {
    // Same number of quads and of distinct blank node hashes, but the
    // blank nodes are spread differently over the hashes.
    let a = dataset(vec![
        quad(blank_subject("x1"), "http://ex/p", named_object("http://ex/c"), None),
        quad(blank_subject("x2"), "http://ex/p", named_object("http://ex/c"), None),
        quad(blank_subject("y"), "http://ex/q", named_object("http://ex/c"), None),
        quad(named_subject("http://ex/n"), "http://ex/t", named_object("http://ex/m"), None),
    ]);
    let b = dataset(vec![
        quad(blank_subject("u1"), "http://ex/p", named_object("http://ex/c"), None),
        quad(blank_subject("u2"), "http://ex/p", named_object("http://ex/c"), None),
        quad(blank_subject("v1"), "http://ex/q", named_object("http://ex/c"), None),
        quad(blank_subject("v2"), "http://ex/q", named_object("http://ex/c"), None),
    ]);
    assert!(!are_datasets_isomorphic(&a, &b));
    assert!(!are_datasets_isomorphic(&b, &a));
}

#[test]
fn three_interchangeable_blank_nodes() {
    let a = dataset(vec![
        quad(blank_subject("a"), "http://ex/p", simple_literal("x"), None),
        quad(blank_subject("b"), "http://ex/p", simple_literal("x"), None),
        quad(blank_subject("c"), "http://ex/p", simple_literal("x"), None),
        quad(blank_subject("a"), "http://ex/next", blank_object("b"), None),
        quad(blank_subject("b"), "http://ex/next", blank_object("c"), None),
    ]);
    let b = dataset(vec![
        quad(blank_subject("r"), "http://ex/p", simple_literal("x"), None),
        quad(blank_subject("s"), "http://ex/p", simple_literal("x"), None),
        quad(blank_subject("t"), "http://ex/p", simple_literal("x"), None),
        quad(blank_subject("t"), "http://ex/next", blank_object("r"), None),
        quad(blank_subject("r"), "http://ex/next", blank_object("s"), None),
    ]);
    let c = dataset(vec![
        quad(blank_subject("r"), "http://ex/p", simple_literal("x"), None),
        quad(blank_subject("s"), "http://ex/p", simple_literal("x"), None),
        quad(blank_subject("t"), "http://ex/p", simple_literal("x"), None),
        quad(blank_subject("t"), "http://ex/next", blank_object("r"), None),
        quad(blank_subject("t"), "http://ex/next", blank_object("s"), None),
    ]);
    assert!(are_datasets_isomorphic(&a, &b));
    assert!(!are_datasets_isomorphic(&a, &c));
}

#[test]
fn blank_node_and_iri_are_not_interchangeable() {
    let a = dataset(vec![quad(blank_subject("s"), "http://ex/p", simple_literal("v"), None)]);
    let b = dataset(vec![quad(named_subject("http://ex/s"), "http://ex/p", simple_literal("v"), None)]);
    assert!(!are_datasets_isomorphic(&a, &b));
}

#[test]
fn typed_and_language_literals() {
    let lang = OwnedTerm::Literal(OwnedLiteral::LanguageTaggedString {
        value: "chat".to_string(),
        language: "fr".to_string(),
    });
    let lang_en = OwnedTerm::Literal(OwnedLiteral::LanguageTaggedString {
        value: "chat".to_string(),
        language: "en".to_string(),
    });
    let typed = OwnedTerm::Literal(OwnedLiteral::Typed {
        value: "1".to_string(),
        datatype: iri("http://www.w3.org/2001/XMLSchema#integer"),
    });
    let a = dataset(vec![
        quad(blank_subject("x"), "http://ex/label", lang.clone(), None),
        quad(blank_subject("x"), "http://ex/count", typed.clone(), None),
    ]);
    let b = dataset(vec![
        quad(blank_subject("z"), "http://ex/count", typed.clone(), None),
        quad(blank_subject("z"), "http://ex/label", lang.clone(), None),
    ]);
    let c = dataset(vec![
        quad(blank_subject("z"), "http://ex/count", typed, None),
        quad(blank_subject("z"), "http://ex/label", lang_en, None),
    ]);
    assert!(are_datasets_isomorphic(&a, &b));
    assert!(!are_datasets_isomorphic(&a, &c));
}

#[test]
fn dataset_insert_keeps_quads_distinct() {
    let mut d = OwnedDataset::new();
    assert!(d.insert(quad(blank_subject("x"), "http://ex/p", simple_literal("v"), None)));
    assert!(!d.insert(quad(blank_subject("x"), "http://ex/p", simple_literal("v"), None)));
    assert!(d.insert(quad(blank_subject("y"), "http://ex/p", simple_literal("v"), None)));
    assert_eq!(d.len(), 2);
    assert!(d.contains(&quad(blank_subject("y"), "http://ex/p", simple_literal("v"), None)));
    assert!(!d.contains(&quad(blank_subject("z"), "http://ex/p", simple_literal("v"), None)));
}

#[test]
fn isomorphism_chains_through_a_third_dataset() {
    let a = dataset(vec![
        quad(blank_subject("a"), "http://ex/p", blank_object("b"), Some(blank_subject("g"))),
        quad(blank_subject("b"), "http://ex/p", simple_literal("end"), None),
    ]);
    let b = dataset(vec![
        quad(blank_subject("m"), "http://ex/p", blank_object("n"), Some(blank_subject("k"))),
        quad(blank_subject("n"), "http://ex/p", simple_literal("end"), None),
    ]);
    let c = dataset(vec![
        quad(blank_subject("n"), "http://ex/p", simple_literal("end"), None),
        quad(blank_subject("z"), "http://ex/p", blank_object("n"), Some(blank_subject("w"))),
    ]);
    assert!(are_datasets_isomorphic(&a, &b));
    assert!(are_datasets_isomorphic(&b, &c));
    assert!(are_datasets_isomorphic(&a, &c));
    assert!(are_datasets_isomorphic(&c, &a));
}

#[test]
fn triples_for_subject_and_object_follow_insertion_order() {
    let d = dataset(vec![
        quad(blank_subject("x"), "http://ex/p", simple_literal("1"), None),
        quad(named_subject("http://ex/s"), "http://ex/p", blank_object("x"), None),
        quad(blank_subject("x"), "http://ex/q", named_object("http://ex/o"), None),
    ]);
    let by_subject = d.triples_for_subject(&blank_subject("x"));
    assert_eq!(by_subject.len(), 2);
    assert_eq!(by_subject[0].predicate.iri, "http://ex/p");
    assert_eq!(by_subject[1].predicate.iri, "http://ex/q");
    let by_object = d.triples_for_object(&blank_object("x"));
    assert_eq!(by_object.len(), 1);
    assert!(matches!(&by_object[0].subject, OwnedNamedOrBlankNode::NamedNode(n) if n.iri == "http://ex/s"));
}

#[test]
fn same_structure_with_different_predicates_is_not_isomorphic() {
    let a = dataset(vec![
        quad(blank_subject("x"), "http://ex/p", blank_object("y"), None),
        quad(blank_subject("y"), "http://ex/q", blank_object("x"), None),
    ]);
    let b = dataset(vec![
        quad(blank_subject("x"), "http://ex/p", blank_object("y"), None),
        quad(blank_subject("y"), "http://ex/p", blank_object("x"), None),
    ]);
    assert!(!are_datasets_isomorphic(&a, &b));
}

#[test]
fn insertion_order_does_not_matter() {
    let quads_a = vec![
        quad(blank_subject("x1"), "http://ex/p", named_object("http://ex/c"), None),
        quad(blank_subject("x2"), "http://ex/p", named_object("http://ex/c"), None),
        quad(blank_subject("x3"), "http://ex/r", simple_literal("v"), None),
        quad(blank_subject("x1"), "http://ex/q", blank_object("x2"), None),
        quad(blank_subject("x3"), "http://ex/q", blank_object("x1"), None),
    ];
    let quads_b = vec![
        quad(blank_subject("y3"), "http://ex/q", blank_object("y2"), None),
        quad(blank_subject("y3"), "http://ex/r", simple_literal("v"), None),
        quad(blank_subject("y2"), "http://ex/q", blank_object("y1"), None),
        quad(blank_subject("y1"), "http://ex/p", named_object("http://ex/c"), None),
        quad(blank_subject("y2"), "http://ex/p", named_object("http://ex/c"), None),
    ];
    let a = dataset(quads_a.clone());
    let b = dataset(quads_b.clone());
    let a_reversed = dataset(quads_a.into_iter().rev().collect());
    let b_reversed = dataset(quads_b.into_iter().rev().collect());
    assert!(are_datasets_isomorphic(&a, &b));
    assert!(are_datasets_isomorphic(&a_reversed, &b));
    assert!(are_datasets_isomorphic(&a, &b_reversed));
    assert!(are_datasets_isomorphic(&a_reversed, &b_reversed));
}

#[test]
fn literal_fields_keep_their_boundaries() {
    let split_one = OwnedTerm::Literal(OwnedLiteral::Typed {
        value: "ab".to_string(),
        datatype: iri("c"),
    });
    let split_two = OwnedTerm::Literal(OwnedLiteral::Typed {
        value: "a".to_string(),
        datatype: iri("bc"),
    });
    let a = dataset(vec![quad(blank_subject("x"), "http://ex/p", split_one.clone(), None)]);
    let b = dataset(vec![quad(blank_subject("y"), "http://ex/p", split_two, None)]);
    let c = dataset(vec![quad(blank_subject("z"), "http://ex/p", split_one, None)]);
    assert!(!are_datasets_isomorphic(&a, &b));
    assert!(are_datasets_isomorphic(&a, &c));
}

#[test]
fn positions_are_sorted_increasingly() {
    let mut v: Vec<usize> = vec![3, 0, 7, 2];
    rio_isomorphism::permutation::sort_positions(&mut v);
    assert_eq!(v, vec![0, 2, 3, 7]);
    let mut empty: Vec<usize> = Vec::new();
    rio_isomorphism::permutation::sort_positions(&mut empty);
    assert!(empty.is_empty());
}
