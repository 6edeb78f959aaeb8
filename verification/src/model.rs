//! The RDF data model: IRIs, blank nodes, literals, quads and datasets.

use vstd::prelude::*;

verus! {

/// The mathematical value of an RDF term: its kind and its text content.
pub enum TermModel {
    /// An IRI.
    Named(Seq<char>),
    /// A blank node identifier.
    Blank(Seq<char>),
    /// A literal without language tag or datatype.
    Simple(Seq<char>),
    /// A literal value with its language tag.
    LangString(Seq<char>, Seq<char>),
    /// A literal value with the IRI of its datatype.
    Typed(Seq<char>, Seq<char>),
}

/// The mathematical value of a quad.
pub struct QuadModel {
    pub subject: TermModel,
    pub predicate: Seq<char>,
    pub object: TermModel,
    pub graph_name: Option<TermModel>,
}

/// An IRI.
pub struct OwnedNamedNode {
    pub iri: String,
}

/// A blank node, identified by its local name.
pub struct OwnedBlankNode {
    pub id: String,
}

/// A literal.
pub enum OwnedLiteral {
    Simple { value: String },
    LanguageTaggedString { value: String, language: String },
    Typed { value: String, datatype: OwnedNamedNode },
}

/// The subject or graph name of a quad.
pub enum OwnedNamedOrBlankNode {
    NamedNode(OwnedNamedNode),
    BlankNode(OwnedBlankNode),
}

/// Any RDF term.
pub enum OwnedTerm {
    NamedNode(OwnedNamedNode),
    BlankNode(OwnedBlankNode),
    Literal(OwnedLiteral),
}

/// A triple in an optional named graph.
pub struct OwnedQuad {
    pub subject: OwnedNamedOrBlankNode,
    pub predicate: OwnedNamedNode,
    pub object: OwnedTerm,
    pub graph_name: Option<OwnedNamedOrBlankNode>,
}

impl View for OwnedNamedNode {
    type V = Seq<char>;

    open spec fn view(&self) -> Seq<char> {
        self.iri@
    }
}

impl View for OwnedBlankNode {
    type V = Seq<char>;

    open spec fn view(&self) -> Seq<char> {
        self.id@
    }
}

impl View for OwnedLiteral {
    type V = TermModel;

    open spec fn view(&self) -> TermModel {
        match self {
            OwnedLiteral::Simple { value } => TermModel::Simple(value@),
            OwnedLiteral::LanguageTaggedString { value, language } => TermModel::LangString(
                value@,
                language@,
            ),
            OwnedLiteral::Typed { value, datatype } => TermModel::Typed(value@, datatype@),
        }
    }
}

impl View for OwnedNamedOrBlankNode {
    type V = TermModel;

    open spec fn view(&self) -> TermModel {
        match self {
            OwnedNamedOrBlankNode::NamedNode(n) => TermModel::Named(n@),
            OwnedNamedOrBlankNode::BlankNode(b) => TermModel::Blank(b@),
        }
    }
}

impl View for OwnedTerm {
    type V = TermModel;

    open spec fn view(&self) -> TermModel {
        match self {
            OwnedTerm::NamedNode(n) => TermModel::Named(n@),
            OwnedTerm::BlankNode(b) => TermModel::Blank(b@),
            OwnedTerm::Literal(l) => l@,
        }
    }
}

/// The view of an optional graph name.
pub open spec fn graph_model(g: Option<OwnedNamedOrBlankNode>) -> Option<TermModel> {
    match g {
        Some(n) => Some(n@),
        None => None,
    }
}

impl View for OwnedQuad {
    type V = QuadModel;

    open spec fn view(&self) -> QuadModel {
        QuadModel {
            subject: self.subject@,
            predicate: self.predicate@,
            object: self.object@,
            graph_name: graph_model(self.graph_name),
        }
    }
}

impl Clone for OwnedNamedNode {
    fn clone(&self) -> (res: Self)
        ensures
            res@ == self@,
    {
        OwnedNamedNode { iri: self.iri.clone() }
    }
}

impl Clone for OwnedBlankNode {
    fn clone(&self) -> (res: Self)
        ensures
            res@ == self@,
    {
        OwnedBlankNode { id: self.id.clone() }
    }
}


impl Clone for OwnedLiteral {
    fn clone(&self) -> (res: Self)
        ensures
            res@ == self@,
    {
        match self {
            OwnedLiteral::Simple { value } => OwnedLiteral::Simple { value: value.clone() },
            OwnedLiteral::LanguageTaggedString { value, language } =>
                OwnedLiteral::LanguageTaggedString {
                    value: value.clone(),
                    language: language.clone(),
                },
            OwnedLiteral::Typed { value, datatype } => OwnedLiteral::Typed {
                value: value.clone(),
                datatype: datatype.clone(),
            },
        }
    }
}

impl Clone for OwnedNamedOrBlankNode {
    fn clone(&self) -> (res: Self)
        ensures
            res@ == self@,
    {
        match self {
            OwnedNamedOrBlankNode::NamedNode(n) => OwnedNamedOrBlankNode::NamedNode(n.clone()),
            OwnedNamedOrBlankNode::BlankNode(b) => OwnedNamedOrBlankNode::BlankNode(b.clone()),
        }
    }
}

impl Clone for OwnedTerm {
    fn clone(&self) -> (res: Self)
        ensures
            res@ == self@,
    {
        match self {
            OwnedTerm::NamedNode(n) => OwnedTerm::NamedNode(n.clone()),
            OwnedTerm::BlankNode(b) => OwnedTerm::BlankNode(b.clone()),
            OwnedTerm::Literal(l) => OwnedTerm::Literal(l.clone()),
        }
    }
}

impl Clone for OwnedQuad {
    fn clone(&self) -> (res: Self)
        ensures
            res@ == self@,
    {
        OwnedQuad {
            subject: self.subject.clone(),
            predicate: self.predicate.clone(),
            object: self.object.clone(),
            graph_name: match &self.graph_name {
                Some(g) => Some(g.clone()),
                None => None,
            },
        }
    }
}

impl OwnedNamedNode {
    /// Whether two IRIs are equal.
    pub fn equals(&self, other: &Self) -> (res: bool)
        ensures
            res == (self@ == other@),
    {
        self.iri == other.iri
    }
}

impl OwnedBlankNode {
    /// Whether two blank nodes have the same identifier.
    pub fn equals(&self, other: &Self) -> (res: bool)
        ensures
            res == (self@ == other@),
    {
        self.id == other.id
    }
}

impl OwnedLiteral {
    /// Whether two literals are equal.
    pub fn equals(&self, other: &Self) -> (res: bool)
        ensures
            res == (self@ == other@),
    {
        match (self, other) {
            (OwnedLiteral::Simple { value: v1 }, OwnedLiteral::Simple { value: v2 }) => *v1 == *v2,
            (
                OwnedLiteral::LanguageTaggedString { value: v1, language: l1 },
                OwnedLiteral::LanguageTaggedString { value: v2, language: l2 },
            ) => *v1 == *v2 && *l1 == *l2,
            (
                OwnedLiteral::Typed { value: v1, datatype: d1 },
                OwnedLiteral::Typed { value: v2, datatype: d2 },
            ) => *v1 == *v2 && d1.equals(d2),
            _ => false,
        }
    }
}

impl OwnedNamedOrBlankNode {
    /// Whether two subjects (or graph names) are equal.
    pub fn equals(&self, other: &Self) -> (res: bool)
        ensures
            res == (self@ == other@),
    {
        match (self, other) {
            (OwnedNamedOrBlankNode::NamedNode(n1), OwnedNamedOrBlankNode::NamedNode(n2)) => n1.equals(n2),
            (OwnedNamedOrBlankNode::BlankNode(b1), OwnedNamedOrBlankNode::BlankNode(b2)) => b1.equals(b2),
            _ => false,
        }
    }
}

impl OwnedTerm {
    /// Whether two terms are equal.
    pub fn equals(&self, other: &Self) -> (res: bool)
        ensures
            res == (self@ == other@),
    {
        match (self, other) {
            (OwnedTerm::NamedNode(n1), OwnedTerm::NamedNode(n2)) => n1.equals(n2),
            (OwnedTerm::BlankNode(b1), OwnedTerm::BlankNode(b2)) => b1.equals(b2),
            (OwnedTerm::Literal(l1), OwnedTerm::Literal(l2)) => l1.equals(l2),
            _ => false,
        }
    }
}

impl OwnedQuad {
    /// Whether two quads are equal.
    pub fn equals(&self, other: &Self) -> (res: bool)
        ensures
            res == (self@ == other@),
    {
        let same_graph = match (&self.graph_name, &other.graph_name) {
            (Some(g1), Some(g2)) => g1.equals(g2),
            (None, None) => true,
            _ => false,
        };
        self.subject.equals(&other.subject) && self.predicate.equals(&other.predicate)
            && self.object.equals(&other.object) && same_graph
    }
}

/// A set of quads.
pub struct OwnedDataset {
    quads: Vec<OwnedQuad>,
}

impl OwnedDataset {
    /// The quads of the dataset, in the order in which they were first inserted.
    pub closed spec fn quad_seq(&self) -> Seq<QuadModel> {
        self.quads@.map_values(|q: OwnedQuad| q@)
    }

    /// No quad is stored twice.
    #[verifier::type_invariant]
    closed spec fn distinct_quads(&self) -> bool {
        self.quad_seq().no_duplicates()
    }

    /// An empty dataset.
    pub fn new() -> (res: Self)
        ensures
            res.quad_seq() == Seq::<QuadModel>::empty(),
    {
        let res = OwnedDataset { quads: Vec::new() };
        proof {
            assert(res.quad_seq() =~= Seq::<QuadModel>::empty());
        }
        res
    }

    /// The quads of the dataset, in insertion order, each one once.
    pub fn quads(&self) -> (res: &Vec<OwnedQuad>)
        ensures
            res@.map_values(|q: OwnedQuad| q@) == self.quad_seq(),
            self.quad_seq().no_duplicates(),
    {
        proof {
            use_type_invariant(self);
        }
        &self.quads
    }

    /// The number of quads.
    pub fn len(&self) -> (res: usize)
        ensures
            res == self.quad_seq().len(),
            self.quad_seq().no_duplicates(),
    {
        proof {
            use_type_invariant(self);
        }
        self.quads.len()
    }

    /// Whether the dataset holds the given quad.
    pub fn contains(&self, quad: &OwnedQuad) -> (res: bool)
        ensures
            res == self@.contains(quad@),
    {
        let mut i: usize = 0;
        while i < self.quads.len()
            invariant
                i <= self.quads@.len(),
                forall|j: int| 0 <= j < i ==> self.quad_seq()[j] != quad@,
            decreases self.quads@.len() - i,
        {
            if self.quads[i].equals(quad) {
                proof {
                    assert(self.quad_seq()[i as int] == quad@);
                }
                return true;
            }
            i = i + 1;
        }
        proof {
            if self.quad_seq().contains(quad@) {
                let j = choose|j: int| 0 <= j < self.quad_seq().len() && self.quad_seq()[j] == quad@;
                assert(self.quad_seq()[j] == quad@);
            }
        }
        false
    }

    /// Adds a quad; returns whether it was not present before.
    pub fn insert(&mut self, quad: OwnedQuad) -> (res: bool)
        ensures
            res == !old(self)@.contains(quad@),
            final(self)@ == old(self)@.insert(quad@),
            res ==> final(self).quad_seq() == old(self).quad_seq().push(quad@),
            !res ==> final(self).quad_seq() == old(self).quad_seq(),
    {
        proof {
            use_type_invariant(&*self);
        }
        if self.contains(&quad) {
            return false;
        }
        let ghost q = quad@;
        let mut quads: Vec<OwnedQuad> = Vec::new();
        std::mem::swap(&mut quads, &mut self.quads);
        quads.push(quad);
        proof {
            let old_seq = old(self).quad_seq();
            let new_seq = quads@.map_values(|x: OwnedQuad| x@);
            assert(new_seq =~= old_seq.push(q));
            assert(!old_seq.contains(q));
            assert(new_seq.no_duplicates()) by {
                assert forall|i: int, j: int|
                    0 <= i < new_seq.len() && 0 <= j < new_seq.len() && i != j implies new_seq[i]
                    != new_seq[j] by {
                    if i < old_seq.len() && j < old_seq.len() {
                    } else if i < old_seq.len() {
                        assert(old_seq.contains(old_seq[i]));
                    } else {
                        assert(old_seq.contains(old_seq[j]));
                    }
                }
            }
            old_seq.lemma_push_to_set_commute(q);
        }
        std::mem::swap(&mut quads, &mut self.quads);
        proof {
            assert(self.quad_seq() =~= old(self).quad_seq().push(q));
        }
        true
    }
}

/// Holds of the quads whose subject is `s`.
pub open spec fn has_subject(s: TermModel) -> spec_fn(QuadModel) -> bool {
    |q: QuadModel| q.subject == s
}

/// Holds of the quads whose object is `o`.
pub open spec fn has_object(o: TermModel) -> spec_fn(QuadModel) -> bool {
    |q: QuadModel| q.object == o
}

impl OwnedDataset {
    /// The quads whose subject is `subject`, in the order of `quad_seq`.
    pub fn triples_for_subject(&self, subject: &OwnedNamedOrBlankNode) -> (res: Vec<&OwnedQuad>)
        ensures
            res@.map_values(|q: &OwnedQuad| q@) == self.quad_seq().filter(has_subject(subject@)),
            res@.map_values(|q: &OwnedQuad| q@) == self.quad_seq().filter(
                |q: QuadModel| q.subject == subject@,
            ),
            forall|i: int| 0 <= i < res@.len() ==> (#[trigger] res@[i])@.subject == subject@,
            forall|q: QuadModel|
                self@.contains(q) && q.subject == subject@ ==> exists|i: int|
                    0 <= i < res@.len() && (#[trigger] res@[i])@ == q,
    {
        let quads = self.quads();
        let ghost qs = self.quad_seq();
        let mut res: Vec<&OwnedQuad> = Vec::new();
        let mut i: usize = 0;
        while i < quads.len()
            invariant
                i <= quads@.len(),
                quads@.map_values(|q: OwnedQuad| q@) == qs,
                res@.map_values(|q: &OwnedQuad| q@) == qs.take(i as int).filter(has_subject(subject@)),
            decreases quads@.len() - i,
        {
            proof {
                assert(qs.take(i + 1).drop_last() =~= qs.take(i as int));
                reveal(Seq::filter);
            }
            let q = &quads[i];
            if q.subject.equals(subject) {
                res.push(q);
            }
            proof {
                assert(res@.map_values(|q: &OwnedQuad| q@) =~= qs.take(i + 1).filter(has_subject(subject@)));
            }
            i = i + 1;
        }
        proof {
            broadcast use vstd::seq_lib::group_filter_ensures;

            assert(qs.take(i as int) =~= qs);
            let p = has_subject(subject@);
            assert(p =~= (|q: QuadModel| q.subject == subject@));
            let f = qs.filter(p);
            let rv = res@.map_values(|q: &OwnedQuad| q@);
            assert forall|i: int| 0 <= i < res@.len() implies (#[trigger] res@[i])@.subject == subject@ by {
                assert(rv[i] == res@[i]@);
                assert(p(f[i]));
            }
            assert forall|q: QuadModel| self@.contains(q) && q.subject == subject@ implies exists|i: int|
                0 <= i < res@.len() && (#[trigger] res@[i])@ == q by {
                let j = choose|j: int| 0 <= j < qs.len() && qs[j] == q;
                assert(p(qs[j]));
                assert(f.contains(qs[j]));
                let i = choose|i: int| 0 <= i < f.len() && f[i] == q;
                assert(rv[i] == res@[i]@);
            }
        }
        res
    }

    /// The quads whose object is `object`, in the order of `quad_seq`.
    pub fn triples_for_object(&self, object: &OwnedTerm) -> (res: Vec<&OwnedQuad>)
        ensures
            res@.map_values(|q: &OwnedQuad| q@) == self.quad_seq().filter(has_object(object@)),
            res@.map_values(|q: &OwnedQuad| q@) == self.quad_seq().filter(
                |q: QuadModel| q.object == object@,
            ),
            forall|i: int| 0 <= i < res@.len() ==> (#[trigger] res@[i])@.object == object@,
            forall|q: QuadModel|
                self@.contains(q) && q.object == object@ ==> exists|i: int|
                    0 <= i < res@.len() && (#[trigger] res@[i])@ == q,
    {
        let quads = self.quads();
        let ghost qs = self.quad_seq();
        let mut res: Vec<&OwnedQuad> = Vec::new();
        let mut i: usize = 0;
        while i < quads.len()
            invariant
                i <= quads@.len(),
                quads@.map_values(|q: OwnedQuad| q@) == qs,
                res@.map_values(|q: &OwnedQuad| q@) == qs.take(i as int).filter(has_object(object@)),
            decreases quads@.len() - i,
        {
            proof {
                assert(qs.take(i + 1).drop_last() =~= qs.take(i as int));
                reveal(Seq::filter);
            }
            let q = &quads[i];
            if q.object.equals(object) {
                res.push(q);
            }
            proof {
                assert(res@.map_values(|q: &OwnedQuad| q@) =~= qs.take(i + 1).filter(has_object(object@)));
            }
            i = i + 1;
        }
        proof {
            broadcast use vstd::seq_lib::group_filter_ensures;

            assert(qs.take(i as int) =~= qs);
            let p = has_object(object@);
            assert(p =~= (|q: QuadModel| q.object == object@));
            let f = qs.filter(p);
            let rv = res@.map_values(|q: &OwnedQuad| q@);
            assert forall|i: int| 0 <= i < res@.len() implies (#[trigger] res@[i])@.object == object@ by {
                assert(rv[i] == res@[i]@);
                assert(p(f[i]));
            }
            assert forall|q: QuadModel| self@.contains(q) && q.object == object@ implies exists|i: int|
                0 <= i < res@.len() && (#[trigger] res@[i])@ == q by {
                let j = choose|j: int| 0 <= j < qs.len() && qs[j] == q;
                assert(p(qs[j]));
                assert(f.contains(qs[j]));
                let i = choose|i: int| 0 <= i < f.len() && f[i] == q;
                assert(rv[i] == res@[i]@);
            }
        }
        res
    }
}

impl View for OwnedDataset {
    type V = Set<QuadModel>;

    open spec fn view(&self) -> Set<QuadModel> {
        self.quad_seq().to_set()
    }
}

} // verus!
