//! Building a graph whose payloads are string labels, with edges given by
//! the labels of their ends.

use super::{Graph, GraphError, Node};
use vstd::prelude::*;

verus! {

/// `i` is the first place at which `labels` holds the text `name`.
pub open spec fn first_at(labels: Seq<&str>, name: Seq<char>, i: int) -> bool {
    &&& 0 <= i < labels.len()
    &&& labels[i]@ == name
    &&& forall|j: int| 0 <= j < i ==> (#[trigger] labels[j])@ != name
}

/// Some place of `labels` holds the text `name`.
pub open spec fn holds(labels: Seq<&str>, name: Seq<char>) -> bool {
    exists|i: int| 0 <= i < labels.len() && (#[trigger] labels[i])@ == name
}

/// The first place at which `labels` holds the text `name`.
pub open spec fn place_of(labels: Seq<&str>, name: Seq<char>) -> int {
    choose|i: int| first_at(labels, name, i)
}

/// The first place of a text is where `first_at` says.
pub proof fn lemma_place_of(labels: Seq<&str>, name: Seq<char>, i: int)
    requires
        first_at(labels, name, i),
    ensures
        holds(labels, name),
        place_of(labels, name) == i,
{
    let k = place_of(labels, name);
    assert(first_at(labels, name, k));
    if k < i {
        assert(labels[k]@ != name);
    }
    if i < k {
        assert(labels[i]@ != name);
    }
}

/// Whether two string slices hold the same text. This is `str::eq` of the
/// standard library, which compares the two slices byte by byte; the
/// contract, that the result tells whether the character sequences are
/// equal, is taken on trust.
#[verifier::external_body]
fn same_text(a: &str, b: &str) -> (r: bool)
    ensures
        r == (a@ == b@),
{
    a == b
}

impl<'a> Graph<&'a str> {
    /// The index of the first node labelled `label`.
    pub fn find_label(&self, label: &str) -> (r: Option<usize>)
        ensures
            match r {
                Some(i) => first_at(self.labels(), label@, i as int),
                None => !holds(self.labels(), label@),
            },
    {
        let mut i: usize = 0;
        while i < self.nodes.len()
            invariant
                i <= self.nodes.len(),
                self.nodes.len() == self.labels().len(),
                forall|j: int| 0 <= j < i ==> (#[trigger] self.labels()[j])@ != label@,
            decreases self.nodes.len() - i,
        {
            assert(self.labels()[i as int] == self.nodes[i as int].data);
            if same_text(self.nodes[i].data, label) {
                return Some(i);
            }
            i += 1;
        }
        None
    }

    /// Appends one node for each label, in the order given.
    pub fn add_from_str_vec(&mut self, vec: Vec<&'a str>)
        requires
            old(self).wf(),
        ensures
            final(self).wf(),
            final(self).node_count() == old(self).node_count() + vec@.len(),
            final(self).edge_count() == old(self).edge_count(),
            final(self).labels() == old(self).labels() + vec@,
            final(self).markers() == old(self).markers() + Seq::new(vec@.len(), |i: int| 0u64),
            final(self).adjacency() == old(self).adjacency() + Seq::new(
                vec@.len(),
                |i: int| Seq::<int>::empty(),
            ),
            final(self).targets() == old(self).targets(),
            final(self).weights() == old(self).weights(),
    {
        let mut i: usize = 0;
        while i < vec.len()
            invariant
                i <= vec.len(),
                self.wf(),
                self.node_count() == old(self).node_count() + i,
                self.edge_count() == old(self).edge_count(),
                self.labels() == old(self).labels() + vec@.take(i as int),
                self.markers() == old(self).markers() + Seq::new(i as nat, |k: int| 0u64),
                self.adjacency() == old(self).adjacency() + Seq::new(
                    i as nat,
                    |k: int| Seq::<int>::empty(),
                ),
                self.targets() == old(self).targets(),
                self.weights() == old(self).weights(),
            decreases vec.len() - i,
        {
            let data = vec[i];
            self.add_node(Node::new(data));
            proof {
                assert(vec@.take(i + 1) =~= vec@.take(i as int).push(data));
                assert(self.labels() =~= old(self).labels() + vec@.take(i + 1));
                assert(self.markers() =~= old(self).markers() + Seq::new(
                    (i + 1) as nat,
                    |k: int| 0u64,
                ));
                assert(self.adjacency() =~= old(self).adjacency() + Seq::new(
                    (i + 1) as nat,
                    |k: int| Seq::<int>::empty(),
                ));
            }
            i += 1;
        }
        proof {
            assert(vec@.take(vec@.len() as int) =~= vec@);
        }
    }

    /// Adds an edge from the first node labelled `source` to the first node
    /// labelled `target`. With a label that no node carries the graph is
    /// left as it was.
    pub fn add_edge_str(&mut self, source: &'a str, target: &'a str, weight: u64) -> (r: Result<
        (),
        GraphError,
    >)
        requires
            old(self).wf(),
        ensures
            final(self).wf(),
            final(self).node_count() == old(self).node_count(),
            final(self).labels() == old(self).labels(),
            final(self).markers() == old(self).markers(),
            r is Ok <==> holds(old(self).labels(), source@) && holds(old(self).labels(), target@),
            r is Err ==> {
                &&& r == Err::<(), GraphError>(GraphError::NotFoundError)
                &&& final(self).edge_count() == old(self).edge_count()
                &&& final(self).adjacency() == old(self).adjacency()
                &&& final(self).targets() == old(self).targets()
                &&& final(self).weights() == old(self).weights()
            },
            r is Ok ==> {
                let s = place_of(old(self).labels(), source@);
                let t = place_of(old(self).labels(), target@);
                &&& final(self).edge_count() == old(self).edge_count() + 1
                &&& final(self).targets() == old(self).targets().push(t as usize)
                &&& final(self).weights() == old(self).weights().push(weight)
                &&& final(self).adjacency() == old(self).adjacency().update(
                    s,
                    seq![old(self).edge_count() as int] + old(self).out_edges(s),
                )
            },
    {
        let s = match self.find_label(source) {
            Some(s) => s,
            None => {
                return Err(GraphError::NotFoundError);
            },
        };
        let t = match self.find_label(target) {
            Some(t) => t,
            None => {
                return Err(GraphError::NotFoundError);
            },
        };
        proof {
            lemma_place_of(self.labels(), source@, s as int);
            lemma_place_of(self.labels(), target@, t as int);
        }
        self.add_edge(s, t, weight)
    }

    /// Adds two edges of the given weight, one each way, between the first
    /// node labelled `source` and the first node labelled `target`. With a
    /// label that no node carries the graph is left as it was.
    pub fn add_undirected_edge_str(&mut self, source: &'a str, target: &'a str, weight: u64) -> (r:
        Result<(), GraphError>)
        requires
            old(self).wf(),
        ensures
            final(self).wf(),
            final(self).node_count() == old(self).node_count(),
            final(self).labels() == old(self).labels(),
            final(self).markers() == old(self).markers(),
            r is Ok <==> holds(old(self).labels(), source@) && holds(old(self).labels(), target@),
            r is Err ==> {
                &&& r == Err::<(), GraphError>(GraphError::NotFoundError)
                &&& final(self).edge_count() == old(self).edge_count()
                &&& final(self).adjacency() == old(self).adjacency()
                &&& final(self).targets() == old(self).targets()
                &&& final(self).weights() == old(self).weights()
            },
            r is Ok ==> {
                let s = place_of(old(self).labels(), source@);
                let t = place_of(old(self).labels(), target@);
                let first = old(self).edge_count() as int;
                let half = old(self).adjacency().update(s, seq![first] + old(self).out_edges(s));
                &&& final(self).edge_count() == old(self).edge_count() + 2
                &&& final(self).targets() == old(self).targets().push(t as usize).push(s as usize)
                &&& final(self).weights() == old(self).weights().push(weight).push(weight)
                &&& final(self).adjacency() == half.update(t, seq![first + 1] + half[t])
                &&& final(self).has_edge(s, t, weight as int)
                &&& final(self).has_edge(t, s, weight as int)
            },
    {
        let s = match self.find_label(source) {
            Some(s) => s,
            None => {
                return Err(GraphError::NotFoundError);
            },
        };
        let t = match self.find_label(target) {
            Some(t) => t,
            None => {
                return Err(GraphError::NotFoundError);
            },
        };
        proof {
            lemma_place_of(self.labels(), source@, s as int);
            lemma_place_of(self.labels(), target@, t as int);
        }
        self.add_undirected_edge(s, t, weight)
    }
}

} // verus!
