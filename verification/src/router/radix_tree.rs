use crate::parse::iter::bytes_eq;
use crate::router::error::RouterError;
use vstd::prelude::*;

verus! {

/// `p` is a prefix of `k`.
pub open spec fn starts_with(k: Seq<u8>, p: Seq<u8>) -> bool {
    p.len() <= k.len() && k.subrange(0, p.len() as int) == p
}

/// The value stored at a node, with the part of the key that led to it.
pub struct LeafNode<'a, T> {
    pub(crate) key: &'a [u8],
    pub(crate) value: T,
}

/// A link from a node to a child; the child's prefix starts with the first byte of `label`.
pub struct Edge<'a, T> {
    pub(crate) label: &'a [u8],
    pub(crate) node: Node<'a, T>,
}

/// A node of a radix tree: the bytes that lead to it from its parent (`prefix`),
/// a value if a key ends here, and its children.
pub struct Node<'a, T> {
    pub(crate) leaf_node: Option<LeafNode<'a, T>>,
    pub(crate) edges: Vec<Edge<'a, T>>,
    pub(crate) prefix: &'a [u8],
}

/// An edge is usable: its label and its child's prefix are non-empty and start with the same byte.
pub(crate) open spec fn edge_ok<'a, T>(e: Edge<'a, T>) -> bool {
    &&& e.label@.len() > 0
    &&& e.node.prefix@.len() > 0
    &&& e.label@[0] == e.node.prefix@[0]
}

/// No two children start with the same byte.
pub(crate) open spec fn distinct_first<'a, T>(edges: Seq<Edge<'a, T>>) -> bool {
    forall|i: int, j: int|
        #![trigger edges[i], edges[j]]
        0 <= i < edges.len() && 0 <= j < edges.len() && i != j ==> edges[i].node.prefix@[0]
            != edges[j].node.prefix@[0]
}

/// The children are ordered by label, each label coming before the next.
pub(crate) open spec fn sorted_labels<'a, T>(edges: Seq<Edge<'a, T>>) -> bool {
    forall|i: int, j: int|
        #![trigger edges[i], edges[j]]
        0 <= i < j < edges.len() ==> bytes_less(edges[i].label@, edges[j].label@)
}

/// A node below the root is compressed away unless it is needed: it holds a value, or it has at
/// least two children.
pub(crate) open spec fn compressed<'a, T>(n: Node<'a, T>) -> bool {
    n.leaf_node is Some || n.edges@.len() >= 2
}

/// Two nodes are the same tree: the same prefix and value, and, in the same order, children
/// with the same labels that are the same trees.
pub(crate) open spec fn same_node<'a, T>(a: Node<'a, T>, b: Node<'a, T>) -> bool
    decreases a,
{
    &&& a.prefix == b.prefix
    &&& a.leaf_node == b.leaf_node
    &&& a.edges@.len() == b.edges@.len()
    &&& forall|i: int|
        0 <= i < a.edges@.len() ==> (#[trigger] a.edges@[i]).label == b.edges@[i].label
            && same_node(a.edges@[i].node, b.edges@[i].node)
}

/// A key `k`, relative to a node, continues through the child of `e`.
pub(crate) open spec fn leads<'a, T>(e: Edge<'a, T>, k: Seq<u8>) -> bool {
    e.node.prefix@.len() > 0 && starts_with(k, e.node.prefix@)
}

/// The scan for the child whose label starts with `b` stops at `e`: either it matches,
/// or its label is empty.
pub(crate) open spec fn stops_at<'a, T>(e: Edge<'a, T>, b: u8) -> bool {
    e.label@.len() == 0 || e.label@[0] == b
}

impl<'a, T> Node<'a, T> {
    /// The value stored under key `k`, read relative to this node (its own prefix excluded).
    pub closed spec fn lookup(self, k: Seq<u8>) -> Option<T>
        decreases k.len(),
    {
        if k.len() == 0 {
            match self.leaf_node {
                Some(l) => Some(l.value),
                None => None,
            }
        } else if exists|i: int| 0 <= i < self.edges@.len() && #[trigger] leads(self.edges@[i], k) {
            let i = choose|i: int| 0 <= i < self.edges@.len() && #[trigger] leads(self.edges@[i], k);
            let c = self.edges@[i].node;
            c.lookup(k.subrange(c.prefix@.len() as int, k.len() as int))
        } else {
            None
        }
    }

    /// The keys stored below this node, relative to it, with their values.
    pub closed spec fn entries(self) -> Map<Seq<u8>, T> {
        Map::new(|k: Seq<u8>| self.lookup(k) is Some, |k: Seq<u8>| self.lookup(k)->0)
    }

    /// The bytes that lead to this node from its parent.
    pub closed spec fn prefix_bytes(self) -> Seq<u8> {
        self.prefix@
    }

    /// Well-formed: every edge is usable, children start with distinct bytes and are ordered by
    /// label, every child holds a value or branches, and every child is well-formed.
    pub closed spec fn wf(self) -> bool
        decreases self,
    {
        &&& forall|i: int| 0 <= i < self.edges@.len() ==> edge_ok(#[trigger] self.edges@[i])
        &&& distinct_first(self.edges@)
        &&& sorted_labels(self.edges@)
        &&& forall|i: int| 0 <= i < self.edges@.len() ==> compressed((#[trigger] self.edges@[i]).node)
        &&& forall|i: int| 0 <= i < self.edges@.len() ==> (#[trigger] self.edges@[i]).node.wf()
    }
}


/// What a key gives, read through one edge: the child's value for the rest of the key when the
/// key continues through that child, and nothing otherwise.
pub(crate) open spec fn edge_get<'a, T>(e: Edge<'a, T>, k: Seq<u8>) -> Option<T> {
    if leads(e, k) {
        e.node.lookup(k.subrange(e.node.prefix@.len() as int, k.len() as int))
    } else {
        None
    }
}

/// Every edge is usable and children start with distinct bytes (the top level of `wf`).
pub(crate) open spec fn shallow_ok<'a, T>(n: Node<'a, T>) -> bool {
    &&& forall|i: int| 0 <= i < n.edges@.len() ==> edge_ok(#[trigger] n.edges@[i])
    &&& distinct_first(n.edges@)
}

/// A key that starts with the first byte of child `j` is read through that child.
proof fn lemma_lookup_first<'a, T>(n: Node<'a, T>, k: Seq<u8>, j: int)
    requires
        shallow_ok(n),
        k.len() > 0,
        0 <= j < n.edges@.len(),
        n.edges@[j].node.prefix@[0] == k[0],
    ensures
        n.lookup(k) == edge_get(n.edges@[j], k),
{
    reveal_with_fuel(Node::lookup, 2);
    if exists|i: int| 0 <= i < n.edges@.len() && #[trigger] leads(n.edges@[i], k) {
        let i = choose|i: int| 0 <= i < n.edges@.len() && #[trigger] leads(n.edges@[i], k);
        assert(n.edges@[i].node.prefix@[0] == k.subrange(0, n.edges@[i].node.prefix@.len() as int)[0]);
        assert(i == j) by {
            if i != j {
                let ei = n.edges@[i];
                let ej = n.edges@[j];
                assert(ei.node.prefix@[0] != ej.node.prefix@[0]);
            }
        }
    } else {
        assert(!leads(n.edges@[j], k));
    }
}

/// A key whose first byte starts no child is not stored below the node.
proof fn lemma_lookup_no_first<'a, T>(n: Node<'a, T>, k: Seq<u8>)
    requires
        shallow_ok(n),
        k.len() > 0,
        forall|i: int| 0 <= i < n.edges@.len() ==> (#[trigger] n.edges@[i]).node.prefix@[0] != k[0],
    ensures
        n.lookup(k) is None,
{
    assert forall|i: int| 0 <= i < n.edges@.len() implies !#[trigger] leads(n.edges@[i], k) by {
        let e = n.edges@[i];
        if leads(e, k) {
            assert(e.node.prefix@[0] == k.subrange(0, e.node.prefix@.len() as int)[0]);
        }
    }
}

/// Below a node, a non-empty key is read through the children alone.
proof fn lemma_lookup_edges<'a, T>(n1: Node<'a, T>, n2: Node<'a, T>, k: Seq<u8>)
    requires
        n1.edges@ == n2.edges@,
        k.len() > 0,
    ensures
        n1.lookup(k) == n2.lookup(k),
{
}

/// A node without children holds only its own value, under the empty key.
proof fn lemma_lookup_leaf<'a, T>(n: Node<'a, T>, k: Seq<u8>)
    requires
        n.edges@.len() == 0,
    ensures
        n.lookup(k) == (if k.len() == 0 {
            match n.leaf_node {
                Some(l) => Some(l.value),
                None => None,
            }
        } else {
            None
        }),
{
}


/// `a` comes before `b` in byte-wise lexicographic order, comparing from index `i` on.
pub open spec fn less_from(a: Seq<u8>, b: Seq<u8>, i: int) -> bool
    decreases a.len() - i,
{
    if i >= a.len() {
        i < b.len()
    } else if i >= b.len() {
        false
    } else if a[i] < b[i] {
        true
    } else if a[i] > b[i] {
        false
    } else {
        less_from(a, b, i + 1)
    }
}

/// `a` comes before `b` in byte-wise lexicographic order (the order of `<` on byte slices).
pub open spec fn bytes_less(a: Seq<u8>, b: Seq<u8>) -> bool {
    less_from(a, b, 0)
}

/// Whether `a` comes before `b` in byte-wise lexicographic order.
fn label_less(a: &[u8], b: &[u8]) -> (r: bool)
    ensures
        r == bytes_less(a@, b@),
{
    let mut i: usize = 0;
    while i < a.len() && i < b.len() && a[i] == b[i]
        invariant
            i <= a.len(),
            i <= b.len(),
            bytes_less(a@, b@) == less_from(a@, b@, i as int),
        decreases a.len() - i,
    {
        i += 1;
    }
    if i >= a.len() {
        i < b.len()
    } else if i >= b.len() {
        false
    } else {
        a[i] < b[i]
    }
}

/// The order of keys is transitive.
proof fn lemma_less_transitive(a: Seq<u8>, b: Seq<u8>, c: Seq<u8>, i: int)
    requires
        0 <= i,
        less_from(a, b, i),
        less_from(b, c, i),
    ensures
        less_from(a, c, i),
    decreases a.len() - i,
{
    if i < a.len() && i < b.len() && i < c.len() && a[i] == b[i] && b[i] == c[i] {
        lemma_less_transitive(a, b, c, i + 1);
    }
}

/// Two different keys are ordered one way or the other.
proof fn lemma_less_total(a: Seq<u8>, b: Seq<u8>, i: int)
    requires
        0 <= i <= a.len(),
        i <= b.len(),
        forall|k: int| 0 <= k < i ==> a[k] == b[k],
        a != b,
    ensures
        less_from(a, b, i) || less_from(b, a, i),
    decreases a.len() - i,
{
    if i == a.len() && i == b.len() {
        assert(a =~= b);
    } else if i < a.len() && i < b.len() && a[i] == b[i] {
        lemma_less_total(a, b, i + 1);
    }
}

/// Two keys with different first bytes are different.
proof fn lemma_first_differs(a: Seq<u8>, b: Seq<u8>)
    requires
        a.len() > 0,
        b.len() > 0,
        a[0] != b[0],
    ensures
        a != b,
{
}

/// Inserting an edge where its label belongs, among edges whose labels all differ from it,
/// keeps the edges ordered.
proof fn lemma_sorted_insert<'a, T>(edges: Seq<Edge<'a, T>>, idx: int, e: Edge<'a, T>)
    requires
        sorted_labels(edges),
        0 <= idx <= edges.len(),
        forall|j: int| 0 <= j < idx ==> bytes_less((#[trigger] edges[j]).label@, e.label@),
        idx < edges.len() ==> !bytes_less(edges[idx].label@, e.label@),
        forall|j: int| 0 <= j < edges.len() ==> (#[trigger] edges[j]).label@ != e.label@,
    ensures
        sorted_labels(edges.insert(idx, e)),
{
    let s = edges.insert(idx, e);
    if idx < edges.len() {
        lemma_less_total(edges[idx].label@, e.label@, 0);
    }
    assert forall|i: int, j: int| 0 <= i < j < s.len() implies bytes_less(
        (#[trigger] s[i]).label@,
        (#[trigger] s[j]).label@,
    ) by {
        if j < idx {
            assert(s[i] == edges[i] && s[j] == edges[j]);
        } else if j == idx {
            assert(s[i] == edges[i]);
        } else if i > idx {
            assert(s[i] == edges[i - 1] && s[j] == edges[j - 1]);
        } else if i == idx {
            assert(s[j] == edges[j - 1]);
            if j - 1 > idx {
                assert(bytes_less(edges[idx].label@, edges[j - 1].label@));
                lemma_less_transitive(e.label@, edges[idx].label@, edges[j - 1].label@, 0);
            }
        } else {
            assert(s[i] == edges[i] && s[j] == edges[j - 1]);
        }
    }
}

/// The first child, from index `i` on, at which the scan for first byte `b` stops.
pub(crate) open spec fn first_stop_from<'a, T>(edges: Seq<Edge<'a, T>>, b: u8, i: int) -> int
    decreases edges.len() - i,
{
    if i >= edges.len() {
        edges.len() as int
    } else if stops_at(edges[i], b) {
        i
    } else {
        first_stop_from(edges, b, i + 1)
    }
}

/// The scan for first byte `b` reads no empty label before it finds a match.
pub(crate) open spec fn scan_ok<'a, T>(edges: Seq<Edge<'a, T>>, b: u8) -> bool {
    let j = first_stop_from(edges, b, 0);
    j < edges.len() ==> edges[j].label@.len() > 0
}

/// The scan for first byte `b` stops within the children, at a child it stops at, after
/// passing only children it does not stop at.
proof fn lemma_first_stop_bounds<'a, T>(edges: Seq<Edge<'a, T>>, b: u8, i: int)
    requires
        0 <= i <= edges.len(),
    ensures
        i <= first_stop_from(edges, b, i) <= edges.len(),
        first_stop_from(edges, b, i) < edges.len() ==> stops_at(
            edges[first_stop_from(edges, b, i)],
            b,
        ),
        forall|k: int| i <= k < first_stop_from(edges, b, i) ==> !stops_at(#[trigger] edges[k], b),
    decreases edges.len() - i,
{
    if i < edges.len() && !stops_at(edges[i], b) {
        lemma_first_stop_bounds(edges, b, i + 1);
    }
}

/// Under `shallow_ok`, the scan for `b` stops exactly at the child whose prefix starts with `b`.
proof fn lemma_first_stop_wf<'a, T>(n: Node<'a, T>, b: u8)
    requires
        shallow_ok(n),
    ensures
        ({
            let j = first_stop_from(n.edges@, b, 0);
            &&& 0 <= j <= n.edges@.len()
            &&& j < n.edges@.len() ==> n.edges@[j].node.prefix@[0] == b
            &&& j == n.edges@.len() ==> forall|i: int|
                0 <= i < n.edges@.len() ==> (#[trigger] n.edges@[i]).node.prefix@[0] != b
        }),
{
    lemma_first_stop_bounds(n.edges@, b, 0);
    let j = first_stop_from(n.edges@, b, 0);
    assert forall|i: int| 0 <= i < j implies (#[trigger] n.edges@[i]).node.prefix@[0] != b by {
        assert(!stops_at(n.edges@[i], b));
        assert(edge_ok(n.edges@[i]));
    }
    if j < n.edges@.len() {
        assert(edge_ok(n.edges@[j]));
    }
}

impl<'a, T> Default for Node<'a, T> {
    /// A node with no prefix, no value and no children.
    fn default() -> (r: Self)
        ensures
            r.wf(),
            r.entries() == Map::<Seq<u8>, T>::empty(),
            r.prefix_bytes() == Seq::<u8>::empty(),
    {
        let r = Node { leaf_node: None, edges: Vec::new(), prefix: &[] };
        proof {
            assert forall|k: Seq<u8>| r.lookup(k) is None by {
                lemma_lookup_leaf(r, k);
            }
            assert(r.entries() =~= Map::<Seq<u8>, T>::empty());
        }
        r
    }
}

impl<'a, T> Node<'a, T> {
    /// The value stored at this node, if any.
    pub closed spec fn leaf_value(self) -> Option<T> {
        match self.leaf_node {
            Some(l) => Some(l.value),
            None => None,
        }
    }

    /// The children of this node, in the order of their labels.
    pub closed spec fn children(self) -> Seq<Node<'a, T>> {
        self.edges@.map_values(|e: Edge<'a, T>| e.node)
    }

    /// The bytes that lead to this node from its parent.
    pub fn prefix(&self) -> (r: &'a [u8])
        ensures
            r@ == self.prefix_bytes(),
    {
        self.prefix
    }

    /// The value stored at this node, if any.
    pub fn value(&self) -> (r: Option<&T>)
        ensures
            r is Some <==> self.leaf_value() is Some,
            r matches Some(v) ==> self.leaf_value() == Some(*v),
    {
        match &self.leaf_node {
            Some(l) => Some(&l.value),
            None => None,
        }
    }

    /// The number of children of this node.
    pub fn child_count(&self) -> (r: usize)
        ensures
            r == self.children().len(),
    {
        self.edges.len()
    }

    /// Child `i` of this node, in the order of labels.
    pub fn child(&self, i: usize) -> (r: &Node<'a, T>)
        requires
            i < self.children().len(),
        ensures
            *r == self.children()[i as int],
    {
        &self.edges[i].node
    }

    /// A node with the given value and prefix, and no children.
    pub(crate) fn new(leaf_node: Option<LeafNode<'a, T>>, prefix: &'a [u8]) -> (r: Self)
        ensures
            r.leaf_node == leaf_node,
            r.edges@.len() == 0,
            r.prefix == prefix,
            r.wf(),
    {
        Node { leaf_node, edges: Vec::new(), prefix }
    }

    /// The number of children whose labels come before `label`: the index at which a child with
    /// that label belongs, found by halving the range of candidates (the children are ordered).
    fn partition_index(&self, label: &[u8]) -> (idx: usize)
        requires
            sorted_labels(self.edges@),
        ensures
            idx <= self.edges@.len(),
            forall|j: int| 0 <= j < idx ==> bytes_less((#[trigger] self.edges@[j]).label@, label@),
            idx < self.edges@.len() ==> !bytes_less(self.edges@[idx as int].label@, label@),
    {
        let mut lo: usize = 0;
        let mut hi: usize = self.edges.len();
        while lo < hi
            invariant
                lo <= hi <= self.edges@.len(),
                sorted_labels(self.edges@),
                forall|j: int|
                    0 <= j < lo ==> bytes_less((#[trigger] self.edges@[j]).label@, label@),
                forall|j: int|
                    hi <= j < self.edges@.len() ==> !bytes_less(
                        (#[trigger] self.edges@[j]).label@,
                        label@,
                    ),
            decreases hi - lo,
        {
            let mid = lo + (hi - lo) / 2;
            if label_less(self.edges[mid].label, label) {
                proof {
                    assert forall|j: int| 0 <= j < mid + 1 implies bytes_less(
                        (#[trigger] self.edges@[j]).label@,
                        label@,
                    ) by {
                        if j < mid {
                            assert(bytes_less(self.edges@[j].label@, self.edges@[mid as int].label@));
                            lemma_less_transitive(
                                self.edges@[j].label@,
                                self.edges@[mid as int].label@,
                                label@,
                                0,
                            );
                        }
                    }
                }
                lo = mid + 1;
            } else {
                proof {
                    assert forall|j: int| mid <= j < self.edges@.len() implies !bytes_less(
                        (#[trigger] self.edges@[j]).label@,
                        label@,
                    ) by {
                        if j > mid && bytes_less(self.edges@[j].label@, label@) {
                            assert(bytes_less(self.edges@[mid as int].label@, self.edges@[j].label@));
                            lemma_less_transitive(
                                self.edges@[mid as int].label@,
                                self.edges@[j].label@,
                                label@,
                                0,
                            );
                        }
                    }
                }
                hi = mid;
            }
        }
        lo
    }

    /// Adds a child, keeping the children ordered by label.
    pub(crate) fn add_edge(&mut self, edge: Edge<'a, T>)
        requires
            sorted_labels(old(self).edges@),
        ensures
            final(self).leaf_node == old(self).leaf_node,
            final(self).prefix == old(self).prefix,
            exists|idx: int|
                {
                    &&& 0 <= idx <= old(self).edges@.len()
                    &&& final(self).edges@ == old(self).edges@.insert(idx, edge)
                    &&& forall|j: int|
                        0 <= j < idx ==> bytes_less(
                            (#[trigger] old(self).edges@[j]).label@,
                            edge.label@,
                        )
                    &&& idx < old(self).edges@.len() ==> !bytes_less(
                        old(self).edges@[idx].label@,
                        edge.label@,
                    )
                },
    {
        let idx = self.partition_index(edge.label);
        self.edges.insert(idx, edge);
        assert(final(self).edges@ == old(self).edges@.insert(idx as int, edge));
    }

    /// The child reached by an edge whose label is exactly `label`, found where a child with
    /// that label belongs in the order of labels.
    pub(crate) fn get_edge(&self, label: &[u8]) -> (r: Option<&Node<'a, T>>)
        requires
            sorted_labels(self.edges@),
        ensures
            exists|idx: int|
                {
                    &&& 0 <= idx <= self.edges@.len()
                    &&& forall|j: int|
                        0 <= j < idx ==> bytes_less((#[trigger] self.edges@[j]).label@, label@)
                    &&& idx < self.edges@.len() ==> !bytes_less(
                        self.edges@[idx].label@,
                        label@,
                    )
                    &&& r == (if idx < self.edges@.len() && self.edges@[idx].label@ == label@ {
                        Some(&self.edges@[idx].node)
                    } else {
                        None
                    })
                },
    {
        let idx = self.partition_index(label);
        if idx < self.edges.len() && bytes_eq(self.edges[idx].label, label) {
            Some(&self.edges[idx].node)
        } else {
            None
        }
    }

    /// The index of the first child whose label starts with `first_label`, or the number of
    /// children when there is none.
    fn find_edge(&self, first_label: u8) -> (j: usize)
        requires
            scan_ok(self.edges@, first_label),
        ensures
            j == first_stop_from(self.edges@, first_label, 0),
    {
        proof {
            lemma_first_stop_bounds(self.edges@, first_label, 0);
        }
        let mut j: usize = 0;
        while j < self.edges.len()
            invariant
                j <= self.edges@.len(),
                j <= first_stop_from(self.edges@, first_label, 0),
                scan_ok(self.edges@, first_label),
                0 <= first_stop_from(self.edges@, first_label, 0) <= self.edges@.len(),
                first_stop_from(self.edges@, first_label, 0) < self.edges@.len() ==> stops_at(
                    self.edges@[first_stop_from(self.edges@, first_label, 0)],
                    first_label,
                ),
                forall|k: int|
                    0 <= k < first_stop_from(self.edges@, first_label, 0) ==> !stops_at(
                        #[trigger] self.edges@[k],
                        first_label,
                    ),
            decreases self.edges@.len() - j,
        {
            if self.edges[j].label[0] == first_label {
                return j;
            }
            j += 1;
        }
        j
    }

    /// The child whose label starts with `first_label`, to be changed in place.
    pub(crate) fn get_edge_mut(&mut self, first_label: u8) -> (r: Option<&mut Node<'a, T>>)
        requires
            scan_ok(old(self).edges@, first_label),
        ensures
            ({
                let j = first_stop_from(old(self).edges@, first_label, 0);
                match r {
                    None => {
                        &&& j == old(self).edges@.len()
                        &&& *final(self) == *old(self)
                    },
                    Some(c) => {
                        &&& 0 <= j < old(self).edges@.len()
                        &&& *c == old(self).edges@[j].node
                        &&& final(self).edges@ == old(self).edges@.update(
                            j,
                            Edge { label: old(self).edges@[j].label, node: *final(c) },
                        )
                        &&& final(self).leaf_node == old(self).leaf_node
                        &&& final(self).prefix == old(self).prefix
                    },
                }
            }),
    {
        let j = self.find_edge(first_label);
        proof {
            lemma_first_stop_bounds(self.edges@, first_label, 0);
        }
        if j < self.edges.len() {
            Some(&mut self.edges[j].node)
        } else {
            None
        }
    }
}


/// Every key, relative to `n1`, gives what it gave relative to `n0`, except `key`, which gives `v`.
pub(crate) open spec fn stores_update<'a, T>(n0: Node<'a, T>, n1: Node<'a, T>, key: Seq<u8>, v: T) -> bool {
    forall|k: Seq<u8>|
        #[trigger] n1.lookup(k) == (if k == key {
            Some(v)
        } else {
            n0.lookup(k)
        })
}

/// Replacing the child that keys starting with `key[0]` go through changes what the node stores
/// exactly as it changes what that child's edge gives.
proof fn lemma_child_replaced<'a, T>(n0: Node<'a, T>, n1: Node<'a, T>, j: int, key: Seq<u8>, v: T)
    requires
        shallow_ok(n0),
        shallow_ok(n1),
        n1.leaf_node == n0.leaf_node,
        n1.edges@.len() == n0.edges@.len(),
        0 <= j < n0.edges@.len(),
        forall|i: int| 0 <= i < n0.edges@.len() && i != j ==> n1.edges@[i] == n0.edges@[i],
        n1.edges@[j].node.prefix@[0] == n0.edges@[j].node.prefix@[0],
        key.len() > 0,
        key[0] == n0.edges@[j].node.prefix@[0],
        forall|k: Seq<u8>|
            k.len() > 0 && k[0] == key[0] ==> #[trigger] edge_get(n1.edges@[j], k) == (if k
                == key {
                Some(v)
            } else {
                edge_get(n0.edges@[j], k)
            }),
    ensures
        stores_update(n0, n1, key, v),
{
    assert forall|k: Seq<u8>|
        #[trigger] n1.lookup(k) == (if k == key {
            Some(v)
        } else {
            n0.lookup(k)
        }) by {
        if k.len() == 0 {
        } else if k[0] == key[0] {
            lemma_lookup_first(n0, k, j);
            lemma_lookup_first(n1, k, j);
            assert(edge_get(n1.edges@[j], k) == (if k == key {
                Some(v)
            } else {
                edge_get(n0.edges@[j], k)
            }));
        } else if exists|i: int|
            0 <= i < n0.edges@.len() && (#[trigger] n0.edges@[i]).node.prefix@[0] == k[0] {
            let i = choose|i: int|
                0 <= i < n0.edges@.len() && (#[trigger] n0.edges@[i]).node.prefix@[0] == k[0];
            assert(i != j);
            lemma_lookup_first(n0, k, i);
            lemma_lookup_first(n1, k, i);
        } else {
            lemma_lookup_no_first(n0, k);
            assert forall|i: int| 0 <= i < n1.edges@.len() implies (#[trigger] n1.edges@[i]).node.prefix@[0]
                != k[0] by {
                if i != j {
                    assert(n1.edges@[i] == n0.edges@[i]);
                }
            }
            lemma_lookup_no_first(n1, k);
        }
    }
}

/// Adding a child for keys starting with a byte no child started with changes what the node
/// stores exactly as the new edge gives.
proof fn lemma_child_added<'a, T>(
    n0: Node<'a, T>,
    n1: Node<'a, T>,
    idx: int,
    e: Edge<'a, T>,
    key: Seq<u8>,
    v: T,
)
    requires
        shallow_ok(n0),
        shallow_ok(n1),
        n1.leaf_node == n0.leaf_node,
        0 <= idx <= n0.edges@.len(),
        n1.edges@ == n0.edges@.insert(idx, e),
        key.len() > 0,
        e.node.prefix@[0] == key[0],
        forall|i: int| 0 <= i < n0.edges@.len() ==> (#[trigger] n0.edges@[i]).node.prefix@[0] != key[0],
        forall|k: Seq<u8>|
            k.len() > 0 && k[0] == key[0] ==> #[trigger] edge_get(e, k) == (if k == key {
                Some(v)
            } else {
                None::<T>
            }),
    ensures
        stores_update(n0, n1, key, v),
{
    assert forall|k: Seq<u8>|
        #[trigger] n1.lookup(k) == (if k == key {
            Some(v)
        } else {
            n0.lookup(k)
        }) by {
        if k.len() == 0 {
        } else if k[0] == key[0] {
            assert(n1.edges@[idx] == e);
            lemma_lookup_first(n1, k, idx);
            lemma_lookup_no_first(n0, k);
        } else if exists|i: int|
            0 <= i < n0.edges@.len() && (#[trigger] n0.edges@[i]).node.prefix@[0] == k[0] {
            let i = choose|i: int|
                0 <= i < n0.edges@.len() && (#[trigger] n0.edges@[i]).node.prefix@[0] == k[0];
            lemma_lookup_first(n0, k, i);
            if i < idx {
                assert(n1.edges@[i] == n0.edges@[i]);
                lemma_lookup_first(n1, k, i);
            } else {
                assert(n1.edges@[i + 1] == n0.edges@[i]);
                lemma_lookup_first(n1, k, i + 1);
            }
        } else {
            lemma_lookup_no_first(n0, k);
            assert forall|i: int| 0 <= i < n1.edges@.len() implies (#[trigger] n1.edges@[i]).node.prefix@[0]
                != k[0] by {
                if i < idx {
                    assert(n1.edges@[i] == n0.edges@[i]);
                } else if i > idx {
                    assert(n1.edges@[i] == n0.edges@[i - 1]);
                }
            }
            lemma_lookup_no_first(n1, k);
        }
    }
}

/// A fresh child that holds only `v`, under its whole prefix `key`, gives `v` for `key` alone.
proof fn lemma_fresh_edge<'a, T>(e: Edge<'a, T>, key: Seq<u8>, v: T)
    requires
        e.node.edges@.len() == 0,
        e.node.prefix@ == key,
        key.len() > 0,
        e.node.leaf_node matches Some(l) && l.value == v,
    ensures
        forall|k: Seq<u8>|
            k.len() > 0 && k[0] == key[0] ==> #[trigger] edge_get(e, k) == (if k == key {
                Some(v)
            } else {
                None::<T>
            }),
{
    assert forall|k: Seq<u8>| k.len() > 0 && k[0] == key[0] implies #[trigger] edge_get(e, k) == (
    if k == key {
        Some(v)
    } else {
        None::<T>
    }) by {
        if leads(e, k) {
            let r = k.subrange(key.len() as int, k.len() as int);
            lemma_lookup_leaf(e.node, r);
            if k != key {
                assert(k =~= k.subrange(0, key.len() as int) + r);
                assert(r.len() > 0);
            }
        } else {
            assert(k.subrange(0, k.len() as int) =~= k);
        }
    }
}

/// What a node stores does not depend on its own prefix.
proof fn lemma_lookup_same<'a, T>(n1: Node<'a, T>, n2: Node<'a, T>, k: Seq<u8>)
    requires
        n1.edges@ == n2.edges@,
        n1.leaf_node == n2.leaf_node,
    ensures
        n1.lookup(k) == n2.lookup(k),
{
}

/// Storing `v` at a child whose whole prefix is `key` changes what its edge gives at `key` alone.
proof fn lemma_edge_leaf_set<'a, T>(e0: Edge<'a, T>, e1: Edge<'a, T>, key: Seq<u8>, v: T)
    requires
        e1.node.prefix@ == e0.node.prefix@,
        e1.node.edges@ == e0.node.edges@,
        e1.node.leaf_node matches Some(l) && l.value == v,
        key == e0.node.prefix@,
        key.len() > 0,
    ensures
        forall|k: Seq<u8>|
            k.len() > 0 ==> #[trigger] edge_get(e1, k) == (if k == key {
                Some(v)
            } else {
                edge_get(e0, k)
            }),
{
    assert forall|k: Seq<u8>| k.len() > 0 implies #[trigger] edge_get(e1, k) == (if k == key {
        Some(v)
    } else {
        edge_get(e0, k)
    }) by {
        if leads(e0, k) {
            let r = k.subrange(key.len() as int, k.len() as int);
            if r.len() == 0 {
                assert(k =~= key);
            } else {
                lemma_lookup_edges(e0.node, e1.node, r);
                assert(k != key);
            }
        } else {
            assert(k.subrange(0, k.len() as int) =~= k);
        }
    }
}

/// Storing `v` below a child, under the rest of `key` past the child's prefix, changes what its
/// edge gives at `key` alone.
proof fn lemma_edge_descend<'a, T>(e0: Edge<'a, T>, e1: Edge<'a, T>, key: Seq<u8>, v: T)
    requires
        e1.node.prefix@ == e0.node.prefix@,
        e0.node.prefix@.len() > 0,
        starts_with(key, e0.node.prefix@),
        stores_update(
            e0.node,
            e1.node,
            key.subrange(e0.node.prefix@.len() as int, key.len() as int),
            v,
        ),
    ensures
        forall|k: Seq<u8>|
            #[trigger] edge_get(e1, k) == (if k == key {
                Some(v)
            } else {
                edge_get(e0, k)
            }),
{
    let p = e0.node.prefix@;
    assert forall|k: Seq<u8>| #[trigger] edge_get(e1, k) == (if k == key {
        Some(v)
    } else {
        edge_get(e0, k)
    }) by {
        if leads(e0, k) {
            let r = k.subrange(p.len() as int, k.len() as int);
            let next = key.subrange(p.len() as int, key.len() as int);
            assert(e1.node.lookup(r) == (if r == next {
                Some(v)
            } else {
                e0.node.lookup(r)
            }));
            assert(k =~= k.subrange(0, p.len() as int) + r);
            assert(key =~= key.subrange(0, p.len() as int) + next);
            if r == next {
                assert(k =~= key);
            }
        }
    }
}

/// Splitting a child at the end of the bytes its prefix shares with `key`, and storing `v` under
/// `key`, changes what its edge gives at `key` alone.
proof fn lemma_edge_split<'a, T>(
    e0: Edge<'a, T>,
    e1: Edge<'a, T>,
    key: Seq<u8>,
    v: T,
    lcp: int,
    ic: int,
    it: int,
)
    requires
        is_lcp(e0.node.prefix@, key, lcp),
        0 < lcp < e0.node.prefix@.len(),
        shallow_ok(e1.node),
        e1.node.prefix@ == e0.node.prefix@.subrange(0, lcp),
        lcp == key.len() ==> (e1.node.leaf_node matches Some(l) && l.value == v),
        lcp < key.len() ==> e1.node.leaf_node is None,
        0 <= ic < e1.node.edges@.len(),
        e1.node.edges@[ic].node.edges@ == e0.node.edges@,
        e1.node.edges@[ic].node.leaf_node == e0.node.leaf_node,
        e1.node.edges@[ic].node.prefix@ == e0.node.prefix@.subrange(
            lcp,
            e0.node.prefix@.len() as int,
        ),
        lcp < key.len() ==> {
            &&& 0 <= it < e1.node.edges@.len()
            &&& e1.node.edges@[it].node.edges@.len() == 0
            &&& e1.node.edges@[it].node.prefix@ == key.subrange(lcp, key.len() as int)
            &&& (e1.node.edges@[it].node.leaf_node matches Some(l) && l.value == v)
        },
        lcp == key.len() ==> e1.node.edges@.len() == 1,
        lcp < key.len() ==> e1.node.edges@.len() == 2,
    ensures
        forall|k: Seq<u8>|
            k.len() > 0 ==> #[trigger] edge_get(e1, k) == (if k == key {
                Some(v)
            } else {
                edge_get(e0, k)
            }),
{
    let p = e0.node.prefix@;
    let sp = p.subrange(0, lcp);
    assert(key.subrange(0, lcp) =~= sp);
    assert forall|k: Seq<u8>| k.len() > 0 implies #[trigger] edge_get(e1, k) == (if k == key {
        Some(v)
    } else {
        edge_get(e0, k)
    }) by {
        if !starts_with(k, sp) {
            if starts_with(k, p) {
                assert(k.subrange(0, lcp) =~= k.subrange(0, p.len() as int).subrange(0, lcp));
            }
            assert(k != key);
        } else {
            let r = k.subrange(lcp, k.len() as int);
            assert(k =~= sp + r);
            if r.len() == 0 {
                if lcp == key.len() {
                    assert(key =~= sp);
                }
                assert(!starts_with(k, p));
            } else {
                let ec = e1.node.edges@[ic];
                let pc = ec.node.prefix@;
                if r[0] == p[lcp] {
                    lemma_lookup_first(e1.node, r, ic);
                    if k == key {
                        assert(key[lcp] == r[0]);
                    }
                    if starts_with(r, pc) {
                        assert(k.subrange(0, p.len() as int) =~= sp + r.subrange(0, pc.len() as int));
                        assert(p =~= sp + pc);
                        let kr = k.subrange(p.len() as int, k.len() as int);
                        assert(kr =~= r.subrange(pc.len() as int, r.len() as int));
                        lemma_lookup_same(ec.node, e0.node, kr);
                    } else {
                        if starts_with(k, p) {
                            assert(r.subrange(0, pc.len() as int) =~= k.subrange(0, p.len() as int).subrange(lcp, p.len() as int));
                            assert(p.subrange(lcp, p.len() as int) =~= pc);
                        }
                    }
                } else if lcp < key.len() && r[0] == key[lcp] {
                    let et = e1.node.edges@[it];
                    lemma_lookup_first(e1.node, r, it);
                    lemma_fresh_edge(et, key.subrange(lcp, key.len() as int), v);
                    assert(k[lcp] == r[0]);
                    if starts_with(k, p) {
                        assert(k[lcp] == k.subrange(0, p.len() as int)[lcp]);
                    }
                    let ks = key.subrange(lcp, key.len() as int);
                    assert(key =~= sp + ks);
                    if r == ks {
                        assert(k =~= key);
                    }
                } else {
                    assert forall|i: int| 0 <= i < e1.node.edges@.len() implies (#[trigger] e1.node.edges@[i]).node.prefix@[0] != r[0] by {
                        if lcp < key.len() {
                            assert(i == ic || i == it);
                        } else {
                            assert(i == ic);
                        }
                    }
                    lemma_lookup_no_first(e1.node, r);
                    assert(k[lcp] == r[0]);
                    if starts_with(k, p) {
                        assert(k[lcp] == k.subrange(0, p.len() as int)[lcp]);
                    }
                    if k == key {
                        assert(key[lcp] == r[0]);
                    }
                }
            }
        }
    }
}

/// Below `n1` every key gives what it gave below `n0`.
pub(crate) open spec fn stores_same<'a, T>(n0: Node<'a, T>, n1: Node<'a, T>) -> bool {
    forall|k: Seq<u8>| #[trigger] n1.lookup(k) == n0.lookup(k)
}

/// The children of a well-formed node are well-formed.
proof fn lemma_wf_child<'a, T>(n: Node<'a, T>, i: int)
    requires
        n.wf(),
        0 <= i < n.edges@.len(),
    ensures
        n.edges@[i].node.wf(),
        edge_ok(n.edges@[i]),
        compressed(n.edges@[i].node),
        shallow_ok(n),
{
    assert(n.edges@[i].node.wf());
}

/// Well-formedness does not depend on a node's own prefix or value.
proof fn lemma_wf_edges<'a, T>(n1: Node<'a, T>, n2: Node<'a, T>)
    requires
        n1.edges@ == n2.edges@,
    ensures
        n1.wf() == n2.wf(),
{
}

/// Replacing a child by a well-formed node whose prefix starts with the same byte keeps a node
/// well-formed.
proof fn lemma_wf_replace<'a, T>(n0: Node<'a, T>, n1: Node<'a, T>, j: int)
    requires
        n0.wf(),
        0 <= j < n0.edges@.len(),
        n1.edges@.len() == n0.edges@.len(),
        forall|i: int| 0 <= i < n0.edges@.len() && i != j ==> n1.edges@[i] == n0.edges@[i],
        n1.edges@[j].label == n0.edges@[j].label,
        n1.edges@[j].node.prefix@.len() > 0,
        n1.edges@[j].node.prefix@[0] == n0.edges@[j].node.prefix@[0],
        n1.edges@[j].node.wf(),
        compressed(n1.edges@[j].node),
    ensures
        n1.wf(),
        shallow_ok(n1),
{
    assert forall|i: int| 0 <= i < n1.edges@.len() implies edge_ok(#[trigger] n1.edges@[i])
        && n1.edges@[i].node.wf() by {
        if i != j {
            assert(n1.edges@[i] == n0.edges@[i]);
            lemma_wf_child(n0, i);
        } else {
            assert(edge_ok(n0.edges@[j]));
        }
    }
    assert forall|a: int, b: int|
        0 <= a < n1.edges@.len() && 0 <= b < n1.edges@.len() && a != b implies #[trigger] n1.edges@[a].node.prefix@[0]
        != #[trigger] n1.edges@[b].node.prefix@[0] by {
        let ea = n0.edges@[a];
        let eb = n0.edges@[b];
        assert(ea.node.prefix@[0] != eb.node.prefix@[0]);
    }
}

/// Adding a well-formed child whose prefix starts with a byte no child started with keeps a node
/// well-formed.
proof fn lemma_wf_insert<'a, T>(n0: Node<'a, T>, n1: Node<'a, T>, idx: int, e: Edge<'a, T>)
    requires
        n0.wf(),
        0 <= idx <= n0.edges@.len(),
        n1.edges@ == n0.edges@.insert(idx, e),
        edge_ok(e),
        e.node.wf(),
        compressed(e.node),
        forall|i: int|
            0 <= i < n0.edges@.len() ==> (#[trigger] n0.edges@[i]).node.prefix@[0]
                != e.node.prefix@[0],
        forall|j: int| 0 <= j < idx ==> bytes_less((#[trigger] n0.edges@[j]).label@, e.label@),
        idx < n0.edges@.len() ==> !bytes_less(n0.edges@[idx].label@, e.label@),
    ensures
        n1.wf(),
        shallow_ok(n1),
{
    assert forall|j: int| 0 <= j < n0.edges@.len() implies (#[trigger] n0.edges@[j]).label@ != e.label@ by {
        lemma_wf_child(n0, j);
        lemma_first_differs(n0.edges@[j].label@, e.label@);
    }
    lemma_sorted_insert(n0.edges@, idx, e);
    assert forall|i: int| 0 <= i < n1.edges@.len() implies edge_ok(#[trigger] n1.edges@[i])
        && n1.edges@[i].node.wf() by {
        if i < idx {
            assert(n1.edges@[i] == n0.edges@[i]);
            lemma_wf_child(n0, i);
        } else if i > idx {
            assert(n1.edges@[i] == n0.edges@[i - 1]);
            lemma_wf_child(n0, i - 1);
        }
    }
    assert forall|a: int, b: int|
        0 <= a < n1.edges@.len() && 0 <= b < n1.edges@.len() && a != b implies #[trigger] n1.edges@[a].node.prefix@[0]
        != #[trigger] n1.edges@[b].node.prefix@[0] by {
        let oa = if a < idx { a } else { a - 1 };
        let ob = if b < idx { b } else { b - 1 };
        if a != idx && b != idx {
            let ea = n0.edges@[oa];
            let eb = n0.edges@[ob];
            assert(n1.edges@[a] == ea);
            assert(n1.edges@[b] == eb);
            assert(ea.node.prefix@[0] != eb.node.prefix@[0]);
        } else if a == idx {
            assert(n1.edges@[b] == n0.edges@[ob]);
        } else {
            assert(n1.edges@[a] == n0.edges@[oa]);
        }
    }
}

/// Every tree is the same as itself.
proof fn lemma_same_node_refl<'a, T>(a: Node<'a, T>)
    ensures
        same_node(a, a),
    decreases a,
{
    assert forall|i: int| 0 <= i < a.edges@.len() implies (#[trigger] a.edges@[i]).label
        == a.edges@[i].label && same_node(a.edges@[i].node, a.edges@[i].node) by {
        lemma_same_node_refl(a.edges@[i].node);
    }
}

/// Two nodes with the same prefix, value and children, but for one child that is the same tree
/// under the same label, are the same tree.
proof fn lemma_same_node_replace<'a, T>(a: Node<'a, T>, b: Node<'a, T>, j: int)
    requires
        a.prefix == b.prefix,
        a.leaf_node == b.leaf_node,
        a.edges@.len() == b.edges@.len(),
        0 <= j < a.edges@.len(),
        forall|i: int| 0 <= i < a.edges@.len() && i != j ==> a.edges@[i] == b.edges@[i],
        a.edges@[j].label == b.edges@[j].label,
        same_node(a.edges@[j].node, b.edges@[j].node),
    ensures
        same_node(a, b),
{
    assert forall|i: int| 0 <= i < a.edges@.len() implies (#[trigger] a.edges@[i]).label
        == b.edges@[i].label && same_node(a.edges@[i].node, b.edges@[i].node) by {
        if i != j {
            assert(a.edges@[i] == b.edges@[i]);
            lemma_same_node_refl(a.edges@[i].node);
        }
    }
}

/// `lcp` is the length of the longest common prefix of `a` and `b`.
pub open spec fn is_lcp(a: Seq<u8>, b: Seq<u8>, lcp: int) -> bool {
    &&& 0 <= lcp <= a.len()
    &&& lcp <= b.len()
    &&& forall|i: int| 0 <= i < lcp ==> a[i] == b[i]
    &&& lcp < a.len() && lcp < b.len() ==> a[lcp] != b[lcp]
}

/// The number of leading bytes two keys share.
pub fn longest_common_prefix(k1: &[u8], k2: &[u8]) -> (r: usize)
    ensures
        is_lcp(k1@, k2@, r as int),
{
    let mut i: usize = 0;
    while i < k1.len() && i < k2.len() && k1[i] == k2[i]
        invariant
            i <= k1@.len(),
            i <= k2@.len(),
            forall|j: int| 0 <= j < i ==> k1@[j] == k2@[j],
        decreases k1@.len() - i,
    {
        i += 1;
    }
    i
}

/// Refuses the empty key.
pub fn check_not_null(key: &[u8]) -> (r: Result<(), RouterError>)
    ensures
        r == (if key@.len() == 0 {
            Err(RouterError::NullKey)
        } else {
            Ok(())
        }),
{
    if key.len() == 0 {
        Err(RouterError::NullKey)
    } else {
        Ok(())
    }
}


/// Stores `value` under `label` below `n`, splitting a child when `label` leaves it part way
/// through its prefix; refuses a key that is already stored.
pub(crate) fn insert_recursive<'a, T>(n: &mut Node<'a, T>, label: &'a [u8], value: T) -> (r: Result<
    (),
    RouterError,
>)
    requires
        old(n).wf(),
        label@.len() > 0,
    ensures
        final(n).wf(),
        final(n).prefix == old(n).prefix,
        final(n).leaf_node == old(n).leaf_node,
        final(n).edges@.len() >= old(n).edges@.len(),
        r is Ok <==> old(n).lookup(label@) is None,
        r is Ok ==> stores_update(*old(n), *final(n), label@, value),
        r is Err ==> same_node(*old(n), *final(n)),
        r is Err ==> r == Err::<(), RouterError>(RouterError::DuplicateKey) && stores_same(
            *old(n),
            *final(n),
        ),
    decreases label@.len(),
{
    let first = label[0];
    let ghost n0 = *n;
    let ghost j = first_stop_from(n0.edges@, first, 0);
    proof {
        lemma_first_stop_wf(n0, first);
        if j < n0.edges@.len() {
            lemma_wf_child(n0, j);
        }
    }
    match n.get_edge_mut(first) {
        Some(child) => {
            let ghost e0 = n0.edges@[j];
            let ghost c0 = *child;
            proof {
                lemma_wf_child(n0, j);
                assert(c0.prefix@[0] == label@[0]);
            }
            let lcp = longest_common_prefix(child.prefix, label);
            proof {
                if lcp == 0 {
                    assert(c0.prefix@[0] != label@[0]);
                }
            }
            if lcp == child.prefix.len() {
                let next_label = &label[lcp..label.len()];
                proof {
                    assert(label@.subrange(0, lcp as int) =~= c0.prefix@);
                    assert(leads(e0, label@));
                    lemma_lookup_first(n0, label@, j);
                }
                if next_label.len() == 0 {
                    assert(label@.subrange(lcp as int, label@.len() as int) =~= Seq::<u8>::empty());
                    if child.leaf_node.is_some() {
                        proof {
                            assert(n.edges@ =~= n0.edges@);
                            lemma_wf_edges(*n, n0);
                            lemma_same_node_refl(c0);
                            lemma_same_node_replace(n0, *n, j);
                        }
                        return Err(RouterError::DuplicateKey);
                    }
                    child.leaf_node = Some(LeafNode { key: label, value });
                    proof {
                        let e1 = n.edges@[j];
                        lemma_wf_edges(e1.node, c0);
                        lemma_wf_replace(n0, *n, j);
                        assert(label@ =~= c0.prefix@);
                        lemma_edge_leaf_set(e0, e1, label@, value);
                        lemma_child_replaced(n0, *n, j, label@, value);
                    }
                    return Ok(());
                }
                let res = insert_recursive(child, next_label, value);
                proof {
                    let e1 = n.edges@[j];
                    lemma_wf_replace(n0, *n, j);
                    if res is Ok {
                        lemma_edge_descend(e0, e1, label@, value);
                        lemma_child_replaced(n0, *n, j, label@, value);
                    } else {
                        let w = n0.lookup(label@)->0;
                        assert forall|k: Seq<u8>| k.len() > 0 && k[0] == label@[0] implies #[trigger] edge_get(e1, k) == (if k == label@ {
                            Some(w)
                        } else {
                            edge_get(e0, k)
                        }) by {
                            if leads(e0, k) {
                                let r = k.subrange(c0.prefix@.len() as int, k.len() as int);
                                assert(e1.node.lookup(r) == e0.node.lookup(r));
                            }
                        }
                        lemma_child_replaced(n0, *n, j, label@, w);
                        lemma_same_node_replace(n0, *n, j);
                    }
                }
                res
            } else {
                let split_prefix = &child.prefix[0..lcp];
                let suffix = &label[lcp..label.len()];
                child.prefix = &child.prefix[lcp..child.prefix.len()];
                let (split_node_leaf, tail_node_leaf) = if suffix.len() == 0 {
                    (Some(LeafNode { key: label, value }), None)
                } else {
                    (None, Some(LeafNode { key: label, value }))
                };
                let mut split_node = Node::new(split_node_leaf, split_prefix);
                let mut old_node_after_split = Node::default();
                std::mem::swap(&mut old_node_after_split, child);
                let ghost cc = old_node_after_split;
                proof {
                    lemma_wf_edges(cc, c0);
                }
                let old_edge = Edge { label: old_node_after_split.prefix, node: old_node_after_split };
                let ghost ec = old_edge;
                split_node.add_edge(old_edge);
                proof {
                    assert(split_node.edges@ =~= seq![ec]);
                }
                let ghost s1 = split_node;
                let ghost mut ic: int = 0;
                let ghost mut it: int = 0;
                if let Some(tail_node_leaf) = tail_node_leaf {
                    let tail = Edge { label: suffix, node: Node::new(Some(tail_node_leaf), suffix) };
                    let ghost et = tail;
                    split_node.add_edge(tail);
                    proof {
                        let idx = choose|idx: int|
                            {
                                &&& 0 <= idx <= s1.edges@.len()
                                &&& split_node.edges@ == s1.edges@.insert(idx, et)
                                &&& forall|j: int|
                                    0 <= j < idx ==> bytes_less(
                                        (#[trigger] s1.edges@[j]).label@,
                                        et.label@,
                                    )
                                &&& idx < s1.edges@.len() ==> !bytes_less(
                                    s1.edges@[idx].label@,
                                    et.label@,
                                )
                            };
                        if idx == 0 {
                            ic = 1;
                            it = 0;
                        } else {
                            ic = 0;
                            it = 1;
                        }
                        assert(split_node.edges@[ic] == ec);
                        assert(split_node.edges@[it] == et);
                        assert(c0.prefix@[lcp as int] != label@[lcp as int]);
                        assert(shallow_ok(split_node));
                        lemma_wf_child(s1, 0);
                        assert(split_node.wf());
                    }
                } else {
                    proof {
                        assert(shallow_ok(split_node));
                        assert(split_node.wf());
                    }
                }
                *child = split_node;
                proof {
                    let e1 = n.edges@[j];
                    lemma_wf_replace(n0, *n, j);
                    lemma_edge_split(e0, e1, label@, value, lcp as int, ic, it);
                    lemma_child_replaced(n0, *n, j, label@, value);
                    assert(!leads(e0, label@));
                    lemma_lookup_first(n0, label@, j);
                }
                Ok(())
            }
        },
        None => {
            let leaf_node = LeafNode { key: label, value };
            let edge = Edge { label, node: Node::new(Some(leaf_node), label) };
            let ghost e = edge;
            n.add_edge(edge);
            proof {
                let idx = choose|idx: int|
                    {
                        &&& 0 <= idx <= n0.edges@.len()
                        &&& n.edges@ == n0.edges@.insert(idx, e)
                        &&& forall|j: int|
                            0 <= j < idx ==> bytes_less((#[trigger] n0.edges@[j]).label@, e.label@)
                        &&& idx < n0.edges@.len() ==> !bytes_less(n0.edges@[idx].label@, e.label@)
                    };
                lemma_wf_insert(n0, *n, idx, e);
                lemma_fresh_edge(e, label@, value);
                lemma_child_added(n0, *n, idx, e, label@, value);
                lemma_lookup_no_first(n0, label@);
            }
            Ok(())
        },
    }
}


impl<'a, T> Node<'a, T> {
    /// The value stored below this node under `key[pos..]`.
    fn find_from<'n>(&'n self, key: &[u8], pos: usize) -> (r: Option<&'n T>)
        requires
            self.wf(),
            pos <= key@.len(),
        ensures
            r is Some <==> self.lookup(key@.subrange(pos as int, key@.len() as int)) is Some,
            r matches Some(v) ==> self.lookup(key@.subrange(pos as int, key@.len() as int)) == Some(
                *v,
            ),
        decreases key@.len() - pos,
    {
        let ghost rest = key@.subrange(pos as int, key@.len() as int);
        if pos == key.len() {
            assert(rest.len() == 0);
            return match &self.leaf_node {
                Some(l) => Some(&l.value),
                None => None,
            };
        }
        let first = key[pos];
        proof {
            lemma_first_stop_wf(*self, first);
            let j = first_stop_from(self.edges@, first, 0);
            if j < self.edges@.len() {
                lemma_wf_child(*self, j);
            }
        }
        let j = self.find_edge(first);
        if j == self.edges.len() {
            proof {
                lemma_lookup_no_first(*self, rest);
            }
            return None;
        }
        let child = &self.edges[j].node;
        proof {
            lemma_wf_child(*self, j as int);
            lemma_lookup_first(*self, rest, j as int);
        }
        let plen = child.prefix.len();
        if plen > key.len() - pos {
            return None;
        }
        if !bytes_eq(&key[pos..pos + plen], child.prefix) {
            proof {
                assert(key@.subrange(pos as int, pos + plen) =~= rest.subrange(0, plen as int));
            }
            return None;
        }
        proof {
            assert(key@.subrange(pos as int, pos + plen) =~= rest.subrange(0, plen as int));
            assert(rest.subrange(plen as int, rest.len() as int) =~= key@.subrange(
                pos + plen,
                key@.len() as int,
            ));
        }
        child.find_from(key, pos + plen)
    }
}

/// A map from byte-string keys to values, stored as a radix tree.
pub struct RadixTree<'a, T> {
    root: Node<'a, T>,
    size: usize,
}

impl<'a, T> RadixTree<'a, T> {
    /// The keys stored in the tree, with their values (the empty key is never a key).
    pub closed spec fn view(&self) -> Map<Seq<u8>, T> {
        Map::new(
            |k: Seq<u8>| k.len() > 0 && self.root.lookup(k) is Some,
            |k: Seq<u8>| self.root.lookup(k)->0,
        )
    }

    /// The tree is well-formed.
    pub closed spec fn wf(&self) -> bool {
        self.root.wf()
    }

    /// The root of the tree.
    pub closed spec fn root_node(&self) -> Node<'a, T> {
        self.root
    }

    /// The root of the tree.
    pub fn root(&self) -> (r: &Node<'a, T>)
        ensures
            *r == self.root_node(),
    {
        &self.root
    }

    /// `self` is the same tree as `other`, node for node, with the same count of keys added.
    pub closed spec fn same_tree(&self, other: Self) -> bool {
        same_node(other.root, self.root) && self.size == other.size
    }

    /// The number of keys added to the tree since it was made.
    pub closed spec fn inserted(&self) -> nat {
        self.size as nat
    }

    /// A tree made of `root`.
    pub fn new(root: Node<'a, T>) -> (r: Self)
        requires
            root.wf(),
        ensures
            r.wf(),
            r.inserted() == 0,
            r@ == Map::new(
                |k: Seq<u8>| k.len() > 0 && root.entries().contains_key(k),
                |k: Seq<u8>| root.entries()[k],
            ),
    {
        let r = RadixTree { root, size: 0 };
        assert(r@ =~= Map::new(
            |k: Seq<u8>| k.len() > 0 && root.entries().contains_key(k),
            |k: Seq<u8>| root.entries()[k],
        ));
        r
    }

    /// Adds `value` under `label`: refuses an empty label, and a label that is already a key.
    pub fn insert(&mut self, label: &'a [u8], value: T) -> (r: Result<(), RouterError>)
        requires
            old(self).wf(),
            old(self).inserted() < usize::MAX,
        ensures
            final(self).wf(),
            label@.len() == 0 ==> r == Err::<(), RouterError>(RouterError::NullKey),
            label@.len() > 0 && old(self)@.contains_key(label@) ==> r == Err::<(), RouterError>(
                RouterError::DuplicateKey,
            ),
            label@.len() > 0 && !old(self)@.contains_key(label@) ==> r == Ok::<(), RouterError>(()),
            r is Ok ==> final(self)@ == old(self)@.insert(label@, value) && final(self).inserted()
                == old(self).inserted() + 1,
            r is Err ==> final(self)@ == old(self)@ && final(self).inserted() == old(self).inserted(),
            r is Err ==> final(self).same_tree(*old(self)),
    {
        if let Err(e) = check_not_null(label) {
            proof {
                lemma_same_node_refl(self.root);
            }
            return Err(e);
        }
        let ghost old_root = self.root;
        if let Err(e) = insert_recursive(&mut self.root, label, value) {
            return Err(e);
        }
        self.size += 1;
        proof {
            assert(self@ =~= old(self)@.insert(label@, value));
        }
        Ok(())
    }

    /// The value stored under `key`.
    pub fn find(&self, key: &[u8]) -> (r: Option<&T>)
        requires
            self.wf(),
        ensures
            r is Some <==> self@.contains_key(key@),
            r matches Some(v) ==> self@[key@] == *v,
    {
        if key.len() == 0 {
            return None;
        }
        let r = self.root.find_from(key, 0);
        assert(key@.subrange(0, key@.len() as int) =~= key@);
        r
    }
}

/// The empty key is never a key of a tree.
pub proof fn law_no_empty_key<'a, T>(t: RadixTree<'a, T>)
    ensures
        !t@.contains_key(Seq::<u8>::empty()),
{
}

/// A key added to a tree is found with the value it was added with, and every other key is
/// found, or not, with the value it had before.
pub proof fn law_find_after_insert<'a, T>(t: RadixTree<'a, T>, k: Seq<u8>, v: T)
    requires
        t.wf(),
        k.len() > 0,
        !t@.contains_key(k),
    ensures
        t@.insert(k, v).contains_key(k),
        t@.insert(k, v)[k] == v,
        forall|k2: Seq<u8>|
            k2 != k ==> (#[trigger] t@.insert(k, v).contains_key(k2) <==> t@.contains_key(k2)),
        forall|k2: Seq<u8>| k2 != k && t@.contains_key(k2) ==> #[trigger] t@.insert(k, v)[k2] == t@[k2],
{
}

/// Adding two different keys gives the same map in either order.
pub proof fn law_insert_order<'a, T>(t: RadixTree<'a, T>, a: Seq<u8>, x: T, b: Seq<u8>, y: T)
    requires
        a != b,
    ensures
        t@.insert(a, x).insert(b, y) == t@.insert(b, y).insert(a, x),
{
    assert(t@.insert(a, x).insert(b, y) =~= t@.insert(b, y).insert(a, x));
}

} // verus!
