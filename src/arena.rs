use vstd::prelude::*;

verus! {

/// A handle to a node of an [`Arena`]: the node's position in insertion order.
#[derive(Clone, Copy, Debug, PartialEq, Eq, Structural)]
pub struct NodeRef {
    pub index: usize,
}

/// A value slot together with an ordered list of outgoing edges.
pub struct Node<T> {
    value: T,
    edges: Vec<NodeRef>,
}

impl<T> Node<T> {
    /// The value held by the node.
    pub closed spec fn val(&self) -> T {
        self.value
    }

    /// The outgoing edges of the node, in the order they were added.
    pub closed spec fn edge_list(&self) -> Seq<NodeRef> {
        self.edges@
    }

    pub fn new(value: T) -> (r: Self)
        ensures
            r.val() == value,
            r.edge_list() == Seq::<NodeRef>::empty(),
    {
        Node { value, edges: Vec::new() }
    }

    pub fn value(&self) -> (r: &T)
        ensures
            *r == self.val(),
    {
        &self.value
    }

    pub fn add_edges(&mut self, edge: NodeRef)
        ensures
            final(self).val() == old(self).val(),
            final(self).edge_list() == old(self).edge_list().push(edge),
    {
        self.edges.push(edge);
    }

    pub fn get_edges(&self) -> (r: &Vec<NodeRef>)
        ensures
            r@ == self.edge_list(),
    {
        &self.edges
    }
}

/// Insertion-ordered storage of nodes. A node is never removed or moved, so
/// a handle stays valid for the life of the arena.
pub struct Arena<T> {
    nodes: Vec<Node<T>>,
}

impl<T> Arena<T> {
    /// The nodes in insertion order; a handle `h` names `self@[h.index]`.
    pub closed spec fn view(&self) -> Seq<Node<T>> {
        self.nodes@
    }

    /// The values of the nodes in insertion order.
    pub open spec fn values(&self) -> Seq<T> {
        self@.map_values(|n: Node<T>| n.val())
    }

    pub open spec fn contains(&self, h: NodeRef) -> bool {
        h.index < self@.len()
    }

    pub fn new() -> (r: Self)
        ensures
            r@ == Seq::<Node<T>>::empty(),
    {
        Arena { nodes: Vec::new() }
    }

    pub fn len(&self) -> (r: usize)
        ensures
            r == self@.len(),
    {
        self.nodes.len()
    }

    fn new_node_ref(&mut self, value: T) -> (r: NodeRef)
        requires
            old(self)@.len() < usize::MAX,
        ensures
            r.index == old(self)@.len(),
            final(self)@.len() == old(self)@.len() + 1,
            final(self)@.subrange(0, r.index as int) == old(self)@,
            final(self)@[r.index as int].val() == value,
            final(self)@[r.index as int].edge_list() == Seq::<NodeRef>::empty(),
    {
        let index = self.nodes.len();
        self.nodes.push(Node::new(value));
        assert(self@.subrange(0, index as int) =~= old(self)@);
        NodeRef { index }
    }

    /// Appends a node holding `value`, with no edges, and returns its handle.
    pub fn add_node(&mut self, value: T) -> (r: NodeRef)
        requires
            old(self)@.len() < usize::MAX,
        ensures
            r.index == old(self)@.len(),
            final(self)@.len() == old(self)@.len() + 1,
            final(self)@.subrange(0, r.index as int) == old(self)@,
            final(self)@[r.index as int].val() == value,
            final(self)@[r.index as int].edge_list() == Seq::<NodeRef>::empty(),
    {
        self.new_node_ref(value)
    }

    /// The first node inserted, if any.
    pub fn get_root(&self) -> (r: Option<NodeRef>)
        ensures
            self@.len() == 0 ==> r is None,
            self@.len() > 0 ==> r == Some(NodeRef { index: 0 }),
    {
        if self.nodes.len() == 0 {
            None
        } else {
            Some(NodeRef { index: 0 })
        }
    }

    pub fn get(&self, h: NodeRef) -> (r: &Node<T>)
        requires
            self.contains(h),
        ensures
            *r == self@[h.index as int],
    {
        &self.nodes[h.index]
    }

    /// Appends `to` to the edges of the node `from`; no value changes.
    pub fn add_edge(&mut self, from: NodeRef, to: NodeRef)
        requires
            old(self).contains(from),
        ensures
            final(self)@.len() == old(self)@.len(),
            forall|i: int|
                0 <= i < old(self)@.len() && i != from.index ==> final(self)@[i] == old(self)@[i],
            final(self)@[from.index as int].val() == old(self)@[from.index as int].val(),
            final(self)@[from.index as int].edge_list() == old(
                self,
            )@[from.index as int].edge_list().push(to),
    {
        self.nodes[from.index].add_edges(to);
    }
}

impl<T> Default for Arena<T> {
    fn default() -> (r: Self)
        ensures
            r@ == Seq::<Node<T>>::empty(),
    {
        Self::new()
    }
}

/// The decimal digits of a natural number, most significant first.
pub open spec fn digits(n: nat) -> Seq<char>
    decreases n,
{
    let d = ((n % 10) as u8 + 48u8) as char;
    if n < 10 {
        seq![d]
    } else {
        digits(n / 10).push(d)
    }
}

/// The decimal text of an integer, with a leading `-` when negative.
pub open spec fn decimal(n: int) -> Seq<char> {
    if n < 0 {
        seq!['-'] + digits((-n) as nat)
    } else {
        digits(n as nat)
    }
}

/// The values' decimal texts separated by `", "`.
pub open spec fn joined(s: Seq<i32>) -> Seq<char>
    decreases s.len(),
{
    if s.len() == 0 {
        Seq::empty()
    } else if s.len() == 1 {
        decimal(s[0] as int)
    } else {
        joined(s.drop_last()) + seq![',', ' '] + decimal(s.last() as int)
    }
}

/// The bracketed, comma-separated listing of the values.
pub open spec fn listing(s: Seq<i32>) -> Seq<char> {
    seq!['['] + joined(s) + seq![']']
}

/// Relies on `i32`'s `Display` (through `ToString::to_string`): it writes the
/// value in decimal, with a leading `-` for a negative value.
#[verifier::external_body]
fn decimal_text(n: i32) -> (r: String)
    ensures
        r@ == decimal(n as int),
{
    n.to_string()
}

impl Node<i32> {
    /// The node's value as decimal text.
    pub fn to_string(&self) -> (r: String)
        ensures
            r@ == decimal(self.val() as int),
    {
        decimal_text(self.value)
    }
}

impl Arena<i32> {
    /// The node values in insertion order, for example `[10, 20]`. Edges play
    /// no part in it.
    pub fn to_string(&self) -> (r: String)
        ensures
            r@ == listing(self.values()),
    {
        let mut out = String::new();
        proof {
            reveal_strlit("[");
        }
        out.append("[");
        let mut i: usize = 0;
        while i < self.nodes.len()
            invariant
                i <= self.nodes@.len(),
                out@ == seq!['['] + joined(self.values().subrange(0, i as int)),
            decreases self.nodes@.len() - i,
        {
            let ghost prev = self.values().subrange(0, i as int);
            let ghost next = self.values().subrange(0, i + 1);
            assert(next.drop_last() =~= prev);
            assert(next.last() == self.nodes@[i as int].value);
            proof {
                reveal_strlit(", ");
            }
            if i != 0 {
                out.append(", ");
            }
            let text = decimal_text(self.nodes[i].value);
            out.append(text.as_str());
            proof {
                if i == 0 {
                    assert(prev =~= Seq::<i32>::empty());
                    assert(joined(prev) =~= Seq::<char>::empty());
                } else {
                    assert(joined(next) == joined(prev) + seq![',', ' '] + decimal(
                        next.last() as int,
                    ));
                }
            }
            assert(out@ =~= seq!['['] + joined(next));
            i = i + 1;
        }
        assert(self.values().subrange(0, i as int) =~= self.values());
        proof {
            reveal_strlit("]");
        }
        out.append("]");
        out
    }
}

} // verus!
