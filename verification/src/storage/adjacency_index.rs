//! Edges by the nodes that they connect.

use vstd::prelude::*;

use crate::ordered_map;
use crate::ordered_map::{lookup, mapped, put, sorted, OrderedMap};
use crate::types::{EdgeId, LabelId, NodeId};

pub use crate::adjacency::EdgeRef;

verus! {

/// The edges that leave and those that reach each node.
pub struct AdjacencyIndex {
    forward: OrderedMap<Vec<EdgeRef>>,
    backward: OrderedMap<Vec<EdgeRef>>,
}

// ---------------------------------------------------------------------------------------------
// The model

/// Edges by the number of a node.
pub type RefMap = Seq<(u64, Seq<EdgeRef>)>;

/// What an [`AdjacencyIndex`] stands for.
#[verifier::ext_equal]
pub struct AdjacencyView {
    pub forward: RefMap,
    pub backward: RefMap,
}

/// What a list of references stands for, as a function.
pub open spec fn refs_view() -> spec_fn(Vec<EdgeRef>) -> Seq<EdgeRef> {
    |refs: Vec<EdgeRef>| refs@
}

/// The edges of a node.
pub open spec fn refs_of(map: RefMap, node: NodeId) -> Seq<EdgeRef> {
    match lookup(map, node.0) {
        Some(refs) => refs,
        None => Seq::empty(),
    }
}

/// The references to other edges.
pub open spec fn without_edge(refs: Seq<EdgeRef>, edge_id: EdgeId) -> Seq<EdgeRef>
    decreases refs.len(),
{
    if refs.len() == 0 {
        Seq::empty()
    } else {
        let before = without_edge(refs.drop_last(), edge_id);
        if refs.last().edge_id == edge_id {
            before
        } else {
            before.push(refs.last())
        }
    }
}

pub open spec fn with_ref(map: RefMap, node: NodeId, r: EdgeRef) -> RefMap {
    put(map, node.0, refs_of(map, node).push(r))
}

pub open spec fn without_ref(map: RefMap, node: NodeId, edge_id: EdgeId) -> RefMap {
    match lookup(map, node.0) {
        Some(refs) => put(map, node.0, without_edge(refs, edge_id)),
        None => map,
    }
}

impl AdjacencyView {
    pub open spec fn empty() -> AdjacencyView {
        AdjacencyView { forward: Seq::empty(), backward: Seq::empty() }
    }

    pub open spec fn sound(self) -> bool {
        sorted(self.forward) && sorted(self.backward)
    }

    /// The index with an edge.
    pub open spec fn with_edge(
        self,
        edge_id: EdgeId,
        type_id: LabelId,
        from: NodeId,
        to: NodeId,
    ) -> AdjacencyView {
        AdjacencyView {
            forward: with_ref(self.forward, from, EdgeRef { edge_id, type_id, neighbor: to }),
            backward: with_ref(self.backward, to, EdgeRef { edge_id, type_id, neighbor: from }),
        }
    }

    /// The index without an edge between two nodes.
    pub open spec fn without(self, edge_id: EdgeId, from: NodeId, to: NodeId) -> AdjacencyView {
        AdjacencyView {
            forward: without_ref(self.forward, from, edge_id),
            backward: without_ref(self.backward, to, edge_id),
        }
    }
}

// ---------------------------------------------------------------------------------------------
// The index

impl View for AdjacencyIndex {
    type V = AdjacencyView;

    closed spec fn view(&self) -> AdjacencyView {
        AdjacencyView {
            forward: mapped(self.forward@, refs_view()),
            backward: mapped(self.backward@, refs_view()),
        }
    }
}

fn add_ref(map: &mut OrderedMap<Vec<EdgeRef>>, node: NodeId, r: EdgeRef)
    requires
        old(map).wf(),
    ensures
        final(map).wf(),
        mapped(final(map)@, refs_view()) == with_ref(mapped(old(map)@, refs_view()), node, r),
{
    let ghost s = map@;
    let ghost f = refs_view();
    proof {
        ordered_map::lemma_mapped_rank(s, f, node.0);
    }
    match map.find(node.0) {
        Some(i) => {
            map.value_at_mut(i).push(r);
            proof {
                ordered_map::lemma_mapped_update(s, f, i as int, map@[i as int].1);
            }
        },
        None => {
            let mut refs: Vec<EdgeRef> = Vec::new();
            refs.push(r);
            assert(refs@ =~= Seq::empty().push(r));
            map.insert(node.0, refs);
            proof {
                ordered_map::lemma_mapped_put(s, f, node.0, refs);
            }
        },
    }
}

/// Keeps the references to other edges.
fn drop_edge(refs: &mut Vec<EdgeRef>, edge_id: EdgeId)
    ensures
        final(refs)@ == without_edge(old(refs)@, edge_id),
{
    let mut kept: Vec<EdgeRef> = Vec::new();
    let mut i: usize = 0;
    assert(refs@.take(0) =~= Seq::empty());
    while i < refs.len()
        invariant
            i <= refs@.len(),
            refs@ == old(refs)@,
            kept@ == without_edge(refs@.take(i as int), edge_id),
        decreases refs@.len() - i,
    {
        assert(refs@.take(i + 1).drop_last() =~= refs@.take(i as int));
        let r = refs[i];
        if r.edge_id.0 != edge_id.0 {
            kept.push(r);
        }
        i = i + 1;
    }
    assert(refs@.take(i as int) =~= refs@);
    *refs = kept;
}

fn remove_ref(map: &mut OrderedMap<Vec<EdgeRef>>, node: NodeId, edge_id: EdgeId)
    requires
        old(map).wf(),
    ensures
        final(map).wf(),
        mapped(final(map)@, refs_view()) == without_ref(
            mapped(old(map)@, refs_view()),
            node,
            edge_id,
        ),
{
    let ghost s = map@;
    let ghost f = refs_view();
    proof {
        ordered_map::lemma_mapped_rank(s, f, node.0);
    }
    match map.find(node.0) {
        Some(i) => {
            drop_edge(map.value_at_mut(i), edge_id);
            proof {
                ordered_map::lemma_mapped_update(s, f, i as int, map@[i as int].1);
            }
        },
        None => {},
    }
}

fn get_refs(map: &OrderedMap<Vec<EdgeRef>>, node: NodeId) -> (refs: &[EdgeRef])
    requires
        map.wf(),
    ensures
        refs@ == refs_of(mapped(map@, refs_view()), node),
{
    proof {
        ordered_map::lemma_mapped_rank(map@, refs_view(), node.0);
    }
    match map.get(node.0) {
        Some(refs) => refs.as_slice(),
        None => {
            let none: &[EdgeRef] = &[];
            assert(none@ =~= Seq::empty());
            none
        },
    }
}

impl AdjacencyIndex {
    pub closed spec fn wf(&self) -> bool {
        self.forward.wf() && self.backward.wf()
    }

    pub proof fn lemma_wf(&self)
        requires
            self.wf(),
        ensures
            self@.sound(),
    {
        self.forward.lemma_wf();
        self.backward.lemma_wf();
        ordered_map::lemma_mapped_sorted(self.forward@, refs_view());
        ordered_map::lemma_mapped_sorted(self.backward@, refs_view());
    }

    pub fn new() -> (index: Self)
        ensures
            index.wf(),
            index@ == AdjacencyView::empty(),
    {
        let index = AdjacencyIndex { forward: OrderedMap::new(), backward: OrderedMap::new() };
        assert(index@ =~= AdjacencyView::empty());
        index
    }

    pub fn add_edge(&mut self, edge_id: EdgeId, type_id: LabelId, from: NodeId, to: NodeId)
        requires
            old(self).wf(),
        ensures
            final(self).wf(),
            final(self)@ == old(self)@.with_edge(edge_id, type_id, from, to),
    {
        add_ref(&mut self.forward, from, EdgeRef { edge_id, type_id, neighbor: to });
        add_ref(&mut self.backward, to, EdgeRef { edge_id, type_id, neighbor: from });
    }

    /// Removes an edge between two nodes. It does nothing where there is none.
    pub fn remove_edge(&mut self, edge_id: EdgeId, from: NodeId, to: NodeId)
        requires
            old(self).wf(),
        ensures
            final(self).wf(),
            final(self)@ == old(self)@.without(edge_id, from, to),
    {
        remove_ref(&mut self.forward, from, edge_id);
        remove_ref(&mut self.backward, to, edge_id);
    }

    /// The edges that leave a node.
    pub fn get_forward(&self, node: NodeId) -> (refs: &[EdgeRef])
        requires
            self.wf(),
        ensures
            refs@ == refs_of(self@.forward, node),
    {
        get_refs(&self.forward, node)
    }

    /// The edges that reach a node.
    pub fn get_backward(&self, node: NodeId) -> (refs: &[EdgeRef])
        requires
            self.wf(),
        ensures
            refs@ == refs_of(self@.backward, node),
    {
        get_refs(&self.backward, node)
    }
}

impl Default for AdjacencyIndex {
    fn default() -> (index: Self)
        ensures
            index.wf(),
            index@ == AdjacencyView::empty(),
    {
        Self::new()
    }
}

// ---------------------------------------------------------------------------------------------
// Laws

/// An edge that was added is the last of those that leave its source and of those that reach its
/// destination. Other nodes have the edges that they had.
pub proof fn law_add_then_get(
    index: AdjacencyView,
    edge_id: EdgeId,
    type_id: LabelId,
    from: NodeId,
    to: NodeId,
    other: NodeId,
)
    requires
        index.sound(),
    ensures
        ({
            let i = index.with_edge(edge_id, type_id, from, to);
            &&& i.sound()
            &&& refs_of(i.forward, from) == refs_of(index.forward, from).push(
                EdgeRef { edge_id, type_id, neighbor: to },
            )
            &&& refs_of(i.backward, to) == refs_of(index.backward, to).push(
                EdgeRef { edge_id, type_id, neighbor: from },
            )
            &&& other != from ==> refs_of(i.forward, other) == refs_of(index.forward, other)
            &&& other != to ==> refs_of(i.backward, other) == refs_of(index.backward, other)
        }),
{
    let f = refs_of(index.forward, from).push(EdgeRef { edge_id, type_id, neighbor: to });
    let b = refs_of(index.backward, to).push(EdgeRef { edge_id, type_id, neighbor: from });
    ordered_map::law_put_then_lookup(index.forward, from.0, f, other.0);
    ordered_map::law_put_then_lookup(index.backward, to.0, b, other.0);
}

/// What is left of references holds none to the edge, and the others in their order.
pub proof fn law_without_edge(refs: Seq<EdgeRef>, edge_id: EdgeId, other: EdgeRef)
    ensures
        forall|i: int|
            0 <= i < without_edge(refs, edge_id).len() ==> (#[trigger] without_edge(
                refs,
                edge_id,
            )[i]).edge_id != edge_id,
        other.edge_id != edge_id ==> (without_edge(refs, edge_id).contains(other)
            <==> refs.contains(other)),
        (forall|i: int| 0 <= i < refs.len() ==> (#[trigger] refs[i]).edge_id != edge_id)
            ==> without_edge(refs, edge_id) == refs,
    decreases refs.len(),
{
    if refs.len() > 0 {
        let init = refs.drop_last();
        let kept = without_edge(init, edge_id);
        law_without_edge(init, edge_id, other);
        assert(init.push(refs.last()) =~= refs);
        if other.edge_id != edge_id {
            if refs.contains(other) {
                let i = choose|i: int| 0 <= i < refs.len() && refs[i] == other;
                if i < init.len() {
                    assert(init[i] == other);
                    assert(kept.contains(other));
                    let k = choose|k: int| 0 <= k < kept.len() && kept[k] == other;
                    assert(without_edge(refs, edge_id)[k] == other);
                } else {
                    assert(without_edge(refs, edge_id).last() == other);
                }
            }
            if without_edge(refs, edge_id).contains(other) {
                let w = without_edge(refs, edge_id);
                let k = choose|k: int| 0 <= k < w.len() && w[k] == other;
                if k < kept.len() {
                    assert(kept[k] == other);
                    assert(init.contains(other));
                    let i = choose|i: int| 0 <= i < init.len() && init[i] == other;
                    assert(refs[i] == other);
                } else {
                    assert(refs[refs.len() - 1] == other);
                }
            }
        }
        if forall|i: int| 0 <= i < refs.len() ==> (#[trigger] refs[i]).edge_id != edge_id {
            assert forall|i: int| 0 <= i < init.len() implies (#[trigger] init[i]).edge_id
                != edge_id by {
                assert(refs[i] == init[i]);
            }
            assert(refs[refs.len() - 1].edge_id != edge_id);
        }
    } else {
        assert(refs =~= Seq::empty());
    }
}

/// Removing an edge takes its references from its source and its destination, and leaves the other
/// nodes as they were. Where a node has none, nothing changes for it.
pub proof fn law_remove_hides(
    index: AdjacencyView,
    edge_id: EdgeId,
    from: NodeId,
    to: NodeId,
    other: NodeId,
)
    requires
        index.sound(),
    ensures
        ({
            let i = index.without(edge_id, from, to);
            &&& i.sound()
            &&& refs_of(i.forward, from) == without_edge(refs_of(index.forward, from), edge_id)
            &&& refs_of(i.backward, to) == without_edge(refs_of(index.backward, to), edge_id)
            &&& other != from ==> refs_of(i.forward, other) == refs_of(index.forward, other)
            &&& other != to ==> refs_of(i.backward, other) == refs_of(index.backward, other)
        }),
{
    let f = without_edge(refs_of(index.forward, from), edge_id);
    let b = without_edge(refs_of(index.backward, to), edge_id);
    ordered_map::law_put_then_lookup(index.forward, from.0, f, other.0);
    ordered_map::law_put_then_lookup(index.backward, to.0, b, other.0);
}

/// Removing an edge that was just added gives both nodes the edges that they had, if they had none
/// of that number.
pub proof fn law_add_then_remove(
    index: AdjacencyView,
    edge_id: EdgeId,
    type_id: LabelId,
    from: NodeId,
    to: NodeId,
)
    requires
        index.sound(),
        without_edge(refs_of(index.forward, from), edge_id) == refs_of(index.forward, from),
        without_edge(refs_of(index.backward, to), edge_id) == refs_of(index.backward, to),
    ensures
        ({
            let i = index.with_edge(edge_id, type_id, from, to).without(edge_id, from, to);
            &&& refs_of(i.forward, from) == refs_of(index.forward, from)
            &&& refs_of(i.backward, to) == refs_of(index.backward, to)
        }),
{
    let a = index.with_edge(edge_id, type_id, from, to);
    law_add_then_get(index, edge_id, type_id, from, to, from);
    law_remove_hides(a, edge_id, from, to, from);
    assert(refs_of(a.forward, from).drop_last() =~= refs_of(index.forward, from));
    assert(refs_of(a.backward, to).drop_last() =~= refs_of(index.backward, to));
}

} // verus!
