//! The node arena: indextree's `Arena`, seen through a model of its links and
//! of the payload of each live node.
use crate::query::{Layer, Render};
use vstd::prelude::*;

verus! {

#[verifier::external_type_specification]
#[verifier::external_body]
#[verifier::reject_recursive_types(T)]
pub struct ExArena<T>(indextree::Arena<T>);

#[verifier::external_type_specification]
#[verifier::external_body]
pub struct ExNodeError(indextree::NodeError);

/// Identity of a node: the one-based slot index that indextree gives it.
#[derive(Clone, Copy, Debug, PartialEq, Eq, Hash, Structural)]
pub struct WidgetId(pub usize);

/// The five links of a node, as indextree keeps them.
#[derive(Clone, Copy, Debug, PartialEq, Eq, Structural)]
pub struct Links {
    pub parent: Option<WidgetId>,
    pub first_child: Option<WidgetId>,
    pub last_child: Option<WidgetId>,
    pub prev_sibling: Option<WidgetId>,
    pub next_sibling: Option<WidgetId>,
}

/// The payload of a node: a dropped flag and the render object.
#[derive(Debug)]
pub struct RenderNode {
    pub dropped: bool,
    pub render: Render,
}

impl View for RenderNode {
    type V = (bool, Seq<Layer>);

    open spec fn view(&self) -> (bool, Seq<Layer>) {
        (self.dropped, self.render.layers@)
    }
}

pub type TreeArena = indextree::Arena<RenderNode>;

/// The links of every live node of the arena.
pub uninterp spec fn arena_links(a: TreeArena) -> Map<WidgetId, Links>;

/// The payload of every live node of the arena.
pub uninterp spec fn arena_data(a: TreeArena) -> Map<WidgetId, (bool, Seq<Layer>)>;

/// The ids that indextree's children walk yields for `id`.
pub uninterp spec fn children_of(links: Map<WidgetId, Links>, id: WidgetId) -> Seq<WidgetId>;

/// The ids that indextree's pre-order descendants walk yields from `id`.
pub uninterp spec fn descendants_of(links: Map<WidgetId, Links>, id: WidgetId) -> Seq<WidgetId>;

pub open spec fn opt_in(m: Map<WidgetId, Links>, o: Option<WidgetId>) -> bool {
    o.is_none() || m.contains_key(o.unwrap())
}

/// Every link of every node leads to a live node.
pub open spec fn links_closed(m: Map<WidgetId, Links>) -> bool {
    forall|k: WidgetId|
        #![trigger m[k]]
        m.contains_key(k) ==> {
            &&& opt_in(m, m[k].parent)
            &&& opt_in(m, m[k].first_child)
            &&& opt_in(m, m[k].last_child)
            &&& opt_in(m, m[k].prev_sibling)
            &&& opt_in(m, m[k].next_sibling)
        }
}

/// `s` is the chain from `id` up through its parents to a root.
pub open spec fn is_ancestor_chain(m: Map<WidgetId, Links>, id: WidgetId, s: Seq<WidgetId>) -> bool {
    if m.contains_key(id) {
        &&& s.len() > 0
        &&& s[0] == id
        &&& m.contains_key(s.last()) && m[s.last()].parent.is_none()
        &&& forall|i: int| 0 <= i < s.len() ==> #[trigger] m.contains_key(s[i])
        &&& forall|i: int| 0 <= i < s.len() - 1 ==> m[#[trigger] s[i]].parent == Some(s[i + 1])
    } else {
        s.len() == 0
    }
}

/// `s` lies on the chain from `a` up to its root, `a` included.
pub open spec fn on_chain(m: Map<WidgetId, Links>, a: WidgetId, s: WidgetId) -> bool {
    exists|c: Seq<WidgetId>| #[trigger] is_ancestor_chain(m, a, c) && c.contains(s)
}

/// `r` is a walk of the subtree of `id`: it starts at `id` when `id` is live,
/// is empty otherwise, and holds the parent of every node after the first.
pub open spec fn desc_closed(l: Map<WidgetId, Links>, id: WidgetId, r: Seq<WidgetId>) -> bool {
    &&& l.contains_key(id) ==> r.len() > 0 && r[0] == id
    &&& !l.contains_key(id) ==> r.len() == 0
    &&& forall|i: int|
        1 <= i < r.len() ==> l.contains_key(#[trigger] r[i]) && l[r[i]].parent.is_some() && r.contains(
            l[r[i]].parent.unwrap(),
        )
}

pub open spec fn detached_links() -> Links {
    Links {
        parent: None,
        first_child: None,
        last_child: None,
        prev_sibling: None,
        next_sibling: None,
    }
}

/// indextree's `connect_neighbors`: make `prev` and `next` adjacent children
/// of `parent`.
pub open spec fn connected(
    m: Map<WidgetId, Links>,
    parent: Option<WidgetId>,
    prev: Option<WidgetId>,
    next: Option<WidgetId>,
) -> Map<WidgetId, Links> {
    let (pf, pl) = match parent {
        Some(q) => (m[q].first_child, m[q].last_child),
        None => (None, None),
    };
    let m1 = match prev {
        Some(p) => m.insert(p, Links { next_sibling: next, ..m[p] }),
        None => m,
    };
    let pf2 = match prev {
        Some(p) => if pf.is_some() { pf } else { Some(p) },
        None => next,
    };
    let m2 = match next {
        Some(n) => m1.insert(n, Links { prev_sibling: prev, ..m1[n] }),
        None => m1,
    };
    let pl2 = match next {
        Some(n) => if pl.is_some() { pl } else { Some(n) },
        None => prev,
    };
    match parent {
        Some(q) => m2.insert(q, Links { first_child: pf2, last_child: pl2, ..m2[q] }),
        None => m2,
    }
}

/// indextree's `detach`: unlink `s` from its parent and siblings, keeping its
/// own children.
pub open spec fn detached(m: Map<WidgetId, Links>, s: WidgetId) -> Map<WidgetId, Links> {
    let l = m[s];
    let m0 = m.insert(s, Links { prev_sibling: None, next_sibling: None, ..l });
    let m1 = connected(m0, l.parent, l.prev_sibling, l.next_sibling);
    m1.insert(s, Links { parent: None, ..m1[s] })
}

/// indextree's `insert_with_neighbors` on a detached `s`.
pub open spec fn inserted(
    m: Map<WidgetId, Links>,
    s: WidgetId,
    parent: Option<WidgetId>,
    prev: Option<WidgetId>,
    next: Option<WidgetId>,
) -> Map<WidgetId, Links> {
    let m1 = m.insert(s, Links { parent, ..m[s] });
    let m2 = connected(m1, parent, prev, Some(s));
    connected(m2, parent, Some(s), next)
}

pub open spec fn appended(m: Map<WidgetId, Links>, p: WidgetId, c: WidgetId) -> Map<
    WidgetId,
    Links,
> {
    let d = detached(m, c);
    inserted(d, c, Some(p), d[p].last_child, None)
}

pub open spec fn inserted_after(m: Map<WidgetId, Links>, a: WidgetId, s: WidgetId) -> Map<
    WidgetId,
    Links,
> {
    let d = detached(m, s);
    inserted(d, s, d[a].parent, Some(a), d[a].next_sibling)
}

pub open spec fn inserted_before(m: Map<WidgetId, Links>, a: WidgetId, s: WidgetId) -> Map<
    WidgetId,
    Links,
> {
    let d = detached(m, s);
    inserted(d, s, d[a].parent, d[a].prev_sibling, Some(a))
}

/// Relies on `Arena::new`: an arena without nodes.
#[verifier::external_body]
pub(crate) fn arena_new() -> (r: TreeArena)
    ensures
        arena_links(r).dom().is_empty(),
        arena_data(r).dom().is_empty(),
{
    indextree::Arena::new()
}

/// Relies on `Arena::new_node`: a fresh, detached node holding `data`.
#[verifier::external_body]
pub(crate) fn arena_new_node(a: &mut TreeArena, data: RenderNode) -> (r: WidgetId)
    ensures
        !arena_links(*old(a)).contains_key(r),
        arena_links(*final(a)) == arena_links(*old(a)).insert(r, detached_links()),
        arena_data(*final(a)) == arena_data(*old(a)).insert(r, data@),
{
    WidgetId(usize::from(a.new_node(data)))
}

/// Relies on `Arena::get`: the links of a live node, `None` for any other id.
#[verifier::external_body]
pub(crate) fn arena_links_of(a: &TreeArena, id: WidgetId) -> (r: Option<Links>)
    ensures
        r == (if arena_links(*a).contains_key(id) {
            Some(arena_links(*a)[id])
        } else {
            None
        }),
{
    let n = std::num::NonZeroUsize::new(id.0).and_then(|i| a.get_node_id_at(i));
    n.and_then(|n| a.get(n)).map(
        |node|
            Links {
                parent: node.parent().map(|p| WidgetId(usize::from(p))),
                first_child: node.first_child().map(|p| WidgetId(usize::from(p))),
                last_child: node.last_child().map(|p| WidgetId(usize::from(p))),
                prev_sibling: node.previous_sibling().map(|p| WidgetId(usize::from(p))),
                next_sibling: node.next_sibling().map(|p| WidgetId(usize::from(p))),
            },
    )
}

/// Relies on `Arena::get` and `Node::get`: the payload of a live node.
#[verifier::external_body]
pub(crate) fn arena_get(a: &TreeArena, id: WidgetId) -> (r: Option<&RenderNode>)
    ensures
        r.is_some() == arena_data(*a).contains_key(id),
        r.is_some() ==> r.unwrap()@ == arena_data(*a)[id],
{
    let n = std::num::NonZeroUsize::new(id.0).and_then(|i| a.get_node_id_at(i));
    n.and_then(|n| a.get(n)).map(|node| node.get())
}

/// Relies on `Arena::get_mut` and `Node::get_mut`: replace the payload of a
/// live node; links are untouched.
#[verifier::external_body]
pub(crate) fn arena_set(a: &mut TreeArena, id: WidgetId, data: RenderNode)
    ensures
        arena_links(*final(a)) == arena_links(*old(a)),
        arena_data(*final(a)) == (if arena_data(*old(a)).contains_key(id) {
            arena_data(*old(a)).insert(id, data@)
        } else {
            arena_data(*old(a))
        }),
{
    let n = std::num::NonZeroUsize::new(id.0).and_then(|i| a.get_node_id_at(i));
    if let Some(node) = n.and_then(|n| a.get_mut(n)) {
        *node.get_mut() = data;
    }
}


pub open spec fn link_effect(
    a0: TreeArena,
    a1: TreeArena,
    r: Result<(), indextree::NodeError>,
    target: Map<WidgetId, Links>,
) -> bool {
    &&& arena_data(a1) == arena_data(a0)
    &&& r is Ok ==> arena_links(a1) == target
    &&& r is Err ==> arena_links(a1) == arena_links(a0)
}

/// Relies on `NodeId::checked_append`: make `c` the last child of `p`, or
/// refuse (and change nothing) when, and only when, `c` is `p`, either is
/// not live, or `c` is on the chain from `p` to its root. On success `c` is
/// the last of the children of `p` and left the children of its old parent.
#[verifier::external_body]
pub(crate) fn arena_append(a: &mut TreeArena, p: WidgetId, c: WidgetId) -> (r: Result<
    (),
    indextree::NodeError,
>)
    ensures
        link_effect(*old(a), *final(a), r, appended(arena_links(*old(a)), p, c)),
        (p == c || !arena_links(*old(a)).contains_key(p) || !arena_links(*old(a)).contains_key(c))
            ==> r is Err,
        r is Err ==> (p == c || !arena_links(*old(a)).contains_key(p) || !arena_links(
            *old(a),
        ).contains_key(c) || on_chain(arena_links(*old(a)), p, c)),
        r is Ok && arena_links(*old(a))[c].parent != Some(p) ==> children_of(
            arena_links(*final(a)),
            p,
        ) == children_of(arena_links(*old(a)), p).push(c),
        r is Ok && arena_links(*old(a))[c].parent.is_some() && arena_links(*old(a))[c].parent
            != Some(p) ==> children_of(
            arena_links(*final(a)),
            arena_links(*old(a))[c].parent.unwrap(),
        ) == children_of(arena_links(*old(a)), arena_links(*old(a))[c].parent.unwrap()).remove_value(
            c,
        ),
{
    let n = std::num::NonZeroUsize::new(p.0).and_then(|i| a.get_node_id_at(i));
    let m = std::num::NonZeroUsize::new(c.0).and_then(|i| a.get_node_id_at(i));
    match (n, m) {
        (Some(n), Some(m)) => n.checked_append(m, a),
        _ => Err(indextree::NodeError::Removed),
    }
}

/// Relies on `NodeId::checked_insert_after`: make `s` the next sibling of
/// `anchor`, or refuse (and change nothing) when, and only when, `s` is
/// `anchor`, either is not live, or `s` is on the chain from `anchor` to its
/// root.
#[verifier::external_body]
pub(crate) fn arena_insert_after(a: &mut TreeArena, anchor: WidgetId, s: WidgetId) -> (r: Result<
    (),
    indextree::NodeError,
>)
    ensures
        link_effect(*old(a), *final(a), r, inserted_after(arena_links(*old(a)), anchor, s)),
        (anchor == s || !arena_links(*old(a)).contains_key(anchor) || !arena_links(
            *old(a),
        ).contains_key(s)) ==> r is Err,
        r is Err ==> (anchor == s || !arena_links(*old(a)).contains_key(anchor) || !arena_links(
            *old(a),
        ).contains_key(s) || on_chain(arena_links(*old(a)), anchor, s)),
{
    let n = std::num::NonZeroUsize::new(anchor.0).and_then(|i| a.get_node_id_at(i));
    let m = std::num::NonZeroUsize::new(s.0).and_then(|i| a.get_node_id_at(i));
    match (n, m) {
        (Some(n), Some(m)) => n.checked_insert_after(m, a),
        _ => Err(indextree::NodeError::Removed),
    }
}

/// Relies on `NodeId::checked_insert_before`: make `s` the previous sibling of
/// `anchor`, or refuse (and change nothing) when, and only when, `s` is
/// `anchor`, either is not live, or `s` is on the chain from `anchor` to its
/// root.
#[verifier::external_body]
pub(crate) fn arena_insert_before(a: &mut TreeArena, anchor: WidgetId, s: WidgetId) -> (r: Result<
    (),
    indextree::NodeError,
>)
    ensures
        link_effect(*old(a), *final(a), r, inserted_before(arena_links(*old(a)), anchor, s)),
        (anchor == s || !arena_links(*old(a)).contains_key(anchor) || !arena_links(
            *old(a),
        ).contains_key(s)) ==> r is Err,
        r is Err ==> (anchor == s || !arena_links(*old(a)).contains_key(anchor) || !arena_links(
            *old(a),
        ).contains_key(s) || on_chain(arena_links(*old(a)), anchor, s)),
{
    let n = std::num::NonZeroUsize::new(anchor.0).and_then(|i| a.get_node_id_at(i));
    let m = std::num::NonZeroUsize::new(s.0).and_then(|i| a.get_node_id_at(i));
    match (n, m) {
        (Some(n), Some(m)) => n.checked_insert_before(m, a),
        _ => Err(indextree::NodeError::Removed),
    }
}

/// Relies on `NodeId::detach`: unlink a live node from its parent and
/// siblings; an id that is not live changes nothing.
#[verifier::external_body]
pub(crate) fn arena_detach(a: &mut TreeArena, id: WidgetId)
    ensures
        arena_data(*final(a)) == arena_data(*old(a)),
        arena_links(*final(a)) == (if arena_links(*old(a)).contains_key(id) {
            detached(arena_links(*old(a)), id)
        } else {
            arena_links(*old(a))
        }),
{
    if let Some(n) = std::num::NonZeroUsize::new(id.0).and_then(|i| a.get_node_id_at(i)) {
        n.detach(a);
    }
}

/// Relies on `NodeId::children`: the children of a live node in order, from
/// its first child along the sibling links to its last child; none for an id
/// that is not live.
#[verifier::external_body]
pub(crate) fn arena_children(a: &TreeArena, id: WidgetId) -> (r: Vec<WidgetId>)
    ensures
        r@ == children_of(arena_links(*a), id),
        !arena_links(*a).contains_key(id) ==> r@.len() == 0,
        arena_links(*a).contains_key(id) ==> {
            &&& (r@.len() == 0 <==> arena_links(*a)[id].first_child.is_none())
            &&& r@.len() > 0 ==> Some(r@[0]) == arena_links(*a)[id].first_child
            &&& r@.len() > 0 ==> Some(r@.last()) == arena_links(*a)[id].last_child
        },
        r@.no_duplicates(),
        forall|i: int|
            0 <= i < r@.len() ==> #[trigger] arena_links(*a).contains_key(r@[i])
                && arena_links(*a)[r@[i]].parent == Some(id) && arena_data(*a).contains_key(r@[i]),
        forall|i: int|
            0 <= i < r@.len() - 1 ==> arena_links(*a)[#[trigger] r@[i]].next_sibling == Some(
                r@[i + 1],
            ),
{
    match std::num::NonZeroUsize::new(id.0).and_then(|i| a.get_node_id_at(i)) {
        Some(n) => n.children(a).map(|c| WidgetId(usize::from(c))).collect(),
        None => Vec::new(),
    }
}

/// Relies on `NodeId::ancestors`: a live node, then its parent, and so on up
/// to the root; none for an id that is not live.
#[verifier::external_body]
pub(crate) fn arena_ancestors(a: &TreeArena, id: WidgetId) -> (r: Vec<WidgetId>)
    ensures
        !arena_links(*a).contains_key(id) ==> r@.len() == 0,
        arena_links(*a).contains_key(id) ==> {
            &&& r@.len() > 0
            &&& r@[0] == id
            &&& arena_links(*a)[r@.last()].parent.is_none()
        },
        forall|i: int| 0 <= i < r@.len() ==> #[trigger] arena_links(*a).contains_key(r@[i]),
        forall|i: int|
            0 <= i < r@.len() - 1 ==> arena_links(*a)[#[trigger] r@[i]].parent == Some(r@[i + 1]),
{
    match std::num::NonZeroUsize::new(id.0).and_then(|i| a.get_node_id_at(i)) {
        Some(n) => n.ancestors(a).map(|c| WidgetId(usize::from(c))).collect(),
        None => Vec::new(),
    }
}

/// Relies on `NodeId::descendants`: a live node followed by every node of its
/// subtree, in pre-order, each after its parent; none for an id that is not
/// live.
#[verifier::external_body]
pub(crate) fn arena_descendants(a: &TreeArena, id: WidgetId) -> (r: Vec<WidgetId>)
    ensures
        r@ == descendants_of(arena_links(*a), id),
        desc_closed(arena_links(*a), id, r@),
        !arena_links(*a).contains_key(id) ==> r@.len() == 0,
        arena_links(*a).contains_key(id) ==> r@.len() > 0 && r@[0] == id,
        r@.no_duplicates(),
        forall|i: int|
            0 <= i < r@.len() ==> #[trigger] arena_links(*a).contains_key(r@[i]) && arena_data(
                *a,
            ).contains_key(r@[i]),
{
    match std::num::NonZeroUsize::new(id.0).and_then(|i| a.get_node_id_at(i)) {
        Some(n) => n.descendants(a).map(|c| WidgetId(usize::from(c))).collect(),
        None => Vec::new(),
    }
}

} // verus!
