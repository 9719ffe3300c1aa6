//! Navigation, linking and disposal of the nodes of the arena tree.
use crate::arena::{
    arena_ancestors, arena_append, arena_children, arena_data, arena_descendants, arena_detach,
    arena_get, arena_insert_after, arena_insert_before, arena_links, arena_links_of, arena_new,
    arena_new_node, arena_set, descendants_of, detached, detached_links, RenderNode, TreeArena,
    Links, WidgetId, appended, is_ancestor_chain, inserted_after, inserted_before,
};
use crate::query::{Layer, Render};
use vstd::prelude::*;

verus! {

/// The type tag of the empty render primitive.
pub const VOID_TAG: u64 = 0;

/// A link operation was refused: a node was linked to itself or to its own
/// subtree, or one of the nodes is not live.
#[derive(Clone, Copy, Debug, PartialEq, Eq, Structural)]
pub enum LinkError {
    Refused,
}

pub open spec fn is_live(a: TreeArena, id: WidgetId) -> bool {
    arena_data(a).contains_key(id)
}

pub open spec fn dropped_spec(a: TreeArena, id: WidgetId) -> bool {
    !arena_data(a).contains_key(id) || arena_data(a)[id].0
}

/// `d` with every node of `ids` marked dropped.
pub open spec fn all_marked(d: Map<WidgetId, (bool, Seq<Layer>)>, ids: Seq<WidgetId>) -> Map<
    WidgetId,
    (bool, Seq<Layer>),
> {
    Map::new(
        |k: WidgetId| d.contains_key(k),
        |k: WidgetId|
            if ids.contains(k) {
                (true, d[k].1)
            } else {
                d[k]
            },
    )
}

pub fn new_arena() -> (r: TreeArena)
    ensures
        arena_links(r).dom().is_empty(),
        arena_data(r).dom().is_empty(),
{
    arena_new()
}

pub fn copy_render(r: &Render) -> (c: Render)
    ensures
        c.layers@ == r.layers@,
{
    let mut layers: Vec<Layer> = Vec::new();
    let mut i: usize = 0;
    while i < r.layers.len()
        invariant
            i <= r.layers@.len(),
            layers@ == r.layers@.take(i as int),
        decreases r.layers@.len() - i,
    {
        layers.push(r.layers[i]);
        i = i + 1;
        proof {
            assert(layers@ =~= r.layers@.take(i as int));
        }
    }
    proof {
        assert(layers@ =~= r.layers@);
    }
    Render { layers }
}

pub fn copy_node(n: &RenderNode) -> (c: RenderNode)
    ensures
        c.dropped == n.dropped,
        c.render.layers@ == n.render.layers@,
{
    RenderNode { dropped: n.dropped, render: copy_render(&n.render) }
}

/// Allocate a live, detached node holding `render`.
pub fn new_node(arena: &mut TreeArena, render: Render) -> (r: WidgetId)
    ensures
        !arena_links(*old(arena)).contains_key(r),
        arena_links(*final(arena)) == arena_links(*old(arena)).insert(r, detached_links()),
        arena_data(*final(arena)) == arena_data(*old(arena)).insert(r, (false, render.layers@)),
{
    arena_new_node(arena, RenderNode { dropped: false, render })
}

/// Allocate a node holding the empty render primitive.
pub fn empty_node(arena: &mut TreeArena) -> (r: WidgetId)
    ensures
        !arena_links(*old(arena)).contains_key(r),
        arena_links(*final(arena)) == arena_links(*old(arena)).insert(r, detached_links()),
        arena_data(*final(arena)).dom() == arena_data(*old(arena)).dom().insert(r),
        arena_data(*final(arena))[r] == (false, seq![Layer::Prim(VOID_TAG)]),
        forall|k: WidgetId|
            k != r && arena_data(*old(arena)).contains_key(k) ==> arena_data(*final(arena))[k]
                == arena_data(*old(arena))[k],
{
    new_node(arena, Render::new(VOID_TAG))
}

pub open spec fn common_prefix_len(p: Seq<WidgetId>, q: Seq<WidgetId>, n: nat) -> bool {
    &&& n <= p.len() && n <= q.len()
    &&& forall|i: int| 0 <= i < n ==> p[i] == q[i]
    &&& (n == p.len() || n == q.len() || p[n as int] != q[n as int])
}

impl WidgetId {
    /// The render object of a live node.
    pub fn get(self, tree: &TreeArena) -> (r: Option<&Render>)
        ensures
            r.is_some() == is_live(*tree, self),
            r.is_some() ==> r.unwrap().layers@ == arena_data(*tree)[self].1,
    {
        match arena_get(tree, self) {
            Some(n) => Some(&n.render),
            None => None,
        }
    }

    pub fn get_node(self, tree: &TreeArena) -> (r: Option<&RenderNode>)
        ensures
            r.is_some() == is_live(*tree, self),
            r.is_some() ==> r.unwrap()@ == arena_data(*tree)[self],
    {
        arena_get(tree, self)
    }

    /// The render object of a node the caller knows to be live.
    pub fn assert_get(self, tree: &TreeArena) -> (r: &Render)
        requires
            is_live(*tree, self),
        ensures
            r.layers@ == arena_data(*tree)[self].1,
    {
        arena_get(tree, self).unwrap().render_ref()
    }

    /// Mark the node dropped without releasing it.
    pub fn mark_drop(self, tree: &mut TreeArena)
        ensures
            arena_links(*final(tree)) == arena_links(*old(tree)),
            arena_data(*final(tree)) == all_marked(arena_data(*old(tree)), seq![self]),
    {
        let copy = match arena_get(tree, self) {
            Some(n) => Some(copy_node(n)),
            None => None,
        };
        if let Some(mut n) = copy {
            n.dropped = true;
            arena_set(tree, self, n);
            proof {
                let d0 = arena_data(*old(tree));
                assert(arena_data(*tree) =~= all_marked(d0, seq![self])) by {
                    assert forall|k: WidgetId| #[trigger]
                        all_marked(d0, seq![self]).contains_key(k) implies arena_data(
                        *tree,
                    )[k] == all_marked(d0, seq![self])[k] by {
                        if k == self {
                            assert(seq![self].contains(k)) by {
                                assert(seq![self][0] == k);
                            }
                        } else {
                            assert(!seq![self].contains(k));
                        }
                    }
                }
            }
        } else {
            proof {
                let d0 = arena_data(*old(tree));
                assert(arena_data(*tree) =~= all_marked(d0, seq![self])) by {
                    assert forall|k: WidgetId| #[trigger]
                        all_marked(d0, seq![self]).contains_key(k) implies arena_data(
                        *tree,
                    )[k] == all_marked(d0, seq![self])[k] by {
                        assert(!seq![self].contains(k)) by {
                            if seq![self].contains(k) {
                                let j = choose|j: int| 0 <= j < 1 && seq![self][j] == k;
                                assert(seq![self][j] == self);
                            }
                        }
                    }
                }
            }
        }
    }

    /// Whether the node is dropped or not live.
    pub fn is_dropped(self, tree: &TreeArena) -> (r: bool)
        ensures
            r == dropped_spec(*tree, self),
    {
        match arena_get(tree, self) {
            Some(n) => n.dropped,
            None => true,
        }
    }

    pub fn parent(self, tree: &TreeArena) -> (r: Option<WidgetId>)
        ensures
            r == (if arena_links(*tree).contains_key(self) {
                arena_links(*tree)[self].parent
            } else {
                None
            }),
    {
        match arena_links_of(tree, self) {
            Some(l) => l.parent,
            None => None,
        }
    }

    pub fn first_child(self, tree: &TreeArena) -> (r: Option<WidgetId>)
        ensures
            r == (if arena_links(*tree).contains_key(self) {
                arena_links(*tree)[self].first_child
            } else {
                None
            }),
    {
        match arena_links_of(tree, self) {
            Some(l) => l.first_child,
            None => None,
        }
    }

    pub fn last_child(self, tree: &TreeArena) -> (r: Option<WidgetId>)
        ensures
            r == (if arena_links(*tree).contains_key(self) {
                arena_links(*tree)[self].last_child
            } else {
                None
            }),
    {
        match arena_links_of(tree, self) {
            Some(l) => l.last_child,
            None => None,
        }
    }

    pub fn next_sibling(self, tree: &TreeArena) -> (r: Option<WidgetId>)
        ensures
            r == (if arena_links(*tree).contains_key(self) {
                arena_links(*tree)[self].next_sibling
            } else {
                None
            }),
    {
        match arena_links_of(tree, self) {
            Some(l) => l.next_sibling,
            None => None,
        }
    }

    pub fn prev_sibling(self, tree: &TreeArena) -> (r: Option<WidgetId>)
        ensures
            r == (if arena_links(*tree).contains_key(self) {
                arena_links(*tree)[self].prev_sibling
            } else {
                None
            }),
    {
        self.previous_sibling(tree)
    }

    pub fn previous_sibling(self, tree: &TreeArena) -> (r: Option<WidgetId>)
        ensures
            r == (if arena_links(*tree).contains_key(self) {
                arena_links(*tree)[self].prev_sibling
            } else {
                None
            }),
    {
        match arena_links_of(tree, self) {
            Some(l) => l.prev_sibling,
            None => None,
        }
    }
}

impl RenderNode {
    pub fn render_ref(&self) -> (r: &Render)
        ensures
            *r == self.render,
    {
        &self.render
    }
}


impl WidgetId {
    pub fn ancestors(self, tree: &TreeArena) -> (r: Vec<WidgetId>)
        ensures
            !arena_links(*tree).contains_key(self) ==> r@.len() == 0,
            arena_links(*tree).contains_key(self) ==> r@.len() > 0 && r@[0] == self
                && arena_links(*tree)[r@.last()].parent.is_none(),
            forall|i: int| 0 <= i < r@.len() ==> #[trigger] arena_links(*tree).contains_key(r@[i]),
            forall|i: int|
                0 <= i < r@.len() - 1 ==> arena_links(*tree)[#[trigger] r@[i]].parent == Some(
                    r@[i + 1],
                ),
    {
        arena_ancestors(tree, self)
    }

    pub fn children(self, tree: &TreeArena) -> (r: Vec<WidgetId>)
        ensures
            r@ == crate::arena::children_of(arena_links(*tree), self),
            !arena_links(*tree).contains_key(self) ==> r@.len() == 0,
            arena_links(*tree).contains_key(self) ==> (r@.len() == 0 <==> arena_links(
                *tree,
            )[self].first_child.is_none()),
            r@.no_duplicates(),
            forall|i: int|
                0 <= i < r@.len() ==> #[trigger] arena_links(*tree).contains_key(r@[i])
                    && arena_links(*tree)[r@[i]].parent == Some(self) && arena_data(*tree).contains_key(
                    r@[i],
                ),
    {
        arena_children(tree, self)
    }

    pub fn descendants(self, tree: &TreeArena) -> (r: Vec<WidgetId>)
        ensures
            r@ == descendants_of(arena_links(*tree), self),
            crate::arena::desc_closed(arena_links(*tree), self, r@),
            arena_links(*tree).contains_key(self) ==> r@.len() > 0 && r@[0] == self,
            r@.no_duplicates(),
            forall|i: int|
                0 <= i < r@.len() ==> #[trigger] arena_links(*tree).contains_key(r@[i]) && arena_data(
                    *tree,
                ).contains_key(r@[i]),
    {
        arena_descendants(tree, self)
    }

    /// The ancestors shared by `self` and `other`, from the root down to the
    /// lowest one; none when either is dropped.
    pub fn common_ancestors(self, other: WidgetId, tree: &TreeArena) -> (r: Vec<WidgetId>)
        ensures
            (dropped_spec(*tree, self) || dropped_spec(*tree, other)) ==> r@.len() == 0,
            !dropped_spec(*tree, self) && !dropped_spec(*tree, other) ==> {
                let po = arena_ancestor_path(*tree, other);
                let ps = arena_ancestor_path(*tree, self);
                &&& common_prefix_len(po, ps, r@.len())
                &&& r@ == po.take(r@.len() as int)
            },
    {
        let mut r: Vec<WidgetId> = Vec::new();
        if self.is_dropped(tree) || other.is_dropped(tree) {
            return r;
        }
        let po = other.ancestors(tree);
        let ps = self.ancestors(tree);
        let ghost qo = po@.reverse();
        let ghost qs = ps@.reverse();
        proof {
            arena_ancestor_path_is(*tree, other, po@);
            arena_ancestor_path_is(*tree, self, ps@);
        }
        let mut i: usize = 0;
        while i < po.len() && i < ps.len() && po[po.len() - 1 - i] == ps[ps.len() - 1 - i]
            invariant
                i <= po@.len(),
                i <= ps@.len(),
                qo == po@.reverse(),
                qs == ps@.reverse(),
                forall|j: int| 0 <= j < i ==> qo[j] == qs[j],
                r@ == qo.take(i as int),
            decreases po@.len() - i,
        {
            r.push(po[po.len() - 1 - i]);
            i = i + 1;
            proof {
                assert(r@ =~= qo.take(i as int));
            }
        }
        r
    }

    /// The lowest ancestor shared by `self` and `other`.
    pub fn lowest_common_ancestor(self, other: WidgetId, tree: &TreeArena) -> (r: Option<WidgetId>)
        ensures
            (dropped_spec(*tree, self) || dropped_spec(*tree, other)) ==> r.is_none(),
            !dropped_spec(*tree, self) && !dropped_spec(*tree, other) ==> {
                let po = arena_ancestor_path(*tree, other);
                let ps = arena_ancestor_path(*tree, self);
                exists|n: nat|
                    #![trigger common_prefix_len(po, ps, n)]
                    common_prefix_len(po, ps, n) && r == (if n == 0 {
                        None::<WidgetId>
                    } else {
                        Some(po[n - 1])
                    })
            },
    {
        let c = self.common_ancestors(other, tree);
        if c.len() == 0 {
            None
        } else {
            Some(c[c.len() - 1])
        }
    }
}

/// The path from the root of the tree of `id` down to `id`.
pub open spec fn arena_ancestor_path(a: TreeArena, id: WidgetId) -> Seq<WidgetId> {
    choose_path(arena_links(a), id)
}

pub open spec fn choose_path(m: Map<WidgetId, Links>, id: WidgetId) -> Seq<WidgetId> {
    (choose|s: Seq<WidgetId>| is_ancestor_chain(m, id, s)).reverse()
}

pub proof fn lemma_chain_unique(m: Map<WidgetId, Links>, id: WidgetId, s: Seq<WidgetId>, t: Seq<WidgetId>)
    requires
        is_ancestor_chain(m, id, s),
        is_ancestor_chain(m, id, t),
    ensures
        s == t,
{
    if m.contains_key(id) {
        assert forall|i: int| 0 <= i < s.len() && i < t.len() implies s[i] == t[i] by {
            lemma_chain_prefix(m, id, s, t, i);
        }
        if s.len() < t.len() {
            let k = s.len() - 1;
            assert(s[k] == t[k]);
            assert(m[t[k]].parent == Some(t[k + 1]));
        } else if t.len() < s.len() {
            let k = t.len() - 1;
            assert(s[k] == t[k]);
            assert(m[s[k]].parent == Some(s[k + 1]));
        }
        assert(s =~= t);
    } else {
        assert(s =~= t);
    }
}

/// A node missing from the chain of `a` is on no chain of `a`: there is only
/// one.
pub proof fn lemma_not_on_chain(m: Map<WidgetId, Links>, a: WidgetId, c: Seq<WidgetId>, s: WidgetId)
    requires
        is_ancestor_chain(m, a, c),
        !c.contains(s),
    ensures
        !crate::arena::on_chain(m, a, s),
{
    if crate::arena::on_chain(m, a, s) {
        let d = choose|d: Seq<WidgetId>| #[trigger] is_ancestor_chain(m, a, d) && d.contains(s);
        lemma_chain_unique(m, a, c, d);
    }
}

proof fn lemma_chain_prefix(m: Map<WidgetId, Links>, id: WidgetId, s: Seq<WidgetId>, t: Seq<WidgetId>, i: int)
    requires
        m.contains_key(id),
        is_ancestor_chain(m, id, s),
        is_ancestor_chain(m, id, t),
        0 <= i < s.len(),
        i < t.len(),
    ensures
        s[i] == t[i],
    decreases i,
{
    if i > 0 {
        lemma_chain_prefix(m, id, s, t, i - 1);
        assert(m[s[i - 1]].parent == Some(s[i]));
        assert(m[t[i - 1]].parent == Some(t[i]));
    }
}

proof fn arena_ancestor_path_is(a: TreeArena, id: WidgetId, s: Seq<WidgetId>)
    requires
        is_ancestor_chain(arena_links(a), id, s),
    ensures
        arena_ancestor_path(a, id) == s.reverse(),
{
    let m = arena_links(a);
    let c = choose|t: Seq<WidgetId>| is_ancestor_chain(m, id, t);
    lemma_chain_unique(m, id, c, s);
}


/// The links after a link operation: its target on success, unchanged on
/// refusal; payloads are never touched.
pub open spec fn link_result(
    a0: TreeArena,
    a1: TreeArena,
    r: Result<(), LinkError>,
    target: Map<WidgetId, Links>,
) -> bool {
    &&& arena_data(a1) == arena_data(a0)
    &&& r is Ok ==> arena_links(a1) == target
    &&& r is Err ==> arena_links(a1) == arena_links(a0)
}

pub open spec fn refused_inputs(a: TreeArena, x: WidgetId, y: WidgetId) -> bool {
    x == y || !arena_links(a).contains_key(x) || !arena_links(a).contains_key(y)
}

/// Whether `id` has a layout box.
pub open spec fn has_box(boxes: Seq<WidgetId>, id: WidgetId) -> bool {
    boxes.contains(id)
}

/// The nodes among the first `n` of the pre-order walk `d` that are painted:
/// a node is painted when it has a layout box and it is the root of the walk
/// or its parent was painted.
pub open spec fn painted(
    m: Map<WidgetId, Links>,
    d: Seq<WidgetId>,
    boxes: Seq<WidgetId>,
    n: nat,
) -> Seq<WidgetId>
    decreases n,
{
    if n == 0 || n > d.len() {
        Seq::empty()
    } else {
        let before = painted(m, d, boxes, (n - 1) as nat);
        let x = d[n - 1];
        let parent_painted = m.contains_key(x) && m[x].parent.is_some() && before.contains(
            m[x].parent.unwrap(),
        );
        if has_box(boxes, x) && (n == 1 || parent_painted) {
            before.push(x)
        } else {
            before
        }
    }
}

fn contains_id(v: &Vec<WidgetId>, id: WidgetId) -> (r: bool)
    ensures
        r == v@.contains(id),
{
    let mut i: usize = 0;
    while i < v.len()
        invariant
            i <= v@.len(),
            forall|j: int| 0 <= j < i ==> v@[j] != id,
        decreases v@.len() - i,
    {
        if v[i] == id {
            return true;
        }
        i = i + 1;
    }
    false
}

impl WidgetId {
    pub fn insert_after(self, next: WidgetId, tree: &mut TreeArena) -> (r: Result<(), LinkError>)
        ensures
            link_result(*old(tree), *final(tree), r, inserted_after(arena_links(*old(tree)), self, next)),
            refused_inputs(*old(tree), self, next) ==> r is Err,
            r is Err ==> refused_inputs(*old(tree), self, next) || crate::arena::on_chain(
                arena_links(*old(tree)),
                self,
                next,
            ),
    {
        match arena_insert_after(tree, self, next) {
            Ok(()) => Ok(()),
            Err(_) => Err(LinkError::Refused),
        }
    }

    pub fn insert_before(self, before: WidgetId, tree: &mut TreeArena) -> (r: Result<(), LinkError>)
        ensures
            link_result(*old(tree), *final(tree), r, inserted_before(arena_links(*old(tree)), self, before)),
            refused_inputs(*old(tree), self, before) ==> r is Err,
            r is Err ==> refused_inputs(*old(tree), self, before) || crate::arena::on_chain(
                arena_links(*old(tree)),
                self,
                before,
            ),
    {
        match arena_insert_before(tree, self, before) {
            Ok(()) => Ok(()),
            Err(_) => Err(LinkError::Refused),
        }
    }

    pub fn append(self, child: WidgetId, tree: &mut TreeArena) -> (r: Result<(), LinkError>)
        ensures
            link_result(*old(tree), *final(tree), r, appended(arena_links(*old(tree)), self, child)),
            refused_inputs(*old(tree), self, child) ==> r is Err,
            r is Err ==> refused_inputs(*old(tree), self, child) || crate::arena::on_chain(
                arena_links(*old(tree)),
                self,
                child,
            ),
            r is Ok && arena_links(*old(tree))[child].parent != Some(self) ==> crate::arena::children_of(
                arena_links(*final(tree)),
                self,
            ) == crate::arena::children_of(arena_links(*old(tree)), self).push(child),
            r is Ok && arena_links(*old(tree))[child].parent.is_some() && arena_links(
                *old(tree),
            )[child].parent != Some(self) ==> crate::arena::children_of(
                arena_links(*final(tree)),
                arena_links(*old(tree))[child].parent.unwrap(),
            ) == crate::arena::children_of(
                arena_links(*old(tree)),
                arena_links(*old(tree))[child].parent.unwrap(),
            ).remove_value(child),
    {
        match arena_append(tree, self, child) {
            Ok(()) => Ok(()),
            Err(_) => Err(LinkError::Refused),
        }
    }

    /// The only child of a node that has at most one.
    pub fn single_child(&self, tree: &TreeArena) -> (r: Option<WidgetId>)
        requires
            !arena_links(*tree).contains_key(*self) || arena_links(*tree)[*self].first_child
                == arena_links(*tree)[*self].last_child,
        ensures
            r == (if arena_links(*tree).contains_key(*self) {
                arena_links(*tree)[*self].first_child
            } else {
                None
            }),
    {
        self.first_child(tree)
    }

    /// Unlink the node from its parent and mark it and its whole subtree
    /// dropped; returns the disposed subtree in pre-order. A node that is
    /// already dropped is left as it is.
    pub fn dispose_subtree(self, tree: &mut TreeArena) -> (r: Vec<WidgetId>)
        ensures
            disposed(*old(tree), *final(tree), self, r@),
    {
        if self.is_dropped(tree) {
            return Vec::new();
        }
        let ids = self.descendants(tree);
        let ghost d0 = arena_data(*tree);
        let ghost l0 = arena_links(*tree);
        self.mark_drop(tree);
        proof {
            assert(seq![self] =~= seq![self] + ids@.take(0));
        }
        let mut i: usize = 0;
        while i < ids.len()
            invariant
                i <= ids@.len(),
                arena_links(*tree) == l0,
                arena_data(*tree) == all_marked(d0, seq![self] + ids@.take(i as int)),
            decreases ids@.len() - i,
        {
            ids[i].mark_drop(tree);
            proof {
                lemma_mark_more(d0, seq![self] + ids@.take(i as int), ids@[i as int]);
                assert(seq![self] + ids@.take(i + 1) =~= (seq![self] + ids@.take(i as int)).push(
                    ids@[i as int],
                ));
            }
            i = i + 1;
        }
        proof {
            assert(ids@.take(i as int) =~= ids@);
        }
        arena_detach(tree, self);
        ids
    }

    /// The nodes of the subtree that receive the mounted hook, in pre-order.
    pub fn on_mounted_subtree(self, tree: &TreeArena) -> (r: Vec<WidgetId>)
        ensures
            r@ == descendants_of(arena_links(*tree), self),
    {
        self.descendants(tree)
    }

    /// The paint order of the subtree: pre-order, where a node is painted when
    /// it has a layout box and its parent was painted, and nothing is painted
    /// while the painter is fully transparent.
    pub fn paint_subtree(self, tree: &TreeArena, boxes: &Vec<WidgetId>, alpha_visible: bool) -> (r:
        Vec<WidgetId>)
        ensures
            !alpha_visible ==> r@.len() == 0,
            alpha_visible ==> {
                let d = descendants_of(arena_links(*tree), self);
                r@ == painted(arena_links(*tree), d, boxes@, d.len())
            },
    {
        let mut r: Vec<WidgetId> = Vec::new();
        if !alpha_visible {
            return r;
        }
        let d = self.descendants(tree);
        let mut i: usize = 0;
        while i < d.len()
            invariant
                i <= d@.len(),
                d@ == descendants_of(arena_links(*tree), self),
                r@ == painted(arena_links(*tree), d@, boxes@, i as nat),
            decreases d@.len() - i,
        {
            let x = d[i];
            let boxed = contains_id(boxes, x);
            let parent_painted = match x.parent(tree) {
                Some(p) => contains_id(&r, p),
                None => false,
            };
            if boxed && (i == 0 || parent_painted) {
                r.push(x);
            }
            i = i + 1;
        }
        r
    }
}


/// The effect of `dispose_subtree` on an arena, given the ids it returned.
pub open spec fn disposed(a0: TreeArena, a1: TreeArena, id: WidgetId, r: Seq<WidgetId>) -> bool {
    if dropped_spec(a0, id) {
        a1 == a0 && r.len() == 0
    } else {
        &&& r == descendants_of(arena_links(a0), id)
        &&& crate::arena::desc_closed(arena_links(a0), id, r)
        &&& arena_data(a1) == all_marked(arena_data(a0), seq![id] + r)
        &&& arena_links(a1) == (if arena_links(a0).contains_key(id) {
            detached(arena_links(a0), id)
        } else {
            arena_links(a0)
        })
    }
}

pub proof fn lemma_mark_more(d: Map<WidgetId, (bool, Seq<Layer>)>, s: Seq<WidgetId>, x: WidgetId)
    ensures
        all_marked(all_marked(d, s), seq![x]) == all_marked(d, s.push(x)),
{
    let l = all_marked(all_marked(d, s), seq![x]);
    let r = all_marked(d, s.push(x));
    assert forall|k: WidgetId| #[trigger] r.contains_key(k) implies l[k] == r[k] by {
        assert(seq![x].contains(k) == (k == x)) by {
            if seq![x].contains(k) {
                let j = choose|j: int| 0 <= j < 1 && seq![x][j] == k;
                assert(seq![x][j] == x);
            }
            if k == x {
                assert(seq![x][0] == k);
            }
        }
        assert(s.push(x).contains(k) == (s.contains(k) || k == x)) by {
            if s.push(x).contains(k) {
                let j = choose|j: int| 0 <= j < s.len() + 1 && s.push(x)[j] == k;
                if j < s.len() {
                    assert(s[j] == k);
                }
            }
            if s.contains(k) {
                let j = choose|j: int| 0 <= j < s.len() && s[j] == k;
                assert(s.push(x)[j] == k);
            }
            if k == x {
                assert(s.push(x)[s.len() as int] == k);
            }
        }
    }
    assert(l =~= r);
}

/// Disposing a subtree a second time is a no-op: the arena is left unchanged
/// and nothing is reported disposed again.
pub proof fn lemma_dispose_twice(
    a0: TreeArena,
    a1: TreeArena,
    a2: TreeArena,
    id: WidgetId,
    r1: Seq<WidgetId>,
    r2: Seq<WidgetId>,
)
    requires
        disposed(a0, a1, id, r1),
        disposed(a1, a2, id, r2),
    ensures
        a2 == a1,
        r2.len() == 0,
{
    if !dropped_spec(a0, id) {
        assert((seq![id] + r1)[0] == id);
        assert((seq![id] + r1).contains(id));
    }
    assert(dropped_spec(a1, id));
}


/// The ids that `ancestors` returns are the ancestor path, read upwards.
pub proof fn lemma_ancestors_path(a: TreeArena, id: WidgetId, s: Seq<WidgetId>)
    requires
        !arena_links(a).contains_key(id) ==> s.len() == 0,
        arena_links(a).contains_key(id) ==> s.len() > 0 && s[0] == id && arena_links(a)[s.last()].parent.is_none(),
        forall|i: int| 0 <= i < s.len() ==> #[trigger] arena_links(a).contains_key(s[i]),
        forall|i: int| 0 <= i < s.len() - 1 ==> arena_links(a)[#[trigger] s[i]].parent == Some(s[i + 1]),
    ensures
        s == arena_ancestor_path(a, id).reverse(),
{
    arena_ancestor_path_is(a, id, s);
    assert(s.reverse().reverse() =~= s);
}


impl WidgetId {
    /// Attach `data` to a live node as its new outermost layer.
    pub fn attach_data(self, data: Layer, tree: &mut TreeArena)
        ensures
            arena_links(*final(tree)) == arena_links(*old(tree)),
            arena_data(*final(tree)) == (if arena_data(*old(tree)).contains_key(self) {
                arena_data(*old(tree)).insert(
                    self,
                    (arena_data(*old(tree))[self].0, arena_data(*old(tree))[self].1.push(data)),
                )
            } else {
                arena_data(*old(tree))
            }),
    {
        let copy = match arena_get(tree, self) {
            Some(n) => Some(copy_node(n)),
            None => None,
        };
        if let Some(mut n) = copy {
            n.render.wrap(data);
            arena_set(tree, self, n);
        }
    }
}


/// Linking neighbours never changes a parent link, and keeps every node.
pub proof fn lemma_connected_parents(
    m: Map<WidgetId, Links>,
    parent: Option<WidgetId>,
    prev: Option<WidgetId>,
    next: Option<WidgetId>,
)
    ensures
        forall|x: WidgetId|
            #[trigger] m.contains_key(x) ==> crate::arena::connected(m, parent, prev, next).contains_key(x)
                && crate::arena::connected(m, parent, prev, next)[x].parent == m[x].parent,
{
}

/// Appending `c` changes the parent link of `c` alone, and keeps every node.
pub proof fn lemma_appended_parents(m: Map<WidgetId, Links>, p: WidgetId, c: WidgetId)
    ensures
        appended(m, p, c).contains_key(c),
        appended(m, p, c)[c].parent == Some(p),
        forall|x: WidgetId|
            #[trigger] m.contains_key(x) && x != c ==> appended(m, p, c).contains_key(x) && appended(
                m,
                p,
                c,
            )[x].parent == m[x].parent,
{
    let l = m[c];
    let m0 = m.insert(c, Links { prev_sibling: None, next_sibling: None, ..l });
    lemma_connected_parents(m0, l.parent, l.prev_sibling, l.next_sibling);
    let m1 = crate::arena::connected(m0, l.parent, l.prev_sibling, l.next_sibling);
    let d = detached(m, c);
    let m2 = d.insert(c, Links { parent: Some(p), ..d[c] });
    lemma_connected_parents(m2, Some(p), d[p].last_child, Some(c));
    let m3 = crate::arena::connected(m2, Some(p), d[p].last_child, Some(c));
    lemma_connected_parents(m3, Some(p), Some(c), None);
}

/// Unlinking `s` changes the parent link of `s` alone, and keeps every node.
pub proof fn lemma_detached_parents(m: Map<WidgetId, Links>, s: WidgetId)
    ensures
        forall|x: WidgetId|
            #[trigger] m.contains_key(x) && x != s ==> detached(m, s).contains_key(x) && detached(m, s)[x].parent
                == m[x].parent,
{
    let l = m[s];
    let m0 = m.insert(s, Links { prev_sibling: None, next_sibling: None, ..l });
    lemma_connected_parents(m0, l.parent, l.prev_sibling, l.next_sibling);
}

/// Inserting `s` next to a sibling changes the parent link of `s` alone, and
/// keeps every node.
pub proof fn lemma_inserted_after_parents(m: Map<WidgetId, Links>, a: WidgetId, s: WidgetId)
    ensures
        forall|x: WidgetId|
            #[trigger] m.contains_key(x) && x != s ==> inserted_after(m, a, s).contains_key(x)
                && inserted_after(m, a, s)[x].parent == m[x].parent,
{
    let l = m[s];
    let m0 = m.insert(s, Links { prev_sibling: None, next_sibling: None, ..l });
    lemma_connected_parents(m0, l.parent, l.prev_sibling, l.next_sibling);
    let d = detached(m, s);
    let m2 = d.insert(s, Links { parent: d[a].parent, ..d[s] });
    lemma_connected_parents(m2, d[a].parent, Some(a), Some(s));
    let m3 = crate::arena::connected(m2, d[a].parent, Some(a), Some(s));
    lemma_connected_parents(m3, d[a].parent, Some(s), d[a].next_sibling);
}

/// A chain that avoids the one node whose parent link changed stays a chain.
pub proof fn lemma_chain_kept(
    m: Map<WidgetId, Links>,
    m2: Map<WidgetId, Links>,
    a: WidgetId,
    ch: Seq<WidgetId>,
    c: WidgetId,
)
    requires
        is_ancestor_chain(m, a, ch),
        m.contains_key(a),
        !ch.contains(c),
        forall|x: WidgetId|
            #[trigger] m.contains_key(x) && x != c ==> m2.contains_key(x) && m2[x].parent == m[x].parent,
    ensures
        is_ancestor_chain(m2, a, ch),
{
    assert forall|i: int| 0 <= i < ch.len() implies #[trigger] m2.contains_key(ch[i]) && ch[i] != c by {
        assert(m.contains_key(ch[i]));
    }
    assert(ch[ch.len() - 1] != c);
    assert forall|i: int| 0 <= i < ch.len() - 1 implies m2[#[trigger] ch[i]].parent == Some(ch[i + 1]) by {
        assert(m.contains_key(ch[i]));
        assert(ch[i] != c);
    }
}

/// Removing the first element of a sequence without repeats drops it.
pub proof fn lemma_remove_first<A>(s: Seq<A>)
    requires
        s.len() > 0,
    ensures
        s.remove_value(s[0]) == s.drop_first(),
{
    s.index_of_first_ensures(s[0]);
    assert(s.remove(0) =~= s.drop_first());
}


proof fn lemma_walk_avoids_chain_at(l: Map<WidgetId, Links>, o: WidgetId, d: Seq<WidgetId>, x: WidgetId, ch: Seq<WidgetId>, k: int)
    requires
        crate::arena::desc_closed(l, o, d),
        is_ancestor_chain(l, x, ch),
        l.contains_key(x),
        !ch.contains(o),
        0 <= k < ch.len(),
    ensures
        !d.contains(ch[k]),
    decreases ch.len() - k,
{
    if k + 1 < ch.len() {
        lemma_walk_avoids_chain_at(l, o, d, x, ch, k + 1);
    }
    if d.contains(ch[k]) {
        let i = choose|i: int| 0 <= i < d.len() && d[i] == ch[k];
        if i == 0 {
            assert(l.contains_key(o));
            assert(ch.contains(o)) by {
                assert(ch[k] == o);
            }
        } else {
            assert(l[d[i]].parent.is_some());
            if k + 1 < ch.len() {
                assert(l[ch[k]].parent == Some(ch[k + 1]));
            }
        }
    }
}

/// A node whose chain to the root avoids `o` is not in the subtree walk of
/// `o`.
pub proof fn lemma_walk_avoids_chain(l: Map<WidgetId, Links>, o: WidgetId, d: Seq<WidgetId>, x: WidgetId, ch: Seq<WidgetId>)
    requires
        crate::arena::desc_closed(l, o, d),
        is_ancestor_chain(l, x, ch),
        l.contains_key(x),
        !ch.contains(o),
    ensures
        !d.contains(x),
{
    lemma_walk_avoids_chain_at(l, o, d, x, ch, 0);
}

proof fn lemma_chain_shift(l: Map<WidgetId, Links>, a: WidgetId, ch: Seq<WidgetId>, i: int, j: int, t: int)
    requires
        is_ancestor_chain(l, a, ch),
        l.contains_key(a),
        0 <= i < j < ch.len(),
        ch[i] == ch[j],
        0 <= t < ch.len() - j,
    ensures
        ch[i + t] == ch[j + t],
    decreases t,
{
    if t > 0 {
        lemma_chain_shift(l, a, ch, i, j, t - 1);
        assert(l[ch[i + t - 1]].parent == Some(ch[i + t]));
        assert(l[ch[j + t - 1]].parent == Some(ch[j + t]));
    }
}

/// A chain to the root never repeats a node.
pub proof fn lemma_chain_no_dup(l: Map<WidgetId, Links>, a: WidgetId, ch: Seq<WidgetId>)
    requires
        is_ancestor_chain(l, a, ch),
        l.contains_key(a),
    ensures
        ch.no_duplicates(),
{
    assert forall|i: int, j: int| 0 <= i < j < ch.len() implies ch[i] != ch[j] by {
        if ch[i] == ch[j] {
            let t = ch.len() - 1 - j;
            lemma_chain_shift(l, a, ch, i, j, t);
            assert(l[ch[i + t]].parent == Some(ch[i + t + 1]));
        }
    }
}

/// The chain of `x` that reaches the root `r`, followed by the chain of the
/// node that `r` now hangs below.
pub proof fn lemma_chain_join(l: Map<WidgetId, Links>, x: WidgetId, c1: Seq<WidgetId>, c2: Seq<WidgetId>)
    requires
        l.contains_key(x),
        c1.len() > 0,
        c1[0] == x,
        forall|i: int| 0 <= i < c1.len() ==> #[trigger] l.contains_key(c1[i]),
        forall|i: int| 0 <= i < c1.len() - 1 ==> l[#[trigger] c1[i]].parent == Some(c1[i + 1]),
        c2.len() > 0,
        l.contains_key(c2[0]),
        l[c1.last()].parent == Some(c2[0]),
        is_ancestor_chain(l, c2[0], c2),
    ensures
        is_ancestor_chain(l, x, c1 + c2),
{
    let c = c1 + c2;
    assert forall|i: int| 0 <= i < c.len() implies #[trigger] l.contains_key(c[i]) by {
        if i >= c1.len() {
            assert(c[i] == c2[i - c1.len()]);
        }
    }
    assert forall|i: int| 0 <= i < c.len() - 1 implies l[#[trigger] c[i]].parent == Some(c[i + 1]) by {
        if i < c1.len() - 1 {
        } else if i == c1.len() - 1 {
            assert(c[i + 1] == c2[0]);
        } else {
            assert(c[i] == c2[i - c1.len()]);
            assert(c[i + 1] == c2[i - c1.len() + 1]);
        }
    }
    assert(c.last() == c2.last());
}

} // verus!
