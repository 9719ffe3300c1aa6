//! The regeneration protocol of one pipe: coalescing change notifications,
//! sampling them once per frame, and splicing the rebuilt subtree in place of
//! the live one.
use crate::arena::{arena_data, arena_links, children_of, descendants_of, Links, TreeArena, WidgetId};
use crate::key::{applied, update_key_state_multi, update_key_status_single};
use crate::query::Layer;
use crate::tree::{in_another_regenerating, indices, marked_range, pinned_in, prefix_until, WidgetTree};
use crate::widget_id::{all_marked, copy_node, disposed, dropped_spec};
use vstd::prelude::*;

verus! {

/// Which parts of the world a change touches.
#[derive(Clone, Copy, Debug, PartialEq, Eq, Structural)]
pub struct ModifyScope {
    pub bits: u8,
}

/// Changes that need the tree structure regenerated.
pub const FRAMEWORK: u8 = 1;

/// Changes of data only.
pub const DATA: u8 = 2;

impl ModifyScope {
    pub open spec fn has_framework(self) -> bool {
        self.bits & FRAMEWORK != 0
    }

    pub fn framework() -> (r: ModifyScope)
        ensures
            r.has_framework(),
    {
        let r = ModifyScope { bits: FRAMEWORK };
        assert(FRAMEWORK & FRAMEWORK != 0u8) by (bit_vector);
        r
    }

    pub fn data() -> (r: ModifyScope)
        ensures
            !r.has_framework(),
    {
        let r = ModifyScope { bits: DATA };
        assert(DATA & FRAMEWORK == 0u8) by (bit_vector);
        r
    }

    pub fn both() -> (r: ModifyScope)
        ensures
            r.has_framework(),
    {
        let r = ModifyScope { bits: FRAMEWORK | DATA };
        assert((FRAMEWORK | DATA) & FRAMEWORK != 0u8) by (bit_vector);
        r
    }

    pub fn contains_framework(&self) -> (r: bool)
        ensures
            r == self.has_framework(),
    {
        self.bits & FRAMEWORK != 0
    }
}

/// The buffered value after one notification: a framework-scoped change
/// replaces it, any other change leaves it.
pub open spec fn coalesce<V>(pending: Option<V>, scope: ModifyScope, v: V) -> Option<V> {
    if scope.has_framework() {
        Some(v)
    } else {
        pending
    }
}

/// The buffered value after a sequence of notifications.
pub open spec fn coalesce_all<V>(pending: Option<V>, evs: Seq<(ModifyScope, V)>) -> Option<V>
    decreases evs.len(),
{
    if evs.len() == 0 {
        pending
    } else {
        coalesce(coalesce_all(pending, evs.drop_last()), evs.last().0, evs.last().1)
    }
}

/// The regeneration record of a pipe: the ids of its live result, the value
/// buffered for the next frame, and how many inner layers of the stable slot
/// the pipe owns.
pub struct PipeRecord<V> {
    pub live: Vec<WidgetId>,
    /// The last end of the range marked for a pipe that decides a parent.
    pub range_end: Option<WidgetId>,
    pub pending: Option<V>,
    pub inner_len: usize,
}

/// The ids a notification marks regenerating.
pub open spec fn record_marks<V>(a: TreeArena, r: PipeRecord<V>) -> Set<usize> {
    if r.live@.len() == 0 {
        Set::empty()
    } else if r.live@.len() == 1 {
        indices(marked_range(a, r.live@[0], r.range_end))
    } else {
        indices(r.live@)
    }
}

impl<V> PipeRecord<V> {
    /// Capture the stable slot at `live[0]`: the layers it holds now are the
    /// pipe's own; anything attached later stays with the slot.
    pub fn share_capture(live: Vec<WidgetId>, range_end: Option<WidgetId>, tree: &WidgetTree) -> (r:
        PipeRecord<V>)
        requires
            live@.len() > 0,
        ensures
            r.live == live,
            r.range_end == range_end,
            r.pending.is_none(),
            arena_data(tree.arena).contains_key(live@[0]) ==> r.inner_len
                == arena_data(tree.arena)[live@[0]].1.len(),
    {
        let inner_len = match live[0].get(&tree.arena) {
            Some(render) => render.layers.len(),
            None => 0,
        };
        PipeRecord { live, range_end, pending: None, inner_len }
    }

    /// A change notification: a framework-scoped one marks the live ids
    /// regenerating at once and becomes the buffered value; any other is
    /// ignored.
    pub fn on_modify(&mut self, scope: ModifyScope, v: V, tree: &mut WidgetTree)
        ensures
            final(self).pending == coalesce(old(self).pending, scope, v),
            final(self).live == old(self).live,
            final(self).range_end == old(self).range_end,
            final(self).inner_len == old(self).inner_len,
            final(tree).arena == old(tree).arena,
            final(tree).dirty_set == old(tree).dirty_set,
            final(tree).deferred_clears == old(tree).deferred_clears,
            scope.has_framework() ==> final(tree).regenerating@ == old(tree).regenerating@.union(
                record_marks(old(tree).arena, *old(self)),
            ),
            !scope.has_framework() ==> final(tree).regenerating == old(tree).regenerating,
            final(tree).delay_drops == old(tree).delay_drops,
    {
        if scope.contains_framework() {
            if self.live.len() == 1 {
                tree.mark_widgets_regenerating(self.live[0], self.range_end);
            } else {
                let ghost a = tree.arena;
                let ghost m0 = tree.regenerating@;
                let mut i: usize = 0;
                while i < self.live.len()
                    invariant
                        i <= self.live@.len(),
                        tree.arena == a,
                        tree.dirty_set == old(tree).dirty_set,
                        tree.deferred_clears == old(tree).deferred_clears,
                        tree.delay_drops == old(tree).delay_drops,
                        tree.regenerating@ == m0.union(indices(self.live@.take(i as int))),
                    decreases self.live@.len() - i,
                {
                    tree.mark_widgets_regenerating(self.live[i], None);
                    proof {
                        assert(self.live@.take(i + 1) =~= self.live@.take(i as int) + seq![
                            self.live@[i as int],
                        ]);
                        crate::tree::lemma_indices_push(self.live@.take(i as int), self.live@[i as int]);
                        assert(indices(seq![self.live@[i as int]]) =~= set![self.live@[i as int].0]) by {
                            assert(seq![self.live@[i as int]][0].0 == self.live@[i as int].0);
                        }
                        assert(tree.regenerating@ =~= m0.union(indices(self.live@.take(i + 1))));
                    }
                    i = i + 1;
                }
                proof {
                    assert(self.live@.take(i as int) =~= self.live@);
                    if self.live@.len() == 0 {
                        assert(indices(self.live@) =~= Set::<usize>::empty());
                    }
                    assert(tree.regenerating@ =~= old(tree).regenerating@.union(
                        record_marks(old(tree).arena, *old(self)),
                    ));
                }
            }
            self.pending = Some(v);
        }
    }

    /// The frame boundary: the buffered value, if any, is taken; the marks of
    /// the live ids are scheduled for clearing; the value is handed out for
    /// a rebuild unless the live root is already disposed, or an ancestor is
    /// being regenerated, whose rebuild replaces this subtree anyway.
    pub fn on_new_frame(&mut self, tree: &mut WidgetTree) -> (r: Option<V>)
        ensures
            final(self).pending.is_none(),
            final(self).live == old(self).live,
            final(self).range_end == old(self).range_end,
            final(self).inner_len == old(self).inner_len,
            final(tree).arena == old(tree).arena,
            final(tree).dirty_set == old(tree).dirty_set,
            final(tree).regenerating == old(tree).regenerating,
            old(self).pending.is_none() ==> r.is_none() && final(tree).deferred_clears
                == old(tree).deferred_clears,
            old(self).pending.is_some() ==> {
                &&& final(tree).deferred_clears@ == old(tree).deferred_clears@ + old(self).live@
                &&& r == (if old(self).live@.len() > 0 && !dropped_spec(old(tree).arena, old(self).live@[0])
                    && !in_another_regenerating(
                    old(tree).arena,
                    old(tree).regenerating@,
                    old(self).live@[0],
                ) {
                    old(self).pending
                } else {
                    None
                })
            },
            final(tree).delay_drops == old(tree).delay_drops,
    {
        let mut taken: Option<V> = None;
        std::mem::swap(&mut taken, &mut self.pending);
        match taken {
            None => None,
            Some(v) => {
                let mut i: usize = 0;
                while i < self.live.len()
                    invariant
                        i <= self.live@.len(),
                        tree.arena == old(tree).arena,
                        tree.dirty_set == old(tree).dirty_set,
                        tree.regenerating == old(tree).regenerating,
                        tree.delay_drops == old(tree).delay_drops,
                        tree.deferred_clears@ == old(tree).deferred_clears@ + self.live@.take(
                            i as int,
                        ),
                    decreases self.live@.len() - i,
                {
                    tree.defer_remove_regenerating_mark(self.live[i]);
                    proof {
                        assert(self.live@.take(i + 1) =~= self.live@.take(i as int).push(
                            self.live@[i as int],
                        ));
                        assert(old(tree).deferred_clears@ + self.live@.take(i + 1) =~= (old(
                            tree,
                        ).deferred_clears@ + self.live@.take(i as int)).push(self.live@[i as int]));
                    }
                    i = i + 1;
                }
                proof {
                    assert(self.live@.take(i as int) =~= self.live@);
                }
                if self.live.len() > 0 && !self.live[0].is_dropped(&tree.arena)
                    && !tree.is_in_another_regenerating(self.live[0]) {
                    Some(v)
                } else {
                    None
                }
            },
        }
    }
}


/// The payloads after moving the stable slot from `from` to `to`: `to` keeps
/// its own layers and receives the layers of `from` beyond the first
/// `inner`; `from` keeps only those first `inner` layers.
pub open spec fn transplanted(
    d: Map<WidgetId, (bool, Seq<Layer>)>,
    from: WidgetId,
    to: WidgetId,
    inner: nat,
) -> Map<WidgetId, (bool, Seq<Layer>)> {
    d.insert(to, (d[to].0, d[to].1 + d[from].1.skip(inner as int))).insert(
        from,
        (d[from].0, d[from].1.take(inner as int)),
    )
}

/// The value handed out at a frame boundary: the buffered one, unless the
/// rebuild is suppressed.
pub open spec fn sampled<V>(pending: Option<V>, suppressed: bool) -> Option<V> {
    if pending.is_some() && !suppressed {
        pending
    } else {
        None
    }
}

/// Debounce: any run of N >= 1 framework-scoped notifications within one
/// frame leaves exactly the last value buffered, so the frame boundary hands
/// out that one value for one rebuild, and the following boundary, with no
/// notification in between, hands out none.
pub proof fn lemma_debounce<V>(evs: Seq<(ModifyScope, V)>)
    requires
        evs.len() >= 1,
        forall|i: int| 0 <= i < evs.len() ==> (#[trigger] evs[i]).0.has_framework(),
    ensures
        coalesce_all(None, evs) == Some(evs.last().1),
        sampled(coalesce_all(None, evs), false) == Some(evs.last().1),
        sampled(None::<V>, false) is None,
{
    assert(evs[evs.len() - 1].0.has_framework());
}

/// Re-entrancy suppression: when the first live id of a pipe has a strict
/// ancestor that another pipe marked regenerating in the same frame, the
/// pipe's frame boundary hands out no value, so its rebuild does not run.
pub proof fn lemma_nested_skipped<V>(
    a: TreeArena,
    marks: Set<usize>,
    ancestor: WidgetId,
    nested: WidgetId,
    pending: Option<V>,
)
    requires
        marks.contains(ancestor.0),
        exists|i: int|
            0 <= i < crate::widget_id::arena_ancestor_path(a, nested).len() - 1
                && #[trigger] crate::widget_id::arena_ancestor_path(a, nested)[i] == ancestor,
    ensures
        in_another_regenerating(a, marks, nested),
        sampled(pending, in_another_regenerating(a, marks, nested)) is None,
{
    let p = crate::widget_id::arena_ancestor_path(a, nested);
    let i = choose|i: int| 0 <= i < p.len() - 1 && #[trigger] p[i] == ancestor;
    assert(marks.contains(p[i].0));
}

/// A framework-scoped notification of a pipe with a single live id and no
/// range marks that id.
pub proof fn lemma_notification_marks_live<V>(a: TreeArena, r: PipeRecord<V>)
    requires
        r.live@.len() >= 1,
        r.live@.len() > 1 || r.range_end.is_none(),
    ensures
        record_marks(a, r).contains(r.live@[0].0),
{
    if r.live@.len() == 1 {
        assert(seq![r.live@[0]][0].0 == r.live@[0].0);
    } else {
        assert(r.live@[0].0 == r.live@[0].0);
    }
}

/// Moving the stable slot keeps what was attached to it, in the same order,
/// above the pipe's own layers at the new position.
pub proof fn lemma_stable_slot_kept(
    d: Map<WidgetId, (bool, Seq<Layer>)>,
    from: WidgetId,
    to: WidgetId,
    inner: nat,
)
    requires
        from != to,
        inner <= d[from].1.len(),
    ensures
        transplanted(d, from, to, inner)[to].1.skip(d[to].1.len() as int) == d[from].1.skip(
            inner as int,
        ),
        transplanted(d, from, to, inner)[to].1.take(d[to].1.len() as int) == d[to].1,
{
    let t = transplanted(d, from, to, inner)[to].1;
    assert(t.skip(d[to].1.len() as int) =~= d[from].1.skip(inner as int));
    assert(t.take(d[to].1.len() as int) =~= d[to].1);
}

fn concat_layers(a: &Vec<Layer>, b: &Vec<Layer>, from: usize) -> (r: Vec<Layer>)
    requires
        from <= b@.len(),
    ensures
        r@ == a@ + b@.skip(from as int),
{
    let mut r: Vec<Layer> = Vec::new();
    let mut i: usize = 0;
    while i < a.len()
        invariant
            i <= a@.len(),
            r@ == a@.take(i as int),
        decreases a@.len() - i,
    {
        r.push(a[i]);
        i = i + 1;
        proof {
            assert(r@ =~= a@.take(i as int));
        }
    }
    let mut j: usize = from;
    while j < b.len()
        invariant
            from <= j <= b@.len(),
            r@ == a@ + b@.subrange(from as int, j as int),
        decreases b@.len() - j,
    {
        r.push(b[j]);
        j = j + 1;
        proof {
            assert(r@ =~= a@ + b@.subrange(from as int, j as int));
        }
    }
    proof {
        assert(a@.take(a@.len() as int) =~= a@);
        assert(b@.subrange(from as int, b@.len() as int) =~= b@.skip(from as int));
    }
    r
}

impl<V> PipeRecord<V> {
    /// Move the stable slot from `from` to `to`.
    pub fn transplant_to(&mut self, from: WidgetId, to: WidgetId, tree: &mut TreeArena)
        requires
            from != to,
            arena_data(*old(tree)).contains_key(from),
            arena_data(*old(tree)).contains_key(to),
            old(self).inner_len <= arena_data(*old(tree))[from].1.len(),
        ensures
            arena_links(*final(tree)) == arena_links(*old(tree)),
            arena_data(*final(tree)) == transplanted(
                arena_data(*old(tree)),
                from,
                to,
                old(self).inner_len as nat,
            ),
            final(self).inner_len == arena_data(*old(tree))[to].1.len(),
            final(self).live == old(self).live,
            final(self).range_end == old(self).range_end,
            final(self).pending == old(self).pending,
    {
        let f = copy_node(from.get_node(tree).unwrap());
        let t = copy_node(to.get_node(tree).unwrap());
        let ghost d0 = arena_data(*tree);
        let to_layers = concat_layers(&t.render.layers, &f.render.layers, self.inner_len);
        let empty: Vec<Layer> = Vec::new();
        let from_layers = concat_layers(&f.render.layers, &empty, 0);
        let mut from_layers = from_layers;
        from_layers.truncate(self.inner_len);
        let new_len = t.render.layers.len();
        crate::arena::arena_set(
            tree,
            to,
            crate::arena::RenderNode {
                dropped: t.dropped,
                render: crate::query::Render { layers: to_layers },
            },
        );
        crate::arena::arena_set(
            tree,
            from,
            crate::arena::RenderNode {
                dropped: f.dropped,
                render: crate::query::Render { layers: from_layers },
            },
        );
        proof {
            assert(f.render.layers@ + empty@.skip(0) =~= f.render.layers@);
            assert(arena_data(*tree) =~= transplanted(d0, from, to, self.inner_len as nat));
        }
        self.inner_len = new_len;
    }
}


/// What a splice did: the nodes to receive the mounted hook, the nodes
/// disposed, and the key links recorded.
pub struct SpliceReport {
    pub mounted: Vec<WidgetId>,
    pub disposed: Vec<WidgetId>,
    pub key_links: Vec<(WidgetId, WidgetId)>,
}

pub open spec fn splice_ready<V>(t: WidgetTree, r: PipeRecord<V>, new: WidgetId) -> bool {
    &&& r.live@.len() == 1
    &&& r.live@[0] != new
    &&& arena_links(t.arena).contains_key(r.live@[0])
    &&& arena_data(t.arena).contains_key(r.live@[0])
    &&& !arena_data(t.arena)[r.live@[0]].0
    &&& arena_data(t.arena).contains_key(new)
    &&& r.inner_len <= arena_data(t.arena)[r.live@[0]].1.len()
}

impl<V> PipeRecord<V> {
    /// Replace the live subtree by the freshly built `new`: `new` goes right
    /// after the old root, takes over the stable slot, is reconciled by key
    /// with the old root, the old subtree is disposed, and `new` is marked
    /// for layout. Nothing changes when the tree refuses the link.
    pub fn splice_single(&mut self, new: WidgetId, tree: &mut WidgetTree) -> (r: Result<
        SpliceReport,
        crate::widget_id::LinkError,
    >)
        requires
            splice_ready(*old(tree), *old(self), new),
        ensures
            final(tree).regenerating == old(tree).regenerating,
            final(tree).deferred_clears == old(tree).deferred_clears,
            arena_links(old(tree).arena).contains_key(new) && !crate::arena::on_chain(
                arena_links(old(tree).arena),
                old(self).live@[0],
                new,
            ) ==> r is Ok,
            r is Err ==> {
                &&& arena_links(final(tree).arena) == arena_links(old(tree).arena)
                &&& arena_data(final(tree).arena) == arena_data(old(tree).arena)
                &&& final(tree).dirty_set == old(tree).dirty_set
                &&& *final(self) == *old(self)
            },
            r is Ok ==> {
                let o = old(self).live@[0];
                let rep = r.unwrap();
                let l1 = crate::arena::inserted_after(arena_links(old(tree).arena), o, new);
                let dk = applied(
                    transplanted(arena_data(old(tree).arena), o, new, old(self).inner_len as nat),
                    rep.key_links@,
                );
                &&& rep.key_links@ == crate::key::single_pairs(
                    transplanted(arena_data(old(tree).arena), o, new, old(self).inner_len as nat),
                    l1,
                    o,
                    new,
                )
                &&& arena_links(final(tree).arena) == crate::arena::detached(l1, o)
                &&& pinned_in(dk, o) ==> {
                    &&& arena_data(final(tree).arena) == dk
                    &&& rep.disposed@.len() == 0
                    &&& final(tree).delay_drops@ == old(tree).delay_drops@.push(o)
                }
                &&& !pinned_in(dk, o) ==> {
                    &&& rep.disposed@ == descendants_of(l1, o)
                    &&& crate::arena::desc_closed(l1, o, rep.disposed@)
                    &&& arena_data(final(tree).arena) == all_marked(dk, seq![o] + rep.disposed@)
                    &&& final(tree).delay_drops == old(tree).delay_drops
                }
                &&& rep.mounted@ == descendants_of(arena_links(final(tree).arena), new)
                &&& final(self).live@ == seq![new]
                &&& final(self).inner_len == arena_data(old(tree).arena)[new].1.len()
                &&& final(self).pending == old(self).pending
                &&& final(tree).dirty_set@ == (if dropped_spec(final(tree).arena, new) {
                    old(tree).dirty_set@
                } else {
                    old(tree).dirty_set@.insert(new.0)
                })
            },
    {
        let o = self.live[0];
        match o.insert_after(new, &mut tree.arena) {
            Err(e) => Err(e),
            Ok(()) => {
                let ghost l1 = arena_links(tree.arena);
                let ghost d0 = arena_data(tree.arena);
                self.transplant_to(o, new, &mut tree.arena);
                let key_links = update_key_status_single(o, new, &mut tree.arena);
                proof {
                    let dt = transplanted(d0, o, new, old(self).inner_len as nat);
                    crate::key::lemma_applied_keeps_flags(dt, key_links@);
                    assert(dt.contains_key(o));
                }
                let disposed = tree.remove_widget(o);
                let mounted = new.on_mounted_subtree(&tree.arena);
                self.live = vec![new];
                tree.mark_dirty(new);
                proof {
                    assert(self.live@ =~= seq![new]);
                }
                Ok(SpliceReport { mounted, disposed, key_links })
            },
        }
    }
}


/// Identity preservation: a node outside the disposed range of a splice
/// keeps its dropped flag, so an id held elsewhere stays as valid as it was.
pub proof fn lemma_outside_unaffected(
    d0: Map<WidgetId, (bool, Seq<Layer>)>,
    o: WidgetId,
    n: WidgetId,
    inner: nat,
    links: Seq<(WidgetId, WidgetId)>,
    gone: Seq<WidgetId>,
    x: WidgetId,
)
    requires
        d0.contains_key(o),
        d0.contains_key(n),
        d0.contains_key(x),
        !gone.contains(x),
    ensures
        all_marked(applied(transplanted(d0, o, n, inner), links), gone).contains_key(x),
        all_marked(applied(transplanted(d0, o, n, inner), links), gone)[x].0 == d0[x].0,
{
    let dt = transplanted(d0, o, n, inner);
    crate::key::lemma_applied_keeps_flags(dt, links);
    assert(dt.contains_key(x));
}

/// The links after inserting each id of `s`, last first, right after `a`:
/// the ids of `s` end up in their order right after `a`.
pub open spec fn insert_all_after(m: Map<WidgetId, Links>, a: WidgetId, s: Seq<WidgetId>) -> Map<
    WidgetId,
    Links,
>
    decreases s.len(),
{
    if s.len() == 0 {
        m
    } else {
        crate::arena::inserted_after(insert_all_after(m, a, s.drop_first()), a, s[0])
    }
}

pub open spec fn dropped_in(d: Map<WidgetId, (bool, Seq<Layer>)>, x: WidgetId) -> bool {
    !d.contains_key(x) || d[x].0
}

/// Removing the old roots `xs` in order, as `WidgetTree::remove_widget`
/// does: the links, the payloads, the disposed nodes, and the roots kept
/// because they are pinned.
pub open spec fn remove_all(
    l: Map<WidgetId, Links>,
    d: Map<WidgetId, (bool, Seq<Layer>)>,
    xs: Seq<WidgetId>,
) -> (Map<WidgetId, Links>, Map<WidgetId, (bool, Seq<Layer>)>, Seq<WidgetId>, Seq<WidgetId>)
    decreases xs.len(),
{
    if xs.len() == 0 {
        (l, d, Seq::empty(), Seq::empty())
    } else {
        let prev = remove_all(l, d, xs.drop_last());
        let x = xs.last();
        let (l1, d1, g, k) = prev;
        if dropped_in(d1, x) {
            prev
        } else {
            let l2 = if l1.contains_key(x) {
                crate::arena::detached(l1, x)
            } else {
                l1
            };
            if pinned_in(d1, x) {
                (l2, d1, g, k.push(x))
            } else {
                let gone = descendants_of(l1, x);
                (l2, all_marked(d1, seq![x] + gone), g + gone, k)
            }
        }
    }
}

/// The nodes of the subtrees of `s`, subtree after subtree.
pub open spec fn mounted_all(l: Map<WidgetId, Links>, s: Seq<WidgetId>) -> Seq<WidgetId>
    decreases s.len(),
{
    if s.len() == 0 {
        Seq::empty()
    } else {
        mounted_all(l, s.drop_last()) + descendants_of(l, s.last())
    }
}

/// The new roots can all be linked after the old root `o`: live, distinct,
/// none the old root, and none on the chain from `o` to its root.
pub open spec fn multi_linkable(l: Map<WidgetId, Links>, o: WidgetId, new: Seq<WidgetId>) -> bool {
    &&& new.no_duplicates()
    &&& forall|k: int| 0 <= k < new.len() ==> #[trigger] l.contains_key(new[k]) && new[k] != o
    &&& exists|co: Seq<WidgetId>|
        #[trigger] crate::arena::is_ancestor_chain(l, o, co) && forall|k: int|
            0 <= k < new.len() ==> !co.contains(#[trigger] new[k])
}

impl<V> PipeRecord<V> {
    /// Replace the live list of subtrees by the freshly built `new` list:
    /// the new roots go right after the first old root in their order, take
    /// over its stable slot, are reconciled by key with the old roots, the
    /// old subtrees are removed, and every new root is marked for layout.
    pub fn splice_multi(&mut self, new: Vec<WidgetId>, tree: &mut WidgetTree) -> (r: Result<
        SpliceReport,
        crate::widget_id::LinkError,
    >)
        requires
            old(self).live@.len() >= 1,
            new@.len() >= 1,
            old(self).live@[0] != new@[0],
            arena_links(old(tree).arena).contains_key(old(self).live@[0]),
            forall|i: int|
                0 <= i < old(self).live@.len() ==> #[trigger] arena_data(old(tree).arena).contains_key(
                    old(self).live@[i],
                ),
            forall|i: int| 0 <= i < new@.len() ==> #[trigger] arena_data(old(tree).arena).contains_key(new@[i]),
            old(self).inner_len <= arena_data(old(tree).arena)[old(self).live@[0]].1.len(),
        ensures
            final(tree).regenerating == old(tree).regenerating,
            final(tree).deferred_clears == old(tree).deferred_clears,
            multi_linkable(arena_links(old(tree).arena), old(self).live@[0], new@) ==> r is Ok,
            r is Err ==> {
                &&& arena_data(final(tree).arena) == arena_data(old(tree).arena)
                &&& final(tree).dirty_set == old(tree).dirty_set
                &&& *final(self) == *old(self)
            },
            r is Ok ==> {
                let o = old(self).live@[0];
                let olds = old(self).live@;
                let rep = r.unwrap();
                let l1 = insert_all_after(arena_links(old(tree).arena), o, new@);
                let dt = transplanted(arena_data(old(tree).arena), o, new@[0], old(self).inner_len as nat);
                let matched = crate::key::multi_pairs(
                    olds,
                    crate::key::keys_of(dt, olds),
                    new@,
                    crate::key::keys_of(dt, new@),
                );
                let rm = remove_all(l1, applied(dt, rep.key_links@), olds);
                &&& rep.key_links@ == crate::key::pairs_flat_auto(dt, l1, matched)
                &&& arena_links(final(tree).arena) == rm.0
                &&& arena_data(final(tree).arena) == rm.1
                &&& rep.disposed@ == rm.2
                &&& final(tree).delay_drops@ == old(tree).delay_drops@ + rm.3
                &&& rep.mounted@ == mounted_all(rm.0, new@)
                &&& final(self).live == new
                &&& final(self).pending == old(self).pending
                &&& final(self).inner_len == arena_data(old(tree).arena)[new@[0]].1.len()
                &&& forall|i: int|
                    0 <= i < new@.len() && !dropped_spec(final(tree).arena, #[trigger] new@[i])
                        ==> final(tree).dirty_set@.contains(new@[i].0)
            },
    {
        let o = self.live[0];
        let ghost l0 = arena_links(tree.arena);
        let ghost good = multi_linkable(l0, o, new@);
        let ghost co = if good {
            choose|co: Seq<WidgetId>|
                #[trigger] crate::arena::is_ancestor_chain(l0, o, co) && forall|k: int|
                    0 <= k < new@.len() ==> !co.contains(#[trigger] new@[k])
        } else {
            Seq::empty()
        };
        proof {
            assert(new@.skip(new@.len() as int) =~= Seq::<WidgetId>::empty());
        }
        let mut k: usize = new.len();
        while k > 0
            invariant
                k <= new@.len(),
                l0 == arena_links(old(tree).arena),
                good == multi_linkable(l0, o, new@),
                o == old(self).live@[0],
                *self == *old(self),
                arena_links(tree.arena) == insert_all_after(l0, o, new@.skip(k as int)),
                arena_data(tree.arena) == arena_data(old(tree).arena),
                tree.dirty_set == old(tree).dirty_set,
                tree.regenerating == old(tree).regenerating,
                tree.deferred_clears == old(tree).deferred_clears,
                tree.delay_drops == old(tree).delay_drops,
                good ==> crate::arena::is_ancestor_chain(arena_links(tree.arena), o, co),
                good ==> forall|j: int| 0 <= j < new@.len() ==> !co.contains(#[trigger] new@[j]),
                good ==> forall|j: int| 0 <= j < new@.len() ==> #[trigger] arena_links(tree.arena).contains_key(new@[j]),
                arena_links(tree.arena).contains_key(o),
            decreases k,
        {
            k = k - 1;
            let ghost l = arena_links(tree.arena);
            proof {
                if good {
                    assert(!co.contains(new@[k as int]));
                    crate::widget_id::lemma_not_on_chain(l, o, co, new@[k as int]);
                    assert(l.contains_key(new@[k as int]));
                }
            }
            match o.insert_after(new[k], &mut tree.arena) {
                Err(e) => {
                    return Err(e);
                },
                Ok(()) => {},
            }
            proof {
                let l2 = arena_links(tree.arena);
                crate::widget_id::lemma_inserted_after_parents(l, o, new@[k as int]);
                let sk = new@.skip(k as int);
                assert(sk.drop_first() =~= new@.skip(k + 1));
                assert(sk[0] == new@[k as int]);
                if good {
                    crate::widget_id::lemma_chain_kept(l, l2, o, co, new@[k as int]);
                    assert forall|j: int| 0 <= j < new@.len() implies #[trigger] l2.contains_key(new@[j]) by {
                        if new@[j] != new@[k as int] {
                            assert(l.contains_key(new@[j]));
                        }
                    }
                }
                assert(o != new@[k as int] ==> l2.contains_key(o));
            }
        }
        proof {
            assert(new@.skip(0) =~= new@);
        }
        let ghost l1 = arena_links(tree.arena);
        let ghost d0 = arena_data(tree.arena);
        self.transplant_to(o, new[0], &mut tree.arena);
        let ghost dt = arena_data(tree.arena);
        let (_, key_links) = update_key_state_multi(&self.live, &new, &mut tree.arena);
        let ghost dk = arena_data(tree.arena);
        let ghost td = tree.delay_drops@;
        let mut disposed: Vec<WidgetId> = Vec::new();
        proof {
            assert(self.live@.take(0) =~= Seq::<WidgetId>::empty());
        }
        let mut i: usize = 0;
        while i < self.live.len()
            invariant
                i <= self.live@.len(),
                self.live == old(self).live,
                tree.dirty_set == old(tree).dirty_set,
                tree.regenerating == old(tree).regenerating,
                tree.deferred_clears == old(tree).deferred_clears,
                td == old(tree).delay_drops@,
                ({
                    let rm = remove_all(l1, dk, self.live@.take(i as int));
                    &&& arena_links(tree.arena) == rm.0
                    &&& arena_data(tree.arena) == rm.1
                    &&& disposed@ == rm.2
                    &&& tree.delay_drops@ == td + rm.3
                }),
            decreases self.live@.len() - i,
        {
            let id = self.live[i];
            let ghost tb = *tree;
            let mut gone = tree.remove_widget(id);
            proof {
                let t = self.live@.take(i + 1);
                assert(t.drop_last() =~= self.live@.take(i as int));
                assert(t.last() == id);
                let prev = remove_all(l1, dk, self.live@.take(i as int));
                assert(dropped_spec(tb.arena, id) == dropped_in(prev.1, id));
                assert(crate::tree::pinned_spec(tb.arena, id) == pinned_in(prev.1, id));
                if !dropped_in(prev.1, id) && pinned_in(prev.1, id) {
                    assert(td + prev.3.push(id) =~= (td + prev.3).push(id));
                }
            }
            disposed.append(&mut gone);
            i = i + 1;
        }
        proof {
            assert(self.live@.take(i as int) =~= self.live@);
        }
        let ghost lf = arena_links(tree.arena);
        let ghost df = arena_data(tree.arena);
        let ghost dd = tree.delay_drops;
        let mut mounted: Vec<WidgetId> = Vec::new();
        proof {
            assert(new@.take(0) =~= Seq::<WidgetId>::empty());
        }
        let mut j: usize = 0;
        while j < new.len()
            invariant
                j <= new@.len(),
                tree.regenerating == old(tree).regenerating,
                tree.deferred_clears == old(tree).deferred_clears,
                arena_links(tree.arena) == lf,
                arena_data(tree.arena) == df,
                tree.delay_drops == dd,
                mounted@ == mounted_all(lf, new@.take(j as int)),
                forall|q: int|
                    0 <= q < j && !dropped_spec(tree.arena, #[trigger] new@[q])
                        ==> tree.dirty_set@.contains(new@[q].0),
                self.live == old(self).live,
            decreases new@.len() - j,
        {
            let mut m = new[j].descendants(&tree.arena);
            mounted.append(&mut m);
            tree.mark_dirty(new[j]);
            proof {
                assert(new@.take(j + 1).drop_last() =~= new@.take(j as int));
            }
            j = j + 1;
        }
        proof {
            assert(new@.take(j as int) =~= new@);
        }
        self.live = new;
        Ok(SpliceReport { mounted, disposed, key_links })
    }
}



/// Turn a range whose end is the first child below it into the range whose
/// end is that child's parent.
pub fn half_to_close_interval(start: WidgetId, end: WidgetId, tree: &TreeArena) -> (r: (
    WidgetId,
    WidgetId,
))
    requires
        arena_links(*tree).contains_key(end),
        arena_links(*tree)[end].parent.is_some(),
    ensures
        r == (start, arena_links(*tree)[end].parent.unwrap()),
{
    (start, end.parent(tree).unwrap())
}

/// The ids from `from` up through its ancestors to `to`, `to` included; the
/// whole way to the root when `to` is not above `from`.
pub fn path_up_to(from: WidgetId, to: WidgetId, tree: &TreeArena) -> (r: Vec<WidgetId>)
    ensures
        r@ == prefix_until(crate::widget_id::arena_ancestor_path(*tree, from).reverse(), to),
{
    let path = from.ancestors(tree);
    let ghost s = path@;
    proof {
        crate::widget_id::lemma_ancestors_path(*tree, from, s);
        assert(s.skip(0) =~= s);
        assert(s.take(0) + prefix_until(s, to) =~= prefix_until(s, to));
    }
    let mut r: Vec<WidgetId> = Vec::new();
    let mut i: usize = 0;
    let mut done = false;
    while i < path.len() && !done
        invariant
            i <= s.len(),
            s == path@,
            done ==> prefix_until(s, to) == s.take(i as int),
            !done ==> prefix_until(s, to) == s.take(i as int) + prefix_until(s.skip(i as int), to),
            r@ == s.take(i as int),
        decreases s.len() - i,
    {
        let x = path[i];
        r.push(x);
        proof {
            let t = s.skip(i as int);
            assert(t[0] == x);
            assert(t.drop_first() =~= s.skip(i + 1));
            assert(s.take(i + 1) =~= s.take(i as int) + seq![x]);
            assert(r@ =~= s.take(i + 1));
            if x != to {
                assert(s.take(i as int) + (seq![x] + prefix_until(s.skip(i + 1), to)) =~= s.take(i + 1)
                    + prefix_until(s.skip(i + 1), to));
            }
        }
        if x == to {
            done = true;
        }
        i = i + 1;
    }
    proof {
        if !done {
            assert(s.take(i as int) + prefix_until(s.skip(i as int), to) =~= s.take(i as int));
        }
    }
    r
}

/// The new range of a parent splice is freshly built: its root `ns` is a
/// detached root, the chain from `ne` avoids the old root and the kept
/// children, and the chain from the old root `o` avoids `ns` and the kept
/// children.
pub open spec fn parent_splice_fresh(
    l0: Map<WidgetId, Links>,
    o: WidgetId,
    ns: WidgetId,
    ne: WidgetId,
    kept: Seq<WidgetId>,
) -> bool {
    &&& l0.contains_key(ns)
    &&& l0[ns].parent.is_none()
    &&& !kept.contains(ns)
    &&& ns != o
    &&& l0.contains_key(ne)
    &&& exists|ch: Seq<WidgetId>|
        #[trigger] crate::arena::is_ancestor_chain(l0, ne, ch) && !ch.contains(o) && forall|j: int|
            0 <= j < kept.len() ==> !ch.contains(#[trigger] kept[j])
    &&& exists|co: Seq<WidgetId>|
        #[trigger] crate::arena::is_ancestor_chain(l0, o, co) && !co.contains(ns) && forall|j: int|
            0 <= j < kept.len() ==> !co.contains(#[trigger] kept[j])
}

/// The end of the range a pipe record marks: its range end, or its root.
pub open spec fn range_end_of<V>(r: PipeRecord<V>) -> WidgetId {
    match r.range_end {
        Some(e) => e,
        None => r.live@[0],
    }
}

impl<V> PipeRecord<V> {
    /// Replace the parent that the pipe decides by the freshly built range
    /// `new_start ..= new_end`: the children below the old range end move,
    /// in order, below `new_end` and are kept, not rebuilt; then `new_start`
    /// replaces the old root as `splice_single` does. Every widget of the new
    /// range, from `new_end` up to `new_start`, receives the mounted hook.
    pub fn splice_parent(&mut self, new_start: WidgetId, new_end: WidgetId, tree: &mut WidgetTree) -> (r:
        Result<SpliceReport, crate::widget_id::LinkError>)
        requires
            splice_ready(*old(tree), *old(self), new_start),
            arena_links(old(tree).arena).contains_key(range_end_of(*old(self))),
            arena_links(old(tree).arena).contains_key(new_end),
            range_end_of(*old(self)) != new_end,
        ensures
            final(tree).regenerating == old(tree).regenerating,
            final(tree).deferred_clears == old(tree).deferred_clears,
            r is Err ==> {
                &&& arena_data(final(tree).arena) == arena_data(old(tree).arena)
                &&& *final(self) == *old(self)
            },
            ({
                let l0 = arena_links(old(tree).arena);
                let kept = children_of(l0, range_end_of(*old(self)));
                l0.contains_key(new_start) && (exists|ch: Seq<WidgetId>|
                    #[trigger] crate::arena::is_ancestor_chain(l0, new_end, ch) && forall|j: int|
                        0 <= j < kept.len() ==> !ch.contains(#[trigger] kept[j])) && (exists|
                    co: Seq<WidgetId>,
                |
                    #[trigger] crate::arena::is_ancestor_chain(l0, old(self).live@[0], co)
                        && !co.contains(new_start) && forall|j: int|
                        0 <= j < kept.len() ==> !co.contains(#[trigger] kept[j])) ==> r is Ok
            }),
            parent_splice_fresh(
                arena_links(old(tree).arena),
                old(self).live@[0],
                new_start,
                new_end,
                children_of(arena_links(old(tree).arena), range_end_of(*old(self))),
            ) ==> r is Ok && forall|j: int|
                0 <= j < children_of(arena_links(old(tree).arena), range_end_of(*old(self))).len()
                    ==> arena_data(final(tree).arena).contains_key(
                    #[trigger] children_of(arena_links(old(tree).arena), range_end_of(*old(self)))[j],
                ) && arena_data(final(tree).arena)[children_of(
                    arena_links(old(tree).arena),
                    range_end_of(*old(self)),
                )[j]].0 == arena_data(old(tree).arena)[children_of(
                    arena_links(old(tree).arena),
                    range_end_of(*old(self)),
                )[j]].0,
            r is Ok ==> {
                let o = old(self).live@[0];
                let rep = r.unwrap();
                let dk = applied(
                    transplanted(arena_data(old(tree).arena), o, new_start, old(self).inner_len as nat),
                    rep.key_links@,
                );
                &&& pinned_in(dk, o) ==> arena_data(final(tree).arena) == dk && rep.disposed@.len() == 0
                &&& !pinned_in(dk, o) ==> arena_data(final(tree).arena) == all_marked(
                    dk,
                    seq![o] + rep.disposed@,
                )
                &&& rep.mounted@ == prefix_until(
                    crate::widget_id::arena_ancestor_path(final(tree).arena, new_end).reverse(),
                    new_start,
                )
                &&& final(self).live@ == seq![new_start]
                &&& final(self).range_end == Some(new_end)
                &&& exists|lr: Map<WidgetId, Links>|
                    #[trigger] children_of(lr, new_end) == children_of(arena_links(old(tree).arena), new_end)
                        + children_of(arena_links(old(tree).arena), range_end_of(*old(self)))
                        && arena_links(final(tree).arena) == crate::arena::detached(
                        crate::arena::inserted_after(lr, o, new_start),
                        o,
                    ) && rep.key_links@ == crate::key::single_pairs(
                        transplanted(arena_data(old(tree).arena), o, new_start, old(self).inner_len as nat),
                        crate::arena::inserted_after(lr, o, new_start),
                        o,
                        new_start,
                    ) && (!pinned_in(dk, o) ==> rep.disposed@ == descendants_of(
                        crate::arena::inserted_after(lr, o, new_start),
                        o,
                    ))
                &&& forall|j: int|
                    0 <= j < children_of(arena_links(old(tree).arena), range_end_of(*old(self))).len()
                        && #[trigger] children_of(arena_links(old(tree).arena), range_end_of(*old(self)))[j]
                        != o && children_of(arena_links(old(tree).arena), range_end_of(*old(self)))[j]
                        != new_start ==> arena_links(final(tree).arena).contains_key(
                        children_of(arena_links(old(tree).arena), range_end_of(*old(self)))[j],
                    ) && arena_links(final(tree).arena)[children_of(
                        arena_links(old(tree).arena),
                        range_end_of(*old(self)),
                    )[j]].parent == Some(new_end)
                &&& final(tree).dirty_set@ == (if dropped_spec(final(tree).arena, new_start) {
                    old(tree).dirty_set@
                } else {
                    old(tree).dirty_set@.insert(new_start.0)
                })
            },
    {
        let old_end = match self.range_end {
            Some(e) => e,
            None => self.live[0],
        };
        let ghost l0 = arena_links(tree.arena);
        let ghost o = self.live@[0];
        let ghost kept = children_of(l0, old_end);
        let ghost good_o = exists|co: Seq<WidgetId>|
            #[trigger] crate::arena::is_ancestor_chain(l0, o, co) && !co.contains(new_start)
                && forall|j: int| 0 <= j < kept.len() ==> !co.contains(#[trigger] kept[j]);
        match reattach_children(old_end, new_end, &mut tree.arena) {
            Err(e) => {
                return Err(e);
            },
            Ok(()) => {},
        }
        let ghost lr = arena_links(tree.arena);
        let ghost dirty0 = tree.dirty_set@;
        let ghost d00 = arena_data(tree.arena);
        let ghost inner0 = self.inner_len as nat;
        proof {
            if good_o {
                let co = choose|co: Seq<WidgetId>|
                    #[trigger] crate::arena::is_ancestor_chain(l0, o, co) && !co.contains(new_start)
                        && forall|j: int| 0 <= j < kept.len() ==> !co.contains(#[trigger] kept[j]);
                assert(crate::arena::is_ancestor_chain(arena_links(tree.arena), o, co));
                crate::widget_id::lemma_not_on_chain(arena_links(tree.arena), o, co, new_start);
            }
        }
        match self.splice_single(new_start, tree) {
            Err(e) => Err(e),
            Ok(rep) => {
                proof {
                    let l1 = crate::arena::inserted_after(lr, o, new_start);
                    crate::widget_id::lemma_inserted_after_parents(lr, o, new_start);
                    crate::widget_id::lemma_detached_parents(l1, o);
                    assert(children_of(lr, new_end) == children_of(l0, new_end) + kept);
                    if parent_splice_fresh(l0, o, new_start, new_end, kept) {
                        lemma_parent_kept_live(
                            l0,
                            lr,
                            d00,
                            o,
                            new_start,
                            new_end,
                            kept,
                            inner0,
                            rep.key_links@,
                            rep.disposed@,
                            arena_data(tree.arena),
                        );
                    }
                }
                let mounted = path_up_to(new_end, new_start, &tree.arena);
                self.range_end = Some(new_end);
                Ok(SpliceReport { mounted, disposed: rep.disposed, key_links: rep.key_links })
            },
        }
    }
}

/// A change notifier attached to a mounted node reports a change: a
/// framework-scoped change marks the node for layout, any other is ignored.
pub fn on_state_modified(tree: &mut WidgetTree, id: WidgetId, scope: ModifyScope)
    ensures
        final(tree).dirty_set@ == (if scope.has_framework() && !dropped_spec(old(tree).arena, id) {
            old(tree).dirty_set@.insert(id.0)
        } else {
            old(tree).dirty_set@
        }),
        final(tree).arena == old(tree).arena,
        final(tree).regenerating == old(tree).regenerating,
        final(tree).deferred_clears == old(tree).deferred_clears,
        final(tree).delay_drops == old(tree).delay_drops,
{
    if scope.contains_framework() {
        tree.mark_dirty(id);
    }
}


/// A value and the stream of its changes; the stream is whatever the host
/// delivers notifications through.
pub struct Pipe<V, S> {
    value: V,
    modifies: S,
}

impl<V, S> Pipe<V, S> {
    pub closed spec fn value_view(&self) -> V {
        self.value
    }

    pub closed spec fn modifies_view(&self) -> S {
        self.modifies
    }

    pub fn new(init: V, modifies: S) -> (r: Pipe<V, S>)
        ensures
            r.value_view() == init,
            r.modifies_view() == modifies,
    {
        Pipe { value: init, modifies }
    }

    /// Split the pipe into its current value and the stream of its changes.
    pub fn unzip(self) -> (r: (V, S))
        ensures
            r == (self.value_view(), self.modifies_view()),
    {
        (self.value, self.modifies)
    }

    pub fn value(&self) -> (r: &V)
        ensures
            *r == self.value_view(),
    {
        &self.value
    }

    pub fn value_mut(&mut self) -> (r: &mut V)
        ensures
            *r == old(self).value_view(),
            final(self).value_view() == *final(r),
            final(self).modifies_view() == old(self).modifies_view(),
    {
        &mut self.value
    }

    /// Replace the current value.
    pub fn set_value(&mut self, v: V)
        ensures
            final(self).value_view() == v,
            final(self).modifies_view() == old(self).modifies_view(),
    {
        self.value = v;
    }
}


/// Every id of `cs` from index `i` on is a child of `p` in `l`.
#[verifier::opaque]
pub open spec fn pending_under(l: Map<WidgetId, Links>, cs: Seq<WidgetId>, i: int, p: WidgetId) -> bool {
    forall|j: int| i <= j < cs.len() ==> (#[trigger] l.contains_key(cs[j]) && l[cs[j]].parent == Some(p))
}

/// Every id of `cs` before index `i` is a child of `p` in `l`.
#[verifier::opaque]
pub open spec fn moved_under(l: Map<WidgetId, Links>, cs: Seq<WidgetId>, i: int, p: WidgetId) -> bool {
    forall|j: int| 0 <= j < i ==> (#[trigger] l.contains_key(cs[j]) && l[cs[j]].parent == Some(p))
}

/// Every node of `l0` outside `cs` keeps its parent link in `l`.
#[verifier::opaque]
pub open spec fn others_same(l0: Map<WidgetId, Links>, l: Map<WidgetId, Links>, cs: Seq<WidgetId>) -> bool {
    forall|x: WidgetId|
        #[trigger] l0.contains_key(x) && !cs.contains(x) ==> l.contains_key(x) && l[x].parent == l0[x].parent
}

proof fn lemma_others_step(l0: Map<WidgetId, Links>, l: Map<WidgetId, Links>, cs: Seq<WidgetId>, i: int, p: WidgetId)
    requires
        0 <= i < cs.len(),
        others_same(l0, l, cs),
    ensures
        others_same(l0, crate::arena::appended(l, p, cs[i]), cs),
{
    reveal(others_same);
    crate::widget_id::lemma_appended_parents(l, p, cs[i]);
    assert forall|x: WidgetId| #[trigger] l0.contains_key(x) && !cs.contains(x) implies crate::arena::appended(
        l,
        p,
        cs[i],
    ).contains_key(x) && crate::arena::appended(l, p, cs[i])[x].parent == l0[x].parent by {
        assert(x != cs[i]) by {
            assert(cs.contains(cs[i]));
        }
    }
}

proof fn lemma_reattach_step(
    l: Map<WidgetId, Links>,
    cs: Seq<WidgetId>,
    i: int,
    old_end: WidgetId,
    new_end: WidgetId,
)
    requires
        0 <= i < cs.len(),
        cs.no_duplicates(),
        pending_under(l, cs, i, old_end),
        moved_under(l, cs, i, new_end),
    ensures
        l.contains_key(cs[i]),
        l[cs[i]].parent == Some(old_end),
        pending_under(crate::arena::appended(l, new_end, cs[i]), cs, i + 1, old_end),
        moved_under(crate::arena::appended(l, new_end, cs[i]), cs, i + 1, new_end),
{
    reveal(pending_under);
    reveal(moved_under);
    let m = crate::arena::appended(l, new_end, cs[i]);
    crate::widget_id::lemma_appended_parents(l, new_end, cs[i]);
    assert(l.contains_key(cs[i]));
    assert forall|j: int| i + 1 <= j < cs.len() implies (#[trigger] m.contains_key(cs[j]) && m[cs[j]].parent
        == Some(old_end)) by {
        assert(cs[j] != cs[i]);
        assert(l.contains_key(cs[j]));
    }
    assert forall|j: int| 0 <= j < i + 1 implies (#[trigger] m.contains_key(cs[j]) && m[cs[j]].parent == Some(
        new_end,
    )) by {
        if j < i {
            assert(cs[j] != cs[i]);
            assert(l.contains_key(cs[j]));
        }
    }
}

/// Move the children of `old_end`, in order, to the end of the children of
/// `new_end`: the kept children of a parent that a pipe rebuilds are carried
/// over, not rebuilt. Payloads are untouched.
#[verifier::rlimit(50)]
#[verifier::spinoff_prover]
pub fn reattach_children(old_end: WidgetId, new_end: WidgetId, tree: &mut TreeArena) -> (r: Result<
    (),
    crate::widget_id::LinkError,
>)
    requires
        arena_links(*old(tree)).contains_key(old_end),
        arena_links(*old(tree)).contains_key(new_end),
        old_end != new_end,
    ensures
        arena_data(*final(tree)) == arena_data(*old(tree)),
        r is Ok ==> children_of(arena_links(*final(tree)), new_end) == children_of(
            arena_links(*old(tree)),
            new_end,
        ) + children_of(arena_links(*old(tree)), old_end),
        r is Ok ==> children_of(arena_links(*final(tree)), old_end).len() == 0,
        r is Ok ==> others_same(
            arena_links(*old(tree)),
            arena_links(*final(tree)),
            children_of(arena_links(*old(tree)), old_end),
        ),
        forall|j: int|
            0 <= j < children_of(arena_links(*old(tree)), old_end).len() ==> arena_data(
                *old(tree),
            ).contains_key(#[trigger] children_of(arena_links(*old(tree)), old_end)[j]),
        r is Ok ==> forall|j: int|
            0 <= j < children_of(arena_links(*old(tree)), old_end).len() ==> arena_links(
                *final(tree),
            ).contains_key(#[trigger] children_of(arena_links(*old(tree)), old_end)[j]) && arena_links(
                *final(tree),
            )[children_of(arena_links(*old(tree)), old_end)[j]].parent == Some(new_end),
        forall|x: WidgetId|
            #[trigger] arena_links(*old(tree)).contains_key(x) ==> arena_links(*final(tree)).contains_key(x),
        forall|a: WidgetId, ch: Seq<WidgetId>|
            #[trigger] crate::arena::is_ancestor_chain(arena_links(*old(tree)), a, ch) && arena_links(
                *old(tree),
            ).contains_key(a) && (forall|j: int|
                0 <= j < children_of(arena_links(*old(tree)), old_end).len() ==> !ch.contains(
                    #[trigger] children_of(arena_links(*old(tree)), old_end)[j],
                )) ==> crate::arena::is_ancestor_chain(arena_links(*final(tree)), a, ch),
        (exists|ch: Seq<WidgetId>|
            #[trigger] crate::arena::is_ancestor_chain(arena_links(*old(tree)), new_end, ch)
                && forall|j: int|
                0 <= j < children_of(arena_links(*old(tree)), old_end).len() ==> !ch.contains(
                    #[trigger] children_of(arena_links(*old(tree)), old_end)[j],
                )) ==> r is Ok,
{
    let cs = old_end.children(tree);
    let ghost l0 = arena_links(*tree);
    let ghost d0 = arena_data(*tree);
    let ghost good = exists|ch: Seq<WidgetId>|
        #[trigger] crate::arena::is_ancestor_chain(l0, new_end, ch) && forall|j: int|
            0 <= j < cs@.len() ==> !ch.contains(#[trigger] cs@[j]);
    let ghost ch = if good {
        choose|ch: Seq<WidgetId>|
            #[trigger] crate::arena::is_ancestor_chain(l0, new_end, ch) && forall|j: int|
                0 <= j < cs@.len() ==> !ch.contains(#[trigger] cs@[j])
    } else {
        Seq::empty()
    };
    proof {
        assert(cs@.skip(0) =~= cs@);
        assert(children_of(l0, new_end) + cs@.take(0) =~= children_of(l0, new_end));
        reveal(pending_under);
        reveal(moved_under);
        reveal(others_same);
        assert forall|j: int| 0 <= j < cs@.len() implies d0.contains_key(#[trigger] cs@[j]) by {
            assert(arena_links(*tree).contains_key(cs@[j]));
        }
    }
    let mut i: usize = 0;
    while i < cs.len()
        invariant
            i <= cs@.len(),
            cs@ == children_of(l0, old_end),
            l0 == arena_links(*old(tree)),
            d0 == arena_data(*old(tree)),
            good == (exists|ch: Seq<WidgetId>|
                #[trigger] crate::arena::is_ancestor_chain(l0, new_end, ch) && forall|j: int|
                    0 <= j < cs@.len() ==> !ch.contains(#[trigger] cs@[j])),
            cs@.no_duplicates(),
            old_end != new_end,
            arena_data(*tree) == d0,
            arena_links(*tree).contains_key(old_end),
            arena_links(*tree).contains_key(new_end),
            children_of(arena_links(*tree), new_end) == children_of(l0, new_end) + cs@.take(i as int),
            children_of(arena_links(*tree), old_end) == cs@.skip(i as int),
            pending_under(arena_links(*tree), cs@, i as int, old_end),
            others_same(l0, arena_links(*tree), cs@),
            forall|j: int| 0 <= j < cs@.len() ==> d0.contains_key(#[trigger] cs@[j]),
            good ==> crate::arena::is_ancestor_chain(arena_links(*tree), new_end, ch),
            good ==> forall|j: int| 0 <= j < cs@.len() ==> !ch.contains(#[trigger] cs@[j]),
            forall|x: WidgetId|
                #[trigger] l0.contains_key(x) ==> arena_links(*tree).contains_key(x),
            moved_under(arena_links(*tree), cs@, i as int, new_end),
            forall|a: WidgetId, ch2: Seq<WidgetId>|
                #[trigger] crate::arena::is_ancestor_chain(l0, a, ch2) && l0.contains_key(a) && (forall|j: int|
                    0 <= j < cs@.len() ==> !ch2.contains(#[trigger] cs@[j])) ==> crate::arena::is_ancestor_chain(
                    arena_links(*tree),
                    a,
                    ch2,
                ),
        decreases cs@.len() - i,
    {
        let c = cs[i];
        let ghost l = arena_links(*tree);
        proof {
            lemma_reattach_step(l, cs@, i as int, old_end, new_end);
            assert(c == cs@[i as int]);
            if good {
                assert(!ch.contains(cs@[i as int]));
                assert(!crate::arena::on_chain(l, new_end, c)) by {
                    crate::widget_id::lemma_not_on_chain(l, new_end, ch, c);
                }
                assert(c != new_end) by {
                    assert(ch[0] == new_end);
                }
            }
        }
        match new_end.append(c, tree) {
            Err(e) => {
                return Err(e);
            },
            Ok(()) => {},
        }
        proof {
            let l2 = arena_links(*tree);
            crate::widget_id::lemma_appended_parents(l, new_end, c);
            assert(l[c].parent == Some(old_end));
            assert(cs@.take(i + 1) =~= cs@.take(i as int).push(c));
            assert(children_of(l0, new_end) + cs@.take(i + 1) =~= (children_of(l0, new_end)
                + cs@.take(i as int)).push(c));
            let rest = cs@.skip(i as int);
            assert(rest[0] == c);
            crate::widget_id::lemma_remove_first(rest);
            assert(rest.drop_first() =~= cs@.skip(i + 1));
            assert(l2 == crate::arena::appended(l, new_end, c));
            lemma_others_step(l0, l, cs@, i as int, new_end);
            if good {
                crate::widget_id::lemma_chain_kept(l, l2, new_end, ch, c);
            }
            assert forall|a: WidgetId, ch2: Seq<WidgetId>|
                #[trigger] crate::arena::is_ancestor_chain(l0, a, ch2) && l0.contains_key(a) && (forall|j: int|
                    0 <= j < cs@.len() ==> !ch2.contains(#[trigger] cs@[j])) implies crate::arena::is_ancestor_chain(
                    l2,
                    a,
                    ch2,
                ) by {
                assert(!ch2.contains(cs@[i as int]));
                crate::widget_id::lemma_chain_kept(l, l2, a, ch2, c);
            }
        }
        i = i + 1;
    }
    proof {
        assert(cs@.take(i as int) =~= cs@);
        reveal(moved_under);
        assert forall|j: int| 0 <= j < cs@.len() implies (arena_links(*tree).contains_key(
            #[trigger] cs@[j],
        ) && arena_links(*tree)[cs@[j]].parent == Some(new_end)) by {
            assert(arena_links(*tree).contains_key(cs@[j]));
        }
    }
    Ok(())
}


/// Inserting detached roots after `o`: afterwards they follow `o` as
/// consecutive siblings in their order, under the parent of `o`, and the last
/// of them is followed by the sibling that followed `o`.
pub proof fn lemma_insert_all_after_order(l: Map<WidgetId, Links>, o: WidgetId, s: Seq<WidgetId>)
    requires
        l.contains_key(o),
        s.no_duplicates(),
        forall|k: int|
            0 <= k < s.len() ==> {
                &&& #[trigger] l.contains_key(s[k])
                &&& s[k] != o
                &&& l[s[k]].parent.is_none()
                &&& l[s[k]].prev_sibling.is_none()
                &&& l[s[k]].next_sibling.is_none()
                &&& Some(s[k]) != l[o].next_sibling
                &&& Some(s[k]) != l[o].parent
            },
    ensures
        ({
            let m = insert_all_after(l, o, s);
            &&& m.contains_key(o)
            &&& m[o].parent == l[o].parent
            &&& s.len() > 0 ==> m[o].next_sibling == Some(s[0])
            &&& s.len() == 0 ==> m[o].next_sibling == l[o].next_sibling
            &&& s.len() > 0 ==> m[s[s.len() - 1]].next_sibling == l[o].next_sibling
            &&& forall|k: int| 0 <= k < s.len() - 1 ==> m[#[trigger] s[k]].next_sibling == Some(s[k + 1])
            &&& forall|k: int| 0 <= k < s.len() ==> m[#[trigger] s[k]].parent == l[o].parent
            &&& forall|k: int|
                0 < k < s.len() ==> m[#[trigger] s[k]].prev_sibling == Some(s[k - 1])
            &&& s.len() > 0 ==> m[s[0]].prev_sibling == Some(o)
            &&& forall|x: WidgetId|
                #[trigger] l.contains_key(x) && !s.contains(x) && x != o && Some(x) != l[o].next_sibling
                    && Some(x) != l[o].parent ==> m[x] == l[x]
            &&& forall|x: WidgetId| #[trigger] l.contains_key(x) ==> m.contains_key(x)
        }),
    decreases s.len(),
{
    if s.len() > 0 {
        let rest = s.drop_first();
        let s0 = s[0];
        assert forall|k: int| 0 <= k < rest.len() implies {
            &&& #[trigger] l.contains_key(rest[k])
            &&& rest[k] != o
            &&& l[rest[k]].parent.is_none()
            &&& l[rest[k]].prev_sibling.is_none()
            &&& l[rest[k]].next_sibling.is_none()
            &&& Some(rest[k]) != l[o].next_sibling
            &&& Some(rest[k]) != l[o].parent
        } by {
            assert(rest[k] == s[k + 1]);
        }
        assert(rest.no_duplicates()) by {
            assert forall|a: int, b: int| 0 <= a < b < rest.len() implies rest[a] != rest[b] by {
                assert(rest[a] == s[a + 1] && rest[b] == s[b + 1]);
            }
        }
        lemma_insert_all_after_order(l, o, rest);
        let mr = insert_all_after(l, o, rest);
        assert(!rest.contains(s0)) by {
            if rest.contains(s0) {
                let j = choose|j: int| 0 <= j < rest.len() && rest[j] == s0;
                assert(s[j + 1] == s0);
            }
        }
        assert(l.contains_key(s0));
        assert(mr[s0] == l[s0]);
        let p = l[o].parent;
        let nx = mr[o].next_sibling;
        let d = crate::arena::detached(mr, s0);
        assert(d =~= mr);
        assert(d[o].parent == p);
        let m1 = d.insert(s0, Links { parent: p, ..d[s0] });
        let m2 = crate::arena::connected(m1, p, Some(o), Some(s0));
        let m3 = crate::arena::connected(m2, p, Some(s0), nx);
        assert(insert_all_after(l, o, s) == m3);
        assert(m3[o].next_sibling == Some(s0));
        assert(m3[s0].next_sibling == nx);
        assert(m3[s0].prev_sibling == Some(o));
        assert(m3[s0].parent == p);
        assert(m3[o].parent == p);
        assert forall|k: int| 0 <= k < s.len() - 1 implies m3[#[trigger] s[k]].next_sibling == Some(s[k + 1]) by {
            if k > 0 {
                assert(s[k] == rest[k - 1]);
                assert(s[k] != s0);
                assert(s[k] != o);
                if k - 1 < rest.len() - 1 {
                    assert(mr[rest[k - 1]].next_sibling == Some(rest[k]));
                }
            }
        }
        assert forall|k: int| 0 <= k < s.len() implies m3[#[trigger] s[k]].parent == p by {
            if k > 0 {
                assert(s[k] == rest[k - 1]);
                assert(s[k] != s0);
            }
        }
        assert forall|k: int| 0 < k < s.len() implies m3[#[trigger] s[k]].prev_sibling == Some(s[k - 1]) by {
            assert(s[k] == rest[k - 1]);
            assert(s[k] != s0);
            if k > 1 {
                assert(mr[rest[k - 1]].prev_sibling == Some(rest[k - 2]));
            }
        }
        if rest.len() > 0 {
            assert(s[s.len() - 1] == rest[rest.len() - 1]);
        }
        assert forall|x: WidgetId|
            #[trigger] l.contains_key(x) && !s.contains(x) && x != o && Some(x) != l[o].next_sibling
                && Some(x) != l[o].parent implies m3[x] == l[x] by {
            assert(!rest.contains(x)) by {
                if rest.contains(x) {
                    let j = choose|j: int| 0 <= j < rest.len() && rest[j] == x;
                    assert(s[j + 1] == x);
                }
            }
            assert(x != s0) by {
                assert(s[0] == s0);
            }
            if rest.len() > 0 {
                assert(nx == Some(rest[0]));
                assert(x != rest[0]) by {
                    assert(rest.contains(rest[0]));
                }
            }
        }
    }
}


proof fn lemma_multi_pairs_members(olds: Seq<WidgetId>, ok: Seq<Option<u64>>, news: Seq<WidgetId>, nk: Seq<Option<u64>>)
    requires
        ok.len() == olds.len(),
    ensures
        forall|q: int|
            0 <= q < crate::key::multi_pairs(olds, ok, news, nk).len() ==> olds.contains(
                (#[trigger] crate::key::multi_pairs(olds, ok, news, nk)[q]).0,
            ) && news.contains(crate::key::multi_pairs(olds, ok, news, nk)[q].1),
    decreases news.len(),
{
    if news.len() > 0 && nk.len() == news.len() {
        lemma_multi_pairs_members(olds, ok, news.drop_last(), nk.drop_last());
        let rest = crate::key::multi_pairs(olds, ok, news.drop_last(), nk.drop_last());
        let all = crate::key::multi_pairs(olds, ok, news, nk);
        match nk.last() {
            Some(k) => {
                crate::key::lemma_first_index_facts(ok, k);
            },
            None => {},
        }
        assert forall|q: int| 0 <= q < all.len() implies olds.contains((#[trigger] all[q]).0) && news.contains(
            all[q].1,
        ) by {
            if q < rest.len() {
                assert(all[q] == rest[q]);
                let j = choose|j: int| 0 <= j < news.drop_last().len() && news.drop_last()[j] == rest[q].1;
                assert(news[j] == rest[q].1);
            } else {
                let i = crate::key::first_index(ok, nk.last().unwrap()).unwrap();
                assert(all[q] == (olds[i], news.last()));
                assert(news[news.len() - 1] == news.last());
            }
        }
    }
}

proof fn lemma_flat_leaves(d: Map<WidgetId, (bool, Seq<Layer>)>, l: Map<WidgetId, Links>, lp: Seq<(WidgetId, WidgetId)>)
    requires
        forall|q: int|
            0 <= q < lp.len() ==> children_of(l, (#[trigger] lp[q]).0).len() == 0 && children_of(l, lp[q].1).len()
                == 0,
    ensures
        crate::key::pairs_flat_auto(d, l, lp) == lp,
    decreases lp.len(),
{
    if lp.len() > 0 {
        assert forall|q: int| 0 <= q < lp.drop_last().len() implies children_of(l, (#[trigger] lp.drop_last()[q]).0).len()
            == 0 && children_of(l, lp.drop_last()[q].1).len() == 0 by {
            assert(lp.drop_last()[q] == lp[q]);
        }
        lemma_flat_leaves(d, l, lp.drop_last());
        let p = lp.last();
        assert(children_of(l, lp[lp.len() - 1].0).len() == 0);
        let depth = descendants_of(l, p.0).len();
        let lv = crate::key::level_pairs(d, children_of(l, p.0), children_of(l, p.1));
        assert(lv.len() == 0);
        if depth > 0 {
            assert(crate::key::pairs_flat(d, l, lv, (depth - 1) as nat) == Seq::<(WidgetId, WidgetId)>::empty());
        }
        assert(crate::key::child_pairs(d, l, p.0, p.1, depth) =~= Seq::<(WidgetId, WidgetId)>::empty());
        assert(crate::key::state_pairs(d, l, p.0, p.1, depth) =~= seq![p]);
        assert(lp.drop_last() + seq![p] =~= lp);
    }
}

proof fn lemma_remove_all_layers(l: Map<WidgetId, Links>, d: Map<WidgetId, (bool, Seq<Layer>)>, xs: Seq<WidgetId>)
    ensures
        remove_all(l, d, xs).1.dom() == d.dom(),
        forall|x: WidgetId| #[trigger] d.contains_key(x) ==> remove_all(l, d, xs).1[x].1 == d[x].1,
    decreases xs.len(),
{
    if xs.len() > 0 {
        lemma_remove_all_layers(l, d, xs.drop_last());
        let prev = remove_all(l, d, xs.drop_last());
        let x = xs.last();
        if !dropped_in(prev.1, x) && !pinned_in(prev.1, x) {
            let m = all_marked(prev.1, seq![x] + descendants_of(prev.0, x));
            assert(m.dom() =~= prev.1.dom());
        }
    }
}

/// Key continuity across a list splice: when the old and new roots are keyed
/// leaves, new roots fresh, old roots not yet replaced, keys unique among the
/// old roots and no root on both sides, then after `splice_multi` each new
/// root has a value before exactly when an old root had its key (the first
/// such old root's value), so it is updated rather than entered; each old root
/// has a successor exactly when a new root has its key, so it is leaving
/// otherwise.
pub proof fn lemma_splice_key_continuity(
    l1: Map<WidgetId, Links>,
    dt: Map<WidgetId, (bool, Seq<Layer>)>,
    olds: Seq<WidgetId>,
    new: Seq<WidgetId>,
    key_links: Seq<(WidgetId, WidgetId)>,
)
    requires
        forall|i: int| 0 <= i < olds.len() ==> children_of(l1, #[trigger] olds[i]).len() == 0,
        forall|j: int| 0 <= j < new.len() ==> children_of(l1, #[trigger] new[j]).len() == 0,
        key_links == crate::key::pairs_flat_auto(
            dt,
            l1,
            crate::key::multi_pairs(olds, crate::key::keys_of(dt, olds), new, crate::key::keys_of(dt, new)),
        ),
        forall|i: int|
            0 <= i < olds.len() ==> crate::key::key_in(dt, #[trigger] olds[i]) is Some && !crate::key::key_state(
                dt,
                olds[i],
            ).has_next,
        forall|j: int| 0 <= j < new.len() ==> crate::key::keyed_fresh(dt, #[trigger] new[j]),
        (olds + new).no_duplicates(),
        forall|i: int, i2: int|
            0 <= i < olds.len() && 0 <= i2 < olds.len() && i != i2 ==> crate::key::key_state(dt, #[trigger] olds[i]).key
                != crate::key::key_state(dt, #[trigger] olds[i2]).key,
    ensures
        ({
            let ok = crate::key::keys_of(dt, olds);
            let nk = crate::key::keys_of(dt, new);
            let df = remove_all(l1, applied(dt, key_links), olds).1;
            &&& forall|j: int|
                0 <= j < new.len() ==> {
                    let k = #[trigger] crate::key::key_state(df, new[j]);
                    &&& crate::key::key_in(df, new[j]) is Some
                    &&& k.value == crate::key::key_state(dt, new[j]).value
                    &&& (k.before is Some <==> ok.contains(nk[j]))
                }
            &&& forall|i: int|
                0 <= i < olds.len() ==> {
                    let k = #[trigger] crate::key::key_state(df, olds[i]);
                    &&& crate::key::key_in(df, olds[i]) is Some
                    &&& k.value == crate::key::key_state(dt, olds[i]).value
                    &&& (k.has_next <==> nk.contains(ok[i]))
                }
        }),
{
    let ok = crate::key::keys_of(dt, olds);
    let nk = crate::key::keys_of(dt, new);
    let matched = crate::key::multi_pairs(olds, ok, new, nk);
    lemma_multi_pairs_members(olds, ok, new, nk);
    assert forall|q: int| 0 <= q < matched.len() implies children_of(l1, (#[trigger] matched[q]).0).len() == 0
        && children_of(l1, matched[q].1).len() == 0 by {
        let a = choose|a: int| 0 <= a < olds.len() && olds[a] == matched[q].0;
        let b = choose|b: int| 0 <= b < new.len() && new[b] == matched[q].1;
        assert(children_of(l1, olds[a]).len() == 0);
        assert(children_of(l1, new[b]).len() == 0);
    }
    lemma_flat_leaves(dt, l1, matched);
    crate::key::lemma_key_continuity(dt, olds, new);
    let d2 = applied(dt, key_links);
    lemma_remove_all_layers(l1, d2, olds);
    let df = remove_all(l1, d2, olds).1;
    assert forall|j: int| 0 <= j < new.len() implies crate::key::key_in(df, #[trigger] new[j]) == crate::key::key_in(d2, new[j]) by {
        if d2.contains_key(new[j]) {
            assert(df[new[j]].1 == d2[new[j]].1);
        }
    }
    assert forall|i: int| 0 <= i < olds.len() implies crate::key::key_in(df, #[trigger] olds[i]) == crate::key::key_in(d2, olds[i]) by {
        if d2.contains_key(olds[i]) {
            assert(df[olds[i]].1 == d2[olds[i]].1);
        }
    }
    assert forall|j: int| 0 <= j < new.len() implies ({
        let k = #[trigger] crate::key::key_state(df, new[j]);
        &&& crate::key::key_in(df, new[j]) is Some
        &&& k.value == crate::key::key_state(dt, new[j]).value
        &&& (k.before is Some <==> ok.contains(nk[j]))
    }) by {
        assert(crate::key::key_state(df, new[j]) == crate::key::key_state(d2, new[j]));
    }
    assert forall|i: int| 0 <= i < olds.len() implies ({
        let k = #[trigger] crate::key::key_state(df, olds[i]);
        &&& crate::key::key_in(df, olds[i]) is Some
        &&& k.value == crate::key::key_state(dt, olds[i]).value
        &&& (k.has_next <==> nk.contains(ok[i]))
    }) by {
        assert(crate::key::key_state(df, olds[i]) == crate::key::key_state(d2, olds[i]));
    }
}


/// A kept child of the new range, whose chain to the root avoids the old
/// root, is not in the subtree walk of the old root once the new root is
/// inserted next to it: disposing the old root leaves the kept child alone.
proof fn lemma_kept_outside_walk(
    lr: Map<WidgetId, Links>,
    o: WidgetId,
    ns: WidgetId,
    ne: WidgetId,
    c: WidgetId,
    ch: Seq<WidgetId>,
    co: Seq<WidgetId>,
    d: Seq<WidgetId>,
)
    requires
        lr.contains_key(c),
        lr[c].parent == Some(ne),
        c != o,
        c != ns,
        ns != o,
        lr.contains_key(ne),
        crate::arena::is_ancestor_chain(lr, ne, ch),
        !ch.contains(o),
        lr.contains_key(o),
        crate::arena::is_ancestor_chain(lr, o, co),
        !co.contains(ns),
        lr.contains_key(ns),
        lr[ns].parent.is_none(),
        crate::arena::desc_closed(crate::arena::inserted_after(lr, o, ns), o, d),
    ensures
        !d.contains(c),
{
    let l1 = crate::arena::inserted_after(lr, o, ns);
    crate::widget_id::lemma_inserted_after_parents(lr, o, ns);
    crate::widget_id::lemma_detached_parents(lr, ns);
    let dd = crate::arena::detached(lr, ns);
    let m1 = dd.insert(ns, Links { parent: dd[o].parent, ..dd[ns] });
    crate::widget_id::lemma_connected_parents(m1, dd[o].parent, Some(o), Some(ns));
    let m2 = crate::arena::connected(m1, dd[o].parent, Some(o), Some(ns));
    crate::widget_id::lemma_connected_parents(m2, dd[o].parent, Some(ns), dd[o].next_sibling);
    assert(l1[ns].parent == lr[o].parent);
    assert(l1.contains_key(ns));
    crate::widget_id::lemma_chain_kept(lr, l1, o, co, ns);
    crate::widget_id::lemma_chain_no_dup(lr, ne, ch);
    let cc = seq![c] + ch;
    crate::widget_id::lemma_chain_join(lr, c, seq![c], ch);
    assert(!cc.contains(o)) by {
        if cc.contains(o) {
            let i = choose|i: int| 0 <= i < cc.len() && cc[i] == o;
            if i > 0 {
                assert(ch[i - 1] == o);
            }
        }
    }
    if !ch.contains(ns) {
        assert(!cc.contains(ns)) by {
            if cc.contains(ns) {
                let i = choose|i: int| 0 <= i < cc.len() && cc[i] == ns;
                if i > 0 {
                    assert(ch[i - 1] == ns);
                }
            }
        }
        crate::widget_id::lemma_chain_kept(lr, l1, c, cc, ns);
        crate::widget_id::lemma_walk_avoids_chain(l1, o, d, c, cc);
    } else {
        let k = choose|k: int| 0 <= k < ch.len() && ch[k] == ns;
        if k < ch.len() - 1 {
            assert(lr[ch[k]].parent == Some(ch[k + 1]));
        }
        assert(cc.last() == ns);
        crate::widget_id::lemma_chain_no_dup(lr, c, cc);
        assert forall|i: int| 0 <= i < cc.len() implies #[trigger] l1.contains_key(cc[i]) by {
            assert(lr.contains_key(cc[i]));
        }
        assert forall|i: int| 0 <= i < cc.len() - 1 implies l1[#[trigger] cc[i]].parent == Some(cc[i + 1]) by {
            assert(cc[i] != ns) by {
                assert(cc[cc.len() - 1] == ns);
            }
            assert(lr.contains_key(cc[i]));
        }
        crate::widget_id::lemma_chain_no_dup(l1, o, co);
        if lr[o].parent.is_none() {
            assert(crate::arena::is_ancestor_chain(l1, c, cc));
            crate::widget_id::lemma_walk_avoids_chain(l1, o, d, c, cc);
        } else {
            assert(co.len() > 1);
            let c2 = co.drop_first();
            assert(co[1] == lr[o].parent.unwrap());
            assert(l1.contains_key(co[1]));
            assert(crate::arena::is_ancestor_chain(l1, co[1], c2)) by {
                assert forall|i: int| 0 <= i < c2.len() implies #[trigger] l1.contains_key(c2[i]) by {
                    assert(c2[i] == co[i + 1]);
                }
                assert forall|i: int| 0 <= i < c2.len() - 1 implies l1[#[trigger] c2[i]].parent == Some(c2[i + 1]) by {
                    assert(c2[i] == co[i + 1]);
                    assert(c2[i + 1] == co[i + 2]);
                }
            }
            crate::widget_id::lemma_chain_join(l1, c, cc, c2);
            assert(!(cc + c2).contains(o)) by {
                if (cc + c2).contains(o) {
                    let i = choose|i: int| 0 <= i < (cc + c2).len() && (cc + c2)[i] == o;
                    if i >= cc.len() {
                        assert(co[i - cc.len() + 1] == o);
                        assert(co[0] == o);
                    }
                }
            }
            crate::widget_id::lemma_walk_avoids_chain(l1, o, d, c, cc + c2);
        }
    }
}


/// The kept children of a parent splice survive it: after re-attaching, the
/// old root's disposal leaves them as they were.
proof fn lemma_parent_kept_live(
    l0: Map<WidgetId, Links>,
    lr: Map<WidgetId, Links>,
    d0: Map<WidgetId, (bool, Seq<Layer>)>,
    o: WidgetId,
    ns: WidgetId,
    ne: WidgetId,
    kept: Seq<WidgetId>,
    inner: nat,
    key_links: Seq<(WidgetId, WidgetId)>,
    disposed: Seq<WidgetId>,
    df: Map<WidgetId, (bool, Seq<Layer>)>,
)
    requires
        parent_splice_fresh(l0, o, ns, ne, kept),
        l0.contains_key(o),
        d0.contains_key(o),
        d0.contains_key(ns),
        forall|j: int| 0 <= j < kept.len() ==> d0.contains_key(#[trigger] kept[j]),
        forall|j: int|
            0 <= j < kept.len() ==> lr.contains_key(#[trigger] kept[j]) && lr[kept[j]].parent == Some(ne),
        others_same(l0, lr, kept),
        forall|a: WidgetId, ch2: Seq<WidgetId>|
            #[trigger] crate::arena::is_ancestor_chain(l0, a, ch2) && l0.contains_key(a) && (forall|j: int|
                0 <= j < kept.len() ==> !ch2.contains(#[trigger] kept[j])) ==> crate::arena::is_ancestor_chain(
                lr,
                a,
                ch2,
            ),
        ({
            let dk = applied(transplanted(d0, o, ns, inner), key_links);
            &&& pinned_in(dk, o) ==> df == dk
            &&& !pinned_in(dk, o) ==> {
                &&& crate::arena::desc_closed(crate::arena::inserted_after(lr, o, ns), o, disposed)
                &&& df == all_marked(dk, seq![o] + disposed)
            }
        }),
    ensures
        forall|j: int| 0 <= j < kept.len() ==> df.contains_key(#[trigger] kept[j]) && df[kept[j]].0 == d0[kept[j]].0,
{
    reveal(others_same);
    let ch = choose|ch: Seq<WidgetId>|
        #[trigger] crate::arena::is_ancestor_chain(l0, ne, ch) && !ch.contains(o) && forall|j: int|
            0 <= j < kept.len() ==> !ch.contains(#[trigger] kept[j]);
    let co = choose|co: Seq<WidgetId>|
        #[trigger] crate::arena::is_ancestor_chain(l0, o, co) && !co.contains(ns) && forall|j: int|
            0 <= j < kept.len() ==> !co.contains(#[trigger] kept[j]);
    assert(crate::arena::is_ancestor_chain(lr, ne, ch));
    assert(crate::arena::is_ancestor_chain(lr, o, co));
    assert(lr.contains_key(ns) && lr[ns].parent.is_none());
    let dt = transplanted(d0, o, ns, inner);
    let dk = applied(dt, key_links);
    crate::key::lemma_applied_keeps_flags(dt, key_links);
    assert forall|j: int| 0 <= j < kept.len() implies df.contains_key(#[trigger] kept[j]) && df[kept[j]].0
        == d0[kept[j]].0 by {
        let c = kept[j];
        assert(c != o) by {
            assert(co[0] == o);
            assert(!co.contains(kept[j]));
        }
        assert(c != ns) by {
            assert(kept.contains(c));
        }
        assert(dt.contains_key(c) && dt[c].0 == d0[c].0);
        if !pinned_in(dk, o) {
            lemma_kept_outside_walk(lr, o, ns, ne, c, ch, co, disposed);
            assert(!(seq![o] + disposed).contains(c)) by {
                if (seq![o] + disposed).contains(c) {
                    let i = choose|i: int| 0 <= i < disposed.len() + 1 && (seq![o] + disposed)[i] == c;
                    if i > 0 {
                        assert(disposed[i - 1] == c);
                    }
                }
            }
        }
    }
}

} // verus!
