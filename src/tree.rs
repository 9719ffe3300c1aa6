//! The tree context: the arena, the set of nodes that need layout, and the
//! regeneration marks with their deferred clean-up queue.
use crate::arena::{arena_data, arena_links, detached, TreeArena, WidgetId};
use crate::query::{matches_outside_first, Layer, Render};
use crate::widget_id::{arena_ancestor_path, disposed, dropped_spec, new_arena, new_node};
use std::collections::HashSet;
use vstd::prelude::*;

verus! {

broadcast use vstd::std_specs::hash::group_hash_axioms;

pub struct WidgetTree {
    pub arena: TreeArena,
    /// Indices of the nodes that need layout.
    pub dirty_set: HashSet<usize>,
    /// Indices of the nodes that are being regenerated.
    pub regenerating: HashSet<usize>,
    /// Marks to clear when the deferred tasks run, before the next frame.
    pub deferred_clears: Vec<WidgetId>,
    /// Roots removed from their parents while pinned: alive and painted until
    /// their pin is released.
    pub delay_drops: Vec<WidgetId>,
}

/// The ids of `s` up to and including the first occurrence of `x`; all of `s`
/// when `x` does not occur.
pub open spec fn prefix_until(s: Seq<WidgetId>, x: WidgetId) -> Seq<WidgetId>
    decreases s.len(),
{
    if s.len() == 0 {
        s
    } else if s[0] == x {
        seq![x]
    } else {
        seq![s[0]] + prefix_until(s.drop_first(), x)
    }
}

pub open spec fn indices(s: Seq<WidgetId>) -> Set<usize> {
    Set::new(|i: usize| exists|j: int| 0 <= j < s.len() && s[j].0 == i)
}

/// The nodes that a mark over `[start, end]` covers: `end` and its ancestors
/// up to `start`, or `start` alone.
pub open spec fn marked_range(a: TreeArena, start: WidgetId, end: Option<WidgetId>) -> Seq<WidgetId> {
    match end {
        None => seq![start],
        Some(e) => prefix_until(arena_ancestor_path(a, e).reverse(), start),
    }
}

/// Whether a strict ancestor of `id` is marked regenerating.
pub open spec fn in_another_regenerating(a: TreeArena, marks: Set<usize>, id: WidgetId) -> bool {
    exists|i: int|
        0 <= i < arena_ancestor_path(a, id).len() - 1 && marks.contains(
            #[trigger] arena_ancestor_path(a, id)[i].0,
        )
}

impl WidgetTree {
    pub fn new() -> (r: WidgetTree)
        ensures
            arena_links(r.arena).dom().is_empty(),
            r.dirty_set@.is_empty(),
            r.regenerating@.is_empty(),
            r.deferred_clears@.len() == 0,
            r.delay_drops@.len() == 0,
    {
        WidgetTree {
            arena: new_arena(),
            dirty_set: HashSet::new(),
            regenerating: HashSet::new(),
            deferred_clears: Vec::new(),
            delay_drops: Vec::new(),
        }
    }

    /// Allocate a detached node holding `render`.
    pub fn alloc_widget(&mut self, render: Render) -> (r: WidgetId)
        ensures
            !arena_links(old(self).arena).contains_key(r),
            arena_links(final(self).arena) == arena_links(old(self).arena).insert(
                r,
                crate::arena::detached_links(),
            ),
            crate::arena::arena_data(final(self).arena) == crate::arena::arena_data(
                old(self).arena,
            ).insert(r, (false, render.layers@)),
            final(self).dirty_set == old(self).dirty_set,
            final(self).regenerating == old(self).regenerating,
            final(self).deferred_clears == old(self).deferred_clears,
            final(self).delay_drops == old(self).delay_drops,
    {
        new_node(&mut self.arena, render)
    }

    /// Record that `id` needs layout; a dropped node is ignored.
    pub fn mark_dirty(&mut self, id: WidgetId)
        ensures
            final(self).dirty_set@ == (if dropped_spec(old(self).arena, id) {
                old(self).dirty_set@
            } else {
                old(self).dirty_set@.insert(id.0)
            }),
            final(self).arena == old(self).arena,
            final(self).regenerating == old(self).regenerating,
            final(self).deferred_clears == old(self).deferred_clears,
            final(self).delay_drops == old(self).delay_drops,
    {
        if !id.is_dropped(&self.arena) {
            self.dirty_set.insert(id.0);
        }
    }

    pub fn is_dirty(&self, id: WidgetId) -> (r: bool)
        ensures
            r == self.dirty_set@.contains(id.0),
    {
        self.dirty_set.contains(&id.0)
    }

    /// Take the nodes that need layout, leaving none.
    pub fn take_dirty(&mut self) -> (r: HashSet<usize>)
        ensures
            r@ == old(self).dirty_set@,
            final(self).dirty_set@.is_empty(),
            final(self).arena == old(self).arena,
            final(self).regenerating == old(self).regenerating,
            final(self).deferred_clears == old(self).deferred_clears,
            final(self).delay_drops == old(self).delay_drops,
    {
        let mut r: HashSet<usize> = HashSet::new();
        std::mem::swap(&mut r, &mut self.dirty_set);
        r
    }

    /// Mark `start`, or the nodes from `end` up to `start`, regenerating.
    pub fn mark_widgets_regenerating(&mut self, start: WidgetId, end: Option<WidgetId>)
        ensures
            final(self).regenerating@ == old(self).regenerating@.union(
                indices(marked_range(old(self).arena, start, end)),
            ),
            final(self).arena == old(self).arena,
            final(self).dirty_set == old(self).dirty_set,
            final(self).deferred_clears == old(self).deferred_clears,
            final(self).delay_drops == old(self).delay_drops,
    {
        match end {
            None => {
                self.regenerating.insert(start.0);
                proof {
                    assert(indices(seq![start]) =~= set![start.0]) by {
                        assert(seq![start][0].0 == start.0);
                    }
                    assert(self.regenerating@ =~= old(self).regenerating@.union(
                        indices(seq![start]),
                    ));
                }
            },
            Some(e) => {
                let path = e.ancestors(&self.arena);
                let ghost s = path@;
                proof {
                    crate::widget_id::lemma_ancestors_path(self.arena, e, s);
                }
                proof {
                    assert(s.skip(0) =~= s);
                    assert(s.take(0) + prefix_until(s, start) =~= prefix_until(s, start));
                    assert(indices(s.take(0)) =~= Set::<usize>::empty());
                    assert(self.regenerating@ =~= old(self).regenerating@.union(indices(s.take(0))));
                }
                let mut i: usize = 0;
                let mut done = false;
                while i < path.len() && !done
                    invariant
                        i <= s.len(),
                        s == path@,
                        s == arena_ancestor_path(old(self).arena, e).reverse(),
                        self.arena == old(self).arena,
                        self.dirty_set == old(self).dirty_set,
                        self.deferred_clears == old(self).deferred_clears,
                        self.delay_drops == old(self).delay_drops,
                        done ==> prefix_until(s, start) == s.take(i as int),
                        !done ==> prefix_until(s, start) == s.take(i as int) + prefix_until(
                            s.skip(i as int),
                            start,
                        ),
                        self.regenerating@ == old(self).regenerating@.union(
                            indices(s.take(i as int)),
                        ),
                    decreases s.len() - i,
                {
                    let x = path[i];
                    self.regenerating.insert(x.0);
                    proof {
                        let t = s.skip(i as int);
                        assert(t[0] == x);
                        assert(t.drop_first() =~= s.skip(i + 1));
                        assert(s.take(i + 1) =~= s.take(i as int) + seq![x]);
                        if x == start {
                            assert(prefix_until(t, start) == seq![x]);
                        } else {
                            assert(prefix_until(t, start) == seq![x] + prefix_until(
                                s.skip(i + 1),
                                start,
                            ));
                            assert(s.take(i as int) + (seq![x] + prefix_until(s.skip(i + 1), start))
                                =~= s.take(i + 1) + prefix_until(s.skip(i + 1), start));
                        }
                        lemma_indices_push(s.take(i as int), x);
                        assert(self.regenerating@ =~= old(self).regenerating@.union(
                            indices(s.take(i + 1)),
                        ));
                    }
                    if x == start {
                        done = true;
                    }
                    i = i + 1;
                }
                proof {
                    if !done {
                        assert(s.skip(i as int).len() == 0);
                        assert(s.take(i as int) + prefix_until(s.skip(i as int), start) =~= s.take(
                            i as int,
                        ));
                    }
                }
            },
        }
    }

    /// Whether a strict ancestor of `id` is being regenerated; the mark of
    /// `id` itself is its own regeneration and does not count.
    pub fn is_in_another_regenerating(&self, id: WidgetId) -> (r: bool)
        ensures
            r == in_another_regenerating(self.arena, self.regenerating@, id),
    {
        let path = id.ancestors(&self.arena);
        proof {
            crate::widget_id::lemma_ancestors_path(self.arena, id, path@);
        }
        let ghost p = arena_ancestor_path(self.arena, id);
        let mut i: usize = 1;
        while i < path.len()
            invariant
                1 <= i,
                p == arena_ancestor_path(self.arena, id),
                path@ == p.reverse(),
                forall|j: int|
                    #![trigger p[j]]
                    p.len() - i <= j < p.len() - 1 ==> !self.regenerating@.contains(p[j].0),
            decreases path@.len() - i,
        {
            if self.regenerating.contains(&path[i].0) {
                proof {
                    let j = p.len() - 1 - i;
                    assert(p[j] == path@[i as int]);
                    assert(0 <= j < p.len() - 1 && self.regenerating@.contains(p[j].0));
                    assert(in_another_regenerating(self.arena, self.regenerating@, id));
                }
                return true;
            }
            proof {
                assert(p[p.len() - 1 - i] == path@[i as int]);
            }
            i = i + 1;
        }
        proof {
            if in_another_regenerating(self.arena, self.regenerating@, id) {
                let j = choose|j: int|
                    0 <= j < p.len() - 1 && self.regenerating@.contains(#[trigger] p[j].0);
                assert(p.len() - i <= j);
            }
        }
        false
    }

    /// Schedule the mark of `id` to be cleared when the deferred tasks run.
    pub fn defer_remove_regenerating_mark(&mut self, id: WidgetId)
        ensures
            final(self).deferred_clears@ == old(self).deferred_clears@.push(id),
            final(self).arena == old(self).arena,
            final(self).dirty_set == old(self).dirty_set,
            final(self).regenerating == old(self).regenerating,
            final(self).delay_drops == old(self).delay_drops,
    {
        self.deferred_clears.push(id);
    }

    pub fn remove_regenerating_mark(&mut self, id: WidgetId)
        ensures
            final(self).regenerating@ == old(self).regenerating@.remove(id.0),
            final(self).arena == old(self).arena,
            final(self).dirty_set == old(self).dirty_set,
            final(self).deferred_clears == old(self).deferred_clears,
            final(self).delay_drops == old(self).delay_drops,
    {
        self.regenerating.remove(&id.0);
    }

    /// Run the deferred tasks: clear every scheduled mark.
    pub fn run_deferred(&mut self)
        ensures
            final(self).regenerating@ == old(self).regenerating@.difference(
                indices(old(self).deferred_clears@),
            ),
            final(self).deferred_clears@.len() == 0,
            final(self).arena == old(self).arena,
            final(self).dirty_set == old(self).dirty_set,
            final(self).delay_drops == old(self).delay_drops,
    {
        let mut tasks: Vec<WidgetId> = Vec::new();
        std::mem::swap(&mut tasks, &mut self.deferred_clears);
        let mut i: usize = 0;
        while i < tasks.len()
            invariant
                i <= tasks@.len(),
                tasks@ == old(self).deferred_clears@,
                self.deferred_clears@.len() == 0,
                self.delay_drops == old(self).delay_drops,
                self.arena == old(self).arena,
                self.dirty_set == old(self).dirty_set,
                self.regenerating@ == old(self).regenerating@.difference(
                    indices(tasks@.take(i as int)),
                ),
            decreases tasks@.len() - i,
        {
            self.remove_regenerating_mark(tasks[i]);
            proof {
                assert(tasks@.take(i + 1) =~= tasks@.take(i as int) + seq![tasks@[i as int]]);
                lemma_indices_push(tasks@.take(i as int), tasks@[i as int]);
                assert(self.regenerating@ =~= old(self).regenerating@.difference(
                    indices(tasks@.take(i + 1)),
                ));
            }
            i = i + 1;
        }
        proof {
            assert(tasks@.take(i as int) =~= tasks@);
        }
    }
}

pub proof fn lemma_indices_push(s: Seq<WidgetId>, x: WidgetId)
    ensures
        indices(s + seq![x]) == indices(s).insert(x.0),
{
    let t = s + seq![x];
    assert forall|i: usize| indices(t).contains(i) == indices(s).insert(x.0).contains(i) by {
        if indices(t).contains(i) {
            let j = choose|j: int| 0 <= j < t.len() && t[j].0 == i;
            if j < s.len() {
                assert(s[j].0 == i);
            }
        }
        if indices(s).contains(i) {
            let j = choose|j: int| 0 <= j < s.len() && s[j].0 == i;
            assert(t[j].0 == i);
        }
        if i == x.0 {
            assert(t[s.len() as int].0 == i);
        }
    }
    assert(indices(t) =~= indices(s).insert(x.0));
}


/// The tag of the data layer that pins a node: value zero keeps a removed
/// node alive, any other value lets it go.
pub const DELAY_DROP_TAG: u64 = 2;

/// Whether the outermost pin layer of `id` holds it.
pub open spec fn pinned_spec(a: TreeArena, id: WidgetId) -> bool {
    pinned_in(arena_data(a), id)
}

pub open spec fn pinned_in(d: Map<WidgetId, (bool, Seq<Layer>)>, id: WidgetId) -> bool {
    &&& d.contains_key(id)
    &&& {
        let ls = d[id].1;
        let m = matches_outside_first(ls, DELAY_DROP_TAG);
        m.len() > 0 && ls[m[0] as int] == Layer::Data(DELAY_DROP_TAG, 0)
    }
}

/// The effect of removing `id` from the tree: a pinned live node is only
/// unlinked and kept for later; any other is disposed.
pub open spec fn removed(t0: WidgetTree, t1: WidgetTree, id: WidgetId, r: Seq<WidgetId>) -> bool {
    if pinned_spec(t0.arena, id) && !dropped_spec(t0.arena, id) {
        &&& arena_data(t1.arena) == arena_data(t0.arena)
        &&& arena_links(t1.arena) == (if arena_links(t0.arena).contains_key(id) {
            detached(arena_links(t0.arena), id)
        } else {
            arena_links(t0.arena)
        })
        &&& t1.delay_drops@ == t0.delay_drops@.push(id)
        &&& r.len() == 0
    } else {
        &&& disposed(t0.arena, t1.arena, id, r)
        &&& t1.delay_drops == t0.delay_drops
    }
}

impl WidgetTree {
    pub fn is_pinned(&self, id: WidgetId) -> (r: bool)
        ensures
            r == pinned_spec(self.arena, id),
    {
        match id.get(&self.arena) {
            Some(render) => {
                let m = render.query_most_outside(DELAY_DROP_TAG);
                let ghost n = render.layers.len();
                match m {
                    Some(i) => {
                        proof {
                            crate::key::lemma_matches_valid_pub(render.layers@, DELAY_DROP_TAG);
                        }
                        render.layers[i] == Layer::Data(DELAY_DROP_TAG, 0)
                    },
                    None => false,
                }
            },
            None => false,
        }
    }

    /// Pin or release a node: its outermost pin layer is set in place, or one
    /// is attached when it has none.
    pub fn set_pin(&mut self, id: WidgetId, pinned: bool)
        ensures
            arena_data(final(self).arena).dom() == arena_data(old(self).arena).dom(),
            arena_links(final(self).arena) == arena_links(old(self).arena),
            arena_data(old(self).arena).contains_key(id) ==> pinned_spec(final(self).arena, id) == pinned,
            final(self).dirty_set == old(self).dirty_set,
            final(self).regenerating == old(self).regenerating,
            final(self).deferred_clears == old(self).deferred_clears,
            final(self).delay_drops == old(self).delay_drops,
    {
        let v: u64 = if pinned {
            0
        } else {
            1
        };
        let copy = match id.get_node(&self.arena) {
            Some(n) => Some(crate::widget_id::copy_node(n)),
            None => None,
        };
        if let Some(mut n) = copy {
            let ghost before = n.render.layers@;
            let m = n.render.query_most_outside(DELAY_DROP_TAG);
            let ghost len = n.render.layers.len();
            match m {
                Some(i) => {
                    proof {
                        crate::key::lemma_matches_valid_pub(before, DELAY_DROP_TAG);
                    }
                    n.render.layers.set(i, Layer::Data(DELAY_DROP_TAG, v));
                    proof {
                        let after = n.render.layers@;
                        assert forall|j: int| 0 <= j < before.len() implies crate::query::layer_tag(
                            #[trigger] before[j],
                        ) == crate::query::layer_tag(after[j]) by {}
                        crate::key::lemma_matches_same_tags_pub(before, after, DELAY_DROP_TAG);
                    }
                },
                None => {
                    n.render.wrap(Layer::Data(DELAY_DROP_TAG, v));
                    proof {
                        let after = n.render.layers@;
                        assert(after.drop_last() =~= before);
                        assert(crate::query::matches_inside_first(after, DELAY_DROP_TAG) == crate::query::matches_inside_first(before, DELAY_DROP_TAG).push((after.len() - 1) as usize));
                    }
                },
            }
            crate::arena::arena_set(&mut self.arena, id, n);
            proof {
                let d = arena_data(self.arena);
                assert(d.dom() =~= arena_data(old(self).arena).dom());
            }
        }
    }

    /// Remove `id` from the tree: a pinned node is unlinked and kept alive,
    /// still painted, until its pin is released; any other node is disposed
    /// with its subtree. Returns the disposed nodes.
    pub fn remove_widget(&mut self, id: WidgetId) -> (r: Vec<WidgetId>)
        ensures
            removed(*old(self), *final(self), id, r@),
            final(self).dirty_set == old(self).dirty_set,
            final(self).regenerating == old(self).regenerating,
            final(self).deferred_clears == old(self).deferred_clears,
    {
        if self.is_pinned(id) && !id.is_dropped(&self.arena) {
            crate::arena::arena_detach(&mut self.arena, id);
            self.delay_drops.push(id);
            Vec::new()
        } else {
            id.dispose_subtree(&mut self.arena)
        }
    }

    /// Dispose every kept node whose pin is released, with its subtree;
    /// returns the disposed nodes. The nodes still pinned stay kept.
    pub fn release_delay_drops(&mut self) -> (r: Vec<WidgetId>)
        ensures
            forall|i: int|
                0 <= i < final(self).delay_drops@.len() ==> old(self).delay_drops@.contains(
                    #[trigger] final(self).delay_drops@[i],
                ) && pinned_spec(old(self).arena, final(self).delay_drops@[i]),
            forall|i: int|
                0 <= i < old(self).delay_drops@.len() ==> (pinned_spec(
                    old(self).arena,
                    #[trigger] old(self).delay_drops@[i],
                ) ==> final(self).delay_drops@.contains(old(self).delay_drops@[i])) && (
                !pinned_spec(old(self).arena, old(self).delay_drops@[i]) ==> dropped_spec(
                    final(self).arena,
                    old(self).delay_drops@[i],
                )),
            forall|x: WidgetId|
                #[trigger] arena_data(old(self).arena).contains_key(x) ==> arena_data(
                    final(self).arena,
                ).contains_key(x) && arena_data(final(self).arena)[x].1 == arena_data(
                    old(self).arena,
                )[x].1,
            ({
                let rl = release_all(
                    arena_links(old(self).arena),
                    arena_data(old(self).arena),
                    old(self).delay_drops@,
                );
                &&& arena_links(final(self).arena) == rl.0
                &&& arena_data(final(self).arena) == rl.1
                &&& r@ == rl.2
                &&& final(self).delay_drops@ == rl.3
            }),
            final(self).dirty_set == old(self).dirty_set,
            final(self).regenerating == old(self).regenerating,
            final(self).deferred_clears == old(self).deferred_clears,
    {
        let ghost l00 = arena_links(self.arena);
        let mut list: Vec<WidgetId> = Vec::new();
        std::mem::swap(&mut list, &mut self.delay_drops);
        proof {
            assert(list@.take(0) =~= Seq::<WidgetId>::empty());
        }
        let ghost d0 = arena_data(self.arena);
        let ghost a0 = self.arena;
        let mut gone: Vec<WidgetId> = Vec::new();
        let mut i: usize = 0;
        while i < list.len()
            invariant
                i <= list@.len(),
                list@ == old(self).delay_drops@,
                l00 == arena_links(old(self).arena),
                ({
                    let rl = release_all(l00, d0, list@.take(i as int));
                    &&& arena_links(self.arena) == rl.0
                    &&& arena_data(self.arena) == rl.1
                    &&& gone@ == rl.2
                    &&& self.delay_drops@ == rl.3
                }),
                a0 == old(self).arena,
                d0 == arena_data(a0),
                forall|x: WidgetId|
                    #[trigger] d0.contains_key(x) ==> arena_data(self.arena).contains_key(x)
                        && arena_data(self.arena)[x].1 == d0[x].1,
                arena_data(self.arena).dom() == d0.dom(),
                forall|j: int|
                    0 <= j < self.delay_drops@.len() ==> list@.contains(#[trigger] self.delay_drops@[j])
                        && pinned_spec(a0, self.delay_drops@[j]),
                forall|j: int|
                    0 <= j < i ==> (pinned_spec(a0, #[trigger] list@[j]) ==> self.delay_drops@.contains(
                        list@[j],
                    )) && (!pinned_spec(a0, list@[j]) ==> dropped_spec(self.arena, list@[j])),
                self.dirty_set == old(self).dirty_set,
                self.regenerating == old(self).regenerating,
                self.deferred_clears == old(self).deferred_clears,
            decreases list@.len() - i,
        {
            let id = list[i];
            proof {
                lemma_pinned_same(a0, self.arena, id);
                assert(list@.take(i + 1).drop_last() =~= list@.take(i as int));
                assert(list@.take(i + 1).last() == id);
            }
            if self.is_pinned(id) {
                let ghost before = self.delay_drops@;
                self.delay_drops.push(id);
                proof {
                    assert(list@[i as int] == id);
                    assert forall|j: int| 0 <= j < self.delay_drops@.len() implies list@.contains(
                        #[trigger] self.delay_drops@[j],
                    ) && pinned_spec(a0, self.delay_drops@[j]) by {
                        if j == self.delay_drops@.len() - 1 {
                            assert(list@[i as int] == self.delay_drops@[j]);
                        } else {
                            assert(self.delay_drops@[j] == before[j]);
                        }
                    }
                    assert forall|j: int| 0 <= j < i + 1 implies (pinned_spec(a0, #[trigger] list@[j])
                        ==> self.delay_drops@.contains(list@[j])) && (!pinned_spec(a0, list@[j])
                        ==> dropped_spec(self.arena, list@[j])) by {
                        if j == i {
                            assert(self.delay_drops@[self.delay_drops@.len() - 1] == id);
                        } else if pinned_spec(a0, list@[j]) {
                            let q = choose|q: int| 0 <= q < before.len() && before[q] == list@[j];
                            assert(self.delay_drops@[q] == list@[j]);
                        }
                    }
                }
            } else {
                let ghost ab = self.arena;
                let mut d = id.dispose_subtree(&mut self.arena);
                proof {
                    let db = arena_data(ab);
                    if !dropped_spec(ab, id) {
                        assert((seq![id] + d@)[0] == id);
                        assert((seq![id] + d@).contains(id));
                        assert(arena_data(self.arena).dom() =~= db.dom());
                    }
                    assert(dropped_spec(self.arena, id));
                    assert forall|x: WidgetId| #[trigger] d0.contains_key(x) implies arena_data(
                        self.arena,
                    ).contains_key(x) && arena_data(self.arena)[x].1 == d0[x].1 by {
                        assert(db.contains_key(x));
                    }
                    assert forall|j: int| 0 <= j < i implies (!pinned_spec(a0, #[trigger] list@[j])
                        ==> dropped_spec(self.arena, list@[j])) by {
                        let y = list@[j];
                        if !pinned_spec(a0, y) && !dropped_spec(ab, id) {
                            assert(dropped_spec(ab, y));
                            if db.contains_key(y) {
                                assert(arena_data(self.arena)[y] == (if (seq![id] + d@).contains(y) {
                                    (true, db[y].1)
                                } else {
                                    db[y]
                                }));
                            }
                        }
                    }
                }
                gone.append(&mut d);
            }
            i = i + 1;
        }
        proof {
            assert(list@.take(i as int) =~= list@);
        }
        gone
    }
}

/// Releasing the kept roots `xs` in order: a root still pinned stays kept,
/// any other is disposed with its subtree. The links, the payloads, the
/// disposed nodes and the roots still kept.
pub open spec fn release_all(
    l: Map<WidgetId, crate::arena::Links>,
    d: Map<WidgetId, (bool, Seq<Layer>)>,
    xs: Seq<WidgetId>,
) -> (Map<WidgetId, crate::arena::Links>, Map<WidgetId, (bool, Seq<Layer>)>, Seq<WidgetId>, Seq<WidgetId>)
    decreases xs.len(),
{
    if xs.len() == 0 {
        (l, d, Seq::empty(), Seq::empty())
    } else {
        let prev = release_all(l, d, xs.drop_last());
        let x = xs.last();
        let (l1, d1, g, k) = prev;
        if pinned_in(d1, x) {
            (l1, d1, g, k.push(x))
        } else if !d1.contains_key(x) || d1[x].0 {
            prev
        } else {
            let gone = crate::arena::descendants_of(l1, x);
            let l2 = if l1.contains_key(x) {
                detached(l1, x)
            } else {
                l1
            };
            (l2, crate::widget_id::all_marked(d1, seq![x] + gone), g + gone, k)
        }
    }
}

/// Whether a node is pinned depends on its layers alone.
pub proof fn lemma_pinned_same(a: TreeArena, b: TreeArena, id: WidgetId)
    requires
        arena_data(b).dom() == arena_data(a).dom(),
        arena_data(a).contains_key(id) ==> arena_data(b)[id].1 == arena_data(a)[id].1,
    ensures
        pinned_spec(a, id) == pinned_spec(b, id),
{
}

} // verus!
