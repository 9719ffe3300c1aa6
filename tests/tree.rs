use ribir_tree::arena::WidgetId;
use ribir_tree::key::{inspect_key, update_key_state_multi};
use ribir_tree::pipe::{ModifyScope, PipeRecord};
use ribir_tree::query::{KeyWidget, Layer, Render};
use ribir_tree::tree::WidgetTree;
use ribir_tree::widget_id::{empty_node, new_arena, new_node};

const BOX: u64 = 10;

fn node(tree: &mut WidgetTree) -> WidgetId {
    tree.alloc_widget(Render::new(BOX))
}

fn keyed(tree: &mut WidgetTree, key: u64, value: u64) -> WidgetId {
    let mut r = Render::new(BOX);
    r.wrap(Layer::Key(KeyWidget::new(key, value)));
    tree.alloc_widget(r)
}

#[test]
fn navigation_follows_links() {
    let mut arena = new_arena();
    let root = new_node(&mut arena, Render::new(BOX));
    let a = new_node(&mut arena, Render::new(BOX));
    let b = empty_node(&mut arena);
    let c = new_node(&mut arena, Render::new(BOX));
    assert_ne!(root, a);
    root.append(a, &mut arena).unwrap();
    root.append(c, &mut arena).unwrap();
    a.insert_after(b, &mut arena).unwrap();
    assert_eq!(root.children(&arena), vec![a, b, c]);
    assert_eq!(root.first_child(&arena), Some(a));
    assert_eq!(root.last_child(&arena), Some(c));
    assert_eq!(b.parent(&arena), Some(root));
    assert_eq!(b.next_sibling(&arena), Some(c));
    assert_eq!(b.previous_sibling(&arena), Some(a));
    assert_eq!(b.prev_sibling(&arena), Some(a));
    assert_eq!(a.prev_sibling(&arena), None);
    let d = new_node(&mut arena, Render::new(BOX));
    a.insert_before(d, &mut arena).unwrap();
    assert_eq!(root.children(&arena), vec![d, a, b, c]);
    assert_eq!(root.descendants(&arena), vec![root, d, a, b, c]);
    assert_eq!(b.ancestors(&arena), vec![b, root]);
    assert_eq!(root.single_child(&arena).is_some(), true);
    assert!(b.get(&arena).unwrap().is(0));
}

#[test]
fn refused_links_change_nothing() {
    let mut arena = new_arena();
    let root = new_node(&mut arena, Render::new(BOX));
    let a = new_node(&mut arena, Render::new(BOX));
    root.append(a, &mut arena).unwrap();
    assert!(root.append(root, &mut arena).is_err());
    assert!(a.append(root, &mut arena).is_err());
    assert!(a.insert_after(a, &mut arena).is_err());
    assert_eq!(root.children(&arena), vec![a]);
}

#[test]
fn lowest_common_ancestor_of_cousins() {
    let mut arena = new_arena();
    let root = new_node(&mut arena, Render::new(BOX));
    let a = new_node(&mut arena, Render::new(BOX));
    let b = new_node(&mut arena, Render::new(BOX));
    let a1 = new_node(&mut arena, Render::new(BOX));
    let b1 = new_node(&mut arena, Render::new(BOX));
    root.append(a, &mut arena).unwrap();
    root.append(b, &mut arena).unwrap();
    a.append(a1, &mut arena).unwrap();
    b.append(b1, &mut arena).unwrap();
    assert_eq!(a1.common_ancestors(b1, &arena), vec![root]);
    assert_eq!(a1.lowest_common_ancestor(b1, &arena), Some(root));
    assert_eq!(a1.lowest_common_ancestor(a, &arena), Some(a));
    a.mark_drop(&mut arena);
    assert_eq!(a1.lowest_common_ancestor(a, &arena), None);
}

#[test]
fn dispose_marks_subtree_and_detaches() {
    let mut arena = new_arena();
    let root = new_node(&mut arena, Render::new(BOX));
    let a = new_node(&mut arena, Render::new(BOX));
    let a1 = new_node(&mut arena, Render::new(BOX));
    let b = new_node(&mut arena, Render::new(BOX));
    root.append(a, &mut arena).unwrap();
    root.append(b, &mut arena).unwrap();
    a.append(a1, &mut arena).unwrap();
    let gone = a.dispose_subtree(&mut arena);
    assert_eq!(gone, vec![a, a1]);
    assert!(a.is_dropped(&arena));
    assert!(a1.is_dropped(&arena));
    assert!(!b.is_dropped(&arena));
    assert!(!root.is_dropped(&arena));
    assert_eq!(root.children(&arena), vec![b]);
    assert_eq!(a.parent(&arena), None);
}

#[test]
fn dispose_twice_is_a_no_op() {
    let mut arena = new_arena();
    let root = new_node(&mut arena, Render::new(BOX));
    let a = new_node(&mut arena, Render::new(BOX));
    root.append(a, &mut arena).unwrap();
    assert_eq!(a.dispose_subtree(&mut arena), vec![a]);
    assert_eq!(a.dispose_subtree(&mut arena), Vec::<WidgetId>::new());
    assert!(a.is_dropped(&arena));
    assert!(!root.is_dropped(&arena));
}

#[test]
fn paint_skips_children_without_box() {
    let mut arena = new_arena();
    let root = new_node(&mut arena, Render::new(BOX));
    let a = new_node(&mut arena, Render::new(BOX));
    let a1 = new_node(&mut arena, Render::new(BOX));
    let b = new_node(&mut arena, Render::new(BOX));
    root.append(a, &mut arena).unwrap();
    root.append(b, &mut arena).unwrap();
    a.append(a1, &mut arena).unwrap();
    assert_eq!(root.paint_subtree(&arena, &vec![root, a, a1, b], true), vec![root, a, a1, b]);
    assert_eq!(root.paint_subtree(&arena, &vec![root, a1, b], true), vec![root, b]);
    assert_eq!(root.paint_subtree(&arena, &vec![root, a, a1, b], false), vec![]);
}

#[test]
fn dirty_set_ignores_dropped() {
    let mut tree = WidgetTree::new();
    let a = node(&mut tree);
    let b = node(&mut tree);
    b.mark_drop(&mut tree.arena);
    tree.mark_dirty(a);
    tree.mark_dirty(b);
    assert!(tree.is_dirty(a));
    assert!(!tree.is_dirty(b));
    let taken = tree.take_dirty();
    assert!(taken.contains(&a.0));
    assert!(!tree.is_dirty(a));
}

#[test]
fn regenerating_marks_cover_range() {
    let mut tree = WidgetTree::new();
    let p = node(&mut tree);
    let m = node(&mut tree);
    let e = node(&mut tree);
    let inner = node(&mut tree);
    p.append(m, &mut tree.arena).unwrap();
    m.append(e, &mut tree.arena).unwrap();
    e.append(inner, &mut tree.arena).unwrap();
    tree.mark_widgets_regenerating(p, Some(e));
    assert!(tree.regenerating.contains(&p.0));
    assert!(tree.regenerating.contains(&m.0));
    assert!(tree.regenerating.contains(&e.0));
    assert!(!tree.regenerating.contains(&inner.0));
    assert!(tree.is_in_another_regenerating(inner));
    assert!(tree.is_in_another_regenerating(m));
    assert!(!tree.is_in_another_regenerating(p));
    tree.defer_remove_regenerating_mark(p);
    assert!(tree.regenerating.contains(&p.0));
    tree.run_deferred();
    assert!(!tree.regenerating.contains(&p.0));
    tree.remove_regenerating_mark(m);
    tree.remove_regenerating_mark(e);
    assert!(!tree.is_in_another_regenerating(inner));
}

#[test]
fn debounce_many_writes_one_rebuild() {
    let mut tree = WidgetTree::new();
    let a = node(&mut tree);
    let mut rec: PipeRecord<u32> = PipeRecord::share_capture(vec![a], None, &tree);
    for v in 1..=5 {
        rec.on_modify(ModifyScope::framework(), v, &mut tree);
    }
    rec.on_modify(ModifyScope::data(), 99, &mut tree);
    assert!(tree.regenerating.contains(&a.0));
    assert_eq!(rec.on_new_frame(&mut tree), Some(5));
    assert_eq!(rec.on_new_frame(&mut tree), None);
    tree.run_deferred();
    assert!(!tree.regenerating.contains(&a.0));
}

#[test]
fn data_only_writes_do_not_rebuild() {
    let mut tree = WidgetTree::new();
    let a = node(&mut tree);
    let mut rec: PipeRecord<u32> = PipeRecord::share_capture(vec![a], None, &tree);
    rec.on_modify(ModifyScope::data(), 1, &mut tree);
    assert!(!tree.regenerating.contains(&a.0));
    assert_eq!(rec.on_new_frame(&mut tree), None);
    assert!(ModifyScope::both().contains_framework());
}

#[test]
fn nested_pipe_skips_when_parent_regenerates() {
    let mut tree = WidgetTree::new();
    let a = node(&mut tree);
    let b = node(&mut tree);
    a.append(b, &mut tree.arena).unwrap();
    let mut outer: PipeRecord<u8> = PipeRecord::share_capture(vec![a], None, &tree);
    let mut inner: PipeRecord<u8> = PipeRecord::share_capture(vec![b], None, &tree);
    outer.on_modify(ModifyScope::framework(), 1, &mut tree);
    inner.on_modify(ModifyScope::framework(), 2, &mut tree);
    assert_eq!(inner.on_new_frame(&mut tree), None);
    assert_eq!(outer.on_new_frame(&mut tree), Some(1));
}

#[test]
fn splice_keeps_outside_ids() {
    let mut tree = WidgetTree::new();
    let root = node(&mut tree);
    let a = node(&mut tree);
    let a1 = node(&mut tree);
    let b = node(&mut tree);
    root.append(a, &mut tree.arena).unwrap();
    root.append(b, &mut tree.arena).unwrap();
    a.append(a1, &mut tree.arena).unwrap();
    let mut rec: PipeRecord<u8> = PipeRecord::share_capture(vec![a], None, &tree);
    a.attach_data(Layer::Data(42, 7), &mut tree.arena);
    rec.on_modify(ModifyScope::framework(), 1, &mut tree);
    assert_eq!(rec.on_new_frame(&mut tree), Some(1));
    let n = node(&mut tree);
    let rep = rec.splice_single(n, &mut tree).unwrap();
    assert_eq!(rep.disposed, vec![a, a1]);
    assert_eq!(rep.mounted, vec![n]);
    assert_eq!(root.children(&tree.arena), vec![n, b]);
    assert!(!b.is_dropped(&tree.arena));
    assert!(a1.is_dropped(&tree.arena));
    assert!(tree.is_dirty(n));
    // the attached data moved with the stable slot.
    assert_eq!(n.assert_get(&tree.arena).query_most_outside(42), Some(1));
    assert_eq!(a.assert_get(&tree.arena).query_most_outside(42), None);
}

#[test]
fn key_continuity() {
    let mut tree = WidgetTree::new();
    let old: Vec<WidgetId> = [(1, 1), (2, 2), (3, 3)].iter().map(|(k, v)| keyed(&mut tree, *k, *v)).collect();
    let new: Vec<WidgetId> = [(1, 1), (2, 20), (4, 4)].iter().map(|(k, v)| keyed(&mut tree, *k, *v)).collect();
    let (pairs, links) = update_key_state_multi(&old, &new, &mut tree.arena);
    assert_eq!(pairs, vec![(old[0], new[0]), (old[1], new[1])]);
    assert_eq!(links, pairs);
    let k1 = inspect_key(new[0], &tree.arena).unwrap();
    assert!(!k1.is_enter() && !k1.is_changed());
    assert!(!inspect_key(old[0], &tree.arena).unwrap().is_leave());
    let k2 = inspect_key(new[1], &tree.arena).unwrap();
    assert!(k2.is_changed());
    assert_eq!(k2.get_change(), (Some(2), 20));
    assert!(inspect_key(old[2], &tree.arena).unwrap().is_leave());
    assert!(inspect_key(new[2], &tree.arena).unwrap().is_enter());
}

#[test]
fn duplicate_keys_take_the_first_old() {
    let mut tree = WidgetTree::new();
    let old: Vec<WidgetId> = [(1, 1), (1, 2)].iter().map(|(k, v)| keyed(&mut tree, *k, *v)).collect();
    let new: Vec<WidgetId> = [(1, 3), (5, 5)].iter().map(|(k, v)| keyed(&mut tree, *k, *v)).collect();
    let (pairs, _) = update_key_state_multi(&old, &new, &mut tree.arena);
    assert_eq!(pairs, vec![(old[0], new[0])]);
}

#[test]
fn keyed_list_counts() {
    // enter and leave counts of a keyed list across rebuilds.
    let mut tree = WidgetTree::new();
    let host = node(&mut tree);
    let build = |tree: &mut WidgetTree, items: &[(u64, u64)]| -> Vec<WidgetId> {
        items.iter().map(|(k, v)| keyed(tree, *k, *v)).collect()
    };
    let first = build(&mut tree, &[(1, 1), (2, 2), (3, 3)]);
    for c in &first {
        host.append(*c, &mut tree.arena).unwrap();
    }
    let mut mount = first.len();
    let mut drop = 0;
    let mut changed = vec![];
    let mut rec: PipeRecord<u8> = PipeRecord::share_capture(first, None, &tree);
    assert_eq!(mount, 3);
    let steps: [(&[(u64, u64)], usize, usize); 3] = [
        (&[(1, 1), (2, 2), (3, 3), (4, 4)], 4, 0),
        (&[(1, 1), (2, 2), (3, 3)], 4, 1),
        (&[(1, 1), (2, 22), (3, 3)], 4, 1),
    ];
    for (items, m, d) in steps {
        rec.on_modify(ModifyScope::framework(), 0, &mut tree);
        rec.on_new_frame(&mut tree).unwrap();
        tree.run_deferred();
        let new = build(&mut tree, items);
        let rep = rec.splice_multi(new, &mut tree).unwrap();
        for id in &rep.mounted {
            let k = inspect_key(*id, &tree.arena).unwrap();
            if k.is_enter() {
                mount += 1;
            }
            if k.is_changed() {
                changed.push(k.get_change());
            }
        }
        for id in &rep.disposed {
            if inspect_key(*id, &tree.arena).unwrap().is_leave() {
                drop += 1;
            }
        }
        assert_eq!((mount, drop), (m, d));
    }
    assert_eq!(changed, vec![(Some(2), 22)]);
}

#[test]
fn framework_changes_mark_dirty() {
    let mut tree = WidgetTree::new();
    let a = node(&mut tree);
    ribir_tree::pipe::on_state_modified(&mut tree, a, ModifyScope::data());
    assert!(!tree.is_dirty(a));
    ribir_tree::pipe::on_state_modified(&mut tree, a, ModifyScope::framework());
    assert!(tree.is_dirty(a));
}

#[test]
fn reattach_moves_children_in_order() {
    let mut arena = new_arena();
    let old_end = new_node(&mut arena, Render::new(BOX));
    let new_end = new_node(&mut arena, Render::new(BOX));
    let kept = new_node(&mut arena, Render::new(BOX));
    let c1 = new_node(&mut arena, Render::new(BOX));
    let c2 = new_node(&mut arena, Render::new(BOX));
    new_end.append(kept, &mut arena).unwrap();
    old_end.append(c1, &mut arena).unwrap();
    old_end.append(c2, &mut arena).unwrap();
    ribir_tree::pipe::reattach_children(old_end, new_end, &mut arena).unwrap();
    assert_eq!(new_end.children(&arena), vec![kept, c1, c2]);
    assert_eq!(old_end.children(&arena), Vec::<WidgetId>::new());
    assert_eq!(c2.parent(&arena), Some(new_end));
    // moving a parent below its own child is refused.
    assert!(ribir_tree::pipe::reattach_children(new_end, c1, &mut arena).is_err());
}

#[test]
fn multi_splice_keeps_build_order() {
    let mut tree = WidgetTree::new();
    let host = node(&mut tree);
    let before = node(&mut tree);
    let a = node(&mut tree);
    let b = node(&mut tree);
    let after = node(&mut tree);
    for c in [before, a, b, after] {
        host.append(c, &mut tree.arena).unwrap();
    }
    let mut rec: PipeRecord<u8> = PipeRecord::share_capture(vec![a, b], None, &tree);
    rec.on_modify(ModifyScope::framework(), 0, &mut tree);
    rec.on_new_frame(&mut tree).unwrap();
    let new: Vec<WidgetId> = (0..3).map(|_| node(&mut tree)).collect();
    let rep = rec.splice_multi(new.clone(), &mut tree).unwrap();
    assert_eq!(host.children(&tree.arena), vec![before, new[0], new[1], new[2], after]);
    assert_eq!(rep.disposed, vec![a, b]);
    assert_eq!(rep.mounted, new);
    assert!(a.is_dropped(&tree.arena) && b.is_dropped(&tree.arena));
}

#[test]
fn disposed_root_does_not_rebuild() {
    let mut tree = WidgetTree::new();
    let a = node(&mut tree);
    let mut rec: PipeRecord<u8> = PipeRecord::share_capture(vec![a], None, &tree);
    rec.on_modify(ModifyScope::framework(), 1, &mut tree);
    a.dispose_subtree(&mut tree.arena);
    assert_eq!(rec.on_new_frame(&mut tree), None);
}

#[test]
fn parent_splice_mounts_the_whole_new_range() {
    let mut tree = WidgetTree::new();
    let root = node(&mut tree);
    let p = node(&mut tree);
    let inner = node(&mut tree);
    let child = node(&mut tree);
    root.append(p, &mut tree.arena).unwrap();
    p.append(inner, &mut tree.arena).unwrap();
    inner.append(child, &mut tree.arena).unwrap();
    let mut rec: PipeRecord<u8> = PipeRecord::share_capture(vec![p], Some(inner), &tree);
    rec.on_modify(ModifyScope::framework(), 1, &mut tree);
    rec.on_new_frame(&mut tree).unwrap();
    let np = node(&mut tree);
    let ni = node(&mut tree);
    np.append(ni, &mut tree.arena).unwrap();
    let rep = rec.splice_parent(np, ni, &mut tree).unwrap();
    assert_eq!(rep.mounted, vec![ni, np]);
    assert_eq!(ni.children(&tree.arena), vec![child]);
    assert_eq!(root.children(&tree.arena), vec![np]);
    assert!(!child.is_dropped(&tree.arena));
    assert!(p.is_dropped(&tree.arena) && inner.is_dropped(&tree.arena));
    assert_eq!(rec.range_end, Some(ni));
}
