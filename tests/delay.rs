use ribir_tree::arena::WidgetId;
use ribir_tree::pipe::{ModifyScope, PipeRecord};
use ribir_tree::query::{Layer, Render};
use ribir_tree::tree::{WidgetTree, DELAY_DROP_TAG};
use std::collections::HashMap;

const TASK: u64 = 20;
const MOCK_MULTI: u64 = 11;
const MOCK_BOX: u64 = 10;

fn pinned_node(tree: &mut WidgetTree, tag: u64, pinned: bool) -> WidgetId {
    let mut r = Render::new(tag);
    r.wrap(Layer::Data(DELAY_DROP_TAG, if pinned { 0 } else { 1 }));
    tree.alloc_widget(r)
}

#[derive(Default, Clone)]
struct Task {
    pin: bool,
    paint_cnt: u32,
    layout_cnt: u32,
    wid: Option<WidgetId>,
}

struct Wnd {
    tree: WidgetTree,
    root: WidgetId,
    owner: HashMap<WidgetId, usize>,
    changed: bool,
}

impl Wnd {
    fn draw_frame(&mut self, tasks: &mut [Task]) {
        self.tree.run_deferred();
        let released = self.tree.release_delay_drops();
        let dirty = self.tree.take_dirty();
        for id in dirty.iter() {
            if let Some(t) = self.owner.get(&WidgetId(*id)) {
                tasks[*t].layout_cnt += 1;
            }
        }
        // a frame with nothing changed is not painted again.
        let changed = std::mem::take(&mut self.changed);
        if dirty.is_empty() && released.is_empty() && !changed {
            return;
        }
        let mut roots = vec![self.root];
        roots.extend(self.tree.delay_drops.iter().copied());
        for r in roots {
            let boxes = r.descendants(&self.tree.arena);
            for id in r.paint_subtree(&self.tree.arena, &boxes, true) {
                if let Some(t) = self.owner.get(&id) {
                    tasks[*t].paint_cnt += 1;
                }
            }
        }
    }

    fn child_count(&self) -> usize {
        self.root.children(&self.tree.arena).len()
    }

    fn build(&mut self, tasks: &mut [Task], list: &[usize]) -> Vec<WidgetId> {
        list.iter()
            .map(|t| {
                let id = pinned_node(&mut self.tree, TASK, tasks[*t].pin);
                self.owner.insert(id, *t);
                tasks[*t].wid = Some(id);
                id
            })
            .collect()
    }
}

fn rebuild(wnd: &mut Wnd, rec: &mut PipeRecord<()>, tasks: &mut [Task], list: &[usize]) {
    rec.on_modify(ModifyScope::framework(), (), &mut wnd.tree);
    rec.on_new_frame(&mut wnd.tree).unwrap();
    let new = wnd.build(tasks, list);
    rec.splice_multi(new, &mut wnd.tree).unwrap();
    wnd.changed = true;
}

fn set_pin(wnd: &mut Wnd, tasks: &mut [Task], t: usize, pin: bool) {
    tasks[t].pin = pin;
    let id = tasks[t].wid.unwrap();
    wnd.tree.set_pin(id, pin);
    wnd.changed = true;
}

fn trigger(wnd: &mut Wnd, tasks: &[Task], t: usize) {
    wnd.tree.mark_dirty(tasks[t].wid.unwrap());
}

#[test]
fn delay_drop_widgets() {
    let mut tasks = vec![Task::default(); 3];
    let mut tree = WidgetTree::new();
    let root = tree.alloc_widget(Render::new(MOCK_MULTI));
    let mut wnd = Wnd { tree, root, owner: HashMap::new(), changed: false };
    let first = wnd.build(&mut tasks, &[0, 1, 2]);
    for c in &first {
        root.append(*c, &mut wnd.tree.arena).unwrap();
        wnd.tree.mark_dirty(*c);
    }
    let mut rec: PipeRecord<()> = PipeRecord::share_capture(first, None, &wnd.tree);
    let mut list = vec![0, 1, 2];

    wnd.draw_frame(&mut tasks);
    assert_eq!(wnd.child_count(), 3);

    // the first pinned widget will still paint
    set_pin(&mut wnd, &mut tasks, 0, true);
    list.remove(0);
    rebuild(&mut wnd, &mut rec, &mut tasks, &list);
    wnd.draw_frame(&mut tasks);
    assert_eq!(wnd.child_count(), 2);
    assert_eq!(tasks[0].paint_cnt, 2);

    // the removed pinned widget paints, and does no layout when unchanged
    let first_layout_cnt = tasks[0].layout_cnt;
    set_pin(&mut wnd, &mut tasks, 1, true);
    list.remove(0);
    rebuild(&mut wnd, &mut rec, &mut tasks, &list);
    wnd.draw_frame(&mut tasks);
    assert_eq!(wnd.child_count(), 1);
    assert_eq!(tasks[0].paint_cnt, 3);
    assert_eq!(tasks[1].paint_cnt, 3);
    assert_eq!(tasks[0].layout_cnt, first_layout_cnt);

    // the removed pinned widget only marks itself dirty
    let first_layout_cnt = tasks[0].layout_cnt;
    let second_layout_cnt = tasks[1].layout_cnt;
    let host_layout_cnt = tasks[2].layout_cnt;
    trigger(&mut wnd, &tasks, 0);
    wnd.draw_frame(&mut tasks);
    assert_eq!(tasks[0].layout_cnt, first_layout_cnt + 1);
    assert_eq!(tasks[0].paint_cnt, 4);
    assert_eq!(tasks[1].layout_cnt, second_layout_cnt);
    assert_eq!(tasks[2].layout_cnt, host_layout_cnt);

    // when unpinned, it paints no more
    set_pin(&mut wnd, &mut tasks, 0, false);
    wnd.draw_frame(&mut tasks);
    assert_eq!(tasks[0].paint_cnt, 4);
    assert_eq!(tasks[1].paint_cnt, 5);

    // once released, it neither paints nor lays out
    let first_layout_cnt = tasks[0].layout_cnt;
    trigger(&mut wnd, &tasks, 0);
    wnd.draw_frame(&mut tasks);
    assert_eq!(tasks[0].paint_cnt, 4);
    assert_eq!(tasks[1].paint_cnt, 5);
    assert_eq!(tasks[0].layout_cnt, first_layout_cnt);

    // the other pinned widget works fine.
    let first_layout_cnt = tasks[0].layout_cnt;
    let second_layout_cnt = tasks[1].layout_cnt;
    trigger(&mut wnd, &tasks, 1);
    wnd.draw_frame(&mut tasks);
    assert_eq!(tasks[0].paint_cnt, 4);
    assert_eq!(tasks[1].paint_cnt, 6);
    assert_eq!(tasks[0].layout_cnt, first_layout_cnt);
    assert_eq!(tasks[1].layout_cnt, second_layout_cnt + 1);
}

#[test]
fn remove_delay_drop_widgets() {
    let mut tree = WidgetTree::new();
    let root = tree.alloc_widget(Render::new(MOCK_MULTI));
    // the child is pinned until `child_destroy_until`, the grandson until
    // `grandson_destroy_until`.
    let child = pinned_node(&mut tree, MOCK_MULTI, true);
    let grandson = pinned_node(&mut tree, MOCK_BOX, true);
    root.append(child, &mut tree.arena).unwrap();
    child.append(grandson, &mut tree.arena).unwrap();
    let mut outer: PipeRecord<Option<()>> = PipeRecord::share_capture(vec![child], None, &tree);
    let _inner: PipeRecord<Option<()>> = PipeRecord::share_capture(vec![grandson], None, &tree);

    let grandson_id = root
        .first_child(&tree.arena)
        .unwrap()
        .first_child(&tree.arena)
        .unwrap();
    tree.run_deferred();
    tree.release_delay_drops();
    assert!(!grandson_id.is_dropped(&tree.arena));

    // the child pipe rebuilds: the old child is pinned and kept.
    outer.on_modify(ModifyScope::framework(), None, &mut tree);
    assert_eq!(outer.on_new_frame(&mut tree), Some(None));
    let new_child = pinned_node(&mut tree, MOCK_MULTI, true);
    let new_grandson = pinned_node(&mut tree, MOCK_BOX, true);
    new_child.append(new_grandson, &mut tree.arena).unwrap();
    let rep = outer.splice_single(new_child, &mut tree).unwrap();
    assert!(rep.disposed.is_empty());
    tree.run_deferred();
    tree.release_delay_drops();
    assert!(!grandson_id.is_dropped(&tree.arena));

    // releasing the child drops its whole subtree.
    tree.set_pin(child, false);
    let gone = tree.release_delay_drops();
    assert_eq!(gone, vec![child, grandson]);
    assert!(grandson_id.is_dropped(&tree.arena));
}

#[test]
fn pinned_node_paints_until_released() {
    let mut tree = WidgetTree::new();
    let root = tree.alloc_widget(Render::new(MOCK_MULTI));
    let a = pinned_node(&mut tree, MOCK_BOX, true);
    let b = pinned_node(&mut tree, MOCK_BOX, false);
    root.append(a, &mut tree.arena).unwrap();
    root.append(b, &mut tree.arena).unwrap();
    assert!(tree.is_pinned(a));
    assert!(!tree.is_pinned(b));
    assert_eq!(tree.remove_widget(a), Vec::<WidgetId>::new());
    assert!(!a.is_dropped(&tree.arena));
    assert_eq!(tree.delay_drops, vec![a]);
    assert_eq!(root.children(&tree.arena), vec![b]);
    assert_eq!(a.paint_subtree(&tree.arena, &vec![a], true), vec![a]);
    // the sibling's layout is untouched by the kept node.
    assert!(!tree.is_dirty(b));
    tree.set_pin(a, false);
    assert_eq!(tree.release_delay_drops(), vec![a]);
    assert!(tree.delay_drops.is_empty());
    assert!(a.is_dropped(&tree.arena));
    tree.mark_dirty(a);
    assert!(!tree.is_dirty(a));
    assert_eq!(tree.remove_widget(b), vec![b]);
}
