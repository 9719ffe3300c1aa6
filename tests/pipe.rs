use ribir_tree::arena::WidgetId;
use ribir_tree::key::inspect_key;
use ribir_tree::pipe::{ModifyScope, PipeRecord};
use ribir_tree::query::{KeyWidget, Layer, Render, KEY_TAG};
use ribir_tree::tree::WidgetTree;

const MOCK_BOX: u64 = 10;
const MOCK_MULTI: u64 = 11;
const VOID: u64 = 0;

fn node(tree: &mut WidgetTree, tag: u64) -> WidgetId {
    tree.alloc_widget(Render::new(tag))
}

fn keyed(tree: &mut WidgetTree, key: u64, value: char) -> WidgetId {
    let mut r = Render::new(MOCK_BOX);
    r.wrap(Layer::Key(KeyWidget::new(key, value as u64)));
    tree.alloc_widget(r)
}

fn fire<V>(rec: &mut PipeRecord<V>, v: V, tree: &mut WidgetTree) -> Option<V> {
    rec.on_modify(ModifyScope::framework(), v, tree);
    let r = rec.on_new_frame(tree);
    tree.run_deferred();
    r
}

#[test]
fn pipe_widget_as_root() {
    let mut tree = WidgetTree::new();
    let p = node(&mut tree, MOCK_BOX);
    let c = node(&mut tree, VOID);
    p.append(c, &mut tree.arena).unwrap();
    let mut rec: PipeRecord<u32> = PipeRecord::share_capture(vec![p], Some(p), &tree);

    let ids = rec.live[0].descendants(&tree.arena);
    assert_eq!(ids.len(), 2);

    assert_eq!(fire(&mut rec, 1, &mut tree), Some(1));
    let new_p = node(&mut tree, MOCK_BOX);
    let rep = rec.splice_parent(new_p, new_p, &mut tree).unwrap();
    assert_eq!(rep.mounted, vec![new_p]);

    let new_ids = rec.live[0].descendants(&tree.arena);
    assert_eq!(new_ids.len(), 2);
    assert_eq!(ids[1], new_ids[1]);
}

#[test]
fn expr_widget_with_declare_child() {
    let mut tree = WidgetTree::new();
    let root = node(&mut tree, MOCK_BOX);
    let p = node(&mut tree, MOCK_BOX);
    let c = node(&mut tree, VOID);
    root.append(p, &mut tree.arena).unwrap();
    p.append(c, &mut tree.arena).unwrap();
    let mut rec: PipeRecord<u32> = PipeRecord::share_capture(vec![p], Some(p), &tree);

    let ids = root.descendants(&tree.arena);
    assert_eq!(ids.len(), 3);

    assert_eq!(fire(&mut rec, 1, &mut tree), Some(1));
    let new_p = node(&mut tree, MOCK_BOX);
    let rep = rec.splice_parent(new_p, new_p, &mut tree).unwrap();
    assert_eq!(rep.mounted, vec![new_p]);

    let new_ids = root.descendants(&tree.arena);
    assert_eq!(new_ids.len(), 3);
    assert_eq!(ids[0], new_ids[0]);
    assert_eq!(ids[2], new_ids[2]);
}

#[test]
fn attach_data_to_pipe_widget() {
    let mut tree = WidgetTree::new();
    let p = node(&mut tree, MOCK_BOX);
    let mut rec: PipeRecord<bool> = PipeRecord::share_capture(vec![p], None, &tree);
    p.attach_data(Layer::Key(KeyWidget::new(0, 0)), &mut tree.arena);

    assert_eq!(fire(&mut rec, true, &mut tree), Some(true));
    let n = node(&mut tree, MOCK_BOX);
    rec.splice_single(n, &mut tree).unwrap();

    // the key should still be in the root widget after the pipe widget updated.
    let root = rec.live[0];
    assert_eq!(root, n);
    assert!(root.assert_get(&tree.arena).contain_type(KEY_TAG));
    assert!(!p.assert_get(&tree.arena).contain_type(KEY_TAG));
}

#[test]
fn pipe_widget_mounted_new() {
    let mut tree = WidgetTree::new();
    let host = node(&mut tree, MOCK_MULTI);
    let mut first = vec![];
    for _ in 0..3 {
        let c = node(&mut tree, MOCK_BOX);
        host.append(c, &mut tree.arena).unwrap();
        first.push(c);
    }
    let mut new_cnt = first.len();
    let mut drop_cnt = 0;
    let mut rec: PipeRecord<usize> = PipeRecord::share_capture(first, None, &tree);
    assert_eq!(new_cnt, 3);
    assert_eq!(drop_cnt, 0);

    for (len, new_total, drop_total) in [(4, 7, 3), (3, 10, 7)] {
        assert_eq!(fire(&mut rec, len, &mut tree), Some(len));
        let new: Vec<WidgetId> = (0..len).map(|_| node(&mut tree, MOCK_BOX)).collect();
        let rep = rec.splice_multi(new, &mut tree).unwrap();
        new_cnt += rep.mounted.len();
        drop_cnt += rep.disposed.len();
        assert_eq!(new_cnt, new_total);
        assert_eq!(drop_cnt, drop_total);
        assert_eq!(host.children(&tree.arena).len(), len);
    }
}

#[test]
fn pipe_widget_in_pipe() {
    let mut tree = WidgetTree::new();
    let root = node(&mut tree, MOCK_MULTI);
    let a = node(&mut tree, MOCK_BOX);
    let b = node(&mut tree, MOCK_BOX);
    root.append(a, &mut tree.arena).unwrap();
    a.append(b, &mut tree.arena).unwrap();
    let mut outer: PipeRecord<bool> = PipeRecord::share_capture(vec![a], None, &tree);
    let mut inner: PipeRecord<bool> = PipeRecord::share_capture(vec![b], None, &tree);
    let mut mnt_cnt = 2;
    assert_eq!(mnt_cnt, 2);

    for expected in [4, 6] {
        // trigger the parent update, then the child update, in one frame.
        outer.on_modify(ModifyScope::framework(), true, &mut tree);
        inner.on_modify(ModifyScope::framework(), true, &mut tree);
        let v = outer.on_new_frame(&mut tree);
        assert_eq!(v, Some(true));
        let na = node(&mut tree, MOCK_BOX);
        let nb = node(&mut tree, MOCK_BOX);
        na.append(nb, &mut tree.arena).unwrap();
        let rep = outer.splice_single(na, &mut tree).unwrap();
        mnt_cnt += rep.mounted.len();
        // the nested pipe lies inside the regenerated range: its rebuild is skipped.
        assert_eq!(inner.on_new_frame(&mut tree), None);
        tree.run_deferred();
        assert_eq!(mnt_cnt, expected);
        // the old nested pipe goes with its disposed node; the new one takes over.
        assert!(b.is_dropped(&tree.arena) || inner.live[0] != b);
        inner = PipeRecord::share_capture(vec![nb], None, &tree);
    }
}

struct KeyLog {
    enter: Vec<char>,
    update: Vec<char>,
    leave: Vec<char>,
    change: (Option<char>, char),
}

fn on_mounted(log: &mut KeyLog, ids: &[WidgetId], tree: &WidgetTree) {
    for id in ids {
        if let Some(k) = inspect_key(*id, &tree.arena) {
            let v = char::from_u32(k.value as u32).unwrap();
            if k.is_enter() {
                log.enter.push(v);
            }
            if k.is_changed() {
                log.update.push(v);
                let (b, a) = k.get_change();
                log.change = (b.map(|b| char::from_u32(b as u32).unwrap()), char::from_u32(a as u32).unwrap());
            }
        }
    }
}

fn on_disposed(log: &mut KeyLog, ids: &[WidgetId], tree: &WidgetTree) {
    for id in ids {
        if let Some(k) = inspect_key(*id, &tree.arena) {
            if k.is_leave() {
                log.leave.push(char::from_u32(k.value as u32).unwrap());
            }
        }
    }
}

fn rebuild(rec: &mut PipeRecord<Vec<(u64, char)>>, v: Vec<(u64, char)>, tree: &mut WidgetTree, log: &mut KeyLog) {
    let v = fire(rec, v, tree).unwrap();
    let new: Vec<WidgetId> = v.iter().map(|(k, c)| keyed(tree, *k, *c)).collect();
    let rep = rec.splice_multi(new, tree).unwrap();
    on_mounted(log, &rep.mounted, tree);
    on_disposed(log, &rep.disposed, tree);
}

#[test]
fn pipe_widgets_with_key() {
    let mut tree = WidgetTree::new();
    let host = node(&mut tree, MOCK_MULTI);
    let mut v = vec![(1, '1'), (2, '2'), (3, '3')];
    let mut log = KeyLog { enter: vec![], update: vec![], leave: vec![], change: (None, ' ') };
    let first: Vec<WidgetId> = v.iter().map(|(k, c)| keyed(&mut tree, *k, *c)).collect();
    for c in &first {
        host.append(*c, &mut tree.arena).unwrap();
    }
    let mut rec = PipeRecord::share_capture(first.clone(), None, &tree);

    // 1. 3 item enter
    on_mounted(&mut log, &first, &tree);
    let expect_vec = ['1', '2', '3'];
    assert_eq!(log.enter.len(), 3);
    assert!(log.enter.iter().all(|item| expect_vec.contains(item)));
    log.enter.clear();

    // 2. add 1 item
    v.push((4, '4'));
    rebuild(&mut rec, v.clone(), &mut tree, &mut log);
    let expect_vec = ['4'];
    assert_eq!(log.enter.len(), 1);
    assert!(log.enter.iter().all(|item| expect_vec.contains(item)));
    log.enter.clear();

    // 3. update the second item
    v[1].1 = 'b';
    rebuild(&mut rec, v.clone(), &mut tree, &mut log);
    let expect_vec: [char; 0] = [];
    assert_eq!(log.enter.len(), 0);
    assert!(log.enter.iter().all(|item| expect_vec.contains(item)));
    let expect_vec = ['b'];
    assert_eq!(log.update.len(), 1);
    assert!(log.update.iter().all(|item| expect_vec.contains(item)));
    assert_eq!(log.change, (Some('2'), 'b'));
    log.update.clear();

    // 4. remove the second item
    v.remove(1);
    rebuild(&mut rec, v.clone(), &mut tree, &mut log);
    let expect_vec = vec!['b'];
    assert_eq!(log.leave, expect_vec);
    assert_eq!(log.leave.len(), 1);
    assert!(log.leave.iter().all(|item| expect_vec.contains(item)));
    log.leave.clear();

    // 5. update the first item
    v[0].1 = 'a';
    rebuild(&mut rec, v.clone(), &mut tree, &mut log);
    assert_eq!(log.enter.len(), 0);
    let expect_vec = ['a'];
    assert_eq!(log.update.len(), 1);
    assert!(log.update.iter().all(|item| expect_vec.contains(item)));
    assert_eq!(log.change, (Some('1'), 'a'));
    log.update.clear();
}

#[test]
fn pipe_value_and_stream() {
    let mut p = ribir_tree::pipe::Pipe::new(1u32, "stream");
    assert_eq!(*p.value(), 1);
    *p.value_mut() += 1;
    assert_eq!(*p.value(), 2);
    p.set_value(7);
    assert_eq!(p.unzip(), (7, "stream"));
}
