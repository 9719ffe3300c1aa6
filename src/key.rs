//! Key reconciliation: matching old and new children by key, and recording on
//! each matched pair the link that tells enter, update and leave apart.
use crate::arena::{
    arena_data, arena_get, arena_links, arena_set, children_of, descendants_of, Links, TreeArena,
    WidgetId,
};
use crate::query::{layer_tag, matches_inside_first, matches_outside_first, KeyWidget, Layer, KEY_TAG};
use crate::widget_id::copy_node;
use std::collections::HashMap;
use vstd::prelude::*;

verus! {

broadcast use vstd::std_specs::hash::group_hash_axioms;

pub type NodeMap = Map<WidgetId, (bool, Seq<Layer>)>;

/// The outermost key layer of a node, with its index, when the outermost
/// layer under the key tag is a key.
pub open spec fn key_in(d: NodeMap, id: WidgetId) -> Option<(int, KeyWidget)> {
    if !d.contains_key(id) {
        None
    } else {
        let ls = d[id].1;
        let m = matches_outside_first(ls, KEY_TAG);
        if m.len() == 0 {
            None
        } else {
            match ls[m[0] as int] {
                Layer::Key(k) => Some((m[0] as int, k)),
                _ => None,
            }
        }
    }
}

pub open spec fn key_value_of(d: NodeMap, id: WidgetId) -> Option<u64> {
    match key_in(d, id) {
        Some((_, k)) => Some(k.key),
        None => None,
    }
}

pub open spec fn keys_of(d: NodeMap, ids: Seq<WidgetId>) -> Seq<Option<u64>> {
    ids.map_values(|x: WidgetId| key_value_of(d, x))
}

/// `d` with the key layer of `id` replaced by `k`.
pub open spec fn with_key(d: NodeMap, id: WidgetId, k: KeyWidget) -> NodeMap {
    match key_in(d, id) {
        Some((i, _)) => d.insert(id, (d[id].0, d[id].1.update(i, Layer::Key(k)))),
        None => d,
    }
}

/// Record the link between the keyed `o` and its successor `n`: `n` learns
/// the value before, `o` learns that it has a successor.
pub open spec fn link_step(d: NodeMap, o: WidgetId, n: WidgetId) -> NodeMap {
    match (key_in(d, o), key_in(d, n)) {
        (Some((_, ko)), Some((_, kn))) => {
            let d1 = with_key(d, n, KeyWidget { before: Some(ko.value), ..kn });
            match key_in(d1, o) {
                Some((_, ko1)) => with_key(d1, o, KeyWidget { has_next: true, ..ko1 }),
                None => d1,
            }
        },
        _ => d,
    }
}

/// The links of `pairs` recorded in order.
pub open spec fn applied(d: NodeMap, pairs: Seq<(WidgetId, WidgetId)>) -> NodeMap
    decreases pairs.len(),
{
    if pairs.len() == 0 {
        d
    } else {
        let p = pairs.last();
        link_step(applied(d, pairs.drop_last()), p.0, p.1)
    }
}

/// The first index of `s` that holds key `k`.
pub open spec fn first_index(s: Seq<Option<u64>>, k: u64) -> Option<int>
    decreases s.len(),
{
    if s.len() == 0 {
        None
    } else {
        match first_index(s.drop_last(), k) {
            Some(i) => Some(i),
            None => if s.last() == Some(k) {
                Some(s.len() - 1)
            } else {
                None
            },
        }
    }
}

/// Matching of two child lists: each new child whose key some old child has
/// is paired with the first such old child, in the order of the new list.
pub open spec fn multi_pairs(
    olds: Seq<WidgetId>,
    ok: Seq<Option<u64>>,
    news: Seq<WidgetId>,
    nk: Seq<Option<u64>>,
) -> Seq<(WidgetId, WidgetId)>
    decreases news.len(),
{
    if news.len() == 0 || nk.len() != news.len() {
        Seq::empty()
    } else {
        let rest = multi_pairs(olds, ok, news.drop_last(), nk.drop_last());
        match nk.last() {
            Some(k) => match first_index(ok, k) {
                Some(i) => rest.push((olds[i], news.last())),
                None => rest,
            },
            None => rest,
        }
    }
}

pub proof fn lemma_matches_valid(ls: Seq<Layer>, tag: u64)
    requires
        ls.len() <= usize::MAX,
    ensures
        forall|j: int|
            0 <= j < matches_inside_first(ls, tag).len() ==> {
                let i = #[trigger] matches_inside_first(ls, tag)[j];
                &&& 0 <= i < ls.len()
                &&& layer_tag(ls[i as int]) == tag
            },
    decreases ls.len(),
{
    if ls.len() > 0 {
        lemma_matches_valid(ls.drop_last(), tag);
        let rest = matches_inside_first(ls.drop_last(), tag);
        assert forall|j: int| 0 <= j < rest.len() implies {
            let i = #[trigger] rest[j];
            &&& 0 <= i < ls.len()
            &&& layer_tag(ls[i as int]) == tag
        } by {
            let i = rest[j];
            assert(ls.drop_last()[i as int] == ls[i as int]);
        }
        let all = matches_inside_first(ls, tag);
        assert forall|j: int| 0 <= j < all.len() implies {
            let i = #[trigger] all[j];
            &&& 0 <= i < ls.len()
            &&& layer_tag(ls[i as int]) == tag
        } by {
            if j < rest.len() {
                assert(all[j] == rest[j]);
            } else {
                assert(all[j] == (ls.len() - 1) as usize);
            }
        }
    }
}

/// Every index of a match is a layer of that tag.
pub proof fn lemma_matches_valid_pub(ls: Seq<Layer>, tag: u64)
    requires
        ls.len() <= usize::MAX,
    ensures
        forall|j: int|
            0 <= j < matches_outside_first(ls, tag).len() ==> {
                let i = #[trigger] matches_outside_first(ls, tag)[j];
                &&& 0 <= i < ls.len()
                &&& layer_tag(ls[i as int]) == tag
            },
{
    lemma_matches_valid(ls, tag);
    let ins = matches_inside_first(ls, tag);
    assert forall|j: int| 0 <= j < matches_outside_first(ls, tag).len() implies {
        let i = #[trigger] matches_outside_first(ls, tag)[j];
        &&& 0 <= i < ls.len()
        &&& layer_tag(ls[i as int]) == tag
    } by {
        assert(matches_outside_first(ls, tag)[j] == ins[ins.len() - 1 - j]);
    }
}

pub proof fn lemma_first_index_push(s: Seq<Option<u64>>, x: Option<u64>, k: u64)
    ensures
        first_index(s.push(x), k) == (match first_index(s, k) {
            Some(i) => Some(i),
            None => if x == Some(k) {
                Some(s.len() as int)
            } else {
                None
            },
        }),
{
    assert(s.push(x).drop_last() =~= s);
}

pub proof fn lemma_first_index_facts(s: Seq<Option<u64>>, k: u64)
    ensures
        first_index(s, k) is Some ==> {
            let i = first_index(s, k).unwrap();
            &&& 0 <= i < s.len()
            &&& s[i] == Some(k)
            &&& forall|j: int| 0 <= j < i ==> s[j] != Some(k)
        },
        first_index(s, k) is None ==> forall|j: int| 0 <= j < s.len() ==> s[j] != Some(k),
    decreases s.len(),
{
    if s.len() > 0 {
        lemma_first_index_facts(s.drop_last(), k);
        let t = s.drop_last();
        assert forall|j: int| 0 <= j < t.len() implies t[j] == s[j] by {}
    }
}

/// The key of a node, if it carries one.
pub fn inspect_key(id: WidgetId, tree: &TreeArena) -> (r: Option<KeyWidget>)
    requires
        arena_data(*tree).contains_key(id),
    ensures
        r == (match key_in(arena_data(*tree), id) {
            Some((_, k)) => Some(k),
            None => None,
        }),
{
    match inspect_key_at(id, tree) {
        Some((_, k)) => Some(k),
        None => None,
    }
}

fn inspect_key_at(id: WidgetId, tree: &TreeArena) -> (r: Option<(usize, KeyWidget)>)
    ensures
        match key_in(arena_data(*tree), id) {
            Some((i, k)) => r == Some((i as usize, k)),
            None => r.is_none(),
        },
{
    match arena_get(tree, id) {
        Some(node) => {
            let m = node.render.query_most_outside(KEY_TAG);
            let ghost n = node.render.layers.len();
            proof {
                lemma_matches_valid(node.render.layers@, KEY_TAG);
                let ins = matches_inside_first(node.render.layers@, KEY_TAG);
                if ins.len() > 0 {
                    assert(matches_outside_first(node.render.layers@, KEY_TAG)[0] == ins[ins.len() - 1]);
                }
            }
            match m {
                Some(i) => match node.render.layers[i] {
                    Layer::Key(k) => Some((i, k)),
                    _ => None,
                },
                None => None,
            }
        },
        None => None,
    }
}

/// The keys of the nodes of `ids`, in order.
pub fn key_list(ids: &Vec<WidgetId>, tree: &TreeArena) -> (r: Vec<Option<u64>>)
    ensures
        r@ == keys_of(arena_data(*tree), ids@),
{
    let mut r: Vec<Option<u64>> = Vec::new();
    let mut i: usize = 0;
    while i < ids.len()
        invariant
            i <= ids@.len(),
            r@ == keys_of(arena_data(*tree), ids@.take(i as int)),
        decreases ids@.len() - i,
    {
        let k = match inspect_key_at(ids[i], tree) {
            Some((_, kw)) => Some(kw.key),
            None => None,
        };
        r.push(k);
        i = i + 1;
        proof {
            assert(r@ =~= keys_of(arena_data(*tree), ids@.take(i as int)));
        }
    }
    proof {
        assert(ids@.take(i as int) =~= ids@);
    }
    r
}

/// Pair new children with old children of the same key: for each new child,
/// the first old child that has its key.
pub fn match_keys_multi(
    old: &Vec<WidgetId>,
    old_keys: &Vec<Option<u64>>,
    new: &Vec<WidgetId>,
    new_keys: &Vec<Option<u64>>,
) -> (r: Vec<(WidgetId, WidgetId)>)
    requires
        old_keys@.len() == old@.len(),
        new_keys@.len() == new@.len(),
    ensures
        r@ == multi_pairs(old@, old_keys@, new@, new_keys@),
{
    let mut first: HashMap<u64, usize> = HashMap::new();
    let mut i: usize = 0;
    while i < old_keys.len()
        invariant
            i <= old_keys@.len(),
            forall|k: u64|
                #![trigger first@.contains_key(k)]
                first@.contains_key(k) == (first_index(old_keys@.take(i as int), k) is Some),
            forall|k: u64|
                #![trigger first@[k]]
                first@.contains_key(k) ==> first@[k] as int == first_index(
                    old_keys@.take(i as int),
                    k,
                ).unwrap(),
        decreases old_keys@.len() - i,
    {
        proof {
            assert(old_keys@.take(i + 1) =~= old_keys@.take(i as int).push(old_keys@[i as int]));
            assert forall|k: u64| #[trigger]
                first_index(old_keys@.take(i + 1), k) == (match first_index(
                    old_keys@.take(i as int),
                    k,
                ) {
                    Some(j) => Some(j),
                    None => if old_keys@[i as int] == Some(k) {
                        Some(i as int)
                    } else {
                        None
                    },
                }) by {
                lemma_first_index_push(old_keys@.take(i as int), old_keys@[i as int], k);
            }
        }
        if let Some(k) = old_keys[i] {
            if !first.contains_key(&k) {
                first.insert(k, i);
            }
        }
        i = i + 1;
    }
    proof {
        assert(old_keys@.take(i as int) =~= old_keys@);
    }
    let mut r: Vec<(WidgetId, WidgetId)> = Vec::new();
    let mut j: usize = 0;
    while j < new.len()
        invariant
            j <= new@.len(),
            new_keys@.len() == new@.len(),
            old_keys@.len() == old@.len(),
            forall|k: u64|
                #![trigger first@.contains_key(k)]
                first@.contains_key(k) == (first_index(old_keys@, k) is Some),
            forall|k: u64|
                #![trigger first@[k]]
                first@.contains_key(k) ==> first@[k] as int == first_index(old_keys@, k).unwrap(),
            r@ == multi_pairs(old@, old_keys@, new@.take(j as int), new_keys@.take(j as int)),
        decreases new@.len() - j,
    {
        proof {
            assert(new@.take(j + 1).drop_last() =~= new@.take(j as int));
            assert(new_keys@.take(j + 1).drop_last() =~= new_keys@.take(j as int));
        }
        if let Some(k) = new_keys[j] {
            if first.contains_key(&k) {
                let oi = *first.get(&k).unwrap();
                proof {
                    lemma_first_index_facts(old_keys@, k);
                }
                r.push((old[oi], new[j]));
            }
        }
        j = j + 1;
    }
    proof {
        assert(new@.take(j as int) =~= new@);
        assert(new_keys@.take(j as int) =~= new_keys@);
    }
    r
}


pub proof fn lemma_applied_concat(d: NodeMap, s: Seq<(WidgetId, WidgetId)>, t: Seq<(WidgetId, WidgetId)>)
    ensures
        applied(d, s + t) == applied(applied(d, s), t),
    decreases t.len(),
{
    if t.len() == 0 {
        assert(s + t =~= s);
    } else {
        lemma_applied_concat(d, s, t.drop_last());
        assert((s + t).drop_last() =~= s + t.drop_last());
        assert((s + t).last() == t.last());
    }
}

/// The first index of `ids` whose key is `k`.
fn find_key(ids: &Vec<WidgetId>, keys: &Vec<Option<u64>>, k: u64) -> (r: Option<usize>)
    requires
        keys@.len() == ids@.len(),
    ensures
        match first_index(keys@, k) {
            Some(i) => r == Some(i as usize),
            None => r.is_none(),
        },
{
    let mut i: usize = 0;
    while i < keys.len()
        invariant
            i <= keys@.len(),
            first_index(keys@.take(i as int), k) is None,
        decreases keys@.len() - i,
    {
        proof {
            assert(keys@.take(i + 1) =~= keys@.take(i as int).push(keys@[i as int]));
            lemma_first_index_push(keys@.take(i as int), keys@[i as int], k);
        }
        if keys[i] == Some(k) {
            proof {
                lemma_prefix_first_index(keys@, i as int + 1, k);
            }
            return Some(i);
        }
        i = i + 1;
    }
    proof {
        assert(keys@.take(i as int) =~= keys@);
    }
    None
}

proof fn lemma_prefix_first_index(s: Seq<Option<u64>>, n: int, k: u64)
    requires
        0 <= n <= s.len(),
        first_index(s.take(n), k) is Some,
    ensures
        first_index(s, k) == first_index(s.take(n), k),
    decreases s.len() - n,
{
    if n < s.len() {
        assert(s.take(n + 1) =~= s.take(n).push(s[n]));
        lemma_first_index_push(s.take(n), s[n], k);
        lemma_prefix_first_index(s, n + 1, k);
    } else {
        assert(s.take(n) =~= s);
    }
}

/// The pairs that one level of reconciliation links, from the old and the new
/// children lists: one child on each side is matched directly, a single child
/// against a list is matched to the first list child of the same key, and
/// two lists are matched as `multi_pairs` says.
pub open spec fn level_pairs(d: NodeMap, oc: Seq<WidgetId>, nc: Seq<WidgetId>) -> Seq<
    (WidgetId, WidgetId),
> {
    let ok = keys_of(d, oc);
    let nk = keys_of(d, nc);
    if oc.len() == 0 || nc.len() == 0 {
        Seq::empty()
    } else if oc.len() == 1 && nc.len() == 1 {
        if ok[0] is Some && ok[0] == nk[0] {
            seq![(oc[0], nc[0])]
        } else {
            Seq::empty()
        }
    } else if oc.len() == 1 {
        match ok[0] {
            Some(k) => match first_index(nk, k) {
                Some(j) => seq![(oc[0], nc[j])],
                None => Seq::empty(),
            },
            None => Seq::empty(),
        }
    } else if nc.len() == 1 {
        match nk[0] {
            Some(k) => match first_index(ok, k) {
                Some(i) => seq![(oc[i], nc[0])],
                None => Seq::empty(),
            },
            None => Seq::empty(),
        }
    } else {
        multi_pairs(oc, ok, nc, nk)
    }
}

/// The pairs that one level of reconciliation links below `old` and `new`.
pub fn children_key_pairs(old: WidgetId, new: WidgetId, tree: &TreeArena) -> (r: Vec<
    (WidgetId, WidgetId),
>)
    ensures
        r@ == level_pairs(
            arena_data(*tree),
            children_of(arena_links(*tree), old),
            children_of(arena_links(*tree), new),
        ),
{
    let oc = old.children(tree);
    let nc = new.children(tree);
    let ok = key_list(&oc, tree);
    let nk = key_list(&nc, tree);
    let mut r: Vec<(WidgetId, WidgetId)> = Vec::new();
    if oc.len() == 0 || nc.len() == 0 {
        return r;
    }
    if oc.len() == 1 && nc.len() == 1 {
        if ok[0].is_some() && ok[0] == nk[0] {
            r.push((oc[0], nc[0]));
        }
        proof {
            assert(r@ =~= level_pairs(arena_data(*tree), oc@, nc@));
        }
        r
    } else if oc.len() == 1 {
        if let Some(k) = ok[0] {
            let f = find_key(&nc, &nk, k);
            proof {
                lemma_first_index_facts(nk@, k);
            }
            if let Some(j) = f {
                r.push((oc[0], nc[j]));
            }
        }
        proof {
            assert(r@ =~= level_pairs(arena_data(*tree), oc@, nc@));
        }
        r
    } else if nc.len() == 1 {
        if let Some(k) = nk[0] {
            let f = find_key(&oc, &ok, k);
            proof {
                lemma_first_index_facts(ok@, k);
            }
            if let Some(i) = f {
                r.push((oc[i], nc[0]));
            }
        }
        proof {
            assert(r@ =~= level_pairs(arena_data(*tree), oc@, nc@));
        }
        r
    } else {
        match_keys_multi(&oc, &ok, &nc, &nk)
    }
}

fn set_key(id: WidgetId, idx: usize, k: KeyWidget, tree: &mut TreeArena)
    requires
        key_in(arena_data(*old(tree)), id) is Some,
        key_in(arena_data(*old(tree)), id).unwrap().0 == idx,
    ensures
        arena_links(*final(tree)) == arena_links(*old(tree)),
        arena_data(*final(tree)) == with_key(arena_data(*old(tree)), id, k),
{
    let node = arena_get(tree, id).unwrap();
    let mut c = copy_node(node);
    let ghost len = node.render.layers.len();
    proof {
        lemma_matches_valid(node.render.layers@, KEY_TAG);
        let ins = matches_inside_first(node.render.layers@, KEY_TAG);
        assert(matches_outside_first(node.render.layers@, KEY_TAG)[0] == ins[ins.len() - 1]);
    }
    c.render.layers.set(idx, Layer::Key(k));
    arena_set(tree, id, c);
}

/// Record the link between the keyed `old_w` and its successor `new_w`.
pub fn record_link(old_w: WidgetId, new_w: WidgetId, tree: &mut TreeArena)
    ensures
        arena_links(*final(tree)) == arena_links(*old(tree)),
        arena_data(*final(tree)) == link_step(arena_data(*old(tree)), old_w, new_w),
{
    let ko = inspect_key_at(old_w, tree);
    let kn = inspect_key_at(new_w, tree);
    match (ko, kn) {
        (Some((_, o)), Some((ni, n))) => {
            set_key(new_w, ni, KeyWidget { before: Some(o.value), ..n }, tree);
            match inspect_key_at(old_w, tree) {
                Some((oi, o1)) => {
                    set_key(old_w, oi, KeyWidget { has_next: true, ..o1 }, tree);
                },
                None => {},
            }
        },
        _ => {},
    }
}

/// The pairs that linking `o` to `n` records, at most `depth` levels down:
/// the pair itself, then the pairs below it.
pub open spec fn state_pairs(
    d: NodeMap,
    l: Map<WidgetId, Links>,
    o: WidgetId,
    n: WidgetId,
    depth: nat,
) -> Seq<(WidgetId, WidgetId)>
    decreases depth, 2nat, 0nat,
{
    seq![(o, n)] + child_pairs(d, l, o, n, depth)
}

/// The pairs that reconciling the children of `o` and `n` records: each pair
/// matched at this level, each followed by the pairs below it.
pub open spec fn child_pairs(
    d: NodeMap,
    l: Map<WidgetId, Links>,
    o: WidgetId,
    n: WidgetId,
    depth: nat,
) -> Seq<(WidgetId, WidgetId)>
    decreases depth, 1nat, 0nat,
{
    if depth == 0 {
        Seq::empty()
    } else {
        pairs_flat(d, l, level_pairs(d, children_of(l, o), children_of(l, n)), (depth - 1) as nat)
    }
}

/// The pairs recorded for each matched pair of `lp` in turn.
pub open spec fn pairs_flat(
    d: NodeMap,
    l: Map<WidgetId, Links>,
    lp: Seq<(WidgetId, WidgetId)>,
    depth: nat,
) -> Seq<(WidgetId, WidgetId)>
    decreases depth, 3nat, lp.len(),
{
    if lp.len() == 0 {
        Seq::empty()
    } else {
        pairs_flat(d, l, lp.drop_last(), depth) + state_pairs(d, l, lp.last().0, lp.last().1, depth)
    }
}

/// As `pairs_flat`, each pair reconciled as deep as the old node's subtree.
pub open spec fn pairs_flat_auto(d: NodeMap, l: Map<WidgetId, Links>, lp: Seq<(WidgetId, WidgetId)>) -> Seq<
    (WidgetId, WidgetId),
>
    decreases lp.len(),
{
    if lp.len() == 0 {
        Seq::empty()
    } else {
        pairs_flat_auto(d, l, lp.drop_last()) + state_pairs(
            d,
            l,
            lp.last().0,
            lp.last().1,
            descendants_of(l, lp.last().0).len(),
        )
    }
}

pub open spec fn keys_same(d: NodeMap, d2: NodeMap) -> bool {
    forall|x: WidgetId| #[trigger] key_value_of(d, x) == key_value_of(d2, x)
}

proof fn lemma_with_key_keys(d: NodeMap, id: WidgetId, k2: KeyWidget)
    requires
        key_in(d, id) is Some,
        k2.key == key_in(d, id).unwrap().1.key,
    ensures
        keys_same(d, with_key(d, id, k2)),
{
    lemma_with_key(d, id, k2);
    assert forall|x: WidgetId| #[trigger] key_value_of(d, x) == key_value_of(with_key(d, id, k2), x) by {
        if x != id {
            assert(with_key(d, id, k2)[x] == d[x]);
            assert(with_key(d, id, k2).contains_key(x) == d.contains_key(x));
        }
    }
}

/// Recording links never changes a key.
pub proof fn lemma_applied_keys(d: NodeMap, pairs: Seq<(WidgetId, WidgetId)>)
    ensures
        keys_same(d, applied(d, pairs)),
    decreases pairs.len(),
{
    if pairs.len() > 0 {
        lemma_applied_keys(d, pairs.drop_last());
        let d1 = applied(d, pairs.drop_last());
        let p = pairs.last();
        match (key_in(d1, p.0), key_in(d1, p.1)) {
            (Some((_, ko)), Some((_, kn))) => {
                let k2 = KeyWidget { before: Some(ko.value), ..kn };
                lemma_with_key_keys(d1, p.1, k2);
                let d2 = with_key(d1, p.1, k2);
                match key_in(d2, p.0) {
                    Some((_, ko1)) => {
                        lemma_with_key_keys(d2, p.0, KeyWidget { has_next: true, ..ko1 });
                    },
                    None => {},
                }
            },
            _ => {},
        }
    }
}

proof fn lemma_level_same(d: NodeMap, d2: NodeMap, oc: Seq<WidgetId>, nc: Seq<WidgetId>)
    requires
        keys_same(d, d2),
    ensures
        level_pairs(d, oc, nc) == level_pairs(d2, oc, nc),
{
    assert(keys_of(d, oc) =~= keys_of(d2, oc));
    assert(keys_of(d, nc) =~= keys_of(d2, nc));
}

proof fn lemma_state_same(d: NodeMap, d2: NodeMap, l: Map<WidgetId, Links>, o: WidgetId, n: WidgetId, depth: nat)
    requires
        keys_same(d, d2),
    ensures
        state_pairs(d, l, o, n, depth) == state_pairs(d2, l, o, n, depth),
    decreases depth, 2nat, 0nat,
{
    lemma_child_same(d, d2, l, o, n, depth);
}

proof fn lemma_child_same(d: NodeMap, d2: NodeMap, l: Map<WidgetId, Links>, o: WidgetId, n: WidgetId, depth: nat)
    requires
        keys_same(d, d2),
    ensures
        child_pairs(d, l, o, n, depth) == child_pairs(d2, l, o, n, depth),
    decreases depth, 1nat, 0nat,
{
    if depth > 0 {
        lemma_level_same(d, d2, children_of(l, o), children_of(l, n));
        lemma_flat_same(d, d2, l, level_pairs(d, children_of(l, o), children_of(l, n)), (depth - 1) as nat);
    }
}

proof fn lemma_flat_same(d: NodeMap, d2: NodeMap, l: Map<WidgetId, Links>, lp: Seq<(WidgetId, WidgetId)>, depth: nat)
    requires
        keys_same(d, d2),
    ensures
        pairs_flat(d, l, lp, depth) == pairs_flat(d2, l, lp, depth),
    decreases depth, 3nat, lp.len(),
{
    if lp.len() > 0 {
        lemma_flat_same(d, d2, l, lp.drop_last(), depth);
        lemma_state_same(d, d2, l, lp.last().0, lp.last().1, depth);
    }
}

/// Link `old_w` to `new_w` and reconcile their children, at most `depth` levels
/// down; returns every linked pair in the order the links were recorded.
pub fn update_key_states(old_w: WidgetId, new_w: WidgetId, tree: &mut TreeArena, depth: usize) -> (r:
    Vec<(WidgetId, WidgetId)>)
    ensures
        arena_links(*final(tree)) == arena_links(*old(tree)),
        r@ == state_pairs(arena_data(*old(tree)), arena_links(*old(tree)), old_w, new_w, depth as nat),
        arena_data(*final(tree)) == applied(arena_data(*old(tree)), r@),
    decreases depth, 1nat,
{
    let ghost d0 = arena_data(*tree);
    record_link(old_w, new_w, tree);
    let mut r: Vec<(WidgetId, WidgetId)> = Vec::new();
    r.push((old_w, new_w));
    proof {
        assert(r@.drop_last() =~= Seq::<(WidgetId, WidgetId)>::empty());
        assert(r@.last() == (old_w, new_w));
        assert(applied(d0, r@.drop_last()) == d0);
        assert(applied(d0, r@) == link_step(d0, old_w, new_w));
        lemma_applied_keys(d0, r@);
    }
    let ghost d1 = arena_data(*tree);
    let mut nested = update_children_key_status(old_w, new_w, tree, depth);
    proof {
        lemma_applied_concat(d0, r@, nested@);
        lemma_child_same(d0, d1, arena_links(*old(tree)), old_w, new_w, depth as nat);
    }
    r.append(&mut nested);
    r
}

/// Reconcile the children of `old_w` with the children of `new_w`, at most
/// `depth` levels down.
pub fn update_children_key_status(
    old_w: WidgetId,
    new_w: WidgetId,
    tree: &mut TreeArena,
    depth: usize,
) -> (r: Vec<(WidgetId, WidgetId)>)
    ensures
        arena_links(*final(tree)) == arena_links(*old(tree)),
        arena_data(*final(tree)) == applied(arena_data(*old(tree)), r@),
        r@ == child_pairs(arena_data(*old(tree)), arena_links(*old(tree)), old_w, new_w, depth as nat),
    decreases depth, 0nat,
{
    let mut r: Vec<(WidgetId, WidgetId)> = Vec::new();
    if depth == 0 {
        return r;
    }
    let pairs = children_key_pairs(old_w, new_w, tree);
    let ghost d0 = arena_data(*tree);
    let ghost l0 = arena_links(*tree);
    let ghost dep = (depth - 1) as nat;
    proof {
        assert(pairs@.take(0) =~= Seq::<(WidgetId, WidgetId)>::empty());
    }
    let mut i: usize = 0;
    while i < pairs.len()
        invariant
            i <= pairs@.len(),
            depth > 0,
            dep == depth - 1,
            arena_links(*tree) == l0,
            arena_data(*tree) == applied(d0, r@),
            r@ == pairs_flat(d0, l0, pairs@.take(i as int), dep),
        decreases pairs@.len() - i,
    {
        let (o, n) = pairs[i];
        let ghost dc = arena_data(*tree);
        let mut sub = update_key_states(o, n, tree, depth - 1);
        proof {
            lemma_applied_concat(d0, r@, sub@);
            lemma_applied_keys(d0, r@);
            lemma_state_same(d0, dc, l0, o, n, dep);
            assert(pairs@.take(i + 1).drop_last() =~= pairs@.take(i as int));
            assert(pairs@.take(i + 1).last() == (o, n));
        }
        r.append(&mut sub);
        i = i + 1;
    }
    proof {
        assert(pairs@.take(i as int) =~= pairs@);
    }
    r
}

/// The pairs that reconciling the single roots `o` and `n` records.
pub open spec fn single_pairs(d: NodeMap, l: Map<WidgetId, Links>, o: WidgetId, n: WidgetId) -> Seq<
    (WidgetId, WidgetId),
> {
    if key_value_of(d, o) is Some && key_value_of(d, o) == key_value_of(d, n) {
        state_pairs(d, l, o, n, descendants_of(l, o).len())
    } else {
        Seq::empty()
    }
}

/// Reconcile `old_w` and `new_w` when both carry the same key: link them,
/// then reconcile their children; nothing is recorded otherwise.
pub fn update_key_status_single(old_w: WidgetId, new_w: WidgetId, tree: &mut TreeArena) -> (r: Vec<
    (WidgetId, WidgetId),
>)
    requires
        arena_data(*old(tree)).contains_key(old_w),
        arena_data(*old(tree)).contains_key(new_w),
    ensures
        arena_links(*final(tree)) == arena_links(*old(tree)),
        arena_data(*final(tree)) == applied(arena_data(*old(tree)), r@),
        r@ == single_pairs(arena_data(*old(tree)), arena_links(*old(tree)), old_w, new_w),
{
    let ko = inspect_key(old_w, tree);
    let kn = inspect_key(new_w, tree);
    match (ko, kn) {
        (Some(o), Some(n)) => {
            if o.key == n.key {
                let depth = old_w.descendants(tree).len();
                update_key_states(old_w, new_w, tree, depth)
            } else {
                Vec::new()
            }
        },
        _ => Vec::new(),
    }
}

/// Reconcile two lists of siblings: each new node is linked to the first old
/// node of its key, then their children are reconciled in turn. Returns the
/// pairs matched in the lists, and every pair recorded.
pub fn update_key_state_multi(olds: &Vec<WidgetId>, news: &Vec<WidgetId>, tree: &mut TreeArena) -> (r:
    (Vec<(WidgetId, WidgetId)>, Vec<(WidgetId, WidgetId)>))
    requires
        forall|i: int| 0 <= i < olds@.len() ==> #[trigger] arena_data(*old(tree)).contains_key(olds@[i]),
        forall|i: int| 0 <= i < news@.len() ==> #[trigger] arena_data(*old(tree)).contains_key(news@[i]),
    ensures
        r.0@ == multi_pairs(
            olds@,
            keys_of(arena_data(*old(tree)), olds@),
            news@,
            keys_of(arena_data(*old(tree)), news@),
        ),
        r.1@ == pairs_flat_auto(arena_data(*old(tree)), arena_links(*old(tree)), r.0@),
        arena_links(*final(tree)) == arena_links(*old(tree)),
        arena_data(*final(tree)) == applied(arena_data(*old(tree)), r.1@),
{
    let ok = key_list(olds, tree);
    let nk = key_list(news, tree);
    let pairs = match_keys_multi(olds, &ok, news, &nk);
    let ghost d0 = arena_data(*tree);
    let ghost l0 = arena_links(*tree);
    let mut all: Vec<(WidgetId, WidgetId)> = Vec::new();
    proof {
        assert(pairs@.take(0) =~= Seq::<(WidgetId, WidgetId)>::empty());
    }
    let mut i: usize = 0;
    while i < pairs.len()
        invariant
            i <= pairs@.len(),
            arena_links(*tree) == l0,
            arena_data(*tree) == applied(d0, all@),
            all@ == pairs_flat_auto(d0, l0, pairs@.take(i as int)),
        decreases pairs@.len() - i,
    {
        let (o, n) = pairs[i];
        let depth = o.descendants(tree).len();
        let ghost dc = arena_data(*tree);
        let mut sub = update_key_states(o, n, tree, depth);
        proof {
            lemma_applied_concat(d0, all@, sub@);
            lemma_applied_keys(d0, all@);
            lemma_state_same(d0, dc, l0, o, n, depth as nat);
            assert(pairs@.take(i + 1).drop_last() =~= pairs@.take(i as int));
            assert(pairs@.take(i + 1).last() == (o, n));
        }
        all.append(&mut sub);
        i = i + 1;
    }
    proof {
        assert(pairs@.take(i as int) =~= pairs@);
    }
    (pairs, all)
}


/// Recording links changes key layers only: the set of nodes and their
/// dropped flags stay as they were.
pub proof fn lemma_applied_keeps_flags(d: NodeMap, pairs: Seq<(WidgetId, WidgetId)>)
    ensures
        applied(d, pairs).dom() == d.dom(),
        forall|k: WidgetId| #[trigger] d.contains_key(k) ==> applied(d, pairs)[k].0 == d[k].0,
    decreases pairs.len(),
{
    if pairs.len() > 0 {
        lemma_applied_keeps_flags(d, pairs.drop_last());
        let d1 = applied(d, pairs.drop_last());
        let p = pairs.last();
        match (key_in(d1, p.0), key_in(d1, p.1)) {
            (Some((_, ko)), Some((_, kn))) => {
                let d2 = with_key(d1, p.1, KeyWidget { before: Some(ko.value), ..kn });
                assert(d2.dom() =~= d1.dom());
                match key_in(d2, p.0) {
                    Some((_, ko1)) => {
                        let d3 = with_key(d2, p.0, KeyWidget { has_next: true, ..ko1 });
                        assert(d3.dom() =~= d2.dom());
                    },
                    None => {},
                }
            },
            _ => {},
        }
    }
}


/// Layers with the same tags match the same way.
pub proof fn lemma_matches_same_tags_pub(a: Seq<Layer>, b: Seq<Layer>, tag: u64)
    requires
        a.len() == b.len(),
        forall|i: int| 0 <= i < a.len() ==> layer_tag(#[trigger] a[i]) == layer_tag(b[i]),
    ensures
        matches_outside_first(a, tag) == matches_outside_first(b, tag),
{
    lemma_matches_same_tags(a, b, tag);
}

proof fn lemma_matches_same_tags(a: Seq<Layer>, b: Seq<Layer>, tag: u64)
    requires
        a.len() == b.len(),
        forall|i: int| 0 <= i < a.len() ==> layer_tag(#[trigger] a[i]) == layer_tag(b[i]),
    ensures
        matches_inside_first(a, tag) == matches_inside_first(b, tag),
    decreases a.len(),
{
    if a.len() > 0 {
        assert forall|i: int| 0 <= i < a.drop_last().len() implies layer_tag(
            #[trigger] a.drop_last()[i],
        ) == layer_tag(b.drop_last()[i]) by {
            assert(a.drop_last()[i] == a[i]);
            assert(b.drop_last()[i] == b[i]);
        }
        lemma_matches_same_tags(a.drop_last(), b.drop_last(), tag);
        assert(layer_tag(a.last()) == layer_tag(b.last()));
    }
}

/// Replacing a key layer keeps it where it was, and touches no other node.
proof fn lemma_with_key(d: NodeMap, id: WidgetId, k2: KeyWidget)
    requires
        key_in(d, id) is Some,
    ensures
        key_in(with_key(d, id, k2), id) == Some((key_in(d, id).unwrap().0, k2)),
        with_key(d, id, k2).dom() == d.dom(),
        with_key(d, id, k2)[id].0 == d[id].0,
        forall|x: WidgetId| x != id ==> #[trigger] with_key(d, id, k2)[x] == d[x],
{
    let i = key_in(d, id).unwrap().0;
    let ls = d[id].1;
    let ls2 = ls.update(i, Layer::Key(k2));
    let d2 = with_key(d, id, k2);
    assert(d2.dom() =~= d.dom());
    let m = matches_outside_first(ls, KEY_TAG);
    if ls.len() <= usize::MAX {
        lemma_matches_valid(ls, KEY_TAG);
        let ins = matches_inside_first(ls, KEY_TAG);
        assert(m[0] == ins[ins.len() - 1]);
    }
    assert(0 <= i < ls.len()) by {
        if !(0 <= i < ls.len()) {
            assert(ls[i] == ls[m[0] as int]);
        }
    }
    assert(layer_tag(ls[i]) == KEY_TAG);
    assert forall|j: int| 0 <= j < ls.len() implies layer_tag(#[trigger] ls[j]) == layer_tag(ls2[j]) by {}
    lemma_matches_same_tags(ls, ls2, KEY_TAG);
}

/// What recording one link does: `n` learns the value of `o`, `o` learns it
/// has a successor, and no other node changes.
proof fn lemma_link_step(d: NodeMap, o: WidgetId, n: WidgetId)
    requires
        o != n,
        key_in(d, o) is Some,
        key_in(d, n) is Some,
    ensures
        ({
            let d2 = link_step(d, o, n);
            let ko = key_in(d, o).unwrap().1;
            let kn = key_in(d, n).unwrap().1;
            &&& d2.dom() == d.dom()
            &&& key_in(d2, n) == Some((key_in(d, n).unwrap().0, KeyWidget { before: Some(ko.value), ..kn }))
            &&& key_in(d2, o) == Some((key_in(d, o).unwrap().0, KeyWidget { has_next: true, ..ko }))
            &&& forall|x: WidgetId| x != o && x != n ==> #[trigger] d2[x] == d[x]
        }),
{
    let ko = key_in(d, o).unwrap().1;
    let kn = key_in(d, n).unwrap().1;
    let d1 = with_key(d, n, KeyWidget { before: Some(ko.value), ..kn });
    lemma_with_key(d, n, KeyWidget { before: Some(ko.value), ..kn });
    assert(d1[o] == d[o]);
    assert(key_in(d1, o) == key_in(d, o));
    lemma_with_key(d1, o, KeyWidget { has_next: true, ..ko });
    let d2 = with_key(d1, o, KeyWidget { has_next: true, ..ko });
    assert(d2[n] == d1[n]);
    assert(key_in(d2, n) == key_in(d1, n));
}

pub open spec fn keyed_fresh(d: NodeMap, id: WidgetId) -> bool {
    &&& key_in(d, id) is Some
    &&& key_in(d, id).unwrap().1.before.is_none()
    &&& !key_in(d, id).unwrap().1.has_next
}

pub open spec fn key_state(d: NodeMap, id: WidgetId) -> KeyWidget {
    key_in(d, id).unwrap().1
}

/// Key continuity: reconciling a list of keyed old children that no widget
/// has replaced yet, with keys unique among them, against a list of freshly keyed new children (all
/// nodes distinct) leaves each new child entered exactly when no old child has
/// its key, and otherwise updated with the old child's value as the value
/// before; each old child is leaving exactly when no new child has its key;
/// keys and values themselves do not change.
pub proof fn lemma_key_continuity(d: NodeMap, olds: Seq<WidgetId>, news: Seq<WidgetId>)
    requires
        forall|i: int|
            0 <= i < olds.len() ==> key_in(d, #[trigger] olds[i]) is Some && !key_state(d, olds[i]).has_next,
        forall|j: int| 0 <= j < news.len() ==> keyed_fresh(d, #[trigger] news[j]),
        (olds + news).no_duplicates(),
        forall|i: int, i2: int|
            0 <= i < olds.len() && 0 <= i2 < olds.len() && i != i2 ==> key_state(d, #[trigger] olds[i]).key
                != key_state(d, #[trigger] olds[i2]).key,
    ensures
        ({
            let ok = keys_of(d, olds);
            let nk = keys_of(d, news);
            let d2 = applied(d, multi_pairs(olds, ok, news, nk));
            &&& forall|j: int|
                0 <= j < news.len() ==> {
                    let k = #[trigger] key_state(d2, news[j]);
                    &&& key_in(d2, news[j]) is Some
                    &&& k.key == key_state(d, news[j]).key
                    &&& k.value == key_state(d, news[j]).value
                    &&& (k.before is Some <==> ok.contains(nk[j]))
                    &&& ok.contains(nk[j]) ==> k.before == Some(
                        key_state(d, olds[first_index(ok, key_state(d, news[j]).key).unwrap()]).value,
                    )
                }
            &&& forall|i: int|
                0 <= i < olds.len() ==> {
                    let k = #[trigger] key_state(d2, olds[i]);
                    &&& key_in(d2, olds[i]) is Some
                    &&& k.key == key_state(d, olds[i]).key
                    &&& k.value == key_state(d, olds[i]).value
                    &&& k.before == key_state(d, olds[i]).before
                    &&& (k.has_next <==> nk.contains(ok[i]))
                }
        }),
    decreases news.len(),
{
    let ok = keys_of(d, olds);
    let nk = keys_of(d, news);
    if news.len() == 0 {
        assert(multi_pairs(olds, ok, news, nk) == Seq::<(WidgetId, WidgetId)>::empty());
        assert forall|i: int| 0 <= i < olds.len() implies !nk.contains(ok[i]) by {}
    } else {
        let news1 = news.drop_last();
        let nl = news.last();
        assert((olds + news1).no_duplicates()) by {
            assert forall|a: int, b: int| 0 <= a < b < (olds + news1).len() implies (olds
                + news1)[a] != (olds + news1)[b] by {
                assert((olds + news1)[a] == (olds + news)[a]);
                assert((olds + news1)[b] == (olds + news)[b]);
            }
        }
        assert forall|j: int| 0 <= j < news1.len() implies keyed_fresh(d, #[trigger] news1[j]) by {
            assert(news1[j] == news[j]);
        }
        lemma_key_continuity(d, olds, news1);
        let nk1 = keys_of(d, news1);
        assert(nk1 =~= nk.drop_last());
        assert(news.drop_last() == news1);
        let d1 = applied(d, multi_pairs(olds, ok, news1, nk1));
        let pairs = multi_pairs(olds, ok, news, nk);
        let j0 = news.len() - 1;
        assert(keyed_fresh(d, news[j0]));
        let kl = key_state(d, nl);
        assert(nk[j0] == Some(kl.key));
        // the last new child is untouched so far.
        assert forall|a: int| 0 <= a < olds.len() implies olds[a] != nl by {
            assert((olds + news)[a] == olds[a]);
            assert((olds + news)[olds.len() + j0] == nl);
        }
        assert forall|a: int| 0 <= a < news1.len() implies news1[a] != nl by {
            assert((olds + news)[olds.len() + a] == news1[a]);
            assert((olds + news)[olds.len() + j0] == nl);
        }
        lemma_untouched(d, olds, news1, nl);
        assert(d1[nl] == d[nl]);
        assert(d1.dom() == d.dom());
        assert(key_in(d1, nl) == key_in(d, nl));
        lemma_first_index_facts(ok, kl.key);
        match first_index(ok, kl.key) {
            Some(i0) => {
                assert(pairs == multi_pairs(olds, ok, news1, nk1).push((olds[i0], nl)));
                assert(pairs.drop_last() =~= multi_pairs(olds, ok, news1, nk1));
                let o0 = olds[i0];
                assert(o0 != nl) by {
                    assert((olds + news)[i0] == o0);
                    assert((olds + news)[olds.len() + j0] == nl);
                }
                assert(key_in(d1, o0) is Some);
                lemma_link_step(d1, o0, nl);
                let d2 = applied(d, pairs);
                assert(d2 == link_step(d1, o0, nl));
                assert(ok.contains(nk[j0])) by {
                    assert(ok[i0] == Some(kl.key));
                }
                assert(ok[i0] == keys_of(d, olds)[i0]);
                assert forall|j: int| 0 <= j < news1.len() implies #[trigger] news[j] != o0 && news[j] != nl by {
                    assert((olds + news)[olds.len() + j] == news[j]);
                    assert((olds + news)[i0] == o0);
                    assert((olds + news)[olds.len() + j0] == nl);
                }
                assert forall|j: int| 0 <= j < news.len() implies ({
                    let k = #[trigger] key_state(d2, news[j]);
                    &&& key_in(d2, news[j]) is Some
                    &&& k.key == key_state(d, news[j]).key
                    &&& k.value == key_state(d, news[j]).value
                    &&& (k.before is Some <==> ok.contains(nk[j]))
                    &&& ok.contains(nk[j]) ==> k.before == Some(
                        key_state(d, olds[first_index(ok, key_state(d, news[j]).key).unwrap()]).value,
                    )
                }) by {
                    if j < news1.len() {
                        assert(news1[j] == news[j]);
                        assert(nk1[j] == nk[j]);
                        assert(d2[news[j]] == d1[news[j]]);
                        assert(key_in(d2, news[j]) == key_in(d1, news[j]));
                        assert(key_state(d1, news1[j]) == key_state(d1, news[j]));
                    } else {
                        assert(j == j0);
                        assert(key_state(d1, o0).value == key_state(d, o0).value);
                    }
                }
                assert forall|i: int| 0 <= i < olds.len() implies ({
                    let k = #[trigger] key_state(d2, olds[i]);
                    &&& key_in(d2, olds[i]) is Some
                    &&& k.key == key_state(d, olds[i]).key
                    &&& k.value == key_state(d, olds[i]).value
                    &&& k.before == key_state(d, olds[i]).before
                    &&& (k.has_next <==> nk.contains(ok[i]))
                }) by {
                    assert(olds[i] != nl) by {
                        assert((olds + news)[i] == olds[i]);
                        assert((olds + news)[olds.len() + j0] == nl);
                    }
                    lemma_contains_push(nk1, Some(kl.key), ok[i]);
                    assert(nk =~= nk1.push(Some(kl.key)));
                    assert(ok[i] == Some(key_state(d, olds[i]).key));
                    let k1 = key_state(d1, olds[i]);
                    assert(key_in(d1, olds[i]) is Some);
                    assert(k1.has_next <==> nk1.contains(ok[i]));
                    if i == i0 {
                        assert(key_state(d2, olds[i]) == KeyWidget { has_next: true, ..k1 });
                        assert(nk.contains(ok[i])) by {
                            assert(nk[j0] == ok[i]);
                        }
                    } else {
                        assert(olds[i] != o0) by {
                            assert((olds + news)[i] == olds[i]);
                            assert((olds + news)[i0] == o0);
                        }
                        assert(d2[olds[i]] == d1[olds[i]]);
                        assert(key_in(d2, olds[i]) == key_in(d1, olds[i]));
                        assert(key_state(d, olds[i]).key != key_state(d, olds[i0]).key);
                        assert(ok[i] != Some(kl.key));
                        assert(key_state(d2, olds[i]) == k1);
                    }
                }
            },
            None => {
                assert(pairs =~= multi_pairs(olds, ok, news1, nk1));
                let d2 = applied(d, pairs);
                assert(!ok.contains(nk[j0])) by {
                    if ok.contains(nk[j0]) {
                        let a = choose|a: int| 0 <= a < ok.len() && ok[a] == nk[j0];
                        assert(ok[a] == Some(kl.key));
                    }
                }
                assert forall|j: int| 0 <= j < news.len() implies ({
                    let k = #[trigger] key_state(d2, news[j]);
                    &&& key_in(d2, news[j]) is Some
                    &&& k.key == key_state(d, news[j]).key
                    &&& k.value == key_state(d, news[j]).value
                    &&& (k.before is Some <==> ok.contains(nk[j]))
                    &&& ok.contains(nk[j]) ==> k.before == Some(
                        key_state(d, olds[first_index(ok, key_state(d, news[j]).key).unwrap()]).value,
                    )
                }) by {
                    if j < news1.len() {
                        assert(news1[j] == news[j]);
                        assert(nk1[j] == nk[j]);
                    }
                }
                assert forall|i: int| 0 <= i < olds.len() implies ({
                    let k = #[trigger] key_state(d2, olds[i]);
                    &&& key_in(d2, olds[i]) is Some
                    &&& k.key == key_state(d, olds[i]).key
                    &&& k.value == key_state(d, olds[i]).value
                    &&& k.before == key_state(d, olds[i]).before
                    &&& (k.has_next <==> nk.contains(ok[i]))
                }) by {
                    lemma_contains_push(nk1, Some(kl.key), ok[i]);
                    assert(nk =~= nk1.push(Some(kl.key)));
                    assert(ok[i] == Some(key_state(d, olds[i]).key));
                    if ok[i] == Some(kl.key) {
                        assert(ok.contains(nk[j0]));
                    }
                }
            },
        }
    }
}

proof fn lemma_contains_push(s: Seq<Option<u64>>, x: Option<u64>, y: Option<u64>)
    ensures
        s.push(x).contains(y) == (s.contains(y) || x == y),
{
    if s.push(x).contains(y) {
        let a = choose|a: int| 0 <= a < s.len() + 1 && s.push(x)[a] == y;
        if a < s.len() {
            assert(s[a] == y);
        }
    }
    if s.contains(y) {
        let a = choose|a: int| 0 <= a < s.len() && s[a] == y;
        assert(s.push(x)[a] == y);
    }
    if x == y {
        assert(s.push(x)[s.len() as int] == y);
    }
}

/// A node in neither list is untouched by reconciling the two lists.
proof fn lemma_untouched(d: NodeMap, olds: Seq<WidgetId>, news: Seq<WidgetId>, x: WidgetId)
    requires
        forall|a: int| 0 <= a < olds.len() ==> olds[a] != x,
        forall|a: int| 0 <= a < news.len() ==> news[a] != x,
    ensures
        applied(d, multi_pairs(olds, keys_of(d, olds), news, keys_of(d, news)))[x] == d[x],
        applied(d, multi_pairs(olds, keys_of(d, olds), news, keys_of(d, news))).dom() == d.dom(),
    decreases news.len(),
{
    let ok = keys_of(d, olds);
    let nk = keys_of(d, news);
    if news.len() > 0 {
        let news1 = news.drop_last();
        assert forall|a: int| 0 <= a < news1.len() implies news1[a] != x by {
            assert(news1[a] == news[a]);
        }
        lemma_untouched(d, olds, news1, x);
        assert(keys_of(d, news1) =~= nk.drop_last());
        let d1 = applied(d, multi_pairs(olds, ok, news1, keys_of(d, news1)));
        let pairs = multi_pairs(olds, ok, news, nk);
        match nk.last() {
            Some(k) => match first_index(ok, k) {
                Some(i) => {
                    lemma_first_index_facts(ok, k);
                    assert(pairs.drop_last() =~= multi_pairs(olds, ok, news1, keys_of(d, news1)));
                    let o = olds[i];
                    let n = news.last();
                    if o != n && key_in(d1, o) is Some && key_in(d1, n) is Some {
                        lemma_link_step(d1, o, n);
                    } else if key_in(d1, o) is Some && key_in(d1, n) is Some {
                        let ko = key_in(d1, o).unwrap().1;
                        let kn = key_in(d1, n).unwrap().1;
                        lemma_with_key(d1, n, KeyWidget { before: Some(ko.value), ..kn });
                        let d3 = with_key(d1, n, KeyWidget { before: Some(ko.value), ..kn });
                        if key_in(d3, o) is Some {
                            lemma_with_key(d3, o, KeyWidget { has_next: true, ..key_in(d3, o).unwrap().1 });
                        }
                    }
                },
                None => {
                    assert(pairs =~= multi_pairs(olds, ok, news1, keys_of(d, news1)));
                },
            },
            None => {
                assert(pairs =~= multi_pairs(olds, ok, news1, keys_of(d, news1)));
            },
        }
    }
}

} // verus!
