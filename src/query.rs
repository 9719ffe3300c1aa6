//! Capability probing over the layers that make up one render object.
//!
//! A render object is a stack of layers: the first layer is the innermost
//! render primitive, every later layer wraps the ones before it (attached
//! data, keys, listeners, unsubscribe guards). Querying walks that stack
//! either from the inside out or from the outside in.
use vstd::prelude::*;

verus! {

/// The tag that every key layer reports.
pub const KEY_TAG: u64 = 1;

/// Per-key reconciliation state: the key, its current value, and the links
/// recorded to the widget it replaced and to the widget that replaced it.
#[derive(Clone, Copy, Debug, PartialEq, Eq, Structural)]
pub struct KeyWidget {
    pub key: u64,
    pub value: u64,
    /// Value of the widget with the same key that this one replaced.
    pub before: Option<u64>,
    /// Whether a widget with the same key replaced this one.
    pub has_next: bool,
}

impl KeyWidget {
    pub fn new(key: u64, value: u64) -> (r: KeyWidget)
        ensures
            r == (KeyWidget { key, value, before: None, has_next: false }),
    {
        KeyWidget { key, value, before: None, has_next: false }
    }

    /// The widget entered the tree without a predecessor of the same key.
    pub fn is_enter(&self) -> (r: bool)
        ensures
            r == self.before.is_none(),
    {
        self.before.is_none()
    }

    /// The widget replaced one of the same key whose value differed.
    pub fn is_changed(&self) -> (r: bool)
        ensures
            r == (self.before.is_some() && self.before.unwrap() != self.value),
    {
        match self.before {
            Some(v) => v != self.value,
            None => false,
        }
    }

    /// No widget of the same key replaced this one.
    pub fn is_leave(&self) -> (r: bool)
        ensures
            r == !self.has_next,
    {
        !self.has_next
    }

    /// The value before and after the last reconciliation.
    pub fn get_change(&self) -> (r: (Option<u64>, u64))
        ensures
            r == (self.before, self.value),
    {
        (self.before, self.value)
    }
}

/// One layer of a render object.
///
/// The tags `KEY_TAG` (1) and the pin tag of the tree (2) are reserved: no
/// `Prim` layer may use them, and only pin layers (`Data` of tag 2) may use
/// the pin tag, or a layer would shadow a real key or pin when the outermost
/// layer of that tag is looked up. `is_well_tagged` states this, and
/// `Render::well_tagged` tests it.
#[derive(Clone, Copy, Debug, PartialEq, Eq, Structural)]
pub enum Layer {
    /// A render primitive, identified by its type tag.
    Prim(u64),
    /// Attached data of the given type tag carrying a value.
    Data(u64, u64),
    /// A key, always reported under `KEY_TAG`.
    Key(KeyWidget),
}

/// The tags that only keys and pins may carry.
pub open spec fn reserved_tag(t: u64) -> bool {
    t == KEY_TAG || t == 2
}

/// No `Prim` or `Data` layer uses a reserved tag.
pub open spec fn is_well_tagged(ls: Seq<Layer>) -> bool {
    forall|i: int|
        0 <= i < ls.len() ==> match #[trigger] ls[i] {
            Layer::Prim(t) => !reserved_tag(t),
            Layer::Data(t, _) => t != KEY_TAG,
            Layer::Key(_) => true,
        }
}

pub open spec fn layer_tag(l: Layer) -> u64 {
    match l {
        Layer::Prim(t) => t,
        Layer::Data(t, _) => t,
        Layer::Key(_) => KEY_TAG,
    }
}

pub fn tag_of(l: &Layer) -> (r: u64)
    ensures
        r == layer_tag(*l),
{
    match l {
        Layer::Prim(t) => *t,
        Layer::Data(t, _) => *t,
        Layer::Key(_) => KEY_TAG,
    }
}

/// The indices of the layers of `layers` with tag `tag`, innermost first.
pub open spec fn matches_inside_first(layers: Seq<Layer>, tag: u64) -> Seq<usize>
    decreases layers.len(),
{
    if layers.len() == 0 {
        Seq::empty()
    } else {
        let rest = matches_inside_first(layers.drop_last(), tag);
        if layer_tag(layers.last()) == tag {
            rest.push((layers.len() - 1) as usize)
        } else {
            rest
        }
    }
}

/// The indices of the layers of `layers` with tag `tag`, outermost first.
pub open spec fn matches_outside_first(layers: Seq<Layer>, tag: u64) -> Seq<usize> {
    matches_inside_first(layers, tag).reverse()
}

pub struct HitTest {
    pub hit: bool,
    pub can_hit_child: bool,
}

/// An integer point in the coordinate space of a widget's parent.
#[derive(Clone, Copy, Debug, PartialEq, Eq, Structural)]
pub struct Point {
    pub x: i64,
    pub y: i64,
}

/// An axis-aligned box given by its origin and size.
#[derive(Clone, Copy, Debug, PartialEq, Eq, Structural)]
pub struct Rect {
    pub x: i64,
    pub y: i64,
    pub width: u32,
    pub height: u32,
}

pub open spec fn rect_contains(r: Rect, p: Point) -> bool {
    r.x <= p.x && p.x < r.x + r.width && r.y <= p.y && p.y < r.y + r.height
}

/// A position hits a widget when the widget has a layout box containing it.
pub fn hit_test_impl(box_rect: Option<Rect>, pos: Point) -> (r: bool)
    ensures
        r == (box_rect.is_some() && rect_contains(box_rect.unwrap(), pos)),
{
    match box_rect {
        Some(rc) => {
            let right: i128 = rc.x as i128 + rc.width as i128;
            let bottom: i128 = rc.y as i128 + rc.height as i128;
            rc.x <= pos.x && (pos.x as i128) < right && rc.y <= pos.y && (pos.y as i128) < bottom
        },
        None => false,
    }
}

/// Probing a value for capabilities by type tag, in the two standard orders.
pub trait Query {
    spec fn layers_view(&self) -> Seq<Layer>;

    /// The indices of the matching layers, innermost first.
    fn query_inside_first(&self, tag: u64) -> (r: Vec<usize>)
        ensures
            r@ == matches_inside_first(self.layers_view(), tag),
    ;

    /// The indices of the matching layers, outermost first.
    fn query_outside_first(&self, tag: u64) -> (r: Vec<usize>)
        ensures
            r@ == matches_outside_first(self.layers_view(), tag),
    ;
}

/// A render object: a render primitive and the layers wrapped around it.
#[derive(Debug)]
pub struct Render {
    pub layers: Vec<Layer>,
}

impl Render {
    pub fn new(prim: u64) -> (r: Render)
        ensures
            r.layers@ == seq![Layer::Prim(prim)],
    {
        Render { layers: vec![Layer::Prim(prim)] }
    }

    /// Whether no layer misuses a reserved tag.
    pub fn well_tagged(&self) -> (r: bool)
        ensures
            r == is_well_tagged(self.layers@),
    {
        let mut i: usize = 0;
        while i < self.layers.len()
            invariant
                i <= self.layers@.len(),
                forall|j: int|
                    0 <= j < i ==> match #[trigger] self.layers@[j] {
                        Layer::Prim(t) => !reserved_tag(t),
                        Layer::Data(t, _) => t != KEY_TAG,
                        Layer::Key(_) => true,
                    },
            decreases self.layers@.len() - i,
        {
            let ok = match self.layers[i] {
                Layer::Prim(t) => t != KEY_TAG && t != 2,
                Layer::Data(t, _) => t != KEY_TAG,
                Layer::Key(_) => true,
            };
            if !ok {
                return false;
            }
            i = i + 1;
        }
        true
    }

    /// Wrap the object in one more layer, which becomes the outermost.
    pub fn wrap(&mut self, l: Layer)
        ensures
            final(self).layers@ == old(self).layers@.push(l),
    {
        self.layers.push(l);
    }

    pub fn query_type_inside_first(&self, tag: u64) -> (r: Vec<usize>)
        ensures
            r@ == matches_inside_first(self.layers@, tag),
    {
        let mut r: Vec<usize> = Vec::new();
        let mut i: usize = 0;
        while i < self.layers.len()
            invariant
                i <= self.layers@.len(),
                r@ == matches_inside_first(self.layers@.take(i as int), tag),
            decreases self.layers@.len() - i,
        {
            proof {
                assert(self.layers@.take(i + 1).drop_last() == self.layers@.take(i as int));
            }
            if tag_of(&self.layers[i]) == tag {
                r.push(i);
            }
            i = i + 1;
        }
        proof {
            assert(self.layers@.take(i as int) == self.layers@);
        }
        r
    }

    pub fn query_type_outside_first(&self, tag: u64) -> (r: Vec<usize>)
        ensures
            r@ == matches_outside_first(self.layers@, tag),
    {
        let ins = self.query_type_inside_first(tag);
        let mut r: Vec<usize> = Vec::new();
        let mut i: usize = ins.len();
        while i > 0
            invariant
                i <= ins@.len(),
                r@ == ins@.subrange(i as int, ins@.len() as int).reverse(),
            decreases i,
        {
            i = i - 1;
            r.push(ins[i]);
            proof {
                assert(ins@.subrange(i as int, ins@.len() as int).reverse() =~= ins@.subrange(
                    i + 1,
                    ins@.len() as int,
                ).reverse().push(ins@[i as int]));
            }
        }
        proof {
            assert(ins@.subrange(0, ins@.len() as int) == ins@);
        }
        r
    }

    /// The index of the innermost layer of tag `tag`.
    pub fn query_most_inside(&self, tag: u64) -> (r: Option<usize>)
        ensures
            r == (if matches_inside_first(self.layers@, tag).len() > 0 {
                Some(matches_inside_first(self.layers@, tag)[0])
            } else {
                None
            }),
    {
        let all = self.query_type_inside_first(tag);
        if all.len() > 0 {
            Some(all[0])
        } else {
            None
        }
    }

    /// The index of the outermost layer of tag `tag`.
    pub fn query_most_outside(&self, tag: u64) -> (r: Option<usize>)
        ensures
            r == (if matches_outside_first(self.layers@, tag).len() > 0 {
                Some(matches_outside_first(self.layers@, tag)[0])
            } else {
                None
            }),
    {
        let all = self.query_type_outside_first(tag);
        if all.len() > 0 {
            Some(all[0])
        } else {
            None
        }
    }

    /// Whether any layer has tag `tag`.
    pub fn contain_type(&self, tag: u64) -> (r: bool)
        ensures
            r == (matches_outside_first(self.layers@, tag).len() > 0),
    {
        self.query_type_outside_first(tag).len() > 0
    }

    /// Whether the outermost layer has tag `tag`.
    pub fn is(&self, tag: u64) -> (r: bool)
        ensures
            r == (self.layers@.len() > 0 && layer_tag(self.layers@.last()) == tag),
    {
        let n = self.layers.len();
        n > 0 && tag_of(&self.layers[n - 1]) == tag
    }
}

impl Query for Render {
    open spec fn layers_view(&self) -> Seq<Layer> {
        self.layers@
    }

    fn query_inside_first(&self, tag: u64) -> (r: Vec<usize>) {
        self.query_type_inside_first(tag)
    }

    fn query_outside_first(&self, tag: u64) -> (r: Vec<usize>) {
        self.query_type_outside_first(tag)
    }
}

} // verus!
