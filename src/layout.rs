//! Constraint passing for the built-in widgets, on integer sizes.
use crate::query::{HitTest, Layer, Point, Render};
use crate::widget_id::VOID_TAG;
use vstd::prelude::*;

verus! {

#[derive(Clone, Copy, Debug, PartialEq, Eq, Structural)]
pub struct Size {
    pub width: u32,
    pub height: u32,
}

/// The sizes a parent allows a child: between `min` and `max`.
#[derive(Clone, Copy, Debug, PartialEq, Eq, Structural)]
pub struct BoxClamp {
    pub min: Size,
    pub max: Size,
}

#[derive(Clone, Copy, Debug, PartialEq, Eq, Structural)]
pub struct EdgeInsets {
    pub left: u32,
    pub right: u32,
    pub top: u32,
    pub bottom: u32,
}

pub open spec fn sat_sub(a: int, b: int) -> int {
    if a > b {
        a - b
    } else {
        0
    }
}

pub open spec fn clamp_dim(v: int, lo: int, hi: int) -> int {
    let w = if v < lo {
        lo
    } else {
        v
    };
    if w > hi {
        hi
    } else {
        w
    }
}

impl Size {
    pub fn new(width: u32, height: u32) -> (r: Size)
        ensures
            r == (Size { width, height }),
    {
        Size { width, height }
    }

    pub fn zero() -> (r: Size)
        ensures
            r == (Size { width: 0, height: 0 }),
    {
        Size { width: 0, height: 0 }
    }
}

impl BoxClamp {
    /// `size` brought within the clamp, one dimension at a time.
    pub fn clamp(&self, width: u64, height: u64) -> (r: Size)
        requires
            self.min.width <= self.max.width,
            self.min.height <= self.max.height,
        ensures
            r.width == clamp_dim(width as int, self.min.width as int, self.max.width as int),
            r.height == clamp_dim(height as int, self.min.height as int, self.max.height as int),
    {
        let w = if width < self.min.width as u64 {
            self.min.width as u64
        } else {
            width
        };
        let w = if w > self.max.width as u64 {
            self.max.width as u64
        } else {
            w
        };
        let h = if height < self.min.height as u64 {
            self.min.height as u64
        } else {
            height
        };
        let h = if h > self.max.height as u64 {
            self.max.height as u64
        } else {
            h
        };
        Size { width: w as u32, height: h as u32 }
    }
}

impl EdgeInsets {
    pub fn all(v: u32) -> (r: EdgeInsets)
        ensures
            r == (EdgeInsets { left: v, right: v, top: v, bottom: v }),
    {
        EdgeInsets { left: v, right: v, top: v, bottom: v }
    }

    pub fn only_left(v: u32) -> (r: EdgeInsets)
        ensures
            r == (EdgeInsets { left: v, right: 0, top: 0, bottom: 0 }),
    {
        EdgeInsets { left: v, right: 0, top: 0, bottom: 0 }
    }
}

/// A widget that insets its child by the given padding.
#[derive(Clone, Copy, Debug, PartialEq, Eq, Structural)]
pub struct Padding {
    pub padding: EdgeInsets,
}

impl Padding {
    pub fn new(padding: EdgeInsets) -> (r: Padding)
        ensures
            r.padding == padding,
    {
        Padding { padding }
    }

    /// The clamp handed to the child: the parent's clamp shrunk by the
    /// padding, never below zero.
    pub fn child_clamp(&self, clamp: BoxClamp) -> (r: BoxClamp)
        ensures
            r.min.width == sat_sub(clamp.min.width as int, self.padding.left + self.padding.right),
            r.min.height == sat_sub(clamp.min.height as int, self.padding.top + self.padding.bottom),
            r.max.width == sat_sub(clamp.max.width as int, self.padding.left + self.padding.right),
            r.max.height == sat_sub(clamp.max.height as int, self.padding.top + self.padding.bottom),
    {
        let tw: u64 = self.padding.left as u64 + self.padding.right as u64;
        let th: u64 = self.padding.top as u64 + self.padding.bottom as u64;
        let shrink = |a: u32, t: u64| -> (r: u32)
            ensures
                r == sat_sub(a as int, t as int),
            {
                if a as u64 > t {
                    (a as u64 - t) as u32
                } else {
                    0
                }
            };
        BoxClamp {
            min: Size { width: shrink(clamp.min.width, tw), height: shrink(clamp.min.height, th) },
            max: Size { width: shrink(clamp.max.width, tw), height: shrink(clamp.max.height, th) },
        }
    }

    /// The size of the padding widget: none without a child, else the
    /// child's size grown by the padding and brought within the clamp.
    pub fn perform_layout(&self, clamp: BoxClamp, child: Option<Size>) -> (r: Size)
        requires
            clamp.min.width <= clamp.max.width,
            clamp.min.height <= clamp.max.height,
        ensures
            child.is_none() ==> r == Size::zero_spec(),
            child.is_some() ==> {
                let c = child.unwrap();
                &&& r.width == clamp_dim(
                    c.width + self.padding.left + self.padding.right,
                    clamp.min.width as int,
                    clamp.max.width as int,
                )
                &&& r.height == clamp_dim(
                    c.height + self.padding.top + self.padding.bottom,
                    clamp.min.height as int,
                    clamp.max.height as int,
                )
            },
    {
        match child {
            None => Size::zero(),
            Some(c) => {
                let w: u64 = c.width as u64 + self.padding.left as u64 + self.padding.right as u64;
                let h: u64 = c.height as u64 + self.padding.top as u64 + self.padding.bottom as u64;
                clamp.clamp(w, h)
            },
        }
    }

    /// Where a grandchild goes once the child is grown by the padding.
    pub fn grandchild_position(&self, pos: Point) -> (r: Point)
        requires
            pos.x + self.padding.left <= i64::MAX,
            pos.y + self.padding.top <= i64::MAX,
        ensures
            r.x == pos.x + self.padding.left,
            r.y == pos.y + self.padding.top,
    {
        Point { x: pos.x + self.padding.left as i64, y: pos.y + self.padding.top as i64 }
    }

    pub fn only_sized_by_parent(&self) -> (r: bool)
        ensures
            !r,
    {
        false
    }
}

impl Size {
    pub open spec fn zero_spec() -> Size {
        Size { width: 0, height: 0 }
    }
}

/// The render object of a padding widget.
#[derive(Clone, Copy, Debug, PartialEq, Eq, Structural)]
pub struct PaddingRender(pub EdgeInsets);

impl PaddingRender {
    pub fn create(owner: &Padding) -> (r: PaddingRender)
        ensures
            r.0 == owner.padding,
    {
        PaddingRender(owner.padding)
    }

    /// Take the owner's padding; returns whether layout is needed again.
    pub fn update(&mut self, owner: &Padding) -> (needs_layout: bool)
        ensures
            needs_layout == (old(self).0 != owner.padding),
            final(self).0 == owner.padding,
    {
        let changed = self.0 != owner.padding;
        self.0 = owner.padding;
        changed
    }
}

/// A placeholder widget: sized by its only child, or empty; never hit itself.
#[derive(Clone, Copy, Debug, PartialEq, Eq, Structural)]
pub struct Void;

impl Void {
    pub fn render() -> (r: Render)
        ensures
            r.layers@ == seq![Layer::Prim(VOID_TAG)],
    {
        Render::new(VOID_TAG)
    }

    pub fn perform_layout(clamp: BoxClamp, child: Option<Size>) -> (r: Size)
        ensures
            r == (match child {
                Some(s) => s,
                None => Size::zero_spec(),
            }),
    {
        match child {
            Some(s) => s,
            None => Size::zero(),
        }
    }

    pub fn can_overflow() -> (r: bool)
        ensures
            r,
    {
        true
    }

    pub fn hit_test() -> (r: HitTest)
        ensures
            !r.hit && r.can_hit_child,
    {
        HitTest { hit: false, can_hit_child: true }
    }
}

/// A widget with data attached; it behaves as the widget it wraps, and the
/// data is queried before it from the outside.
pub struct DataWidget {
    pub widget: Render,
    pub data: Layer,
}

impl DataWidget {
    pub fn new(widget: Render, data: Layer) -> (r: DataWidget)
        ensures
            r.widget == widget,
            r.data == data,
    {
        DataWidget { widget, data }
    }

    pub fn into_render(self) -> (r: Render)
        ensures
            r.layers@ == self.widget.layers@.push(self.data),
    {
        let mut w = self.widget;
        w.wrap(self.data);
        w
    }
}

/// Attach `data` to the render object of a widget.
pub fn widget_attach_data(widget: Render, data: Layer) -> (r: Render)
    ensures
        r.layers@ == widget.layers@.push(data),
{
    DataWidget::new(widget, data).into_render()
}

/// The directions a widget may scroll in.
#[derive(Clone, Copy, Debug, PartialEq, Eq, Structural)]
pub enum Scrollable {
    X,
    Y,
    Both,
}

/// The scroll state of a widget: which directions, and the child's offset.
#[derive(Clone, Copy, Debug, PartialEq, Eq, Structural)]
pub struct ScrollableWidget {
    pub scrollable: Scrollable,
    pub pos: Point,
}

pub open spec fn valid_pos_spec(view: int, content: int, pos: int) -> int {
    let p = if pos < 0 {
        pos
    } else {
        0
    };
    if p < view - content {
        view - content
    } else {
        p
    }
}

/// An offset kept between the furthest the content can go and zero.
pub fn validate_pos(view: u32, content: u32, pos: i64) -> (r: i64)
    requires
        pos >= i64::MIN + u32::MAX,
    ensures
        r == valid_pos_spec(view as int, content as int, pos as int),
{
    let p = if pos < 0 {
        pos
    } else {
        0
    };
    let lo: i64 = view as i64 - content as i64;
    if p < lo {
        lo
    } else {
        p
    }
}

impl ScrollableWidget {
    pub fn new(scrollable: Scrollable) -> (r: ScrollableWidget)
        ensures
            r.scrollable == scrollable,
            r.pos == (Point { x: 0, y: 0 }),
    {
        ScrollableWidget { scrollable, pos: Point { x: 0, y: 0 } }
    }

    /// The offset after a wheel of `(delta_x, delta_y)` over a view of size
    /// `view` showing content of size `content`.
    pub fn scrolled(&self, view: Size, content: Size, delta_x: i32, delta_y: i32) -> (r: Point)
        requires
            -(u32::MAX as int) <= self.pos.x <= u32::MAX,
            -(u32::MAX as int) <= self.pos.y <= u32::MAX,
        ensures
            r.x == (if self.scrollable != Scrollable::Y {
                valid_pos_spec(view.width as int, content.width as int, self.pos.x - delta_x)
            } else {
                self.pos.x as int
            }),
            r.y == (if self.scrollable != Scrollable::X {
                valid_pos_spec(view.height as int, content.height as int, self.pos.y - delta_y)
            } else {
                self.pos.y as int
            }),
    {
        let mut new = self.pos;
        if self.scrollable != Scrollable::X {
            new.y = validate_pos(view.height, content.height, self.pos.y - delta_y as i64);
        }
        if self.scrollable != Scrollable::Y {
            new.x = validate_pos(view.width, content.width, self.pos.x - delta_x as i64);
        }
        new
    }

    /// Apply a wheel to the widget's offset.
    pub fn on_wheel(&mut self, view: Size, content: Size, delta_x: i32, delta_y: i32)
        requires
            -(u32::MAX as int) <= old(self).pos.x <= u32::MAX,
            -(u32::MAX as int) <= old(self).pos.y <= u32::MAX,
        ensures
            final(self).scrollable == old(self).scrollable,
            final(self).pos.x == (if old(self).scrollable != Scrollable::Y {
                valid_pos_spec(view.width as int, content.width as int, old(self).pos.x - delta_x)
            } else {
                old(self).pos.x as int
            }),
            final(self).pos.y == (if old(self).scrollable != Scrollable::X {
                valid_pos_spec(view.height as int, content.height as int, old(self).pos.y - delta_y)
            } else {
                old(self).pos.y as int
            }),
    {
        let p = self.scrolled(view, content, delta_x, delta_y);
        self.pos = p;
    }
}

/// The kinds of pointer event; enter and leave do not bubble.
#[derive(Clone, Copy, Debug, PartialEq, Eq, Structural)]
pub enum PointerEventType {
    Down,
    Move,
    Up,
    Cancel,
    Enter,
    Leave,
}

impl PointerEventType {
    pub fn bubbles(&self) -> (r: bool)
        ensures
            r == !(*self == PointerEventType::Enter || *self == PointerEventType::Leave),
    {
        match self {
            PointerEventType::Enter | PointerEventType::Leave => false,
            _ => true,
        }
    }
}

} // verus!
