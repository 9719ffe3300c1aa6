use ribir_tree::image::{ColorFormat, PixelImage};
use ribir_tree::layout::{
    validate_pos, widget_attach_data, BoxClamp, DataWidget, EdgeInsets, Padding, PaddingRender,
    PointerEventType, Scrollable, ScrollableWidget, Size, Void,
};
use ribir_tree::query::{hit_test_impl, Layer, Point, Query, Rect, Render};

fn scroll_assert(scrollable: Scrollable, delta_x: i32, delta_y: i32, child_pos: Point) {
    let mut w = ScrollableWidget::new(scrollable);
    w.on_wheel(Size::new(100, 100), Size::new(1000, 1000), delta_x, delta_y);
    assert_eq!(w.pos, child_pos);
}

#[test]
fn x_scroll() {
    scroll_assert(Scrollable::X, 10, 10, Point { x: -10, y: 0 });
    scroll_assert(Scrollable::X, 10000, 10, Point { x: -900, y: 0 });
    scroll_assert(Scrollable::X, -100, 10, Point { x: 0, y: 0 });
}

#[test]
fn y_scroll() {
    scroll_assert(Scrollable::Y, 10, 10, Point { x: 0, y: -10 });
    scroll_assert(Scrollable::Y, 10, 10000, Point { x: 0, y: -900 });
    scroll_assert(Scrollable::Y, -10, -100, Point { x: 0, y: 0 });
}

#[test]
fn both_scroll() {
    scroll_assert(Scrollable::Both, 10, 10, Point { x: -10, y: -10 });
    scroll_assert(Scrollable::Both, 10000, 10000, Point { x: -900, y: -900 });
    scroll_assert(Scrollable::Both, -100, -100, Point { x: 0, y: 0 });
}

#[test]
fn validate_pos_keeps_content_in_view() {
    assert_eq!(validate_pos(100, 1000, -50), -50);
    assert_eq!(validate_pos(100, 1000, 20), 0);
    assert_eq!(validate_pos(100, 1000, -5000), -900);
}

#[test]
fn padding_smoke() {
    let padding = Padding::new(EdgeInsets::only_left(1));
    let clamp = BoxClamp { min: Size::zero(), max: Size::new(1024, 768) };
    let child_clamp = padding.child_clamp(clamp);
    assert_eq!(child_clamp.max, Size::new(1023, 768));
    // the child takes 100 x 100.
    let size = padding.perform_layout(clamp, Some(Size::new(100, 100)));
    assert_eq!(size.width, 101);
    assert_eq!(size.height, 100);
    let grandchild = padding.grandchild_position(Point { x: 0, y: 0 });
    assert_eq!(grandchild.x, 1);
}

#[test]
fn padding_without_child_is_empty() {
    let padding = Padding::new(EdgeInsets::all(5));
    let clamp = BoxClamp { min: Size::new(3, 3), max: Size::new(20, 20) };
    assert_eq!(padding.perform_layout(clamp, None), Size::zero());
    assert_eq!(padding.child_clamp(clamp).min, Size::zero());
    assert_eq!(padding.perform_layout(clamp, Some(Size::new(50, 1))), Size::new(20, 11));
    assert!(!padding.only_sized_by_parent());
}

#[test]
fn padding_render_tracks_owner() {
    let a = Padding::new(EdgeInsets::all(1));
    let b = Padding::new(EdgeInsets::all(2));
    let mut r = PaddingRender::create(&a);
    assert!(!r.update(&a));
    assert!(r.update(&b));
    assert_eq!(r.0, EdgeInsets::all(2));
}

#[test]
fn void_is_transparent_to_hits() {
    let h = Void::hit_test();
    assert!(!h.hit);
    assert!(h.can_hit_child);
    assert!(Void::can_overflow());
    assert_eq!(Void::perform_layout(BoxClamp { min: Size::zero(), max: Size::new(9, 9) }, None), Size::zero());
    assert_eq!(Void::perform_layout(BoxClamp { min: Size::zero(), max: Size::new(9, 9) }, Some(Size::new(4, 5))), Size::new(4, 5));
    assert!(Void::render().is(0));
}

#[test]
fn hit_test_by_box() {
    let rect = Rect { x: 0, y: 0, width: 10, height: 10 };
    assert!(hit_test_impl(Some(rect), Point { x: 5, y: 5 }));
    assert!(!hit_test_impl(Some(rect), Point { x: 10, y: 5 }));
    assert!(!hit_test_impl(None, Point { x: 5, y: 5 }));
}

#[test]
fn query_orders() {
    let mut r = Render::new(7);
    r.wrap(Layer::Data(3, 1));
    r.wrap(Layer::Data(3, 2));
    r.wrap(Layer::Data(4, 9));
    assert_eq!(r.query_type_inside_first(3), vec![1, 2]);
    assert_eq!(r.query_type_outside_first(3), vec![2, 1]);
    assert_eq!(r.query_most_inside(3), Some(1));
    assert_eq!(r.query_most_outside(3), Some(2));
    assert!(r.contain_type(4));
    assert!(r.is(4));
    assert!(!r.is(7));
    // probing an absent capability finds nothing and is no error.
    assert_eq!(r.query_type_outside_first(99), Vec::<usize>::new());
    assert_eq!(r.query_most_inside(99), None);
    assert!(!r.contain_type(99));
    assert_eq!(Query::query_inside_first(&r, 7), vec![0]);
    assert_eq!(Query::query_outside_first(&r, 3), vec![2, 1]);
}

#[test]
fn data_widget_wraps() {
    let d = DataWidget::new(Render::new(5), Layer::Data(6, 0));
    let r = d.into_render();
    assert!(r.is(6));
    assert_eq!(r.query_most_inside(5), Some(0));
    let r2 = widget_attach_data(Render::new(5), Layer::Data(8, 1));
    assert!(r2.contain_type(8));
}

#[test]
fn pointer_event_bubbles() {
    assert!(PointerEventType::Down.bubbles());
    assert!(PointerEventType::Up.bubbles());
    assert!(!PointerEventType::Enter.bubbles());
    assert!(!PointerEventType::Leave.bubbles());
}

#[test]
fn pixel_image_fields() {
    assert_eq!(ColorFormat::Rgba8.pixel_per_bytes(), 4);
    assert_eq!(ColorFormat::Alpha8.pixel_per_bytes(), 1);
    let img = PixelImage::new(vec![1, 2, 3, 4, 5, 6, 7, 8], 2, 1, ColorFormat::Rgba8);
    assert_eq!(img.width(), 2);
    assert_eq!(img.height(), 1);
    assert_eq!(img.color_format(), ColorFormat::Rgba8);
    assert_eq!(img.pixel_bytes(), &[1, 2, 3, 4, 5, 6, 7, 8]);
}

#[test]
fn reserved_tags_are_checked() {
    let mut r = Render::new(7);
    r.wrap(Layer::Data(2, 0));
    assert!(r.well_tagged());
    r.wrap(Layer::Data(1, 0));
    assert!(!r.well_tagged());
    assert!(!Render::new(2).well_tagged());
}
