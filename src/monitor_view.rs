//! The layout canvas: fitting the arrangement into a viewport, hit-testing,
//! dragging displays and panning the view, snapping and normalization.
use vstd::prelude::*;

use crate::geometry::Pos;
use crate::model::{AppData, DisplayInfo};

verus! {

/// The grid, in display-space units, that dragged displays snap to.
pub const QUANT: i32 = 16;

/// The margin, in pixels, kept free around the fitted arrangement: width and height.
pub const MARGIN_X: i64 = 40;

pub const MARGIN_Y: i64 = 50;

/// `v` held within the range of `i32`.
pub open spec fn clamp32(v: int) -> i32 {
    if v < i32::MIN {
        i32::MIN
    } else if v > i32::MAX {
        i32::MAX
    } else {
        v as i32
    }
}

fn clamp_i32(v: i128) -> (r: i32)
    ensures
        r == clamp32(v as int),
{
    if v < i32::MIN as i128 {
        i32::MIN
    } else if v > i32::MAX as i128 {
        i32::MAX
    } else {
        v as i32
    }
}

/// Division rounding down, for a positive divisor.
fn floor_div(a: i128, b: i128) -> (r: i128)
    requires
        b > 0,
        -0x1_0000_0000_0000_0000_0000_0000 <= a <= 0x1_0000_0000_0000_0000_0000_0000,
    ensures
        r == a / b,
{
    if a >= 0 {
        ((a as u128) / (b as u128)) as i128
    } else {
        let m: u128 = (-a) as u128;
        let q: u128 = m / (b as u128);
        let r: u128 = m % (b as u128);
        proof {
            let bi = b as int;
            vstd::arithmetic::div_mod::lemma_fundamental_div_mod(m as int, bi);
            assert(m == bi * q + r);
            assert(q <= m) by (nonlinear_arith)
                requires
                    m == bi * q + r,
                    bi >= 1,
                    r >= 0,
                    q >= 0,
            ;
            if r == 0 {
                assert(a == (-(q as int)) * bi + 0) by (nonlinear_arith)
                    requires
                        m == bi * q + r,
                        r == 0,
                        a == -m,
                ;
                vstd::arithmetic::div_mod::lemma_fundamental_div_mod_converse(
                    a as int,
                    bi,
                    -(q as int),
                    0,
                );
            } else {
                assert(a == (-(q as int) - 1) * bi + (bi - r)) by (nonlinear_arith)
                    requires
                        m == bi * q + r,
                        a == -m,
                ;
                vstd::arithmetic::div_mod::lemma_fundamental_div_mod_converse(
                    a as int,
                    bi,
                    -(q as int) - 1,
                    bi - r,
                );
            }
        }
        if r == 0 {
            -(q as i128)
        } else {
            -(q as i128) - 1
        }
    }
}

/// Snapping to the grid, with its half-cell bias: `floor(v / 16) * 16 + 8`.
pub open spec fn quantize_spec(v: int) -> int {
    (v / QUANT as int) * QUANT as int + QUANT as int / 2
}

/// Snapping twice is snapping once.
pub proof fn lemma_quantize_idempotent(v: int)
    ensures
        quantize_spec(quantize_spec(v)) == quantize_spec(v),
{
    let q = v / 16;
    vstd::arithmetic::div_mod::lemma_fundamental_div_mod_converse(q * 16 + 8, 16, q, 8);
}

/// The viewport's zoom: display-space lengths are multiplied by `num / den`.
#[derive(Clone, Copy, Debug, PartialEq, Eq, Structural)]
pub struct ViewScale {
    pub num: u64,
    pub den: u64,
}

/// A drag in progress.
#[derive(Debug)]
pub enum DragState {
    /// No display is dragged: pointer motion moves the viewport. `start` is
    /// the pointer position less the offset at the press.
    PanningCanvas { start: (i64, i64) },
    /// `target_name` is dragged from `origin_position`; `start` is the
    /// pointer position at the press.
    MovingDisplay { start: (i64, i64), target_name: String, origin_position: Pos },
}

/// A pointer event on the canvas, at a position in viewport pixels.
#[derive(Clone, Copy, Debug, PartialEq, Eq, Structural)]
pub enum PointerEvent {
    Down(i32, i32),
    Move(i32, i32),
    Up,
}

/// The canvas: where the arrangement is drawn and the drag in progress.
#[derive(Debug)]
pub struct MonitorView {
    /// Where display-space `(0, 0)` lies in the viewport, in pixels.
    pub offset: (i64, i64),
    pub scale: ViewScale,
    pub dragging: Option<DragState>,
}

/// An edge of a display's rectangle.
#[derive(Clone, Copy, Debug, PartialEq, Eq, Structural)]
pub enum Edge {
    Left,
    Top,
    Right,
    Bottom,
}

/// Where an edge of `d` lies in display space.
pub open spec fn edge(d: DisplayInfo, e: Edge) -> int {
    match e {
        Edge::Left => d.position.0 as int,
        Edge::Top => d.position.1 as int,
        Edge::Right => d.position.0 + d.size.0,
        Edge::Bottom => d.position.1 + d.size.1,
    }
}

impl Default for MonitorView {
    fn default() -> (r: MonitorView)
        ensures
            r.wf(),
            r.offset == (0i64, 0i64),
            r.scale == (ViewScale { num: 1, den: 1 }),
            r.dragging is None,
    {
        MonitorView::new()
    }
}

/// The least position of edge `e` over a non-empty `s`.
pub open spec fn fold_min(s: Seq<DisplayInfo>, e: Edge) -> int
    decreases s.len(),
{
    if s.len() <= 1 {
        edge(s[0], e)
    } else {
        let m = fold_min(s.drop_last(), e);
        if edge(s.last(), e) < m {
            edge(s.last(), e)
        } else {
            m
        }
    }
}

/// The greatest position of edge `e` over a non-empty `s`.
pub open spec fn fold_max(s: Seq<DisplayInfo>, e: Edge) -> int
    decreases s.len(),
{
    if s.len() <= 1 {
        edge(s[0], e)
    } else {
        let m = fold_max(s.drop_last(), e);
        if edge(s.last(), e) > m {
            edge(s.last(), e)
        } else {
            m
        }
    }
}

/// The bounding box of a non-empty set: least corner, then greatest corner.
pub open spec fn bounds_of(s: Seq<DisplayInfo>) -> ((int, int), (int, int)) {
    (
        (fold_min(s, Edge::Left), fold_min(s, Edge::Top)),
        (fold_max(s, Edge::Right), fold_max(s, Edge::Bottom)),
    )
}

/// The least of an edge is a lower bound, and some record reaches it.
pub proof fn lemma_fold_min(s: Seq<DisplayInfo>, e: Edge)
    requires
        s.len() > 0,
    ensures
        forall|i: int| 0 <= i < s.len() ==> fold_min(s, e) <= edge(#[trigger] s[i], e),
        exists|i: int| 0 <= i < s.len() && fold_min(s, e) == edge(#[trigger] s[i], e),
    decreases s.len(),
{
    if s.len() > 1 {
        lemma_fold_min(s.drop_last(), e);
        assert forall|i: int| 0 <= i < s.len() implies fold_min(s, e) <= edge(#[trigger] s[i], e) by {
            if i < s.len() - 1 {
                assert(s[i] == s.drop_last()[i]);
            }
        }
        if edge(s.last(), e) < fold_min(s.drop_last(), e) {
            assert(fold_min(s, e) == edge(s[s.len() - 1], e));
        } else {
            let j = choose|j: int|
                0 <= j < s.drop_last().len() && fold_min(s.drop_last(), e) == edge(
                    #[trigger] s.drop_last()[j],
                    e,
                );
            assert(s[j] == s.drop_last()[j]);
        }
    } else {
        assert(fold_min(s, e) == edge(s[0], e));
    }
}

/// A lower bound of an edge that some record reaches is its least.
pub proof fn lemma_fold_min_is(s: Seq<DisplayInfo>, e: Edge, v: int, k: int)
    requires
        0 <= k < s.len(),
        edge(s[k], e) == v,
        forall|i: int| 0 <= i < s.len() ==> v <= edge(#[trigger] s[i], e),
    ensures
        fold_min(s, e) == v,
{
    lemma_fold_min(s, e);
}

/// The greatest of an edge is an upper bound.
pub proof fn lemma_fold_max(s: Seq<DisplayInfo>, e: Edge)
    requires
        s.len() > 0,
    ensures
        forall|i: int| 0 <= i < s.len() ==> edge(#[trigger] s[i], e) <= fold_max(s, e),
        exists|i: int| 0 <= i < s.len() && fold_max(s, e) == edge(#[trigger] s[i], e),
    decreases s.len(),
{
    if s.len() > 1 {
        lemma_fold_max(s.drop_last(), e);
        assert forall|i: int| 0 <= i < s.len() implies edge(#[trigger] s[i], e) <= fold_max(s, e) by {
            if i < s.len() - 1 {
                assert(s[i] == s.drop_last()[i]);
            }
        }
        if edge(s.last(), e) > fold_max(s.drop_last(), e) {
            assert(fold_max(s, e) == edge(s[s.len() - 1], e));
        } else {
            let j = choose|j: int|
                0 <= j < s.drop_last().len() && fold_max(s.drop_last(), e) == edge(
                    #[trigger] s.drop_last()[j],
                    e,
                );
            assert(s[j] == s.drop_last()[j]);
        }
    } else {
        assert(fold_max(s, e) == edge(s[0], e));
    }
}

/// `d` moved by `(-mx, -my)`, coordinates held within `i32`.
pub open spec fn shifted(d: DisplayInfo, mx: int, my: int) -> DisplayInfo {
    DisplayInfo { position: Pos(clamp32(d.position.0 - mx), clamp32(d.position.1 - my)), ..d }
}

/// The set moved so that its bounding box starts at `(0, 0)`.
pub open spec fn normalized(s: Seq<DisplayInfo>) -> Seq<DisplayInfo> {
    if s.len() == 0 {
        s
    } else {
        let b = bounds_of(s);
        s.map_values(|d: DisplayInfo| shifted(d, b.0.0, b.0.1))
    }
}

/// After normalization the bounding box of a non-empty set starts at `(0, 0)`.
pub proof fn lemma_normalized_min(s: Seq<DisplayInfo>)
    requires
        s.len() > 0,
    ensures
        bounds_of(normalized(s)).0 == (0int, 0int),
{
    let b = bounds_of(s);
    let n = normalized(s);
    lemma_fold_min(s, Edge::Left);
    lemma_fold_min(s, Edge::Top);
    let kx = choose|i: int| 0 <= i < s.len() && fold_min(s, Edge::Left) == edge(#[trigger] s[i], Edge::Left);
    let ky = choose|i: int| 0 <= i < s.len() && fold_min(s, Edge::Top) == edge(#[trigger] s[i], Edge::Top);
    assert forall|i: int| 0 <= i < n.len() implies 0 <= edge(#[trigger] n[i], Edge::Left) by {
        assert(b.0.0 <= edge(s[i], Edge::Left));
    }
    assert forall|i: int| 0 <= i < n.len() implies 0 <= edge(#[trigger] n[i], Edge::Top) by {
        assert(b.0.1 <= edge(s[i], Edge::Top));
    }
    assert(edge(n[kx], Edge::Left) == 0);
    assert(edge(n[ky], Edge::Top) == 0);
    lemma_fold_min_is(n, Edge::Left, 0, kx);
    lemma_fold_min_is(n, Edge::Top, 0, ky);
}

/// The fitted viewport for a set in an area: zoom, offset and the size of
/// the box that the arrangement is fitted into.
#[derive(Clone, Copy, Debug)]
pub struct Fit {
    pub scale: ViewScale,
    pub offset: (i64, i64),
    pub size: (i64, i64),
}

/// How a set is fitted into an area of `area` pixels: the largest box of the
/// arrangement's aspect ratio inside the area less the margins, a zoom that
/// never enlarges, and the box centred in the area. There is none for an empty
/// set, for an arrangement without width or height, or for an area no larger
/// than the margins.
pub open spec fn fit_of(s: Seq<DisplayInfo>, area: (u32, u32)) -> Option<Fit> {
    if s.len() == 0 {
        None
    } else {
        let b = bounds_of(s);
        let w = b.1.0 - b.0.0;
        let h = b.1.1 - b.0.1;
        let aw = area.0 - MARGIN_X;
        let ah = area.1 - MARGIN_Y;
        if w <= 0 || h <= 0 || aw <= 0 || ah <= 0 {
            None
        } else {
            let narrow = ah * w < h * aw;
            let fw = if narrow {
                ah * w / h
            } else {
                aw
            };
            let fh = if narrow {
                ah
            } else {
                aw * h / w
            };
            let num = if narrow {
                ah
            } else {
                aw
            };
            let den = if narrow {
                h
            } else {
                w
            };
            let scale = if num >= den {
                ViewScale { num: 1, den: 1 }
            } else {
                ViewScale { num: num as u64, den: den as u64 }
            };
            Some(
                Fit {
                    scale,
                    offset: (((area.0 - fw) / 2) as i64, ((area.1 - fh) / 2) as i64),
                    size: (fw as i64, fh as i64),
                },
            )
        }
    }
}

/// Pointer position `p` taken back to display space, rounded down.
pub open spec fn unscaled(v: MonitorView, p: (i32, i32)) -> (int, int) {
    (
        ((p.0 - v.offset.0) * v.scale.den) / (v.scale.num as int),
        ((p.1 - v.offset.1) * v.scale.den) / (v.scale.num as int),
    )
}

/// Whether display-space point `q` lies in the rectangle of `d`.
pub open spec fn rect_contains(d: DisplayInfo, q: (int, int)) -> bool {
    edge(d, Edge::Left) <= q.0 < edge(d, Edge::Right) && edge(d, Edge::Top) <= q.1 < edge(
        d,
        Edge::Bottom,
    )
}

/// The first record from index `k` on whose rectangle holds `q`.
pub open spec fn first_hit(s: Seq<DisplayInfo>, q: (int, int), k: int) -> Option<int>
    decreases s.len() - k,
{
    if k < 0 || k >= s.len() {
        None
    } else if rect_contains(s[k], q) {
        Some(k)
    } else {
        first_hit(s, q, k + 1)
    }
}

/// What the first hit is: a record holding `q`, with none before it from `k` on.
pub proof fn lemma_first_hit(s: Seq<DisplayInfo>, q: (int, int), k: int)
    requires
        0 <= k,
    ensures
        match first_hit(s, q, k) {
            Some(j) => k <= j < s.len() && rect_contains(s[j], q) && forall|m: int|
                k <= m < j ==> !rect_contains(#[trigger] s[m], q),
            None => forall|m: int| k <= m < s.len() ==> !rect_contains(#[trigger] s[m], q),
        },
    decreases s.len() - k,
{
    if k < s.len() && !rect_contains(s[k], q) {
        lemma_first_hit(s, q, k + 1);
    }
}

/// Every record focused exactly when its name is `n`.
pub open spec fn focused_on(s: Seq<DisplayInfo>, n: Option<Seq<char>>) -> Seq<DisplayInfo> {
    s.map_values(|d: DisplayInfo| DisplayInfo { focused: n == Some(d.name@), ..d })
}

/// Where a display dragged from `origin` lies with the pointer at `cur`: the
/// pointer's travel from `start`, taken back to display space and snapped,
/// added to `origin`.
pub open spec fn moved_to(origin: Pos, start: (i64, i64), cur: (i32, i32), sc: ViewScale) -> Pos {
    Pos(
        clamp32(origin.0 + quantize_spec(((cur.0 - start.0) * sc.den) / (sc.num as int))),
        clamp32(origin.1 + quantize_spec(((cur.1 - start.1) * sc.den) / (sc.num as int))),
    )
}

/// The largest denominator that a zoom takes.
pub const MAX_DEN: u64 = 0x100_0000_0000;

/// Canvas and set after a press at `p`. A press while a drag is in progress
/// changes nothing. Otherwise a press on a display focuses it alone and starts
/// moving it; a press elsewhere clears the focus and starts panning.
pub open spec fn after_down(v: MonitorView, s: Seq<DisplayInfo>, p: (i32, i32)) -> (MonitorView, Seq<DisplayInfo>) {
    if v.dragging is Some {
        (v, s)
    } else {
        match first_hit(s, unscaled(v, p), 0) {
            Some(i) => (
                MonitorView {
                    dragging: Some(
                        DragState::MovingDisplay {
                            start: (p.0 as i64, p.1 as i64),
                            target_name: s[i].name,
                            origin_position: s[i].position,
                        },
                    ),
                    ..v
                },
                focused_on(s, Some(s[i].name@)),
            ),
            None => (
                MonitorView {
                    dragging: Some(
                        DragState::PanningCanvas {
                            start: ((p.0 - v.offset.0) as i64, (p.1 - v.offset.1) as i64),
                        },
                    ),
                    ..v
                },
                focused_on(s, None),
            ),
        }
    }
}

/// Canvas and set after the pointer moves to `p`: a moved display follows the
/// pointer, snapped; a pan moves the viewport with the pointer.
pub open spec fn after_move(v: MonitorView, s: Seq<DisplayInfo>, p: (i32, i32)) -> (MonitorView, Seq<DisplayInfo>) {
    match v.dragging {
        Some(DragState::MovingDisplay { start, target_name, origin_position }) => if crate::model::has_name(
            s,
            target_name@,
        ) {
            let i = crate::model::index_of(s, target_name@);
            (v, s.update(i, DisplayInfo { position: moved_to(origin_position, start, p, v.scale), ..s[i] }))
        } else {
            (v, s)
        },
        Some(DragState::PanningCanvas { start }) => (
            MonitorView {
                offset: (clamp32(p.0 - start.0) as i64, clamp32(p.1 - start.1) as i64),
                ..v
            },
            s,
        ),
        None => (v, s),
    }
}

/// Canvas and set after the pointer is released: the drag ends, and an
/// arrangement in which a display moved is normalized.
pub open spec fn after_up(v: MonitorView, s: Seq<DisplayInfo>) -> (MonitorView, Seq<DisplayInfo>) {
    match v.dragging {
        Some(DragState::MovingDisplay { .. }) => (MonitorView { dragging: None, ..v }, normalized(s)),
        Some(DragState::PanningCanvas { .. }) => (MonitorView { dragging: None, ..v }, s),
        None => (v, s),
    }
}

impl MonitorView {
    /// The invariant: a positive zoom of at most one, with a bounded
    /// denominator, and an offset within `i32`.
    pub open spec fn wf(&self) -> bool {
        &&& 0 < self.scale.num <= self.scale.den <= MAX_DEN
        &&& i32::MIN <= self.offset.0 <= i32::MAX
        &&& i32::MIN <= self.offset.1 <= i32::MAX
        &&& match self.dragging {
            Some(DragState::MovingDisplay { start, .. }) => i32::MIN <= start.0 <= i32::MAX
                && i32::MIN <= start.1 <= i32::MAX,
            Some(DragState::PanningCanvas { start }) => -0x1_0000_0000 <= start.0 <= 0x1_0000_0000
                && -0x1_0000_0000 <= start.1 <= 0x1_0000_0000,
            None => true,
        }
    }

    /// An idle canvas at zoom one, with no offset.
    pub fn new() -> (r: MonitorView)
        ensures
            r.wf(),
            r.offset == (0i64, 0i64),
            r.scale == (ViewScale { num: 1, den: 1 }),
            r.dragging is None,
    {
        MonitorView { offset: (0, 0), scale: ViewScale { num: 1, den: 1 }, dragging: None }
    }

    /// The bounding box of the set: least corner, then greatest corner; none
    /// for an empty set.
    pub fn window_space_bounds(&self, data: &AppData) -> (r: Option<((i64, i64), (i64, i64))>)
        ensures
            data@.len() == 0 ==> r is None,
            data@.len() > 0 ==> (r matches Some(b) && b.0.0 == bounds_of(data@).0.0 && b.0.1
                == bounds_of(data@).0.1 && b.1.0 == bounds_of(data@).1.0 && b.1.1 == bounds_of(
                data@,
            ).1.1),
    {
        let v = data.displays();
        let n = v.len();
        if n == 0 {
            return None;
        }
        let d0 = &v[0];
        let mut lo_x: i64 = d0.position.0 as i64;
        let mut lo_y: i64 = d0.position.1 as i64;
        let mut hi_x: i64 = d0.position.0 as i64 + d0.size.0 as i64;
        let mut hi_y: i64 = d0.position.1 as i64 + d0.size.1 as i64;
        let mut i: usize = 1;
        let ghost s = data@;
        assert(s.take(1).len() == 1 && s.take(1)[0] == s[0]);
        while i < n
            invariant
                1 <= i <= n == s.len(),
                v@ == s,
                lo_x == fold_min(s.take(i as int), Edge::Left),
                lo_y == fold_min(s.take(i as int), Edge::Top),
                hi_x == fold_max(s.take(i as int), Edge::Right),
                hi_y == fold_max(s.take(i as int), Edge::Bottom),
            decreases n - i,
        {
            let d = &v[i];
            let l = d.position.0 as i64;
            let t = d.position.1 as i64;
            let r = d.position.0 as i64 + d.size.0 as i64;
            let b = d.position.1 as i64 + d.size.1 as i64;
            if l < lo_x {
                lo_x = l;
            }
            if t < lo_y {
                lo_y = t;
            }
            if r > hi_x {
                hi_x = r;
            }
            if b > hi_y {
                hi_y = b;
            }
            assert(s.take(i + 1).drop_last() =~= s.take(i as int));
            assert(s.take(i + 1).last() == s[i as int]);
            i += 1;
        }
        assert(s.take(n as int) =~= s);
        Some(((lo_x, lo_y), (hi_x, hi_y)))
    }

    /// Moves every display so that the bounding box starts at `(0, 0)`.
    pub fn normalize_coords(&self, data: &mut AppData)
        requires
            old(data).wf(),
        ensures
            final(data).wf(),
            final(data)@ == normalized(old(data)@),
    {
        let bounds = self.window_space_bounds(data);
        match bounds {
            None => {},
            Some(b) => {
                let (mx, my) = b.0;
                let ghost s = data@;
                let n = data.display_geo.len();
                let mut i: usize = 0;
                while i < n
                    invariant
                        i <= n == s.len(),
                        data@.len() == n,
                        mx == bounds_of(s).0.0,
                        my == bounds_of(s).0.1,
                        forall|j: int| 0 <= j < i ==> data@[j] == shifted(s[j], mx as int, my as int),
                        forall|j: int| i <= j < n ==> data@[j] == s[j],
                    decreases n - i,
                {
                    let mut d = data.display_geo[i].cloned();
                    let x = clamp_i32(d.position.0 as i128 - mx as i128);
                    let y = clamp_i32(d.position.1 as i128 - my as i128);
                    d.position = Pos(x, y);
                    data.display_geo.set(i, d);
                    i += 1;
                }
                assert(data@ =~= normalized(s));
                assert forall|a: int, c: int|
                    0 <= a < data@.len() && 0 <= c < data@.len() && a != c implies
                    #[trigger] data@[a].name@ != #[trigger] data@[c].name@ by {
                    assert(data@[a].name == s[a].name);
                    assert(data@[c].name == s[c].name);
                }
            },
        }
    }

    /// Fits the viewport to the set in an area of `area` pixels, and returns
    /// the fit. Where there is none the viewport stays as it is.
    pub fn center_displays(&mut self, data: &AppData, area: (u32, u32)) -> (r: Option<Fit>)
        requires
            old(self).wf(),
        ensures
            final(self).wf(),
            final(self).dragging == old(self).dragging,
            match fit_of(data@, area) {
                Some(f) => r matches Some(g) && g.scale == f.scale && g.offset == f.offset && g.size
                    == f.size && final(self).scale == f.scale && final(self).offset == f.offset,
                None => r is None && final(self).scale == old(self).scale && final(self).offset
                    == old(self).offset,
            },
    {
        let bounds = self.window_space_bounds(data);
        let (lo, hi) = match bounds {
            None => {
                return None;
            },
            Some(b) => b,
        };
        proof {
            lemma_fold_min(data@, Edge::Left);
            lemma_fold_min(data@, Edge::Top);
            lemma_fold_max(data@, Edge::Right);
            lemma_fold_max(data@, Edge::Bottom);
        }
        let w: i128 = hi.0 as i128 - lo.0 as i128;
        let h: i128 = hi.1 as i128 - lo.1 as i128;
        let aw: i128 = area.0 as i128 - MARGIN_X as i128;
        let ah: i128 = area.1 as i128 - MARGIN_Y as i128;
        if w <= 0 || h <= 0 || aw <= 0 || ah <= 0 {
            return None;
        }
        assert(w <= 0x3_0000_0000 && h <= 0x3_0000_0000) by {
            let kx = choose|i: int| 0 <= i < data@.len() && bounds_of(data@).1.0 == edge(#[trigger] data@[i], Edge::Right);
            let ky = choose|i: int| 0 <= i < data@.len() && bounds_of(data@).1.1 == edge(#[trigger] data@[i], Edge::Bottom);
            assert(lo.0 <= edge(data@[kx], Edge::Left));
            assert(lo.1 <= edge(data@[ky], Edge::Top));
            let kl = choose|i: int| 0 <= i < data@.len() && bounds_of(data@).0.0 == edge(#[trigger] data@[i], Edge::Left);
            let kt = choose|i: int| 0 <= i < data@.len() && bounds_of(data@).0.1 == edge(#[trigger] data@[i], Edge::Top);
            assert(edge(data@[kl], Edge::Left) >= i32::MIN);
            assert(edge(data@[kt], Edge::Top) >= i32::MIN);
        }
        proof {
            lemma_mul_bound(ah as int, w as int, 0x1_0000_0000, 0x3_0000_0000);
            lemma_mul_bound(aw as int, h as int, 0x1_0000_0000, 0x3_0000_0000);
        }
        let narrow = ah * w < h * aw;
        let (fw, fh, num, den) = if narrow {
            (ah * w / h, ah, ah, h)
        } else {
            (aw, aw * h / w, aw, w)
        };
        proof {
            let (wi, hi2, awi, ahi) = (w as int, h as int, aw as int, ah as int);
            if narrow {
                let q = (ahi * wi) / hi2;
                vstd::arithmetic::div_mod::lemma_fundamental_div_mod(ahi * wi, hi2);
                vstd::arithmetic::div_mod::lemma_div_pos_is_pos(ahi * wi, hi2);
                assert(q <= awi) by (nonlinear_arith)
                    requires
                        ahi * wi == hi2 * q + (ahi * wi) % hi2,
                        0 <= (ahi * wi) % hi2,
                        ahi * wi < hi2 * awi,
                        hi2 > 0,
                ;
            } else {
                assert(hi2 * awi <= ahi * wi);
                let q = (awi * hi2) / wi;
                vstd::arithmetic::div_mod::lemma_fundamental_div_mod(awi * hi2, wi);
                vstd::arithmetic::div_mod::lemma_div_pos_is_pos(awi * hi2, wi);
                assert(q <= ahi) by (nonlinear_arith)
                    requires
                        awi * hi2 == wi * q + (awi * hi2) % wi,
                        0 <= (awi * hi2) % wi,
                        hi2 * awi <= ahi * wi,
                        wi > 0,
                ;
            }
        }
        let scale = if num >= den {
            ViewScale { num: 1, den: 1 }
        } else {
            ViewScale { num: num as u64, den: den as u64 }
        };
        let offset: (i64, i64) = (((area.0 as i128 - fw) / 2) as i64, ((area.1 as i128 - fh) / 2) as i64);
        self.scale = scale;
        self.offset = offset;
        Some(Fit { scale, offset, size: (fw as i64, fh as i64) })
    }

    /// Pointer position `p` taken back to display space, rounded down.
    pub fn unscale_coords(&self, p: (i32, i32)) -> (r: (i128, i128))
        requires
            self.wf(),
        ensures
            r.0 == unscaled(*self, p).0,
            r.1 == unscaled(*self, p).1,
    {
        let dx: i128 = p.0 as i128 - self.offset.0 as i128;
        let dy: i128 = p.1 as i128 - self.offset.1 as i128;
        let den = self.scale.den as i128;
        proof {
            assert(-0x1_0000_0000 <= dx <= 0x1_0000_0000);
            assert(-0x1_0000_0000 <= dy <= 0x1_0000_0000);
        }
        assert(-0x1_0000_0000_0000_0000_0000 <= dx * den <= 0x1_0000_0000_0000_0000_0000) by (nonlinear_arith)
            requires
                -0x1_0000_0000 <= dx <= 0x1_0000_0000,
                0 <= den <= 0x100_0000_0000,
        ;
        assert(-0x1_0000_0000_0000_0000_0000 <= dy * den <= 0x1_0000_0000_0000_0000_0000) by (nonlinear_arith)
            requires
                -0x1_0000_0000 <= dy <= 0x1_0000_0000,
                0 <= den <= 0x100_0000_0000,
        ;
        (floor_div(dx * den, self.scale.num as i128), floor_div(dy * den, self.scale.num as i128))
    }

    /// The first display, in the set's order, under pointer position `p`.
    pub fn hit_test(&self, data: &AppData, p: (i32, i32)) -> (r: Option<usize>)
        requires
            self.wf(),
        ensures
            match r {
                Some(i) => first_hit(data@, unscaled(*self, p), 0) == Some(i as int),
                None => first_hit(data@, unscaled(*self, p), 0) is None,
            },
    {
        let q = self.unscale_coords(p);
        let v = data.displays();
        let mut i: usize = 0;
        let ghost uq = unscaled(*self, p);
        while i < v.len()
            invariant
                i <= v@.len(),
                v@ == data@,
                q.0 == uq.0 && q.1 == uq.1,
                uq == unscaled(*self, p),
                first_hit(data@, uq, 0) == first_hit(data@, uq, i as int),
            decreases v@.len() - i,
        {
            let d = &v[i];
            let l = d.position.0 as i128;
            let t = d.position.1 as i128;
            if l <= q.0 && q.0 < l + d.size.0 as i128 && t <= q.1 && q.1 < t + d.size.1 as i128 {
                assert(rect_contains(data@[i as int], uq));
                assert(first_hit(data@, uq, i as int) == Some(i as int));
                return Some(i);
            }
            assert(!rect_contains(data@[i as int], uq));
            i += 1;
        }
        None
    }

    /// Focuses the display named `name` and no other; with no name, none.
    pub fn update_focus(&self, data: &mut AppData, name: Option<&String>)
        requires
            old(data).wf(),
        ensures
            final(data).wf(),
            final(data)@ == focused_on(
                old(data)@,
                match name {
                    Some(n) => Some(n@),
                    None => None,
                },
            ),
    {
        let ghost s = data@;
        let ghost n: Option<Seq<char>> = match name {
            Some(n) => Some(n@),
            None => None,
        };
        let len = data.display_geo.len();
        let mut i: usize = 0;
        while i < len
            invariant
                i <= len == s.len(),
                data@.len() == len,
                n == (match name {
                    Some(m) => Some(m@),
                    None => None::<Seq<char>>,
                }),
                forall|j: int| 0 <= j < i ==> data@[j] == (DisplayInfo { focused: n == Some(s[j].name@), ..s[j] }),
                forall|j: int| i <= j < len ==> data@[j] == s[j],
            decreases len - i,
        {
            let mut d = data.display_geo[i].cloned();
            d.focused = match name {
                Some(m) => d.name == *m,
                None => false,
            };
            data.display_geo.set(i, d);
            i += 1;
        }
        assert(data@ =~= focused_on(s, n));
        assert forall|a: int, c: int|
            0 <= a < data@.len() && 0 <= c < data@.len() && a != c implies
            #[trigger] data@[a].name@ != #[trigger] data@[c].name@ by {
            assert(data@[a].name == s[a].name);
            assert(data@[c].name == s[c].name);
        }
    }

    /// A press at pointer position `p`.
    pub fn mouse_down(&mut self, data: &mut AppData, p: (i32, i32))
        requires
            old(self).wf(),
            old(data).wf(),
        ensures
            final(self).wf(),
            final(data).wf(),
            (*final(self), final(data)@) == after_down(*old(self), old(data)@, p),
    {
        match &self.dragging {
            Some(_) => {
                return ;
            },
            None => {},
        }
        let hit = self.hit_test(data, p);
        proof {
            lemma_first_hit(data@, unscaled(*self, p), 0);
        }
        match hit {
            Some(i) => {
                let name = data.display_geo[i].name.clone();
                let pos = data.display_geo[i].position;
                self.update_focus(data, Some(&name));
                self.dragging = Some(
                    DragState::MovingDisplay {
                        start: (p.0 as i64, p.1 as i64),
                        target_name: name,
                        origin_position: pos,
                    },
                );
            },
            None => {
                self.dragging = Some(
                    DragState::PanningCanvas {
                        start: (p.0 as i64 - self.offset.0, p.1 as i64 - self.offset.1),
                    },
                );
                self.update_focus(data, None);
            },
        }
    }

    /// The pointer moving to position `p`.
    pub fn mouse_move(&mut self, data: &mut AppData, p: (i32, i32))
        requires
            old(self).wf(),
            old(data).wf(),
        ensures
            final(self).wf(),
            final(data).wf(),
            (*final(self), final(data)@) == after_move(*old(self), old(data)@, p),
    {
        let sc = self.scale;
        match &self.dragging {
            Some(DragState::MovingDisplay { start, target_name, origin_position }) => {
                let st = *start;
                let origin = *origin_position;
                match data.find(target_name) {
                    Some(i) => {
                        let np = Pos(
                            moved_coord(origin.0, st.0, p.0, sc),
                            moved_coord(origin.1, st.1, p.1, sc),
                        );
                        let mut d = data.display_geo[i].cloned();
                        d.position = np;
                        let ghost s = data@;
                        data.display_geo.set(i, d);
                        assert forall|a: int, c: int|
                            0 <= a < data@.len() && 0 <= c < data@.len() && a != c implies
                            #[trigger] data@[a].name@ != #[trigger] data@[c].name@ by {
                            assert(data@[a].name == s[a].name);
                            assert(data@[c].name == s[c].name);
                        }
                    },
                    None => {},
                }
            },
            Some(DragState::PanningCanvas { start }) => {
                let st = *start;
                self.offset = (
                    clamp_i32(p.0 as i128 - st.0 as i128) as i64,
                    clamp_i32(p.1 as i128 - st.1 as i128) as i64,
                );
            },
            None => {},
        }
    }

    /// The pointer released; returns whether a drag ended, after which the
    /// canvas is laid out again.
    pub fn mouse_up(&mut self, data: &mut AppData) -> (relayout: bool)
        requires
            old(self).wf(),
            old(data).wf(),
        ensures
            final(self).wf(),
            final(data).wf(),
            (*final(self), final(data)@) == after_up(*old(self), old(data)@),
            relayout == old(self).dragging is Some,
    {
        let moving = match &self.dragging {
            Some(DragState::MovingDisplay { .. }) => true,
            Some(DragState::PanningCanvas { .. }) => false,
            None => {
                return false;
            },
        };
        if moving {
            self.normalize_coords(data);
        }
        self.dragging = None;
        true
    }

    /// Handles one pointer event; returns whether the canvas is to be laid
    /// out again.
    pub fn event(&mut self, data: &mut AppData, event: PointerEvent) -> (relayout: bool)
        requires
            old(self).wf(),
            old(data).wf(),
        ensures
            final(self).wf(),
            final(data).wf(),
            match event {
                PointerEvent::Down(x, y) => (*final(self), final(data)@) == after_down(
                    *old(self),
                    old(data)@,
                    (x, y),
                ) && !relayout,
                PointerEvent::Move(x, y) => (*final(self), final(data)@) == after_move(
                    *old(self),
                    old(data)@,
                    (x, y),
                ) && !relayout,
                PointerEvent::Up => (*final(self), final(data)@) == after_up(*old(self), old(data)@)
                    && relayout == old(self).dragging is Some,
            },
    {
        match event {
            PointerEvent::Down(x, y) => {
                self.mouse_down(data, (x, y));
                false
            },
            PointerEvent::Move(x, y) => {
                self.mouse_move(data, (x, y));
                false
            },
            PointerEvent::Up => self.mouse_up(data),
        }
    }

    /// Snaps a position to the grid, coordinate by coordinate.
    pub fn quantize(&self, pos: (i32, i32)) -> (r: (i32, i32))
        ensures
            r.0 == quantize_spec(pos.0 as int),
            r.1 == quantize_spec(pos.1 as int),
    {
        (snap(pos.0 as i128) as i32, snap(pos.1 as i128) as i32)
    }
}

proof fn lemma_mul_bound(a: int, b: int, ba: int, bb: int)
    requires
        0 < a <= ba,
        0 < b <= bb,
    ensures
        0 < a * b <= ba * bb,
        0 < b * a <= ba * bb,
{
    assert(0 < a * b <= ba * bb) by (nonlinear_arith)
        requires
            0 < a <= ba,
            0 < b <= bb,
    ;
}

/// One coordinate of a dragged display: see `moved_to`.
fn moved_coord(origin: i32, start: i64, cur: i32, sc: ViewScale) -> (r: i32)
    requires
        i32::MIN <= start <= i32::MAX,
        0 < sc.num <= sc.den <= MAX_DEN,
    ensures
        r == clamp32(origin + quantize_spec(((cur - start) * sc.den) / (sc.num as int))),
{
    let delta: i128 = cur as i128 - start as i128;
    let den = sc.den as i128;
    assert(-0x1_0000_0000_0000_0000_0000 <= delta * den <= 0x1_0000_0000_0000_0000_0000) by (nonlinear_arith)
        requires
            -0x1_0000_0000 <= delta <= 0x1_0000_0000,
            0 <= den <= 0x100_0000_0000,
    ;
    let md = floor_div(delta * den, sc.num as i128);
    assert(-0x1_0000_0000_0000_0000_0000 <= md <= 0x1_0000_0000_0000_0000_0000) by {
        let x = (delta * den) as int;
        let n = sc.num as int;
        vstd::arithmetic::div_mod::lemma_fundamental_div_mod(x, n);
        vstd::arithmetic::div_mod::lemma_mod_bound(x, n);
        assert(-0x1_0000_0000_0000_0000_0000 <= x / n <= 0x1_0000_0000_0000_0000_0000) by (nonlinear_arith)
            requires
                x == n * (x / n) + x % n,
                0 <= x % n < n,
                n >= 1,
                -0x1_0000_0000_0000_0000_0000 <= x <= 0x1_0000_0000_0000_0000_0000,
        ;
    }
    let q = snap(md);
    clamp_i32(origin as i128 + q)
}

/// Snaps `v` to the grid.
fn snap(v: i128) -> (r: i128)
    requires
        -0x1_0000_0000_0000_0000_0000 <= v <= 0x1_0000_0000_0000_0000_0000,
    ensures
        r == quantize_spec(v as int),
        v - 8 <= r <= v + 8,
{
    let q = floor_div(v, QUANT as i128);
    proof {
        vstd::arithmetic::div_mod::lemma_fundamental_div_mod(v as int, 16);
    }
    q * (QUANT as i128) + (QUANT as i128) / 2
}

} // verus!
