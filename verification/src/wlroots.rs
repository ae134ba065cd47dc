//! Input emulation on wlroots compositors.
//!
//! Decides which requests an input event makes on a virtual pointer and
//! keyboard, keeps account of the modifiers that are held and of the outputs
//! and their geometry, and chooses where the pointer goes when it enters over
//! an edge. Whoever owns the compositor connection sends the requests.

use vstd::prelude::*;

use crate::registry::lemma_filter_members;
use crate::text::str_eq;

verus! {

/// The side of the layout over which the pointer enters.
#[derive(Debug, Clone, Copy, PartialEq, Eq, Structural)]
pub enum PointerSide {
    Left,
    Right,
    Top,
    Bottom,
}

/// Logical geometry of one output. `position` and `size` are in the
/// compositor's global *logical* coordinate space (already scale-adjusted),
/// which is the same space `motion`/`motion_absolute` on a virtual pointer use.
#[derive(Debug)]
pub struct OutputGeom {
    pub name: String,
    pub position: (i32, i32),
    pub size: (i32, i32),
}

/// What is known of the geometry of an output.
#[verifier::ext_equal]
pub struct GeomView {
    pub name: Seq<char>,
    pub x: int,
    pub y: int,
    pub w: int,
    pub h: int,
}

impl View for OutputGeom {
    type V = GeomView;

    open spec fn view(&self) -> GeomView {
        GeomView {
            name: self.name@,
            x: self.position.0 as int,
            y: self.position.1 as int,
            w: self.size.0 as int,
            h: self.size.1 as int,
        }
    }
}

/// What is known of the geometry of outputs.
pub open spec fn geoms_view(geoms: Seq<OutputGeom>) -> Seq<GeomView> {
    geoms.map_values(|g: OutputGeom| g@)
}

/// An output at the origin without a name and without a size.
pub open spec fn no_geom() -> GeomView {
    GeomView { name: ""@, x: 0, y: 0, w: 0, h: 0 }
}

impl Default for OutputGeom {
    fn default() -> (geom: Self)
        ensures
            geom@ == no_geom(),
    {
        OutputGeom { name: String::from_str(""), position: (0, 0), size: (0, 0) }
    }
}

impl Clone for OutputGeom {
    fn clone(&self) -> (copy: Self)
        ensures
            copy@ == self@,
    {
        OutputGeom { name: self.name.clone(), position: self.position, size: self.size }
    }
}

/// The place of the first smallest number of a list.
pub open spec fn first_min(keys: Seq<int>) -> int
    decreases keys.len(),
{
    if keys.len() <= 1 {
        0
    } else {
        let k = first_min(keys.drop_last());
        if keys.last() < keys[k] {
            keys.len() - 1
        } else {
            k
        }
    }
}

/// The place of the last largest number of a list.
pub open spec fn last_max(keys: Seq<int>) -> int
    decreases keys.len(),
{
    if keys.len() <= 1 {
        0
    } else {
        let k = last_max(keys.drop_last());
        if keys.last() >= keys[k] {
            keys.len() - 1
        } else {
            k
        }
    }
}

/// The left edges of outputs.
pub open spec fn lefts(geoms: Seq<GeomView>) -> Seq<int> {
    geoms.map_values(|g: GeomView| g.x)
}

/// The top edges of outputs.
pub open spec fn tops(geoms: Seq<GeomView>) -> Seq<int> {
    geoms.map_values(|g: GeomView| g.y)
}

/// The right edges of outputs.
pub open spec fn rights(geoms: Seq<GeomView>) -> Seq<int> {
    geoms.map_values(|g: GeomView| g.x + g.w)
}

/// The bottom edges of outputs.
pub open spec fn bottoms(geoms: Seq<GeomView>) -> Seq<int> {
    geoms.map_values(|g: GeomView| g.y + g.h)
}

/// The smallest number of a list.
pub open spec fn smallest(keys: Seq<int>) -> int {
    keys[first_min(keys)]
}

/// The largest number of a list.
pub open spec fn largest(keys: Seq<int>) -> int {
    keys[last_max(keys)]
}

/// Half of a number, rounded towards zero.
pub open spec fn half(n: int) -> int {
    if n >= 0 {
        n / 2
    } else {
        -((-n) / 2)
    }
}

/// The point just inside the outer edge of the output that is outermost on
/// `side`, in the middle of that edge.
pub open spec fn seam_point(geoms: Seq<GeomView>, side: PointerSide, margin: int) -> (int, int) {
    match side {
        PointerSide::Left => {
            let m = geoms[first_min(lefts(geoms))];
            (m.x + margin, m.y + half(m.h))
        },
        PointerSide::Right => {
            let m = geoms[last_max(rights(geoms))];
            (m.x + m.w - margin, m.y + half(m.h))
        },
        PointerSide::Top => {
            let m = geoms[first_min(tops(geoms))];
            (m.x + half(m.w), m.y + margin)
        },
        PointerSide::Bottom => {
            let m = geoms[last_max(bottoms(geoms))];
            (m.x + half(m.w), m.y + m.h - margin)
        },
    }
}

/// Whether a number is one of 32 bits.
pub open spec fn fits_i32(n: int) -> bool {
    i32::MIN <= n <= i32::MAX
}

/// Whether the edges of all outputs, and the point at the seam, have
/// coordinates of 32 bits.
pub open spec fn seam_fits(geoms: Seq<GeomView>, side: PointerSide, margin: int) -> bool {
    &&& forall|i: int|
        0 <= i < geoms.len() ==> fits_i32((#[trigger] geoms[i]).x + geoms[i].w) && fits_i32(
            geoms[i].y + geoms[i].h,
        )
    &&& geoms.len() > 0 ==> fits_i32(seam_point(geoms, side, margin).0) && fits_i32(
        seam_point(geoms, side, margin).1,
    )
}

/// Where `first_min` and `last_max` point.
pub proof fn lemma_extremes(keys: Seq<int>)
    requires
        keys.len() > 0,
    ensures
        0 <= first_min(keys) < keys.len(),
        0 <= last_max(keys) < keys.len(),
        forall|j: int| 0 <= j < keys.len() ==> smallest(keys) <= #[trigger] keys[j] <= largest(keys),
        forall|j: int| 0 <= j < first_min(keys) ==> #[trigger] keys[j] > smallest(keys),
        forall|j: int| last_max(keys) < j < keys.len() ==> #[trigger] keys[j] < largest(keys),
    decreases keys.len(),
{
    if keys.len() > 1 {
        let init = keys.drop_last();
        lemma_extremes(init);
        assert forall|j: int| 0 <= j < keys.len() implies smallest(keys) <= #[trigger] keys[j]
            <= largest(keys) by {
            if j < init.len() {
                assert(init[j] == keys[j]);
            }
        }
        assert forall|j: int| 0 <= j < first_min(keys) implies #[trigger] keys[j] > smallest(
            keys,
        ) by {
            assert(init[j] == keys[j]);
        }
        assert forall|j: int| last_max(keys) < j < keys.len() implies #[trigger] keys[j] < largest(
            keys,
        ) by {
            if j < init.len() {
                assert(init[j] == keys[j]);
            }
        }
    }
}

/// The seam of the layout: the point to go to, and the bounds of the layout.
pub type Seam = ((i32, i32), (i32, i32), (i32, i32));

/// Which output comes first with the smallest left edge (or top edge).
fn first_outermost(geoms: &Vec<OutputGeom>, horizontal: bool) -> (at: usize)
    requires
        geoms@.len() > 0,
    ensures
        at == first_min(
            if horizontal {
                lefts(geoms_view(geoms@))
            } else {
                tops(geoms_view(geoms@))
            },
        ),
        at < geoms@.len(),
{
    let ghost keys = if horizontal {
        lefts(geoms_view(geoms@))
    } else {
        tops(geoms_view(geoms@))
    };
    let mut at: usize = 0;
    let mut i: usize = 1;
    assert(keys.len() == geoms@.len());
    assert(keys.take(1).len() == 1);
    while i < geoms.len()
        invariant
            keys == if horizontal {
                lefts(geoms_view(geoms@))
            } else {
                tops(geoms_view(geoms@))
            },
            keys.len() == geoms@.len(),
            1 <= i <= geoms@.len(),
            at < i,
            at == first_min(keys.take(i as int)),
        decreases geoms@.len() - i,
    {
        let key: i32 = if horizontal {
            geoms[i].position.0
        } else {
            geoms[i].position.1
        };
        let best: i32 = if horizontal {
            geoms[at].position.0
        } else {
            geoms[at].position.1
        };
        proof {
            assert(keys.take(i + 1).drop_last() =~= keys.take(i as int));
            assert(keys[i as int] == key && keys[at as int] == best);
        }
        if key < best {
            at = i;
        }
        i = i + 1;
    }
    assert(keys.take(i as int) =~= keys);
    at
}

/// Which output comes last with the largest right edge (or bottom edge).
fn last_outermost(geoms: &Vec<OutputGeom>, horizontal: bool) -> (at: usize)
    requires
        geoms@.len() > 0,
        forall|i: int|
            0 <= i < geoms@.len() ==> fits_i32(
                (#[trigger] geoms_view(geoms@)[i]).x + geoms_view(geoms@)[i].w,
            ) && fits_i32(geoms_view(geoms@)[i].y + geoms_view(geoms@)[i].h),
    ensures
        at == last_max(
            if horizontal {
                rights(geoms_view(geoms@))
            } else {
                bottoms(geoms_view(geoms@))
            },
        ),
        at < geoms@.len(),
{
    let ghost view = geoms_view(geoms@);
    let ghost keys = if horizontal {
        rights(view)
    } else {
        bottoms(view)
    };
    let mut at: usize = 0;
    let mut i: usize = 1;
    assert(keys.len() == geoms@.len());
    assert(keys.take(1).len() == 1);
    while i < geoms.len()
        invariant
            view == geoms_view(geoms@),
            keys == if horizontal {
                rights(view)
            } else {
                bottoms(view)
            },
            keys.len() == geoms@.len(),
            forall|i: int|
                0 <= i < geoms@.len() ==> fits_i32((#[trigger] view[i]).x + view[i].w) && fits_i32(
                    view[i].y + view[i].h,
                ),
            1 <= i <= geoms@.len(),
            at < i,
            at == last_max(keys.take(i as int)),
        decreases geoms@.len() - i,
    {
        proof {
            assert(view[i as int] == geoms@[i as int]@);
            assert(view[at as int] == geoms@[at as int]@);
        }
        let key: i32 = if horizontal {
            geoms[i].position.0 + geoms[i].size.0
        } else {
            geoms[i].position.1 + geoms[i].size.1
        };
        let best: i32 = if horizontal {
            geoms[at].position.0 + geoms[at].size.0
        } else {
            geoms[at].position.1 + geoms[at].size.1
        };
        proof {
            assert(keys.take(i + 1).drop_last() =~= keys.take(i as int));
            assert(keys[i as int] == key && keys[at as int] == best);
        }
        if key >= best {
            at = i;
        }
        i = i + 1;
    }
    assert(keys.take(i as int) =~= keys);
    at
}

/// What the seam says.
pub open spec fn seam_view(seam: Seam) -> ((int, int), (int, int), (int, int)) {
    (
        (seam.0.0 as int, seam.0.1 as int),
        (seam.1.0 as int, seam.1.1 as int),
        (seam.2.0 as int, seam.2.1 as int),
    )
}

/// Choose a point just inside the outer edge of the monitor that is outermost
/// on `side`, plus the global logical layout bounds. Returns
/// `(target, (min_x, min_y), (max_x, max_y))` in the compositor's global
/// logical coordinate space. `margin` keeps the warp a few pixels inside the
/// very edge so it does not immediately trip the 1-px capture strip that
/// returns the pointer to the peer.
pub fn seam_target(geoms: &Vec<OutputGeom>, side: PointerSide, margin: i32) -> (seam: Option<Seam>)
    requires
        seam_fits(geoms_view(geoms@), side, margin as int),
    ensures
        match seam {
            None => geoms@.len() == 0,
            Some(s) => geoms@.len() > 0 && seam_view(s) == (
                seam_point(geoms_view(geoms@), side, margin as int),
                (smallest(lefts(geoms_view(geoms@))), smallest(tops(geoms_view(geoms@)))),
                (largest(rights(geoms_view(geoms@))), largest(bottoms(geoms_view(geoms@)))),
            ),
        },
{
    if geoms.len() == 0 {
        return None;
    }
    let ghost view = geoms_view(geoms@);
    let left = &geoms[first_outermost(geoms, true)];
    let top = &geoms[first_outermost(geoms, false)];
    let right = &geoms[last_outermost(geoms, true)];
    let bottom = &geoms[last_outermost(geoms, false)];
    proof {
        lemma_extremes(lefts(view));
        lemma_extremes(tops(view));
        lemma_extremes(rights(view));
        lemma_extremes(bottoms(view));
        assert(view[first_min(lefts(view))] == left@);
        assert(view[first_min(tops(view))] == top@);
        assert(view[last_max(rights(view))] == right@);
        assert(view[last_max(bottoms(view))] == bottom@);
    }
    let min_x: i32 = left.position.0;
    let min_y: i32 = top.position.1;
    let max_x: i32 = right.position.0 + right.size.0;
    let max_y: i32 = bottom.position.1 + bottom.size.1;
    let target: (i32, i32) = match side {
        PointerSide::Left => (min_x + margin, left.position.1 + left.size.1 / 2),
        PointerSide::Right => (max_x - margin, right.position.1 + right.size.1 / 2),
        PointerSide::Top => (top.position.0 + top.size.0 / 2, min_y + margin),
        PointerSide::Bottom => (bottom.position.0 + bottom.size.0 / 2, max_y - margin),
    };
    Some((target, (min_x, min_y), (max_x, max_y)))
}

/// Whether the edges of all outputs, and the point at the seam, have
/// coordinates of 32 bits.
pub fn seam_is_representable(geoms: &Vec<OutputGeom>, side: PointerSide, margin: i32) -> (yes: bool)
    ensures
        yes == seam_fits(geoms_view(geoms@), side, margin as int),
{
    let ghost view = geoms_view(geoms@);
    let mut i: usize = 0;
    while i < geoms.len()
        invariant
            view == geoms_view(geoms@),
            0 <= i <= geoms@.len(),
            forall|j: int|
                0 <= j < i ==> fits_i32((#[trigger] view[j]).x + view[j].w) && fits_i32(
                    view[j].y + view[j].h,
                ),
        decreases geoms@.len() - i,
    {
        assert(view[i as int] == geoms@[i as int]@);
        let right: i64 = geoms[i].position.0 as i64 + geoms[i].size.0 as i64;
        let bottom: i64 = geoms[i].position.1 as i64 + geoms[i].size.1 as i64;
        if !is_i32(right) || !is_i32(bottom) {
            return false;
        }
        i = i + 1;
    }
    if geoms.len() == 0 {
        return true;
    }
    let m: i64 = margin as i64;
    let (x, y): (i64, i64) = match side {
        PointerSide::Left => {
            let g = &geoms[first_outermost(geoms, true)];
            (g.position.0 as i64 + m, g.position.1 as i64 + (g.size.1 / 2) as i64)
        },
        PointerSide::Right => {
            let g = &geoms[last_outermost(geoms, true)];
            (
                g.position.0 as i64 + g.size.0 as i64 - m,
                g.position.1 as i64 + (g.size.1 / 2) as i64,
            )
        },
        PointerSide::Top => {
            let g = &geoms[first_outermost(geoms, false)];
            (g.position.0 as i64 + (g.size.0 / 2) as i64, g.position.1 as i64 + m)
        },
        PointerSide::Bottom => {
            let g = &geoms[last_outermost(geoms, false)];
            (
                g.position.0 as i64 + (g.size.0 / 2) as i64,
                g.position.1 as i64 + g.size.1 as i64 - m,
            )
        },
    };
    assert((x as int, y as int) == seam_point(view, side, margin as int));
    is_i32(x) && is_i32(y)
}

/// Whether a number is one of 32 bits.
fn is_i32(n: i64) -> (yes: bool)
    ensures
        yes == fits_i32(n as int),
{
    i32::MIN as i64 <= n && n <= i32::MAX as i64
}

/// How far inside the very edge the pointer goes.
pub const MARGIN: i32 = 12;

/// An absolute motion: the point, within an area of the given size.
#[derive(Debug, Clone, Copy, PartialEq, Eq, Structural)]
pub struct Warp {
    pub x: u32,
    pub y: u32,
    pub width: u32,
    pub height: u32,
}

/// The size of the layout from its smallest to its largest coordinates, never
/// below zero.
pub open spec fn layout_size(geoms: Seq<GeomView>) -> (int, int) {
    let w = largest(rights(geoms)) - smallest(lefts(geoms));
    let h = largest(bottoms(geoms)) - smallest(tops(geoms));
    (
        if w < 0 {
            0
        } else {
            w
        },
        if h < 0 {
            0
        } else {
            h
        },
    )
}

/// A number moved into the range from zero to `max`.
pub open spec fn clamped(n: int, max: int) -> int {
    if n < 0 {
        0
    } else if n > max {
        max
    } else {
        n
    }
}

/// The absolute motion to the seam, in the coordinates of a layout that starts
/// at zero; none where no output is known or the layout is empty.
pub open spec fn seam_warp(geoms: Seq<GeomView>, side: PointerSide) -> Option<Warp> {
    let (width, height) = layout_size(geoms);
    let (tx, ty) = seam_point(geoms, side, MARGIN as int);
    if geoms.len() == 0 || width == 0 || height == 0 {
        None
    } else {
        Some(
            Warp {
                x: clamped(tx - smallest(lefts(geoms)), width) as u32,
                y: clamped(ty - smallest(tops(geoms)), height) as u32,
                width: width as u32,
                height: height as u32,
            },
        )
    }
}

/// Whether all numbers on the way to the motion are ones of 32 bits.
pub open spec fn warp_fits(geoms: Seq<GeomView>, side: PointerSide) -> bool {
    &&& seam_fits(geoms, side, MARGIN as int)
    &&& geoms.len() > 0 ==> {
        let (tx, ty) = seam_point(geoms, side, MARGIN as int);
        let (width, height) = layout_size(geoms);
        let w = largest(rights(geoms)) - smallest(lefts(geoms));
        let h = largest(bottoms(geoms)) - smallest(tops(geoms));
        &&& fits_i32(w)
        &&& fits_i32(h)
        &&& width > 0 && height > 0 ==> fits_i32(tx - smallest(lefts(geoms))) && fits_i32(
            ty - smallest(tops(geoms)),
        )
    }
}

/// A number moved into the range from zero to `max`.
fn clamp_to(n: i32, max: u32) -> (c: u32)
    requires
        max <= i32::MAX,
    ensures
        c == clamped(n as int, max as int),
{
    if n < 0 {
        0
    } else if n as u32 > max {
        max
    } else {
        n as u32
    }
}

/// The absolute motion that puts the pointer just inside the monitor that is
/// outermost on `side`, in the global logical layout. This makes re-entering a
/// multi-monitor host land the cursor on the seam monitor instead of wherever
/// it happened to be last. Without any output geometry the warp is skipped.
pub fn warp_to_edge(geoms: &Vec<OutputGeom>, side: PointerSide) -> (warp: Option<Warp>)
    requires
        warp_fits(geoms_view(geoms@), side),
    ensures
        warp == seam_warp(geoms_view(geoms@), side),
{
    let ghost view = geoms_view(geoms@);
    let seam = match seam_target(geoms, side, MARGIN) {
        Some(seam) => seam,
        None => return None,
    };
    let ((tx, ty), (min_x, min_y), (max_x, max_y)) = seam;
    let w: i32 = max_x - min_x;
    let h: i32 = max_y - min_y;
    let width: u32 = if w < 0 {
        0
    } else {
        w as u32
    };
    let height: u32 = if h < 0 {
        0
    } else {
        h as u32
    };
    if width == 0 || height == 0 {
        return None;
    }
    let x: u32 = clamp_to(tx - min_x, width);
    let y: u32 = clamp_to(ty - min_y, height);
    Some(Warp { x, y, width, height })
}

/// Whether all numbers on the way to the motion are ones of 32 bits.
pub fn warp_is_representable(geoms: &Vec<OutputGeom>, side: PointerSide) -> (yes: bool)
    ensures
        yes == warp_fits(geoms_view(geoms@), side),
{
    if !seam_is_representable(geoms, side, MARGIN) {
        return false;
    }
    match seam_target(geoms, side, MARGIN) {
        None => true,
        Some(((tx, ty), (min_x, min_y), (max_x, max_y))) => {
            let w: i64 = max_x as i64 - min_x as i64;
            let h: i64 = max_y as i64 - min_y as i64;
            is_i32(w) && is_i32(h) && (w <= 0 || h <= 0 || (is_i32(tx as i64 - min_x as i64)
                && is_i32(ty as i64 - min_y as i64)))
        },
    }
}

/// The point is within the area, and the area has a size.
pub proof fn law_warp_stays_inside(geoms: Seq<GeomView>, side: PointerSide)
    requires
        warp_fits(geoms, side),
    ensures
        seam_warp(geoms, side) matches Some(warp) ==> warp.width > 0 && warp.height > 0 && warp.x
            <= warp.width && warp.y <= warp.height,
{
}

/// The seam is on the outermost monitor: no output reaches further on that side,
/// and the point is the margin away from that edge.
pub proof fn law_seam_is_outermost(geoms: Seq<GeomView>, side: PointerSide, margin: int, i: int)
    requires
        0 <= i < geoms.len(),
    ensures
        match side {
            PointerSide::Left => seam_point(geoms, side, margin).0 - margin <= geoms[i].x,
            PointerSide::Right => seam_point(geoms, side, margin).0 + margin >= geoms[i].x
                + geoms[i].w,
            PointerSide::Top => seam_point(geoms, side, margin).1 - margin <= geoms[i].y,
            PointerSide::Bottom => seam_point(geoms, side, margin).1 + margin >= geoms[i].y
                + geoms[i].h,
        },
{
    lemma_extremes(lefts(geoms));
    lemma_extremes(tops(geoms));
    lemma_extremes(rights(geoms));
    lemma_extremes(bottoms(geoms));
    assert(lefts(geoms)[i] == geoms[i].x);
    assert(tops(geoms)[i] == geoms[i].y);
    assert(rights(geoms)[i] == geoms[i].x + geoms[i].w);
    assert(bottoms(geoms)[i] == geoms[i].y + geoms[i].h);
}

/// An output and what is known of it.
#[derive(Debug)]
pub struct Output {
    global_name: u32,
    has_geom: bool,
    pending: OutputGeom,
    geom: OutputGeom,
}

/// What is known of an output: its geometry once it has fully arrived, and the
/// geometry that is arriving.
#[verifier::ext_equal]
pub struct OutputView {
    pub global_name: u32,
    pub has_geom: bool,
    pub pending: GeomView,
    pub geom: GeomView,
}

impl View for Output {
    type V = OutputView;

    closed spec fn view(&self) -> OutputView {
        OutputView {
            global_name: self.global_name,
            has_geom: self.has_geom,
            pending: self.pending@,
            geom: self.geom@,
        }
    }
}

/// An output of which nothing is known yet.
pub open spec fn unknown_output(global_name: u32) -> OutputView {
    OutputView { global_name, has_geom: false, pending: no_geom(), geom: no_geom() }
}

impl Output {
    pub fn new(global_name: u32) -> (output: Self)
        ensures
            output@ == unknown_output(global_name),
    {
        Self {
            global_name,
            has_geom: false,
            pending: OutputGeom::default(),
            geom: OutputGeom::default(),
        }
    }
}

/// The outputs with the geometry of the first one of the given name changed.
pub open spec fn with_output(
    outputs: Seq<OutputView>,
    name: u32,
    change: spec_fn(OutputView) -> OutputView,
) -> Seq<OutputView>
    decreases outputs.len(),
{
    if outputs.len() == 0 {
        outputs
    } else if outputs[0].global_name == name {
        seq![change(outputs[0])] + outputs.drop_first()
    } else {
        seq![outputs[0]] + with_output(outputs.drop_first(), name, change)
    }
}

/// The outputs without those of the given name.
pub open spec fn without_output(outputs: Seq<OutputView>, name: u32) -> Seq<OutputView> {
    outputs.filter(|o: OutputView| o.global_name != name)
}

/// The geometry of the outputs that have one.
pub open spec fn known_geoms(outputs: Seq<OutputView>) -> Seq<GeomView>
    decreases outputs.len(),
{
    if outputs.len() == 0 {
        seq![]
    } else {
        let rest = known_geoms(outputs.drop_last());
        if outputs.last().has_geom {
            rest.push(outputs.last().geom)
        } else {
            rest
        }
    }
}

/// The outputs of the compositor.
#[derive(Debug)]
pub struct OutputTable {
    outputs: Vec<Output>,
}

/// What is known of outputs.
pub open spec fn outputs_view(outputs: Seq<Output>) -> Seq<OutputView> {
    outputs.map_values(|o: Output| o@)
}

impl View for OutputTable {
    type V = Seq<OutputView>;

    closed spec fn view(&self) -> Seq<OutputView> {
        outputs_view(self.outputs@)
    }
}

/// The first output of the given name changes.
proof fn lemma_with_output(
    outputs: Seq<OutputView>,
    name: u32,
    change: spec_fn(OutputView) -> OutputView,
    i: int,
)
    requires
        0 <= i < outputs.len(),
        outputs[i].global_name == name,
        forall|j: int| 0 <= j < i ==> (#[trigger] outputs[j]).global_name != name,
    ensures
        with_output(outputs, name, change) == outputs.update(i, change(outputs[i])),
    decreases outputs.len(),
{
    if i > 0 {
        let tail = outputs.drop_first();
        assert forall|j: int| 0 <= j < i - 1 implies (#[trigger] tail[j]).global_name != name by {
            assert(outputs[j + 1] == tail[j]);
        }
        assert(outputs[0].global_name != name);
        lemma_with_output(tail, name, change, i - 1);
    }
    assert(with_output(outputs, name, change) =~= outputs.update(i, change(outputs[i])));
}

/// Where no output has the name, none changes.
proof fn lemma_without_change(
    outputs: Seq<OutputView>,
    name: u32,
    change: spec_fn(OutputView) -> OutputView,
)
    requires
        forall|j: int| 0 <= j < outputs.len() ==> (#[trigger] outputs[j]).global_name != name,
    ensures
        with_output(outputs, name, change) == outputs,
    decreases outputs.len(),
{
    if outputs.len() > 0 {
        let tail = outputs.drop_first();
        assert forall|j: int| 0 <= j < tail.len() implies (#[trigger] tail[j]).global_name
            != name by {
            assert(outputs[j + 1] == tail[j]);
        }
        assert(outputs[0].global_name != name);
        lemma_without_change(tail, name, change);
    }
    assert(with_output(outputs, name, change) =~= outputs);
}

impl OutputTable {
    pub fn new() -> (table: Self)
        ensures
            table@ == Seq::<OutputView>::empty(),
    {
        let table = OutputTable { outputs: Vec::new() };
        assert(table@ =~= Seq::<OutputView>::empty());
        table
    }

    /// A global appeared. Returns whether it is an output, which is then to be
    /// bound.
    pub fn register_global(&mut self, interface: &str, name: u32) -> (bind: bool)
        ensures
            bind == (interface@ == "wl_output"@),
            final(self)@ == if bind {
                old(self)@.push(unknown_output(name))
            } else {
                old(self)@
            },
    {
        if str_eq(interface, "wl_output") {
            let ghost before = self@;
            self.outputs.push(Output::new(name));
            assert(self@ =~= before.push(unknown_output(name)));
            true
        } else {
            false
        }
    }

    /// A global disappeared: forget the output, if it was one.
    pub fn deregister_global(&mut self, name: u32)
        ensures
            final(self)@ == without_output(old(self)@, name),
    {
        let ghost before = self@;
        let ghost keep = |o: OutputView| o.global_name != name;
        let ghost mut seen: int = 0;
        let mut i: usize = 0;
        proof {
            reveal(Seq::filter);
            assert(before.take(0).filter(keep) + before.skip(0) =~= before);
        }
        while i < self.outputs.len()
            invariant
                keep == (|o: OutputView| o.global_name != name),
                0 <= seen <= before.len(),
                self@ == before.take(seen).filter(keep) + before.skip(seen),
                i == before.take(seen).filter(keep).len(),
            decreases before.len() - seen,
        {
            let ghost kept = before.take(seen).filter(keep);
            proof {
                reveal(Seq::filter);
                assert(self@.len() == self.outputs@.len());
                assert(seen < before.len());
                assert(self@[i as int] == before[seen]);
                assert(before.take(seen + 1).drop_last() =~= before.take(seen));
                assert(before.take(seen + 1).last() == before[seen]);
            }
            if self.outputs[i].global_name == name {
                let ghost all = self@;
                self.outputs.remove(i);
                assert(self@ =~= all.remove(i as int));
                assert(all.remove(i as int) =~= kept + before.skip(seen + 1));
            } else {
                assert(self@ =~= kept.push(before[seen]) + before.skip(seen + 1));
                i = i + 1;
            }
            proof {
                seen = seen + 1;
            }
        }
        proof {
            assert(self@.len() == self.outputs@.len());
            assert(before.skip(seen).len() == 0);
            assert(before.take(seen) =~= before);
            assert(self@ =~= before.filter(keep));
        }
    }

    /// Which output comes first of the given name.
    fn index_of(&self, name: u32) -> (at: Option<usize>)
        ensures
            match at {
                Some(i) => i < self.outputs@.len() && self@[i as int].global_name == name && forall|
                    j: int,
                |
                    0 <= j < i ==> (#[trigger] self@[j]).global_name != name,
                None => forall|j: int|
                    0 <= j < self@.len() ==> (#[trigger] self@[j]).global_name != name,
            },
    {
        let mut i: usize = 0;
        while i < self.outputs.len()
            invariant
                0 <= i <= self.outputs@.len(),
                forall|j: int| 0 <= j < i ==> (#[trigger] self@[j]).global_name != name,
            decreases self.outputs@.len() - i,
        {
            if self.outputs[i].global_name == name {
                return Some(i);
            }
            i = i + 1;
        }
        None
    }

    /// The logical position of an output arrived.
    pub fn set_position(&mut self, name: u32, x: i32, y: i32)
        ensures
            final(self)@ == with_output(
                old(self)@,
                name,
                |o: OutputView| OutputView {
                    pending: GeomView { x: x as int, y: y as int, ..o.pending },
                    ..o
                },
            ),
    {
        let ghost change = |o: OutputView| OutputView {
            pending: GeomView { x: x as int, y: y as int, ..o.pending },
            ..o
        };
        match self.index_of(name) {
            Some(i) => {
                self.outputs[i].pending.position = (x, y);
                proof {
                    lemma_with_output(old(self)@, name, change, i as int);
                    assert(self@ =~= old(self)@.update(i as int, change(old(self)@[i as int])));
                }
            },
            None => {
                proof {
                    lemma_without_change(self@, name, change);
                }
            },
        }
    }

    /// The logical size of an output arrived.
    pub fn set_size(&mut self, name: u32, width: i32, height: i32)
        ensures
            final(self)@ == with_output(
                old(self)@,
                name,
                |o: OutputView| OutputView {
                    pending: GeomView { w: width as int, h: height as int, ..o.pending },
                    ..o
                },
            ),
    {
        let ghost change = |o: OutputView| OutputView {
            pending: GeomView { w: width as int, h: height as int, ..o.pending },
            ..o
        };
        match self.index_of(name) {
            Some(i) => {
                self.outputs[i].pending.size = (width, height);
                proof {
                    lemma_with_output(old(self)@, name, change, i as int);
                    assert(self@ =~= old(self)@.update(i as int, change(old(self)@[i as int])));
                }
            },
            None => {
                proof {
                    lemma_without_change(self@, name, change);
                }
            },
        }
    }

    /// The name of an output arrived.
    pub fn set_name(&mut self, name: u32, text: String)
        ensures
            final(self)@ == with_output(
                old(self)@,
                name,
                |o: OutputView| OutputView { pending: GeomView { name: text@, ..o.pending }, ..o },
            ),
    {
        let ghost change = |o: OutputView| OutputView {
            pending: GeomView { name: text@, ..o.pending },
            ..o
        };
        match self.index_of(name) {
            Some(i) => {
                self.outputs[i].pending.name = text;
                proof {
                    lemma_with_output(old(self)@, name, change, i as int);
                    assert(self@ =~= old(self)@.update(i as int, change(old(self)@[i as int])));
                }
            },
            None => {
                proof {
                    lemma_without_change(self@, name, change);
                }
            },
        }
    }

    /// Finalize the geometry of the output `name` once its information has
    /// fully arrived.
    pub fn update_output_info(&mut self, name: u32)
        ensures
            final(self)@ == with_output(
                old(self)@,
                name,
                |o: OutputView| OutputView { has_geom: true, geom: o.pending, ..o },
            ),
    {
        let ghost change = |o: OutputView| OutputView { has_geom: true, geom: o.pending, ..o };
        match self.index_of(name) {
            Some(i) => {
                let geom = self.outputs[i].pending.clone();
                self.outputs[i].has_geom = true;
                self.outputs[i].geom = geom;
                proof {
                    lemma_with_output(old(self)@, name, change, i as int);
                    assert(self@ =~= old(self)@.update(i as int, change(old(self)@[i as int])));
                }
            },
            None => {
                proof {
                    lemma_without_change(self@, name, change);
                }
            },
        }
    }

    /// The geometry of the outputs that have one.
    pub fn geoms(&self) -> (geoms: Vec<OutputGeom>)
        ensures
            geoms_view(geoms@) == known_geoms(self@),
    {
        let ghost all = self@;
        let mut geoms: Vec<OutputGeom> = Vec::new();
        let mut i: usize = 0;
        assert(geoms_view(geoms@) =~= known_geoms(all.take(0)));
        while i < self.outputs.len()
            invariant
                all == outputs_view(self.outputs@),
                0 <= i <= self.outputs@.len(),
                geoms_view(geoms@) == known_geoms(all.take(i as int)),
            decreases self.outputs@.len() - i,
        {
            proof {
                assert(all.take(i + 1).drop_last() =~= all.take(i as int));
                assert(all.take(i + 1).last() == self.outputs@[i as int]@);
            }
            if self.outputs[i].has_geom {
                let ghost sofar = geoms_view(geoms@);
                let geom = self.outputs[i].geom.clone();
                let ghost view = geom@;
                geoms.push(geom);
                assert(geoms_view(geoms@) =~= sofar.push(view));
            }
            i = i + 1;
        }
        assert(all.take(i as int) =~= all);
        geoms
    }
}

/// Two lists of outputs with the same final geometry have the same known one.
proof fn lemma_known_geoms_same(a: Seq<OutputView>, b: Seq<OutputView>)
    requires
        a.len() == b.len(),
        forall|i: int|
            0 <= i < a.len() ==> (#[trigger] a[i]).has_geom == b[i].has_geom && a[i].geom
                == b[i].geom,
    ensures
        known_geoms(a) == known_geoms(b),
    decreases a.len(),
{
    if a.len() > 0 {
        assert forall|i: int| 0 <= i < a.drop_last().len() implies (
        #[trigger] a.drop_last()[i]).has_geom == b.drop_last()[i].has_geom && a.drop_last()[i].geom
            == b.drop_last()[i].geom by {
            assert(a[i].has_geom == b[i].has_geom && a[i].geom == b[i].geom);
        }
        lemma_known_geoms_same(a.drop_last(), b.drop_last());
        assert(a[a.len() - 1].has_geom == b[a.len() - 1].has_geom);
    }
}

/// Geometry that is still arriving is not known geometry.
pub proof fn law_arriving_geometry_is_not_used(
    outputs: Seq<OutputView>,
    name: u32,
    change: spec_fn(OutputView) -> OutputView,
)
    requires
        forall|o: OutputView|
            (#[trigger] change(o)).has_geom == o.has_geom && change(o).geom == o.geom,
    ensures
        known_geoms(with_output(outputs, name, change)) == known_geoms(outputs),
{
    lemma_with_output_geoms(outputs, name, change);
    lemma_known_geoms_same(outputs, with_output(outputs, name, change));
}

proof fn lemma_with_output_geoms(
    outputs: Seq<OutputView>,
    name: u32,
    change: spec_fn(OutputView) -> OutputView,
)
    requires
        forall|o: OutputView|
            (#[trigger] change(o)).has_geom == o.has_geom && change(o).geom == o.geom,
    ensures
        with_output(outputs, name, change).len() == outputs.len(),
        forall|i: int|
            0 <= i < outputs.len() ==> (#[trigger] outputs[i]).has_geom == with_output(
                outputs,
                name,
                change,
            )[i].has_geom && outputs[i].geom == with_output(outputs, name, change)[i].geom,
    decreases outputs.len(),
{
    if outputs.len() > 0 {
        let tail = outputs.drop_first();
        lemma_with_output_geoms(tail, name, change);
        assert forall|i: int| 0 <= i < outputs.len() implies (#[trigger] outputs[i]).has_geom
            == with_output(outputs, name, change)[i].has_geom && outputs[i].geom == with_output(
            outputs,
            name,
            change,
        )[i].geom by {
            if i > 0 {
                assert(outputs[i] == tail[i - 1]);
            }
        }
    }
}

/// An output that went away has no geometry any more, and the others keep theirs.
pub proof fn law_removed_outputs_are_forgotten(outputs: Seq<OutputView>, name: u32, o: OutputView)
    ensures
        without_output(outputs, name).contains(o) <==> outputs.contains(o) && o.global_name != name,
{
    lemma_filter_members(outputs, |o: OutputView| o.global_name != name);
}

pub const SHIFT_MASK: u32 = 0x01;

pub const LOCK_MASK: u32 = 0x02;

pub const CONTROL_MASK: u32 = 0x04;

pub const MOD1_MASK: u32 = 0x08;

pub const MOD2_MASK: u32 = 0x10;

pub const MOD3_MASK: u32 = 0x20;

pub const MOD4_MASK: u32 = 0x40;

pub const MOD5_MASK: u32 = 0x80;

/// All modifiers.
pub const ALL_MASK: u32 = 0xff;

/// The modifiers that lock: caps lock, num lock and scroll lock.
pub const LOCKS_MASK: u32 = 0x32;

/// The modifiers that are held: shift, control, alt and meta.
pub const PRESSED_MASK: u32 = 0x4d;

/// The modifier that a key holds down, by its Linux key code.
pub open spec fn pressed_modifier(key: u32) -> u32 {
    if key == 42 || key == 54 {
        SHIFT_MASK
    } else if key == 29 || key == 97 {
        CONTROL_MASK
    } else if key == 56 || key == 100 {
        MOD1_MASK
    } else if key == 125 || key == 126 {
        MOD4_MASK
    } else {
        0
    }
}

/// The modifier that a key locks, by its Linux key code.
pub open spec fn locked_modifier(key: u32) -> u32 {
    if key == 58 {
        LOCK_MASK
    } else if key == 69 {
        MOD2_MASK
    } else if key == 70 {
        MOD3_MASK
    } else {
        0
    }
}

/// Whether a key is a modifier.
pub open spec fn modifier_key(key: u32) -> bool {
    pressed_modifier(key) != 0 || locked_modifier(key) != 0
}

/// The modifiers after a key changed: pressing a key holds its modifier down,
/// releasing it lets go of that and toggles the one that it locks.
pub open spec fn after_key(mods: u32, key: u32, state: u8) -> u32 {
    if !modifier_key(key) {
        mods
    } else if state == 1 {
        mods | pressed_modifier(key)
    } else {
        (mods & !pressed_modifier(key)) ^ locked_modifier(key)
    }
}

/// The modifiers after the sender said which are held and which are locked.
pub open spec fn after_modifiers(depressed: u32, locked: u32) -> u32 {
    (depressed & ALL_MASK) | (locked & ALL_MASK)
}

/// Modifiers that are held or locked, as in X11.
#[derive(Debug, Clone, Copy, PartialEq, Eq, Structural)]
pub struct XMods {
    bits: u32,
}

impl View for XMods {
    type V = u32;

    closed spec fn view(&self) -> u32 {
        self.bits
    }
}

impl XMods {
    /// No modifiers.
    pub fn empty() -> (mods: Self)
        ensures
            mods@ == 0,
    {
        XMods { bits: 0 }
    }

    /// The modifiers among the bits of a number.
    pub fn from_bits_truncate(bits: u32) -> (mods: Self)
        ensures
            mods@ == bits & ALL_MASK,
    {
        XMods { bits: bits & ALL_MASK }
    }

    /// The modifiers as the bits of a number.
    pub fn bits(&self) -> (bits: u32)
        ensures
            bits == self@,
    {
        self.bits
    }

    /// Take over which modifiers the sender says are held and locked.
    pub fn update_by_mods_event(&mut self, depressed: u32, locked: u32)
        ensures
            final(self)@ == after_modifiers(depressed, locked),
    {
        self.bits = (depressed & ALL_MASK) | (locked & ALL_MASK);
    }

    /// Take account of a key. Returns whether it is a modifier key.
    pub fn update_by_key_event(&mut self, key: u32, state: u8) -> (changed: bool)
        ensures
            changed == modifier_key(key),
            final(self)@ == after_key(old(self)@, key, state),
    {
        let pressed_mask: u32 = match key {
            42 | 54 => SHIFT_MASK,
            29 | 97 => CONTROL_MASK,
            56 | 100 => MOD1_MASK,
            125 | 126 => MOD4_MASK,
            _ => 0,
        };
        let locked_mask: u32 = match key {
            58 => LOCK_MASK,
            69 => MOD2_MASK,
            70 => MOD3_MASK,
            _ => 0,
        };
        // unchanged
        if pressed_mask == 0 && locked_mask == 0 {
            return false;
        }
        if state == 1 {
            self.bits = self.bits | pressed_mask;
        } else {
            self.bits = (self.bits & !pressed_mask) ^ locked_mask;
        }
        true
    }

    /// The modifiers that are locked.
    pub fn mask_locks(&self) -> (mods: XMods)
        ensures
            mods@ == self@ & LOCKS_MASK,
    {
        XMods { bits: self.bits & LOCKS_MASK }
    }

    /// The modifiers that are held.
    pub fn mask_pressed(&self) -> (mods: XMods)
        ensures
            mods@ == self@ & PRESSED_MASK,
    {
        XMods { bits: self.bits & PRESSED_MASK }
    }
}

/// A floating-point number, as the bits of its 64-bit form: it is carried, not
/// computed with.
pub type Bits64 = u64;

/// An event of the pointer.
#[derive(Debug, Clone, Copy, PartialEq, Eq, Structural)]
pub enum PointerEvent {
    Motion { time: u32, dx: Bits64, dy: Bits64 },
    Button { time: u32, button: u32, state: u32 },
    Axis { time: u32, axis: u8, value: Bits64 },
    AxisDiscrete120 { axis: u8, value: i32 },
}

/// An event of the keyboard.
#[derive(Debug, Clone, Copy, PartialEq, Eq, Structural)]
pub enum KeyboardEvent {
    Key { time: u32, key: u32, state: u8 },
    Modifiers { depressed: u32, latched: u32, locked: u32, group: u32 },
}

/// An input event.
#[derive(Debug, Clone, Copy, PartialEq, Eq, Structural)]
pub enum Event {
    Pointer(PointerEvent),
    Keyboard(KeyboardEvent),
}

/// A direction of scrolling.
#[derive(Debug, Clone, Copy, PartialEq, Eq, Structural)]
pub enum Axis {
    VerticalScroll,
    HorizontalScroll,
}

/// A request on the virtual pointer or keyboard.
#[derive(Debug, Clone, Copy, PartialEq, Eq, Structural)]
pub enum Request {
    Motion { time: u32, dx: Bits64, dy: Bits64 },
    Button { time: u32, button: u32, pressed: bool },
    Axis { time: u32, axis: Axis, value: Bits64 },
    /// Scroll by `value` 120ths of a step, at the current time; the distance is
    /// an eighth of `value`.
    AxisDiscrete { axis: Axis, value: i32, steps: i32 },
    AxisSourceWheel,
    Frame,
    Key { time: u32, key: u32, state: u32 },
    Modifiers { depressed: u32, latched: u32, locked: u32, group: u32 },
}

/// A number of steps of 120 each, rounded towards zero.
pub open spec fn wheel_steps(value: int) -> int {
    if value >= 0 {
        value / 120
    } else {
        -((-value) / 120)
    }
}

/// The direction of scrolling with the given number.
pub open spec fn axis_of(axis: u8) -> Option<Axis> {
    if axis == 0 {
        Some(Axis::VerticalScroll)
    } else if axis == 1 {
        Some(Axis::HorizontalScroll)
    } else {
        None
    }
}

/// The requests that an event makes, given the modifiers before it; none at all
/// for a button state or an axis that does not exist.
pub open spec fn requests_of(mods: u32, event: Event) -> Option<Seq<Request>> {
    match event {
        Event::Pointer(PointerEvent::Motion { time, dx, dy }) => Some(
            seq![Request::Motion { time, dx, dy }, Request::Frame],
        ),
        Event::Pointer(PointerEvent::Button { time, button, state }) => if state <= 1 {
            Some(seq![Request::Button { time, button, pressed: state == 1 }, Request::Frame])
        } else {
            None
        },
        Event::Pointer(PointerEvent::Axis { time, axis, value }) => match axis_of(axis) {
            Some(axis) => Some(
                seq![Request::Axis { time, axis, value }, Request::Frame, Request::Frame],
            ),
            None => None,
        },
        Event::Pointer(PointerEvent::AxisDiscrete120 { axis, value }) => match axis_of(axis) {
            Some(axis) => Some(
                seq![
                    Request::AxisDiscrete { axis, value, steps: wheel_steps(value as int) as i32 },
                    Request::AxisSourceWheel,
                    Request::Frame,
                    Request::Frame,
                ],
            ),
            None => None,
        },
        Event::Keyboard(KeyboardEvent::Key { time, key, state }) => {
            let sent = seq![Request::Key { time, key, state: state as u32 }];
            let after = after_key(mods, key, state);
            if modifier_key(key) {
                Some(
                    sent.push(
                        Request::Modifiers {
                            depressed: after & PRESSED_MASK,
                            latched: 0,
                            locked: after & LOCKS_MASK,
                            group: 0,
                        },
                    ),
                )
            } else {
                Some(sent)
            }
        },
        Event::Keyboard(
            KeyboardEvent::Modifiers { depressed, latched, locked, group },
        ) => Some(seq![Request::Modifiers { depressed, latched, locked, group }]),
    }
}

/// The modifiers after an event.
pub open spec fn mods_after(mods: u32, event: Event) -> u32 {
    match event {
        Event::Pointer(_) => mods,
        Event::Keyboard(KeyboardEvent::Key { time, key, state }) => after_key(mods, key, state),
        Event::Keyboard(
            KeyboardEvent::Modifiers { depressed, latched, locked, group },
        ) => after_modifiers(depressed, locked),
    }
}

/// What optional requests say.
pub open spec fn opt_requests_view(requests: Option<Vec<Request>>) -> Option<Seq<Request>> {
    match requests {
        Some(r) => Some(r@),
        None => None,
    }
}

/// The virtual input devices of one client.
#[derive(Debug)]
pub struct VirtualInput {
    modifiers: XMods,
}

impl View for VirtualInput {
    type V = u32;

    /// The modifiers that are held or locked.
    closed spec fn view(&self) -> u32 {
        self.modifiers@
    }
}

/// The direction of scrolling with the given number.
fn to_axis(axis: u8) -> (a: Option<Axis>)
    ensures
        a == axis_of(axis),
{
    match axis {
        0 => Some(Axis::VerticalScroll),
        1 => Some(Axis::HorizontalScroll),
        _ => None,
    }
}

impl VirtualInput {
    pub fn new() -> (input: Self)
        ensures
            input@ == 0,
    {
        VirtualInput { modifiers: XMods::empty() }
    }

    /// The requests that an event makes, in order; none at all for an event
    /// that cannot be converted.
    pub fn consume_event(&mut self, event: Event) -> (requests: Option<Vec<Request>>)
        ensures
            opt_requests_view(requests) == requests_of(old(self)@, event),
            final(self)@ == mods_after(old(self)@, event),
    {
        let mut out: Vec<Request> = Vec::new();
        match event {
            Event::Pointer(e) => {
                match e {
                    PointerEvent::Motion { time, dx, dy } => {
                        out.push(Request::Motion { time, dx, dy });
                    },
                    PointerEvent::Button { time, button, state } => {
                        if state > 1 {
                            return None;
                        }
                        out.push(Request::Button { time, button, pressed: state == 1 });
                    },
                    PointerEvent::Axis { time, axis, value } => {
                        let axis = match to_axis(axis) {
                            Some(axis) => axis,
                            None => return None,
                        };
                        out.push(Request::Axis { time, axis, value });
                        out.push(Request::Frame);
                    },
                    PointerEvent::AxisDiscrete120 { axis, value } => {
                        let axis = match to_axis(axis) {
                            Some(axis) => axis,
                            None => return None,
                        };
                        out.push(Request::AxisDiscrete { axis, value, steps: value / 120 });
                        out.push(Request::AxisSourceWheel);
                        out.push(Request::Frame);
                    },
                }
                out.push(Request::Frame);
            },
            Event::Keyboard(e) => match e {
                KeyboardEvent::Key { time, key, state } => {
                    out.push(Request::Key { time, key, state: state as u32 });
                    if self.modifiers.update_by_key_event(key, state) {
                        out.push(
                            Request::Modifiers {
                                depressed: self.modifiers.mask_pressed().bits(),
                                latched: 0,
                                locked: self.modifiers.mask_locks().bits(),
                                group: 0,
                            },
                        );
                    }
                },
                KeyboardEvent::Modifiers { depressed, latched, locked, group } => {
                    // Synchronize internal modifier state, assuming server is authoritative
                    self.modifiers.update_by_mods_event(depressed, locked);
                    out.push(Request::Modifiers { depressed, latched, locked, group });
                },
            },
        }
        assert(requests_of(old(self)@, event) == Some(out@)) by {
            assert(requests_of(old(self)@, event)->0 =~= out@);
        }
        Some(out)
    }
}

/// How a flush of the requests to the compositor ended.
#[derive(Debug, Clone, Copy, PartialEq, Eq, Structural)]
pub enum Flush {
    Done,
    /// The outgoing buffer is full.
    WouldBlock,
    /// The compositor reported a protocol violation.
    Protocol,
    /// Some other error.
    Failed,
}

/// What comes of an event, given how the flush after it ended.
#[derive(Debug, Clone, Copy, PartialEq, Eq, Structural)]
pub enum Consumed {
    /// The event is on its way, or will be with the next flush.
    Sent,
    /// The compositor reported a protocol violation: there is no way to go on.
    Violation,
    /// The flush failed, which is to be reported.
    Error,
}

/// Keeps events from overwhelming the outgoing buffer.
#[derive(Debug)]
pub struct FlushState {
    last_flush_failed: bool,
}

impl View for FlushState {
    type V = bool;

    /// Whether the buffer was full at the last flush.
    closed spec fn view(&self) -> bool {
        self.last_flush_failed
    }
}

impl FlushState {
    pub fn new() -> (state: Self)
        ensures
            !state@,
    {
        FlushState { last_flush_failed: false }
    }

    /// Whether to flush before the next event.
    pub fn flush_first(&self) -> (yes: bool)
        ensures
            yes == self@,
    {
        self.last_flush_failed
    }

    /// Whether to go on with an event, given how the flush before it ended:
    /// while the outgoing buffer is full, sending more events would overwhelm
    /// it and leave the connection in a broken state, so the event is discarded.
    pub fn proceed(&self, flush: Flush) -> (yes: bool)
        ensures
            yes == (!self@ || flush != Flush::WouldBlock),
    {
        !self.last_flush_failed || flush != Flush::WouldBlock
    }

    /// Take account of the flush after an event.
    pub fn flushed(&mut self, flush: Flush) -> (consumed: Consumed)
        ensures
            consumed == match flush {
                Flush::Done => Consumed::Sent,
                Flush::WouldBlock => Consumed::Sent,
                Flush::Protocol => Consumed::Violation,
                Flush::Failed => Consumed::Error,
            },
            final(self)@ == match flush {
                Flush::Done => false,
                Flush::WouldBlock => true,
                _ => old(self)@,
            },
    {
        match flush {
            Flush::Done => {
                self.last_flush_failed = false;
                Consumed::Sent
            },
            Flush::WouldBlock => {
                self.last_flush_failed = true;
                Consumed::Sent
            },
            Flush::Protocol => Consumed::Violation,
            Flush::Failed => Consumed::Error,
        }
    }
}

/// The modifiers stay modifiers, whatever keys and events come.
pub proof fn law_only_modifiers_are_kept(mods: u32, event: Event)
    requires
        mods & !ALL_MASK == 0,
    ensures
        mods_after(mods, event) & !ALL_MASK == 0,
{
    match event {
        Event::Pointer(_) => {},
        Event::Keyboard(KeyboardEvent::Key { time, key, state }) => {
            let p = pressed_modifier(key);
            let l = locked_modifier(key);
            assert(p & !0xffu32 == 0 && l & !0xffu32 == 0) by {
                assert(0x01u32 & !0xffu32 == 0 && 0x02u32 & !0xffu32 == 0 && 0x04u32 & !0xffu32 == 0
                    && 0x08u32 & !0xffu32 == 0 && 0x10u32 & !0xffu32 == 0 && 0x20u32 & !0xffu32 == 0
                    && 0x40u32 & !0xffu32 == 0 && 0u32 & !0xffu32 == 0) by (bit_vector);
            }
            assert((mods | p) & !0xffu32 == 0 && ((mods & !p) ^ l) & !0xffu32 == 0) by (bit_vector)
                requires
                    mods & !0xffu32 == 0,
                    p & !0xffu32 == 0,
                    l & !0xffu32 == 0,
            ;
        },
        Event::Keyboard(KeyboardEvent::Modifiers { depressed, latched, locked, group }) => {
            assert(((depressed & 0xffu32) | (locked & 0xffu32)) & !0xffu32 == 0) by (bit_vector);
        },
    }
}

/// Holding a modifier key down sets its modifier, and releasing the key clears
/// it; no other held modifier changes.
pub proof fn law_held_modifiers(mods: u32, key: u32)
    requires
        pressed_modifier(key) != 0,
    ensures
        after_key(mods, key, 1) & pressed_modifier(key) == pressed_modifier(key),
        after_key(mods, key, 0) & pressed_modifier(key) == 0,
        after_key(mods, key, 1) & !pressed_modifier(key) == mods & !pressed_modifier(key),
        after_key(mods, key, 0) & !pressed_modifier(key) == mods & !pressed_modifier(key),
{
    let p = pressed_modifier(key);
    assert(locked_modifier(key) == 0);
    assert((mods | p) & p == p && ((mods & !p) ^ 0) & p == 0 && (mods | p) & !p == mods & !p && ((
    mods & !p) ^ 0) & !p == mods & !p) by (bit_vector);
}

/// A lock key toggles its modifier when it is released and not when it is
/// pressed; a second press and release brings the modifiers back.
pub proof fn law_lock_keys_toggle(mods: u32, key: u32)
    requires
        locked_modifier(key) != 0,
    ensures
        after_key(mods, key, 1) == mods,
        after_key(mods, key, 0) == mods ^ locked_modifier(key),
        after_key(after_key(mods, key, 0), key, 0) == mods,
{
    let l = locked_modifier(key);
    assert(pressed_modifier(key) == 0);
    assert(mods | 0 == mods && (mods & !0u32) ^ l == mods ^ l && ((((mods & !0u32) ^ l) & !0u32)
        ^ l) == mods) by (bit_vector);
}

/// Every pointer event ends with a frame.
pub proof fn law_pointer_events_end_with_a_frame(mods: u32, event: PointerEvent)
    ensures
        requests_of(mods, Event::Pointer(event)) matches Some(requests) ==> requests.len() > 0
            && requests.last() == Request::Frame,
{
}

/// The seam is on an outermost output: there is one that no other reaches
/// beyond on that side, and the point is the margin inside its edge and in the
/// middle of it. Of several that reach equally far it is the first on the left
/// and at the top, and the last on the right and at the bottom.
pub proof fn law_seam_lies_on_an_outermost_output(
    geoms: Seq<GeomView>,
    side: PointerSide,
    margin: int,
)
    requires
        geoms.len() > 0,
    ensures
        exists|i: int|
            0 <= i < geoms.len() && ({
                let g = #[trigger] geoms[i];
                let (x, y) = seam_point(geoms, side, margin);
                match side {
                    PointerSide::Left => {
                        &&& x == g.x + margin
                        &&& middle_of(y - g.y, g.h)
                        &&& forall|j: int| 0 <= j < geoms.len() ==> g.x <= (#[trigger] geoms[j]).x
                        &&& forall|j: int| 0 <= j < i ==> g.x < (#[trigger] geoms[j]).x
                    },
                    PointerSide::Right => {
                        &&& x == g.x + g.w - margin
                        &&& middle_of(y - g.y, g.h)
                        &&& forall|j: int|
                            0 <= j < geoms.len() ==> (#[trigger] geoms[j]).x + geoms[j].w <= g.x
                                + g.w
                        &&& forall|j: int|
                            i < j < geoms.len() ==> (#[trigger] geoms[j]).x + geoms[j].w < g.x + g.w
                    },
                    PointerSide::Top => {
                        &&& y == g.y + margin
                        &&& middle_of(x - g.x, g.w)
                        &&& forall|j: int| 0 <= j < geoms.len() ==> g.y <= (#[trigger] geoms[j]).y
                        &&& forall|j: int| 0 <= j < i ==> g.y < (#[trigger] geoms[j]).y
                    },
                    PointerSide::Bottom => {
                        &&& y == g.y + g.h - margin
                        &&& middle_of(x - g.x, g.w)
                        &&& forall|j: int|
                            0 <= j < geoms.len() ==> (#[trigger] geoms[j]).y + geoms[j].h <= g.y
                                + g.h
                        &&& forall|j: int|
                            i < j < geoms.len() ==> (#[trigger] geoms[j]).y + geoms[j].h < g.y + g.h
                    },
                }
            }),
{
    let ls = lefts(geoms);
    let ts = tops(geoms);
    let rs = rights(geoms);
    let bs = bottoms(geoms);
    lemma_extremes(ls);
    lemma_extremes(ts);
    lemma_extremes(rs);
    lemma_extremes(bs);
    assert forall|j: int| 0 <= j < geoms.len() implies ls[j] == (#[trigger] geoms[j]).x && ts[j]
        == geoms[j].y && rs[j] == geoms[j].x + geoms[j].w && bs[j] == geoms[j].y + geoms[j].h by {}
    let i = match side {
        PointerSide::Left => first_min(ls),
        PointerSide::Right => last_max(rs),
        PointerSide::Top => first_min(ts),
        PointerSide::Bottom => last_max(bs),
    };
    assert(geoms[i] == geoms[i]);
}

/// Whether `at` is the middle of a stretch of `n`, which may be off by a half
/// towards its start.
pub open spec fn middle_of(at: int, n: int) -> bool {
    if n >= 0 {
        2 * at <= n < 2 * at + 2
    } else {
        2 * at - 2 < n <= 2 * at
    }
}

/// The bounds of the layout are reached by outputs, and no output goes beyond
/// them.
pub proof fn law_layout_bounds(geoms: Seq<GeomView>)
    requires
        geoms.len() > 0,
    ensures
        exists|i: int| 0 <= i < geoms.len() && (#[trigger] geoms[i]).x == smallest(lefts(geoms)),
        exists|i: int| 0 <= i < geoms.len() && (#[trigger] geoms[i]).y == smallest(tops(geoms)),
        exists|i: int|
            0 <= i < geoms.len() && (#[trigger] geoms[i]).x + geoms[i].w == largest(rights(geoms)),
        exists|i: int|
            0 <= i < geoms.len() && (#[trigger] geoms[i]).y + geoms[i].h == largest(bottoms(geoms)),
        forall|j: int|
            0 <= j < geoms.len() ==> smallest(lefts(geoms)) <= (#[trigger] geoms[j]).x && smallest(
                tops(geoms),
            ) <= geoms[j].y && geoms[j].x + geoms[j].w <= largest(rights(geoms)) && geoms[j].y
                + geoms[j].h <= largest(bottoms(geoms)),
{
    let ls = lefts(geoms);
    let ts = tops(geoms);
    let rs = rights(geoms);
    let bs = bottoms(geoms);
    lemma_extremes(ls);
    lemma_extremes(ts);
    lemma_extremes(rs);
    lemma_extremes(bs);
    assert(geoms[first_min(ls)].x == smallest(ls));
    assert(geoms[first_min(ts)].y == smallest(ts));
    assert(geoms[last_max(rs)].x + geoms[last_max(rs)].w == largest(rs));
    assert(geoms[last_max(bs)].y + geoms[last_max(bs)].h == largest(bs));
    assert forall|j: int| 0 <= j < geoms.len() implies smallest(ls) <= (#[trigger] geoms[j]).x
        && smallest(ts) <= geoms[j].y && geoms[j].x + geoms[j].w <= largest(rs) && geoms[j].y
        + geoms[j].h <= largest(bs) by {
        assert(ls[j] == geoms[j].x && ts[j] == geoms[j].y);
        assert(rs[j] == geoms[j].x + geoms[j].w && bs[j] == geoms[j].y + geoms[j].h);
    }
}

/// The absolute motion goes to the seam: the area has the size of the layout,
/// and the point is that of the seam, counted from the upper left corner of the
/// layout, or the nearest point in the area. There is none exactly if no output
/// is known or the layout has no size.
pub proof fn law_warp_goes_to_the_seam(geoms: Seq<GeomView>, side: PointerSide)
    requires
        warp_fits(geoms, side),
    ensures
        ({
            let (x, y) = seam_point(geoms, side, 12);
            let w = largest(rights(geoms)) - smallest(lefts(geoms));
            let h = largest(bottoms(geoms)) - smallest(tops(geoms));
            let dx = x - smallest(lefts(geoms));
            let dy = y - smallest(tops(geoms));
            &&& seam_warp(geoms, side) is None <==> geoms.len() == 0 || w <= 0 || h <= 0
            &&& seam_warp(geoms, side) matches Some(warp) ==> {
                &&& warp.width == w
                &&& warp.height == h
                &&& 0 <= dx <= w ==> warp.x == dx
                &&& 0 <= dy <= h ==> warp.y == dy
                &&& dx < 0 ==> warp.x == 0
                &&& dy < 0 ==> warp.y == 0
                &&& dx > w ==> warp.x == w
                &&& dy > h ==> warp.y == h
            }
        }),
{
}

/// Changing an output changes the first one of its name and no other.
pub proof fn law_only_the_named_output_changes(
    outputs: Seq<OutputView>,
    name: u32,
    change: spec_fn(OutputView) -> OutputView,
)
    ensures
        with_output(outputs, name, change).len() == outputs.len(),
        forall|i: int|
            #![trigger outputs[i]]
            0 <= i < outputs.len() ==> with_output(outputs, name, change)[i] == if outputs[i].global_name
                == name && (forall|j: int|
                0 <= j < i ==> (#[trigger] outputs[j]).global_name != name) {
                change(outputs[i])
            } else {
                outputs[i]
            },
    decreases outputs.len(),
{
    let after = with_output(outputs, name, change);
    if outputs.len() > 0 {
        let tail = outputs.drop_first();
        law_only_the_named_output_changes(tail, name, change);
        assert forall|i: int|
            #![trigger outputs[i]]
            0 <= i < outputs.len() implies after[i] == if outputs[i].global_name == name && (forall|
            j: int,
        |
            0 <= j < i ==> (#[trigger] outputs[j]).global_name != name) {
            change(outputs[i])
        } else {
            outputs[i]
        } by {
            if i > 0 {
                assert(tail[i - 1] == outputs[i]);
                if outputs[0].global_name != name {
                    assert((forall|j: int|
                        0 <= j < i ==> (#[trigger] outputs[j]).global_name != name) == (forall|
                        j: int,
                    |
                        0 <= j < i - 1 ==> (#[trigger] tail[j]).global_name != name)) by {
                        if forall|j: int|
                            0 <= j < i ==> (#[trigger] outputs[j]).global_name != name {
                            assert forall|j: int| 0 <= j < i - 1 implies (
                            #[trigger] tail[j]).global_name != name by {
                                assert(outputs[j + 1] == tail[j]);
                            }
                        }
                        if forall|j: int|
                            0 <= j < i - 1 ==> (#[trigger] tail[j]).global_name != name {
                            assert forall|j: int| 0 <= j < i implies (
                            #[trigger] outputs[j]).global_name != name by {
                                if j > 0 {
                                    assert(outputs[j] == tail[j - 1]);
                                }
                            }
                        }
                    }
                }
            }
        }
    }
}

/// The known geometry is that of the outputs that have one, in their order: one
/// more output adds its geometry at the end if it has one, and nothing if not.
pub proof fn law_known_geometry(outputs: Seq<OutputView>, o: OutputView)
    ensures
        known_geoms(Seq::<OutputView>::empty()) == Seq::<GeomView>::empty(),
        o.has_geom ==> known_geoms(outputs.push(o)) == known_geoms(outputs).push(o.geom),
        !o.has_geom ==> known_geoms(outputs.push(o)) == known_geoms(outputs),
        !unknown_output(o.global_name).has_geom,
        unknown_output(o.global_name).global_name == o.global_name,
{
    assert(outputs.push(o).drop_last() =~= outputs);
}

/// Removing outputs keeps the others in their order: taking one more output in
/// and removing commute.
pub proof fn law_removal_keeps_order(outputs: Seq<OutputView>, o: OutputView, name: u32)
    ensures
        without_output(Seq::<OutputView>::empty(), name) == Seq::<OutputView>::empty(),
        o.global_name == name ==> without_output(outputs.push(o), name) == without_output(
            outputs,
            name,
        ),
        o.global_name != name ==> without_output(outputs.push(o), name) == without_output(
            outputs,
            name,
        ).push(o),
{
    reveal(Seq::filter);
    assert(outputs.push(o).drop_last() =~= outputs);
    assert(without_output(Seq::<OutputView>::empty(), name) =~= Seq::<OutputView>::empty());
}

/// A motion event is passed on as it is, and a frame ends it.
pub proof fn law_motion_is_passed_on(mods: u32, time: u32, dx: Bits64, dy: Bits64)
    ensures
        requests_of(mods, Event::Pointer(PointerEvent::Motion { time, dx, dy })) matches Some(r)
            && r.len() == 2 && r[0] == (Request::Motion { time, dx, dy }) && r[1]
            == Request::Frame,
{
}

/// A button event with a known state is passed on for the same time and button,
/// pressed exactly if the state is one, and a frame ends it; so a press and a
/// release of one button differ in just that. Any other state is refused.
pub proof fn law_buttons_are_pressed_and_released(mods: u32, time: u32, button: u32, state: u32)
    ensures
        requests_of(mods, Event::Pointer(PointerEvent::Button { time, button, state })) is Some
            <==> state == 0 || state == 1,
        requests_of(
            mods,
            Event::Pointer(PointerEvent::Button { time, button, state }),
        ) matches Some(r) ==> r.len() == 2 && r[1] == Request::Frame && (r[0] matches Request::Button {
            time: t,
            button: b,
            pressed,
        } && t == time && b == button && (pressed <==> state == 1)),
{
}

/// A scroll event is passed on for the same time and distance, in the direction
/// of its axis, and frames end it. Axis zero is the vertical and axis one the
/// horizontal; any other is refused.
pub proof fn law_scrolling_is_passed_on(mods: u32, time: u32, axis: u8, value: Bits64)
    ensures
        requests_of(mods, Event::Pointer(PointerEvent::Axis { time, axis, value })) is Some <==> axis
            == 0 || axis == 1,
        requests_of(
            mods,
            Event::Pointer(PointerEvent::Axis { time, axis, value }),
        ) matches Some(r) ==> r.len() == 3 && r[1] == Request::Frame && r[2] == Request::Frame && (
        r[0] matches Request::Axis { time: t, axis: a, value: v } && t == time && v == value && (a
            == Axis::HorizontalScroll <==> axis == 1) && (a == Axis::VerticalScroll <==> axis == 0)),
{
}

/// A wheel event scrolls by its value in the direction of its axis, says that it
/// comes from a wheel, and counts the whole steps of 120 in the value, leaving
/// out what is less than a step, in either direction.
pub proof fn law_wheel_steps(mods: u32, axis: u8, value: i32)
    ensures
        requests_of(mods, Event::Pointer(PointerEvent::AxisDiscrete120 { axis, value })) is Some
            <==> axis == 0 || axis == 1,
        requests_of(
            mods,
            Event::Pointer(PointerEvent::AxisDiscrete120 { axis, value }),
        ) matches Some(r) ==> r.len() == 4 && r[1] == Request::AxisSourceWheel && r[2]
            == Request::Frame && r[3] == Request::Frame && (r[0] matches Request::AxisDiscrete {
            axis: a,
            value: v,
            steps,
        } && v == value && (a == Axis::HorizontalScroll <==> axis == 1) && (a
            == Axis::VerticalScroll <==> axis == 0) && (value >= 0 ==> 0 <= value - 120 * steps
            < 120) && (value <= 0 ==> -120 < value - 120 * steps <= 0)),
{
}

/// A key event is passed on as it is. Where the key is a modifier, the modifiers
/// after it follow: the held ones apart from the locked ones, with nothing
/// latched; for any other key nothing follows.
pub proof fn law_keys_are_passed_on(mods: u32, time: u32, key: u32, state: u8)
    ensures
        requests_of(mods, Event::Keyboard(KeyboardEvent::Key { time, key, state })) matches Some(r)
            && r.len() >= 1 && (r[0] matches Request::Key { time: t, key: k, state: s } && t == time
            && k == key && s == state) && (r.len() == 2 <==> (key == 42 || key == 54 || key == 29
            || key == 97 || key == 56 || key == 100 || key == 125 || key == 126 || key == 58 || key
            == 69 || key == 70)) && r.len() <= 2 && (r.len() == 2 ==> r[1] == (Request::Modifiers {
            depressed: mods_after(
                mods,
                Event::Keyboard(KeyboardEvent::Key { time, key, state }),
            ) & 0x4d,
            latched: 0,
            locked: mods_after(
                mods,
                Event::Keyboard(KeyboardEvent::Key { time, key, state }),
            ) & 0x32,
            group: 0,
        })),
{
}

/// What a key does to the modifiers: shift, control, alt and meta are held while
/// one of their two keys is down, and caps lock, num lock and scroll lock toggle
/// when their key goes up. Other keys change nothing.
pub proof fn law_modifier_keys(mods: u32, key: u32, state: u8)
    ensures
        ({
            let after = after_key(mods, key, state);
            let bit = if key == 42 || key == 54 {
                0x01u32
            } else if key == 29 || key == 97 {
                0x04
            } else if key == 56 || key == 100 {
                0x08
            } else if key == 125 || key == 126 {
                0x40
            } else {
                0
            };
            let lock = if key == 58 {
                0x02u32
            } else if key == 69 {
                0x10
            } else if key == 70 {
                0x20
            } else {
                0
            };
            &&& bit != 0 && state == 1 ==> after == mods | bit
            &&& bit != 0 && state != 1 ==> after == mods & !bit
            &&& lock != 0 && state == 1 ==> after == mods
            &&& lock != 0 && state != 1 ==> after == mods ^ lock
            &&& bit == 0 && lock == 0 ==> after == mods
        }),
{
    let p = pressed_modifier(key);
    let l = locked_modifier(key);
    assert((mods & !p) ^ 0 == mods & !p && (mods & !0u32) ^ l == mods ^ l && mods | 0 == mods)
        by (bit_vector);
}

/// A modifiers event is passed on as it is, and afterwards exactly the modifiers
/// are set that it says are held or locked, as far as they are modifiers.
pub proof fn law_modifiers_are_taken_over(
    mods: u32,
    depressed: u32,
    latched: u32,
    locked: u32,
    group: u32,
)
    ensures
        ({
            let event = Event::Keyboard(
                KeyboardEvent::Modifiers { depressed, latched, locked, group },
            );
            &&& requests_of(mods, event) matches Some(r) && r.len() == 1 && r[0] == (
            Request::Modifiers { depressed, latched, locked, group })
            &&& mods_after(mods, event) == (depressed | locked) & 0xff
        }),
{
    assert((depressed & 0xffu32) | (locked & 0xffu32) == (depressed | locked) & 0xffu32)
        by (bit_vector);
}

/// Pointer events change no modifiers.
pub proof fn law_pointer_events_keep_modifiers(mods: u32, event: PointerEvent)
    ensures
        mods_after(mods, Event::Pointer(event)) == mods,
{
}

/// A key event changes the modifiers as the key does.
pub proof fn law_key_events_change_modifiers(mods: u32, time: u32, key: u32, state: u8)
    ensures
        mods_after(mods, Event::Keyboard(KeyboardEvent::Key { time, key, state })) == after_key(
            mods,
            key,
            state,
        ),
{
}

/// Which layouts can be computed with in 32 bits: every right and bottom edge,
/// and where there is an output also the point at the seam, must lie in their
/// range.
pub proof fn law_what_fits_in_32_bits(geoms: Seq<GeomView>, side: PointerSide, margin: int)
    ensures
        seam_fits(geoms, side, margin) <==> (forall|i: int|
            0 <= i < geoms.len() ==> -2147483648 <= (#[trigger] geoms[i]).x + geoms[i].w
                <= 2147483647 && -2147483648 <= geoms[i].y + geoms[i].h <= 2147483647) && (
        geoms.len() == 0 || (-2147483648 <= seam_point(geoms, side, margin).0 <= 2147483647
            && -2147483648 <= seam_point(geoms, side, margin).1 <= 2147483647)),
{
}

/// Which layouts can be warped in with 32 bits: the seam must fit, and where
/// there is an output also the extent of the layout, and where that is not empty
/// the distance of the point at the seam from its corner.
pub proof fn law_which_warps_fit_in_32_bits(geoms: Seq<GeomView>, side: PointerSide)
    ensures
        ({
            let (tx, ty) = seam_point(geoms, side, 12);
            let left = smallest(lefts(geoms));
            let top = smallest(tops(geoms));
            let w = largest(rights(geoms)) - left;
            let h = largest(bottoms(geoms)) - top;
            let fits = |n: int| -2147483648 <= n <= 2147483647;
            &&& geoms.len() == 0 ==> warp_fits(geoms, side)
            &&& geoms.len() > 0 && w > 0 && h > 0 ==> (warp_fits(geoms, side) <==> seam_fits(
                geoms,
                side,
                12,
            ) && fits(w) && fits(h) && fits(tx - left) && fits(ty - top))
            &&& geoms.len() > 0 && (w <= 0 || h <= 0) ==> (warp_fits(geoms, side) <==> seam_fits(
                geoms,
                side,
                12,
            ) && fits(w) && fits(h))
        }),
{
}

/// A new output is known by its number alone: its geometry is unknown, and what
/// is announced of it starts without a name, at the origin and without a size.
pub proof fn law_new_outputs(global_name: u32)
    ensures
        ({
            let output = unknown_output(global_name);
            &&& output.global_name == global_name
            &&& !output.has_geom
            &&& output.pending == output.geom
            &&& output.pending.name.len() == 0
            &&& output.pending.x == 0
            &&& output.pending.y == 0
            &&& output.pending.w == 0
            &&& output.pending.h == 0
        }),
{
    reveal_strlit("");
}

} // verus!
