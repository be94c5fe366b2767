//! Wall segments on a floor plan, and the exact geometry that the
//! partitioner needs: gradients, intersections, splits and sides.
//!
//! A point's plan position is held as homogeneous integers: `(x / w, z / w)`
//! with `w > 0`. Its elevation `y` is a whole number. All arithmetic is
//! exact, so an intersection point lies exactly on both lines.
use vstd::prelude::*;
use crate::arith::{
    abs,
    gcd,
    lemma_divides_abs,
    lemma_divides_of_multiple,
    lemma_divides_trans,
    lemma_gcd_divides,
    lemma_mul_bound,
    lemma_combination_form,
    lemma_scale_form,
    lemma_sgn_mul,
    lemma_side_identity,
    lemma_zero_denominator_outside,
    lemma_zero_product,
    sgn,
};

verus! {

/// Bound on the magnitude of every number that holds a point.
pub const PLAN_LIMIT: i64 = 1073741824;

/// Bound on the magnitude of a segment's base elevations and of its height,
/// so that the top of a wall stays within `PLAN_LIMIT`.
pub const ELEVATION_LIMIT: i64 = 536870912;

/// Mathematical value of a point: plan position `(x / w, z / w)`, elevation `y`.
pub struct PointModel {
    pub x: int,
    pub y: int,
    pub z: int,
    pub w: int,
}

/// Mathematical value of a wall segment.
pub struct SegModel {
    pub p0: PointModel,
    pub p1: PointModel,
    pub height: int,
}

pub open spec fn point_in_range(p: PointModel) -> bool {
    &&& -PLAN_LIMIT < p.x < PLAN_LIMIT
    &&& -PLAN_LIMIT < p.z < PLAN_LIMIT
    &&& 0 < p.w < PLAN_LIMIT
    &&& -PLAN_LIMIT < p.y < PLAN_LIMIT
}

/// Plan x-component of `a - b`, scaled by the positive factor `a.w * b.w`.
pub open spec fn plan_dx(a: PointModel, b: PointModel) -> int {
    a.x * b.w - b.x * a.w
}

/// Plan z-component of `a - b`, scaled by the positive factor `a.w * b.w`.
pub open spec fn plan_dz(a: PointModel, b: PointModel) -> int {
    a.z * b.w - b.z * a.w
}

/// Two points stand at the same place on the plan.
pub open spec fn same_plan_position(a: PointModel, b: PointModel) -> bool {
    plan_dx(a, b) == 0 && plan_dz(a, b) == 0
}

/// The vertical (y) component of the cross product of plan vectors `u` and `v`.
pub open spec fn cross_y(ux: int, uz: int, vx: int, vz: int) -> int {
    uz * vx - ux * vz
}

/// A segment is valid when its numbers are in range and its two base points
/// stand apart on the plan.
pub open spec fn seg_valid(s: SegModel) -> bool {
    &&& point_in_range(s.p0)
    &&& point_in_range(s.p1)
    &&& -ELEVATION_LIMIT < s.p0.y < ELEVATION_LIMIT
    &&& -ELEVATION_LIMIT < s.p1.y < ELEVATION_LIMIT
    &&& -ELEVATION_LIMIT < s.height < ELEVATION_LIMIT
    &&& !same_plan_position(s.p0, s.p1)
}

/// Rise of the segment on the plan (z over x); the gradient is rise / run.
pub open spec fn rise(s: SegModel) -> int {
    plan_dz(s.p1, s.p0)
}

/// Run of the segment on the plan; zero for a vertical segment.
pub open spec fn run(s: SegModel) -> int {
    plan_dx(s.p1, s.p0)
}

/// Equal gradients, the vertical case included.
pub open spec fn parallel(a: SegModel, b: SegModel) -> bool {
    rise(a) * run(b) == rise(b) * run(a)
}

/// Cross product of the direction of `r` with the vector from `r.p0` to `q`,
/// scaled by a positive factor: positive in front of `r`, negative behind.
pub open spec fn side_value(r: SegModel, q: PointModel) -> int {
    cross_y(run(r), rise(r), plan_dx(q, r.p0), plan_dz(q, r.p0))
}

/// Where one segment stands relative to another's directed line.
#[derive(Clone, Copy, Debug, PartialEq, Eq, Structural)]
pub enum Side {
    Front,
    Back,
    Neither,
}

/// The side that two cross products give: both on one side (or on the
/// line) picks that side, the line itself counts as front, and points on
/// both sides give `Neither`.
pub open spec fn classify(c0: int, c1: int) -> Side {
    if (c0 < 0 && c1 > 0) || (c0 > 0 && c1 < 0) {
        Side::Neither
    } else if c0 < 0 || c1 < 0 {
        Side::Back
    } else {
        Side::Front
    }
}

pub open spec fn side_of(r: SegModel, o: SegModel) -> Side {
    classify(side_value(r, o.p0), side_value(r, o.p1))
}

/// Coefficients of the linear form, in homogeneous plan coordinates
/// `(x, z, w)`, that vanishes on the line through `a` and `b`.
pub open spec fn line_coefficients(a: PointModel, b: PointModel) -> (int, int, int) {
    (a.z * b.w - a.w * b.z, a.x * b.w - a.w * b.x, a.x * b.z - a.z * b.x)
}

/// Linear form that vanishes on the supporting line of `d`: the determinant
/// of the homogeneous plan coordinates of `d.p0`, `d.p1` and `q`.
pub open spec fn line_form(d: SegModel, q: PointModel) -> int {
    let (k1, k2, k3) = line_coefficients(d.p0, d.p1);
    q.x * k1 - q.z * k2 + q.w * k3
}

/// Homogeneous intersection of the supporting lines of `t` and `d`, before
/// its sign is fixed: `l(p1) * p0 - l(p0) * p1` for the line form `l` of `d`.
pub open spec fn raw_meet(t: SegModel, d: SegModel) -> (int, int, int) {
    let l0 = line_form(d, t.p0);
    let l1 = line_form(d, t.p1);
    (l1 * t.p0.x - l0 * t.p1.x, l1 * t.p0.z - l0 * t.p1.z, l1 * t.p0.w - l0 * t.p1.w)
}

/// The intersection point with a non-negative denominator, at `t.p0`'s elevation.
pub open spec fn meet(t: SegModel, d: SegModel) -> PointModel {
    let (x, z, w) = raw_meet(t, d);
    if w < 0 {
        PointModel { x: -x, y: t.p0.y, z: -z, w: -w }
    } else {
        PointModel { x, y: t.p0.y, z, w }
    }
}

/// `a / aw < m / mw < b / bw`, for positive denominators.
pub open spec fn strictly_between(a: int, aw: int, m: int, mw: int, b: int, bw: int) -> bool {
    a * mw < m * aw && m * bw < b * mw
}

/// `m` lies strictly inside the bounding box of `t`, taken from `p0` up to
/// `p1` on both plan axes.
pub open spec fn inside_box(t: SegModel, m: PointModel) -> bool {
    &&& strictly_between(t.p0.x, t.p0.w, m.x, m.w, t.p1.x, t.p1.w)
    &&& strictly_between(t.p0.z, t.p0.w, m.z, m.w, t.p1.z, t.p1.w)
}



/// Common divisor of a point's plan numbers.
pub open spec fn plan_gcd(m: PointModel) -> nat {
    gcd(abs(m.x), gcd(abs(m.z), abs(m.w)))
}

/// The point in lowest terms.
pub open spec fn lowest_terms(m: PointModel) -> PointModel {
    let g = plan_gcd(m) as int;
    PointModel { x: m.x / g, y: m.y, z: m.z / g, w: m.w / g }
}

/// Where `d` cuts `t`: the intersection of their lines, when they are not
/// parallel, it lies strictly inside `t`'s bounding box, and its lowest
/// terms are in range.
pub open spec fn cut_point(t: SegModel, d: SegModel) -> Option<PointModel> {
    let m = meet(t, d);
    if parallel(t, d) || !inside_box(t, m) || !point_in_range(lowest_terms(m)) {
        None
    } else {
        Some(lowest_terms(m))
    }
}

/// The two pieces of `t` cut by `d`'s line, each with `t`'s height.
pub open spec fn split_pieces(t: SegModel, d: SegModel) -> Option<(SegModel, SegModel)> {
    match cut_point(t, d) {
        Some(m) => Some(
            (
                SegModel { p0: t.p0, p1: m, height: t.height },
                SegModel { p0: m, p1: t.p1, height: t.height },
            ),
        ),
        None => None,
    }
}



/// The segment with its base points in the other order.
pub open spec fn flipped(s: SegModel) -> SegModel {
    SegModel { p0: s.p1, p1: s.p0, height: s.height }
}

/// The side value is the line form of `d`, times `-d.p0.w`.
proof fn lemma_side_value_is_line_form(d: SegModel, q: PointModel)
    ensures
        side_value(d, q) == -(d.p0.w * line_form(d, q)),
{
    lemma_side_identity(d.p0.x, d.p0.z, d.p0.w, d.p1.x, d.p1.z, d.p1.w, q.x, q.z, q.w);
}

/// A point whose plan numbers are `k` times those of `q` gives `k` times
/// `q`'s line form.
proof fn lemma_line_form_scale(d: SegModel, q: PointModel, p: PointModel, k: int)
    requires
        p.x == k * q.x,
        p.z == k * q.z,
        p.w == k * q.w,
    ensures
        line_form(d, p) == k * line_form(d, q),
{
    let (k1, k2, k3) = line_coefficients(d.p0, d.p1);
    lemma_scale_form(k, q.x, q.z, q.w, k1, k2, k3);
}

/// The intersection point lies on `d`'s line.
proof fn lemma_raw_meet_on_line(t: SegModel, d: SegModel)
    ensures
        ({
            let (x, z, w) = raw_meet(t, d);
            line_form(d, PointModel { x, y: t.p0.y, z, w }) == 0
        }),
{
    let (k1, k2, k3) = line_coefficients(d.p0, d.p1);
    lemma_combination_form(
        line_form(d, t.p0),
        line_form(d, t.p1),
        t.p0.x,
        t.p0.z,
        t.p0.w,
        t.p1.x,
        t.p1.z,
        t.p1.w,
        k1,
        k2,
        k3,
    );
}

/// Where `d` cuts `t`, the cut point lies on `d`'s line: so neither piece
/// of the cut straddles `d`.
pub proof fn lemma_cut_point_on_divider(t: SegModel, d: SegModel)
    requires
        seg_valid(t),
        seg_valid(d),
        cut_point(t, d) is Some,
    ensures
        side_value(d, cut_point(t, d)->0) == 0,
        split_pieces(t, d) matches Some((a, b)) ==> {
            &&& side_of(d, a) != Side::Neither
            &&& side_of(d, b) != Side::Neither
            &&& seg_valid(a)
            &&& seg_valid(b)
        },
{
    let m = meet(t, d);
    let lt = lowest_terms(m);
    let (x, z, w) = raw_meet(t, d);
    let raw = PointModel { x, y: t.p0.y, z, w };
    lemma_raw_meet_on_line(t, d);
    let sg = if w < 0 {
        -1int
    } else {
        1int
    };
    lemma_line_form_scale(d, raw, m, sg);
    assert(line_form(d, m) == 0);
    assert(m.w > 0) by {
        if m.w == 0 {
            lemma_zero_denominator_outside(t.p0.x, t.p0.w, m.x, t.p1.x, t.p1.w);
        }
    }
    let h = gcd(abs(m.z), abs(m.w));
    let g = plan_gcd(m);
    lemma_gcd_divides(abs(m.z), abs(m.w));
    lemma_gcd_divides(abs(m.x), h);
    lemma_divides_trans(g as int, h as int, abs(m.z) as int);
    lemma_divides_trans(g as int, h as int, abs(m.w) as int);
    lemma_divides_abs(g as int, m.x);
    lemma_divides_abs(g as int, m.z);
    lemma_divides_abs(g as int, m.w);
    lemma_line_form_scale(d, lt, m, g as int);
    lemma_zero_product(g as int, line_form(d, lt));
    lemma_side_value_is_line_form(d, lt);
    lemma_zero_product(d.p0.w, line_form(d, lt));
    let gi = g as int;
    assert(m.x == gi * lt.x && m.w == gi * lt.w);
    lemma_cancel_positive(t.p0.x, lt.w, lt.x, t.p0.w, gi);
    assert(lt.x * (gi * t.p1.w) < (gi * t.p1.x) * lt.w) by (nonlinear_arith)
        requires
            (gi * lt.x) * t.p1.w < t.p1.x * (gi * lt.w),
    ;
    lemma_cancel_positive(lt.x, t.p1.w, t.p1.x, lt.w, gi);
}

/// Flipping a segment reverses the sign of its side value at every point.
/// So for every other segment the classification after the flip is the
/// classification of the negated side values: front and back change
/// places, a straddling segment still straddles, and a segment on the line
/// stays in front.
pub proof fn lemma_flip_side(r: SegModel, o: SegModel)
    requires
        seg_valid(r),
    ensures
        side_of(flipped(r), o) == classify(-side_value(r, o.p0), -side_value(r, o.p1)),
{
    lemma_flip_sign(r, o.p0);
    lemma_flip_sign(r, o.p1);
}

proof fn lemma_flip_sign(r: SegModel, q: PointModel)
    requires
        seg_valid(r),
    ensures
        sgn(side_value(flipped(r), q)) == sgn(-side_value(r, q)),
{
    lemma_side_value_is_line_form(r, q);
    lemma_side_value_is_line_form(flipped(r), q);
    let l = line_form(r, q);
    let (k1, k2, k3) = line_coefficients(r.p0, r.p1);
    let (f1, f2, f3) = line_coefficients(r.p1, r.p0);
    assert(f1 == -k1 && f2 == -k2 && f3 == -k3) by (nonlinear_arith)
        requires
            (k1, k2, k3) == line_coefficients(r.p0, r.p1),
            (f1, f2, f3) == line_coefficients(r.p1, r.p0),
    ;
    lemma_scale_form(-1, k1, k2, k3, q.x, q.z, q.w);
    assert(q.x * f1 == (-1 * k1) * q.x && q.z * f2 == (-1 * k2) * q.z && q.w * f3 == (-1 * k3)
        * q.w) by (nonlinear_arith)
        requires
            f1 == -k1,
            f2 == -k2,
            f3 == -k3,
    ;
    assert(q.x * k1 - q.z * k2 + q.w * k3 == k1 * q.x - k2 * q.z + k3 * q.w) by (nonlinear_arith);
    assert(line_form(flipped(r), q) == -l);
    assert(-(r.p1.w * -l) == r.p1.w * l) by (nonlinear_arith);
    lemma_sgn_mul(r.p1.w, l);
    lemma_sgn_mul(r.p0.w, l);
    assert(side_value(flipped(r), q) == r.p1.w * l);
}

/// A point: plan position `(x / w, z / w)` and whole-number elevation `y`.
#[derive(Clone, Copy, Debug, PartialEq, Eq, Structural)]
pub struct Point {
    x: i64,
    y: i64,
    z: i64,
    w: i64,
}

impl View for Point {
    type V = PointModel;

    closed spec fn view(&self) -> PointModel {
        PointModel { x: self.x as int, y: self.y as int, z: self.z as int, w: self.w as int }
    }
}

impl Point {
    #[verifier::type_invariant]
    spec fn inv(self) -> bool {
        point_in_range(self@)
    }

    /// The point `(x, y, z)` with whole-number coordinates, if in range.
    pub fn new(x: i64, y: i64, z: i64) -> (r: Option<Point>)
        ensures
            r is Some <==> point_in_range(PointModel { x: x as int, y: y as int, z: z as int, w: 1 }),
            r is Some ==> r->0@ == (PointModel { x: x as int, y: y as int, z: z as int, w: 1 }),
    {
        Point::with_denominator(x, y, z, 1)
    }

    /// The point with plan position `(x / w, z / w)` and elevation `y`, if in range.
    pub fn with_denominator(x: i64, y: i64, z: i64, w: i64) -> (r: Option<Point>)
        ensures
            r is Some <==> point_in_range(
                PointModel { x: x as int, y: y as int, z: z as int, w: w as int },
            ),
            r is Some ==> r->0@ == (PointModel { x: x as int, y: y as int, z: z as int, w: w as int }),
    {
        if -PLAN_LIMIT < x && x < PLAN_LIMIT && -PLAN_LIMIT < z && z < PLAN_LIMIT && 0 < w && w
            < PLAN_LIMIT && -PLAN_LIMIT < y && y < PLAN_LIMIT {
            Some(Point { x, y, z, w })
        } else {
            None
        }
    }

    /// The numbers `(x, y, z, w)` that hold the point.
    pub fn coordinates(&self) -> (r: (i64, i64, i64, i64))
        ensures
            r.0 == self@.x && r.1 == self@.y && r.2 == self@.z && r.3 == self@.w,
    {
        (self.x, self.y, self.z, self.w)
    }
}


/// `(plan_dx(a, b), plan_dz(a, b))`, each of magnitude at most `2^61`.
fn plan_delta(a: Point, b: Point) -> (r: (i128, i128))
    ensures
        r.0 == plan_dx(a@, b@),
        r.1 == plan_dz(a@, b@),
        -0x2000_0000_0000_0000 <= r.0 <= 0x2000_0000_0000_0000,
        -0x2000_0000_0000_0000 <= r.1 <= 0x2000_0000_0000_0000,
{
    proof {
        use_type_invariant(a);
        use_type_invariant(b);
        lemma_mul_bound(a.x as int, b.w as int, 0x4000_0000, 0x4000_0000);
        lemma_mul_bound(b.x as int, a.w as int, 0x4000_0000, 0x4000_0000);
        lemma_mul_bound(a.z as int, b.w as int, 0x4000_0000, 0x4000_0000);
        lemma_mul_bound(b.z as int, a.w as int, 0x4000_0000, 0x4000_0000);
    }
    let dx = (a.x as i128) * (b.w as i128) - (b.x as i128) * (a.w as i128);
    let dz = (a.z as i128) * (b.w as i128) - (b.z as i128) * (a.w as i128);
    (dx, dz)
}

/// `cross_y` on vectors whose components are at most `2^61` in magnitude.
fn cross_y_exec(ux: i128, uz: i128, vx: i128, vz: i128) -> (r: i128)
    requires
        -0x2000_0000_0000_0000 <= ux <= 0x2000_0000_0000_0000,
        -0x2000_0000_0000_0000 <= uz <= 0x2000_0000_0000_0000,
        -0x2000_0000_0000_0000 <= vx <= 0x2000_0000_0000_0000,
        -0x2000_0000_0000_0000 <= vz <= 0x2000_0000_0000_0000,
    ensures
        r == cross_y(ux as int, uz as int, vx as int, vz as int),
{
    proof {
        lemma_mul_bound(uz as int, vx as int, 0x2000_0000_0000_0000, 0x2000_0000_0000_0000);
        lemma_mul_bound(ux as int, vz as int, 0x2000_0000_0000_0000, 0x2000_0000_0000_0000);
    }
    uz * vx - ux * vz
}

/// `line_form` of the line through `a` and `b` at `c`, of magnitude at most `2^93`.
fn line_form_exec(a: Point, b: Point, c: Point) -> (r: i128)
    ensures
        r == line_form(SegModel { p0: a@, p1: b@, height: 0 }, c@),
        -0x2000_0000_0000_0000_0000_0000 <= r <= 0x2000_0000_0000_0000_0000_0000,
{
    proof {
        use_type_invariant(a);
        use_type_invariant(b);
        use_type_invariant(c);
        lemma_mul_bound(a.z as int, b.w as int, 0x4000_0000, 0x4000_0000);
        lemma_mul_bound(a.w as int, b.z as int, 0x4000_0000, 0x4000_0000);
        lemma_mul_bound(a.x as int, b.w as int, 0x4000_0000, 0x4000_0000);
        lemma_mul_bound(a.w as int, b.x as int, 0x4000_0000, 0x4000_0000);
        lemma_mul_bound(a.x as int, b.z as int, 0x4000_0000, 0x4000_0000);
        lemma_mul_bound(a.z as int, b.x as int, 0x4000_0000, 0x4000_0000);
    }
    let (ax, az, aw) = (a.x as i128, a.z as i128, a.w as i128);
    let (bx, bz, bw) = (b.x as i128, b.z as i128, b.w as i128);
    let (cx, cz, cw) = (c.x as i128, c.z as i128, c.w as i128);
    let k1 = az * bw - aw * bz;
    let k2 = ax * bw - aw * bx;
    let k3 = ax * bz - az * bx;
    proof {
        lemma_mul_bound(cx as int, k1 as int, 0x4000_0000, 0x2000_0000_0000_0000);
        lemma_mul_bound(cz as int, k2 as int, 0x4000_0000, 0x2000_0000_0000_0000);
        lemma_mul_bound(cw as int, k3 as int, 0x4000_0000, 0x2000_0000_0000_0000);
    }
    cx * k1 - cz * k2 + cw * k3
}

/// A wall panel: two base points and a height above them.
#[derive(Clone, Copy, Debug, PartialEq, Eq, Structural)]
pub struct Seg {
    p0: Point,
    p1: Point,
    height: i64,
}

impl View for Seg {
    type V = SegModel;

    closed spec fn view(&self) -> SegModel {
        SegModel { p0: self.p0@, p1: self.p1@, height: self.height as int }
    }
}

/// The classification table applied to two cross products.
fn classify_exec(c0: i128, c1: i128) -> (r: Side)
    ensures
        r == classify(c0 as int, c1 as int),
{
    if (c0 < 0 && c1 > 0) || (c0 > 0 && c1 < 0) {
        Side::Neither
    } else if c0 < 0 || c1 < 0 {
        Side::Back
    } else {
        Side::Front
    }
}

/// `p` with its elevation raised by `h`.
fn raised(p: Point, h: i64) -> (r: Point)
    requires
        -ELEVATION_LIMIT < p@.y < ELEVATION_LIMIT,
        -ELEVATION_LIMIT < h < ELEVATION_LIMIT,
    ensures
        r@ == (PointModel { y: p@.y + h, ..p@ }),
{
    proof {
        use_type_invariant(p);
    }
    Point { y: p.y + h, ..p }
}

fn signum(v: i128) -> (r: i128)
    ensures
        r == sgn(v as int),
{
    if v < 0 {
        -1
    } else if v > 0 {
        1
    } else {
        0
    }
}

fn abs_exec(v: i128) -> (r: u128)
    requires
        v > i128::MIN,
    ensures
        r == abs(v as int),
{
    if v < 0 {
        (-v) as u128
    } else {
        v as u128
    }
}

fn gcd_exec(a: u128, b: u128) -> (r: u128)
    ensures
        r == gcd(a as nat, b as nat),
{
    let mut x = a;
    let mut y = b;
    while y != 0
        invariant
            gcd(x as nat, y as nat) == gcd(a as nat, b as nat),
        decreases y,
    {
        let t = x % y;
        x = y;
        y = t;
    }
    x
}

/// The two bounds of `strictly_between` for the point `sg * (l1 * a - l0 * b)`
/// over `sg * (l1 * aw - l0 * bw)`, told by signs alone.
proof fn lemma_between_by_signs(a: int, aw: int, b: int, bw: int, l0: int, l1: int, sg: int)
    requires
        sg == 1 || sg == -1,
    ensures
        strictly_between(a, aw, sg * (l1 * a - l0 * b), sg * (l1 * aw - l0 * bw), b, bw) == (sg
            * (sgn(l0) * sgn(b * aw - a * bw)) < 0 && sg * (sgn(l1) * sgn(b * aw - a * bw)) > 0),
{
    let e = b * aw - a * bw;
    let ux = l1 * a - l0 * b;
    let uw = l1 * aw - l0 * bw;
    assert(a * uw - ux * aw == l0 * e) by (nonlinear_arith)
        requires
            ux == l1 * a - l0 * b,
            uw == l1 * aw - l0 * bw,
            e == b * aw - a * bw,
    ;
    assert(ux * bw - b * uw == -(l1 * e)) by (nonlinear_arith)
        requires
            ux == l1 * a - l0 * b,
            uw == l1 * aw - l0 * bw,
            e == b * aw - a * bw,
    ;
    assert(a * (sg * uw) - (sg * ux) * aw == sg * (a * uw - ux * aw)) by (nonlinear_arith);
    assert((sg * ux) * bw - b * (sg * uw) == sg * (ux * bw - b * uw)) by (nonlinear_arith);
    assert(sg * (-(l1 * e)) == -(sg * (l1 * e))) by (nonlinear_arith);
    lemma_sgn_mul(l0, e);
    lemma_sgn_mul(l1, e);
    lemma_sgn_mul(sg, l0 * e);
    lemma_sgn_mul(sg, l1 * e);
}

/// From `a * (g * b) < (g * c) * d` with `g > 0`, cancel `g`.
proof fn lemma_cancel_positive(a: int, b: int, c: int, d: int, g: int)
    requires
        g > 0,
        a * (g * b) < (g * c) * d,
    ensures
        a * b < c * d,
{
    assert(g * (a * b - c * d) < 0) by (nonlinear_arith)
        requires
            a * (g * b) < (g * c) * d,
    ;
    assert(a * b < c * d) by (nonlinear_arith)
        requires
            g > 0,
            g * (a * b - c * d) < 0,
    ;
}

impl Seg {
    #[verifier::type_invariant]
    spec fn inv(self) -> bool {
        seg_valid(self@)
    }

    /// The segment from `points.0` to `points.1` with the given height, if its
    /// base points stand apart on the plan and its numbers are in range.
    pub fn new(points: (Point, Point), height: i64) -> (r: Option<Seg>)
        ensures
            r is Some <==> seg_valid(SegModel { p0: points.0@, p1: points.1@, height: height as int }),
            r is Some ==> r->0@ == (SegModel { p0: points.0@, p1: points.1@, height: height as int }),
    {
        proof {
            use_type_invariant(points.0);
            use_type_invariant(points.1);
        }
        let (dx, dz) = plan_delta(points.0, points.1);
        if dx == 0 && dz == 0 {
            return None;
        }
        if -ELEVATION_LIMIT < height && height < ELEVATION_LIMIT && -ELEVATION_LIMIT < points.0.y
            && points.0.y < ELEVATION_LIMIT && -ELEVATION_LIMIT < points.1.y && points.1.y
            < ELEVATION_LIMIT {
            Some(Seg { p0: points.0, p1: points.1, height })
        } else {
            None
        }
    }

    /// Brings this segment's invariant into a proof.
    pub(crate) fn reveal_valid(&self)
        ensures
            seg_valid(self@),
    {
        proof {
            use_type_invariant(self);
        }
    }

    /// The two base points.
    pub fn points(&self) -> (r: (Point, Point))
        ensures
            r.0@ == self@.p0 && r.1@ == self@.p1,
    {
        (self.p0, self.p1)
    }

    /// Height of the wall above its base points.
    pub fn height(&self) -> (r: i64)
        ensures
            r == self@.height,
    {
        self.height
    }

    /// The four corners of the wall: the two base points, then the two top
    /// points, which stand `height` higher on the vertical (y) axis.
    pub fn get_corners(&self) -> (r: (Point, Point, Point, Point))
        ensures
            r.0@ == self@.p0,
            r.1@ == self@.p1,
            r.2@ == (PointModel { y: self@.p0.y + self@.height, ..self@.p0 }),
            r.3@ == (PointModel { y: self@.p1.y + self@.height, ..self@.p1 }),
    {
        proof {
            use_type_invariant(self);
        }
        (self.p0, self.p1, raised(self.p0, self.height), raised(self.p1, self.height))
    }

    /// Gradient on the plan as `(rise, run)`: the slope is `rise / run`, and
    /// a vertical segment has `run == 0`.
    pub fn xz_gradient(&self) -> (r: (i128, i128))
        ensures
            r.0 == rise(self@),
            r.1 == run(self@),
    {
        let (dx, dz) = plan_delta(self.p1, self.p0);
        (dz, dx)
    }

    /// Whether the two segments' gradients differ, so that their lines meet.
    pub fn intersects(&self, line: Seg) -> (r: bool)
        ensures
            r == !parallel(self@, line@),
    {
        let (run_a, rise_a) = plan_delta(self.p1, self.p0);
        let (run_b, rise_b) = plan_delta(line.p1, line.p0);
        proof {
            lemma_mul_bound(rise_a as int, run_b as int, 0x2000_0000_0000_0000, 0x2000_0000_0000_0000);
            lemma_mul_bound(rise_b as int, run_a as int, 0x2000_0000_0000_0000, 0x2000_0000_0000_0000);
        }
        rise_a * run_b != rise_b * run_a
    }

    /// The plan vector `(x, z)` perpendicular to the wall on its front side;
    /// it is not normalized.
    pub fn normal(&self) -> (r: (i128, i128))
        ensures
            r.0 == rise(self@),
            r.1 == -run(self@),
    {
        let (run, rise) = plan_delta(self.p1, self.p0);
        (rise, -run)
    }

    /// Swaps the order of the two base points.
    pub fn flip(&mut self)
        ensures
            final(self)@ == flipped(old(self)@),
    {
        proof {
            use_type_invariant(&*self);
        }
        *self = Seg { p0: self.p1, p1: self.p0, height: self.height };
    }

    /// Which side of this segment's directed line `other` stands on; front
    /// is the side that `normal` points to.
    pub fn determine_side(&self, other: Seg) -> (r: Side)
        ensures
            r == side_of(self@, other@),
    {
        let (run, rise) = plan_delta(self.p1, self.p0);
        let (v0x, v0z) = plan_delta(other.p0, self.p0);
        let (v1x, v1z) = plan_delta(other.p1, self.p0);
        let c0 = cross_y_exec(run, rise, v0x, v0z);
        let c1 = cross_y_exec(run, rise, v1x, v1z);
        classify_exec(c0, c1)
    }

    /// Cuts this segment where `line`'s supporting line crosses it: the
    /// pieces `p0 -> m` and `m -> p1`, both with this segment's height, where
    /// `m` is the intersection point. No cut when the two are parallel, when
    /// `m` is not strictly inside this segment's bounding box (from `p0` up to
    /// `p1` on both plan axes), or when `m`'s numbers leave the range. Neither
    /// piece straddles `line`.
    pub fn split_by(&self, line: Seg) -> (r: Option<(Seg, Seg)>)
        ensures
            match r {
                Some((a, b)) => split_pieces(self@, line@) == Some((a@, b@)),
                None => split_pieces(self@, line@) is None,
            },
            parallel(self@, line@) ==> r is None,
            r matches Some((a, b)) ==> {
                &&& a@.p0 == self@.p0
                &&& a@.p1 == b@.p0
                &&& b@.p1 == self@.p1
                &&& a@.height == self@.height
                &&& b@.height == self@.height
                &&& side_of(line@, a@) != Side::Neither
                &&& side_of(line@, b@) != Side::Neither
            },
    {
        proof {
            use_type_invariant(self);
        }
        if !self.intersects(line) {
            return None;
        }
        let t0 = self.p0;
        let t1 = self.p1;
        proof {
            use_type_invariant(t0);
            use_type_invariant(t1);
        }
        let l0 = line_form_exec(line.p0, line.p1, t0);
        let l1 = line_form_exec(line.p0, line.p1, t1);
        let (x0, z0, w0) = (t0.x as i128, t0.z as i128, t0.w as i128);
        let (x1, z1, w1) = (t1.x as i128, t1.z as i128, t1.w as i128);
        proof {
            let lb = 0x2000_0000_0000_0000_0000_0000int;
            lemma_mul_bound(l1 as int, x0 as int, lb, 0x4000_0000);
            lemma_mul_bound(l0 as int, x1 as int, lb, 0x4000_0000);
            lemma_mul_bound(l1 as int, z0 as int, lb, 0x4000_0000);
            lemma_mul_bound(l0 as int, z1 as int, lb, 0x4000_0000);
            lemma_mul_bound(l1 as int, w0 as int, lb, 0x4000_0000);
            lemma_mul_bound(l0 as int, w1 as int, lb, 0x4000_0000);
        }
        let raw_x = l1 * x0 - l0 * x1;
        let raw_z = l1 * z0 - l0 * z1;
        let raw_w = l1 * w0 - l0 * w1;
        let sg: i128 = if raw_w < 0 {
            -1
        } else {
            1
        };
        let (run, rise) = plan_delta(t1, t0);
        let s0 = signum(l0);
        let s1 = signum(l1);
        let sr = signum(run);
        let sz = signum(rise);
        proof {
            lemma_between_by_signs(x0 as int, w0 as int, x1 as int, w1 as int, l0 as int, l1 as int, sg as int);
            lemma_between_by_signs(z0 as int, w0 as int, z1 as int, w1 as int, l0 as int, l1 as int, sg as int);
        }
        let ghost m = meet(self@, line@);
        if !(sg * (s0 * sr) < 0 && sg * (s1 * sr) > 0 && sg * (s0 * sz) < 0 && sg * (s1 * sz) > 0) {
            assert(!inside_box(self@, m));
            return None;
        }
        let mx = sg * raw_x;
        let mz = sg * raw_z;
        let mw = sg * raw_w;
        assert(m.x == mx && m.z == mz && m.w == mw && m.y == t0.y);
        assert(inside_box(self@, m));
        assert(mw > 0) by {
            if mw == 0 {
                lemma_zero_denominator_outside(x0 as int, w0 as int, mx as int, x1 as int, w1 as int);
            }
        }
        let ax = abs_exec(mx);
        let az = abs_exec(mz);
        let aw = mw as u128;
        let h = gcd_exec(az, aw);
        let g = gcd_exec(ax, h);
        proof {
            lemma_gcd_divides(az as nat, aw as nat);
            lemma_gcd_divides(ax as nat, h as nat);
            lemma_divides_trans(g as int, h as int, az as int);
            lemma_divides_trans(g as int, h as int, aw as int);
            lemma_divides_abs(g as int, mx as int);
            lemma_divides_abs(g as int, mz as int);
            assert(g as int == plan_gcd(m) as int);
        }
        let qx = ax / g;
        let qz = az / g;
        let qw = aw / g;
        let ghost lt = lowest_terms(m);
        proof {
            if mx < 0 {
                assert(mx as int == (g as int) * -(qx as int)) by (nonlinear_arith)
                    requires
                        ax as int == (g as int) * (qx as int),
                        mx as int == -(ax as int),
                ;
                lemma_divides_of_multiple(g as int, -(qx as int), mx as int);
            }
            if mz < 0 {
                assert(mz as int == (g as int) * -(qz as int)) by (nonlinear_arith)
                    requires
                        az as int == (g as int) * (qz as int),
                        mz as int == -(az as int),
                ;
                lemma_divides_of_multiple(g as int, -(qz as int), mz as int);
            }
            assert(lt.x == if mx < 0 { -(qx as int) } else { qx as int });
            assert(lt.z == if mz < 0 { -(qz as int) } else { qz as int });
            assert(lt.w == qw as int);
            assert(qw > 0) by (nonlinear_arith)
                requires
                    aw as int == (g as int) * (qw as int),
                    aw > 0,
                    g > 0,
            ;
        }
        if qx >= PLAN_LIMIT as u128 || qz >= PLAN_LIMIT as u128 || qw >= PLAN_LIMIT as u128 {
            return None;
        }
        let rx: i64 = if mx < 0 {
            -(qx as i64)
        } else {
            qx as i64
        };
        let rz: i64 = if mz < 0 {
            -(qz as i64)
        } else {
            qz as i64
        };
        let cut = Point { x: rx, y: t0.y, z: rz, w: qw as i64 };
        assert(cut@ == lt);
        proof {
            lemma_cancel_positive(x0 as int, qw as int, rx as int, w0 as int, g as int);
            assert((rx as int) * ((g as int) * (w1 as int)) < ((g as int) * (x1 as int)) * (qw as int))
                by (nonlinear_arith)
                requires
                    ((g as int) * (rx as int)) * (w1 as int) < (x1 as int) * ((g as int) * (qw as int)),
            ;
            lemma_cancel_positive(rx as int, w1 as int, x1 as int, qw as int, g as int);
            use_type_invariant(line);
            lemma_cut_point_on_divider(self@, line@);
        }
        Some(
            (
                Seg { p0: t0, p1: cut, height: self.height },
                Seg { p0: cut, p1: t1, height: self.height },
            ),
        )
    }
}

} // verus!
