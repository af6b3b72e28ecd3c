//! Geometric region variants over device coordinates, each with an exact
//! integer point-containment test.

use crate::evdev::Position;
use vstd::math::abs;
use vstd::prelude::*;

verus! {

/// A closed set of region variants: an axis-aligned rectangle, a triangle,
/// and a parallelogram spanned by two basis vectors from a base corner.
#[derive(Debug, Clone, PartialEq, Eq, Structural)]
pub enum Shape {
    Rectangle { x: i32, y: i32, width: i32, height: i32 },
    Triangle { a: Position, b: Position, c: Position },
    Parallelogram { base: Position, u: Position, v: Position },
}

/// The doubled signed area of triangle (a, b, c), by the shoelace formula.
/// Doubling keeps the value an integer, so containment tests stay exact.
pub open spec fn signed_area2(a: Position, b: Position, c: Position) -> int {
    a.x as int * (b.y as int - c.y as int) + b.x as int * (c.y as int - a.y as int) + c.x as int * (
    a.y as int - b.y as int)
}

/// Whether the rational n/det lies in [0, 1], stated without division.
pub open spec fn in_unit_interval(n: int, det: int) -> bool {
    if det > 0 {
        0 <= n <= det
    } else {
        det <= n <= 0
    }
}

proof fn lemma_mul_bounds(a: int, b: int, m: int, n: int)
    requires
        -m <= a <= m,
        -n <= b <= n,
        0 <= m,
        0 <= n,
    ensures
        -(m * n) <= a * b <= m * n,
{
    assert(-(m * n) <= a * b <= m * n) by (nonlinear_arith)
        requires
            -m <= a <= m,
            -n <= b <= n,
            0 <= m,
            0 <= n,
    ;
}

/// The doubled unsigned area of triangle (a, b, c), computed exactly in
/// integer arithmetic (no rounding, as the edge-inclusive test demands).
fn area2(a: &Position, b: &Position, c: &Position) -> (r: i128)
    ensures
        r as int == abs(signed_area2(*a, *b, *c)),
        0 <= r as int <= 0x30000000000000000,
{
    let ax = a.x as i128;
    let ay = a.y as i128;
    let bx = b.x as i128;
    let by = b.y as i128;
    let cx = c.x as i128;
    let cy = c.y as i128;
    proof {
        lemma_mul_bounds(ax as int, by as int - cy as int, 0x80000000, 0x100000000);
        lemma_mul_bounds(bx as int, cy as int - ay as int, 0x80000000, 0x100000000);
        lemma_mul_bounds(cx as int, ay as int - by as int, 0x80000000, 0x100000000);
    }
    let s = ax * (by - cy) + bx * (cy - ay) + cx * (ay - by);
    if s < 0 {
        -s
    } else {
        s
    }
}

impl Shape {
    /// Exact containment: a rectangle is left/top-inclusive and right/bottom-
    /// exclusive; a triangle contains a point iff the three sub-triangle
    /// areas sum to the whole area (edge-inclusive by exactness); a
    /// parallelogram contains a point iff its coefficients in the (u, v)
    /// basis both lie in [0, 1] (corner- and edge-inclusive).
    pub open spec fn spec_contains(self, p: Position) -> bool {
        match self {
            Shape::Rectangle { x, y, width, height } => {
                &&& x as int <= p.x as int
                &&& (p.x as int) < x as int + width as int
                &&& y as int <= p.y as int
                &&& (p.y as int) < y as int + height as int
            },
            Shape::Triangle { a, b, c } => {
                abs(signed_area2(a, b, p)) + abs(signed_area2(b, c, p)) + abs(signed_area2(c, a, p))
                    == abs(signed_area2(a, b, c))
            },
            Shape::Parallelogram { base, u, v } => {
                let det = u.x as int * v.y as int - v.x as int * u.y as int;
                let dx = p.x as int - base.x as int;
                let dy = p.y as int - base.y as int;
                let nu = dx * (v.y as int) - dy * (v.x as int);
                let nv = dy * (u.x as int) - dx * (u.y as int);
                det != 0 && in_unit_interval(nu, det) && in_unit_interval(nv, det)
            },
        }
    }

    /// A parallelogram's basis vectors must not be collinear (non-zero
    /// determinant); a collinear basis is an invalid layout, rejected at
    /// construction time rather than answered at query time.
    pub open spec fn wf(self) -> bool {
        match self {
            Shape::Parallelogram { base, u, v } => u.x as int * v.y as int - v.x as int * u.y as int
                != 0,
            _ => true,
        }
    }

    pub fn contains(&self, position: Position) -> (r: bool)
        requires
            self.wf(),
        ensures
            r == self.spec_contains(position),
    {
        match self {
            Shape::Rectangle { x, y, width, height } => {
                let x_in = position.x >= *x && (position.x as i64) < (*x as i64) + (*width as i64);
                let y_in = position.y >= *y && (position.y as i64) < (*y as i64) + (*height
                    as i64);
                x_in && y_in
            },
            Shape::Triangle { a, b, c } => {
                let abp_area = area2(a, b, &position);
                let bcp_area = area2(b, c, &position);
                let cap_area = area2(c, a, &position);
                let abc_area = area2(a, b, c);
                abp_area + bcp_area + cap_area == abc_area
            },
            Shape::Parallelogram { base, u, v } => {
                let ux = u.x as i128;
                let uy = u.y as i128;
                let vx = v.x as i128;
                let vy = v.y as i128;
                let dx = (position.x as i128) - (base.x as i128);
                let dy = (position.y as i128) - (base.y as i128);
                proof {
                    lemma_mul_bounds(ux as int, vy as int, 0x80000000, 0x80000000);
                    lemma_mul_bounds(vx as int, uy as int, 0x80000000, 0x80000000);
                    lemma_mul_bounds(dx as int, vy as int, 0x100000000, 0x80000000);
                    lemma_mul_bounds(dy as int, vx as int, 0x100000000, 0x80000000);
                    lemma_mul_bounds(dy as int, ux as int, 0x100000000, 0x80000000);
                    lemma_mul_bounds(dx as int, uy as int, 0x100000000, 0x80000000);
                }
                let det = ux * vy - vx * uy;
                let nu = dx * vy - dy * vx;
                let nv = dy * ux - dx * uy;
                if det > 0 {
                    0 <= nu && nu <= det && 0 <= nv && nv <= det
                } else {
                    det <= nu && nu <= 0 && det <= nv && nv <= 0
                }
            },
        }
    }

    /// The outline's vertices in rendering order, as mathematical integers.
    pub open spec fn spec_vertices(self) -> Seq<(int, int)> {
        match self {
            Shape::Rectangle { x, y, width, height } => seq![
                (x as int, y as int),
                (x as int + width as int, y as int),
                (x as int + width as int, y as int + height as int),
                (x as int, y as int + height as int),
            ],
            Shape::Triangle { a, b, c } => seq![
                (a.x as int, a.y as int),
                (b.x as int, b.y as int),
                (c.x as int, c.y as int),
            ],
            Shape::Parallelogram { base, u, v } => seq![
                (base.x as int, base.y as int),
                (base.x as int + u.x as int, base.y as int + u.y as int),
                (
                    base.x as int + u.x as int + v.x as int,
                    base.y as int + u.y as int + v.y as int,
                ),
                (base.x as int + v.x as int, base.y as int + v.y as int),
            ],
        }
    }

    /// Whether every vertex coordinate fits the device coordinate type.
    pub open spec fn vertices_in_range(self) -> bool {
        forall|i: int|
            0 <= i < self.spec_vertices().len() ==> {
                let p = #[trigger] self.spec_vertices()[i];
                i32::MIN <= p.0 <= i32::MAX && i32::MIN <= p.1 <= i32::MAX
            }
    }

    /// The vertex list of the shape's outline, in rendering order; scaling
    /// to a target surface is left to the rendering collaborator.
    pub fn vertices(&self) -> (r: Vec<Position>)
        requires
            self.vertices_in_range(),
        ensures
            r@.len() == self.spec_vertices().len(),
            forall|i: int|
                0 <= i < r@.len() ==> (#[trigger] r@[i]).x as int == self.spec_vertices()[i].0
                    && r@[i].y as int == self.spec_vertices()[i].1,
    {
        let mut result: Vec<Position> = Vec::new();
        match self {
            Shape::Rectangle { x, y, width, height } => {
                proof {
                    assert(self.spec_vertices()[1] == (
                        *x as int + *width as int,
                        *y as int,
                    ));
                    assert(self.spec_vertices()[2] == (
                        *x as int + *width as int,
                        *y as int + *height as int,
                    ));
                    assert(self.spec_vertices()[3] == (*x as int, *y as int + *height as int));
                }
                let x2 = *x + *width;
                let y2 = *y + *height;
                result.push(Position { x: *x, y: *y });
                result.push(Position { x: x2, y: *y });
                result.push(Position { x: x2, y: y2 });
                result.push(Position { x: *x, y: y2 });
            },
            Shape::Triangle { a, b, c } => {
                result.push(*a);
                result.push(*b);
                result.push(*c);
            },
            Shape::Parallelogram { base, u, v } => {
                proof {
                    assert(self.spec_vertices()[1] == (
                        base.x as int + u.x as int,
                        base.y as int + u.y as int,
                    ));
                    assert(self.spec_vertices()[2] == (
                        base.x as int + u.x as int + v.x as int,
                        base.y as int + u.y as int + v.y as int,
                    ));
                    assert(self.spec_vertices()[3] == (
                        base.x as int + v.x as int,
                        base.y as int + v.y as int,
                    ));
                }
                let ux = base.x + u.x;
                let uy = base.y + u.y;
                let wx = ux + v.x;
                let wy = uy + v.y;
                let sx = base.x + v.x;
                let sy = base.y + v.y;
                result.push(*base);
                result.push(Position { x: ux, y: uy });
                result.push(Position { x: wx, y: wy });
                result.push(Position { x: sx, y: sy });
            },
        }
        result
    }
}

/// Law: rectangle containment is left/top-inclusive and right/bottom-
/// exclusive: the corner (x, y) of a non-empty rectangle is contained, and a
/// point exactly at x + width or y + height never is.
pub proof fn lemma_rectangle_boundaries(x: i32, y: i32, width: i32, height: i32, p: Position)
    ensures
        p.x as int == x as int + width as int ==> !(Shape::Rectangle { x, y, width, height })
            .spec_contains(p),
        p.y as int == y as int + height as int ==> !(Shape::Rectangle { x, y, width, height })
            .spec_contains(p),
        (p.x == x && p.y == y && width > 0 && height > 0) ==> (Shape::Rectangle {
            x,
            y,
            width,
            height,
        }).spec_contains(p),
{
}

/// Law: parallelogram containment is corner-inclusive: every corner
/// base + s·u + t·v with s, t ∈ {0, 1} of a non-degenerate parallelogram is
/// contained.
pub proof fn lemma_parallelogram_corners(base: Position, u: Position, v: Position, s: int, t: int, p: Position)
    requires
        (Shape::Parallelogram { base, u, v }).wf(),
        s == 0 || s == 1,
        t == 0 || t == 1,
        p.x as int == base.x as int + s * u.x as int + t * v.x as int,
        p.y as int == base.y as int + s * u.y as int + t * v.y as int,
    ensures
        (Shape::Parallelogram { base, u, v }).spec_contains(p),
{
    let ux = u.x as int;
    let uy = u.y as int;
    let vx = v.x as int;
    let vy = v.y as int;
    let det = ux * vy - vx * uy;
    let dx = p.x as int - base.x as int;
    let dy = p.y as int - base.y as int;
    let nu = dx * vy - dy * vx;
    let nv = dy * ux - dx * uy;
    assert(nu == s * det) by (nonlinear_arith)
        requires
            dx == s * ux + t * vx,
            dy == s * uy + t * vy,
            nu == dx * vy - dy * vx,
            det == ux * vy - vx * uy,
    ;
    assert(nv == t * det) by (nonlinear_arith)
        requires
            dx == s * ux + t * vx,
            dy == s * uy + t * vy,
            nv == dy * ux - dx * uy,
            det == ux * vy - vx * uy,
    ;
    assert(in_unit_interval(nu, det)) by (nonlinear_arith)
        requires
            nu == s * det,
            s == 0 || s == 1,
            det != 0,
    ;
    assert(in_unit_interval(nv, det)) by (nonlinear_arith)
        requires
            nv == t * det,
            t == 0 || t == 1,
            det != 0,
    ;
}

} // verus!
