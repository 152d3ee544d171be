//! Shapes with one capability, computing an area, and a registry that holds
//! an ordered sequence of them and evaluates that capability uniformly.
//!
//! Lengths are carried as fixed-point integers in thousandths of a unit
//! (milli-units), so a radius of five units is `5000`. An area is then an
//! exact integer quantity in millionths of a square unit (micro-square-units),
//! kept in two parts: a coefficient of pi and a plain part. The area of a
//! circle of radius `r` milli-units is `pi * r * r` micro-square-units and the
//! area of a square of side `s` milli-units is `s * s` micro-square-units, so
//! both parts are exact; a caller that wants a floating-point reading scales
//! by its own value of pi and divides by one million.

use vstd::prelude::*;

verus! {

/// The largest possible squared dimension in micro-square-units:
/// the square of the largest milli-unit length.
pub const MAX_SQUARED_MICRO: u128 = 0xffff_ffff * 0xffff_ffff;

/// A shape, tagged by its concrete kind, each kind carrying its own
/// dimensions in milli-units.
#[derive(Clone, Copy, Debug, PartialEq, Eq, Structural)]
pub enum Shape {
    Circle { radius_milli: u32 },
    Square { side_milli: u32 },
}

/// Raised by the validating constructors when a dimension is not positive.
#[derive(Clone, Copy, Debug, PartialEq, Eq, Structural)]
pub enum GeometryError {
    NonPositiveDimension,
}

/// An exact area in micro-square-units: `pi_micro` counts multiples of pi,
/// `micro` counts plain micro-square-units.
#[derive(Clone, Copy, Debug, PartialEq, Eq, Structural)]
pub struct Area {
    pub pi_micro: u128,
    pub micro: u128,
}

/// The pi-coefficient of a shape's area, in micro-square-units.
pub open spec fn area_pi_micro(shape: Shape) -> int {
    match shape {
        Shape::Circle { radius_milli } => radius_milli * radius_milli,
        Shape::Square { side_milli: _ } => 0,
    }
}

/// The plain part of a shape's area, in micro-square-units.
pub open spec fn area_unit_micro(shape: Shape) -> int {
    match shape {
        Shape::Circle { radius_milli: _ } => 0,
        Shape::Square { side_milli } => side_milli * side_milli,
    }
}

/// A shape is well-formed when its dimension is positive; a zero dimension
/// makes the area meaningless.
pub open spec fn wf_shape(shape: Shape) -> bool {
    match shape {
        Shape::Circle { radius_milli } => radius_milli > 0,
        Shape::Square { side_milli } => side_milli > 0,
    }
}

impl Shape {
    /// Builds a circle, rejecting a non-positive radius.
    pub fn circle(radius_milli: u32) -> (r: Result<Shape, GeometryError>)
        ensures
            radius_milli > 0 ==> r == Ok::<Shape, GeometryError>(
                Shape::Circle { radius_milli },
            ),
            radius_milli == 0 ==> r == Err::<Shape, GeometryError>(
                GeometryError::NonPositiveDimension,
            ),
            r is Ok ==> wf_shape(r->Ok_0),
    {
        if radius_milli == 0 {
            Err(GeometryError::NonPositiveDimension)
        } else {
            Ok(Shape::Circle { radius_milli })
        }
    }

    /// Builds a square, rejecting a non-positive side.
    pub fn square(side_milli: u32) -> (r: Result<Shape, GeometryError>)
        ensures
            side_milli > 0 ==> r == Ok::<Shape, GeometryError>(Shape::Square { side_milli }),
            side_milli == 0 ==> r == Err::<Shape, GeometryError>(
                GeometryError::NonPositiveDimension,
            ),
            r is Ok ==> wf_shape(r->Ok_0),
    {
        if side_milli == 0 {
            Err(GeometryError::NonPositiveDimension)
        } else {
            Ok(Shape::Square { side_milli })
        }
    }

    /// Dispatches to the concrete kind's area formula.
    pub fn area(&self) -> (r: Area)
        ensures
            r.pi_micro == area_pi_micro(*self),
            r.micro == area_unit_micro(*self),
            r.pi_micro <= MAX_SQUARED_MICRO,
            r.micro <= MAX_SQUARED_MICRO,
    {
        match *self {
            Shape::Circle { radius_milli } => {
                let r64: u64 = radius_milli as u64;
                assert(r64 * r64 <= 0xffff_ffff * 0xffff_ffff) by (nonlinear_arith)
                    requires
                        r64 <= 0xffff_ffff,
                ;
                Area { pi_micro: (r64 * r64) as u128, micro: 0 }
            },
            Shape::Square { side_milli } => {
                let s64: u64 = side_milli as u64;
                assert(s64 * s64 <= 0xffff_ffff * 0xffff_ffff) by (nonlinear_arith)
                    requires
                        s64 <= 0xffff_ffff,
                ;
                Area { pi_micro: 0, micro: (s64 * s64) as u128 }
            },
        }
    }
}

/// The pi-coefficient of the summed area of a sequence of shapes.
pub open spec fn total_pi_micro(shapes: Seq<Shape>) -> int
    decreases shapes.len(),
{
    if shapes.len() == 0 {
        0
    } else {
        total_pi_micro(shapes.drop_last()) + area_pi_micro(shapes.last())
    }
}

/// The plain part of the summed area of a sequence of shapes.
pub open spec fn total_unit_micro(shapes: Seq<Shape>) -> int
    decreases shapes.len(),
{
    if shapes.len() == 0 {
        0
    } else {
        total_unit_micro(shapes.drop_last()) + area_unit_micro(shapes.last())
    }
}

/// An ordered collection of shapes, evaluated uniformly.
pub struct ShapeRegistry {
    pub shapes: Vec<Shape>,
}

impl ShapeRegistry {
    /// An empty registry.
    pub fn new() -> (r: ShapeRegistry)
        ensures
            r.shapes@ == Seq::<Shape>::empty(),
    {
        ShapeRegistry { shapes: Vec::new() }
    }

    /// Appends a shape; insertion order is preserved and duplicates are
    /// allowed.
    pub fn add(&mut self, shape: Shape)
        ensures
            final(self).shapes@ == old(self).shapes@.push(shape),
    {
        self.shapes.push(shape);
    }

    /// Evaluates the area capability of one shape, uniformly over kinds.
    pub fn area_of(&self, shape: &Shape) -> (r: Area)
        ensures
            r.pi_micro == area_pi_micro(*shape),
            r.micro == area_unit_micro(*shape),
    {
        shape.area()
    }

    /// Sums the areas over the ordered sequence; an empty registry totals
    /// zero.
    pub fn total_area(&self) -> (r: Area)
        ensures
            r.pi_micro == total_pi_micro(self.shapes@),
            r.micro == total_unit_micro(self.shapes@),
            self.shapes@.len() == 0 ==> r == (Area { pi_micro: 0, micro: 0 }),
    {
        let mut pi_sum: u128 = 0;
        let mut unit_sum: u128 = 0;
        let mut i: usize = 0;
        while i < self.shapes.len()
            invariant
                i <= self.shapes@.len(),
                pi_sum == total_pi_micro(self.shapes@.take(i as int)),
                unit_sum == total_unit_micro(self.shapes@.take(i as int)),
                pi_sum <= i * MAX_SQUARED_MICRO,
                unit_sum <= i * MAX_SQUARED_MICRO,
            decreases self.shapes@.len() - i,
        {
            let a = self.shapes[i].area();
            proof {
                assert(self.shapes@.take(i + 1).drop_last() =~= self.shapes@.take(i as int));
                assert(self.shapes@.take(i + 1).last() == self.shapes@[i as int]);
                assert((i + 1) * MAX_SQUARED_MICRO == i * MAX_SQUARED_MICRO + MAX_SQUARED_MICRO)
                    by (nonlinear_arith);
                assert(i + 1 <= 0xffff_ffff_ffff_ffffu64);
                assert((i + 1) * MAX_SQUARED_MICRO <= 0xffff_ffff_ffff_ffff * MAX_SQUARED_MICRO)
                    by (nonlinear_arith)
                    requires
                        i + 1 <= 0xffff_ffff_ffff_ffffu64,
                ;
            }
            pi_sum = pi_sum + a.pi_micro;
            unit_sum = unit_sum + a.micro;
            i = i + 1;
        }
        proof {
            assert(self.shapes@.take(self.shapes@.len() as int) =~= self.shapes@);
        }
        Area { pi_micro: pi_sum, micro: unit_sum }
    }
}

} // verus!
