use vstd::prelude::*;

verus! {

/// A vector in polar form: its direction in quarter turns and its length in
/// ten-thousandths of a unit.
#[derive(Clone, Copy, PartialEq, Eq, Debug)]
pub struct PolarVector {
    pub quarter_turns: u32,
    pub length_e4: u32,
}

/// The starting state of one simulated body: its mass, position and velocity.
#[derive(Clone, Copy, PartialEq, Eq, Debug)]
pub struct Body {
    pub mass: u32,
    pub position: PolarVector,
    pub velocity: PolarVector,
}

/// The body with the given mass, position and velocity.
pub open spec fn body(mass: u32, pq: u32, pl: u32, vq: u32, vl: u32) -> Body {
    Body {
        mass,
        position: PolarVector { quarter_turns: pq, length_e4: pl },
        velocity: PolarVector { quarter_turns: vq, length_e4: vl },
    }
}

/// A three-body system: a heavy body at rest at the origin, a lighter one at half a unit
/// moving a quarter turn from its bearing, and a small one just outside it, moving faster.
pub fn generate_3_body() -> (r: Vec<Body>)
    ensures
        r@ == seq![body(10000, 0, 0, 0, 0), body(100, 0, 5000, 1, 10), body(10, 0, 5500, 1, 13)],
{
    let mut bodies: Vec<Body> = Vec::new();
    bodies.push(
        Body {
            mass: 10000,
            position: PolarVector { quarter_turns: 0, length_e4: 0 },
            velocity: PolarVector { quarter_turns: 0, length_e4: 0 },
        },
    );
    bodies.push(
        Body {
            mass: 100,
            position: PolarVector { quarter_turns: 0, length_e4: 5000 },
            velocity: PolarVector { quarter_turns: 1, length_e4: 10 },
        },
    );
    bodies.push(
        Body {
            mass: 10,
            position: PolarVector { quarter_turns: 0, length_e4: 5500 },
            velocity: PolarVector { quarter_turns: 1, length_e4: 13 },
        },
    );
    assert(bodies@ =~= seq![
        body(10000, 0, 0, 0, 0),
        body(100, 0, 5000, 1, 10),
        body(10, 0, 5500, 1, 13),
    ]);
    bodies
}

} // verus!
