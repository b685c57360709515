//! How far the shading of a hit goes.
//!
//! A ray that hits a surface may send out a reflected and a refracted ray, and
//! each of those may hit a surface in turn. Every ray carries a budget of
//! bounces; the rays that it sends out carry one less, and a hit that is
//! reached with nothing left is black.

use vstd::prelude::*;

verus! {

/// What the shading of a hit has to know of its surface.
#[derive(Clone, Copy, Debug, PartialEq, Eq, Structural)]
pub struct Surface {
    /// The surface reflects enough to send out a reflected ray.
    pub reflects: bool,
    /// The surface is transparent enough to send out a refracted ray.
    pub refracts: bool,
    /// The surface both reflects and lets light through, so that the two
    /// contributions are to be weighed against each other.
    pub blends: bool,
}

/// How the contributions to the colour of a hit are put together.
#[derive(Clone, Copy, Debug, PartialEq, Eq, Structural)]
pub enum Blend {
    /// Surface colour, reflection and refraction are added up.
    Sum,
    /// Reflection and refraction are weighed by the reflectance of the
    /// surface, and added to the surface colour.
    Fresnel,
}

/// What is to be done for a hit.
#[derive(Clone, Copy, Debug, PartialEq, Eq, Structural)]
pub enum Shading {
    /// The budget is used up: the hit is black, whatever its surface.
    Black,
    /// The hit is lit by the lights of the scene; `reflect` and `refract` hold
    /// the budget of the ray to send out, where one is to be sent.
    Lit { reflect: Option<usize>, refract: Option<usize>, blend: Blend },
}

/// What is to be done for a hit with `depth` bounces left.
pub open spec fn shading_of(depth: usize, surface: Surface) -> Shading {
    if depth == 0 {
        Shading::Black
    } else {
        Shading::Lit {
            reflect: if surface.reflects {
                Some((depth - 1) as usize)
            } else {
                None
            },
            refract: if surface.refracts {
                Some((depth - 1) as usize)
            } else {
                None
            },
            blend: if surface.blends {
                Blend::Fresnel
            } else {
                Blend::Sum
            },
        }
    }
}

/// The budget of the rays that a hit with `depth` bounces left may send out;
/// `None` where it may send none.
pub fn bounce(depth: usize) -> (r: Option<usize>)
    ensures
        depth == 0 <==> r is None,
        r matches Some(d) ==> d + 1 == depth,
{
    if depth == 0 {
        None
    } else {
        Some(depth - 1)
    }
}

/// Decides what is to be done for a hit with `depth` bounces left.
pub fn shading_plan(depth: usize, surface: Surface) -> (r: Shading)
    ensures
        r == shading_of(depth, surface),
        depth == 0 <==> r == Shading::Black,
{
    match bounce(depth) {
        None => Shading::Black,
        Some(left) => Shading::Lit {
            reflect: if surface.reflects {
                Some(left)
            } else {
                None
            },
            refract: if surface.refracts {
                Some(left)
            } else {
                None
            },
            blend: if surface.blends {
                Blend::Fresnel
            } else {
                Blend::Sum
            },
        },
    }
}

/// The most hits that the shading of one hit can lead to, itself included,
/// with `depth` bounces left.
pub open spec fn hits_within(depth: nat) -> nat
    decreases depth,
{
    if depth == 0 {
        1
    } else {
        1 + 2 * hits_within((depth - 1) as nat)
    }
}

/// Shading ends: every ray that a hit sends out has a smaller budget, so the
/// hits that one hit leads to are bounded by its budget alone.
pub proof fn lemma_shading_ends(depth: usize, surface: Surface)
    ensures
        shading_of(depth, surface) matches Shading::Lit { reflect, refract, .. } ==> {
            &&& reflect matches Some(d) ==> d < depth
            &&& refract matches Some(d) ==> d < depth
            &&& hits_within(depth as nat) == 1 + 2 * hits_within((depth - 1) as nat)
        },
        shading_of(depth, surface) == Shading::Black ==> hits_within(depth as nat) == 1,
{
}

} // verus!
