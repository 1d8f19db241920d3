use vstd::prelude::*;

verus! {

/// The kind of a light source. The shader handles every variant explicitly.
#[derive(Clone, Copy, Debug, PartialEq, Eq, Structural)]
pub enum LightType {
    Spot,
    Point,
    Directional,
    Area,
}

/// How a light's contribution is attenuated with distance (`NoFalloff`: not at all).
#[derive(Clone, Copy, Debug, PartialEq, Eq, Structural)]
pub enum FalloffType {
    NoFalloff,
    Linear,
    Quadratic,
}

} // verus!
