/// The orbiting no-fit-polygon algorithm: touchings, candidate moves, the selection rule,
/// the orbit loop and the start-point search.
pub mod no_fit_polygon;
/// Points, segments and their exact integer arithmetic.
pub mod point;
