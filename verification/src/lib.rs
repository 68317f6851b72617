//! Rewriting grammars (L-systems) and the turtle walk that draws their strings.

pub mod grammar;
pub mod interpreters;
pub mod lsystem;

pub use grammar::Grammar;
pub use interpreters::{from_fractal_plant, Drawing, Motion, Step, TurtleError};
pub use lsystem::{LSystem, UnknownSymbolError};
