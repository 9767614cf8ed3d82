//! A declarative component tree whose properties are lazily evaluated rules,
//! rendered once per frame onto a host surface.
pub mod laws;
pub mod rule;
pub mod surface;
pub mod tree;
pub mod value;

pub use rule::Evaluator;
pub use surface::{ButtonProps, Surface, Widget};
pub use tree::{
    BuildError, Button, Component, ComponentKind, Context, New, Property, PropertyTypeError,
    RenderError, Tree, Window,
};
pub use value::{TypeMismatch, Value, ValueKind};
