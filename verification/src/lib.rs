//! ECMAScript runtime built-ins for the `boa_cat` engine: the decisions the
//! native callables make, verified over a plain model of the engine's values.

pub mod text;
pub mod number;
pub mod number_text;
pub mod value;
pub mod numeral;
pub mod json_spec;
pub mod json;
pub mod json_text;
pub mod coercion;
pub mod globals;
pub mod array;
pub mod promise;
pub mod error_constructors;
pub mod console;
pub mod object;
pub mod json_laws;
