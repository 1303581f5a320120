//! Conversion between native values and the values of an embedded scripting
//! runtime, which knows only nil, booleans, doubles, strings and tables.
//!
//! [`LuaSerializer`] and its builders turn native values into runtime values
//! step by step; [`LuaDeserializer`] and its access helpers turn a runtime
//! value into what a caller asks for. [`to_lua`] and [`from_lua`] convert
//! whole values: a [`native::Native`] into a [`LuaValue`], and back by the
//! [`native::Shape`] of its type.
//!
//! What the runtime lacks is made up for by rules. A table is an array where
//! the key of each pair is the number of its place, and a map otherwise. An
//! enum variant is its tag, or a table of one pair from its tag to its
//! payload. An integer crosses only where a double equals it exactly. Nil is
//! both the unit value and the option that holds nothing.

pub mod de;
pub mod decode;
pub mod encode;
pub mod encoding;
pub mod native;
pub mod number;
pub mod round_trip;
pub mod ser;
pub mod single;
pub mod value;

pub use de::LuaDeserializer;
pub use decode::from_lua;
pub use encode::to_lua;
pub use ser::LuaSerializer;
pub use value::LuaValue;
