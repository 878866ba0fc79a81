//! A fixed-capacity open-addressing table of borrowed, dynamically typed
//! values, with the small logging helpers and scene-object trait that go
//! with it.

pub mod logger;
pub mod object;
pub mod table;
pub mod value;

pub use logger::{LogLevel, Logger};
pub use object::PhysicalObject;
pub use table::{KData, KTable, TableError};
pub use value::{KType, KValue};
