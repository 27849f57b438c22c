//! Fixed-capacity circular (ring) buffers that decouple one writer from one
//! or more readers over a bounded backing store, without heap churn or
//! buffer relocation after construction.
//!
//! Three variants share the same wraparound arithmetic, modelled and proved
//! once in [`ring`]:
//!
//! - [`CircularBuffer`]: capacity fixed at compile time, one read cursor.
//! - [`CircularBufferDyn`]: capacity chosen at construction, one read cursor.
//! - [`CircularBufferMultiRead`]: one writer and up to a fixed number of
//!   independently advancing read cursors over the same storage, the
//!   writer's space governed by the least-advanced cursor.
//!
//! All variants keep one slot free (the sentinel gap), so equal cursors
//! always mean "empty" and never "full". Writes that do not fit are silently
//! truncated to the prefix that fits; reads that ask for more than is stored
//! return fewer elements. No operation blocks or errors for these cases:
//! callers that must detect loss or starvation compare requested and
//! returned counts. None of the types synchronise access from several
//! threads: "multi-read" means multiple logical read positions, not thread
//! safety.

pub mod ring;

mod circular_buffer;
mod circular_buffer_dyn;
mod circular_buffer_multi_read;

pub use circular_buffer::CircularBuffer;
pub use circular_buffer_dyn::CircularBufferDyn;
pub use circular_buffer_multi_read::CircularBufferMultiRead;
pub use circular_buffer_multi_read::CursorError;
pub use circular_buffer_multi_read::ReadCursor;
