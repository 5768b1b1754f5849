//! The core of a single-threaded runtime for futures, without the futures: who polls, wakes
//! and sleeps is a host, which tells the runtime what has happened and does what the runtime
//! asks for. The runtime keeps the tasks and decides which is polled next, when a task ends,
//! who is woken then and when the runtime is done.

pub mod channel;
pub mod io;
pub mod join_laws;
pub mod laws;
pub mod model;
pub mod rt;
pub mod slots;
pub mod step_laws;
pub mod sync;
pub mod task;
pub mod test_utils;
pub mod turn_laws;

pub use crate::io::Alarm;
pub use crate::model::{Action, Event};
pub use crate::rt::{IdWaker, Join, Rt, SendSpawner, Spawner};
pub use crate::sync::{AsyncLock, AsyncMutex, AsyncMutexGuard, Unlock};
pub use crate::task::{Id, Poll};
