//! A hierarchical timing-wheel engine.
//!
//! Timers are held in a stack of fixed-size wheels, one per resolution
//! level; a scheduler advances the wheels as time passes and cascades
//! timers from coarse levels into finer ones until they become due at
//! full resolution and are dispatched.
//!
//! Every function here is specified over plain millisecond timestamps;
//! the current time is always passed in by the caller, so the whole
//! engine core is deterministic and fully verified.

mod backend;
mod handle;
mod timer;
mod wheel;

pub use backend::BackEnd;
pub use backend::CascadeError;
pub use backend::ConfigError;
pub use backend::Event;
pub use backend::Message;
pub use backend::StepOutcome;
pub use backend::lemma_cancelled_timer_never_fires;
pub use backend::lemma_fired_ids_distinct;
pub use backend::unix_now_ms;
pub use handle::IdAlloc;
pub use handle::fire_time;
pub use timer::Timer;
pub use timer::TimerKind;
pub use wheel::Wheel;
