//! A frame-based animation playback engine.
//!
//! A timeline is a non-empty sequence of frames, each holding a value and a
//! duration measured in integer time units (the caller picks the unit, e.g.
//! milliseconds). An [`animation::Animation`] owns a timeline together with a
//! playback cursor and advances it by an elapsed-time delta each tick.
//! [`interpolated::InterpolatedAnimation`] additionally blends the shown value
//! toward the next frame's value over a trailing sub-interval of each frame.
//! [`manager::AnimationManager`] owns a named collection of tracks and
//! forwards per-tick calls to the selected one.

pub mod animation;
pub mod color;
pub mod cursor;
pub mod interpolated;
pub mod manager;
