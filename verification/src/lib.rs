//! Keeps one scene node per tracked device in lock-step with the device's
//! reported pose.
//!
//! Once per rendered frame the host hands [`sync::TrackerSync::step`] the
//! frame's device snapshot. The step reconciles the snapshot against the
//! device registry, creating and destroying scene nodes as devices connect and
//! disconnect, and writes every valid pose, converted to scene space, to the
//! node that belongs to its device.
//!
//! All scalars are fixed-point numbers with sixteen fractional bits, so that
//! every conversion is exact integer arithmetic with a stated rounding.
//!
//! - [`fixed`]: the fixed-point arithmetic.
//! - [`pose`]: poses, transforms and the pose converter.
//! - [`scene`]: the scene's node storage.
//! - [`device`]: device identities and the per-frame snapshot.
//! - [`registry`]: the device registry and its reconciliation.
//! - [`sync`]: the per-frame step.
//! - [`session`]: when the session ends.
//! - [`laws`]: what holds of every frame, proved.

pub mod device;
pub mod fixed;
pub mod laws;
pub mod pose;
pub mod registry;
pub mod scene;
pub mod session;
pub mod sync;
