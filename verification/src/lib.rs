//! Fixed-step simulation core for a 2D arena of moving, colliding,
//! damageable entities.
//!
//! All geometry is carried in signed fixed-point milli-units (one unit is
//! 1000 milli-units), so every quantity the simulation reads or writes is a
//! plain integer and every system can be specified and verified exactly.

pub mod bullet;
pub mod collision;
pub mod dbvt;
pub mod fix;
pub mod game;
pub mod health;
pub mod hitbox;
pub mod interpolate;
pub mod leaf;
pub mod physics;
pub mod player;
pub mod position;
pub mod reflect;
pub mod resource;
pub mod rng;
pub mod store;
pub mod timer;
pub mod util;

pub use fix::Vec2;
pub use game::Game;
pub use timer::Timer;
