//! Grid navigation and line of sight for a tile based arena: terrain parsing,
//! the walkable grid derived from it, shortest paths, shots and conversions
//! between tile and world coordinates.
pub mod arena;
pub mod axis;
pub mod components;
pub mod levels;
pub mod pathfinder;
pub mod position;
pub mod shooter;
pub mod tilemap;
pub mod tilepath;

pub use arena::{Arena, LoadError};
pub use axis::{Direction, MovementAxis, RotationAxis};
pub use components::{HeadLights, Hero, HeroFollower, HeroHull, HeroShooter, LifeCycle};
pub use levels::{Level, Levels};
pub use pathfinder::find_path;
pub use position::{PositionConverter, TilePosition, WorldPosition, WorldRect, SUBDIVISIONS};
pub use shooter::{create_tile_caster, find_shot, Shot, Sniper, TileRaycaster};
pub use tilemap::{needs_floor_tile, ParseError, Tile, Tilemap};
pub use tilepath::Tilepath;
