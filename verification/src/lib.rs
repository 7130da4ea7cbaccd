//! PixelCraft: a voxel world engine — coordinates, block definitions,
//! palette-compressed chunk storage, the sparse chunk world and the
//! gameplay systems that read and edit it.

pub mod coords;
pub mod block;
pub mod chunk;
pub mod world;
pub mod mesh;
pub mod light;
pub mod sampler;
pub mod inventory;
pub mod crafting;
pub mod quest;
pub mod persistence;
pub mod noise;
pub mod biome;
pub mod generator;
pub mod seams;
pub mod streaming;
pub mod interaction;
pub mod collision;
pub mod entity;
pub mod textures;
