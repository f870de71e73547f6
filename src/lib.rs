//! Constructive solid geometry on convex-faced solids, by binary space
//! partitioning.
//!
//! The engine is generic over a geometry kernel ([`kernel::Kernel`]): the
//! kernel measures (which side of a plane a point lies on, where an edge
//! crosses it, where three planes meet), the engine decides. Each kernel
//! measurement is named by a model function of its arguments, and the
//! engine's contracts state its results exactly over those names:
//!
//! - [`side`]: vertex and polygon classification against a plane;
//! - [`split`]: where a classified polygon goes, and the corners of its
//!   fragments;
//! - [`polygon`]: oriented planes keyed by quantized coordinates, polygons,
//!   turning them over, splitting them;
//! - [`node`]: the partition tree: build, invert, clip;
//! - [`polytope`]: the faces of the convex solid bounded by a set of planes;
//! - [`brushlet`], [`operations`], [`brush`]: union, subtraction and
//!   intersection of solids, knives, and brushes that fold them in order;
//! - [`broadphase`], [`scene`]: picking with a ray.

pub mod kernel;
pub mod side;
pub mod split;
pub mod polygon;
pub mod node;
pub mod polytope;
pub mod brush;
pub mod brushlet;
pub mod operations;
pub mod broadphase;
pub mod primitives;
pub mod scene;
