//! Planar polygon clipping on an integer grid.
//!
//! A polygon is a collection of closed contours. It is drawn point by point
//! through a [`builder::PolygonBuilder`], which refuses any edge that meets an
//! edge accepted earlier. Two finished polygons are clipped against each
//! other by [`clip::clipping`], after Weiler and Atherton: the vertices of
//! both are put into one table and linked into circular lists, the
//! intersections of their edges are inserted into the lists of both, and the
//! table is walked for the clipped region and for what is left of each
//! polygon.
//!
//! Coordinates are integers, bounded by [`point::COORD_LIMIT`], so that every
//! test and every comparison is exact: whether two segments cross, where along
//! each of them, and in which order the crossings on one edge follow each
//! other. Only the point of a crossing is rounded, to the nearest point of the
//! grid. A caller with finer coordinates scales them first.
//!
//! A walk follows links until it is back where it started. It is allowed as
//! many steps as the table has records, which is enough for every walk that
//! comes back at all. The walks along either polygon always do, as [`rings`]
//! shows, and so do the walks of the clipped region where the kinds of
//! crossing alternate along both polygons, as [`alternate`] and [`closed`]
//! show. Polygons whose edges do not meet come back whole, as [`apart`]
//! shows, and every point that clipping gives is a vertex of one of the
//! polygons or the crossing of two of their edges, as [`sources`] shows.

pub mod point;
pub mod ratio;
pub mod segment;
pub mod orientation;
pub mod builder;
pub mod table;
pub mod insert;
pub mod walk;
pub mod clip;
pub mod chains;
pub mod rings;
pub mod apart;
pub mod alternate;
pub mod closed;
pub mod sources;
pub mod session;
