//! Conversion of gridded weather data into tiled map archives.

pub mod area;
pub mod assembly;
pub mod bitmap;
pub mod boundary;
pub mod calendar;
pub mod canonical;
pub mod cells;
pub mod connection;
pub mod contour;
pub mod conversion;
pub mod corners;
pub mod descriptor;
pub mod documents;
pub mod double;
pub mod drawing;
pub mod geo;
pub mod geometry;
pub mod grib;
pub mod grouping;
pub mod header;
pub mod hilbert;
pub mod image;
pub mod intervals;
pub mod json;
pub mod lattice;
pub mod messages;
pub mod metadata;
pub mod model;
pub mod mvt;
pub mod nesting;
pub mod options;
pub mod outline;
pub mod paths;
pub mod pieces;
pub mod polygons;
pub mod prepare;
pub mod pyramid;
pub mod quantization;
pub mod range;
pub mod raster;
pub mod reader;
pub mod rect_union;
pub mod reproducible;
pub mod selection;
pub mod sort;
pub mod sums;
pub mod sweep;
pub mod text;
pub mod turning;
pub mod walk;
