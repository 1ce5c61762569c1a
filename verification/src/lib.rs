//! Reads scene descriptions in a generic, self-describing format, in
//! its textual and in its binary encoding, takes them up as geometry,
//! works expressions out over the attributes of its points, and writes
//! them in the binary encoding and as meshes.

pub mod bgeo_constants;
pub mod bgeo_format;
pub mod bgeo_laws;
pub mod bgeo_struct_serializer;
pub mod convert_from_trait;
pub mod errors;
pub mod expressions;
pub mod f16_half;
pub mod geo_attributes;
pub mod geo_format;
pub mod geo_laws;
pub mod geo_parsing;
pub mod geo_struct;
pub mod geo_struct_serializer;
pub mod houdini_geo_schema;
pub mod houdini_geo_schema_manipulator;
pub mod ieee;
pub mod obj_converter;
pub mod paged;
pub mod pieces;
pub mod scalars;
pub mod stl_converter;

pub use crate::errors::ParseError;
pub use crate::geo_attributes::{GeoAttribute, GeoAttributeKind};
pub use crate::geo_parsing::parsing_ascii::{parse_ascii, real_literals};
pub use crate::geo_parsing::parsing_bin::parse_binary;
pub use crate::geo_parsing::parse;
pub use crate::geo_struct::{ReaderElement, Real32, Real64, UniformArrayType};
pub use crate::houdini_geo_schema::{HoudiniGeoSchemaParser, SchemaError};
pub use crate::houdini_geo_schema_manipulator::HoudiniGeoSchemaManipulator;
pub use crate::stl_converter::create_stl_solid;
