//! The verified core of a solid-modelling engine: the geometry cache and its
//! interchange format, the values and bytecode of the modelling language, and
//! the combinatorial part of meshes, solids and export documents.
//!
//! Numbers are carried as the 64 bits of their double-precision encoding, and
//! every operation on them that needs a floating-point unit is delegated to the
//! host (see [`num`]).

pub mod algebra;
pub mod allowance;
pub mod artifact;
pub mod assemble;
pub mod ast;
pub mod base64;
pub mod blob;
pub mod boxlaw;
pub mod budget;
pub mod builtins;
pub mod cache;
pub mod calls;
pub mod canonical;
pub mod clip;
pub mod compiled;
pub mod components;
pub mod contours;
pub mod diag;
pub mod doclaw;
pub mod edges;
pub mod error;
pub mod eval;
pub mod exact;
pub mod exprlaw;
pub mod extrude;
pub mod extrudelaw;
pub mod faces;
pub mod files;
pub mod finelaw;
pub mod flat;
pub mod format;
pub mod glb;
pub mod gltf;
pub mod gridlaw;
pub mod grouping;
pub mod hash;
pub mod heightmap;
pub mod hull;
pub mod hull2d;
pub mod interp;
pub mod iterate;
pub mod json;
pub mod kernel;
pub mod meaning;
pub mod mesh;
pub mod meshlaw;
pub mod modellaw;
pub mod modulelaw;
pub mod modules;
pub mod names;
pub mod node;
pub mod nodeview;
pub mod num;
pub mod numbers;
pub mod offset;
pub mod offsetlaw;
pub mod output;
pub mod palette;
pub mod patches;
pub mod pipeline;
pub mod planar;
pub mod play;
pub mod player;
pub mod profile;
pub mod program;
pub mod provenance;
pub mod provtext;
pub mod rank;
pub mod relation;
pub mod request;
pub mod resources;
pub mod revolve;
pub mod runs;
pub mod scene;
pub mod scopes;
pub mod sem;
pub mod shapelaw;
pub mod slice;
pub mod solid;
pub mod sources;
pub mod spacelaw;
pub mod splice;
pub mod stage;
pub mod structured;
pub mod surface;
pub mod surfaces;
pub mod tessellate;
pub mod text;
pub mod textlaw;
pub mod threemf;
pub mod unionfind;
pub mod value;
pub mod valuelaw;
pub mod vector;
pub mod viewport;
pub mod vm;
pub mod vmlaw;
pub mod vmproof;
pub mod vmsim;
pub mod writelaw;
