//! Turning vehicle mods for truck simulators into FBX scenes.
//!
//! The crate holds everything that can be decided from bytes and text alone:
//! reading the archive containers, the model and definition formats, choosing
//! and placing the models of a vehicle, and writing the FBX. Numbers that are
//! only carried through - coordinates, colours - travel as the bit patterns of
//! their IEEE-754 encoding; the program around the crate does the arithmetic on
//! them, and the reading and writing of files.

pub mod cityhash;
pub mod archive;
pub mod assemble;
pub mod bytes;
pub mod conversion;
pub mod course;
pub mod dds;
pub mod fbx;
pub mod fbxscene;
pub mod fbxscene_laws;
pub mod fittings;
pub mod harvest;
pub mod harvest_laws;
pub mod hashfs;
pub mod layout_laws;
pub mod livery;
pub mod mat_laws;
pub mod matfile;
pub mod naming;
pub mod packing;
pub mod pairing;
pub mod pim;
pub mod pim_laws;
pub mod pipeline;
pub mod pit;
pub mod pit_laws;
pub mod pmd;
pub mod pmg;
pub mod pmg_laws;
pub mod png;
pub mod points;
pub mod rawzip;
pub mod salvage;
pub mod salvage_laws;
pub mod scene;
pub mod session;
pub mod showroom;
pub mod sii;
pub mod sii_laws;
pub mod sounds;
pub mod staging;
pub mod text;
pub mod tree;
pub mod vehicle;
pub mod vehicle_laws;
pub mod zip_laws;
