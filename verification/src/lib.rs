//! Tolerance stackup analysis for mechanical assemblies exchanged as STEP text.
//!
//! Three steps lead from the text of an assembly to the spread of a chain of
//! dimensions in it:
//!
//! - `assembly_parser` reads the parts of the assembly, with their placements
//!   and faces, from the numbered records of the text (`step_entities`);
//! - `interface_detection` finds the pairs of faces of different parts that
//!   lie close together and names the kind of their contact;
//! - `tolerance_calc` computes the worst case, the root sum square and the
//!   sampled distribution (`sample_stats`) of a chain of links.
//!
//! Every length that goes into the library is a whole number of millionths
//! of the unit of the session (`fixed`); points, vectors and placements are
//! held in the same way (`geometry`). What would lose too much at that scale
//! is carried finer: a written direction is given length one before it is
//! cut to millionths (`decimal`), and the figures of a stackup are in
//! millionths of a millionth. The host of the library converts at its edge
//! and draws the random samples.

pub mod assembly_parser;
pub mod decimal;
pub mod fixed;
pub mod geometry;
pub mod interface_detection;
pub mod sorting;
pub mod sample_stats;
pub mod step_analysis;
pub mod step_entities;
pub mod text;
pub mod tolerance_calc;
