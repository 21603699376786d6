//! VisioMatch: face recognition against enrolled identities, and hand tracking.
//!
//! The library holds what the program decides and computes: which identity a
//! face is, which track a detection goes to, which contours are hands, how the
//! embedding database is written and read, how enrolment and setup proceed, and
//! what is drawn where.  Numbers are those of IEEE 754, as bit patterns with
//! correctly rounded arithmetic.  Camera, window, image processing and inference
//! are OpenCV's; the program hands their results to the library as plain values.
pub mod arcface;
pub mod arith;
pub mod big;
pub mod camera;
pub mod cli;
pub mod detect;
pub mod embeddings;
pub mod enroll;
pub mod escape;
pub mod float;
pub mod geometry;
pub mod hands;
pub mod ieee;
pub mod json;
pub mod layout;
pub mod length;
pub mod literal;
pub mod numerals;
pub mod recognize;
pub mod rounding;
pub mod setup;
pub mod storage;
pub mod text;
pub mod tracker;
