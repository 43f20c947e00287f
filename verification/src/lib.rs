//! Verified core of the Rocktier OCR engine and its searchable-PDF writer.
//!
//! The modules hold the integer and text logic of the pipeline: binary-mask
//! morphology and connected components of the detector, the convex hull of a
//! component's pixels, the letterbox of short or wide frames, reading-order
//! sorting of detected boxes, greedy CTC collapsing of the recogniser's best
//! path, grouping of decoded characters into words, the font and
//! content-code tables of the invisible text layer, the steps that make its
//! font reachable from a page, the walk that finds the form XObjects whose
//! text is stripped, the bookkeeping of a conversion,
//! and the plain-text export of a finished job.

pub mod grid;
pub mod components;
pub mod words;
pub mod text;
pub mod export;
pub mod textlayer;
pub mod ctc;
pub mod order;
pub mod hull;
pub mod forms;
pub mod job;
pub mod frame;
pub mod resources;
