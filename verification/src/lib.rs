//! Turns Nsight Systems activity records into a Perfetto timeline.

pub mod batches;
pub mod columns;
pub mod contents;
pub mod counts;
pub mod devices;
pub mod emit;
pub mod event;
pub mod figures;
pub mod flow_ids;
pub mod flows;
pub mod hierarchy;
pub mod input;
pub mod json;
pub mod kinds;
pub mod labels;
pub mod lanes;
pub mod laws;
pub mod link;
pub mod linkage;
pub mod listing;
pub mod loading;
pub mod model;
pub mod named;
pub mod naming;
pub mod nesting;
pub mod order;
pub mod output;
pub mod placing;
pub mod project;
pub mod ranges;
pub mod regions;
pub mod scene;
pub mod seqs;
pub mod slices;
pub mod spans;
pub mod stacks;
pub mod tables;
pub mod text;
pub mod trace;
pub mod tracks;
pub mod views;
pub mod wording;
