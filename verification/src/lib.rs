//! The decisions of an image sorter that runs a YOLO classification model over a folder.
//!
//! What reads, downloads, infers and moves files stands in the program around this library. It
//! hands plain values over and takes decisions back:
//!
//! * `names`, `metadata`: what a model says of itself;
//! * `geometry`, `weights`, `tensor`: from pixels to the input of a model;
//! * `scores`, `sorting`: from the output of a model to a folder, and the counts of a run;
//! * `work_list`, `file_names`: which files are sorted, and under which names they are kept;
//! * `discovery`, `remote`: where images and models come from;
//! * `update`, `archive`: newer versions of the program itself;
//! * `text`: reading and writing text.

pub mod archive;
pub mod discovery;
pub mod file_names;
pub mod geometry;
pub mod metadata;
pub mod names;
pub mod remote;
pub mod scores;
pub mod sorting;
pub mod tensor;
pub mod text;
pub mod update;
pub mod weights;
pub mod work_list;
