//! Rebuilds MP4 files whose index never made it to disk.
//!
//! The media data of such a file still holds the video, as NAL units behind their
//! lengths, and the audio in between. What x264 left in its first frame tells most
//! of what a decoder has to know; the rest is found by trying. This crate finds the
//! frames, writes the parameter sets and the index, and decides what to try next.
//! Reading, writing and running a decoder is up to the caller.

pub mod audio;
pub mod bits;
pub mod bytes;
pub mod coded;
pub mod declared;
pub mod fault;
pub mod folder;
pub mod frames;
pub mod geometry;
pub mod index;
pub mod layout;
pub mod mdat;
pub mod mp4;
pub mod nal;
pub mod options;
pub mod order;
pub mod pad;
pub mod probe;
pub mod progress;
pub mod rebuild;
pub mod repair;
pub mod report;
pub mod shell;
pub mod sorting;
pub mod sps;
pub mod text;
pub mod video;
pub mod watch;
pub mod x264;
