//! Describers for a media file: what its pictures show, what its sound is,
//! and the vectors its text lands on.
pub mod clips;
pub mod cuts;
pub mod document;
pub mod double;
pub mod embed;
pub mod fbank;
pub mod fourier;
pub mod host;
pub mod labels;
pub mod names;
pub mod prep;
pub mod reservoir;
pub mod sounds;
pub mod text;
pub mod vector;
pub mod words;
