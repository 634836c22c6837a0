//! Speech recognition core: the layout of the log-mel feature grid, a
//! streaming voice-activity segmenter, the greedy decode loop, and the
//! vocabulary decoder.
pub mod audio;
pub mod model;
pub mod tokenizer;
pub mod vad;
