//! A compiler for a line-oriented notation of microtonal music: exact
//! fractions, a lossless lexer and parser, the tree walker that lays notes
//! on a time line, and the layout of those notes on MIDI channels.

pub mod byte_char_mapper;
pub mod compiler;
pub mod host;
pub mod midi;
pub mod rational;
pub mod syntax;
