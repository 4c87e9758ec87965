//! Terminal control-protocol engine for driving terminal applications under
//! test: a textual recording format and its parser, SGR mouse and extended
//! keyboard encoding, an ANSI-aware screen-text normalizer, and the decision
//! core of a polling wait engine.

pub mod text;

pub mod mouse;

pub mod normalize;

pub mod runner;

pub mod screen;

pub mod keys;

pub mod replay;

pub mod wait;
