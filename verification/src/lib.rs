//! An embeddable interpreter for command pipelines.
//!
//! A line of text is cut into words, the words are grouped into stages at each
//! separator, every stage's first word is looked up among the registered
//! commands, and the stages are run as a chain in which each stage reads what
//! the stage before it wrote. What any stage writes to the error sink makes the
//! whole pipeline fail.
//!
//! * [`lex`] cuts a line into tokens and [`parse`] groups them into stages.
//! * [`sh`] holds the registry of commands and runs a pipeline.
//! * [`builtin`] has the commands that come with the library.
//! * [`chat`] has what a chat front end needs around the shell.
//! * [`replace`] and [`text`] serve the others.

pub mod builtin;
pub mod chat;
pub mod lex;
pub mod parse;
pub mod replace;
pub mod sh;
pub mod text;
