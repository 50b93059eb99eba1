//! An interactive POSIX-style shell core: a command-line parser with quoting
//! and redirection rules, a completion trie over command names, a history
//! store, a line editor state machine, and the pure decision logic of the
//! builtins. Terminal control and process spawning live outside the library.

pub mod autocompleter;
pub mod command;
pub mod command_trie;
pub mod completion;
pub mod history;
pub mod input_state;
pub mod parser;
pub mod parser_laws;
pub mod strutil;
pub mod trie_store;
