/// Execution and dynamic-completion callbacks, and ready-made handler types.
pub mod handler;
/// Decoding raw terminal bytes into semantic key events.
pub mod key;
/// Proved laws of the command trie: what registration, execution, and
/// completion guarantee, and that they keep the trie well-formed.
pub mod laws;
/// The line-editing step of an interactive terminal session.
pub mod session;
/// Tokenization of input lines.
pub mod tokens;
/// The command trie: registration, completion, and execution.
pub mod trie;

pub use handler::{CompleteHandler, CountingExec, ExecHandler, NoComplete, PrintingExec,
    StaticComplete};
pub use key::{read_key, Decoded, Direction, Key};
pub use session::{session_step, StepOutput};
pub use trie::{Cli, Command, RegisterError};
