//! Command lines of other programs.
//!
//! An argument is a sequence of bytes, as on any Unix system: most are UTF-8 text, but a path
//! need not be.

use vstd::prelude::*;
use vstd::utf8::encode_utf8;

use crate::bytes::{to_vec, views};

verus! {

/// A program, an environment variable it is given besides those of the caller, and its arguments,
/// in order.
pub struct Command {
    pub program: &'static str,
    pub environment: Option<(&'static str, &'static str)>,
    pub arguments: Vec<Vec<u8>>,
}

/// What a [`Command`] stands for.
#[verifier::ext_equal]
pub struct CommandView {
    pub program: Seq<char>,
    pub environment: Option<(Seq<char>, Seq<char>)>,
    pub arguments: Seq<Seq<u8>>,
}

impl View for Command {
    type V = CommandView;

    open spec fn view(&self) -> CommandView {
        CommandView {
            program: self.program@,
            environment: match self.environment {
                Some((name, value)) => Some((name@, value@)),
                None => None,
            },
            arguments: views(self.arguments@),
        }
    }
}

impl CommandView {
    /// The command with one more argument.
    pub open spec fn push(self, argument: Seq<u8>) -> CommandView {
        CommandView { arguments: self.arguments.push(argument), ..self }
    }
}

/// A program with arguments, in the environment of the caller.
pub open spec fn command_line(program: Seq<char>, arguments: Seq<Seq<u8>>) -> CommandView {
    CommandView { program, environment: None, arguments }
}

/// The argument that a text is.
pub open spec fn word(text: Seq<char>) -> Seq<u8> {
    encode_utf8(text)
}

impl Command {
    /// A program without arguments.
    pub fn new(program: &'static str) -> (command: Command)
        ensures
            command@ == command_line(program@, Seq::empty()),
    {
        let command = Command { program, environment: None, arguments: Vec::new() };
        assert(command@.arguments =~= Seq::<Seq<u8>>::empty());
        command
    }

    /// A program without arguments, given an environment variable.
    pub fn with_environment(
        program: &'static str,
        name: &'static str,
        value: &'static str,
    ) -> (command: Command)
        ensures
            command@ == (CommandView {
                program: program@,
                environment: Some((name@, value@)),
                arguments: Seq::empty(),
            }),
    {
        let command = Command { program, environment: Some((name, value)), arguments: Vec::new() };
        assert(command@.arguments =~= Seq::<Seq<u8>>::empty());
        command
    }

    /// Append an argument.
    pub fn push(&mut self, argument: &[u8])
        ensures
            final(self)@ == old(self)@.push(argument@),
    {
        self.arguments.push(to_vec(argument));
        assert(self@.arguments =~= old(self)@.arguments.push(argument@));
    }

    /// Append a text as an argument.
    pub fn push_text(&mut self, text: &str)
        ensures
            final(self)@ == old(self)@.push(word(text@)),
    {
        self.push(text.as_bytes());
    }
}

} // verus!
