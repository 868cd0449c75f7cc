//! Errors of the compiler and of the virtual machine, with their messages.
use vstd::prelude::*;
use crate::number::{decimal, decimal_usize};
use crate::text::{lit, string_of, extend};

verus! {

pub type LocType = usize;

/// A place in a script: the file, the line and the character in the line.
#[derive(Debug)]
pub struct Location {
    pub file_name: String,
    pub line_id: LocType,
    pub word_id: LocType,
}

impl Location {
    pub fn new(file_name: String, line_id: LocType, word_id: LocType) -> (res: Self)
        ensures
            res.file_name@ == file_name@,
            res.line_id == line_id,
            res.word_id == word_id,
    {
        Location { file_name, line_id, word_id }
    }
}

/// What a compiler error holds: its message and its place.
pub struct CompilerErrorView {
    pub msg: Seq<char>,
    pub file_name: Seq<char>,
    pub line_id: LocType,
    pub word_id: LocType,
}

/// An error found while compiling a script.
#[derive(Debug)]
pub struct CompilerError {
    msg: String,
    location: Location,
}

impl View for CompilerError {
    type V = CompilerErrorView;

    closed spec fn view(&self) -> CompilerErrorView {
        CompilerErrorView {
            msg: self.msg@,
            file_name: self.location.file_name@,
            line_id: self.location.line_id,
            word_id: self.location.word_id,
        }
    }
}

/// The compiler error with message `msg` at `location`.
pub open spec fn compiler_error(msg: Seq<char>, location: &Location) -> CompilerErrorView {
    CompilerErrorView {
        msg,
        file_name: location.file_name@,
        line_id: location.line_id,
        word_id: location.word_id,
    }
}

/// The text of a compiler error.
pub open spec fn compiler_error_text(e: CompilerErrorView) -> Seq<char> {
    "[CompilerError] "@ + e.file_name + ":"@ + decimal(e.line_id as nat) + ":"@ + decimal(
        e.word_id as nat,
    ) + " => "@ + e.msg
}

impl CompilerError {
    pub fn new(msg: &str, location: &Location) -> (res: Self)
        ensures
            res@ == compiler_error(msg@, location),
    {
        CompilerError {
            msg: String::from_str(msg),
            location: Location::new(location.file_name.clone(), location.line_id, location.word_id),
        }
    }

    pub fn get_msg(&self) -> (r: String)
        ensures
            r@ == compiler_error_text(self@),
    {
        let mut v = lit("[CompilerError] ");
        extend(&mut v, &crate::text::chars_of(self.location.file_name.as_str()));
        extend(&mut v, &lit(":"));
        extend(&mut v, &decimal_usize(self.location.line_id));
        extend(&mut v, &lit(":"));
        extend(&mut v, &decimal_usize(self.location.word_id));
        extend(&mut v, &lit(" => "));
        extend(&mut v, &crate::text::chars_of(self.msg.as_str()));
        string_of(&v)
    }
}

/// An error met while running a compiled program.
#[derive(Debug)]
pub struct RuntimeError {
    msg: String,
}

impl View for RuntimeError {
    type V = Seq<char>;

    closed spec fn view(&self) -> Seq<char> {
        self.msg@
    }
}

impl RuntimeError {
    pub fn new(msg: &str) -> (res: Self)
        ensures
            res@ == msg@,
    {
        RuntimeError { msg: String::from_str(msg) }
    }

    /// A runtime error with the message held in `msg`.
    pub fn from_chars(msg: &Vec<char>) -> (res: Self)
        ensures
            res@ == msg@,
    {
        RuntimeError { msg: string_of(msg) }
    }

    pub fn get_msg(&self) -> (r: String)
        ensures
            r@ == "[RuntimeError] "@ + self@,
    {
        let mut v = lit("[RuntimeError] ");
        extend(&mut v, &crate::text::chars_of(self.msg.as_str()));
        string_of(&v)
    }
}

} // verus!
