//! The parsed representation: a `Program` is an ordered tree of commands,
//! with each loop exclusively owning its nested body, plus the view functions
//! that map the executable tree onto the ghost model of `sem`.

use vstd::prelude::*;

use crate::sem::CmdSpec;

verus! {

/// One command of a parsed program. The four counted variants come out of the
/// run-length folding pass with a positive count.
#[derive(Debug, PartialEq, Eq)]
pub enum Command {
    /// Move the cursor right by the count.
    IncPointer(u8),
    /// Move the cursor left by the count.
    DecPointer(u8),
    /// Add the count to the current cell, modulo 256.
    IncValue(u8),
    /// Subtract the count from the current cell, modulo 256.
    DecValue(u8),
    /// Emit the current cell as one output byte.
    PutChar,
    /// Read one input byte into the current cell.
    GetChar,
    /// Run the nested program while the current cell is nonzero.
    Loop(Program),
}

/// The one way a source text can be rejected: the stream ended while this
/// many loops were still open.
#[derive(Debug, PartialEq, Eq)]
pub enum ParseError {
    MissingClosingBracket(u32),
}

/// An ordered sequence of commands; the empty program is a valid no-op.
#[derive(Debug, PartialEq, Eq)]
pub struct Program {
    pub commands: Vec<Command>,
}

/// The ghost model of one command.
pub open spec fn cmd_view(c: Command) -> CmdSpec
    decreases c,
{
    match c {
        Command::IncPointer(n) => CmdSpec::IncPointer(n),
        Command::DecPointer(n) => CmdSpec::DecPointer(n),
        Command::IncValue(n) => CmdSpec::IncValue(n),
        Command::DecValue(n) => CmdSpec::DecValue(n),
        Command::PutChar => CmdSpec::PutChar,
        Command::GetChar => CmdSpec::GetChar,
        Command::Loop(p) => CmdSpec::Loop(cmds_view(p.commands@)),
    }
}

/// The ghost model of a command sequence, element by element.
pub open spec fn cmds_view(s: Seq<Command>) -> Seq<CmdSpec>
    decreases s,
{
    if s.len() == 0 {
        Seq::empty()
    } else {
        cmds_view(s.drop_last()).push(cmd_view(s.last()))
    }
}

/// The ghost model of a whole program.
pub open spec fn prog_view(p: Program) -> Seq<CmdSpec> {
    cmds_view(p.commands@)
}

/// `cmds_view` maps the sequence pointwise.
pub proof fn lemma_cmds_view(s: Seq<Command>)
    ensures
        cmds_view(s).len() == s.len(),
        forall|i: int| 0 <= i < s.len() ==> cmds_view(s)[i] == cmd_view(s[i]),
    decreases s.len(),
{
    if s.len() > 0 {
        lemma_cmds_view(s.drop_last());
    }
}

/// Appending one command appends its view.
pub proof fn lemma_cmds_view_push(s: Seq<Command>, c: Command)
    ensures
        cmds_view(s.push(c)) == cmds_view(s).push(cmd_view(c)),
{
    assert(s.push(c).drop_last() =~= s);
    assert(s.push(c).last() == c);
}

impl Program {
    /// The empty program.
    pub fn new() -> (p: Program)
        ensures
            prog_view(p) =~= Seq::<CmdSpec>::empty(),
    {
        Program { commands: Vec::new() }
    }
}

} // verus!
