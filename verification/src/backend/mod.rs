//! The back ends that turn an instruction tree into an artifact.

pub mod c;
pub mod wasm;

use crate::backend::c::CBackend;
use crate::backend::wasm::WasmBackend;
use crate::types::{Instr, ProgramToken};
use vstd::prelude::*;

verus! {

/// A back end: what it calls its artifacts, and how it writes one.
pub trait Backend {
    /// The file extension of the back end's artifacts.
    spec fn extension_of(&self) -> Seq<char>;

    /// The artifact of a program.
    spec fn artifact(&self, program: Seq<Instr>) -> Seq<u8>;

    /// The file extension of the back end's artifacts.
    fn extension(&self) -> (extension: &'static str)
        ensures
            extension@ == self.extension_of(),
    ;

    /// Appends the artifact of a program to the stream.
    fn compile_to_stream(&self, tokens: &[ProgramToken], stream: &mut Vec<u8>)
        ensures
            final(stream)@ == old(stream)@ + self.artifact(tokens.deep_view()),
    ;
}

/// Whether two texts are the same.
fn same_text(a: &str, b: &str) -> (same: bool)
    ensures
        same == (a@ == b@),
{
    a.to_owned() == b.to_owned()
}

/// The back ends there are.
#[derive(Debug, PartialEq, Eq, Clone, Copy, Structural)]
pub enum Target {
    /// C source.
    C,
    /// A binary module.
    Wasm,
}

/// The back end that a name stands for: `c` for C source, `wasm` for a
/// binary module, and none for any other name.
pub open spec fn target_of(name: Seq<char>) -> Option<Target> {
    if name == "c"@ {
        Some(Target::C)
    } else if name == "wasm"@ {
        Some(Target::Wasm)
    } else {
        None
    }
}

impl Backend for Target {
    open spec fn extension_of(&self) -> Seq<char> {
        match self {
            Target::C => CBackend.extension_of(),
            Target::Wasm => WasmBackend.extension_of(),
        }
    }

    open spec fn artifact(&self, program: Seq<Instr>) -> Seq<u8> {
        match self {
            Target::C => CBackend.artifact(program),
            Target::Wasm => WasmBackend.artifact(program),
        }
    }

    fn extension(&self) -> (extension: &'static str) {
        match self {
            Target::C => CBackend.extension(),
            Target::Wasm => WasmBackend.extension(),
        }
    }

    fn compile_to_stream(&self, tokens: &[ProgramToken], stream: &mut Vec<u8>) {
        match self {
            Target::C => CBackend.compile_to_stream(tokens, stream),
            Target::Wasm => WasmBackend.compile_to_stream(tokens, stream),
        }
    }
}

impl dyn Backend {
    /// The back end of the given name, if there is one.
    pub fn from_name(name: &str) -> (backend: Option<Target>)
        ensures
            backend == target_of(name@),
    {
        if same_text(name, "c") {
            Some(Target::C)
        } else if same_text(name, "wasm") {
            Some(Target::Wasm)
        } else {
            None
        }
    }
}

} // verus!
