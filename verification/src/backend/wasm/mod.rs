//! The binary back end: a self-contained module for a WebAssembly host.

pub mod code_stream;
pub mod machine;
pub mod module_builder;
pub mod simulation;

use crate::backend::wasm::module_builder::{wasm_module, WasmModule};
use crate::backend::Backend;
use crate::types::{Instr, ProgramToken};
use vstd::prelude::*;

verus! {

/// The back end that emits a binary module.
pub struct WasmBackend;

impl Backend for WasmBackend {
    open spec fn extension_of(&self) -> Seq<char> {
        ".wasm"@
    }

    open spec fn artifact(&self, program: Seq<Instr>) -> Seq<u8> {
        wasm_module(program)
    }

    fn extension(&self) -> (extension: &'static str) {
        ".wasm"
    }

    fn compile_to_stream(&self, tokens: &[ProgramToken], stream: &mut Vec<u8>) {
        WasmModule::write_to_stream(stream, tokens);
    }
}

} // verus!
