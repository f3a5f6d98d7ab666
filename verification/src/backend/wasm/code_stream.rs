//! The instruction encoder: one binary operation at a time, appended to a
//! byte stream.

use byteorder::{LittleEndian, WriteBytesExt};
use vstd::prelude::*;
use vstd::string::StringSliceAdditionalSpecFns;

verus! {

/// The unsigned LEB128 encoding of a number: seven bits to a byte, the low
/// bits first, the top bit of a byte set where more bytes follow.
pub open spec fn leb128_unsigned(value: nat) -> Seq<u8>
    decreases value,
{
    if value < 128 {
        seq![value as u8]
    } else {
        seq![(value % 128 + 128) as u8] + leb128_unsigned(value / 128)
    }
}

/// The signed LEB128 encoding of a number: as the unsigned one, in two's
/// complement, ending with the first byte whose bit 6 gives the sign of all
/// that is left.
pub open spec fn leb128_signed(value: int) -> Seq<u8>
    decreases
        (if value < 0 {
            -value
        } else {
            value
        }),
{
    if -64 <= value < 64 {
        seq![(value % 128) as u8]
    } else {
        seq![(value % 128 + 128) as u8] + leb128_signed(value / 128)
    }
}

/// The number of 32 bits, in two's complement, that is congruent to `value`
/// modulo 2^32: what is left of a number that is cut down to 32 bits.
pub open spec fn wrap_i32(value: int) -> i32 {
    ((value + 0x8000_0000) % 0x1_0000_0000 - 0x8000_0000) as i32
}

/// The unsigned number of 32 bits that is congruent to `value` modulo 2^32.
pub open spec fn wrap_u32(value: int) -> u32 {
    (value % 0x1_0000_0000) as u32
}

/// Cuts a number down to 32 bits.
pub fn low_i32(value: isize) -> (low: i32)
    ensures
        low == wrap_i32(value as int),
{
    assert((value as i32) as int == ((value as int) + 0x8000_0000) % 0x1_0000_0000
        - 0x8000_0000) by (bit_vector);
    #[verifier::truncate]
    (value as i32)
}

/// Cuts a number that is not negative down to 32 bits.
pub fn low_u32(value: usize) -> (low: u32)
    ensures
        low == wrap_u32(value as int),
{
    assert((value as u32) as int == (value as int) % 0x1_0000_0000) by (bit_vector);
    #[verifier::truncate]
    (value as u32)
}

/// The four bytes of a number, the low byte first.
pub open spec fn le_bytes_u32(value: u32) -> Seq<u8> {
    seq![
        (value % 256) as u8,
        (value / 256 % 256) as u8,
        (value / 65536 % 256) as u8,
        (value / 16777216) as u8,
    ]
}

/// Calls `leb128::write::unsigned` on the stream. That function writes the
/// low seven bits of the value, with the top bit set while the rest is not
/// zero, and goes on with the rest; on a vector the write appends and cannot
/// fail.
#[verifier::external_body]
pub(crate) fn write_unsigned_leb128(stream: &mut Vec<u8>, value: u64)
    ensures
        final(stream)@ == old(stream)@ + leb128_unsigned(value as nat),
{
    leb128::write::unsigned(stream, value).unwrap();
}

/// Calls `leb128::write::signed` on the stream. That function writes the low
/// seven bits of the value and stops once what is left is only the sign that
/// bit 6 of the byte shows; until then it sets the top bit and goes on with
/// the value shifted down by seven. On a vector the write appends and cannot
/// fail.
#[verifier::external_body]
pub(crate) fn write_signed_leb128(stream: &mut Vec<u8>, value: i64)
    ensures
        final(stream)@ == old(stream)@ + leb128_signed(value as int),
{
    leb128::write::signed(stream, value).unwrap();
}

/// Calls `byteorder::WriteBytesExt::write_u8` on the stream, which writes the
/// one byte; on a vector the write appends and cannot fail.
#[verifier::external_body]
pub(crate) fn write_byte(stream: &mut Vec<u8>, byte: u8)
    ensures
        final(stream)@ == old(stream)@.push(byte),
{
    stream.write_u8(byte).unwrap();
}

/// Calls `byteorder::WriteBytesExt::write_u32` with `LittleEndian` on the
/// stream, which writes the number's four bytes, the low byte first; on a
/// vector the write appends and cannot fail.
#[verifier::external_body]
pub(crate) fn write_u32_le(stream: &mut Vec<u8>, value: u32)
    ensures
        final(stream)@ == old(stream)@ + le_bytes_u32(value),
{
    stream.write_u32::<LittleEndian>(value).unwrap();
}

/// The slot of a local variable.
#[derive(Copy, Clone, Debug, PartialEq, Eq, Structural)]
pub struct LocalHandle(pub u32);

/// The type of a value on the stack or in a local.
#[derive(Copy, Clone, Debug, PartialEq, Eq, Structural)]
pub enum WasmType {
    I32,
}

/// One operation of the binary instruction set.
#[derive(Copy, Clone, Debug, PartialEq, Eq, Structural)]
pub enum Instruction {
    GetLocal(LocalHandle),
    SetLocal(LocalHandle),
    Load8Signed(u32),
    Load8Unsigned(u32),
    Store8(u32),
    PushI32(i32),
    AddI32,
    Call(u32),
    BranchIf(u32),
    EqualsZeroI32,
    Loop,
    Block,
    End,
    Drop,
    Return,
}

/// The bytes of a string field: its length in bytes, cut down to 32 bits, as
/// an unsigned LEB128 number, then the bytes.
pub open spec fn str_bytes(bytes: Seq<u8>) -> Seq<u8> {
    leb128_unsigned(wrap_u32(bytes.len() as int) as nat) + bytes
}

/// The bytes of one operation: its opcode, then its operands. A memory
/// access has the alignment zero before its offset; a block has the type
/// byte of a block without a result.
pub open spec fn instruction_bytes(op: Instruction) -> Seq<u8> {
    match op {
        Instruction::GetLocal(handle) => seq![0x20u8] + leb128_unsigned(handle.0 as nat),
        Instruction::SetLocal(handle) => seq![0x21u8] + leb128_unsigned(handle.0 as nat),
        Instruction::PushI32(value) => seq![0x41u8] + leb128_signed(value as int),
        Instruction::Load8Signed(offset) => seq![0x2Cu8] + leb128_unsigned(0)
            + leb128_unsigned(offset as nat),
        Instruction::Load8Unsigned(offset) => seq![0x2Du8] + leb128_unsigned(0)
            + leb128_unsigned(offset as nat),
        Instruction::Store8(offset) => seq![0x3Au8] + leb128_unsigned(0) + leb128_unsigned(
            offset as nat,
        ),
        Instruction::AddI32 => seq![0x6Au8],
        Instruction::Call(function) => seq![0x10u8] + leb128_unsigned(function as nat),
        Instruction::BranchIf(depth) => seq![0x0Du8] + leb128_unsigned(depth as nat),
        Instruction::EqualsZeroI32 => seq![0x45u8],
        Instruction::Loop => seq![0x03u8, 0x40u8],
        Instruction::Block => seq![0x02u8, 0x40u8],
        Instruction::End => seq![0x0Bu8],
        Instruction::Drop => seq![0x1Au8],
        Instruction::Return => seq![0x0Fu8],
    }
}

/// The code that prints the bytes of a string: for each byte, the push of
/// its value and the call of the first function.
pub open spec fn print_string_code(bytes: Seq<u8>) -> Seq<u8>
    decreases bytes.len(),
{
    if bytes.len() == 0 {
        Seq::empty()
    } else {
        print_string_code(bytes.drop_last()) + instruction_bytes(
            Instruction::PushI32(bytes.last() as i32),
        ) + instruction_bytes(Instruction::Call(0))
    }
}

/// The writes that the encoder is made of, on a byte stream.
pub trait CodeStreamExt: View<V = Seq<u8>> {
    /// Appends a byte-sized number as unsigned LEB128.
    fn write_leb_u8(&mut self, x: u8)
        ensures
            final(self)@ == old(self)@ + leb128_unsigned(x as nat),
    ;

    /// Appends a byte-sized number as signed LEB128.
    fn write_leb_i8(&mut self, x: i8)
        ensures
            final(self)@ == old(self)@ + leb128_signed(x as int),
    ;

    /// Appends a number as unsigned LEB128.
    fn write_leb_u32(&mut self, x: u32)
        ensures
            final(self)@ == old(self)@ + leb128_unsigned(x as nat),
    ;

    /// Appends a number as signed LEB128.
    fn write_leb_i32(&mut self, x: i32)
        ensures
            final(self)@ == old(self)@ + leb128_signed(x as int),
    ;

    /// Appends the slot of a local variable.
    fn write_local(&mut self, handle: LocalHandle)
        ensures
            final(self)@ == old(self)@ + leb128_unsigned(handle.0 as nat),
    ;

    /// Appends a string field: its length in bytes, then its bytes.
    fn write_str(&mut self, x: &str)
        ensures
            final(self)@ == old(self)@ + str_bytes(x.spec_bytes()),
    ;
}

impl CodeStreamExt for Vec<u8> {
    fn write_leb_u8(&mut self, x: u8) {
        write_unsigned_leb128(self, x as u64);
    }

    fn write_leb_i8(&mut self, x: i8) {
        write_signed_leb128(self, x as i64);
    }

    fn write_leb_u32(&mut self, x: u32) {
        write_unsigned_leb128(self, x as u64);
    }

    fn write_leb_i32(&mut self, x: i32) {
        write_signed_leb128(self, x as i64);
    }

    fn write_local(&mut self, handle: LocalHandle) {
        self.write_leb_u32(handle.0);
    }

    fn write_str(&mut self, x: &str) {
        let ghost before = self@;
        let bytes = x.as_bytes();
        self.write_leb_u32(low_u32(bytes.len()));
        self.extend_from_slice(bytes);
        assert(self@ =~= before + str_bytes(x.spec_bytes()));
    }
}

/// The encoder of one function body: the stream written so far and the
/// local variables declared.
pub struct CodeStreamWriter {
    stream: Vec<u8>,
    locals: Vec<WasmType>,
}

impl CodeStreamWriter {
    /// The bytes in the stream.
    pub closed spec fn written(&self) -> Seq<u8> {
        self.stream@
    }

    /// The types of the local variables declared, by slot.
    pub closed spec fn locals(&self) -> Seq<WasmType> {
        self.locals@
    }

    /// An encoder that appends to `stream`, with no local declared.
    pub fn new(stream: Vec<u8>) -> (writer: CodeStreamWriter)
        ensures
            writer.written() == stream@,
            writer.locals() == Seq::<WasmType>::empty(),
    {
        CodeStreamWriter { stream, locals: Vec::new() }
    }

    /// The stream, with all that was emitted.
    pub fn into_stream(self) -> (stream: Vec<u8>)
        ensures
            stream@ == self.written(),
    {
        self.stream
    }

    /// Declares a local variable; its slot is the number of locals declared
    /// before it, cut down to 32 bits.
    pub fn declare_local(&mut self, local_type: WasmType) -> (handle: LocalHandle)
        ensures
            handle == LocalHandle(wrap_u32(old(self).locals().len() as int)),
            final(self).locals() == old(self).locals().push(local_type),
            final(self).written() == old(self).written(),
    {
        let handle = LocalHandle(low_u32(self.locals.len()));
        self.locals.push(local_type);
        handle
    }

    /// Emits the code that prints each byte of `s` through the first
    /// function.
    pub fn emit_print_string(&mut self, s: &str)
        ensures
            final(self).written() == old(self).written() + print_string_code(s.spec_bytes()),
            final(self).locals() == old(self).locals(),
    {
        let bytes = s.as_bytes();
        let mut i: usize = 0;
        assert(bytes@.take(0) =~= Seq::<u8>::empty());
        assert(self.written() + Seq::<u8>::empty() =~= self.written());
        while i < bytes.len()
            invariant
                i <= bytes.len(),
                bytes@ == s.spec_bytes(),
                self.written() == old(self).written() + print_string_code(bytes@.take(i as int)),
                self.locals() == old(self).locals(),
            decreases bytes.len() - i,
        {
            let ghost before = self.written();
            self.emit(Instruction::PushI32(bytes[i] as i32));
            self.emit(Instruction::Call(0));
            proof {
                let prefix = bytes@.take(i as int);
                let next = bytes@.take(i + 1);
                assert(next.drop_last() =~= prefix);
                assert(self.written() =~= old(self).written() + print_string_code(next));
            }
            i += 1;
        }
        assert(bytes@.take(i as int) =~= bytes@);
    }

    /// Emits one operation.
    pub fn emit(&mut self, op: Instruction)
        ensures
            final(self).written() == old(self).written() + instruction_bytes(op),
            final(self).locals() == old(self).locals(),
    {
        let ghost before = self.stream@;
        match op {
            Instruction::GetLocal(handle) => {
                write_byte(&mut self.stream, 0x20);
                self.stream.write_local(handle);
            },
            Instruction::SetLocal(handle) => {
                write_byte(&mut self.stream, 0x21);
                self.stream.write_local(handle);
            },
            Instruction::PushI32(value) => {
                write_byte(&mut self.stream, 0x41);
                self.stream.write_leb_i32(value);
            },
            Instruction::Load8Signed(offset) => {
                write_byte(&mut self.stream, 0x2C);
                self.stream.write_leb_u32(0);
                self.stream.write_leb_u32(offset);
            },
            Instruction::Load8Unsigned(offset) => {
                write_byte(&mut self.stream, 0x2D);
                self.stream.write_leb_u32(0);
                self.stream.write_leb_u32(offset);
            },
            Instruction::Store8(offset) => {
                write_byte(&mut self.stream, 0x3A);
                self.stream.write_leb_u32(0);
                self.stream.write_leb_u32(offset);
            },
            Instruction::AddI32 => {
                write_byte(&mut self.stream, 0x6A);
            },
            Instruction::Call(function) => {
                write_byte(&mut self.stream, 0x10);
                self.stream.write_leb_u32(function);
            },
            Instruction::BranchIf(depth) => {
                write_byte(&mut self.stream, 0x0D);
                self.stream.write_leb_u32(depth);
            },
            Instruction::EqualsZeroI32 => {
                write_byte(&mut self.stream, 0x45);
            },
            Instruction::Loop => {
                write_byte(&mut self.stream, 0x03);
                write_byte(&mut self.stream, 0x40);
            },
            Instruction::Block => {
                write_byte(&mut self.stream, 0x02);
                write_byte(&mut self.stream, 0x40);
            },
            Instruction::End => {
                write_byte(&mut self.stream, 0x0B);
            },
            Instruction::Drop => {
                write_byte(&mut self.stream, 0x1A);
            },
            Instruction::Return => {
                write_byte(&mut self.stream, 0x0F);
            },
        }
        assert(self.stream@ =~= before + instruction_bytes(op));
    }
}

} // verus!
