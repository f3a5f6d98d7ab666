//! The module builder: the sections of a binary module, put together around
//! the encoded body of its one function.

use crate::backend::wasm::code_stream::{
    instruction_bytes, le_bytes_u32, leb128_unsigned, low_i32, low_u32, str_bytes, wrap_i32,
    wrap_u32, write_byte, write_u32_le, CodeStreamExt, CodeStreamWriter, Instruction, LocalHandle,
    WasmType,
};
use crate::types::{lemma_loop_view, tokens_of, Instr, MemoryOp, ProgramToken};
use vstd::prelude::*;
use vstd::string::StringSliceAdditionalSpecFns;

verus! {

/// The first four bytes of every module, as a number.
pub const MAGIC: u32 = 0x6d736100;

/// The version of the binary format.
pub const VERSION: u32 = 1;

/// One section of a module: its numeric id and its payload.
pub struct Section {
    pub id: u8,
    pub data: Vec<u8>,
}

/// The model of a section: its id and the bytes of its payload.
pub ghost struct SectionModel {
    pub id: u8,
    pub data: Seq<u8>,
}

impl View for Section {
    type V = SectionModel;

    open spec fn view(&self) -> SectionModel {
        SectionModel { id: self.id, data: self.data@ }
    }
}

/// The sections of a module, in the order in which they were added.
pub struct ModuleBuilder {
    sections: Vec<Section>,
}

/// All the bytes of a sequence of byte strings, in order.
pub open spec fn concat_all(parts: Seq<Seq<u8>>) -> Seq<u8>
    decreases parts.len(),
{
    if parts.len() == 0 {
        Seq::empty()
    } else {
        concat_all(parts.drop_last()) + parts.last()
    }
}

/// The payload of a section with the given entries: their number, cut down
/// to 32 bits, as an unsigned LEB128 number, then the entries.
pub open spec fn section_data(entries: Seq<Seq<u8>>) -> Seq<u8> {
    leb128_unsigned(wrap_u32(entries.len() as int) as nat) + concat_all(entries)
}

/// A sorted sequence of sections with one more section put in: behind the
/// last section whose id is not greater than its own.
pub open spec fn insert_by_id(sorted: Seq<SectionModel>, section: SectionModel) -> Seq<
    SectionModel,
>
    decreases sorted.len(),
{
    if sorted.len() == 0 || sorted.last().id <= section.id {
        sorted.push(section)
    } else {
        insert_by_id(sorted.drop_last(), section).push(sorted.last())
    }
}

/// The sections in ascending order of their ids; sections with one id keep
/// the order in which they were added.
pub open spec fn sort_by_id(sections: Seq<SectionModel>) -> Seq<SectionModel>
    decreases sections.len(),
{
    if sections.len() == 0 {
        Seq::empty()
    } else {
        insert_by_id(sort_by_id(sections.drop_last()), sections.last())
    }
}

/// The bytes of one section in a module: its id, the length of its payload,
/// cut down to 32 bits, as an unsigned LEB128 number, and the payload.
pub open spec fn section_bytes(section: SectionModel) -> Seq<u8> {
    seq![section.id] + leb128_unsigned(wrap_u32(section.data.len() as int) as nat)
        + section.data
}

/// The bytes of a sequence of sections, one after the other.
pub open spec fn sections_bytes(sections: Seq<SectionModel>) -> Seq<u8>
    decreases sections.len(),
{
    if sections.len() == 0 {
        Seq::empty()
    } else {
        sections_bytes(sections.drop_last()) + section_bytes(sections.last())
    }
}

/// The bytes of a module with the given sections: the magic number and the
/// version, four bytes each with the low byte first, then the sections in
/// ascending order of their ids.
pub open spec fn module_bytes(sections: Seq<SectionModel>) -> Seq<u8> {
    le_bytes_u32(MAGIC) + le_bytes_u32(VERSION) + sections_bytes(sort_by_id(sections))
}

/// Whether ids never fall from one section to the next.
pub open spec fn ascending(sections: Seq<SectionModel>) -> bool {
    forall|i: int, j: int| 0 <= i < j < sections.len() ==> sections[i].id <= sections[j].id
}

/// Putting a section into a sorted sequence keeps it sorted, and puts the
/// section at the place that the lemma's result names: behind every section
/// whose id is not greater, before every section whose id is greater.
pub proof fn lemma_insert_by_id(sorted: Seq<SectionModel>, section: SectionModel) -> (place: int)
    requires
        ascending(sorted),
    ensures
        0 <= place <= sorted.len(),
        insert_by_id(sorted, section) == sorted.take(place).push(section) + sorted.skip(place),
        forall|i: int| 0 <= i < place ==> sorted[i].id <= section.id,
        forall|i: int| place <= i < sorted.len() ==> sorted[i].id > section.id,
        ascending(insert_by_id(sorted, section)),
    decreases sorted.len(),
{
    if sorted.len() == 0 || sorted.last().id <= section.id {
        let place = sorted.len() as int;
        assert(sorted.push(section) =~= sorted.take(place).push(section) + sorted.skip(place));
        assert forall|i: int| 0 <= i < place implies sorted[i].id <= section.id by {
            if i < place - 1 {
                assert(sorted[i].id <= sorted[place - 1].id);
            }
        }
        place
    } else {
        let front = sorted.drop_last();
        assert forall|i: int, j: int| 0 <= i < j < front.len() implies front[i].id
            <= front[j].id by {
            assert(sorted[i].id <= sorted[j].id);
        }
        let place = lemma_insert_by_id(front, section);
        let whole = insert_by_id(sorted, section);
        assert(front.take(place) =~= sorted.take(place));
        assert(whole =~= sorted.take(place).push(section) + sorted.skip(place));
        assert forall|i: int| 0 <= i < place implies sorted[i].id <= section.id by {
            assert(front[i].id <= section.id);
        }
        assert forall|i: int| place <= i < sorted.len() implies sorted[i].id > section.id by {
            if i < front.len() {
                assert(front[i].id > section.id);
            }
        }
        assert forall|i: int, j: int| 0 <= i < j < whole.len() implies whole[i].id
            <= whole[j].id by {
            if j < place {
                assert(sorted[i].id <= sorted[j].id);
            } else if j == place {
                assert(sorted[i].id <= section.id);
            } else if i < place {
                assert(sorted[i].id <= sorted[j - 1].id);
            } else if i == place {
                assert(sorted[j - 1].id > section.id);
            } else {
                assert(sorted[i - 1].id <= sorted[j - 1].id);
            }
        }
        place
    }
}

/// Sorting yields an ascending sequence of the same length.
pub proof fn lemma_sort_by_id(sections: Seq<SectionModel>)
    ensures
        ascending(sort_by_id(sections)),
        sort_by_id(sections).len() == sections.len(),
    decreases sections.len(),
{
    if sections.len() > 0 {
        lemma_sort_by_id(sections.drop_last());
        lemma_insert_by_id(sort_by_id(sections.drop_last()), sections.last());
    }
}

/// Sorting keeps the sections: each occurs as often after it as before.
pub proof fn lemma_sort_by_id_permutes(sections: Seq<SectionModel>)
    ensures
        sort_by_id(sections).to_multiset() == sections.to_multiset(),
    decreases sections.len(),
{
    broadcast use vstd::seq_lib::group_to_multiset_ensures;

    if sections.len() > 0 {
        let front = sections.drop_last();
        let last = sections.last();
        lemma_sort_by_id_permutes(front);
        lemma_sort_by_id(front);
        let sorted = sort_by_id(front);
        let place = lemma_insert_by_id(sorted, last);
        assert(sections =~= front.push(last));
        assert(sorted =~= sorted.take(place) + sorted.skip(place));
        vstd::seq_lib::lemma_multiset_commutative(sorted.take(place), sorted.skip(place));
        vstd::seq_lib::lemma_multiset_commutative(
            sorted.take(place).push(last),
            sorted.skip(place),
        );
        assert(sort_by_id(sections).to_multiset() =~= sorted.to_multiset().insert(last));
    } else {
        assert(sections =~= Seq::<SectionModel>::empty());
    }
}

/// A sequence that is ascending already is its own sorted form.
pub proof fn lemma_sort_ascending(sections: Seq<SectionModel>)
    requires
        ascending(sections),
    ensures
        sort_by_id(sections) == sections,
    decreases sections.len(),
{
    if sections.len() > 0 {
        lemma_sort_ascending(sections.drop_last());
        assert(sections.drop_last().push(sections.last()) =~= sections);
    }
}

/// The models of a sequence of sections.
pub open spec fn section_models(sections: Seq<Section>) -> Seq<SectionModel> {
    sections.map_values(|section: Section| section@)
}

/// The sections picked by `order`, one for each index in it.
pub open spec fn picked(sections: Seq<SectionModel>, order: Seq<usize>) -> Seq<SectionModel> {
    Seq::new(order.len(), |k: int| sections[order[k] as int])
}

/// The positions of the sections in ascending order of their ids.
fn sorted_order(sections: &Vec<Section>) -> (order: Vec<usize>)
    ensures
        order.len() == sections.len(),
        forall|k: int| 0 <= k < order.len() ==> order[k] < sections.len(),
        picked(section_models(sections@), order@) == sort_by_id(section_models(sections@)),
{
    let ghost models = section_models(sections@);
    let mut order: Vec<usize> = Vec::new();
    let mut i: usize = 0;
    assert(models.take(0) =~= Seq::<SectionModel>::empty());
    assert(picked(models, order@) =~= Seq::<SectionModel>::empty());
    while i < sections.len()
        invariant
            i <= sections.len(),
            models == section_models(sections@),
            order.len() == i,
            forall|k: int| 0 <= k < order.len() ==> order[k] < sections.len(),
            picked(models, order@) == sort_by_id(models.take(i as int)),
        decreases sections.len() - i,
    {
        let ghost sorted = picked(models, order@);
        let ghost section = models[i as int];
        let id = sections[i].id;
        proof {
            lemma_sort_by_id(models.take(i as int));
            assert(models.take(i + 1).drop_last() =~= models.take(i as int));
            assert(models.take(i + 1).last() == section);
        }
        let ghost place = lemma_insert_by_id(sorted, section);
        let mut at: usize = order.len();
        while at > 0 && sections[order[at - 1]].id > id
            invariant
                at <= order.len(),
                order.len() == i,
                i < sections.len(),
                models == section_models(sections@),
                sorted == picked(models, order@),
                id == section.id,
                forall|k: int| 0 <= k < order.len() ==> order[k] < sections.len(),
                forall|k: int| at <= k < sorted.len() ==> sorted[k].id > id,
            decreases at,
        {
            assert(sorted[at - 1].id > id);
            at -= 1;
        }
        proof {
            if at > 0 {
                assert(sorted[at - 1].id <= id);
            }
            if at < place {
                assert(sorted[at as int].id > id);
                assert(sorted[at as int].id <= section.id);
            }
            if place < at {
                assert(sorted[at - 1].id <= id);
                assert(sorted[at - 1].id > section.id);
            }
            assert(at == place);
        }
        let ghost old_order = order@;
        order.insert(at, i);
        proof {
            assert(order@ =~= old_order.take(place).push(i) + old_order.skip(place));
            assert(picked(models, order@) =~= sorted.take(place).push(section) + sorted.skip(
                place,
            ));
        }
        i += 1;
    }
    assert(models.take(i as int) =~= models);
    order
}

impl ModuleBuilder {
    /// The sections added so far, in the order in which they were added.
    pub closed spec fn sections(&self) -> Seq<SectionModel> {
        section_models(self.sections@)
    }

    /// A builder with no section.
    pub fn new() -> (builder: ModuleBuilder)
        ensures
            builder.sections() == Seq::<SectionModel>::empty(),
    {
        let builder = ModuleBuilder { sections: Vec::new() };
        assert(builder.sections() =~= Seq::<SectionModel>::empty());
        builder
    }

    /// Adds a section with the given id, whose payload is the number of
    /// entries followed by the entries.
    pub fn add_section(&mut self, id: u8, entries: &[Vec<u8>])
        ensures
            final(self).sections() == old(self).sections().push(
                (SectionModel { id, data: section_data(entries@.map_values(|entry: Vec<u8>| entry@)) }),
            ),
    {
        let ghost parts = entries@.map_values(|entry: Vec<u8>| entry@);
        let mut data: Vec<u8> = Vec::new();
        data.write_leb_u32(low_u32(entries.len()));
        let ghost count = data@;
        let mut i: usize = 0;
        assert(parts.take(0) =~= Seq::<Seq<u8>>::empty());
        assert(data@ =~= count + concat_all(parts.take(0)));
        while i < entries.len()
            invariant
                i <= entries.len(),
                parts == entries@.map_values(|entry: Vec<u8>| entry@),
                data@ == count + concat_all(parts.take(i as int)),
            decreases entries.len() - i,
        {
            let ghost before = data@;
            data.extend_from_slice(entries[i].as_slice());
            proof {
                assert(parts.take(i + 1).drop_last() =~= parts.take(i as int));
                assert(parts.take(i + 1).last() == entries@[i as int]@);
                assert(data@ =~= count + concat_all(parts.take(i + 1)));
            }
            i += 1;
        }
        assert(parts.take(i as int) =~= parts);
        let ghost before = self.sections();
        self.sections.push(Section { id, data });
        assert(self.sections() =~= before.push(SectionModel { id, data: section_data(parts) }));
    }

    /// Appends the module to the stream: the header, then the sections in
    /// ascending order of their ids.
    pub fn write_to_stream(self, stream: &mut Vec<u8>)
        ensures
            final(stream)@ == old(stream)@ + module_bytes(self.sections()),
    {
        let ghost models = self.sections();
        let order = sorted_order(&self.sections);
        let ghost sorted = sort_by_id(models);
        write_u32_le(stream, MAGIC);
        write_u32_le(stream, VERSION);
        let ghost header = stream@;
        let mut k: usize = 0;
        assert(sorted.take(0) =~= Seq::<SectionModel>::empty());
        assert(stream@ =~= header + sections_bytes(sorted.take(0)));
        while k < order.len()
            invariant
                k <= order.len(),
                order.len() == self.sections.len(),
                models == section_models(self.sections@),
                sorted == picked(models, order@),
                forall|j: int| 0 <= j < order.len() ==> order[j] < self.sections.len(),
                stream@ == header + sections_bytes(sorted.take(k as int)),
            decreases order.len() - k,
        {
            let section = &self.sections[order[k]];
            let ghost before = stream@;
            write_byte(stream, section.id);
            stream.write_leb_u32(low_u32(section.data.len()));
            stream.extend_from_slice(section.data.as_slice());
            proof {
                assert(sorted.take(k + 1).drop_last() =~= sorted.take(k as int));
                assert(sorted.take(k + 1).last() == section@);
                assert(stream@ =~= before + section_bytes(section@));
                assert(stream@ =~= header + sections_bytes(sorted.take(k + 1)));
            }
            k += 1;
        }
        assert(sorted.take(k as int) =~= sorted);
        assert(stream@ =~= old(stream)@ + module_bytes(models));
    }
}

/// The index of the imported function that prints a byte.
pub const PRINT_FUNCTION: u32 = 0;

/// The code that puts on the stack the address from which an access at
/// `offset` from the pointer is made: the pointer itself where the access can
/// carry the offset, else the pointer and the offset added up.
pub open spec fn address_code(pointer: LocalHandle, offset: int) -> Seq<u8> {
    if offset >= 0 {
        instruction_bytes(Instruction::GetLocal(pointer))
    } else {
        instruction_bytes(Instruction::GetLocal(pointer)) + instruction_bytes(
            Instruction::PushI32(wrap_i32(offset)),
        ) + instruction_bytes(Instruction::AddI32)
    }
}

/// The offset that an access at `offset` from the pointer carries in its
/// immediate operand, which cannot be negative: the offset itself, cut down
/// to 32 bits, where it is not negative, else zero.
pub open spec fn access_offset(offset: int) -> u32 {
    if offset >= 0 {
        wrap_u32(offset)
    } else {
        0
    }
}

/// The code of one instruction, with the pointer in the local `pointer`.
pub open spec fn code_of(pointer: LocalHandle, instr: Instr) -> Seq<u8>
    decreases instr,
{
    match instr {
        Instr::ChangeAddr(delta) => instruction_bytes(Instruction::GetLocal(pointer))
            + instruction_bytes(Instruction::PushI32(wrap_i32(delta))) + instruction_bytes(
            Instruction::AddI32,
        ) + instruction_bytes(Instruction::SetLocal(pointer)),
        Instr::Offset(offset, MemoryOp::ChangeValue(value)) => address_code(pointer, offset)
            + address_code(pointer, offset) + instruction_bytes(
            Instruction::Load8Unsigned(access_offset(offset)),
        ) + instruction_bytes(Instruction::PushI32(value as i32)) + instruction_bytes(
            Instruction::AddI32,
        ) + instruction_bytes(Instruction::Store8(access_offset(offset))),
        Instr::Offset(offset, MemoryOp::SetValue(value)) => address_code(pointer, offset)
            + instruction_bytes(Instruction::PushI32(value as i32)) + instruction_bytes(
            Instruction::Store8(access_offset(offset)),
        ),
        Instr::Offset(offset, MemoryOp::Print) => address_code(pointer, offset)
            + instruction_bytes(Instruction::Load8Unsigned(access_offset(offset)))
            + instruction_bytes(Instruction::Call(PRINT_FUNCTION)),
        Instr::Loop(body) => loop_entry_code(pointer) + code_of_all(pointer, body)
            + loop_exit_code(pointer),
    }
}

/// The code before a loop's body: a block that is left at once where the
/// cell under the pointer is zero, and in it the loop.
pub open spec fn loop_entry_code(pointer: LocalHandle) -> Seq<u8> {
    instruction_bytes(Instruction::Block) + instruction_bytes(Instruction::GetLocal(pointer))
        + instruction_bytes(Instruction::Load8Unsigned(0)) + instruction_bytes(
        Instruction::EqualsZeroI32,
    ) + instruction_bytes(Instruction::BranchIf(0)) + instruction_bytes(Instruction::Loop)
}

/// The code behind a loop's body: the branch back to the loop's start while
/// the cell under the pointer is not zero, and the ends of loop and block.
pub open spec fn loop_exit_code(pointer: LocalHandle) -> Seq<u8> {
    instruction_bytes(Instruction::GetLocal(pointer)) + instruction_bytes(
        Instruction::Load8Unsigned(0),
    ) + instruction_bytes(Instruction::BranchIf(0)) + instruction_bytes(Instruction::End)
        + instruction_bytes(Instruction::End)
}

/// The code of a sequence of instructions, one after the other.
pub open spec fn code_of_all(pointer: LocalHandle, instrs: Seq<Instr>) -> Seq<u8>
    decreases instrs,
{
    if instrs.len() == 0 {
        Seq::empty()
    } else {
        code_of_all(pointer, instrs.drop_last()) + code_of(pointer, instrs.last())
    }
}

/// Emits the code that puts the address of an access on the stack.
fn emit_address(writer: &mut CodeStreamWriter, pointer: LocalHandle, offset: isize)
    ensures
        final(writer).written() == old(writer).written() + address_code(pointer, offset as int),
        final(writer).locals() == old(writer).locals(),
{
    writer.emit(Instruction::GetLocal(pointer));
    if offset < 0 {
        writer.emit(Instruction::PushI32(low_i32(offset)));
        writer.emit(Instruction::AddI32);
    }
    assert(writer.written() =~= old(writer).written() + address_code(pointer, offset as int));
}

/// The immediate offset of an access.
fn immediate_offset(offset: isize) -> (immediate: u32)
    ensures
        immediate == access_offset(offset as int),
{
    if offset >= 0 {
        low_u32(offset as usize)
    } else {
        0
    }
}

/// Emits the code of a sequence of tokens.
pub fn emit_tokens(writer: &mut CodeStreamWriter, pointer: LocalHandle, tokens: &[ProgramToken])
    ensures
        final(writer).written() == old(writer).written() + code_of_all(
            pointer,
            tokens.deep_view(),
        ),
        final(writer).locals() == old(writer).locals(),
    decreases tokens@,
{
    let ghost instrs = tokens.deep_view();
    let mut i: usize = 0;
    assert(instrs.take(0) =~= Seq::<Instr>::empty());
    assert(writer.written() =~= old(writer).written() + code_of_all(pointer, instrs.take(0)));
    while i < tokens.len()
        invariant
            i <= tokens.len(),
            instrs == tokens.deep_view(),
            writer.written() == old(writer).written() + code_of_all(
                pointer,
                instrs.take(i as int),
            ),
            writer.locals() == old(writer).locals(),
        decreases tokens.len() - i,
    {
        let ghost before = writer.written();
        emit_token(writer, pointer, &tokens[i]);
        proof {
            assert(instrs.take(i + 1).drop_last() =~= instrs.take(i as int));
            assert(instrs.take(i + 1).last() == tokens@[i as int].deep_view());
            assert(writer.written() =~= old(writer).written() + code_of_all(
                pointer,
                instrs.take(i + 1),
            ));
        }
        i += 1;
    }
    assert(instrs.take(i as int) =~= instrs);
}

/// Emits the code of one token: a move adds to the pointer; an operation
/// reaches its cell through the immediate offset of the access where the
/// offset is not negative, and through an address computed on the stack
/// where it is; a loop becomes a guarded block around a loop that repeats
/// while the cell under the pointer is not zero.
pub fn emit_token(writer: &mut CodeStreamWriter, pointer: LocalHandle, token: &ProgramToken)
    ensures
        final(writer).written() == old(writer).written() + code_of(pointer, token.deep_view()),
        final(writer).locals() == old(writer).locals(),
    decreases token,
{
    let ghost before = writer.written();
    match token {
        ProgramToken::ChangeAddr(by) => {
            writer.emit(Instruction::GetLocal(pointer));
            writer.emit(Instruction::PushI32(low_i32(*by)));
            writer.emit(Instruction::AddI32);
            writer.emit(Instruction::SetLocal(pointer));
        },
        ProgramToken::Offset(addr_offset, MemoryOp::ChangeValue(value)) => {
            emit_address(writer, pointer, *addr_offset);
            emit_address(writer, pointer, *addr_offset);
            writer.emit(Instruction::Load8Unsigned(immediate_offset(*addr_offset)));
            writer.emit(Instruction::PushI32(*value as i32));
            writer.emit(Instruction::AddI32);
            writer.emit(Instruction::Store8(immediate_offset(*addr_offset)));
        },
        ProgramToken::Offset(addr_offset, MemoryOp::SetValue(value)) => {
            emit_address(writer, pointer, *addr_offset);
            writer.emit(Instruction::PushI32(*value as i32));
            writer.emit(Instruction::Store8(immediate_offset(*addr_offset)));
        },
        ProgramToken::Offset(addr_offset, MemoryOp::Print) => {
            emit_address(writer, pointer, *addr_offset);
            writer.emit(Instruction::Load8Unsigned(immediate_offset(*addr_offset)));
            writer.emit(Instruction::Call(PRINT_FUNCTION));
        },
        ProgramToken::Loop(body) => {
            writer.emit(Instruction::Block);
            writer.emit(Instruction::GetLocal(pointer));
            writer.emit(Instruction::Load8Unsigned(0));
            writer.emit(Instruction::EqualsZeroI32);
            writer.emit(Instruction::BranchIf(0));
            writer.emit(Instruction::Loop);
            assert(writer.written() =~= before + loop_entry_code(pointer));
            emit_tokens(writer, pointer, tokens_of(body));
            let ghost inside = writer.written();
            writer.emit(Instruction::GetLocal(pointer));
            writer.emit(Instruction::Load8Unsigned(0));
            writer.emit(Instruction::BranchIf(0));
            writer.emit(Instruction::End);
            writer.emit(Instruction::End);
            proof {
                lemma_loop_view(*body);
                assert(writer.written() =~= inside + loop_exit_code(pointer));
            }
        },
    }
    assert(writer.written() =~= before + code_of(pointer, token.deep_view()));
}

/// One more part adds its bytes behind those of the parts before it.
pub proof fn lemma_concat_push(parts: Seq<Seq<u8>>, part: Seq<u8>)
    ensures
        concat_all(parts.push(part)) == concat_all(parts) + part,
{
    assert(parts.push(part).drop_last() =~= parts);
}

/// The payload of a section with one entry.
pub proof fn lemma_section_of_one(a: Seq<u8>)
    ensures
        section_data(seq![a]) == seq![1u8] + a,
{
    let none = Seq::<Seq<u8>>::empty();
    lemma_concat_push(none, a);
    assert(seq![a] =~= none.push(a));
    assert(section_data(seq![a]) =~= seq![1u8] + a);
}

/// The payload of a section with two entries.
pub proof fn lemma_section_of_two(a: Seq<u8>, b: Seq<u8>)
    ensures
        section_data(seq![a, b]) == seq![2u8] + a + b,
{
    let none = Seq::<Seq<u8>>::empty();
    lemma_concat_push(none, a);
    lemma_concat_push(none.push(a), b);
    assert(seq![a, b] =~= none.push(a).push(b));
    assert(section_data(seq![a, b]) =~= seq![2u8] + a + b);
}

/// The payload of a section with three entries.
pub proof fn lemma_section_of_three(a: Seq<u8>, b: Seq<u8>, c: Seq<u8>)
    ensures
        section_data(seq![a, b, c]) == seq![3u8] + a + b + c,
{
    let none = Seq::<Seq<u8>>::empty();
    lemma_concat_push(none, a);
    lemma_concat_push(none.push(a), b);
    lemma_concat_push(none.push(a).push(b), c);
    assert(seq![a, b, c] =~= none.push(a).push(b).push(c));
    assert(section_data(seq![a, b, c]) =~= seq![3u8] + a + b + c);
}

/// The payload of the type section: the signatures of the print function
/// (one 32-bit parameter, no result), of the read function and of the main
/// function (no parameter, one 32-bit result).
pub open spec fn type_section() -> Seq<u8> {
    seq![3u8, 0x60, 1, 0x7F, 0, 0x60, 0, 1, 0x7F, 0x60, 0, 1, 0x7F]
}

/// Adds the type section.
pub fn add_type_section(builder: &mut ModuleBuilder)
    ensures
        final(builder).sections() == old(builder).sections().push(
            (SectionModel { id: 1, data: type_section() }),
        ),
{
    let mut print: Vec<u8> = Vec::new();
    write_byte(&mut print, 0x60);
    print.write_leb_u32(1);
    write_byte(&mut print, 0x7F);
    print.write_leb_u32(0);
    let mut read: Vec<u8> = Vec::new();
    write_byte(&mut read, 0x60);
    read.write_leb_u32(0);
    read.write_leb_u32(1);
    write_byte(&mut read, 0x7F);
    let mut main: Vec<u8> = Vec::new();
    write_byte(&mut main, 0x60);
    main.write_leb_u32(0);
    main.write_leb_u32(1);
    write_byte(&mut main, 0x7F);
    let ghost parts = seq![print@, read@, main@];
    let entries = vec![print, read, main];
    proof {
        assert(entries@.map_values(|entry: Vec<u8>| entry@) =~= parts);
        lemma_section_of_three(print@, read@, main@);
        assert(section_data(parts) =~= type_section());
    }
    builder.add_section(1, entries.as_slice());
}

/// The name of the host module that the imports come from, as a string
/// field.
pub open spec fn host_name() -> Seq<u8> {
    seq![5u8, 0x62, 0x66, 0x63, 0x72, 0x73]
}

/// The payload of the import section: the functions `print` and `read` of
/// the host module, with the first and the second signature of the type
/// section.
pub open spec fn import_section() -> Seq<u8> {
    seq![2u8] + host_name() + seq![5u8, 0x70, 0x72, 0x69, 0x6E, 0x74, 0, 0] + host_name()
        + seq![4u8, 0x72, 0x65, 0x61, 0x64, 0, 1]
}

/// The payload of the function section: one function, with the third
/// signature of the type section.
pub open spec fn function_section() -> Seq<u8> {
    seq![1u8, 2]
}

/// The payload of the memory section: one memory without an upper limit,
/// of `page_count` pages at the start.
pub open spec fn memory_section(page_count: u32) -> Seq<u8> {
    seq![1u8, 0] + leb128_unsigned(page_count as nat)
}

/// The payload of the export section: the function under the name `main`
/// and the memory under the name `memory`.
pub open spec fn export_section() -> Seq<u8> {
    seq![
        2u8,
        4,
        0x6D,
        0x61,
        0x69,
        0x6E,
        0,
        2,
        6,
        0x6D,
        0x65,
        0x6D,
        0x6F,
        0x72,
        0x79,
        2,
        0,
    ]
}

/// The body of the main function: the declaration of its one local, the
/// pointer, of 32 bits; the code of the program; and the return of the
/// pointer.
pub open spec fn function_body(program: Seq<Instr>) -> Seq<u8> {
    seq![1u8, 1, 0x7F] + code_of_all(LocalHandle(0), program) + instruction_bytes(
        Instruction::GetLocal(LocalHandle(0)),
    ) + instruction_bytes(Instruction::Return) + instruction_bytes(Instruction::End)
}

/// The payload of the code section: one function body, with its length in
/// bytes, cut down to 32 bits, before it as an unsigned LEB128 number.
pub open spec fn code_section(program: Seq<Instr>) -> Seq<u8> {
    seq![1u8] + leb128_unsigned(wrap_u32(function_body(program).len() as int) as nat)
        + function_body(program)
}

/// The bytes of a name made of ASCII characters are the characters' codes.
proof fn lemma_ascii_name(name: &str)
    requires
        vstd::string::is_ascii(name),
    ensures
        name.spec_bytes().len() == name@.len(),
        forall|i: int| 0 <= i < name@.len() ==> name.spec_bytes()[i] == name@[i] as u8,
{
    vstd::string::is_ascii_spec_bytes(name);
}

/// Adds the import section.
pub fn add_import_section(builder: &mut ModuleBuilder)
    ensures
        final(builder).sections() == old(builder).sections().push(
            (SectionModel { id: 2, data: import_section() }),
        ),
{
    proof {
        reveal_strlit("bfcrs");
        reveal_strlit("print");
        reveal_strlit("read");
        lemma_ascii_name("bfcrs");
        lemma_ascii_name("print");
        lemma_ascii_name("read");
        assert(str_bytes("bfcrs".spec_bytes()) =~= host_name());
        assert(str_bytes("print".spec_bytes()) =~= seq![5u8, 0x70, 0x72, 0x69, 0x6E, 0x74]);
        assert(str_bytes("read".spec_bytes()) =~= seq![4u8, 0x72, 0x65, 0x61, 0x64]);
    }
    let mut print: Vec<u8> = Vec::new();
    print.write_str("bfcrs");
    print.write_str("print");
    write_byte(&mut print, 0);
    print.write_leb_u32(0);
    let mut read: Vec<u8> = Vec::new();
    read.write_str("bfcrs");
    read.write_str("read");
    write_byte(&mut read, 0);
    read.write_leb_u32(1);
    let ghost parts = seq![print@, read@];
    let entries = vec![print, read];
    proof {
        assert(entries@.map_values(|entry: Vec<u8>| entry@) =~= parts);
        lemma_section_of_two(print@, read@);
        assert(section_data(parts) =~= import_section());
    }
    builder.add_section(2, entries.as_slice());
}

/// Adds the memory section, for a memory of `page_count` pages.
pub fn add_memory_section(builder: &mut ModuleBuilder, page_count: u32)
    ensures
        final(builder).sections() == old(builder).sections().push(
            (SectionModel { id: 5, data: memory_section(page_count) }),
        ),
{
    let mut memory: Vec<u8> = Vec::new();
    write_byte(&mut memory, 0);
    memory.write_leb_u32(page_count);
    let ghost parts = seq![memory@];
    let entries = vec![memory];
    proof {
        assert(entries@.map_values(|entry: Vec<u8>| entry@) =~= parts);
        lemma_section_of_one(memory@);
        assert(section_data(parts) =~= memory_section(page_count));
    }
    builder.add_section(5, entries.as_slice());
}

/// Adds the function section.
pub fn add_function_section(builder: &mut ModuleBuilder)
    ensures
        final(builder).sections() == old(builder).sections().push(
            (SectionModel { id: 3, data: function_section() }),
        ),
{
    let mut main: Vec<u8> = Vec::new();
    write_byte(&mut main, 2);
    let ghost parts = seq![main@];
    let entries = vec![main];
    proof {
        assert(entries@.map_values(|entry: Vec<u8>| entry@) =~= parts);
        lemma_section_of_one(main@);
        assert(section_data(parts) =~= function_section());
    }
    builder.add_section(3, entries.as_slice());
}

/// Adds the export section.
pub fn add_export_section(builder: &mut ModuleBuilder)
    ensures
        final(builder).sections() == old(builder).sections().push(
            (SectionModel { id: 7, data: export_section() }),
        ),
{
    proof {
        reveal_strlit("main");
        reveal_strlit("memory");
        lemma_ascii_name("main");
        lemma_ascii_name("memory");
        assert(str_bytes("main".spec_bytes()) =~= seq![4u8, 0x6D, 0x61, 0x69, 0x6E]);
        assert(str_bytes("memory".spec_bytes()) =~= seq![
            6u8,
            0x6D,
            0x65,
            0x6D,
            0x6F,
            0x72,
            0x79,
        ]);
    }
    let mut main: Vec<u8> = Vec::new();
    main.write_str("main");
    write_byte(&mut main, 0);
    write_byte(&mut main, 2);
    let mut memory: Vec<u8> = Vec::new();
    memory.write_str("memory");
    write_byte(&mut memory, 2);
    write_byte(&mut memory, 0);
    let ghost parts = seq![main@, memory@];
    let entries = vec![main, memory];
    proof {
        assert(entries@.map_values(|entry: Vec<u8>| entry@) =~= parts);
        lemma_section_of_two(main@, memory@);
        assert(section_data(parts) =~= export_section());
    }
    builder.add_section(7, entries.as_slice());
}

/// Adds the code section, with the body of the main function: the program,
/// then the return of the pointer.
pub fn add_code_section(builder: &mut ModuleBuilder, tokens: &[ProgramToken])
    ensures
        final(builder).sections() == old(builder).sections().push(
            (SectionModel { id: 10, data: code_section(tokens.deep_view()) }),
        ),
{
    let mut writer = CodeStreamWriter::new(Vec::new());
    let pointer = writer.declare_local(WasmType::I32);
    emit_tokens(&mut writer, pointer, tokens);
    writer.emit(Instruction::GetLocal(pointer));
    writer.emit(Instruction::Return);
    writer.emit(Instruction::End);
    let code = writer.into_stream();

    let mut code_body: Vec<u8> = Vec::new();
    code_body.write_leb_u32(1);
    code_body.write_leb_u32(1);
    write_byte(&mut code_body, 0x7F);
    code_body.extend_from_slice(code.as_slice());
    assert(code_body@ =~= function_body(tokens.deep_view()));

    let mut code_entry: Vec<u8> = Vec::new();
    code_entry.write_leb_u32(low_u32(code_body.len()));
    code_entry.extend_from_slice(code_body.as_slice());

    let ghost parts = seq![code_entry@];
    let entries = vec![code_entry];
    proof {
        assert(entries@.map_values(|entry: Vec<u8>| entry@) =~= parts);
        lemma_section_of_one(code_entry@);
        assert(section_data(parts) =~= code_section(tokens.deep_view()));
    }
    builder.add_section(10, entries.as_slice());
}

/// The sections of the module of a program, in the order of their ids.
pub open spec fn wasm_sections(program: Seq<Instr>) -> Seq<SectionModel> {
    seq![
        SectionModel { id: 1, data: type_section() },
        SectionModel { id: 2, data: import_section() },
        SectionModel { id: 3, data: function_section() },
        SectionModel { id: 5, data: memory_section(1) },
        SectionModel { id: 7, data: export_section() },
        SectionModel { id: 10, data: code_section(program) },
    ]
}

/// The binary module of a program: the header, then the type, import,
/// function, memory, export and code sections. The memory has one page.
pub open spec fn wasm_module(program: Seq<Instr>) -> Seq<u8> {
    le_bytes_u32(MAGIC) + le_bytes_u32(VERSION) + sections_bytes(wasm_sections(program))
}

/// The binary module of a program.
pub struct WasmModule;

impl WasmModule {
    /// Appends the binary module of a program to the stream.
    pub fn write_to_stream(stream: &mut Vec<u8>, tokens: &[ProgramToken])
        ensures
            final(stream)@ == old(stream)@ + wasm_module(tokens.deep_view()),
    {
        let mut builder = ModuleBuilder::new();
        add_type_section(&mut builder);
        add_import_section(&mut builder);
        add_function_section(&mut builder);
        add_memory_section(&mut builder, 1);
        add_export_section(&mut builder);
        add_code_section(&mut builder, tokens);
        proof {
            let sections = wasm_sections(tokens.deep_view());
            assert(builder.sections() =~= sections);
            lemma_sort_ascending(sections);
        }
        builder.write_to_stream(stream);
    }
}

} // verus!
