//! The disassembler: what the instructions of a chunk are, and the lines of
//! text that list them.
use vstd::prelude::*;
use vstd::string::StringExecFns;
use crate::chunk::{Chunk, ChunkView, OpCode, opcode_of};
use crate::text::{decimal, decimal_text, repeat, repeated};
use crate::value::Value;

verus! {

/// The name of an instruction in a listing.
pub open spec fn mnemonic_text(op: OpCode) -> Seq<char> {
    match op {
        OpCode::Return => "OP_RETURN"@,
        OpCode::Constant => "OP_CONSTANT"@,
        OpCode::Negate => "OP_NEGATE"@,
        OpCode::Add => "OP_ADD"@,
        OpCode::Subtract => "OP_SUBTRACT"@,
        OpCode::Multiply => "OP_MULTIPLY"@,
        OpCode::Divide => "OP_DIVIDE"@,
        OpCode::Nil => "OP_NIL"@,
        OpCode::True => "OP_TRUE"@,
        OpCode::False => "OP_FALSE"@,
        OpCode::Not => "OP_NOT"@,
        OpCode::Equal => "OP_EQUAL"@,
        OpCode::Greater => "OP_GREATER"@,
        OpCode::Less => "OP_LESS"@,
    }
}

/// The name of an instruction in a listing.
pub fn mnemonic(op: OpCode) -> (name: &'static str)
    ensures
        name@ == mnemonic_text(op),
{
    match op {
        OpCode::Return => "OP_RETURN",
        OpCode::Constant => "OP_CONSTANT",
        OpCode::Negate => "OP_NEGATE",
        OpCode::Add => "OP_ADD",
        OpCode::Subtract => "OP_SUBTRACT",
        OpCode::Multiply => "OP_MULTIPLY",
        OpCode::Divide => "OP_DIVIDE",
        OpCode::Nil => "OP_NIL",
        OpCode::True => "OP_TRUE",
        OpCode::False => "OP_FALSE",
        OpCode::Not => "OP_NOT",
        OpCode::Equal => "OP_EQUAL",
        OpCode::Greater => "OP_GREATER",
        OpCode::Less => "OP_LESS",
    }
}

/// What stands at an offset of the code.
#[derive(Debug, Clone, Copy)]
pub enum Decoded {
    /// An instruction without operand.
    Simple(OpCode),
    /// `Constant`, with the index that follows it and the constant there.
    Constant(u8, Value),
    /// A byte that is no instruction.
    Unknown(u8),
}

/// One entry of a listing.
#[derive(Debug, Clone, Copy)]
pub struct Instruction {
    pub offset: usize,
    /// The source line of the byte at the offset.
    pub line: u32,
    /// Whether the byte before is of the same line.
    pub same_line: bool,
    pub decoded: Decoded,
}

impl Instruction {
    /// The number of bytes that the entry stands for.
    pub open spec fn width(self) -> int {
        match self.decoded {
            Decoded::Constant(_, _) => 2,
            _ => 1,
        }
    }
}

/// Whether the code at `offset` can be listed: a byte stands there, and
/// where it is `Constant`, the index of a constant follows it.
pub open spec fn can_list(chunk: ChunkView, offset: int) -> bool {
    &&& 0 <= offset < chunk.code.len()
    &&& chunk.code.len() == chunk.lines.len()
    &&& opcode_of(chunk.code[offset]) == Some(OpCode::Constant) ==> offset + 1 < chunk.code.len()
        && chunk.code[offset + 1] < chunk.constants.len()
}

/// The entry for what stands at `offset`.
pub open spec fn instruction_at(chunk: ChunkView, offset: int) -> Instruction {
    Instruction {
        offset: offset as usize,
        line: chunk.lines[offset],
        same_line: offset > 0 && chunk.lines[offset] == chunk.lines[offset - 1],
        decoded: match opcode_of(chunk.code[offset]) {
            Some(OpCode::Constant) => Decoded::Constant(
                chunk.code[offset + 1],
                chunk.constants[chunk.code[offset + 1] as int],
            ),
            Some(op) => Decoded::Simple(op),
            None => Decoded::Unknown(chunk.code[offset]),
        },
    }
}

/// Whether the code can be listed from `offset` to its end.
pub open spec fn can_list_from(chunk: ChunkView, offset: int) -> bool
    decreases chunk.code.len() - offset,
{
    offset >= chunk.code.len() || (can_list(chunk, offset) && can_list_from(
        chunk,
        offset + instruction_at(chunk, offset).width(),
    ))
}

/// The entries for the code from `offset` on, as far as it can be listed.
pub open spec fn listing(chunk: ChunkView, offset: int) -> Seq<Instruction>
    decreases chunk.code.len() - offset,
{
    if !can_list(chunk, offset) {
        Seq::empty()
    } else {
        seq![instruction_at(chunk, offset)] + listing(
            chunk,
            offset + instruction_at(chunk, offset).width(),
        )
    }
}

/// The entry for what stands at `offset`, and the offset behind it.
pub fn disassemble_instruction(chunk: &Chunk, offset: usize) -> (r: (Instruction, usize))
    requires
        can_list(chunk@, offset as int),
    ensures
        r.0 == instruction_at(chunk@, offset as int),
        r.1 == offset + r.0.width(),
{
    let length = chunk.code_len();
    let line = chunk.get_line(offset);
    let same_line = offset > 0 && line == chunk.get_line(offset - 1);
    let instruction = chunk.get_code(offset);
    match OpCode::try_from(instruction) {
        Ok(code) => match code {
            OpCode::Constant => constant_instruction(chunk, offset, line, same_line),
            _ => simple_instruction(code, offset, line, same_line),
        },
        Err(_) => (
            Instruction { offset, line, same_line, decoded: Decoded::Unknown(instruction) },
            offset + 1,
        ),
    }
}

fn simple_instruction(code: OpCode, offset: usize, line: u32, same_line: bool) -> (r: (
    Instruction,
    usize,
))
    requires
        offset < usize::MAX,
    ensures
        r.0 == (Instruction { offset, line, same_line, decoded: Decoded::Simple(code) }),
        r.1 == offset + 1,
{
    (Instruction { offset, line, same_line, decoded: Decoded::Simple(code) }, offset + 1)
}

fn constant_instruction(chunk: &Chunk, offset: usize, line: u32, same_line: bool) -> (r: (
    Instruction,
    usize,
))
    requires
        offset + 1 < chunk@.code.len(),
        chunk@.code[offset + 1] < chunk@.constants.len(),
    ensures
        r.0 == (Instruction {
            offset,
            line,
            same_line,
            decoded: Decoded::Constant(
                chunk@.code[offset + 1],
                chunk@.constants[chunk@.code[offset + 1] as int],
            ),
        }),
        r.1 == offset + 2,
{
    let _ = chunk.code_len();
    let constant = chunk.get_code(offset + 1);
    let value = chunk.constants().get(constant as usize);
    (Instruction { offset, line, same_line, decoded: Decoded::Constant(constant, value) }, offset + 2)
}

/// The entries for the whole code of the chunk, in order.
pub fn disassemble_chunk(chunk: &Chunk) -> (entries: Vec<Instruction>)
    requires
        can_list_from(chunk@, 0),
    ensures
        entries@ == listing(chunk@, 0),
{
    let mut entries: Vec<Instruction> = Vec::new();
    let mut offset: usize = 0;
    while offset < chunk.code_len()
        invariant
            can_list_from(chunk@, offset as int),
            listing(chunk@, 0) =~= entries@ + listing(chunk@, offset as int),
        decreases chunk@.code.len() - offset,
    {
        let (entry, next) = disassemble_instruction(chunk, offset);
        entries.push(entry);
        offset = next;
    }
    entries
}

/// The heading of a listing: `== name ==`.
pub open spec fn heading_text(name: Seq<char>) -> Seq<char> {
    "== "@ + name + " =="@
}

/// The heading of the listing of a chunk with the given name.
pub fn heading(name: &str) -> (text: String)
    ensures
        text@ == heading_text(name@),
{
    let mut text = "== ".to_owned();
    text.append(name);
    text.append(" ==");
    text
}

/// `text` behind as many of `fill` as bring it to `width` characters.
pub open spec fn right_aligned(text: Seq<char>, width: nat, fill: char) -> Seq<char> {
    repeated(fill, missing(text, width)) + text
}

/// The number of characters that `text` is short of `width`.
pub open spec fn missing(text: Seq<char>, width: nat) -> nat {
    if text.len() < width {
        (width - text.len()) as nat
    } else {
        0
    }
}

/// The line that lists an entry: the offset in four digits, the source
/// line, or `|` where it is that of the byte before, and the instruction;
/// behind `Constant` the index of the constant and its text in quotes.
/// `value_text` is the text of that constant.
pub open spec fn instruction_text(entry: Instruction, value_text: Seq<char>) -> Seq<char> {
    right_aligned(decimal_text(entry.offset as nat), 4, '0') + " "@ + (if entry.same_line {
        "   | "@
    } else {
        right_aligned(decimal_text(entry.line as nat), 4, ' ') + " "@
    }) + (match entry.decoded {
        Decoded::Simple(op) => mnemonic_text(op),
        Decoded::Constant(index, _) => mnemonic_text(OpCode::Constant) + repeated(
            ' ',
            missing(mnemonic_text(OpCode::Constant), 16),
        ) + " "@ + right_aligned(decimal_text(index as nat), 4, ' ') + " '"@ + value_text + "'"@,
        Decoded::Unknown(byte) => "Unknown opcode "@ + decimal_text(byte as nat),
    })
}

fn append_right_aligned(text: &mut String, number: usize, width: usize, fill: &str)
    requires
        fill@.len() == 1,
    ensures
        final(text)@ == old(text)@ + right_aligned(decimal_text(number as nat), width as nat, fill@[0]),
{
    let digits = decimal(number);
    let length = digits.as_str().unicode_len();
    let missing = if length < width {
        width - length
    } else {
        0
    };
    let padding = repeat(fill, missing);
    text.append(padding.as_str());
    text.append(digits.as_str());
    assert(text@ =~= old(text)@ + right_aligned(
        decimal_text(number as nat),
        width as nat,
        fill@[0],
    ));
}

impl Instruction {
    /// The line that lists this entry; `value_text` is the text of the
    /// constant, where the entry is a `Constant`.
    pub fn render(&self, value_text: &str) -> (text: String)
        ensures
            text@ == instruction_text(*self, value_text@),
    {
        proof {
            reveal_strlit("0");
            reveal_strlit(" ");
        }
        let mut text = String::new();
        append_right_aligned(&mut text, self.offset, 4, "0");
        text.append(" ");
        if self.same_line {
            text.append("   | ");
        } else {
            append_right_aligned(&mut text, self.line as usize, 4, " ");
            text.append(" ");
        }
        let ghost start = text@;
        assert(start =~= right_aligned(decimal_text(self.offset as nat), 4, '0') + " "@ + (
        if self.same_line {
            "   | "@
        } else {
            right_aligned(decimal_text(self.line as nat), 4, ' ') + " "@
        }));
        match self.decoded {
            Decoded::Simple(op) => {
                text.append(mnemonic(op));
                assert(text@ =~= instruction_text(*self, value_text@));
            },
            Decoded::Constant(index, _) => {
                let name = mnemonic(OpCode::Constant);
                let length = name.unicode_len();
                let missing = if length < 16 {
                    16 - length
                } else {
                    0
                };
                let mut shown = name.to_owned();
                shown.append(repeat(" ", missing).as_str());
                shown.append(" ");
                append_right_aligned(&mut shown, index as usize, 4, " ");
                shown.append(" '");
                shown.append(value_text);
                shown.append("'");
                text.append(shown.as_str());
                assert(text@ =~= instruction_text(*self, value_text@));
            },
            Decoded::Unknown(byte) => {
                let mut shown = "Unknown opcode ".to_owned();
                shown.append(decimal(byte as usize).as_str());
                text.append(shown.as_str());
                assert(text@ =~= instruction_text(*self, value_text@));
            },
        }
        text
    }
}

} // verus!
