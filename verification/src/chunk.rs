//! Compiled code: opcodes, the byte buffer with its line map, and the
//! constant pool.
use vstd::prelude::*;
use crate::value::{Value, ValueArray, value_seqs_equal};

verus! {

/// One instruction of the stack machine. Its byte is its position in this
/// list, from 0; only `Constant` is followed by an operand, the one-byte
/// index of a constant.
#[derive(Debug, PartialEq, Eq, Clone, Copy, Structural)]
pub enum OpCode {
    Return,
    Constant,
    Negate,
    Add,
    Subtract,
    Multiply,
    Divide,
    Nil,
    True,
    False,
    Not,
    Equal,
    Greater,
    Less,
}

/// The instruction that a byte stands for, if any.
pub open spec fn opcode_of(byte: u8) -> Option<OpCode> {
    if byte == 0 {
        Some(OpCode::Return)
    } else if byte == 1 {
        Some(OpCode::Constant)
    } else if byte == 2 {
        Some(OpCode::Negate)
    } else if byte == 3 {
        Some(OpCode::Add)
    } else if byte == 4 {
        Some(OpCode::Subtract)
    } else if byte == 5 {
        Some(OpCode::Multiply)
    } else if byte == 6 {
        Some(OpCode::Divide)
    } else if byte == 7 {
        Some(OpCode::Nil)
    } else if byte == 8 {
        Some(OpCode::True)
    } else if byte == 9 {
        Some(OpCode::False)
    } else if byte == 10 {
        Some(OpCode::Not)
    } else if byte == 11 {
        Some(OpCode::Equal)
    } else if byte == 12 {
        Some(OpCode::Greater)
    } else if byte == 13 {
        Some(OpCode::Less)
    } else {
        None
    }
}

impl OpCode {
    /// The byte that stands for this instruction.
    pub open spec fn spec_byte(self) -> u8 {
        match self {
            OpCode::Return => 0,
            OpCode::Constant => 1,
            OpCode::Negate => 2,
            OpCode::Add => 3,
            OpCode::Subtract => 4,
            OpCode::Multiply => 5,
            OpCode::Divide => 6,
            OpCode::Nil => 7,
            OpCode::True => 8,
            OpCode::False => 9,
            OpCode::Not => 10,
            OpCode::Equal => 11,
            OpCode::Greater => 12,
            OpCode::Less => 13,
        }
    }

    /// The byte that stands for this instruction; decoding it gives the
    /// instruction back.
    #[verifier::when_used_as_spec(spec_byte)]
    pub fn byte(self) -> (b: u8)
        ensures
            b == self.spec_byte(),
            opcode_of(b) == Some(self),
    {
        match self {
            OpCode::Return => 0,
            OpCode::Constant => 1,
            OpCode::Negate => 2,
            OpCode::Add => 3,
            OpCode::Subtract => 4,
            OpCode::Multiply => 5,
            OpCode::Divide => 6,
            OpCode::Nil => 7,
            OpCode::True => 8,
            OpCode::False => 9,
            OpCode::Not => 10,
            OpCode::Equal => 11,
            OpCode::Greater => 12,
            OpCode::Less => 13,
        }
    }
}

impl TryFrom<u8> for OpCode {
    type Error = ();

    fn try_from(value: u8) -> (r: Result<Self, ()>) {
        match value {
            0 => Ok(OpCode::Return),
            1 => Ok(OpCode::Constant),
            2 => Ok(OpCode::Negate),
            3 => Ok(OpCode::Add),
            4 => Ok(OpCode::Subtract),
            5 => Ok(OpCode::Multiply),
            6 => Ok(OpCode::Divide),
            7 => Ok(OpCode::Nil),
            8 => Ok(OpCode::True),
            9 => Ok(OpCode::False),
            10 => Ok(OpCode::Not),
            11 => Ok(OpCode::Equal),
            12 => Ok(OpCode::Greater),
            13 => Ok(OpCode::Less),
            _ => Err(()),
        }
    }
}

impl vstd::std_specs::convert::TryFromSpecImpl<u8> for OpCode {
    open spec fn obeys_try_from_spec() -> bool {
        true
    }

    open spec fn try_from_spec(v: u8) -> Result<Self, ()> {
        match opcode_of(v) {
            Some(op) => Ok(op),
            None => Err(()),
        }
    }
}

/// Decoding and encoding are inverse to each other: a byte decodes to an
/// instruction exactly when it is that instruction's byte.
pub proof fn lemma_opcode_round_trip(op: OpCode, byte: u8)
    ensures
        opcode_of(op.spec_byte()) == Some(op),
        opcode_of(byte) == Some(op) <==> byte == op.spec_byte(),
{
}

/// Where a walk through code has come to: the number of values on the
/// stack, and the number of constants that have been loaded.
pub struct Shape {
    pub depth: nat,
    pub loaded: nat,
}

/// Walks through the instructions of `code` from `ip` to the end, starting
/// with `depth` values on the stack and `loaded` constants loaded, and tells
/// where that ends. There is no end where a byte is no instruction, where an
/// instruction finds fewer values on the stack than it takes, where a
/// `Constant` lacks its operand or loads another constant than the next one
/// in the order of the pool, or where a `Return` stands.
pub open spec fn walk(code: Seq<u8>, ip: int, depth: nat, loaded: nat) -> Option<Shape>
    decreases code.len() - ip,
{
    if ip < 0 {
        None
    } else if ip >= code.len() {
        Some(Shape { depth, loaded })
    } else {
        match opcode_of(code[ip]) {
            None => None,
            Some(OpCode::Return) => None,
            Some(OpCode::Constant) => if ip + 1 < code.len() && code[ip + 1] == loaded {
                walk(code, ip + 2, depth + 1, loaded + 1)
            } else {
                None
            },
            Some(OpCode::Nil) | Some(OpCode::True) | Some(OpCode::False) => walk(
                code,
                ip + 1,
                depth + 1,
                loaded,
            ),
            Some(OpCode::Negate) | Some(OpCode::Not) => if depth >= 1 {
                walk(code, ip + 1, depth, loaded)
            } else {
                None
            },
            Some(_) => if depth >= 2 {
                walk(code, ip + 1, (depth - 1) as nat, loaded)
            } else {
                None
            },
        }
    }
}

/// Whether the chunk is a program: the code of one expression, which leaves
/// one value on the stack that was empty and loads each constant of the pool
/// once, in order, followed by `Return`.
pub open spec fn is_program(chunk: ChunkView) -> bool {
    &&& chunk.code.len() > 0
    &&& chunk.code.len() == chunk.lines.len()
    &&& chunk.code.last() == OpCode::Return.spec_byte()
    &&& chunk.constants.len() <= 256
    &&& walk(chunk.code.drop_last(), 0, 0, 0) == Some(
        Shape { depth: 1, loaded: chunk.constants.len() },
    )
}

/// A walk that ends goes on from its end in code that has grown.
pub proof fn lemma_walk_append(code: Seq<u8>, more: Seq<u8>, ip: int, depth: nat, loaded: nat)
    requires
        0 <= ip <= code.len(),
        walk(code, ip, depth, loaded) is Some,
    ensures
        walk(code + more, ip, depth, loaded) == walk(
            code + more,
            code.len() as int,
            walk(code, ip, depth, loaded)->0.depth,
            walk(code, ip, depth, loaded)->0.loaded,
        ),
    decreases code.len() - ip,
{
    if ip < code.len() {
        let all = code + more;
        assert(all[ip] == code[ip]);
        match opcode_of(code[ip]) {
            None => {},
            Some(OpCode::Return) => {},
            Some(OpCode::Constant) => {
                assert(all[ip + 1] == code[ip + 1]);
                lemma_walk_append(code, more, ip + 2, depth + 1, loaded + 1);
            },
            Some(OpCode::Nil) | Some(OpCode::True) | Some(OpCode::False) => {
                lemma_walk_append(code, more, ip + 1, depth + 1, loaded);
            },
            Some(OpCode::Negate) | Some(OpCode::Not) => {
                lemma_walk_append(code, more, ip + 1, depth, loaded);
            },
            Some(_) => {
                lemma_walk_append(code, more, ip + 1, (depth - 1) as nat, loaded);
            },
        }
    }
}

/// A walk never unloads a constant.
pub proof fn lemma_walk_loads_on(code: Seq<u8>, ip: int, depth: nat, loaded: nat)
    requires
        walk(code, ip, depth, loaded) is Some,
    ensures
        loaded <= walk(code, ip, depth, loaded)->0.loaded,
    decreases code.len() - ip,
{
    if 0 <= ip < code.len() {
        match opcode_of(code[ip]) {
            None => {},
            Some(OpCode::Return) => {},
            Some(OpCode::Constant) => {
                lemma_walk_loads_on(code, ip + 2, depth + 1, loaded + 1);
            },
            Some(OpCode::Nil) | Some(OpCode::True) | Some(OpCode::False) => {
                lemma_walk_loads_on(code, ip + 1, depth + 1, loaded);
            },
            Some(OpCode::Negate) | Some(OpCode::Not) => {
                lemma_walk_loads_on(code, ip + 1, depth, loaded);
            },
            Some(_) => {
                lemma_walk_loads_on(code, ip + 1, (depth - 1) as nat, loaded);
            },
        }
    }
}

/// What a chunk holds: the bytes of its code, the source line of each of
/// them, and its constants.
pub struct ChunkView {
    pub code: Seq<u8>,
    pub lines: Seq<u32>,
    pub constants: Seq<Value>,
}

/// The unit of compiled code.
#[derive(Debug)]
pub struct Chunk {
    /// Each byte of the code, with the source line that produced it.
    cells: Vec<(u8, u32)>,
    constants: ValueArray,
}

impl View for Chunk {
    type V = ChunkView;

    closed spec fn view(&self) -> ChunkView {
        ChunkView {
            code: Seq::new(self.cells@.len(), |i: int| self.cells@[i].0),
            lines: Seq::new(self.cells@.len(), |i: int| self.cells@[i].1),
            constants: self.constants@,
        }
    }
}

impl Chunk {
    pub fn new() -> (r: Self)
        ensures
            r@.code == Seq::<u8>::empty(),
            r@.lines == Seq::<u32>::empty(),
            r@.constants == Seq::<Value>::empty(),
    {
        let r = Self { cells: Vec::new(), constants: ValueArray::new() };
        assert(r@.code =~= Seq::<u8>::empty());
        assert(r@.lines =~= Seq::<u32>::empty());
        r
    }

    /// Every byte of the code has its line: the line map is as long as the
    /// code, in every chunk.
    pub proof fn lemma_line_for_each_byte(&self)
        ensures
            self@.code.len() == self@.lines.len(),
    {
    }

    /// Appends one byte, produced by source line `line`.
    pub fn write(&mut self, byte: u8, line: u32)
        ensures
            final(self)@.code == old(self)@.code.push(byte),
            final(self)@.lines == old(self)@.lines.push(line),
            final(self)@.constants == old(self)@.constants,
    {
        self.cells.push((byte, line));
        assert(self@.code =~= old(self)@.code.push(byte));
        assert(self@.lines =~= old(self)@.lines.push(line));
    }

    pub fn get_code(&self, i: usize) -> (byte: u8)
        requires
            i < self@.code.len(),
        ensures
            byte == self@.code[i as int],
    {
        self.cells[i].0
    }

    pub fn get_line(&self, i: usize) -> (line: u32)
        requires
            i < self@.lines.len(),
        ensures
            line == self@.lines[i as int],
    {
        self.cells[i].1
    }

    pub fn code_len(&self) -> (n: usize)
        ensures
            n == self@.code.len(),
            n == self@.lines.len(),
    {
        self.cells.len()
    }

    pub fn constants(&self) -> (pool: &ValueArray)
        ensures
            pool@ == self@.constants,
    {
        &self.constants
    }

    /// The constant pool, to append to; code and lines stay as they are.
    pub fn constants_mut(&mut self) -> (pool: &mut ValueArray)
        ensures
            pool@ == old(self)@.constants,
            final(self)@.constants == final(pool)@,
            final(self)@.code == old(self)@.code,
            final(self)@.lines == old(self)@.lines,
    {
        &mut self.constants
    }
}

impl PartialEq for Chunk {
    fn eq(&self, other: &Chunk) -> (r: bool) {
        if self.cells.len() != other.cells.len() {
            assert(self@.code.len() != other@.code.len());
            return false;
        }
        let mut i: usize = 0;
        while i < self.cells.len()
            invariant
                self.cells.len() == other.cells.len(),
                i <= self.cells.len(),
                forall|k: int| 0 <= k < i ==> self.cells@[k] == other.cells@[k],
            decreases self.cells.len() - i,
        {
            if self.cells[i].0 != other.cells[i].0 || self.cells[i].1 != other.cells[i].1 {
                assert(self@.code[i as int] != other@.code[i as int] || self@.lines[i as int]
                    != other@.lines[i as int]);
                return false;
            }
            i += 1;
        }
        assert(self@.code =~= other@.code);
        assert(self@.lines =~= other@.lines);
        self.constants == other.constants
    }
}

impl vstd::std_specs::cmp::PartialEqSpecImpl for Chunk {
    open spec fn obeys_eq_spec() -> bool {
        true
    }

    open spec fn eq_spec(&self, other: &Chunk) -> bool {
        self@.code == other@.code && self@.lines == other@.lines && value_seqs_equal(
            self@.constants,
            other@.constants,
        )
    }
}

} // verus!
