//! The timing program: its instructions, their machine words, and the two
//! variants of the DShot program.

use vstd::prelude::*;

verus! {

/// Number of instruction slots in one engine block.
pub const INSTRUCTION_MEMORY: usize = 32;

/// Largest delay an instruction can carry, in cycles.
pub const MAX_DELAY: u8 = 31;

/// Width of the input register, in bits.
pub const WORD_BITS: u8 = 32;

/// When a jump is taken.
#[derive(Clone, Copy, Debug, PartialEq, Eq, Structural)]
pub enum Condition {
    /// Every time.
    Always,
    /// When the test bit is clear (`jmp !y`).
    BitClear,
    /// When the bit counter is not zero; the counter is decremented either
    /// way (`jmp x--`).
    CounterNonZero,
}

/// What an instruction does in the cycle in which it executes.
#[derive(Clone, Copy, Debug, PartialEq, Eq, Structural)]
pub enum Operation {
    /// Continue at `target` if `condition` holds (`jmp`).
    Jump { condition: Condition, target: u8 },
    /// Take the oldest word of the transmit queue into the input register,
    /// waiting for as long as the queue is empty (`pull`).
    Pull,
    /// Drop `bits` bits of the input register (`out null`).
    Discard { bits: u8 },
    /// Move the next bit of the input register into the test bit (`out y, 1`).
    ShiftBit,
    /// Drive the pin high or low (`set pins`).
    SetPin { high: bool },
    /// Make the pin an output or an input (`set pindirs`).
    SetDirection { output: bool },
    /// Load the bit counter (`set x`).
    SetCounter { value: u8 },
    /// Do nothing (`mov y, y`).
    Nop,
}

/// One instruction: an operation, and the number of idle cycles that follow it.
#[derive(Clone, Copy, Debug, PartialEq, Eq, Structural)]
pub struct Instruction {
    pub operation: Operation,
    pub delay: u8,
}

impl Condition {
    /// The three condition bits of a jump.
    pub open spec fn code(self) -> int {
        match self {
            Condition::Always => 0,
            Condition::BitClear => 3,
            Condition::CounterNonZero => 2,
        }
    }
}

impl Operation {
    /// Every operand fits its field.
    pub open spec fn wf(self) -> bool {
        match self {
            Operation::Jump { condition, target } => target < INSTRUCTION_MEMORY,
            Operation::Discard { bits } => 1 <= bits <= WORD_BITS,
            Operation::SetCounter { value } => value <= 31,
            _ => true,
        }
    }

    /// The machine word of the operation with no delay. A count of 32 bits
    /// is written as 0.
    pub open spec fn word(self) -> int {
        match self {
            Operation::Jump { condition, target } => fields(0, condition.code(), target as int),
            Operation::Pull => fields(4, 5, 0),
            Operation::Discard { bits } => fields(3, 3, bits as int % 32),
            Operation::ShiftBit => fields(3, 2, 1),
            Operation::SetPin { high } => fields(7, 0, if high { 1 } else { 0 }),
            Operation::SetDirection { output } => fields(7, 4, if output { 1 } else { 0 }),
            Operation::SetCounter { value } => fields(7, 1, value as int),
            Operation::Nop => fields(5, 2, 2),
        }
    }
}

/// Layout of a machine word without its delay: the operation class in bits
/// 15..13, the first operand in bits 7..5, the second in bits 4..0.
pub open spec fn fields(class: int, first: int, second: int) -> int {
    class * 8192 + first * 32 + second
}

impl Instruction {
    /// The operands fit their fields and the delay fits its five bits.
    pub open spec fn wf(self) -> bool {
        self.operation.wf() && self.delay <= MAX_DELAY
    }

    /// The machine word: that of the operation, with the delay in bits 12..8.
    pub open spec fn word(self) -> int {
        self.operation.word() + self.delay * 256
    }

    /// Cycles the instruction takes once it executes.
    pub open spec fn cycles(self) -> nat {
        (1 + self.delay) as nat
    }

    pub fn new(operation: Operation, delay: u8) -> (r: Instruction)
        ensures
            r.operation == operation,
            r.delay == delay,
    {
        Instruction { operation, delay }
    }

    /// Tells whether the instruction can be encoded.
    pub fn is_wf(&self) -> (r: bool)
        ensures
            r == self.wf(),
    {
        let fits: bool = match self.operation {
            Operation::Jump { condition, target } => target < 32,
            Operation::Discard { bits } => 1 <= bits && bits <= 32,
            Operation::SetCounter { value } => value <= 31,
            _ => true,
        };
        fits && self.delay <= MAX_DELAY
    }

    /// Encodes the instruction as the engine reads it.
    pub fn encode(&self) -> (r: u16)
        requires
            self.wf(),
        ensures
            r == self.word(),
    {
        let base: u16 = match self.operation {
            Operation::Jump { condition, target } => {
                let code: u16 = match condition {
                    Condition::Always => 0,
                    Condition::BitClear => 3,
                    Condition::CounterNonZero => 2,
                };
                code * 32 + target as u16
            },
            Operation::Pull => 0x80A0,
            Operation::Discard { bits } => 0x6060 + (bits % 32) as u16,
            Operation::ShiftBit => 0x6041,
            Operation::SetPin { high } => if high { 0xE001 } else { 0xE000 },
            Operation::SetDirection { output } => if output { 0xE081 } else { 0xE080 },
            Operation::SetCounter { value } => 0xE020 + value as u16,
            Operation::Nop => 0xA042,
        };
        base + (self.delay as u16) * 256
    }
}

/// Offsets of the labels of the DShot program, counted from its `entry`.
pub const LOOP: u8 = 3;

pub const ONE: u8 = 7;

pub const ZERO: u8 = 10;

pub const RESET: u8 = 13;

/// Number of instructions from `entry` to the end of the DShot program.
pub const BODY_LEN: u8 = 17;

/// Number of padding bits that the program drops from each word.
pub const PADDING_BITS: u8 = 16;

/// Number of bits in a frame.
pub const FRAME_BITS: u8 = 16;

/// What a program is: its instructions by position, and the two markers of
/// the loop that execution falls back into.
pub struct ProgramView {
    pub code: Seq<Instruction>,
    pub wrap_source: u8,
    pub wrap_target: u8,
}

impl ProgramView {
    /// The program fits the instruction memory, every instruction can be
    /// encoded, every jump stays inside the program, and the loop runs from
    /// the last instruction back to a position inside the program.
    pub open spec fn wf(self) -> bool {
        &&& 1 <= self.code.len() <= INSTRUCTION_MEMORY
        &&& self.wrap_source == self.code.len() - 1
        &&& self.wrap_target < self.code.len()
        &&& forall|i: int| 0 <= i < self.code.len() ==> (#[trigger] self.code[i]).wf()
        &&& forall|i: int|
            0 <= i < self.code.len() ==> match (#[trigger] self.code[i]).operation {
                Operation::Jump { condition, target } => target < self.code.len(),
                _ => true,
            }
    }

    /// Position of the instruction that follows the one at `pc` when no jump
    /// is taken.
    pub open spec fn successor(self, pc: u8) -> u8 {
        if pc == self.wrap_source {
            self.wrap_target
        } else {
            (pc + 1) as u8
        }
    }
}

/// The instruction at offset `i` from `entry` of the DShot program whose
/// `entry` lies at position `base`.
///
/// ```text
/// entry:  pull
///         out null, 16
///         set x, 15
/// loop:   set pins, 1
///         out y, 1
///         jmp !y, zero
///         nop [2]
/// one:    set pins, 0
///         jmp x--, loop
///         jmp reset
/// zero:   set pins, 0 [3]
///         jmp x--, loop
///         jmp reset
/// reset:  nop [31]
///         nop [31]
///         nop [31]
///         jmp entry [31]
/// ```
pub open spec fn dshot_body(base: u8, i: int) -> Instruction {
    let jump = |condition: Condition, label: u8|
        Operation::Jump { condition, target: (base + label) as u8 };
    if i == 0 {
        Instruction { operation: Operation::Pull, delay: 0 }
    } else if i == 1 {
        Instruction { operation: Operation::Discard { bits: PADDING_BITS }, delay: 0 }
    } else if i == 2 {
        Instruction { operation: Operation::SetCounter { value: 15 }, delay: 0 }
    } else if i == 3 {
        Instruction { operation: Operation::SetPin { high: true }, delay: 0 }
    } else if i == 4 {
        Instruction { operation: Operation::ShiftBit, delay: 0 }
    } else if i == 5 {
        Instruction { operation: jump(Condition::BitClear, ZERO), delay: 0 }
    } else if i == 6 {
        Instruction { operation: Operation::Nop, delay: 2 }
    } else if i == 7 {
        Instruction { operation: Operation::SetPin { high: false }, delay: 0 }
    } else if i == 8 {
        Instruction { operation: jump(Condition::CounterNonZero, LOOP), delay: 0 }
    } else if i == 9 {
        Instruction { operation: jump(Condition::Always, RESET), delay: 0 }
    } else if i == 10 {
        Instruction { operation: Operation::SetPin { high: false }, delay: 3 }
    } else if i == 11 {
        Instruction { operation: jump(Condition::CounterNonZero, LOOP), delay: 0 }
    } else if i == 12 {
        Instruction { operation: jump(Condition::Always, RESET), delay: 0 }
    } else if i == 16 {
        Instruction { operation: jump(Condition::Always, 0), delay: 31 }
    } else {
        Instruction { operation: Operation::Nop, delay: 31 }
    }
}

/// Position of `entry`: 1 where the program begins by making its pin an
/// output, 0 where it leaves that to the set-up of the state machine.
pub open spec fn dshot_entry(pin_setup: bool) -> u8 {
    if pin_setup {
        1
    } else {
        0
    }
}

/// The DShot program. It wraps from its last instruction to its first.
pub open spec fn dshot_program(pin_setup: bool) -> ProgramView {
    let entry = dshot_entry(pin_setup);
    ProgramView {
        code: Seq::new(
            (entry + BODY_LEN) as nat,
            |i: int|
                if i < entry {
                    Instruction { operation: Operation::SetDirection { output: true }, delay: 0 }
                } else {
                    dshot_body(entry, i - entry)
                },
        ),
        wrap_source: (entry + BODY_LEN - 1) as u8,
        wrap_target: 0,
    }
}

/// The DShot program is well formed, in both variants.
pub proof fn lemma_dshot_program_wf(pin_setup: bool)
    ensures
        dshot_program(pin_setup).wf(),
{
}

/// A timing program, ready to be placed in the instruction memory of an
/// engine block. It is never changed once made.
pub struct WaveformProgram {
    code: Vec<Instruction>,
    wrap_source: u8,
    wrap_target: u8,
}

impl View for WaveformProgram {
    type V = ProgramView;

    closed spec fn view(&self) -> ProgramView {
        ProgramView {
            code: self.code@,
            wrap_source: self.wrap_source,
            wrap_target: self.wrap_target,
        }
    }
}

impl WaveformProgram {
    /// Every program is well formed.
    #[verifier::type_invariant]
    pub open spec fn inv(self) -> bool {
        self@.wf()
    }

    /// Builds the DShot program, with or without the leading instruction
    /// that makes the pin an output.
    pub fn dshot(pin_setup: bool) -> (r: WaveformProgram)
        ensures
            r@ == dshot_program(pin_setup),
            r@.wf(),
    {
        let entry: u8 = if pin_setup { 1 } else { 0 };
        let mut code: Vec<Instruction> = Vec::new();
        if pin_setup {
            code.push(Instruction::new(Operation::SetDirection { output: true }, 0));
        }
        code.push(Instruction::new(Operation::Pull, 0));
        code.push(Instruction::new(Operation::Discard { bits: PADDING_BITS }, 0));
        code.push(Instruction::new(Operation::SetCounter { value: 15 }, 0));
        code.push(Instruction::new(Operation::SetPin { high: true }, 0));
        code.push(Instruction::new(Operation::ShiftBit, 0));
        code.push(Instruction::new(Operation::Jump { condition: Condition::BitClear, target: entry + ZERO }, 0));
        code.push(Instruction::new(Operation::Nop, 2));
        code.push(Instruction::new(Operation::SetPin { high: false }, 0));
        code.push(Instruction::new(Operation::Jump { condition: Condition::CounterNonZero, target: entry + LOOP }, 0));
        code.push(Instruction::new(Operation::Jump { condition: Condition::Always, target: entry + RESET }, 0));
        code.push(Instruction::new(Operation::SetPin { high: false }, 3));
        code.push(Instruction::new(Operation::Jump { condition: Condition::CounterNonZero, target: entry + LOOP }, 0));
        code.push(Instruction::new(Operation::Jump { condition: Condition::Always, target: entry + RESET }, 0));
        code.push(Instruction::new(Operation::Nop, MAX_DELAY));
        code.push(Instruction::new(Operation::Nop, MAX_DELAY));
        code.push(Instruction::new(Operation::Nop, MAX_DELAY));
        code.push(Instruction::new(Operation::Jump { condition: Condition::Always, target: entry }, MAX_DELAY));
        proof {
            assert(code@ =~= dshot_program(pin_setup).code);
            lemma_dshot_program_wf(pin_setup);
        }
        WaveformProgram { code, wrap_source: entry + BODY_LEN - 1, wrap_target: 0 }
    }

    /// Number of instructions.
    pub fn len(&self) -> (r: usize)
        ensures
            r == self@.code.len(),
    {
        self.code.len()
    }

    /// The instruction at position `i`.
    pub fn instruction(&self, i: usize) -> (r: Instruction)
        requires
            i < self@.code.len(),
        ensures
            r == self@.code[i as int],
    {
        self.code[i]
    }

    /// Position of the last instruction of the loop.
    pub fn wrap_source(&self) -> (r: u8)
        ensures
            r == self@.wrap_source,
    {
        self.wrap_source
    }

    /// Position at which the loop begins again.
    pub fn wrap_target(&self) -> (r: u8)
        ensures
            r == self@.wrap_target,
    {
        self.wrap_target
    }

    /// The machine words of the program, in order.
    pub fn assemble(&self) -> (r: Vec<u16>)
        ensures
            r@.len() == self@.code.len(),
            forall|i: int| 0 <= i < r@.len() ==> r@[i] == self@.code[i].word(),
    {
        proof {
            use_type_invariant(self);
        }
        let mut words: Vec<u16> = Vec::new();
        let mut i: usize = 0;
        while i < self.code.len()
            invariant
                self@.wf(),
                i <= self.code.len(),
                words@.len() == i,
                forall|j: int| 0 <= j < i ==> words@[j] == self@.code[j].word(),
            decreases self.code.len() - i,
        {
            let instruction: Instruction = self.code[i];
            words.push(instruction.encode());
            i = i + 1;
        }
        words
    }
}

} // verus!
