use dshot_pio::program::{Condition, Instruction, Operation, WaveformProgram};

fn to_pio(operation: Operation) -> pio::InstructionOperands {
    match operation {
        Operation::Jump { condition, target } => pio::InstructionOperands::JMP {
            condition: match condition {
                Condition::Always => pio::JmpCondition::Always,
                Condition::BitClear => pio::JmpCondition::YIsZero,
                Condition::CounterNonZero => pio::JmpCondition::XDecNonZero,
            },
            address: target,
        },
        Operation::Pull => pio::InstructionOperands::PULL { if_empty: false, block: true },
        Operation::Discard { bits } => pio::InstructionOperands::OUT {
            destination: pio::OutDestination::NULL,
            bit_count: bits,
        },
        Operation::ShiftBit => pio::InstructionOperands::OUT {
            destination: pio::OutDestination::Y,
            bit_count: 1,
        },
        Operation::SetPin { high } => pio::InstructionOperands::SET {
            destination: pio::SetDestination::PINS,
            data: high as u8,
        },
        Operation::SetDirection { output } => pio::InstructionOperands::SET {
            destination: pio::SetDestination::PINDIRS,
            data: output as u8,
        },
        Operation::SetCounter { value } => pio::InstructionOperands::SET {
            destination: pio::SetDestination::X,
            data: value,
        },
        Operation::Nop => pio::InstructionOperands::MOV {
            destination: pio::MovDestination::Y,
            op: pio::MovOperation::None,
            source: pio::MovSource::Y,
        },
    }
}

fn pio_word(instruction: Instruction) -> u16 {
    pio::Instruction { operands: to_pio(instruction.operation), delay: instruction.delay, side_set: None }
        .encode(pio::SideSet::default())
}

/// The DShot program, written with the assembler of the `pio` crate.
fn assembled(pin_setup: bool) -> pio::Program<32> {
    let mut a = pio::Assembler::<32>::new();
    let mut entry = a.label();
    let mut bit_loop = a.label();
    let mut zero = a.label();
    let mut reset = a.label();
    if pin_setup {
        a.set(pio::SetDestination::PINDIRS, 1);
    }
    a.bind(&mut entry);
    a.pull(false, true);
    a.out(pio::OutDestination::NULL, 16);
    a.set(pio::SetDestination::X, 15);
    a.bind(&mut bit_loop);
    a.set(pio::SetDestination::PINS, 1);
    a.out(pio::OutDestination::Y, 1);
    a.jmp(pio::JmpCondition::YIsZero, &mut zero);
    a.nop_with_delay(2);
    a.set(pio::SetDestination::PINS, 0);
    a.jmp(pio::JmpCondition::XDecNonZero, &mut bit_loop);
    a.jmp(pio::JmpCondition::Always, &mut reset);
    a.bind(&mut zero);
    a.set_with_delay(pio::SetDestination::PINS, 0, 3);
    a.jmp(pio::JmpCondition::XDecNonZero, &mut bit_loop);
    a.jmp(pio::JmpCondition::Always, &mut reset);
    a.bind(&mut reset);
    a.nop_with_delay(31);
    a.nop_with_delay(31);
    a.nop_with_delay(31);
    a.jmp_with_delay(pio::JmpCondition::Always, &mut entry, 31);
    a.assemble_program()
}

#[test]
fn bare_program_words() {
    let program = WaveformProgram::dshot(false);
    let expected: Vec<u16> = vec![
        0x80A0, 0x6070, 0xE02F, 0xE001, 0x6041, 0x006A, 0xA242, 0xE000, 0x0043, 0x000D, 0xE300,
        0x0043, 0x000D, 0xBF42, 0xBF42, 0xBF42, 0x1F00,
    ];
    assert_eq!(program.assemble(), expected);
    assert_eq!(program.len(), 17);
    assert_eq!(program.wrap_source(), 16);
    assert_eq!(program.wrap_target(), 0);
}

#[test]
fn pin_setup_program_words() {
    let program = WaveformProgram::dshot(true);
    let expected: Vec<u16> = vec![
        0xE081, 0x80A0, 0x6070, 0xE02F, 0xE001, 0x6041, 0x006B, 0xA242, 0xE000, 0x0044, 0x000E,
        0xE300, 0x0044, 0x000E, 0xBF42, 0xBF42, 0xBF42, 0x1F01,
    ];
    assert_eq!(program.assemble(), expected);
    assert_eq!(program.len(), 18);
    assert_eq!(program.wrap_source(), 17);
    assert_eq!(program.wrap_target(), 0);
}

#[test]
fn program_fits_instruction_memory() {
    assert!(WaveformProgram::dshot(false).len() <= dshot_pio::program::INSTRUCTION_MEMORY);
    assert!(WaveformProgram::dshot(true).len() <= dshot_pio::program::INSTRUCTION_MEMORY);
}

#[test]
fn words_agree_with_pio_encoder() {
    for pin_setup in [false, true] {
        let program = WaveformProgram::dshot(pin_setup);
        let words = program.assemble();
        for i in 0..program.len() {
            let instruction = program.instruction(i);
            assert!(instruction.is_wf());
            assert_eq!(instruction.encode(), words[i]);
            assert_eq!(words[i], pio_word(instruction));
        }
    }
}

#[test]
fn program_agrees_with_pio_assembler() {
    for pin_setup in [false, true] {
        let program = WaveformProgram::dshot(pin_setup);
        let theirs = assembled(pin_setup);
        assert_eq!(program.assemble().as_slice(), theirs.code.as_slice());
        assert_eq!(program.wrap_source(), theirs.wrap.source);
        assert_eq!(program.wrap_target(), theirs.wrap.target);
    }
}

#[test]
fn every_encodable_instruction_agrees_with_pio() {
    let mut operations: Vec<Operation> = vec![Operation::Pull, Operation::ShiftBit, Operation::Nop];
    for high in [false, true] {
        operations.push(Operation::SetPin { high });
        operations.push(Operation::SetDirection { output: high });
    }
    for n in 0..32u8 {
        operations.push(Operation::Jump { condition: Condition::Always, target: n });
        operations.push(Operation::Jump { condition: Condition::BitClear, target: n });
        operations.push(Operation::Jump { condition: Condition::CounterNonZero, target: n });
        operations.push(Operation::Discard { bits: n + 1 });
        operations.push(Operation::SetCounter { value: n });
    }
    for operation in operations {
        for delay in 0..32u8 {
            let instruction = Instruction::new(operation, delay);
            assert!(instruction.is_wf());
            assert_eq!(instruction.encode(), pio_word(instruction));
        }
    }
}

#[test]
fn instructions_out_of_range_are_not_well_formed() {
    assert!(!Instruction::new(Operation::Nop, 32).is_wf());
    assert!(!Instruction::new(Operation::Discard { bits: 0 }, 0).is_wf());
    assert!(!Instruction::new(Operation::Discard { bits: 33 }, 0).is_wf());
    assert!(!Instruction::new(Operation::SetCounter { value: 32 }, 0).is_wf());
    assert!(!Instruction::new(Operation::Jump { condition: Condition::Always, target: 32 }, 0).is_wf());
}
