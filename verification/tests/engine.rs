use malbolge::value::Value;
use malbolge::vm::{LoadError, MalbolgeVM, StepResult};

const HELLO_WORLD: &str = "(=<`#9]~6ZY32Vx/4Rs+0No-&Jk)\"Fh}|Bcy?`=*z]Kw%oG4UUS0/@-ejc(:'8dc";

/// Runs a loaded engine with the given input bytes until it halts,
/// faults, or exceeds the step budget; collects the output bytes.
fn run_collect(vm: &mut MalbolgeVM, input: &[u8]) -> (Vec<u8>, StepResult) {
    let mut out = Vec::new();
    let mut next_input = 0usize;
    for _ in 0..1_000_000u64 {
        match vm.step() {
            StepResult::Continue => {}
            StepResult::Output(b) => out.push(b),
            StepResult::NeedInput => {
                assert!(vm.needs_input());
                let byte = if next_input < input.len() {
                    next_input += 1;
                    Some(input[next_input - 1])
                } else {
                    None
                };
                vm.step_input(byte);
            }
            StepResult::Halt => return (out, StepResult::Halt),
            StepResult::Fault => return (out, StepResult::Fault),
        }
    }
    panic!("step budget exceeded");
}

#[test]
fn hello_world_prints_and_halts() {
    let mut vm = MalbolgeVM::init(HELLO_WORLD.as_bytes()).expect("valid program");
    let (out, end) = run_collect(&mut vm, b"");
    assert_eq!(end, StepResult::Halt);
    assert_eq!(out, b"Hello World!".to_vec());
}

#[test]
fn loading_twice_gives_identical_images() {
    let a = malbolge::vm::load_program(HELLO_WORLD.as_bytes()).expect("valid program");
    let b = malbolge::vm::load_program(HELLO_WORLD.as_bytes()).expect("valid program");
    assert_eq!(a.len(), 59049);
    assert_eq!(b.len(), 59049);
    for i in 0..59049 {
        assert_eq!(a[i], b[i]);
    }
}

#[test]
fn single_character_program_fills_the_whole_image() {
    let mem = malbolge::vm::load_program(b"Q").expect("one valid halt instruction");
    assert_eq!(mem.len(), 59049);
    assert_eq!(mem[0].val(), 81);
    // the missing second predecessor of cell 1 is taken as zero
    assert_eq!(mem[1], mem[0].crz(Value::zero()));
    assert_eq!(mem[1].val(), 29443);
    // every later cell comes from the two before it
    for i in [2usize, 3, 100, 59048] {
        assert_eq!(mem[i], mem[i - 1].crz(mem[i - 2]));
    }
}

#[test]
fn whitespace_is_stripped_before_validation() {
    let spaced = " Q \n\t\r";
    let plain = malbolge::vm::load_program(b"Q").expect("valid");
    let strip = malbolge::vm::load_program(spaced.as_bytes()).expect("valid");
    for i in 0..59049 {
        assert_eq!(plain[i], strip[i]);
    }
}

#[test]
fn malformed_characters_are_rejected() {
    // '~' at position 0 fails the checksum rule
    assert_eq!(malbolge::vm::load_program(b"~"), Err(LoadError::Malformed));
    // a non-printable control character is rejected
    assert_eq!(malbolge::vm::load_program(b"\x01"), Err(LoadError::Malformed));
    // a bad character after a valid prefix is still rejected
    let mut text = HELLO_WORLD.as_bytes().to_vec();
    text.push(0x02);
    assert_eq!(malbolge::vm::load_program(&text), Err(LoadError::Malformed));
}

#[test]
fn empty_programs_are_rejected() {
    assert_eq!(malbolge::vm::load_program(b""), Err(LoadError::Empty));
    assert_eq!(malbolge::vm::load_program(b" \n\t\r "), Err(LoadError::Empty));
}

#[test]
fn overlong_programs_are_rejected() {
    // 59050 characters that all pass the checksum rule for selector 4
    let mut text = Vec::new();
    for i in 0..59050u64 {
        let c = 33 + ((4 + 94 * 2 - (i + 33) % 94) % 94) as u8;
        assert!((i + c as u64) % 94 == 4);
        text.push(c);
    }
    assert_eq!(malbolge::vm::load_program(&text), Err(LoadError::TooLong));
    text.pop();
    assert!(malbolge::vm::load_program(&text).is_ok());
}

#[test]
fn nop_step_encrypts_its_own_cell_and_advances() {
    // 'D' (68) decodes to the no-op selector at position 0
    let mut vm = MalbolgeVM::init(b"D").expect("valid");
    assert_eq!(vm.cell_at(0).val(), 68);
    assert_eq!(vm.step(), StepResult::Continue);
    // the executed cell now holds the substitution of its old value
    assert_eq!(vm.cell_at(0).val(), 33);
    assert_eq!(vm.reg_cp().val(), 1);
    assert_eq!(vm.reg_dp().val(), 1);
    assert_eq!(vm.reg_acc().val(), 0);
}

#[test]
fn halt_leaves_the_engine_in_place() {
    let mut vm = MalbolgeVM::init(b"Q").expect("valid");
    assert_eq!(vm.step(), StepResult::Halt);
    // no self-modification, no advance
    assert_eq!(vm.cell_at(0).val(), 81);
    assert_eq!(vm.reg_cp().val(), 0);
    assert_eq!(vm.reg_dp().val(), 0);
}

#[test]
fn jump_encrypts_the_pre_jump_cell() {
    // 'b' (98) decodes to the jump selector at position 0; the target
    // cell 98 holds 98, which is printable, so the jump completes
    let mut vm = MalbolgeVM::init(b"b").expect("valid");
    assert_eq!(vm.step(), StepResult::Continue);
    // self-modification targets the cell the instruction came from,
    // not the jump target
    assert_eq!(vm.cell_at(0).val(), 84);
    assert_eq!(vm.cell_at(98).val(), 98);
    // the code pointer advanced from the jump target
    assert_eq!(vm.reg_cp().val(), 99);
    assert_eq!(vm.reg_dp().val(), 1);
}

#[test]
fn fetching_an_unprintable_cell_faults() {
    // after the jump of 'b', the next fetch lands on a denormalized
    // cell outside the printable range
    let mut vm = MalbolgeVM::init(b"b").expect("valid");
    assert_eq!(vm.step(), StepResult::Continue);
    let before_cp = vm.reg_cp().val();
    assert_eq!(vm.step(), StepResult::Fault);
    // a fault leaves the engine in place
    assert_eq!(vm.reg_cp().val(), before_cp);
}

#[test]
fn input_instruction_reads_a_byte_or_the_sentinel() {
    // 'u' (117) decodes to the input selector at position 0
    let mut vm = MalbolgeVM::init(b"u").expect("valid");
    assert_eq!(vm.step(), StepResult::NeedInput);
    assert!(vm.needs_input());
    // the engine did not move while waiting
    assert_eq!(vm.reg_cp().val(), 0);
    vm.step_input(Some(65));
    assert_eq!(vm.reg_acc().val(), 65);
    assert_eq!(vm.reg_cp().val(), 1);
    assert_eq!(vm.reg_dp().val(), 1);

    let mut vm2 = MalbolgeVM::init(b"u").expect("valid");
    assert_eq!(vm2.step(), StepResult::NeedInput);
    vm2.step_input(None);
    // end of input yields the all-twos sentinel
    assert_eq!(vm2.reg_acc().val(), 59048);
}

#[test]
fn output_instruction_emits_the_low_byte_of_the_accumulator() {
    // 'c' (99) decodes to the output selector at position 0
    let mut vm = MalbolgeVM::init(b"c").expect("valid");
    assert_eq!(vm.step(), StepResult::Output(0));
    assert_eq!(vm.cell_at(0).val(), 86);
    assert_eq!(vm.reg_cp().val(), 1);
}

#[test]
fn move_data_pointer_follows_the_addressed_cell() {
    // '(' (40) decodes to the move-data-pointer selector at position 0
    let mut vm = MalbolgeVM::init(b"(").expect("valid");
    assert_eq!(vm.step(), StepResult::Continue);
    // dp took the value of cell 0 and then advanced
    assert_eq!(vm.reg_dp().val(), 41);
    assert_eq!(vm.reg_cp().val(), 1);
    assert_eq!(vm.cell_at(0).val(), 121);
}

#[test]
fn self_overwriting_instruction_that_leaves_printable_range_faults() {
    // '\'' (39) decodes to the rotate selector at position 0 with the
    // data pointer on the same cell: the rotated value 13 lands on the
    // cell to re-encrypt and is not printable
    let mut vm = MalbolgeVM::init(b"'").expect("valid");
    assert_eq!(vm.step(), StepResult::Fault);
    // the fault leaves the engine fully in place
    assert_eq!(vm.cell_at(0).val(), 39);
    assert_eq!(vm.reg_cp().val(), 0);
    assert_eq!(vm.reg_acc().val(), 0);

    // '>' (62) decodes to the crazy selector: crz(0, 62) = 29555 is
    // written to cell 0 only if printable, which it is not
    let mut vm2 = MalbolgeVM::init(b">").expect("valid");
    assert_eq!(vm2.step(), StepResult::Fault);
    assert_eq!(vm2.cell_at(0).val(), 62);
    assert_eq!(vm2.reg_acc().val(), 0);
}

#[test]
fn rotate_instruction_writes_back_through_the_data_pointer() {
    // '(' (40) moves the data pointer to cell 40 (then both pointers
    // advance), and '&' (38) decodes to the rotate selector at
    // position 1: the rotation of cell 41 lands in the accumulator and
    // is written back through the data pointer
    let mut vm = MalbolgeVM::init(b"(&").expect("valid");
    assert_eq!(vm.cell_at(41).val(), 38);
    assert_eq!(vm.step(), StepResult::Continue);
    assert_eq!(vm.step(), StepResult::Continue);
    assert_eq!(vm.reg_acc().val(), 39378);
    assert_eq!(vm.cell_at(41).val(), 39378);
    // the rotate instruction's own cell was re-encrypted
    assert_eq!(vm.cell_at(1).val(), 113);
    assert_eq!(vm.reg_cp().val(), 2);
    assert_eq!(vm.reg_dp().val(), 42);
}
