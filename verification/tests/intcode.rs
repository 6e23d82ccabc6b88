use intcode::intcode::{Fault, RunResult, State};

fn run(mem: &[i64], inputs: Vec<i64>) -> Option<Result<RunResult, Fault>> {
    let state = State::new_with_mem(mem);
    intcode::intcode::run_intcode(&state, inputs, 1_000_000)
}

fn run_to_halt(mem: &[i64], inputs: Vec<i64>) -> (State, Vec<i64>) {
    match run(mem, inputs) {
        Some(Ok(RunResult::Halted(st, outs))) => (st, outs),
        _ => panic!("expected the program to halt"),
    }
}

#[test]
fn reference_program_halts_with_3500() {
    let prog = [1, 9, 10, 3, 2, 3, 11, 0, 99, 30, 40, 50];
    let (st, outs) = run_to_halt(&prog, vec![]);
    assert_eq!(st.mem[0], 3500);
    assert!(outs.is_empty());
}

#[test]
fn quine_outputs_itself() {
    let prog = [109, 1, 204, -1, 1001, 100, 1, 100, 1008, 100, 16, 101, 1006, 101, 0, 99];
    let (_, outs) = run_to_halt(&prog, vec![]);
    assert_eq!(outs, prog.to_vec());
}

#[test]
fn large_numbers_survive() {
    let prog = [1102, 34915192, 34915192, 7, 4, 7, 99, 0];
    let (_, outs) = run_to_halt(&prog, vec![]);
    assert_eq!(outs.len(), 1);
    assert_eq!(outs[0], 34915192i64 * 34915192i64);
    assert_eq!(outs[0].to_string().len(), 16);

    let prog2 = [104, 1125899906842624, 99];
    let (_, outs2) = run_to_halt(&prog2, vec![]);
    assert_eq!(outs2, vec![1125899906842624]);
}

#[test]
fn suspend_resume_matches_single_run() {
    // reads one input, outputs whether it equals 8, halts
    let prog = [3, 9, 8, 9, 10, 9, 4, 9, 99, -1, 8];

    let (_, single) = run_to_halt(&prog, vec![8]);

    let state = State::new_with_mem(&prog);
    let (paused, first_outs) =
        match intcode::intcode::run_intcode(&state, vec![], 1_000_000) {
            Some(Ok(RunResult::WaitingForInput(st, outs))) => (st, outs),
            _ => panic!("expected the program to ask for input"),
        };
    let (_, second_outs) =
        match intcode::intcode::run_intcode(&paused, vec![8], 1_000_000) {
            Some(Ok(RunResult::Halted(st, outs))) => (st, outs),
            _ => panic!("expected the resumed program to halt"),
        };

    let mut joined = first_outs;
    joined.extend(second_outs);
    assert_eq!(joined, single);
    assert_eq!(joined, vec![1]);
}

#[test]
fn writes_beyond_memory_zero_extend() {
    // stores 2+3 at cell 20, then outputs cell 20 and the untouched cell 15
    let prog = [1101, 2, 3, 20, 4, 20, 4, 15, 99];
    let (st, outs) = run_to_halt(&prog, vec![]);
    assert_eq!(outs, vec![5, 0]);
    assert_eq!(st.mem[20], 5);

    // reading far beyond memory is simply zero
    let (_, outs2) = run_to_halt(&[4, 50, 99], vec![]);
    assert_eq!(outs2, vec![0]);
}

#[test]
fn negative_relative_base_is_fine_until_dereferenced() {
    // base goes to -3; the dereference -3 + 4 = 1 is legal
    let prog = [109, -3, 204, 4, 99, 7];
    let (_, outs) = run_to_halt(&prog, vec![]);
    assert_eq!(outs, vec![-3]);

    // but resolving an address below zero faults
    let bad = [109, -5, 204, 0, 99];
    assert!(matches!(run(&bad, vec![]), Some(Err(Fault::AddressFault))));
}

#[test]
fn unsupported_opcode_is_a_decode_fault() {
    // 50 is not opcode 5 with a mode digit: it is no opcode at all
    assert!(matches!(run(&[50], vec![]), Some(Err(Fault::DecodeFault))));
}

#[test]
fn other_faults_are_reported() {
    // a negative instruction word
    assert!(matches!(run(&[-1], vec![]), Some(Err(Fault::ProgramFault))));
    // an immediate write target
    assert!(matches!(
        run(&[11101, 1, 1, 3, 99], vec![]),
        Some(Err(Fault::ModeFault))
    ));
    // a mode digit past the third parameter
    assert!(matches!(run(&[100001, 1, 1, 3, 99], vec![]), Some(Err(Fault::ModeFault))));
    // an addressing mode that does not exist
    assert!(matches!(run(&[302, 0, 0, 0, 99], vec![]), Some(Err(Fault::ModeFault))));
}

#[test]
fn exhausted_input_suspends() {
    let res = run(&[3, 0, 99], vec![]);
    assert!(matches!(res, Some(Ok(RunResult::WaitingForInput(_, _)))));
}

#[test]
fn step_budget_runs_out_on_a_spinning_program() {
    let state = State::new_with_mem(&[1105, 1, 0]);
    let res = intcode::intcode::run_intcode(&state, vec![], 1000);
    assert!(res.is_none());
}

#[test]
fn first_output_is_the_first_value() {
    let prog = [104, 7, 104, 9, 99];
    let state = State::new_with_mem(&prog);
    let res = intcode::intcode::run_intcode(&state, vec![], 1000);
    match res {
        Some(Ok(r)) => assert_eq!(r.get_first_output(), 7),
        _ => panic!("expected a result"),
    }
}
