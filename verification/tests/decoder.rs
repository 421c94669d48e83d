use slicevm::data::{execute, execute_byte, ExecError, Instruction, ProgramBranch};
use slicevm::data::Instruction::{ReadSlice, WriteConstant, WriteSlice};

#[test]
fn test() {
    assert_eq!(execute(&vec![WriteConstant(33)], &vec![]), Ok(vec![33]));
    assert_eq!(execute(&vec![WriteSlice(0)], &vec![0, 1, 2]), Ok(vec![0, 1, 2]));
    {
        let prog = vec![ReadSlice {
            ident: 0,
            branches: vec![
                ProgramBranch { field_lens: vec![], program: vec![WriteConstant(0)] },
                ProgramBranch { field_lens: vec![1], program: vec![WriteSlice(1)] },
            ],
        }];
        assert_eq!(execute(&prog, &vec![0]), Ok(vec![0]));
        assert_eq!(execute(&prog, &vec![1, 25]), Ok(vec![25]));
    }
}

#[test]
fn write_constant_ignores_input() {
    assert_eq!(execute(&vec![WriteConstant(7)], &vec![]), Ok(vec![7]));
    assert_eq!(execute(&vec![WriteConstant(7)], &vec![1, 2, 3]), Ok(vec![7]));
    assert_eq!(execute(&vec![WriteConstant(0)], &vec![255]), Ok(vec![0]));
}

#[test]
fn write_slice_zero_is_identity() {
    assert_eq!(execute(&vec![WriteSlice(0)], &vec![]), Ok(vec![]));
    let buf: Vec<u8> = (0..100).collect();
    assert_eq!(execute(&vec![WriteSlice(0)], &buf), Ok(buf.clone()));
}

#[test]
fn execution_is_deterministic() {
    let prog = vec![
        WriteConstant(9),
        ReadSlice {
            ident: 0,
            branches: vec![
                ProgramBranch { field_lens: vec![2], program: vec![WriteSlice(1)] },
                ProgramBranch { field_lens: vec![], program: vec![] },
            ],
        },
    ];
    let data = vec![0, 40, 41];
    let first = execute(&prog, &data);
    let second = execute(&prog, &data);
    assert_eq!(first, second);
    assert_eq!(first, Ok(vec![9, 40, 41]));
}

#[test]
fn output_is_preorder() {
    // A write before the branch, writes inside the branch, and a write after
    // it: the output interleaves in execution order, children first.
    let prog = vec![
        WriteConstant(1),
        ReadSlice {
            ident: 0,
            branches: vec![ProgramBranch {
                field_lens: vec![1],
                program: vec![WriteSlice(1), WriteConstant(2)],
            }],
        },
        WriteConstant(3),
    ];
    assert_eq!(execute(&prog, &vec![0, 9]), Ok(vec![1, 9, 2, 3]));
}

#[test]
fn nested_branches_emit_children_first() {
    // The outer branch binds one field and recurses through it before the
    // outer sub-program's trailing write runs.
    let inner = ProgramBranch {
        field_lens: vec![1],
        program: vec![WriteSlice(2), WriteConstant(20)],
    };
    let outer = ProgramBranch {
        field_lens: vec![1],
        program: vec![
            ReadSlice { ident: 1, branches: vec![inner] },
            WriteConstant(30),
        ],
    };
    let prog = vec![ReadSlice { ident: 0, branches: vec![outer] }, WriteConstant(40)];
    // input: disc 0, field byte (disc 0 for inner), inner field byte 55
    assert_eq!(execute(&prog, &vec![0, 0, 55]), Ok(vec![55, 20, 30, 40]));
}

#[test]
fn discriminant_out_of_range_is_malformed() {
    let prog = vec![ReadSlice {
        ident: 0,
        branches: vec![
            ProgramBranch { field_lens: vec![], program: vec![] },
            ProgramBranch { field_lens: vec![], program: vec![] },
        ],
    }];
    assert_eq!(execute(&prog, &vec![5]), Err(ExecError::MalformedProgram));
}

#[test]
fn undefined_binding_is_malformed() {
    assert_eq!(execute(&vec![WriteSlice(1)], &vec![1, 2]), Err(ExecError::MalformedProgram));
}

#[test]
fn branch_bindings_are_not_visible_to_siblings() {
    // The branch binds ident 1 while it runs; the sibling instruction after
    // the ReadSlice must not see that binding.
    let prog = vec![
        ReadSlice {
            ident: 0,
            branches: vec![ProgramBranch { field_lens: vec![1], program: vec![] }],
        },
        WriteSlice(1),
    ];
    assert_eq!(execute(&prog, &vec![0, 9]), Err(ExecError::MalformedProgram));
}

#[test]
fn field_past_end_of_input_is_out_of_bounds() {
    let prog = vec![ReadSlice {
        ident: 0,
        branches: vec![ProgramBranch { field_lens: vec![5], program: vec![] }],
    }];
    assert_eq!(execute(&prog, &vec![0]), Err(ExecError::OutOfBounds));
}

#[test]
fn discriminant_of_empty_slice_is_out_of_bounds() {
    let prog = vec![ReadSlice {
        ident: 0,
        branches: vec![ProgramBranch { field_lens: vec![], program: vec![] }],
    }];
    assert_eq!(execute(&prog, &vec![]), Err(ExecError::OutOfBounds));
}

#[test]
fn execute_byte_returns_the_single_byte() {
    assert_eq!(execute_byte(&vec![WriteConstant(33)], &vec![]), Ok(33));
    let prog = vec![ReadSlice {
        ident: 0,
        branches: vec![
            ProgramBranch { field_lens: vec![], program: vec![WriteConstant(0)] },
            ProgramBranch { field_lens: vec![1], program: vec![WriteSlice(1)] },
        ],
    }];
    assert_eq!(execute_byte(&prog, &vec![1, 25]), Ok(25));
}

#[test]
fn execute_byte_rejects_other_output_lengths() {
    assert_eq!(
        execute_byte(&vec![WriteSlice(0)], &vec![1, 2]),
        Err(ExecError::MalformedProgram)
    );
    assert_eq!(execute_byte(&vec![], &vec![1]), Err(ExecError::MalformedProgram));
    assert_eq!(execute_byte(&vec![WriteSlice(3)], &vec![1]), Err(ExecError::MalformedProgram));
}
