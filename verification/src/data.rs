//! The decode program's data model and its tree-walking interpreter.
//!
//! A program is a finite tree of instructions. Executing it against a
//! read-only input buffer walks the tree: `ReadSlice` reads a discriminant
//! byte to pick a branch and binds that branch's fields as new slices,
//! `WriteSlice` copies a bound slice's bytes to the output, and
//! `WriteConstant` emits one literal byte. All writes go to a single output
//! stream, in pre-order over the executed tree.

use vstd::prelude::*;

verus! {

/// An index/length view into the input buffer; never owns or copies bytes.
#[derive(Clone, Copy, PartialEq, Eq, Structural)]
pub struct Slice {
    pub start: usize,
    pub len: usize,
}

/// One arm of a discriminated variant: the field widths bound when this arm
/// is taken, then the sub-program run with those fields in scope.
pub struct ProgramBranch {
    pub field_lens: Vec<usize>,
    pub program: Vec<Instruction>,
}

/// One operation of a decode program.
pub enum Instruction {
    /// Read the discriminant byte of the slice bound at `ident`, pick the
    /// branch it names, bind that branch's fields, and run its sub-program.
    ReadSlice { ident: usize, branches: Vec<ProgramBranch> },
    /// Emit the bytes of the slice bound at `ident`, verbatim, in order.
    WriteSlice(usize),
    /// Emit a single literal byte.
    WriteConstant(u8),
}

/// Why a decode failed. Both kinds mean the program does not fit the input
/// it was run against; no partial output is ever returned.
#[derive(Clone, Copy, Debug, PartialEq, Eq, Structural)]
pub enum ExecError {
    /// An instruction names a binding that does not exist, or a discriminant
    /// byte selects a branch index outside the declared range.
    MalformedProgram,
    /// A slice reaches past the end of the input buffer, at binding time or
    /// when its bytes are read.
    OutOfBounds,
}

/// Bind one slice per field length, back to back from offset `off`, appending
/// each to `env`. A field whose end would pass `data_len` is an
/// [`ExecError::OutOfBounds`] error.
pub open spec fn bind_fields(
    env: Seq<Slice>,
    off: int,
    field_lens: Seq<usize>,
    data_len: int,
) -> Result<Seq<Slice>, ExecError>
    decreases field_lens.len(),
{
    if field_lens.len() == 0 {
        Ok(env)
    } else if off + field_lens[0] > data_len {
        Err(ExecError::OutOfBounds)
    } else {
        bind_fields(
            env.push(Slice { start: off as usize, len: field_lens[0] }),
            off + field_lens[0],
            field_lens.drop_first(),
            data_len,
        )
    }
}

/// The bytes one instruction emits against input `data` with the bindings in
/// `env`, or the error that stops the decode.
///
/// A `ReadSlice` consults only the first byte of the slice bound at `ident`,
/// however long that slice is declared; reading the discriminant from a
/// zero-length slice is an [`ExecError::OutOfBounds`] error rather than a
/// read of the byte after it.
pub open spec fn run_instruction(inst: Instruction, data: Seq<u8>, env: Seq<Slice>) -> Result<
    Seq<u8>,
    ExecError,
>
    decreases inst, 0int,
{
    match inst {
        Instruction::ReadSlice { ident, branches } => {
            if ident >= env.len() {
                Err(ExecError::MalformedProgram)
            } else {
                let sl = env[ident as int];
                if sl.len == 0 || sl.start >= data.len() {
                    Err(ExecError::OutOfBounds)
                } else {
                    let d = data[sl.start as int] as int;
                    if d >= branches@.len() {
                        Err(ExecError::MalformedProgram)
                    } else {
                        let branch = branches@[d];
                        match bind_fields(env, sl.start + 1, branch.field_lens@, data.len() as int) {
                            Ok(extended) => run_program(branch.program@, data, extended),
                            Err(e) => Err(e),
                        }
                    }
                }
            }
        },
        Instruction::WriteSlice(ident) => {
            if ident >= env.len() {
                Err(ExecError::MalformedProgram)
            } else {
                let sl = env[ident as int];
                if sl.start + sl.len > data.len() {
                    Err(ExecError::OutOfBounds)
                } else {
                    Ok(data.subrange(sl.start as int, sl.start + sl.len))
                }
            }
        },
        Instruction::WriteConstant(val) => Ok(seq![val]),
    }
}

/// The bytes a whole program emits: each instruction's output in order, left
/// to right, every instruction run with the same bindings `env`. The first
/// error stops the decode.
pub open spec fn run_program(program: Seq<Instruction>, data: Seq<u8>, env: Seq<Slice>) -> Result<
    Seq<u8>,
    ExecError,
>
    decreases program, 1int,
{
    if program.len() == 0 {
        Ok(Seq::empty())
    } else {
        match run_instruction(program[0], data, env) {
            Ok(first) => match run_program(program.drop_first(), data, env) {
                Ok(rest) => Ok(first + rest),
                Err(e) => Err(e),
            },
            Err(e) => Err(e),
        }
    }
}

/// A top-level decode: run `program` with a single starting binding that
/// covers the whole input buffer.
pub open spec fn spec_execute(program: Seq<Instruction>, data: Seq<u8>) -> Result<
    Seq<u8>,
    ExecError,
> {
    run_program(program, data, seq![Slice { start: 0, len: data.len() as usize }])
}

/// Decode `data` with `program` and return the whole output buffer, or the
/// error that stopped the decode.
pub fn execute(program: &Vec<Instruction>, data: &Vec<u8>) -> (r: Result<Vec<u8>, ExecError>)
    ensures
        match r {
            Ok(out) => spec_execute(program@, data@) == Ok::<Seq<u8>, ExecError>(out@),
            Err(e) => spec_execute(program@, data@) == Err::<Seq<u8>, ExecError>(e),
        },
{
    let mut result: Vec<u8> = Vec::new();
    let mut variables: Vec<Slice> = Vec::new();
    variables.push(Slice { start: 0, len: data.len() });
    proof {
        assert(variables@ =~= seq![Slice { start: 0, len: data@.len() as usize }]);
    }
    match execute_with(program, data, variables, &mut result) {
        Ok(()) => Ok(result),
        Err(e) => Err(e),
    }
}

/// Decode `data` with `program` when the decode is known to produce exactly
/// one byte, and return that byte. A decode that succeeds with any other
/// output length is reported as [`ExecError::MalformedProgram`]: the program
/// is the wrong one for this entry point.
pub fn execute_byte(program: &Vec<Instruction>, data: &Vec<u8>) -> (r: Result<u8, ExecError>)
    ensures
        match spec_execute(program@, data@) {
            Ok(out) => if out.len() == 1 {
                r == Ok::<u8, ExecError>(out[0])
            } else {
                r == Err::<u8, ExecError>(ExecError::MalformedProgram)
            },
            Err(e) => r == Err::<u8, ExecError>(e),
        },
{
    let result = execute(program, data)?;
    if result.len() == 1 {
        Ok(result[0])
    } else {
        Err(ExecError::MalformedProgram)
    }
}

/// Run `program` against `data` with the bindings in `variables`, appending
/// everything it emits to `out`.
#[verifier::loop_isolation(false)]
fn execute_with(
    program: &Vec<Instruction>,
    data: &Vec<u8>,
    variables: Vec<Slice>,
    out: &mut Vec<u8>,
) -> (r: Result<(), ExecError>)
    ensures
        match r {
            Ok(()) => run_program(program@, data@, variables@) matches Ok(emitted)
                && final(out)@ == old(out)@ + emitted,
            Err(e) => run_program(program@, data@, variables@) == Err::<Seq<u8>, ExecError>(e),
        },
    decreases program,
{
    let ghost out0 = out@;
    proof {
        assert(program@.skip(0) =~= program@);
        assert(out@.skip(out0.len() as int) =~= Seq::<u8>::empty());
        match run_program(program@, data@, variables@) {
            Ok(tail) => {
                assert(Seq::<u8>::empty() + tail =~= tail);
            },
            Err(_) => {},
        }
    }
    let mut i: usize = 0;
    while i < program.len()
        invariant
            i <= program@.len(),
            out0.len() <= out@.len(),
            out@.take(out0.len() as int) == out0,
            match run_program(program@.skip(i as int), data@, variables@) {
                Ok(tail) => run_program(program@, data@, variables@) == Ok::<Seq<u8>, ExecError>(
                    out@.skip(out0.len() as int) + tail,
                ),
                Err(e) => run_program(program@, data@, variables@) == Err::<Seq<u8>, ExecError>(e),
            },
        decreases program@.len() - i,
    {
        proof {
            lemma_run_program_unfold(program@, i as int, data@, variables@);
        }
        let ghost emitted_before = out@.skip(out0.len() as int);
        let inst = &program[i];
        match inst {
            Instruction::ReadSlice { ident, branches } => {
                if *ident >= variables.len() {
                    return Err(ExecError::MalformedProgram);
                }
                let sl = variables[*ident];
                if sl.len == 0 || sl.start >= data.len() {
                    return Err(ExecError::OutOfBounds);
                }
                let d = data[sl.start] as usize;
                if d >= branches.len() {
                    return Err(ExecError::MalformedProgram);
                }
                let branch = &branches[d];
                let mut extended = variables.clone();
                proof {
                    assert(extended@ =~= variables@);
                }
                let mut off: usize = sl.start + 1;
                let mut k: usize = 0;
                proof {
                    assert(branch.field_lens@.skip(0) =~= branch.field_lens@);
                }
                while k < branch.field_lens.len()
                    invariant
                        k <= branch.field_lens@.len(),
                        off <= data@.len(),
                        bind_fields(
                            variables@,
                            sl.start + 1,
                            branch.field_lens@,
                            data@.len() as int,
                        ) == bind_fields(
                            extended@,
                            off as int,
                            branch.field_lens@.skip(k as int),
                            data@.len() as int,
                        ),
                    decreases branch.field_lens@.len() - k,
                {
                    let flen = branch.field_lens[k];
                    if flen > data.len() - off {
                        proof {
                            let lens = branch.field_lens@;
                            assert(lens.skip(k as int)[0] == lens[k as int]);
                            assert(bind_fields(
                                extended@,
                                off as int,
                                lens.skip(k as int),
                                data@.len() as int,
                            ) == Err::<Seq<Slice>, ExecError>(ExecError::OutOfBounds));
                            assert(run_instruction(program@[i as int], data@, variables@)
                                == Err::<Seq<u8>, ExecError>(ExecError::OutOfBounds));
                        }
                        return Err(ExecError::OutOfBounds);
                    }
                    extended.push(Slice { start: off, len: flen });
                    off = off + flen;
                    k = k + 1;
                    proof {
                        assert(branch.field_lens@.skip(k - 1int).drop_first() =~= branch
                            .field_lens@.skip(k as int));
                    }
                }
                proof {
                    assert(branch.field_lens@.skip(k as int) =~= Seq::<usize>::empty());
                    assert(bind_fields(
                        variables@,
                        sl.start + 1,
                        branch.field_lens@,
                        data@.len() as int,
                    ) == Ok::<Seq<Slice>, ExecError>(extended@));
                    assert(decreases_to!(program => branch.program));
                }
                let res = execute_with(&branch.program, data, extended, out);
                if let Err(e) = res {
                    return Err(e);
                }
            },
            Instruction::WriteSlice(ident) => {
                if *ident >= variables.len() {
                    return Err(ExecError::MalformedProgram);
                }
                let sl = variables[*ident];
                if sl.start > data.len() || sl.len > data.len() - sl.start {
                    return Err(ExecError::OutOfBounds);
                }
                let ghost out_before = out@;
                let mut j: usize = 0;
                while j < sl.len
                    invariant
                        j <= sl.len,
                        sl.start + sl.len <= data@.len(),
                        out@ == out_before + data@.subrange(sl.start as int, sl.start + j),
                    decreases sl.len - j,
                {
                    out.push(data[sl.start + j]);
                    j = j + 1;
                    proof {
                        assert(out@ =~= out_before + data@.subrange(
                            sl.start as int,
                            sl.start + j,
                        ));
                    }
                }
            },
            Instruction::WriteConstant(val) => {
                out.push(*val);
                proof {
                    assert(out@ =~= out0 + emitted_before + seq![*val]);
                }
            },
        }
        i = i + 1;
        proof {
            assert(out@.take(out0.len() as int) =~= out0);
            let w = run_instruction(program@[i - 1int], data@, variables@);
            assert(w matches Ok(_));
            let now_emitted = out@.skip(out0.len() as int);
            assert(now_emitted =~= emitted_before + w->Ok_0);
            match run_program(program@.skip(i as int), data@, variables@) {
                Ok(tail) => {
                    assert(emitted_before + (w->Ok_0 + tail) =~= now_emitted + tail);
                },
                Err(_) => {},
            }
        }
    }
    proof {
        assert(program@.skip(i as int) =~= Seq::<Instruction>::empty());
        assert(out@ =~= out0 + out@.skip(out0.len() as int));
    }
    Ok(())
}

/// A one-instruction constant program emits exactly that constant, whatever
/// the input buffer holds — even when it is empty.
pub proof fn lemma_write_constant(c: u8, data: Seq<u8>)
    ensures
        spec_execute(seq![Instruction::WriteConstant(c)], data) == Ok::<Seq<u8>, ExecError>(
            seq![c],
        ),
{
    reveal_with_fuel(run_program, 2);
    let program = seq![Instruction::WriteConstant(c)];
    assert(program.drop_first() =~= Seq::<Instruction>::empty());
    assert(seq![c] + Seq::<u8>::empty() =~= seq![c]);
}

/// A one-instruction copy of binding 0 — the whole input buffer — emits the
/// input unchanged: the identity decode.
pub proof fn lemma_write_slice_identity(data: Seq<u8>)
    requires
        data.len() <= usize::MAX,
    ensures
        spec_execute(seq![Instruction::WriteSlice(0)], data) == Ok::<Seq<u8>, ExecError>(data),
{
    reveal_with_fuel(run_program, 2);
    let program = seq![Instruction::WriteSlice(0)];
    assert(program.drop_first() =~= Seq::<Instruction>::empty());
    assert(data.subrange(0, data.len() as int) =~= data);
    assert(data + Seq::<u8>::empty() =~= data);
}

/// Decoding is a pure function of the program and the input: any two results
/// that meet the executor's contract against the same program and input are
/// the same result.
pub proof fn lemma_execute_deterministic(
    program: Seq<Instruction>,
    data: Seq<u8>,
    r1: Result<Seq<u8>, ExecError>,
    r2: Result<Seq<u8>, ExecError>,
)
    requires
        r1 == spec_execute(program, data),
        r2 == spec_execute(program, data),
    ensures
        r1 == r2,
{
}

/// Sequential composition: the output of two programs run back to back is the
/// first one's output followed by the second one's, and both run with the
/// same bindings `env`. With the pre-order emission of [`run_instruction`]
/// this pins the output order of any instruction tree: siblings left to
/// right, a branch's sub-program before later siblings of its parent.
pub proof fn lemma_run_program_concat(
    front: Seq<Instruction>,
    back: Seq<Instruction>,
    data: Seq<u8>,
    env: Seq<Slice>,
)
    ensures
        run_program(front + back, data, env) == (match run_program(front, data, env) {
            Ok(o1) => match run_program(back, data, env) {
                Ok(o2) => Ok::<Seq<u8>, ExecError>(o1 + o2),
                Err(e) => Err(e),
            },
            Err(e) => Err(e),
        }),
    decreases front.len(),
{
    if front.len() == 0 {
        assert(front + back =~= back);
        match run_program(back, data, env) {
            Ok(o2) => {
                assert(Seq::<u8>::empty() + o2 =~= o2);
            },
            Err(_) => {},
        }
    } else {
        assert((front + back)[0] == front[0]);
        assert((front + back).len() > 0);
        assert((front + back).drop_first() =~= front.drop_first() + back);
        lemma_run_program_concat(front.drop_first(), back, data, env);
        match (run_instruction(front[0], data, env), run_program(front.drop_first(), data, env)) {
            (Ok(o0), Ok(o1)) => {
                match run_program(back, data, env) {
                    Ok(o2) => {
                        assert(o0 + (o1 + o2) =~= (o0 + o1) + o2);
                    },
                    Err(_) => {},
                }
            },
            _ => {},
        }
    }
}

/// Bindings are tree-scoped: whatever slices a `ReadSlice` binds while its
/// branch runs, an instruction after it runs with the same, unextended
/// environment — one sibling's bindings are never visible to the next.
pub proof fn lemma_binding_isolation(
    inst: Instruction,
    rest: Seq<Instruction>,
    data: Seq<u8>,
    env: Seq<Slice>,
)
    ensures
        run_program(seq![inst] + rest, data, env) == (match run_instruction(inst, data, env) {
            Ok(o1) => match run_program(rest, data, env) {
                Ok(o2) => Ok::<Seq<u8>, ExecError>(o1 + o2),
                Err(e) => Err(e),
            },
            Err(e) => Err(e),
        }),
{
    reveal_with_fuel(run_program, 2);
    lemma_run_program_concat(seq![inst], rest, data, env);
    assert(seq![inst].drop_first() =~= Seq::<Instruction>::empty());
    match run_instruction(inst, data, env) {
        Ok(o1) => {
            assert(o1 + Seq::<u8>::empty() =~= o1);
        },
        Err(_) => {},
    }
}

/// A discriminant byte at or past the number of declared branches is a
/// [`ExecError::MalformedProgram`] error; it is never wrapped or truncated
/// into a valid branch index.
pub proof fn lemma_discriminant_out_of_range(
    ident: usize,
    branches: Vec<ProgramBranch>,
    data: Seq<u8>,
    env: Seq<Slice>,
)
    requires
        ident < env.len(),
        env[ident as int].len > 0,
        env[ident as int].start < data.len(),
        data[env[ident as int].start as int] as int >= branches@.len(),
    ensures
        run_instruction(Instruction::ReadSlice { ident, branches }, data, env) == Err::<
            Seq<u8>,
            ExecError,
        >(ExecError::MalformedProgram),
{
}

/// Unfold one step of [`run_program`]: the suffix starting at `i` runs
/// instruction `i` first, then the suffix starting at `i + 1`.
proof fn lemma_run_program_unfold(program: Seq<Instruction>, i: int, data: Seq<u8>, env: Seq<Slice>)
    requires
        0 <= i < program.len(),
    ensures
        run_program(program.skip(i), data, env) == (match run_instruction(
            program[i],
            data,
            env,
        ) {
            Ok(first) => match run_program(program.skip(i + 1), data, env) {
                Ok(rest) => Ok::<Seq<u8>, ExecError>(first + rest),
                Err(e) => Err(e),
            },
            Err(e) => Err(e),
        }),
{
    assert(program.skip(i)[0] == program[i]);
    assert(program.skip(i).drop_first() =~= program.skip(i + 1));
}

} // verus!
