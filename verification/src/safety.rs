//! What the compiler and the machine owe each other: the slots and the
//! constants that compiled instructions name are there when the machine
//! gets to them.

use crate::bytecode::ByteCode;
use crate::lex::{lemma_scan_progress, scan, TokenView};
use crate::parse::{
    add_const, add_small, compile, extends, find_local, lemma_add_const, lemma_find_local,
    lemma_statement, ProtoView, MAX_SLOTS,
};
use crate::value::{NativeFn, ValueView};
use crate::vm::{ExecError, VmView};
use vstd::prelude::*;

verus! {

/// The faults that a compiled unit can run into: a call of something that is
/// no function, and a store into a global.
pub open spec fn is_benign(e: ExecError) -> bool {
    e == ExecError::NotCallable || e == ExecError::Unimplemented
}

/// The constant that an instruction names is in the pool, and is a string
/// where it names a global to fetch.
pub open spec fn refers_well(code: ByteCode, constants: Seq<ValueView>) -> bool {
    match code {
        ByteCode::GetGlobal(_, name) => name < constants.len() && constants[name as int] is String,
        ByteCode::LoadConst(_, c) => c < constants.len(),
        _ => true,
    }
}

/// On a stack of at least `depth` slots the instruction reads only slots
/// that are there and writes at most just above the top, and it leaves at
/// least `after` slots.
pub open spec fn fits(code: ByteCode, depth: int, after: int) -> bool {
    match code {
        ByteCode::GetGlobal(dst, _) | ByteCode::LoadConst(dst, _) | ByteCode::LoadNil(dst)
        | ByteCode::LoadBool(dst, _) | ByteCode::LoadInt(dst, _) => dst <= depth && (after <= depth
            || after <= dst + 1),
        ByteCode::Move(dst, src) => src < depth && dst <= depth && (after <= depth || after <= dst
            + 1),
        ByteCode::Call(func, _) => func + 1 < depth && after <= depth,
        _ => true,
    }
}

/// The instructions emitted so far name only constants that are there, and
/// a machine that starts in `machine` runs them to the end with at least
/// `depth` slots on its stack, or into a benign fault. All locals have their
/// slot within `depth`.
pub open spec fn sound_at(st: ProtoView, machine: VmView, depth: int) -> bool {
    &&& st.locals.len() <= depth
    &&& forall|i: int|
        0 <= i < st.byte_codes.len() ==> refers_well(#[trigger] st.byte_codes[i], st.constants)
    &&& match machine.run(st.constants, st.byte_codes, 0) {
        (end, None) => end.stack.len() >= depth,
        (_, Some(e)) => is_benign(e),
    }
}

/// An instruction that fits a stack runs on it, or faults benignly.
pub proof fn lemma_step_fits(
    machine: VmView,
    constants: Seq<ValueView>,
    code: ByteCode,
    depth: int,
    after: int,
)
    requires
        fits(code, depth, after),
        refers_well(code, constants),
        machine.stack.len() >= depth,
    ensures
        match machine.step(constants, code) {
            Ok(next) => next.stack.len() >= after,
            Err(e) => is_benign(e),
        },
{
}

/// An instruction that names only constants of a pool runs the same with a
/// pool that holds more.
pub proof fn lemma_step_extends(
    machine: VmView,
    constants: Seq<ValueView>,
    extended: Seq<ValueView>,
    code: ByteCode,
)
    requires
        extends(extended, constants),
        refers_well(code, constants),
    ensures
        machine.step(extended, code) == machine.step(constants, code),
        refers_well(code, extended),
{
}

/// Instructions that name only constants of a pool run the same with a pool
/// that holds more.
pub proof fn lemma_run_extends(
    machine: VmView,
    constants: Seq<ValueView>,
    extended: Seq<ValueView>,
    codes: Seq<ByteCode>,
    pc: int,
)
    requires
        extends(extended, constants),
        forall|i: int| 0 <= i < codes.len() ==> refers_well(#[trigger] codes[i], constants),
    ensures
        machine.run(extended, codes, pc) == machine.run(constants, codes, pc),
    decreases codes.len() - pc,
{
    if 0 <= pc < codes.len() {
        lemma_step_extends(machine, constants, extended, codes[pc]);
        match machine.step(constants, codes[pc]) {
            Ok(next) => lemma_run_extends(next, constants, extended, codes, pc + 1),
            Err(_) => {},
        }
    }
}

/// With one more instruction at the end, a run goes as before and then,
/// where it got to the end without a fault, runs that instruction.
pub proof fn lemma_run_push(
    machine: VmView,
    constants: Seq<ValueView>,
    codes: Seq<ByteCode>,
    code: ByteCode,
    pc: int,
)
    requires
        0 <= pc <= codes.len(),
    ensures
        machine.run(constants, codes.push(code), pc) == match machine.run(constants, codes, pc) {
            (end, None) => match end.step(constants, code) {
                Ok(next) => (next, None::<ExecError>),
                Err(e) => (end, Some(e)),
            },
            (end, Some(e)) => (end, Some(e)),
        },
    decreases codes.len() - pc,
{
    let longer = codes.push(code);
    if pc < codes.len() {
        assert(longer[pc] == codes[pc]);
        match machine.step(constants, codes[pc]) {
            Ok(next) => lemma_run_push(next, constants, codes, code, pc + 1),
            Err(_) => {},
        }
    } else {
        assert(longer[pc] == code);
        match machine.step(constants, code) {
            Ok(next) => {
                assert(next.run(constants, longer, pc + 1) == (next, None::<ExecError>));
            },
            Err(_) => {},
        }
    }
}

/// Emitting an instruction that fits, over a pool that may have grown,
/// keeps the compilation sound.
pub proof fn lemma_emit(
    st: ProtoView,
    machine: VmView,
    depth: int,
    pool: Seq<ValueView>,
    code: ByteCode,
    after: int,
)
    requires
        sound_at(st, machine, depth),
        extends(pool, st.constants),
        refers_well(code, pool),
        fits(code, depth, after),
        st.locals.len() <= after,
    ensures
        sound_at(st.with_pool(pool).emit(code), machine, after),
{
    let next = st.with_pool(pool).emit(code);
    lemma_run_extends(machine, st.constants, pool, st.byte_codes, 0);
    lemma_run_push(machine, pool, st.byte_codes, code, 0);
    match machine.run(st.constants, st.byte_codes, 0) {
        (end, None) => {
            lemma_step_fits(end, pool, code, depth, after);
        },
        _ => {},
    }
    assert forall|i: int| 0 <= i < next.byte_codes.len() implies refers_well(
        #[trigger] next.byte_codes[i],
        next.constants,
    ) by {
        if i < st.byte_codes.len() {
            assert(next.byte_codes[i] == st.byte_codes[i]);
            lemma_step_extends(machine, st.constants, pool, st.byte_codes[i]);
        }
    }
}

/// A sound compilation is sound at any lesser depth that still holds the
/// locals.
pub proof fn lemma_sound_at_less(st: ProtoView, machine: VmView, depth: int, less: int)
    requires
        sound_at(st, machine, depth),
        st.locals.len() <= less <= depth,
    ensures
        sound_at(st, machine, less),
{
}

/// Compiling an expression into a slot within the stack keeps the
/// compilation sound, with that slot filled.
pub proof fn lemma_load_exp_sound(st: ProtoView, machine: VmView, depth: int, dst: u8)
    requires
        st.wf(),
        sound_at(st, machine, depth),
        dst <= depth,
    ensures
        match st.load_exp(dst) {
            Ok(after) => sound_at(after, machine, depth) && sound_at(
                after,
                machine,
                if depth > dst {
                    depth
                } else {
                    dst + 1
                },
            ),
            Err(_) => true,
        },
{
    let deeper = if depth > dst {
        depth
    } else {
        dst + 1
    };
    lemma_scan_progress(st.source, st.cursor);
    match scan(st.source, st.cursor) {
        Ok((t, end)) => {
            let st1 = st.at(end);
            assert(sound_at(st1, machine, depth));
            match t {
                TokenView::Name(var) => {
                    lemma_find_local(st.locals, var);
                    match find_local(st.locals, var) {
                        Some(i) => {
                            lemma_emit(
                                st1,
                                machine,
                                depth,
                                st1.constants,
                                ByteCode::Move(dst, i as u8),
                                deeper,
                            );
                        },
                        None => {
                            lemma_add_const(st.constants, ValueView::String(var));
                            match add_small(st.constants, ValueView::String(var)) {
                                Ok((pool, i)) => {
                                    lemma_emit(
                                        st1,
                                        machine,
                                        depth,
                                        pool,
                                        ByteCode::GetGlobal(dst, i),
                                        deeper,
                                    );
                                },
                                Err(_) => {},
                            }
                        },
                    }
                },
                TokenView::Nil => {
                    lemma_emit(st1, machine, depth, st1.constants, ByteCode::LoadNil(dst), deeper);
                },
                TokenView::True => {
                    lemma_emit(
                        st1,
                        machine,
                        depth,
                        st1.constants,
                        ByteCode::LoadBool(dst, true),
                        deeper,
                    );
                },
                TokenView::False => {
                    lemma_emit(
                        st1,
                        machine,
                        depth,
                        st1.constants,
                        ByteCode::LoadBool(dst, false),
                        deeper,
                    );
                },
                TokenView::Integer(i) => {
                    if crate::parse::is_immediate(i) {
                        lemma_emit(
                            st1,
                            machine,
                            depth,
                            st1.constants,
                            ByteCode::LoadInt(dst, i as i16),
                            deeper,
                        );
                    } else {
                        lemma_load_const_sound(st1, machine, depth, dst, ValueView::Integer(i));
                    }
                },
                TokenView::Float(f) => {
                    lemma_load_const_sound(st1, machine, depth, dst, ValueView::Float(f));
                },
                TokenView::String(s) => {
                    lemma_load_const_sound(st1, machine, depth, dst, ValueView::String(s));
                },
                _ => {},
            }
            match st.load_exp(dst) {
                Ok(after) => {
                    lemma_sound_at_less(after, machine, deeper, depth);
                },
                Err(_) => {},
            }
        },
        Err(_) => {},
    }
}

/// Loading a constant into a slot within the stack keeps the compilation
/// sound, with that slot filled.
proof fn lemma_load_const_sound(st: ProtoView, machine: VmView, depth: int, dst: u8, c: ValueView)
    requires
        st.wf(),
        sound_at(st, machine, depth),
        dst <= depth,
    ensures
        match st.load_const(dst, c) {
            Ok((after, code)) => sound_at(
                after.emit(code),
                machine,
                if depth > dst {
                    depth
                } else {
                    dst + 1
                },
            ),
            Err(_) => true,
        },
{
    let deeper = if depth > dst {
        depth
    } else {
        dst + 1
    };
    lemma_add_const(st.constants, c);
    match add_const(st.constants, c) {
        Ok((pool, i)) => {
            lemma_emit(st, machine, depth, pool, ByteCode::LoadConst(dst, i as u16), deeper);
        },
        Err(_) => {},
    }
}

/// Loading a variable into a slot within the stack keeps the compilation
/// sound and well formed, with that slot filled.
proof fn lemma_load_var_sound(
    st: ProtoView,
    machine: VmView,
    depth: int,
    dst: u8,
    name: Seq<char>,
)
    requires
        st.wf(),
        sound_at(st, machine, depth),
        dst <= depth,
    ensures
        match st.load_var(dst, name) {
            Ok((after, code)) => {
                &&& after.emit(code).wf()
                &&& after.emit(code).locals == st.locals
                &&& after.emit(code).source == st.source
                &&& after.emit(code).cursor == st.cursor
                &&& sound_at(
                    after.emit(code),
                    machine,
                    if depth > dst {
                        depth
                    } else {
                        dst + 1
                    },
                )
            },
            Err(_) => true,
        },
{
    let deeper = if depth > dst {
        depth
    } else {
        dst + 1
    };
    lemma_find_local(st.locals, name);
    match find_local(st.locals, name) {
        Some(i) => {
            lemma_emit(st, machine, depth, st.constants, ByteCode::Move(dst, i as u8), deeper);
        },
        None => {
            lemma_add_const(st.constants, ValueView::String(name));
            match add_small(st.constants, ValueView::String(name)) {
                Ok((pool, i)) => {
                    lemma_emit(st, machine, depth, pool, ByteCode::GetGlobal(dst, i), deeper);
                },
                Err(_) => {},
            }
        },
    }
}

/// Compiling a call keeps the compilation sound.
proof fn lemma_function_call_sound(st: ProtoView, machine: VmView, name: Seq<char>)
    requires
        st.wf(),
        sound_at(st, machine, st.locals.len() as int),
    ensures
        match st.function_call(name) {
            Ok(after) => sound_at(after, machine, after.locals.len() as int),
            Err(_) => true,
        },
{
    let n = st.locals.len() as int;
    if n + 1 < MAX_SLOTS {
        let ifunc = n as u8;
        let iarg = (n + 1) as u8;
        lemma_load_var_sound(st, machine, n, ifunc, name);
        match st.load_var(ifunc, name) {
            Ok((st1, code)) => {
                let st1 = st1.emit(code);
                lemma_scan_progress(st1.source, st1.cursor);
                match scan(st1.source, st1.cursor) {
                    Ok((TokenView::ParL, end)) => {
                        let st2 = st1.at(end);
                        assert(sound_at(st2, machine, n + 1));
                        lemma_load_exp_sound(st2, machine, n + 1, iarg);
                        crate::parse::lemma_load_exp(st2, iarg);
                        match st2.load_exp(iarg) {
                            Ok(st3) => {
                                lemma_scan_progress(st3.source, st3.cursor);
                                match scan(st3.source, st3.cursor) {
                                    Ok((TokenView::ParR, end)) => {
                                        let st4 = st3.at(end);
                                        assert(sound_at(st4, machine, n + 2));
                                        lemma_emit(
                                            st4,
                                            machine,
                                            n + 2,
                                            st4.constants,
                                            ByteCode::Call(ifunc, 1),
                                            n,
                                        );
                                    },
                                    _ => {},
                                }
                            },
                            Err(_) => {},
                        }
                    },
                    Ok((TokenView::String(s), end)) => {
                        let st2 = st1.at(end);
                        assert(sound_at(st2, machine, n + 1));
                        lemma_load_const_sound(st2, machine, n + 1, iarg, ValueView::String(s));
                        match st2.load_const(iarg, ValueView::String(s)) {
                            Ok((st3, code)) => {
                                let st3 = st3.emit(code);
                                lemma_emit(
                                    st3,
                                    machine,
                                    n + 2,
                                    st3.constants,
                                    ByteCode::Call(ifunc, 1),
                                    n,
                                );
                            },
                            Err(_) => {},
                        }
                    },
                    _ => {},
                }
            },
            Err(_) => {},
        }
    }
}

/// Compiling a declaration keeps the compilation sound.
proof fn lemma_local_sound(st: ProtoView, machine: VmView)
    requires
        st.wf(),
        sound_at(st, machine, st.locals.len() as int),
    ensures
        match st.local() {
            Ok(after) => sound_at(after, machine, after.locals.len() as int),
            Err(_) => true,
        },
{
    let n = st.locals.len() as int;
    lemma_scan_progress(st.source, st.cursor);
    match scan(st.source, st.cursor) {
        Ok((TokenView::Name(var), end)) => {
            lemma_scan_progress(st.source, end);
            match scan(st.source, end) {
                Ok((TokenView::Assign, end2)) => {
                    if n < MAX_SLOTS {
                        let st1 = st.at(end2);
                        assert(sound_at(st1, machine, n));
                        lemma_load_exp_sound(st1, machine, n, n as u8);
                        crate::parse::lemma_load_exp(st1, n as u8);
                        match st1.load_exp(n as u8) {
                            Ok(st2) => {
                                assert(sound_at(st2, machine, n + 1));
                                assert(st2.declare(var).byte_codes == st2.byte_codes);
                            },
                            Err(_) => {},
                        }
                    }
                },
                _ => {},
            }
        },
        _ => {},
    }
}

/// Compiling an assignment keeps the compilation sound.
proof fn lemma_assignment_sound(st: ProtoView, machine: VmView, var: Seq<char>)
    requires
        st.wf(),
        sound_at(st, machine, st.locals.len() as int),
    ensures
        match st.assignment(var) {
            Ok(after) => sound_at(after, machine, after.locals.len() as int),
            Err(_) => true,
        },
{
    let n = st.locals.len() as int;
    lemma_find_local(st.locals, var);
    match find_local(st.locals, var) {
        Some(i) => {
            lemma_load_exp_sound(st, machine, n, i as u8);
            crate::parse::lemma_load_exp(st, i as u8);
        },
        None => {
            lemma_add_const(st.constants, ValueView::String(var));
            match add_small(st.constants, ValueView::String(var)) {
                Ok((pool, dst)) => {
                    lemma_scan_progress(st.source, st.cursor);
                    match scan(st.source, st.cursor) {
                        Ok((t, end)) => {
                            let st1 = st.with_pool(pool).at(end);
                            lemma_run_extends(machine, st.constants, pool, st.byte_codes, 0);
                            assert forall|i: int| 0 <= i < st1.byte_codes.len() implies refers_well(
                                #[trigger] st1.byte_codes[i],
                                st1.constants,
                            ) by {
                                lemma_step_extends(machine, st.constants, pool, st.byte_codes[i]);
                            }
                            assert(sound_at(st1, machine, n));
                            match t {
                                TokenView::Nil => lemma_set_global_const_sound(
                                    st1,
                                    machine,
                                    dst,
                                    ValueView::Nil,
                                ),
                                TokenView::True => lemma_set_global_const_sound(
                                    st1,
                                    machine,
                                    dst,
                                    ValueView::Boolean(true),
                                ),
                                TokenView::False => lemma_set_global_const_sound(
                                    st1,
                                    machine,
                                    dst,
                                    ValueView::Boolean(false),
                                ),
                                TokenView::Integer(i) => lemma_set_global_const_sound(
                                    st1,
                                    machine,
                                    dst,
                                    ValueView::Integer(i),
                                ),
                                TokenView::Float(f) => lemma_set_global_const_sound(
                                    st1,
                                    machine,
                                    dst,
                                    ValueView::Float(f),
                                ),
                                TokenView::String(s) => lemma_set_global_const_sound(
                                    st1,
                                    machine,
                                    dst,
                                    ValueView::String(s),
                                ),
                                TokenView::Name(from) => {
                                    lemma_find_local(st1.locals, from);
                                    match find_local(st1.locals, from) {
                                        Some(i) => {
                                            lemma_emit(
                                                st1,
                                                machine,
                                                n,
                                                st1.constants,
                                                ByteCode::SetGlobal(dst, i as u8),
                                                n,
                                            );
                                        },
                                        None => {
                                            lemma_add_const(
                                                st1.constants,
                                                ValueView::String(from),
                                            );
                                            match add_small(
                                                st1.constants,
                                                ValueView::String(from),
                                            ) {
                                                Ok((pool2, src)) => {
                                                    lemma_emit(
                                                        st1,
                                                        machine,
                                                        n,
                                                        pool2,
                                                        ByteCode::SetGlobalGlobal(dst, src),
                                                        n,
                                                    );
                                                },
                                                Err(_) => {},
                                            }
                                        },
                                    }
                                },
                                _ => {},
                            }
                        },
                        Err(_) => {},
                    }
                },
                Err(_) => {},
            }
        },
    }
}

/// Storing a constant into a global keeps the compilation sound.
proof fn lemma_set_global_const_sound(st: ProtoView, machine: VmView, dst: u8, c: ValueView)
    requires
        st.wf(),
        sound_at(st, machine, st.locals.len() as int),
    ensures
        match st.set_global_const(dst, c) {
            Ok(after) => sound_at(after, machine, after.locals.len() as int),
            Err(_) => true,
        },
{
    lemma_add_const(st.constants, c);
    match add_small(st.constants, c) {
        Ok((pool, i)) => {
            lemma_emit(
                st,
                machine,
                st.locals.len() as int,
                pool,
                ByteCode::SetGlobalConst(dst, i),
                st.locals.len() as int,
            );
        },
        Err(_) => {},
    }
}

/// Compiling a statement keeps the compilation sound.
proof fn lemma_statement_sound(st: ProtoView, machine: VmView)
    requires
        st.wf(),
        sound_at(st, machine, st.locals.len() as int),
    ensures
        match st.statement() {
            Ok((after, _)) => sound_at(after, machine, after.locals.len() as int),
            Err(_) => true,
        },
{
    lemma_scan_progress(st.source, st.cursor);
    match scan(st.source, st.cursor) {
        Ok((TokenView::Name(name), end)) => {
            lemma_scan_progress(st.source, end);
            match scan(st.source, end) {
                Ok((TokenView::Assign, after)) => {
                    assert(sound_at(st.at(after), machine, st.locals.len() as int));
                    lemma_assignment_sound(st.at(after), machine, name);
                },
                Ok(_) => {
                    assert(sound_at(st.at(end), machine, st.locals.len() as int));
                    lemma_function_call_sound(st.at(end), machine, name);
                },
                Err(_) => {},
            }
        },
        Ok((TokenView::Local, end)) => {
            assert(sound_at(st.at(end), machine, st.locals.len() as int));
            lemma_local_sound(st.at(end), machine);
        },
        Ok((TokenView::Eos, end)) => {
            assert(sound_at(st.at(end), machine, st.locals.len() as int));
        },
        _ => {},
    }
}

/// Compiling to the end of the source keeps the compilation sound.
proof fn lemma_chunk_sound(st: ProtoView, machine: VmView)
    requires
        st.wf(),
        sound_at(st, machine, st.locals.len() as int),
    ensures
        match st.chunk() {
            Ok(after) => sound_at(after, machine, after.locals.len() as int),
            Err(_) => true,
        },
    decreases st.source.len() - st.cursor,
{
    lemma_statement(st);
    lemma_statement_sound(st, machine);
    match st.statement() {
        Ok((after, true)) => {
            lemma_chunk_sound(after, machine);
        },
        _ => {},
    }
}

/// A compiled unit runs on any machine to the end of its instructions, or
/// into a benign fault: it never names a constant that the pool does not
/// hold or that is no name where it should be one, never reads a slot at or
/// above the top of the stack, and never writes beyond the slot just above
/// it. Where it ends without a fault, every local variable has its slot.
pub proof fn lemma_compiled_unit_runs(source: Seq<u8>, machine: VmView)
    ensures
        match compile(source) {
            Ok(unit) => match machine.run(unit.constants, unit.byte_codes, 0) {
                (end, None) => end.stack.len() >= unit.locals.len(),
                (_, Some(e)) => is_benign(e),
            },
            Err(_) => true,
        },
{
    let start = ProtoView::start(source);
    assert(sound_at(start, machine, 0));
    lemma_chunk_sound(start, machine);
}

} // verus!
