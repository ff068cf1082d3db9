//! The virtual machine: runs the instructions of a compiled unit in order,
//! on a flat stack of values.

use crate::bytecode::ByteCode;
use crate::parse::ParseProto;
use crate::text::texts;
use crate::value::{views, NativeFn, Value, ValueView};
use vstd::hash_map::StringHashMap;
use vstd::prelude::*;
use vstd::string::*;

verus! {

/// Why a run stops before the end of its instructions.
#[derive(Clone, Copy, Debug, PartialEq, Eq, Structural)]
pub enum ExecError {
    /// An instruction names a constant that the pool does not hold.
    BadConstant,
    /// The constant that should name a global is not a string.
    BadGlobalKey,
    /// The value to call is no function.
    NotCallable,
    /// A write to a slot beyond the one just above the top of the stack.
    BadStackWrite,
    /// A read of a slot at or above the top of the stack.
    BadStackRead,
    /// An instruction that stores into a global: the machine does not run
    /// these.
    Unimplemented,
}

/// The state of a machine.
pub struct VmView {
    /// The global variables, by name.
    pub globals: Map<Seq<char>, ValueView>,
    /// The stack, slot 0 first.
    pub stack: Seq<ValueView>,
    /// The lines shown so far, oldest first.
    pub output: Seq<Seq<char>>,
}

impl VmView {
    /// A machine that has run nothing: the built-in functions are its
    /// globals, and its stack is empty.
    pub open spec fn initial() -> VmView {
        VmView {
            globals: map!["print"@ => ValueView::Function(NativeFn::Print)],
            stack: Seq::empty(),
            output: Seq::empty(),
        }
    }

    /// The value of the global `name`, nil where there is none.
    pub open spec fn global(self, name: Seq<char>) -> ValueView {
        if self.globals.contains_key(name) {
            self.globals[name]
        } else {
            ValueView::Nil
        }
    }

    /// Writes `v` into the slot `dst`: just above the top the stack grows by
    /// one, below it the slot is overwritten, and further up is a fault.
    pub open spec fn set_stack(self, dst: u8, v: ValueView) -> Result<VmView, ExecError> {
        if dst == self.stack.len() {
            Ok(VmView { stack: self.stack.push(v), ..self })
        } else if dst < self.stack.len() {
            Ok(VmView { stack: self.stack.update(dst as int, v), ..self })
        } else {
            Err(ExecError::BadStackWrite)
        }
    }

    /// Calls the native function `f`, which sits in the slot `func`. Its
    /// argument is in the slot after it.
    pub open spec fn call(self, f: NativeFn, func: u8) -> Result<VmView, ExecError> {
        match f {
            NativeFn::Print => if func + 1 < self.stack.len() {
                Ok(VmView { output: self.output.push(self.stack[func + 1].text()), ..self })
            } else {
                Err(ExecError::BadStackRead)
            },
        }
    }

    /// Runs one instruction.
    pub open spec fn step(self, constants: Seq<ValueView>, code: ByteCode) -> Result<
        VmView,
        ExecError,
    > {
        match code {
            ByteCode::GetGlobal(dst, name) => if name < constants.len() {
                match constants[name as int] {
                    ValueView::String(key) => self.set_stack(dst, self.global(key)),
                    _ => Err(ExecError::BadGlobalKey),
                }
            } else {
                Err(ExecError::BadConstant)
            },
            ByteCode::LoadConst(dst, c) => if c < constants.len() {
                self.set_stack(dst, constants[c as int])
            } else {
                Err(ExecError::BadConstant)
            },
            ByteCode::LoadNil(dst) => self.set_stack(dst, ValueView::Nil),
            ByteCode::LoadBool(dst, b) => self.set_stack(dst, ValueView::Boolean(b)),
            ByteCode::LoadInt(dst, i) => self.set_stack(dst, ValueView::Integer(i as i64)),
            ByteCode::Move(dst, src) => if src < self.stack.len() {
                self.set_stack(dst, self.stack[src as int])
            } else {
                Err(ExecError::BadStackRead)
            },
            ByteCode::Call(func, _) => if func < self.stack.len() {
                match self.stack[func as int] {
                    ValueView::Function(f) => self.call(f, func),
                    _ => Err(ExecError::NotCallable),
                }
            } else {
                Err(ExecError::BadStackRead)
            },
            ByteCode::SetGlobal(_, _) | ByteCode::SetGlobalConst(_, _) | ByteCode::SetGlobalGlobal(
                _,
                _,
            ) => Err(ExecError::Unimplemented),
        }
    }

    /// Runs the instructions from `pc` on, in order. A fault ends the run:
    /// the state is then the one that the faulting instruction found.
    pub open spec fn run(self, constants: Seq<ValueView>, codes: Seq<ByteCode>, pc: int) -> (
        VmView,
        Option<ExecError>,
    )
        decreases codes.len() - pc,
    {
        if 0 <= pc < codes.len() {
            match self.step(constants, codes[pc]) {
                Ok(next) => next.run(constants, codes, pc + 1),
                Err(e) => (self, Some(e)),
            }
        } else {
            (self, None)
        }
    }
}

/// A virtual machine.
pub struct ExeState {
    globals: StringHashMap<Value>,
    stack: Vec<Value>,
    output: Vec<String>,
}

impl View for ExeState {
    type V = VmView;

    closed spec fn view(&self) -> VmView {
        VmView {
            globals: self.globals@.map_values(|v: Value| v@),
            stack: views(self.stack@),
            output: texts(self.output@),
        }
    }
}

impl ExeState {
    /// A machine that has run nothing.
    pub fn new() -> (state: ExeState)
        ensures
            state@ == VmView::initial(),
    {
        let mut globals = StringHashMap::new();
        globals.insert(String::from_str("print"), Value::Function(NativeFn::Print));
        let state = ExeState { globals, stack: Vec::new(), output: Vec::new() };
        assert(state@.globals =~= VmView::initial().globals);
        assert(state@.stack =~= VmView::initial().stack);
        assert(state@.output =~= VmView::initial().output);
        state
    }

    /// The stack, slot 0 first.
    pub fn stack(&self) -> (stack: &Vec<Value>)
        ensures
            views(stack@) == self@.stack,
    {
        &self.stack
    }

    /// The lines shown so far, oldest first.
    pub fn output(&self) -> (lines: &Vec<String>)
        ensures
            texts(lines@) == self@.output,
    {
        &self.output
    }

    /// Runs the instructions of `proto` in order, to the end or to the first
    /// fault.
    pub fn execute(&mut self, proto: &ParseProto) -> (r: Result<(), ExecError>)
        ensures
            final(self)@ == old(self)@.run(views(proto.constants@), proto.byte_codes@, 0).0,
            match r {
                Ok(()) => old(self)@.run(views(proto.constants@), proto.byte_codes@, 0).1 is None,
                Err(e) => old(self)@.run(views(proto.constants@), proto.byte_codes@, 0).1 == Some(
                    e,
                ),
            },
    {
        let ghost constants = views(proto.constants@);
        let mut pc: usize = 0;
        while pc < proto.byte_codes.len()
            invariant
                pc <= proto.byte_codes.len(),
                constants == views(proto.constants@),
                self@.run(constants, proto.byte_codes@, pc as int) == old(self)@.run(
                    constants,
                    proto.byte_codes@,
                    0,
                ),
            decreases proto.byte_codes.len() - pc,
        {
            let ghost before = self@;
            let stepped = match proto.byte_codes[pc] {
                ByteCode::GetGlobal(dst, name) => {
                    match get_const(&proto.constants, name as usize) {
                        Ok(Value::String(key)) => {
                            let v = match self.globals.get(key.as_str()) {
                                Some(v) => v.clone(),
                                None => Value::Nil,
                            };
                            self.set_stack(dst, v)
                        },
                        Ok(_) => Err(ExecError::BadGlobalKey),
                        Err(e) => Err(e),
                    }
                },
                ByteCode::LoadConst(dst, c) => {
                    match get_const(&proto.constants, c as usize) {
                        Ok(v) => {
                            let v = v.clone();
                            self.set_stack(dst, v)
                        },
                        Err(e) => Err(e),
                    }
                },
                ByteCode::Call(func, _) => {
                    if (func as usize) < self.stack.len() {
                        match &self.stack[func as usize] {
                            Value::Function(f) => {
                                let f = *f;
                                self.call(f, func)
                            },
                            _ => Err(ExecError::NotCallable),
                        }
                    } else {
                        Err(ExecError::BadStackRead)
                    }
                },
                ByteCode::LoadNil(dst) => self.set_stack(dst, Value::Nil),
                ByteCode::LoadBool(dst, b) => self.set_stack(dst, Value::Boolean(b)),
                ByteCode::LoadInt(dst, i) => self.set_stack(dst, Value::Integer(i as i64)),
                ByteCode::Move(dst, src) => {
                    if (src as usize) < self.stack.len() {
                        let v = self.stack[src as usize].clone();
                        self.set_stack(dst, v)
                    } else {
                        Err(ExecError::BadStackRead)
                    }
                },
                _ => Err(ExecError::Unimplemented),
            };
            match stepped {
                Ok(()) => {},
                Err(e) => {
                    return Err(e);
                },
            }
            pc = pc + 1;
        }
        Ok(())
    }

    /// Writes `v` into the slot `dst`.
    fn set_stack(&mut self, dst: u8, v: Value) -> (r: Result<(), ExecError>)
        ensures
            match r {
                Ok(()) => old(self)@.set_stack(dst, v@) == Ok::<_, ExecError>(final(self)@),
                Err(e) => old(self)@.set_stack(dst, v@) == Err::<VmView, _>(e) && final(self)@
                    == old(self)@,
            },
    {
        let dst = dst as usize;
        if dst == self.stack.len() {
            self.stack.push(v);
            assert(views(self.stack@) =~= views(old(self).stack@).push(v@));
            Ok(())
        } else if dst < self.stack.len() {
            self.stack.set(dst, v);
            assert(views(self.stack@) =~= views(old(self).stack@).update(dst as int, v@));
            Ok(())
        } else {
            Err(ExecError::BadStackWrite)
        }
    }

    /// Calls the native function `f`, which sits in the slot `func`.
    fn call(&mut self, f: NativeFn, func: u8) -> (r: Result<(), ExecError>)
        ensures
            match r {
                Ok(()) => old(self)@.call(f, func) == Ok::<_, ExecError>(final(self)@),
                Err(e) => old(self)@.call(f, func) == Err::<VmView, _>(e) && final(self)@ == old(
                    self,
                )@,
            },
    {
        match f {
            NativeFn::Print => {
                if (func as usize) + 1 < self.stack.len() {
                    lib_print(self, func as usize);
                    Ok(())
                } else {
                    Err(ExecError::BadStackRead)
                }
            },
        }
    }
}

/// The constant with the index `i`.
fn get_const(constants: &Vec<Value>, i: usize) -> (r: Result<&Value, ExecError>)
    ensures
        match r {
            Ok(v) => i < constants.len() && *v == constants[i as int],
            Err(e) => i >= constants.len() && e == ExecError::BadConstant,
        },
{
    if i < constants.len() {
        Ok(&constants[i])
    } else {
        Err(ExecError::BadConstant)
    }
}

/// The built-in `print`: shows its one argument, which sits in the slot after
/// the function, on a line of its own. Its status is always 0.
fn lib_print(state: &mut ExeState, func: usize) -> (status: i32)
    requires
        func + 1 < old(state)@.stack.len(),
    ensures
        status == 0,
        final(state)@ == (VmView {
            output: old(state)@.output.push(old(state)@.stack[func + 1].text()),
            ..old(state)@
        }),
{
    assert(state@.stack.len() == state.stack.len());
    let line = state.stack[func + 1].to_string();
    state.output.push(line);
    assert(texts(state.output@) =~= texts(old(state).output@).push(line@));
    0
}

} // verus!
