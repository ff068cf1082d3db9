//! The compiler: reads the tokens of a source text statement by statement
//! and emits bytecode as it goes.

use crate::bytecode::ByteCode;
use crate::lex::{lemma_scan_progress, scan, Lex, LexError, Token, TokenView};
use crate::text::texts;
use crate::value::{views, Value, ValueView};
use vstd::prelude::*;
use vstd::string::*;

verus! {

/// Why a source text does not compile.
#[derive(Clone, Copy, Debug, PartialEq, Eq, Structural)]
pub enum ParseError {
    /// The source has no next token where one is needed.
    Lex(LexError),
    /// A statement starts with something other than a name or `local`, or a
    /// called name is followed by neither `(` nor a string.
    UnexpectedToken,
    /// `local` is not followed by a name.
    ExpectedName,
    /// The name after `local` is not followed by `=`.
    ExpectedAssign,
    /// The argument of a call is not followed by `)`.
    ExpectedParR,
    /// Something other than a name or a literal stands where a value is
    /// needed.
    InvalidArgument,
    /// A constant would get an index that no instruction operand can hold.
    TooManyConstants,
    /// A stack slot would get an index that no instruction operand can hold.
    TooManyLocals,
}

/// The number of constants that a `LoadConst` can tell apart.
pub const MAX_CONSTANTS: usize = 65536;

/// The number of stack slots, and of constants as one-byte operands, that an
/// instruction can tell apart.
pub const MAX_SLOTS: usize = 256;

/// No value occurs twice.
pub open spec fn distinct(pool: Seq<ValueView>) -> bool {
    forall|i: int, j: int| 0 <= i < j < pool.len() ==> pool[i] != pool[j]
}

/// `longer` holds `shorter` in front, entry by entry.
pub open spec fn extends<T>(longer: Seq<T>, shorter: Seq<T>) -> bool {
    &&& shorter.len() <= longer.len()
    &&& forall|i: int| 0 <= i < shorter.len() ==> longer[i] == shorter[i]
}

/// Where `c` first occurs in `pool`; the length of `pool` if it does not.
pub open spec fn pool_index(pool: Seq<ValueView>, c: ValueView) -> int
    decreases pool.len(),
{
    if pool.len() == 0 {
        0
    } else {
        let i = pool_index(pool.drop_last(), c);
        if i < pool.len() - 1 {
            i
        } else if pool.last() == c {
            pool.len() - 1
        } else {
            pool.len() as int
        }
    }
}

/// Interning: the pool that holds `c`, and the index of `c` in it. A value
/// already in the pool keeps its index; a new one goes to the end, unless
/// the pool is full.
pub open spec fn add_const(pool: Seq<ValueView>, c: ValueView) -> Result<
    (Seq<ValueView>, int),
    ParseError,
> {
    let i = pool_index(pool, c);
    if i < pool.len() {
        Ok((pool, i))
    } else if pool.len() >= MAX_CONSTANTS {
        Err(ParseError::TooManyConstants)
    } else {
        Ok((pool.push(c), i))
    }
}

/// Interning for an instruction that holds the index in one byte.
pub open spec fn add_small(pool: Seq<ValueView>, c: ValueView) -> Result<
    (Seq<ValueView>, u8),
    ParseError,
> {
    match add_const(pool, c) {
        Ok((pool, i)) => if i < MAX_SLOTS {
            Ok((pool, i as u8))
        } else {
            Err(ParseError::TooManyConstants)
        },
        Err(e) => Err(e),
    }
}

/// The slot of the local variable `name`: the most recently declared one of
/// that name.
pub open spec fn find_local(locals: Seq<Seq<char>>, name: Seq<char>) -> Option<int>
    decreases locals.len(),
{
    if locals.len() == 0 {
        None
    } else if locals.last() == name {
        Some(locals.len() - 1)
    } else {
        find_local(locals.drop_last(), name)
    }
}

/// Whether an integer literal fits the operand of `LoadInt`.
pub open spec fn is_immediate(i: i64) -> bool {
    -32768 <= i <= 32767
}

/// The state of a compilation.
pub struct ProtoView {
    /// The constant pool.
    pub constants: Seq<ValueView>,
    /// The instructions emitted so far.
    pub byte_codes: Seq<ByteCode>,
    /// The local variables declared so far; each has the slot of its index.
    pub locals: Seq<Seq<char>>,
    /// The source text.
    pub source: Seq<u8>,
    /// How far the source has been compiled.
    pub cursor: int,
}

impl ProtoView {
    /// The state before anything of `source` has been compiled.
    pub open spec fn start(source: Seq<u8>) -> ProtoView {
        ProtoView {
            constants: Seq::empty(),
            byte_codes: Seq::empty(),
            locals: Seq::empty(),
            source,
            cursor: 0,
        }
    }

    /// The pool holds nothing twice and no more than an operand can index,
    /// no more locals are declared than there are slots, and the cursor is
    /// in the source.
    pub open spec fn wf(self) -> bool {
        &&& distinct(self.constants)
        &&& self.constants.len() <= MAX_CONSTANTS
        &&& self.locals.len() <= MAX_SLOTS
        &&& 0 <= self.cursor <= self.source.len()
    }

    /// The same state with the cursor moved.
    /// This state has come out of `before` by compiling more of the same
    /// source: constants, instructions and locals have been added at the
    /// end, and what was there is where it was.
    pub open spec fn grown_from(self, before: ProtoView) -> bool {
        &&& extends(self.constants, before.constants)
        &&& extends(self.byte_codes, before.byte_codes)
        &&& extends(self.locals, before.locals)
        &&& self.source == before.source
        &&& before.cursor <= self.cursor
    }

    pub open spec fn at(self, cursor: int) -> ProtoView {
        ProtoView { cursor, ..self }
    }

    /// The same state with another constant pool.
    pub open spec fn with_pool(self, constants: Seq<ValueView>) -> ProtoView {
        ProtoView { constants, ..self }
    }

    /// The same state with one more instruction.
    pub open spec fn emit(self, code: ByteCode) -> ProtoView {
        ProtoView { byte_codes: self.byte_codes.push(code), ..self }
    }

    /// The same state with one more local variable, in the next slot.
    pub open spec fn declare(self, name: Seq<char>) -> ProtoView {
        ProtoView { locals: self.locals.push(name), ..self }
    }

    /// Interns `c` and gives the instruction that loads it into `dst`.
    pub open spec fn load_const(self, dst: u8, c: ValueView) -> Result<
        (ProtoView, ByteCode),
        ParseError,
    > {
        match add_const(self.constants, c) {
            Ok((pool, i)) => Ok((self.with_pool(pool), ByteCode::LoadConst(dst, i as u16))),
            Err(e) => Err(e),
        }
    }

    /// The instruction that loads the variable `name` into `dst`: a copy of
    /// its slot if it is a local, else a fetch of the global of that name.
    pub open spec fn load_var(self, dst: u8, name: Seq<char>) -> Result<
        (ProtoView, ByteCode),
        ParseError,
    > {
        match find_local(self.locals, name) {
            Some(i) => Ok((self, ByteCode::Move(dst, i as u8))),
            None => match add_small(self.constants, ValueView::String(name)) {
                Ok((pool, i)) => Ok((self.with_pool(pool), ByteCode::GetGlobal(dst, i))),
                Err(e) => Err(e),
            },
        }
    }

    /// Compiles the expression at the cursor into the slot `dst`: a name, or
    /// a literal. An integer that fits sixteen bits is loaded from the
    /// instruction itself; every other number, and every string, from the
    /// constant pool.
    pub open spec fn load_exp(self, dst: u8) -> Result<ProtoView, ParseError> {
        match scan(self.source, self.cursor) {
            Err(e) => Err(ParseError::Lex(e)),
            Ok((t, end)) => {
                let st = self.at(end);
                let loaded = match t {
                    TokenView::Name(var) => st.load_var(dst, var),
                    TokenView::Nil => Ok((st, ByteCode::LoadNil(dst))),
                    TokenView::True => Ok((st, ByteCode::LoadBool(dst, true))),
                    TokenView::False => Ok((st, ByteCode::LoadBool(dst, false))),
                    TokenView::Integer(i) => if is_immediate(i) {
                        Ok((st, ByteCode::LoadInt(dst, i as i16)))
                    } else {
                        st.load_const(dst, ValueView::Integer(i))
                    },
                    TokenView::Float(f) => st.load_const(dst, ValueView::Float(f)),
                    TokenView::String(s) => st.load_const(dst, ValueView::String(s)),
                    _ => Err(ParseError::InvalidArgument),
                };
                match loaded {
                    Ok((st, code)) => Ok(st.emit(code)),
                    Err(e) => Err(e),
                }
            },
        }
    }

    /// Compiles a call of `name`, with the cursor after the name: the
    /// function goes into the first free slot, its one argument, in
    /// parentheses or a bare string, into the slot after it.
    pub open spec fn function_call(self, name: Seq<char>) -> Result<ProtoView, ParseError> {
        if self.locals.len() + 1 >= MAX_SLOTS {
            Err(ParseError::TooManyLocals)
        } else {
            let ifunc = self.locals.len() as u8;
            let iarg = (ifunc + 1) as u8;
            match self.load_var(ifunc, name) {
                Err(e) => Err(e),
                Ok((st, code)) => {
                    let st = st.emit(code);
                    match scan(st.source, st.cursor) {
                        Err(e) => Err(ParseError::Lex(e)),
                        Ok((TokenView::ParL, end)) => match st.at(end).load_exp(iarg) {
                            Err(e) => Err(e),
                            Ok(st) => match scan(st.source, st.cursor) {
                                Err(e) => Err(ParseError::Lex(e)),
                                Ok((TokenView::ParR, end)) => Ok(
                                    st.at(end).emit(ByteCode::Call(ifunc, 1)),
                                ),
                                Ok(_) => Err(ParseError::ExpectedParR),
                            },
                        },
                        Ok((TokenView::String(s), end)) => match st.at(end).load_const(
                            iarg,
                            ValueView::String(s),
                        ) {
                            Err(e) => Err(e),
                            Ok((st, code)) => Ok(st.emit(code).emit(ByteCode::Call(ifunc, 1))),
                        },
                        Ok(_) => Err(ParseError::UnexpectedToken),
                    }
                },
            }
        }
    }

    /// Compiles a declaration, with the cursor after `local`. The value is
    /// compiled before the name is declared, so a name in it refers to an
    /// earlier variable.
    pub open spec fn local(self) -> Result<ProtoView, ParseError> {
        match scan(self.source, self.cursor) {
            Err(e) => Err(ParseError::Lex(e)),
            Ok((TokenView::Name(var), end)) => match scan(self.source, end) {
                Err(e) => Err(ParseError::Lex(e)),
                Ok((TokenView::Assign, end)) => if self.locals.len() >= MAX_SLOTS {
                    Err(ParseError::TooManyLocals)
                } else {
                    match self.at(end).load_exp(self.locals.len() as u8) {
                        Err(e) => Err(e),
                        Ok(st) => Ok(st.declare(var)),
                    }
                },
                Ok(_) => Err(ParseError::ExpectedAssign),
            },
            Ok(_) => Err(ParseError::ExpectedName),
        }
    }

    /// Interns `c` and stores it into the global named by the constant `dst`.
    pub open spec fn set_global_const(self, dst: u8, c: ValueView) -> Result<
        ProtoView,
        ParseError,
    > {
        match add_small(self.constants, c) {
            Ok((pool, i)) => Ok(self.with_pool(pool).emit(ByteCode::SetGlobalConst(dst, i))),
            Err(e) => Err(e),
        }
    }

    /// Compiles an assignment to `var`, with the cursor after the `=`. A
    /// local variable gets the value in its slot; any other name is a
    /// global, which is set from a literal, a local or another global.
    pub open spec fn assignment(self, var: Seq<char>) -> Result<ProtoView, ParseError> {
        match find_local(self.locals, var) {
            Some(i) => self.load_exp(i as u8),
            None => match add_small(self.constants, ValueView::String(var)) {
                Err(e) => Err(e),
                Ok((pool, dst)) => match scan(self.source, self.cursor) {
                    Err(e) => Err(ParseError::Lex(e)),
                    Ok((t, end)) => {
                        let st = self.with_pool(pool).at(end);
                        match t {
                            TokenView::Nil => st.set_global_const(dst, ValueView::Nil),
                            TokenView::True => st.set_global_const(dst, ValueView::Boolean(true)),
                            TokenView::False => st.set_global_const(
                                dst,
                                ValueView::Boolean(false),
                            ),
                            TokenView::Integer(i) => st.set_global_const(
                                dst,
                                ValueView::Integer(i),
                            ),
                            TokenView::Float(f) => st.set_global_const(dst, ValueView::Float(f)),
                            TokenView::String(s) => st.set_global_const(dst, ValueView::String(s)),
                            TokenView::Name(from) => match find_local(st.locals, from) {
                                Some(i) => Ok(st.emit(ByteCode::SetGlobal(dst, i as u8))),
                                None => match add_small(st.constants, ValueView::String(from)) {
                                    Ok((pool, src)) => Ok(
                                        st.with_pool(pool).emit(
                                            ByteCode::SetGlobalGlobal(dst, src),
                                        ),
                                    ),
                                    Err(e) => Err(e),
                                },
                            },
                            _ => Err(ParseError::InvalidArgument),
                        }
                    },
                },
            },
        }
    }

    /// Compiles the statement at the cursor. The flag says whether there was
    /// one: it is `false` at the end of the source.
    pub open spec fn statement(self) -> Result<(ProtoView, bool), ParseError> {
        match scan(self.source, self.cursor) {
            Err(e) => Err(ParseError::Lex(e)),
            Ok((TokenView::Name(name), end)) => match scan(self.source, end) {
                Err(e) => Err(ParseError::Lex(e)),
                Ok((TokenView::Assign, after)) => match self.at(after).assignment(name) {
                    Ok(st) => Ok((st, true)),
                    Err(e) => Err(e),
                },
                Ok(_) => match self.at(end).function_call(name) {
                    Ok(st) => Ok((st, true)),
                    Err(e) => Err(e),
                },
            },
            Ok((TokenView::Local, end)) => match self.at(end).local() {
                Ok(st) => Ok((st, true)),
                Err(e) => Err(e),
            },
            Ok((TokenView::Eos, end)) => Ok((self.at(end), false)),
            Ok(_) => Err(ParseError::UnexpectedToken),
        }
    }

    /// Compiles statement after statement up to the end of the source.
    pub open spec fn chunk(self) -> Result<ProtoView, ParseError>
        decreases self.source.len() - self.cursor,
        when self.wf()
    {
        match self.statement() {
            Err(e) => Err(e),
            Ok((st, false)) => Ok(st),
            Ok((st, true)) => {
                proof {
                    lemma_statement(self);
                }
                st.chunk()
            },
        }
    }
}

/// What compiling `source` from its start gives.
pub open spec fn compile(source: Seq<u8>) -> Result<ProtoView, ParseError> {
    ProtoView::start(source).chunk()
}

/// `pool_index` is the first place where `c` occurs, or the length.
pub proof fn lemma_pool_index(pool: Seq<ValueView>, c: ValueView)
    ensures
        0 <= pool_index(pool, c) <= pool.len(),
        pool_index(pool, c) < pool.len() ==> pool[pool_index(pool, c)] == c,
        forall|j: int| 0 <= j < pool_index(pool, c) ==> pool[j] != c,
    decreases pool.len(),
{
    if pool.len() > 0 {
        let prefix = pool.drop_last();
        lemma_pool_index(prefix, c);
        assert forall|j: int| 0 <= j < pool_index(pool, c) implies pool[j] != c by {
            if j < prefix.len() {
                assert(prefix[j] == pool[j]);
            }
        }
    }
}

/// Interning keeps the pool free of duplicates and within its limit, keeps
/// what it held in place, and gives an index at which the value stands.
pub proof fn lemma_add_const(pool: Seq<ValueView>, c: ValueView)
    requires
        distinct(pool),
        pool.len() <= MAX_CONSTANTS,
    ensures
        match add_const(pool, c) {
            Ok((after, i)) => {
                &&& distinct(after)
                &&& after.len() <= MAX_CONSTANTS
                &&& 0 <= i < after.len()
                &&& after[i] == c
                &&& extends(after, pool)
            },
            Err(_) => true,
        },
{
    lemma_pool_index(pool, c);
}

/// The slot that `find_local` gives holds the name, and no later slot does.
pub proof fn lemma_find_local(locals: Seq<Seq<char>>, name: Seq<char>)
    ensures
        match find_local(locals, name) {
            Some(i) => 0 <= i < locals.len() && locals[i] == name && forall|j: int|
                i < j < locals.len() ==> locals[j] != name,
            None => forall|j: int| 0 <= j < locals.len() ==> locals[j] != name,
        },
    decreases locals.len(),
{
    if locals.len() > 0 && locals.last() != name {
        let prefix = locals.drop_last();
        lemma_find_local(prefix, name);
        assert forall|j: int| 0 <= j < prefix.len() implies prefix[j] == locals[j] by {}
        match find_local(locals, name) {
            Some(i) => {
                assert forall|j: int| i < j < locals.len() implies locals[j] != name by {
                    if j < prefix.len() {
                        assert(prefix[j] == locals[j]);
                    }
                }
            },
            None => {
                assert forall|j: int| 0 <= j < locals.len() implies locals[j] != name by {
                    if j < prefix.len() {
                        assert(prefix[j] == locals[j]);
                    }
                }
            },
        }
    }
}

/// Compiling an expression keeps the state well formed, leaves the source
/// and the locals as they were, and moves the cursor forward.
pub proof fn lemma_load_exp(st: ProtoView, dst: u8)
    requires
        st.wf(),
    ensures
        match st.load_exp(dst) {
            Ok(after) => {
                &&& after.wf()
                &&& after.grown_from(st)
                &&& after.locals == st.locals
                &&& st.cursor < after.cursor
            },
            Err(_) => true,
        },
{
    lemma_scan_progress(st.source, st.cursor);
    match scan(st.source, st.cursor) {
        Ok((t, end)) => {
            match t {
                TokenView::Name(var) => {
                    lemma_add_const(st.constants, ValueView::String(var));
                },
                TokenView::Integer(i) => {
                    lemma_add_const(st.constants, ValueView::Integer(i));
                },
                TokenView::Float(f) => {
                    lemma_add_const(st.constants, ValueView::Float(f));
                },
                TokenView::String(s) => {
                    lemma_add_const(st.constants, ValueView::String(s));
                },
                _ => {},
            }
        },
        Err(_) => {},
    }
}

/// Compiling a statement keeps the state well formed and the source as it
/// was, and moves the cursor forward where there was a statement.
pub proof fn lemma_statement(st: ProtoView)
    requires
        st.wf(),
    ensures
        match st.statement() {
            Ok((after, more)) => {
                &&& after.wf()
                &&& after.grown_from(st)
                &&& more ==> st.cursor < after.cursor
            },
            Err(_) => true,
        },
{
    lemma_scan_progress(st.source, st.cursor);
    match scan(st.source, st.cursor) {
        Ok((TokenView::Name(name), end)) => {
            lemma_scan_progress(st.source, end);
            match scan(st.source, end) {
                Ok((TokenView::Assign, after)) => {
                    lemma_assignment(st.at(after), name);
                },
                Ok(_) => {
                    lemma_function_call(st.at(end), name);
                },
                Err(_) => {},
            }
        },
        Ok((TokenView::Local, end)) => {
            lemma_local(st.at(end));
        },
        _ => {},
    }
}

/// Compiling a call keeps the state well formed and the source as it was.
proof fn lemma_function_call(st: ProtoView, name: Seq<char>)
    requires
        st.wf(),
    ensures
        match st.function_call(name) {
            Ok(after) => after.wf() && after.grown_from(st),
            Err(_) => true,
        },
{
    if st.locals.len() + 1 < MAX_SLOTS {
        let ifunc = st.locals.len() as u8;
        let iarg = (ifunc + 1) as u8;
        lemma_add_const(st.constants, ValueView::String(name));
        match st.load_var(ifunc, name) {
            Ok((st1, code)) => {
                let st1 = st1.emit(code);
                lemma_scan_progress(st1.source, st1.cursor);
                match scan(st1.source, st1.cursor) {
                    Ok((TokenView::ParL, end)) => {
                        lemma_load_exp(st1.at(end), iarg);
                        match st1.at(end).load_exp(iarg) {
                            Ok(st2) => {
                                lemma_scan_progress(st2.source, st2.cursor);
                            },
                            Err(_) => {},
                        }
                    },
                    Ok((TokenView::String(s), end)) => {
                        lemma_add_const(st1.constants, ValueView::String(s));
                    },
                    _ => {},
                }
            },
            Err(_) => {},
        }
    }
}

/// Compiling a declaration keeps the state well formed and the source as
/// it was.
proof fn lemma_local(st: ProtoView)
    requires
        st.wf(),
    ensures
        match st.local() {
            Ok(after) => after.wf() && after.grown_from(st),
            Err(_) => true,
        },
{
    lemma_scan_progress(st.source, st.cursor);
    match scan(st.source, st.cursor) {
        Ok((TokenView::Name(var), end)) => {
            lemma_scan_progress(st.source, end);
            match scan(st.source, end) {
                Ok((TokenView::Assign, end2)) => {
                    if st.locals.len() < MAX_SLOTS {
                        lemma_load_exp(st.at(end2), st.locals.len() as u8);
                    }
                },
                _ => {},
            }
        },
        _ => {},
    }
}

/// Compiling an assignment keeps the state well formed and the source as
/// it was.
proof fn lemma_assignment(st: ProtoView, var: Seq<char>)
    requires
        st.wf(),
    ensures
        match st.assignment(var) {
            Ok(after) => after.wf() && after.grown_from(st),
            Err(_) => true,
        },
{
    lemma_find_local(st.locals, var);
    match find_local(st.locals, var) {
        Some(i) => {
            lemma_load_exp(st, i as u8);
        },
        None => {
            lemma_add_const(st.constants, ValueView::String(var));
            match add_small(st.constants, ValueView::String(var)) {
                Ok((pool, dst)) => {
                    lemma_scan_progress(st.source, st.cursor);
                    match scan(st.source, st.cursor) {
                        Ok((t, end)) => {
                            let st1 = st.with_pool(pool).at(end);
                            match t {
                                TokenView::Nil => lemma_add_const(pool, ValueView::Nil),
                                TokenView::True => lemma_add_const(pool, ValueView::Boolean(true)),
                                TokenView::False => lemma_add_const(
                                    pool,
                                    ValueView::Boolean(false),
                                ),
                                TokenView::Integer(i) => lemma_add_const(
                                    pool,
                                    ValueView::Integer(i),
                                ),
                                TokenView::Float(f) => lemma_add_const(pool, ValueView::Float(f)),
                                TokenView::String(s) => lemma_add_const(
                                    pool,
                                    ValueView::String(s),
                                ),
                                TokenView::Name(from) => lemma_add_const(
                                    pool,
                                    ValueView::String(from),
                                ),
                                _ => {},
                            }
                        },
                        Err(_) => {},
                    }
                },
                Err(_) => {},
            }
        },
    }
}

/// Compiling to the end of the source keeps the state well formed, so that
/// its constant pool holds no value twice, and only adds to it.
pub proof fn lemma_chunk(st: ProtoView)
    requires
        st.wf(),
    ensures
        match st.chunk() {
            Ok(after) => after.wf() && after.grown_from(st),
            Err(_) => true,
        },
    decreases st.source.len() - st.cursor,
{
    lemma_statement(st);
    match st.statement() {
        Ok((after, true)) => {
            lemma_chunk(after);
        },
        _ => {},
    }
}

/// The constant pool of a compiled unit holds no value twice.
pub proof fn lemma_compile_distinct(source: Seq<u8>)
    ensures
        match compile(source) {
            Ok(unit) => unit.wf() && distinct(unit.constants) && unit.source == source,
            Err(_) => true,
        },
{
    lemma_chunk(ProtoView::start(source));
}

/// A value that is interned a second time gets the index it got the first
/// time, and the pool stays as it is: all that refer to one value refer to
/// one entry.
pub proof fn lemma_add_const_again(pool: Seq<ValueView>, c: ValueView)
    requires
        distinct(pool),
    ensures
        match add_const(pool, c) {
            Ok((after, i)) => add_const(after, c) == Ok::<_, ParseError>((after, i)),
            Err(_) => true,
        },
{
    lemma_pool_index(pool, c);
    match add_const(pool, c) {
        Ok((after, i)) => {
            lemma_pool_index(after, c);
            let again = pool_index(after, c);
            assert(after[i] == c);
            if again < i {
                assert(after[again] == pool[again]);
            }
        },
        Err(_) => {},
    }
}

/// An integer literal that fits sixteen signed bits is loaded from the
/// instruction itself and leaves the pool alone; any other is loaded from
/// the pool entry that holds it, and fails only where the pool is full.
pub proof fn lemma_integer_placement(st: ProtoView, dst: u8, i: i64, end: int)
    requires
        st.wf(),
        scan(st.source, st.cursor) == Ok::<_, LexError>((TokenView::Integer(i), end)),
    ensures
        match st.load_exp(dst) {
            Ok(after) => if is_immediate(i) {
                &&& after.constants == st.constants
                &&& after.byte_codes == st.byte_codes.push(ByteCode::LoadInt(dst, i as i16))
            } else {
                let k = pool_index(st.constants, ValueView::Integer(i));
                &&& after.byte_codes == st.byte_codes.push(ByteCode::LoadConst(dst, k as u16))
                &&& k < after.constants.len() <= MAX_CONSTANTS
                &&& after.constants[k] == ValueView::Integer(i)
                &&& after.constants == if st.constants.contains(ValueView::Integer(i)) {
                    st.constants
                } else {
                    st.constants.push(ValueView::Integer(i))
                }
            },
            Err(e) => {
                &&& !is_immediate(i)
                &&& e == ParseError::TooManyConstants
                &&& st.constants.len() == MAX_CONSTANTS
                &&& !st.constants.contains(ValueView::Integer(i))
            },
        },
{
    let c = ValueView::Integer(i);
    lemma_pool_index(st.constants, c);
    lemma_add_const(st.constants, c);
    if !is_immediate(i) {
        match add_const(st.constants, c) {
            Ok((pool, k)) => {
                let code = ByteCode::LoadConst(dst, k as u16);
                assert(st.load_exp(dst) == Ok::<_, ParseError>(
                    st.at(end).with_pool(pool).emit(code),
                ));
                if pool_index(st.constants, c) < st.constants.len() {
                    assert(st.constants[pool_index(st.constants, c)] == c);
                }
            },
            Err(_) => {},
        }
    }
}

/// A declaration compiles its value before it declares its name: the one
/// instruction it emits writes the new slot and, where it copies a slot,
/// reads an earlier one, the latest that has the name in the value.
pub proof fn lemma_local_reads_earlier(st: ProtoView)
    requires
        st.wf(),
    ensures
        match st.local() {
            Ok(after) => {
                &&& after.locals.len() == st.locals.len() + 1
                &&& after.locals.drop_last() == st.locals
                &&& after.byte_codes.len() == st.byte_codes.len() + 1
                &&& after.byte_codes.drop_last() == st.byte_codes
                &&& match after.byte_codes.last() {
                    ByteCode::Move(dst, src) => {
                        &&& dst == st.locals.len()
                        &&& src < dst
                        &&& find_local(st.locals, st.locals[src as int]) == Some(src as int)
                    },
                    ByteCode::GetGlobal(dst, _) | ByteCode::LoadConst(dst, _) | ByteCode::LoadNil(
                        dst,
                    ) | ByteCode::LoadBool(dst, _) | ByteCode::LoadInt(dst, _) => dst
                        == st.locals.len(),
                    _ => false,
                }
            },
            Err(_) => true,
        },
{
    match scan(st.source, st.cursor) {
        Ok((TokenView::Name(var), end)) => {
            match scan(st.source, end) {
                Ok((TokenView::Assign, end2)) => {
                    if st.locals.len() < MAX_SLOTS {
                        let dst = st.locals.len() as u8;
                        let st1 = st.at(end2);
                        match st1.load_exp(dst) {
                            Ok(st2) => {
                                match scan(st1.source, st1.cursor) {
                                    Ok((TokenView::Name(from), _)) => {
                                        lemma_find_local(st.locals, from);
                                    },
                                    _ => {},
                                }
                                let after = st2.declare(var);
                                assert(after.locals.drop_last() =~= st.locals);
                                assert(after.byte_codes.drop_last() =~= st.byte_codes);
                            },
                            Err(_) => {},
                        }
                    }
                },
                _ => {},
            }
        },
        _ => {},
    }
}

/// A compilation: the constant pool and the instructions emitted so far,
/// with the local variables declared so far and the tokenizer.
#[derive(Debug)]
pub struct ParseProto {
    pub constants: Vec<Value>,
    pub byte_codes: Vec<ByteCode>,
    pub locals: Vec<String>,
    pub lex: Lex,
}

impl View for ParseProto {
    type V = ProtoView;

    open spec fn view(&self) -> ProtoView {
        ProtoView {
            constants: views(self.constants@),
            byte_codes: self.byte_codes@,
            locals: texts(self.locals@),
            source: self.lex.source(),
            cursor: self.lex.cursor(),
        }
    }
}

impl ParseProto {
    /// The tokenizer is in order and the state is well formed.
    pub open spec fn wf(&self) -> bool {
        self.lex.wf() && self@.wf()
    }

    /// Compiles `input` from its start to its end.
    pub fn load(input: Vec<u8>) -> (r: Result<ParseProto, ParseError>)
        ensures
            match r {
                Ok(proto) => {
                    &&& compile(input@) == Ok::<_, ParseError>(proto@)
                    &&& proto.wf()
                },
                Err(e) => compile(input@) == Err::<ProtoView, _>(e),
            },
    {
        let mut proto = ParseProto {
            constants: Vec::new(),
            byte_codes: Vec::new(),
            locals: Vec::new(),
            lex: Lex::new(input),
        };
        assert(views(proto.constants@) =~= Seq::empty());
        assert(texts(proto.locals@) =~= Seq::empty());
        match proto.chunk() {
            Ok(()) => Ok(proto),
            Err(e) => Err(e),
        }
    }

    /// Compiles statement after statement up to the end of the source.
    fn chunk(&mut self) -> (r: Result<(), ParseError>)
        requires
            old(self).wf(),
        ensures
            match r {
                Ok(()) => old(self)@.chunk() == Ok::<_, ParseError>(final(self)@) && final(self).wf(),
                Err(e) => old(self)@.chunk() == Err::<ProtoView, _>(e),
            },
    {
        loop
            invariant
                self.wf(),
                self@.chunk() == old(self)@.chunk(),
            decreases self@.source.len() - self@.cursor,
        {
            proof {
                lemma_statement(self@);
            }
            match self.statement() {
                Ok(true) => {},
                Ok(false) => {
                    return Ok(());
                },
                Err(e) => {
                    return Err(e);
                },
            }
        }
    }

    /// Compiles the statement at the cursor, and says whether there was one.
    fn statement(&mut self) -> (r: Result<bool, ParseError>)
        requires
            old(self).wf(),
        ensures
            match r {
                Ok(more) => old(self)@.statement() == Ok::<_, ParseError>((final(self)@, more))
                    && final(self).wf(),
                Err(e) => old(self)@.statement() == Err::<(ProtoView, bool), _>(e),
            },
    {
        let token = match self.next_token() {
            Ok(t) => t,
            Err(e) => {
                return Err(e);
            },
        };
        match token {
            Token::Name(name) => {
                let assign = match self.peek_assign() {
                    Ok(b) => b,
                    Err(e) => {
                        return Err(e);
                    },
                };
                let compiled = if assign {
                    self.assignment(name)
                } else {
                    self.function_call(name)
                };
                match compiled {
                    Ok(()) => Ok(true),
                    Err(e) => Err(e),
                }
            },
            Token::Local => match self.local() {
                Ok(()) => Ok(true),
                Err(e) => Err(e),
            },
            Token::Eos => Ok(false),
            _ => Err(ParseError::UnexpectedToken),
        }
    }

    /// Takes the next token.
    fn next_token(&mut self) -> (r: Result<Token, ParseError>)
        requires
            old(self).wf(),
        ensures
            match r {
                Ok(t) => {
                    &&& final(self).wf()
                    &&& scan(old(self)@.source, old(self)@.cursor) == Ok::<_, LexError>(
                        (t@, final(self)@.cursor),
                    )
                    &&& final(self)@ == old(self)@.at(final(self)@.cursor)
                },
                Err(e) => match scan(old(self)@.source, old(self)@.cursor) {
                    Err(fault) => e == ParseError::Lex(fault),
                    Ok(_) => false,
                },
            },
    {
        match self.lex.next() {
            Ok(t) => Ok(t),
            Err(e) => Err(ParseError::Lex(e)),
        }
    }

    /// Whether the next token is `=`, which it then takes.
    fn peek_assign(&mut self) -> (r: Result<bool, ParseError>)
        requires
            old(self).wf(),
        ensures
            match r {
                Ok(b) => match scan(old(self)@.source, old(self)@.cursor) {
                    Ok((t, end)) => {
                        &&& final(self).wf()
                        &&& b == (t == TokenView::Assign)
                        &&& final(self)@ == if b {
                            old(self)@.at(end)
                        } else {
                            old(self)@
                        }
                    },
                    Err(_) => false,
                },
                Err(e) => match scan(old(self)@.source, old(self)@.cursor) {
                    Err(fault) => e == ParseError::Lex(fault),
                    Ok(_) => false,
                },
            },
    {
        let assign = match self.lex.peek() {
            Ok(t) => matches!(t, Token::Assign),
            Err(e) => {
                return Err(ParseError::Lex(e));
            },
        };
        if assign {
            match self.lex.next() {
                Ok(_) => {},
                Err(e) => {
                    return Err(ParseError::Lex(e));
                },
            }
        }
        Ok(assign)
    }

    /// Compiles a call of `name`: `name(exp)` or `name "string"`.
    fn function_call(&mut self, name: String) -> (r: Result<(), ParseError>)
        requires
            old(self).wf(),
        ensures
            match r {
                Ok(()) => old(self)@.function_call(name@) == Ok::<_, ParseError>(final(self)@)
                    && final(self).wf(),
                Err(e) => old(self)@.function_call(name@) == Err::<ProtoView, _>(e),
            },
    {
        proof {
            lemma_function_call(self@, name@);
        }
        if self.locals.len() + 1 >= MAX_SLOTS {
            return Err(ParseError::TooManyLocals);
        }
        let ifunc = self.locals.len() as u8;
        let iarg = ifunc + 1;
        let code = match self.load_var(ifunc, name) {
            Ok(code) => code,
            Err(e) => {
                return Err(e);
            },
        };
        self.byte_codes.push(code);
        let token = match self.next_token() {
            Ok(t) => t,
            Err(e) => {
                return Err(e);
            },
        };
        match token {
            Token::ParL => {
                match self.load_exp(iarg) {
                    Ok(()) => {},
                    Err(e) => {
                        return Err(e);
                    },
                }
                let close = match self.next_token() {
                    Ok(t) => t,
                    Err(e) => {
                        return Err(e);
                    },
                };
                if !matches!(close, Token::ParR) {
                    return Err(ParseError::ExpectedParR);
                }
            },
            Token::String(s) => {
                let code = match self.load_const(iarg, Value::String(s)) {
                    Ok(code) => code,
                    Err(e) => {
                        return Err(e);
                    },
                };
                self.byte_codes.push(code);
            },
            _ => {
                return Err(ParseError::UnexpectedToken);
            },
        }
        self.byte_codes.push(ByteCode::Call(ifunc, 1));
        Ok(())
    }

    /// Compiles a declaration: `local name = exp`, after the `local`.
    fn local(&mut self) -> (r: Result<(), ParseError>)
        requires
            old(self).wf(),
        ensures
            match r {
                Ok(()) => old(self)@.local() == Ok::<_, ParseError>(final(self)@) && final(self).wf(),
                Err(e) => old(self)@.local() == Err::<ProtoView, _>(e),
            },
    {
        proof {
            lemma_local(self@);
        }
        let var = match self.next_token() {
            Ok(Token::Name(var)) => var,
            Ok(_) => {
                return Err(ParseError::ExpectedName);
            },
            Err(e) => {
                return Err(e);
            },
        };
        match self.next_token() {
            Ok(Token::Assign) => {},
            Ok(_) => {
                return Err(ParseError::ExpectedAssign);
            },
            Err(e) => {
                return Err(e);
            },
        }
        if self.locals.len() >= MAX_SLOTS {
            return Err(ParseError::TooManyLocals);
        }
        match self.load_exp(self.locals.len() as u8) {
            Ok(()) => {},
            Err(e) => {
                return Err(e);
            },
        }
        // the name is declared only now: the expression does not see it
        self.locals.push(var);
        assert(self@.locals =~= old(self)@.locals.push(var@));
        Ok(())
    }

    /// Compiles an assignment to `var`, after the `=`.
    fn assignment(&mut self, var: String) -> (r: Result<(), ParseError>)
        requires
            old(self).wf(),
        ensures
            match r {
                Ok(()) => old(self)@.assignment(var@) == Ok::<_, ParseError>(final(self)@)
                    && final(self).wf(),
                Err(e) => old(self)@.assignment(var@) == Err::<ProtoView, _>(e),
            },
    {
        proof {
            lemma_assignment(self@, var@);
        }
        if let Some(i) = self.get_local(var.as_str()) {
            // local variable
            return self.load_exp(i as u8);
        }
        // global variable
        let dst = match self.add_small(Value::String(var)) {
            Ok(dst) => dst,
            Err(e) => {
                return Err(e);
            },
        };
        let token = match self.next_token() {
            Ok(t) => t,
            Err(e) => {
                return Err(e);
            },
        };
        let code = match token {
            // from const values
            Token::Nil => self.set_global_const(dst, Value::Nil),
            Token::True => self.set_global_const(dst, Value::Boolean(true)),
            Token::False => self.set_global_const(dst, Value::Boolean(false)),
            Token::Integer(i) => self.set_global_const(dst, Value::Integer(i)),
            Token::Float(f) => self.set_global_const(dst, Value::Float(f)),
            Token::String(s) => self.set_global_const(dst, Value::String(s)),
            // from variable
            Token::Name(from) => {
                if let Some(i) = self.get_local(from.as_str()) {
                    Ok(ByteCode::SetGlobal(dst, i as u8))
                } else {
                    match self.add_small(Value::String(from)) {
                        Ok(src) => Ok(ByteCode::SetGlobalGlobal(dst, src)),
                        Err(e) => Err(e),
                    }
                }
            },
            _ => Err(ParseError::InvalidArgument),
        };
        match code {
            Ok(code) => {
                self.byte_codes.push(code);
                Ok(())
            },
            Err(e) => Err(e),
        }
    }

    /// Interns `c` and gives the instruction that stores it into the global
    /// named by the constant `dst`.
    fn set_global_const(&mut self, dst: u8, c: Value) -> (r: Result<ByteCode, ParseError>)
        requires
            old(self).wf(),
        ensures
            match r {
                Ok(code) => old(self)@.set_global_const(dst, c@) == Ok::<_, ParseError>(
                    final(self)@.emit(code),
                ) && final(self).wf(),
                Err(e) => old(self)@.set_global_const(dst, c@) == Err::<ProtoView, _>(e),
            },
    {
        match self.add_small(c) {
            Ok(i) => Ok(ByteCode::SetGlobalConst(dst, i)),
            Err(e) => Err(e),
        }
    }

    /// Interns `c`: gives the index at which the pool holds it, putting it
    /// at the end of the pool if it is not there yet.
    fn add_const(&mut self, c: Value) -> (r: Result<usize, ParseError>)
        requires
            old(self).wf(),
        ensures
            match r {
                Ok(i) => {
                    &&& add_const(old(self)@.constants, c@) == Ok::<_, ParseError>(
                        (final(self)@.constants, i as int),
                    )
                    &&& final(self)@ == old(self)@.with_pool(final(self)@.constants)
                    &&& final(self).wf()
                    &&& i < MAX_CONSTANTS
                },
                Err(e) => add_const(old(self)@.constants, c@) == Err::<(Seq<ValueView>, int), _>(
                    e,
                ),
            },
    {
        let mut i: usize = 0;
        while i < self.constants.len()
            invariant
                *self == *old(self),
                self.wf(),
                i <= self.constants.len(),
                forall|j: int| 0 <= j < i ==> views(self.constants@)[j] != c@,
            decreases self.constants.len() - i,
        {
            if self.constants[i] == c {
                proof {
                    assert(views(self.constants@)[i as int] == c@);
                    lemma_pool_index(self@.constants, c@);
                }
                return Ok(i);
            }
            i = i + 1;
        }
        proof {
            lemma_pool_index(self@.constants, c@);
            lemma_add_const(self@.constants, c@);
        }
        if i >= MAX_CONSTANTS {
            return Err(ParseError::TooManyConstants);
        }
        self.constants.push(c);
        assert(views(self.constants@) =~= views(old(self).constants@).push(c@));
        Ok(i)
    }

    /// Interning for an instruction that holds the index in one byte.
    fn add_small(&mut self, c: Value) -> (r: Result<u8, ParseError>)
        requires
            old(self).wf(),
        ensures
            match r {
                Ok(i) => {
                    &&& add_small(old(self)@.constants, c@) == Ok::<_, ParseError>(
                        (final(self)@.constants, i),
                    )
                    &&& final(self)@ == old(self)@.with_pool(final(self)@.constants)
                    &&& final(self).wf()
                },
                Err(e) => add_small(old(self)@.constants, c@) == Err::<(Seq<ValueView>, u8), _>(e),
            },
    {
        match self.add_const(c) {
            Ok(i) => if i < MAX_SLOTS {
                Ok(i as u8)
            } else {
                Err(ParseError::TooManyConstants)
            },
            Err(e) => Err(e),
        }
    }

    /// Interns `c` and gives the instruction that loads it into `dst`.
    fn load_const(&mut self, dst: u8, c: Value) -> (r: Result<ByteCode, ParseError>)
        requires
            old(self).wf(),
        ensures
            match r {
                Ok(code) => old(self)@.load_const(dst, c@) == Ok::<_, ParseError>(
                    (final(self)@, code),
                ) && final(self).wf(),
                Err(e) => old(self)@.load_const(dst, c@) == Err::<(ProtoView, ByteCode), _>(e),
            },
    {
        match self.add_const(c) {
            Ok(ic) => Ok(ByteCode::LoadConst(dst, ic as u16)),
            Err(e) => Err(e),
        }
    }

    /// The instruction that loads the variable `name` into `dst`.
    fn load_var(&mut self, dst: u8, name: String) -> (r: Result<ByteCode, ParseError>)
        requires
            old(self).wf(),
        ensures
            match r {
                Ok(code) => old(self)@.load_var(dst, name@) == Ok::<_, ParseError>(
                    (final(self)@, code),
                ) && final(self).wf(),
                Err(e) => old(self)@.load_var(dst, name@) == Err::<(ProtoView, ByteCode), _>(e),
            },
    {
        if let Some(i) = self.get_local(name.as_str()) {
            Ok(ByteCode::Move(dst, i as u8))
        } else {
            match self.add_small(Value::String(name)) {
                Ok(ic) => Ok(ByteCode::GetGlobal(dst, ic)),
                Err(e) => Err(e),
            }
        }
    }

    /// The slot of the local variable `name`, searched from the most recent
    /// declaration back.
    fn get_local(&self, name: &str) -> (r: Option<usize>)
        requires
            self.wf(),
        ensures
            match r {
                Some(i) => find_local(self@.locals, name@) == Some(i as int) && i < MAX_SLOTS,
                None => find_local(self@.locals, name@) is None,
            },
    {
        let ghost all = texts(self.locals@);
        let mut i = self.locals.len();
        assert(all.subrange(0, i as int) =~= all);
        while i > 0
            invariant
                i <= self.locals.len() <= MAX_SLOTS,
                all == texts(self.locals@),
                find_local(all, name@) == find_local(all.subrange(0, i as int), name@),
            decreases i,
        {
            i = i - 1;
            assert(all.subrange(0, i + 1).drop_last() =~= all.subrange(0, i as int));
            assert(all.subrange(0, i + 1).last() == self.locals@[i as int]@);
            if self.locals[i].as_str().eq(name) {
                return Some(i);
            }
        }
        None
    }

    /// Compiles the expression at the cursor into the slot `dst`.
    fn load_exp(&mut self, dst: u8) -> (r: Result<(), ParseError>)
        requires
            old(self).wf(),
        ensures
            match r {
                Ok(()) => old(self)@.load_exp(dst) == Ok::<_, ParseError>(final(self)@) && final(self).wf(),
                Err(e) => old(self)@.load_exp(dst) == Err::<ProtoView, _>(e),
            },
    {
        let token = match self.next_token() {
            Ok(t) => t,
            Err(e) => {
                return Err(e);
            },
        };
        let code = match token {
            Token::Name(var) => self.load_var(dst, var),
            Token::Nil => Ok(ByteCode::LoadNil(dst)),
            Token::True => Ok(ByteCode::LoadBool(dst, true)),
            Token::False => Ok(ByteCode::LoadBool(dst, false)),
            Token::Integer(i) => if -32768 <= i && i <= 32767 {
                // small enough to sit in the instruction
                Ok(ByteCode::LoadInt(dst, i as i16))
            } else {
                self.load_const(dst, Value::Integer(i))
            },
            Token::Float(f) => self.load_const(dst, Value::Float(f)),
            Token::String(s) => self.load_const(dst, Value::String(s)),
            _ => Err(ParseError::InvalidArgument),
        };
        match code {
            Ok(code) => {
                self.byte_codes.push(code);
                Ok(())
            },
            Err(e) => Err(e),
        }
    }
}

} // verus!
