use luast::bytecode::ByteCode;
use luast::lex::Lex;
use luast::number::Decimal;
use luast::parse::ParseProto;
use luast::value::{NativeFn, Value};
use luast::vm::{ExeState, ExecError};

fn run(source: &str) -> (ExeState, Result<(), ExecError>) {
    let proto = ParseProto::load(source.as_bytes().to_vec()).unwrap();
    let mut vm = ExeState::new();
    let r = vm.execute(&proto);
    (vm, r)
}

fn run_codes(constants: Vec<Value>, byte_codes: Vec<ByteCode>) -> (ExeState, Result<(), ExecError>) {
    let proto = ParseProto { constants, byte_codes, locals: Vec::new(), lex: Lex::new(Vec::new()) };
    let mut vm = ExeState::new();
    let r = vm.execute(&proto);
    (vm, r)
}

fn lines(vm: &ExeState) -> Vec<&str> {
    vm.output().iter().map(|s| s.as_str()).collect()
}

#[test]
fn hello_world() {
    let (vm, r) = run("print \"hello, world!\"\n");
    assert_eq!(r, Ok(()));
    assert_eq!(lines(&vm), vec!["hello, world!"]);
    assert_eq!(
        vm.stack(),
        &vec![Value::Function(NativeFn::Print), Value::String("hello, world!".to_string())]
    );
}

#[test]
fn a_new_machine_has_run_nothing() {
    let vm = ExeState::new();
    assert!(vm.stack().is_empty());
    assert!(vm.output().is_empty());
}

#[test]
fn an_undefined_global_is_nil() {
    let (vm, r) = run("print(undefined_name)");
    assert_eq!(r, Ok(()));
    assert_eq!(lines(&vm), vec!["Nil"]);
    assert_eq!(vm.stack(), &vec![Value::Function(NativeFn::Print), Value::Nil]);
}

#[test]
fn test_values_test_lex() {
    let (vm, r) = run("print(nil)\nprint(false)\nprint(123)\nprint(123456)\nprint(123456.0)\n");
    assert_eq!(r, Ok(()));
    assert_eq!(lines(&vm), vec!["Nil", "false", "123", "123456", "123456.0"]);
}

#[test]
fn test_local_variable_test_lex() {
    let source = "local a = \"hello, local!\"  -- define a local by string\n\
        local b = a  -- define a local by another local\n\
        print(b)  -- print local variable\n\
        print(print)  -- print global variable\n\
        local print = print  --define a local by global variable with same name\n\
        print \"I'm local-print!\"  -- call local function\n";
    let (vm, r) = run(source);
    assert_eq!(r, Ok(()));
    assert_eq!(lines(&vm), vec!["hello, local!", "Function", "I'm local-print!"]);
}

#[test]
fn test_ch2_3_assignment() {
    let source = "local a = 456\na = 123\nprint(a)\na = a\nprint(a)\na = g\nprint(a)\ng = 123\nprint(g)\n";
    let proto = ParseProto::load(source.as_bytes().to_vec()).unwrap();
    assert_eq!(
        proto.byte_codes,
        vec![
            ByteCode::LoadInt(0, 456),
            ByteCode::LoadInt(0, 123),
            ByteCode::GetGlobal(1, 0),
            ByteCode::Move(2, 0),
            ByteCode::Call(1, 1),
            ByteCode::Move(0, 0),
            ByteCode::GetGlobal(1, 0),
            ByteCode::Move(2, 0),
            ByteCode::Call(1, 1),
            ByteCode::GetGlobal(0, 1),
            ByteCode::GetGlobal(1, 0),
            ByteCode::Move(2, 0),
            ByteCode::Call(1, 1),
            ByteCode::SetGlobalConst(1, 2),
            ByteCode::GetGlobal(1, 0),
            ByteCode::GetGlobal(2, 1),
            ByteCode::Call(1, 1),
        ]
    );
    let mut vm = ExeState::new();
    assert_eq!(vm.execute(&proto), Err(ExecError::Unimplemented));
    assert_eq!(lines(&vm), vec!["123", "123", "Nil"]);
}

#[test]
fn print_shows_each_kind_of_value() {
    let (vm, r) = run("print(true)\nprint(3.14)\nprint(0.5)\nprint(-- c\n 70000)\nprint 'it'\nprint(print)\nlocal n = nil\nprint(n)");
    assert_eq!(r, Ok(()));
    assert_eq!(lines(&vm), vec!["true", "3.14", "0.5", "70000", "it", "Function", "Nil"]);
}

#[test]
fn print_reads_the_slot_after_the_function() {
    let (vm, r) = run("local a = 1\nlocal b = 2\nprint(b)\nprint(a)\nprint \"c\"\n");
    assert_eq!(r, Ok(()));
    assert_eq!(lines(&vm), vec!["2", "1", "c"]);
    assert_eq!(
        vm.stack(),
        &vec![
            Value::Integer(1),
            Value::Integer(2),
            Value::Function(NativeFn::Print),
            Value::String("c".to_string()),
        ]
    );
}

#[test]
fn the_second_declaration_reads_the_first() {
    let (vm, r) = run("local x = 1\nlocal x = x\nprint(x)\n");
    assert_eq!(r, Ok(()));
    assert_eq!(vm.stack()[0], Value::Integer(1));
    assert_eq!(vm.stack()[1], Value::Integer(1));
    assert_eq!(lines(&vm), vec!["1"]);
}

#[test]
fn loads_write_what_they_hold() {
    let (vm, r) = run_codes(
        vec![Value::Float(Decimal::new(1, 5, 1)), Value::String("s".to_string())],
        vec![
            ByteCode::LoadNil(0),
            ByteCode::LoadBool(1, true),
            ByteCode::LoadInt(2, -7),
            ByteCode::LoadConst(3, 0),
            ByteCode::LoadConst(4, 1),
            ByteCode::Move(5, 2),
            ByteCode::Move(0, 4),
            ByteCode::LoadBool(1, false),
        ],
    );
    assert_eq!(r, Ok(()));
    assert_eq!(
        vm.stack(),
        &vec![
            Value::String("s".to_string()),
            Value::Boolean(false),
            Value::Integer(-7),
            Value::Float(Decimal::new(1, 5, 1)),
            Value::String("s".to_string()),
            Value::Integer(-7),
        ]
    );
    assert!(vm.output().is_empty());
}

#[test]
fn a_write_above_the_top_is_a_fault() {
    let (vm, r) = run_codes(vec![], vec![ByteCode::LoadNil(0), ByteCode::LoadNil(2), ByteCode::LoadNil(1)]);
    assert_eq!(r, Err(ExecError::BadStackWrite));
    assert_eq!(vm.stack(), &vec![Value::Nil]);
    let (_, r) = run_codes(vec![], vec![ByteCode::LoadInt(1, 5)]);
    assert_eq!(r, Err(ExecError::BadStackWrite));
    let (_, r) = run_codes(vec![], vec![ByteCode::LoadNil(0), ByteCode::Move(2, 0)]);
    assert_eq!(r, Err(ExecError::BadStackWrite));
}

#[test]
fn a_missing_constant_is_a_fault() {
    let (_, r) = run_codes(vec![], vec![ByteCode::LoadConst(0, 0)]);
    assert_eq!(r, Err(ExecError::BadConstant));
    let (_, r) = run_codes(vec![Value::Nil], vec![ByteCode::LoadConst(0, 1)]);
    assert_eq!(r, Err(ExecError::BadConstant));
    let (_, r) = run_codes(vec![Value::Nil], vec![ByteCode::GetGlobal(0, 1)]);
    assert_eq!(r, Err(ExecError::BadConstant));
}

#[test]
fn a_global_key_must_be_a_string() {
    let (_, r) = run_codes(vec![Value::Integer(1)], vec![ByteCode::GetGlobal(0, 0)]);
    assert_eq!(r, Err(ExecError::BadGlobalKey));
    let (_, r) = run_codes(vec![Value::Nil], vec![ByteCode::GetGlobal(0, 0)]);
    assert_eq!(r, Err(ExecError::BadGlobalKey));
}

#[test]
fn only_functions_can_be_called() {
    let (vm, r) = run("local f = 1\nf(2)\n");
    assert_eq!(r, Err(ExecError::NotCallable));
    assert!(vm.output().is_empty());
    let (_, r) = run("undefined(1)");
    assert_eq!(r, Err(ExecError::NotCallable));
    let (_, r) = run("local s = 'print'\ns 'x'\n");
    assert_eq!(r, Err(ExecError::NotCallable));
}

#[test]
fn reads_above_the_top_are_faults() {
    let (_, r) = run_codes(vec![], vec![ByteCode::Move(0, 0)]);
    assert_eq!(r, Err(ExecError::BadStackRead));
    let (_, r) = run_codes(vec![], vec![ByteCode::Call(0, 1)]);
    assert_eq!(r, Err(ExecError::BadStackRead));
    let (vm, r) = run_codes(
        vec![Value::String("print".to_string())],
        vec![ByteCode::GetGlobal(0, 0), ByteCode::Call(0, 1)],
    );
    assert_eq!(r, Err(ExecError::BadStackRead));
    assert!(vm.output().is_empty());
    assert_eq!(vm.stack(), &vec![Value::Function(NativeFn::Print)]);
}

#[test]
fn stores_into_globals_are_not_run() {
    for code in [ByteCode::SetGlobal(0, 0), ByteCode::SetGlobalConst(0, 1), ByteCode::SetGlobalGlobal(0, 0)] {
        let (vm, r) = run_codes(
            vec![Value::String("g".to_string()), Value::Integer(1)],
            vec![ByteCode::LoadNil(0), code, ByteCode::LoadNil(1)],
        );
        assert_eq!(r, Err(ExecError::Unimplemented));
        assert_eq!(vm.stack(), &vec![Value::Nil]);
    }
}

#[test]
fn nothing_runs_after_a_fault() {
    let (vm, r) = run("print(1)\nlocal f = 2\nf(3)\nprint(4)\n");
    assert_eq!(r, Err(ExecError::NotCallable));
    assert_eq!(lines(&vm), vec!["1"]);
}

#[test]
fn a_machine_can_run_again() {
    let proto = ParseProto::load(b"print(1)".to_vec()).unwrap();
    let mut vm = ExeState::new();
    assert_eq!(vm.execute(&proto), Ok(()));
    assert_eq!(vm.execute(&proto), Ok(()));
    assert_eq!(lines(&vm), vec!["1", "1"]);
    assert_eq!(vm.stack().len(), 2);
}

#[test]
fn compiled_units_fault_only_on_calls_and_global_stores() {
    let sources = [
        "",
        "print(1)",
        "local a = 1\nlocal b = a\nprint(b)\nb = 2\nprint(a)\nprint(b)",
        "local a = 1\na(2)",
        "nothing(1)\nprint(2)",
        "local a = print\na(a)\nlocal a = 5\nprint(a)\nlocal b = a\nlocal c = 100000\nprint(c)",
        "g = 1\nprint(g)",
        "local a = 1\ng = a",
        "g = h",
        "print \"a\"\nprint 'b'\nlocal p = print\np \"c\"\np(p)",
        "local x = y\nprint(x)\nx = 1.5\nprint(x)\nx = nil\nx = true\nx = 'x'\nprint(x)",
    ];
    for source in sources {
        let (vm, r) = run(source);
        match r {
            Ok(()) => {}
            Err(ExecError::NotCallable) | Err(ExecError::Unimplemented) => {}
            Err(e) => panic!("{source:?} ran into {e:?}"),
        }
        let proto = ParseProto::load(source.as_bytes().to_vec()).unwrap();
        if r.is_ok() {
            assert!(vm.stack().len() >= proto.locals.len());
        }
    }
    let (vm, r) = run("local x = y\nprint(x)\nx = 1.5\nprint(x)\nx = nil\nx = true\nx = 'x'\nprint(x)");
    assert_eq!(r, Ok(()));
    assert_eq!(lines(&vm), vec!["Nil", "1.5", "x"]);
}
