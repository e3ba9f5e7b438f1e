use passerine::data::Data;
use passerine::lambda::{Captured, FFIFunction, Lambda};
use passerine::listing::Instruction;
use passerine::number::split_number;
use passerine::opcode::Opcode;
use passerine::source::Source;
use passerine::span::Span;
use std::rc::Rc;

fn spans() -> (Span, Span) {
    let source = Rc::new(Source::source("x = 1\ny = x\n"));
    (Span::new(&source, 0, 5), Span::new(&source, 6, 5))
}

#[test]
fn empty_chunk_holds_nothing() {
    let lambda = Lambda::empty();
    assert_eq!(lambda.decls, 0);
    assert!(lambda.code.is_empty());
    assert!(lambda.spans.is_empty());
    assert!(lambda.constants.is_empty());
    assert!(lambda.captures.is_empty());
    assert!(lambda.ffi.is_empty());
}

#[test]
fn constants_are_not_added_twice() {
    let mut lambda = Lambda::empty();
    let first = lambda.index_data(Data::Integer(7));
    let second = lambda.index_data(Data::String("x".to_string()));
    let third = lambda.index_data(Data::Integer(7));
    assert_eq!(vec![first, second, third], vec![0, 1, 0]);
    assert_eq!(lambda.constants.len(), 2);
    assert_eq!(lambda.constants[0], Data::Integer(7));
    assert_eq!(lambda.constants[1], Data::String("x".to_string()));
}

#[test]
fn constants_keep_their_index() {
    let mut lambda = Lambda::empty();
    let values = vec![
        Data::Unit,
        Data::Boolean(true),
        Data::Boolean(false),
        Data::Integer(-1),
        Data::String("a".to_string()),
        Data::Kind("a".to_string()),
        Data::Label("Some".to_string(), Box::new(Data::Integer(1))),
        Data::Label("Some".to_string(), Box::new(Data::Integer(2))),
        Data::Tuple(vec![Data::Integer(1), Data::Integer(2)]),
        Data::Tuple(vec![Data::Integer(1)]),
        Data::Tuple(vec![]),
        Data::Lambda(Box::new(Lambda::empty())),
    ];
    let mut indices = vec![];
    for value in values.iter() {
        indices.push(lambda.index_data(value.clone()));
    }
    assert_eq!(indices, (0..values.len()).collect::<Vec<usize>>());
    for (index, value) in values.iter().enumerate() {
        assert_eq!(lambda.index_data(value.clone()), index);
    }
    assert_eq!(lambda.constants.len(), values.len());
    for i in 0..lambda.constants.len() {
        for j in 0..i {
            assert_ne!(lambda.constants[i], lambda.constants[j]);
        }
    }
}

#[test]
fn chunks_are_constants_too() {
    let mut inner = Lambda::empty();
    inner.emit(Opcode::Print);
    let mut other = Lambda::empty();
    other.emit(Opcode::Copy);
    let mut lambda = Lambda::empty();
    assert_eq!(lambda.index_data(Data::Lambda(Box::new(inner.clone()))), 0);
    assert_eq!(lambda.index_data(Data::Lambda(Box::new(other))), 1);
    assert_eq!(lambda.index_data(Data::Lambda(Box::new(inner))), 0);
}

#[test]
fn same_tells_values_apart() {
    let one = Data::Tuple(vec![Data::String("a".to_string()), Data::Unit]);
    let two = Data::Tuple(vec![Data::String("a".to_string()), Data::Unit]);
    let three = Data::Tuple(vec![Data::String("b".to_string()), Data::Unit]);
    assert!(one.same(&two));
    assert!(!one.same(&three));
    assert!(!Data::Kind("a".to_string()).same(&Data::String("a".to_string())));
    assert!(!Data::Integer(0).same(&Data::Boolean(false)));
    assert_eq!(one.duplicate(), one);
}

#[test]
fn span_lookup_finds_the_nearest_span_before() {
    let (a, b) = spans();
    let mut lambda = Lambda::empty();
    lambda.emit_span(&a);
    lambda.emit(Opcode::Load);
    lambda.emit_bytes(&mut vec![0x05]);
    lambda.emit_span(&b);
    lambda.emit(Opcode::Return);
    lambda.emit_bytes(&mut vec![0x00]);
    assert_eq!(lambda.index_span(0), a);
    assert_eq!(lambda.index_span(1), a);
    assert_eq!(lambda.index_span(2), b);
    assert_eq!(lambda.index_span(99), b);
    assert_eq!(lambda.spans, vec![(0, a), (2, b)]);
}

#[test]
fn span_lookup_passes_over_a_record_past_the_end() {
    let (a, b) = spans();
    let mut lambda = Lambda::empty();
    lambda.emit(Opcode::Del);
    lambda.emit_span(&a);
    lambda.demit();
    lambda.emit_span(&b);
    assert!(lambda.code.is_empty());
    assert_eq!(lambda.spans, vec![(1, a.clone()), (0, b.clone())]);
    assert_eq!(lambda.index_span(0), b);
    assert_eq!(lambda.index_span(1), b);
    lambda.emit(Opcode::Del);
    lambda.emit(Opcode::Del);
    lambda.emit_span(&a);
    assert_eq!(lambda.index_span(0), b);
    assert_eq!(lambda.index_span(1), b);
    assert_eq!(lambda.index_span(2), a);
}

#[test]
fn listing_names_every_instruction() {
    let mut lambda = Lambda::empty();
    for op in [
        Opcode::NotInit,
        Opcode::Del,
        Opcode::Call,
        Opcode::Print,
        Opcode::Label,
        Opcode::UnLabel,
        Opcode::UnData,
        Opcode::Copy,
    ] {
        lambda.emit(op);
    }
    for op in [
        Opcode::Capture,
        Opcode::Save,
        Opcode::SaveCap,
        Opcode::Load,
        Opcode::LoadCap,
        Opcode::Return,
        Opcode::Closure,
        Opcode::Tuple,
        Opcode::UnTuple,
        Opcode::FFICall,
    ] {
        lambda.emit(op);
        lambda.emit_bytes(&mut split_number(1));
    }
    let expected = "-- Dumping Constants:\n\
        -- Dumping Captures:\n\
        -- Dumping Variables: 0\n\
        -- Dumping Bytecode:\n\
        Inst.   \tArgs\tValue?\n\
        NotInit \t\tDeclare variable\n\
        Delete  \t\t--\n\
        Call    \t\tRun top function using next stack value\n\
        Print    \t\t--\n\
        Label    \t\t--\n\
        UnLabel  \t\t--\n\
        UnData   \t\t--\n\
        Copy     \t\t--\n\
        Capture \t1\tIndexed local moved to heap\n\
        Save    \t1\tIndexed local\n\
        Save Cap\t1\tIndexed upvalue on heap\n\
        Load    \t1\tIndexed local\n\
        Load Cap\t1\tIndexed upvalue on heap\n\
        Return  \t1\tLocals on stack deleted\n\
        Closure \t1\tIndex of lambda to be wrapped\n\
        Tuple   \t1\tValues tupled together\n\
        UnTuple \t1\tItem accessed\n\
        FFICall \t1\tIndexed FFI function called\n";
    assert_eq!(lambda.listing(), expected);
}

#[test]
fn span_lookup_without_a_span_is_empty() {
    let (a, _) = spans();
    let mut lambda = Lambda::empty();
    assert_eq!(lambda.index_span(0), Span::empty());
    lambda.emit(Opcode::Del);
    lambda.emit_span(&a);
    assert_eq!(lambda.index_span(0), Span::empty());
    assert_eq!(lambda.index_span(1), a);
}

#[test]
fn span_lookup_takes_the_later_of_two_at_one_offset() {
    let (a, b) = spans();
    let mut lambda = Lambda::empty();
    lambda.emit_span(&a);
    lambda.emit_span(&b);
    lambda.emit(Opcode::Call);
    assert_eq!(lambda.index_span(0), b);
}

#[test]
fn emit_appends_and_demit_takes_back() {
    let (a, _) = spans();
    let mut lambda = Lambda::empty();
    lambda.emit(Opcode::Con);
    let mut operand = split_number(300);
    lambda.emit_bytes(&mut operand);
    assert!(operand.is_empty());
    assert_eq!(lambda.code, vec![0, 0x82, 0x2c]);
    lambda.emit_span(&a);
    lambda.demit();
    assert_eq!(lambda.code, vec![0, 0x82]);
    assert_eq!(lambda.spans, vec![(3, a.clone())]);
    assert_eq!(lambda.index_span(2), Span::empty());
    assert_eq!(lambda.index_span(3), a);
    lambda.demit();
    lambda.demit();
    lambda.demit();
    assert!(lambda.code.is_empty());
}

#[test]
fn foreign_functions_are_added_blindly() {
    let mut lambda = Lambda::empty();
    assert_eq!(lambda.add_ffi(FFIFunction { handle: 9 }), 0);
    assert_eq!(lambda.add_ffi(FFIFunction { handle: 9 }), 1);
    assert_eq!(lambda.ffi, vec![FFIFunction { handle: 9 }, FFIFunction { handle: 9 }]);
}

#[test]
fn every_opcode_has_its_own_byte() {
    let all = [
        Opcode::Con,
        Opcode::NotInit,
        Opcode::Del,
        Opcode::Capture,
        Opcode::Save,
        Opcode::SaveCap,
        Opcode::Load,
        Opcode::LoadCap,
        Opcode::Call,
        Opcode::Return,
        Opcode::Closure,
        Opcode::Print,
        Opcode::Label,
        Opcode::UnLabel,
        Opcode::UnData,
        Opcode::Tuple,
        Opcode::UnTuple,
        Opcode::Copy,
        Opcode::FFICall,
    ];
    for (index, op) in all.iter().enumerate() {
        assert_eq!(op.to_byte() as usize, index);
        assert_eq!(Opcode::from_byte(op.to_byte()), Some(*op));
    }
    for byte in all.len()..256 {
        assert_eq!(Opcode::from_byte(byte as u8), None);
    }
    let with_operand = all.iter().filter(|op| op.has_operand()).count();
    assert_eq!(with_operand, 11);
    assert!(Opcode::Con.has_operand());
    assert!(!Opcode::Call.has_operand());
}

fn sample() -> Lambda {
    let mut lambda = Lambda::empty();
    lambda.decls = 2;
    lambda.captures.push(Captured::Local(3));
    lambda.captures.push(Captured::Nonlocal(0));
    let seven = lambda.index_data(Data::Integer(7));
    let text = lambda.index_data(Data::String("hi".to_string()));
    lambda.emit(Opcode::Con);
    lambda.emit_bytes(&mut split_number(seven));
    lambda.emit(Opcode::Con);
    lambda.emit_bytes(&mut split_number(text));
    lambda.emit(Opcode::Save);
    lambda.emit_bytes(&mut split_number(200));
    lambda.emit(Opcode::Print);
    lambda.emit(Opcode::Return);
    lambda.emit_bytes(&mut split_number(2));
    lambda
}

#[test]
fn bytecode_is_read_back() {
    let lambda = sample();
    assert_eq!(
        lambda.instructions(),
        Some(vec![
            Instruction { op: Opcode::Con, operand: Some(0) },
            Instruction { op: Opcode::Con, operand: Some(1) },
            Instruction { op: Opcode::Save, operand: Some(200) },
            Instruction { op: Opcode::Print, operand: None },
            Instruction { op: Opcode::Return, operand: Some(2) },
        ])
    );
    assert_eq!(Lambda::empty().instructions(), Some(vec![]));
}

#[test]
fn listing_shows_the_whole_chunk() {
    let lambda = sample();
    assert!(lambda.is_listable());
    let expected = "-- Dumping Constants:\n\
        7\n\
        \"hi\"\n\
        -- Dumping Captures:\n\
        Local(3)\n\
        Nonlocal(0)\n\
        -- Dumping Variables: 2\n\
        -- Dumping Bytecode:\n\
        Inst.   \tArgs\tValue?\n\
        Load Con\t0\t7\n\
        Load Con\t1\t\"hi\"\n\
        Save    \t200\tIndexed local\n\
        Print    \t\t--\n\
        Return  \t2\tLocals on stack deleted\n";
    assert_eq!(lambda.listing(), expected);
    assert_eq!(lambda.try_listing(), Some(expected.to_string()));
}

#[test]
fn listing_of_an_empty_chunk() {
    let expected = "-- Dumping Constants:\n\
        -- Dumping Captures:\n\
        -- Dumping Variables: 0\n\
        -- Dumping Bytecode:\n\
        Inst.   \tArgs\tValue?\n";
    assert_eq!(Lambda::empty().listing(), expected);
}

#[test]
fn bytes_that_are_no_bytecode_are_not_listed() {
    let mut unknown = Lambda::empty();
    unknown.code.push(200);
    assert_eq!(unknown.instructions(), None);
    assert!(!unknown.is_listable());
    assert_eq!(unknown.try_listing(), None);

    let mut cut_short = Lambda::empty();
    cut_short.emit(Opcode::Load);
    assert_eq!(cut_short.instructions(), None);
    cut_short.emit_bytes(&mut vec![0x81]);
    assert_eq!(cut_short.instructions(), None);
    cut_short.emit_bytes(&mut vec![0x01]);
    assert_eq!(
        cut_short.instructions(),
        Some(vec![Instruction { op: Opcode::Load, operand: Some(129) }])
    );

    let mut too_large = Lambda::empty();
    too_large.emit(Opcode::Load);
    too_large.emit_bytes(&mut vec![0xff; 10]);
    too_large.emit_bytes(&mut vec![0x7f]);
    assert_eq!(too_large.instructions(), None);

    let mut no_such_constant = Lambda::empty();
    no_such_constant.emit(Opcode::Con);
    no_such_constant.emit_bytes(&mut split_number(0));
    assert!(no_such_constant.instructions().is_some());
    assert!(!no_such_constant.is_listable());
    assert_eq!(no_such_constant.try_listing(), None);
}

#[test]
fn values_are_printed() {
    assert_eq!(Data::Unit.printed(), "()");
    assert_eq!(Data::Boolean(true).printed(), "true");
    assert_eq!(Data::Boolean(false).printed(), "false");
    assert_eq!(Data::Integer(0).printed(), "0");
    assert_eq!(Data::Integer(1234567890).printed(), "1234567890");
    assert_eq!(Data::Integer(-42).printed(), "-42");
    assert_eq!(Data::Integer(i64::MIN).printed(), "-9223372036854775808");
    assert_eq!(Data::Integer(i64::MAX).printed(), "9223372036854775807");
    assert_eq!(Data::String("a b".to_string()).printed(), "\"a b\"");
    assert_eq!(Data::Kind("None".to_string()).printed(), "None");
    assert_eq!(
        Data::Label("Some".to_string(), Box::new(Data::Integer(3))).printed(),
        "Some 3"
    );
    assert_eq!(Data::Tuple(vec![]).printed(), "()");
    assert_eq!(Data::Tuple(vec![Data::Integer(1)]).printed(), "(1)");
    assert_eq!(
        Data::Tuple(vec![Data::Integer(1), Data::Unit, Data::Boolean(true)]).printed(),
        "(1, (), true)"
    );
    assert_eq!(Data::Lambda(Box::new(Lambda::empty())).printed(), "Function");
}
