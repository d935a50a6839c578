//! The parts of the library on their own: words, texts, names, faults, programs and signatures.

use alloy_primitives::{U256, hex};
use rulidity::abi::{
    Param, abi_param_json, abi_type_of, constructor_json, event_json, field_kind_of,
    function_json, inputs_json, is_mut_receiver, outputs_json, params_of, signature_string,
};
use rulidity::assembler::{Asm, Op};
use rulidity::ast::{Expr, FnArg, Member, Pat, Type};
use rulidity::contract::{Builder, Function, selector_of_digest};
use rulidity::errors::{CompileError, ErrorKind};
use rulidity::lower::{
    has_result, ident_of_pat, is_path, is_self, is_short_string_ty, pack_short_string,
    returns_string,
};
use rulidity::model::FieldKind;
use rulidity::names::NameMap;
use rulidity::text::{contains_text, decimal, is_before, is_text, join};
use rulidity::word::Word;

fn path(name: &str) -> Type {
    Type::Path(name.to_string(), Vec::new())
}

fn hex_of(program: &Asm) -> String {
    hex::encode(program.finish())
}

#[test]
fn words_keep_their_value() {
    let number = U256::from(0x0102_0304_0506_0708u64);
    let word = Word::from_u64(0x0102_0304_0506_0708);
    assert_eq!(word.to_be_bytes(), number.to_be_bytes::<32>());

    let bytes: Vec<u8> = (1..=32).collect();
    let word = Word::from_be_slice(&bytes);
    assert_eq!(word.to_be_bytes().to_vec(), bytes);
    let word = Word::from_be_slice(&bytes);
    assert_eq!(word.into_limbs(), U256::from_be_slice(&bytes).into_limbs());

    let word = Word::from_be_slice(&[0x12, 0x34]);
    assert_eq!(word.into_limbs(), [0x1234, 0, 0, 0]);
    let word = Word::from_limbs([1, 0, 0, 2]);
    assert_eq!(word.to_be_bytes()[31], 1);
    let word = Word::from_limbs([1, 0, 0, 2]);
    assert_eq!(word.to_be_bytes()[7], 2);
}

#[test]
fn push_word_uses_as_few_bytes_as_possible() {
    let mut program = Asm::new();
    program.push_word(Word::from_u64(0));
    program.push_word(Word::from_u64(1));
    program.push_word(Word::from_u64(0xff));
    program.push_word(Word::from_u64(0x100));
    program.push_word(Word::from_limbs([0, 0, 0, 0xff00_0000_0000_0000]));
    let expected = format!("5f600160ff6101007fff{}", "00".repeat(31));
    assert_eq!(hex_of(&program), expected);
}

#[test]
fn push_topic_pushes_the_whole_digest() {
    let mut program = Asm::new();
    program.push_topic("Transfer(address,address,uint256)");
    assert_eq!(
        hex_of(&program),
        "7fddf252ad1be2c89b69c2b068fc378daa952ba7f163c4a11628f55a4df523b3ef"
    );
}

#[test]
fn backward_jumps_and_labels_without_a_place() {
    let mut program = Asm::new();
    let start = program.fresh_label();
    let nowhere = program.fresh_label();
    assert_eq!((start, nowhere), (0, 1));
    program
        .push_u8(0x07)
        .add_op(Op::JumpDest(start))
        .add_op(Op::Jump(start))
        .add_op(Op::JumpI(nowhere));
    assert_eq!(hex_of(&program), "60075b6100025661000057");
}

#[test]
fn the_last_place_of_a_label_counts() {
    let mut program = Asm::new();
    program
        .add_op(Op::JumpDest(0))
        .add_op(Op::Jump(0))
        .add_op(Op::JumpDest(0));
    assert_eq!(hex_of(&program), "5b610005565b");
    assert_eq!(program.build_label_table().get(&0), Some(&5));
}

#[test]
fn appended_programs_get_labels_of_their_own() {
    let mut first = Asm::new();
    let label = first.fresh_label();
    first.add_op(Op::Jump(label)).add_op(Op::JumpDest(label));
    let mut second = Asm::new();
    let label = second.fresh_label();
    second.add_op(Op::Jump(label)).add_op(Op::JumpDest(label));
    first.append(second);
    assert_eq!(first.label_count(), 2);
    assert_eq!(hex_of(&first), "610004565b610009565b");
}

#[test]
fn operands_outside_their_range_do_not_assemble() {
    let bad = vec![
        Op::Push(vec![1; 33]),
        Op::Dup(0),
        Op::Dup(17),
        Op::Swap(0),
        Op::Swap(17),
        Op::Log(5),
    ];
    for op in bad {
        assert_eq!(op.checked_width(), None);
        let mut program = Asm::new();
        program.add_op(op);
        assert!(!program.is_encodable());
        assert_eq!(program.try_finish(), None);
    }

    let good = vec![
        (Op::Push(Vec::new()), 1),
        (Op::Push(vec![1; 32]), 33),
        (Op::Dup(16), 1),
        (Op::Swap(16), 1),
        (Op::Log(4), 1),
        (Op::Jump(3), 4),
        (Op::JumpI(3), 4),
        (Op::JumpDest(3), 1),
        (Op::SelfDestruct, 1),
    ];
    for (op, width) in good {
        assert_eq!(op.checked_width(), Some(width));
        let mut program = Asm::new();
        program.add_op(op);
        assert_eq!(program.try_finish().map(|code| code.len()), Some(width));
    }
}

#[test]
fn code_of_more_than_two_byte_addresses_does_not_assemble() {
    let mut program = Asm::new();
    for _ in 0..0xFFFF {
        program.add_op(Op::Pop);
    }
    assert!(program.is_encodable());
    program.add_op(Op::Pop);
    assert!(!program.is_encodable());
    assert_eq!(program.try_finish(), None);
}

#[test]
fn opcode_bytes() {
    assert_eq!(Op::Stop.simple_byte(), Some(0x00));
    assert_eq!(Op::MCopy.simple_byte(), Some(0x5e));
    assert_eq!(Op::StaticCall.simple_byte(), Some(0xfa));
    assert_eq!(Op::Dup(1).simple_byte(), None);
    assert_eq!(Op::JumpDest(0).simple_byte(), None);
}

#[test]
fn sequences_of_instructions() {
    let mut program = Asm::new();
    program.array_elem_slot(Word::from_u64(2));
    assert_eq!(hex_of(&program), "6002600052602060002001");

    let mut program = Asm::new();
    program.return_short_string();
    assert_eq!(
        hex_of(&program),
        "8060ff1660011c60205260ff1916604052602060005260606000f3"
    );

    let mut program = Asm::new();
    program.decode_short_string_param(4, 0x80);
    assert_eq!(
        hex_of(&program),
        "6004356004018035806020116100155760006000fd5b906020013560ff19169060011b17608052"
    );

    let mut program = Asm::new();
    program.decode_short_string_constructor_arg(0x40, 0x20, 0x80);
    assert_eq!(
        hex_of(&program),
        "602060403803600039602060203803602039600051806020116100225760006000fd5b60011b602051\
         60ff191617608052"
    );
}

#[test]
fn selectors_are_the_first_bytes_of_the_digest() {
    let mut digest = [0u8; 32];
    for (i, byte) in digest.iter_mut().enumerate() {
        *byte = i as u8 + 1;
    }
    assert_eq!(selector_of_digest(&digest), [1, 2, 3, 4]);
}

#[test]
fn creation_code_has_three_parts() {
    let code = Builder.wrap_with_constructor(vec![0x5b, 0x50], vec![0x00; 0x102]);
    let expected = format!("5b506101026100116000396101026000f3{}", "00".repeat(0x102));
    assert_eq!(hex::encode(code), expected);
}

#[test]
fn constructors_come_before_the_code_that_deploys() {
    let mut constructor = Asm::new();
    constructor.push_u8(7).store_slot(Word::from_u64(0));
    let mut body = Asm::new();
    body.add_op(Op::Stop);
    let function = Function::new([1, 2, 3, 4], body);
    assert_eq!(function.label_count(), 0);
    let code = Builder.assemble_contract_with_constructor(vec![function], constructor);
    assert_eq!(
        hex::encode(code),
        "60075f556100196100136000396100196000f360003560e01c806301020304146100165760006000fd5b5000"
    );
}

#[test]
fn a_contract_without_functions_reverts() {
    let code = Builder.assemble_contract(Vec::new());
    assert_eq!(
        hex::encode(code),
        "61000b61000f60003961000b6000f360003560e01c60006000fd"
    );
}

#[test]
fn texts_are_joined_and_compared() {
    let parts = vec!["a".to_string(), String::new(), "bc".to_string()];
    assert_eq!(join(&parts, ","), "a,,bc");
    assert_eq!(join(&Vec::new(), ","), "");
    assert!(is_text(&parts[2], "bc"));
    assert!(!is_text(&parts[2], "b"));
    assert!(contains_text(&parts, &"bc".to_string()));
    assert!(!contains_text(&parts, &"b".to_string()));
    assert_eq!(decimal(0), "0");
    assert_eq!(decimal(1234567890), "1234567890");
}

#[test]
fn texts_are_ordered_by_their_bytes() {
    let names = ["", "A", "Alpha", "B", "a", "\u{e9}", "\u{1F600}"];
    for (i, a) in names.iter().enumerate() {
        for (j, b) in names.iter().enumerate() {
            assert_eq!(is_before(&a.to_string(), &b.to_string()), i < j);
            assert_eq!(a < b, i < j);
        }
    }
}

#[test]
fn the_last_entry_of_a_name_counts() {
    let mut table: NameMap<u64> = NameMap::new();
    assert!(!table.contains(&"x".to_string()));
    table.insert("x".to_string(), 1);
    table.insert("y".to_string(), 2);
    table.insert("x".to_string(), 3);
    assert_eq!(table.get(&"x".to_string()), Some(&3));
    assert_eq!(table.get(&"y".to_string()), Some(&2));
    assert_eq!(table.get(&"z".to_string()), None);
    assert!(table.contains(&"y".to_string()));
    assert_eq!(table.len(), 3);
    assert_eq!(*table.value_at(0), 1);
}

#[test]
fn messages_name_their_subject() {
    let plain = CompileError::plain(ErrorKind::SecondConstructor);
    assert_eq!(plain.message(), "Only one constructor is allowed");
    let named = CompileError {
        kind: ErrorKind::MissingEventField,
        subject: "to".to_string(),
    };
    assert_eq!(named.message(), "rulidity: missing event field `to`");
    let named = CompileError {
        kind: ErrorKind::ShortStringTooLong,
        subject: "32".to_string(),
    };
    assert_eq!(named.message(), "Short-string literals are max 31 bytes, got 32");
}

#[test]
fn types_of_the_contract_abi() {
    assert_eq!(abi_type_of(&path("U256")).unwrap(), "uint256");
    assert_eq!(abi_type_of(&path("Address")).unwrap(), "address");
    assert_eq!(abi_type_of(&path("bool")).unwrap(), "bool");
    assert_eq!(abi_type_of(&path("ShortString")).unwrap(), "string");
    let error = abi_type_of(&path("u8")).unwrap_err();
    assert_eq!(error.message(), "Unsupported parameter type u8");
    let error = abi_type_of(&Type::Other).unwrap_err();
    assert_eq!(error.kind, ErrorKind::UnsupportedType);
}

#[test]
fn signatures_list_the_types() {
    let to = "to".to_string();
    let amount = "amount".to_string();
    let (address, number) = (path("Address"), path("U256"));
    let params = vec![
        Param { name: &to, ty: &address },
        Param { name: &amount, ty: &number },
    ];
    assert_eq!(
        signature_string(&"transfer".to_string(), &params).unwrap(),
        "transfer(address,uint256)"
    );
    assert_eq!(signature_string(&"get".to_string(), &Vec::new()).unwrap(), "get()");
    assert_eq!(
        inputs_json(&params).unwrap(),
        "{\"name\":\"to\",\"type\":\"address\",\"internalType\":\"address\"},\
         {\"name\":\"amount\",\"type\":\"uint256\",\"internalType\":\"uint256\"}"
    );
}

#[test]
fn parameters_leave_out_the_receiver() {
    let inputs = vec![
        FnArg::Receiver(true),
        FnArg::Typed(Pat::Ident("x".to_string()), path("U256")),
    ];
    let params = params_of(&inputs).unwrap();
    assert_eq!(params.len(), 1);
    assert_eq!(params[0].name, "x");
    assert!(is_mut_receiver(&inputs));
    assert!(!is_mut_receiver(&vec![FnArg::Receiver(false)]));
    assert!(!is_mut_receiver(&Vec::new()));
    let odd = vec![FnArg::Typed(Pat::Other, path("U256"))];
    assert_eq!(params_of(&odd).err().unwrap().kind, ErrorKind::ArgumentPattern);
}

#[test]
fn parts_of_the_interface_in_json() {
    assert_eq!(
        abi_param_json("from", &path("Address"), Some(true)).unwrap(),
        "{\"name\":\"from\",\"type\":\"address\",\"indexed\":true,\"internalType\":\"address\"}"
    );
    assert_eq!(outputs_json(&None).unwrap(), "");
    assert_eq!(
        outputs_json(&Some(path("bool"))).unwrap(),
        "{\"name\":\"\",\"type\":\"bool\",\"internalType\":\"bool\"}"
    );
    assert_eq!(
        function_json(&"f".to_string(), &"I".to_string(), &"O".to_string(), false),
        "{\"type\":\"function\",\"name\":\"f\",\"inputs\":[I],\"outputs\":[O],\
         \"stateMutability\":\"view\"}"
    );
    assert_eq!(
        event_json(&"E".to_string(), &"I".to_string()),
        "{\"type\":\"event\",\"name\":\"E\",\"inputs\":[I],\"anonymous\":false}"
    );
    assert_eq!(
        constructor_json(&"I".to_string()),
        "{\"type\":\"constructor\",\"inputs\":[I],\"stateMutability\":\"nonpayable\"}"
    );
}

#[test]
fn kinds_of_storage_fields() {
    assert_eq!(field_kind_of(&path("Mapping")).unwrap(), FieldKind::Mapping);
    assert_eq!(field_kind_of(&path("Array")).unwrap(), FieldKind::Array);
    assert_eq!(field_kind_of(&path("U256")).unwrap(), FieldKind::Scalar);
    let error = field_kind_of(&Type::Tuple(Vec::new())).unwrap_err();
    assert_eq!(error.kind, ErrorKind::FieldKindType);
}

#[test]
fn shapes_of_expressions_and_types() {
    let this = Expr::Ident("self".to_string());
    assert!(is_self(&this));
    assert!(is_path(&this, "self"));
    assert!(!is_self(&Expr::Field(Box::new(Expr::Other), Member::Unnamed)));
    assert!(is_short_string_ty(&path("ShortString")));
    assert!(!is_short_string_ty(&path("U256")));
    assert!(returns_string(&Some(path("ShortString"))));
    assert!(!returns_string(&None));
    assert!(has_result(&Some(path("U256"))));
    assert!(!has_result(&None));
    let typed = Pat::Typed(Box::new(Pat::Ident("x".to_string())));
    assert_eq!(ident_of_pat(&typed).unwrap(), "x");
    assert_eq!(ident_of_pat(&Pat::Other).unwrap_err().kind, ErrorKind::LetPattern);
}

#[test]
fn short_strings_are_packed_with_their_length() {
    let mut expected = [0u8; 32];
    assert_eq!(pack_short_string(""), expected);
    expected[..3].copy_from_slice(b"abc");
    expected[31] = 6;
    assert_eq!(pack_short_string("abc"), expected);
    let long = "0123456789012345678901234567890";
    let packed = pack_short_string(long);
    assert_eq!(&packed[..31], long.as_bytes());
    assert_eq!(packed[31], 62);
}
