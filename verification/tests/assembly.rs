//! Assembly, instruction sequences, and contracts made from programs.

use alloy_primitives::hex;
use revm::context::TxEnv;
use revm::database::{CacheDB, EmptyDB};
use revm::primitives::{Address, Bytes, TxKind, U256};
use revm::{Context, ExecuteCommitEvm, MainBuilder, MainContext};
use rulidity::assembler::{Asm, Op};
use rulidity::contract::{Builder, Function};
use rulidity::word::Word;

fn assemble(ops: Vec<Op>) -> Vec<u8> {
    let mut program = Asm::new();
    for op in ops {
        program.add_op(op);
    }
    program.finish()
}

#[test]
fn linear_program_no_jumps() {
    let ops = vec![
        Op::Push([0x02].to_vec()),
        Op::Push([0x03].to_vec()),
        Op::Add,
    ];

    let generated = assemble(ops);
    let expected = vec![0x60, 0x02, 0x60, 0x03, 0x01];
    assert_eq!(generated, expected);
}

#[test]
fn push0_and_multi_byte_push() {
    let ops = vec![Op::Push([].to_vec()), Op::Push([0xFF, 0x01].to_vec())];

    let generated = assemble(ops);
    let expected = vec![0x5F, 0x61, 0xFF, 0x01];
    assert_eq!(generated, expected);
}

#[test]
fn dup_swap_pop() {
    let ops = vec![Op::Dup(1), Op::Swap(3), Op::Pop];

    let generated = assemble(ops);
    let expected = vec![0x80, 0x92, 0x50];
    assert_eq!(generated, expected);
}

#[test]
fn forward_jump() {
    let ops = vec![Op::Jump(0), Op::Stop, Op::JumpDest(0), Op::Stop];

    let generated = hex::encode(assemble(ops));
    let expected = "61000556005b00";
    assert_eq!(generated, expected);
}

#[test]
fn dispatcher_with_jumpi() {
    let ops = vec![
        Op::Push([0x00].to_vec()),
        Op::CallDataLoad,
        Op::Push([0xE0].to_vec()),
        Op::Shr,
        Op::Dup(1),
        Op::Push([0x12, 0x34, 0x56, 0x78].to_vec()),
        Op::Eq,
        Op::JumpI(0),
        Op::Revert,
        Op::JumpDest(0),
        Op::Stop,
    ];

    let generated = hex::encode(assemble(ops));
    let expected = "60003560e01c8063123456781461001257fd5b00";
    assert_eq!(generated, expected);
}

#[test]
fn simple_opcodes_from_macro_table() {
    // a spread of the newly-added zero-operand opcodes, across byte ranges
    let ops = vec![Op::Mul, Op::IsZero, Op::Not, Op::Call, Op::SelfDestruct];
    // MUL=02, ISZERO=15, NOT=19, CALL=f1, SELFDESTRUCT=ff
    assert_eq!(hex::encode(assemble(ops)), "021519f1ff");
}

#[test]
fn log_family() {
    let ops = vec![Op::Log(0), Op::Log(4)];
    assert_eq!(hex::encode(assemble(ops)), "a0a4");
}

#[test]
fn load_slot_works() {
    let mut program = Asm::new();

    program.load_slot(Word::from_u64(0));

    let generated = hex::encode(program.finish());
    assert_eq!(generated, "5f54");
}

#[test]
fn load_slot_works2() {
    let mut program = Asm::new();

    program.load_slot(Word::from_u64(5));

    let generated = hex::encode(program.finish());
    assert_eq!(generated, "600554");
}

#[test]
fn store_slot_works() {
    let mut program = Asm::new();

    program.store_slot(Word::from_u64(0));

    let generated = hex::encode(program.finish());
    assert_eq!(generated, "5f55");
}

#[test]
fn return_word_works() {
    let mut program = Asm::new();

    program.return_word();

    let generated = hex::encode(program.finish());
    assert_eq!(generated, "60005260206000f3");
}

#[test]
fn revert_empty_works() {
    let mut program = Asm::new();

    program.revert_empty();

    let generated = hex::encode(program.finish());
    assert_eq!(generated, "60006000fd");
}

#[test]
fn mapping_slot_works() {
    let mut program = Asm::new();

    program.mapping_slot(Word::from_u64(1));

    let generated = hex::encode(program.finish());
    assert_eq!(generated, "60005260016020526040600020");
}

#[test]
fn mapping_slot_from_stack_works() {
    let mut program = Asm::new();

    program.mapping_slot_from_stack();

    let generated = hex::encode(program.finish());
    assert_eq!(generated, "6000526020526040600020");
}

#[test]
fn array_elem_slot_from_stack_works() {
    let mut program = Asm::new();

    program.array_elem_slot_from_stack();

    let generated = hex::encode(program.finish());
    assert_eq!(generated, "90600052602060002001");
}

#[test]
fn msg_sender_works() {
    let mut program = Asm::new();

    program.msg_sender();

    let generated = hex::encode(program.finish());
    assert_eq!(generated, "33");
}

fn build_increment() -> Asm {
    let mut program = Asm::new();
    program
        .load_slot(Word::from_u64(0))
        .push_u8(1)
        .add_op(Op::Add)
        .store_slot(Word::from_u64(0))
        .add_op(Op::Stop);
    program
}

fn build_get() -> Asm {
    let mut program = Asm::new();
    program.load_slot(Word::from_u64(0)).return_word();
    program
}

#[test]
fn contract_assembles_deploys_and_works() {
    let builder = Builder;

    let funcs = vec![
        Function::new(builder.selector("increment()"), build_increment()),
        Function::new(builder.selector("get()"), build_get()),
    ];

    let bytecode = builder.assemble_contract(funcs);

    let bytecode_bytes = bytecode.into();

    let caller = Address::from([0x10u8; 20]);
    let mut evm = Context::mainnet()
        .with_db(CacheDB::new(EmptyDB::default()))
        .build_mainnet();

    let mut nonce = 0u64;

    let deploy = evm
        .transact_commit(
            TxEnv::builder()
                .caller(caller)
                .kind(TxKind::Create)
                .data(bytecode_bytes)
                .gas_limit(1_000_000)
                .nonce(nonce)
                .build()
                .unwrap(),
        )
        .unwrap();

    assert!(deploy.is_success(), "deploy reverted: {deploy:?}");

    let contract_address = deploy.created_address().expect("no contract address");
    nonce += 1;

    let call = |evm: &mut _, function: &str, nonce: u64| {
        let sel = builder.selector(function);
        let r: revm::context::result::ExecutionResult = ExecuteCommitEvm::transact_commit(
            evm,
            TxEnv::builder()
                .caller(caller)
                .kind(TxKind::Call(contract_address))
                .data(Bytes::from(sel.to_vec()))
                .gas_limit(1_000_000)
                .nonce(nonce)
                .build()
                .unwrap(),
        )
        .unwrap();
        assert!(r.is_success(), "call reverted: {r:?}");
        r
    };

    // 4. increment() twice
    call(&mut evm, "increment()", nonce);
    nonce += 1;
    call(&mut evm, "increment()", nonce);
    nonce += 1;

    // 5. get() and check it returns 2
    let r = call(&mut evm, "get()", nonce);
    let out = r.into_output().expect("no return data");
    assert_eq!(U256::from_be_slice(&out), U256::from(2));
}

#[test]
fn calculating_selectors_works() {
    let function_name = "transfer(address,uint256)";
    let expected_signature1 = "a9059cbb";
    let function_name2 = "symbol()";
    let expected_signature2 = "95d89b41";

    let builder = Builder;

    let encoded1 = hex::encode(builder.selector(function_name));
    let encoded2 = hex::encode(builder.selector(function_name2));

    assert_eq!(expected_signature1, encoded1);
    assert_eq!(expected_signature2, encoded2);
}

/// Runs the program as the body of a contract's only function, and gives what the call returned.
fn run_body(body: Asm, data: &[u8]) -> revm::context::result::ExecutionResult {
    let selector = [0x0a, 0x0b, 0x0c, 0x0d];
    let code = Builder.assemble_contract(vec![Function::new(selector, body)]);
    let caller = Address::from([0x10u8; 20]);
    let mut evm = Context::mainnet()
        .with_db(CacheDB::new(EmptyDB::default()))
        .build_mainnet();
    let deploy = evm
        .transact_commit(
            TxEnv::builder()
                .caller(caller)
                .kind(TxKind::Create)
                .data(code.into())
                .gas_limit(1_000_000)
                .nonce(0)
                .build()
                .unwrap(),
        )
        .unwrap();
    let mut calldata = selector.to_vec();
    calldata.extend_from_slice(data);
    evm.transact_commit(
        TxEnv::builder()
            .caller(caller)
            .kind(TxKind::Call(deploy.created_address().unwrap()))
            .data(Bytes::from(calldata))
            .gas_limit(1_000_000)
            .nonce(1)
            .build()
            .unwrap(),
    )
    .unwrap()
}

/// The word that the program returns.
fn word_from(body: Asm) -> U256 {
    let result = run_body(body, &[]);
    assert!(result.is_success(), "call failed: {result:?}");
    U256::from_be_slice(result.output().unwrap())
}

/// The digest of words, one after the other.
fn hash_of(words: &[u64]) -> U256 {
    let mut bytes = Vec::new();
    for word in words {
        bytes.extend_from_slice(&U256::from(*word).to_be_bytes::<32>());
    }
    revm::primitives::keccak256(bytes).into()
}

#[test]
fn slots_of_mappings_and_arrays() {
    let mut body = Asm::new();
    body.push_u8(7).mapping_slot(Word::from_u64(3)).return_word();
    assert_eq!(word_from(body), hash_of(&[7, 3]));

    let mut body = Asm::new();
    body.push_u8(3).push_u8(7).mapping_slot_from_stack().return_word();
    assert_eq!(word_from(body), hash_of(&[7, 3]));

    let mut body = Asm::new();
    body.push_u8(7).array_elem_slot(Word::from_u64(3)).return_word();
    assert_eq!(word_from(body), hash_of(&[3]).wrapping_add(U256::from(7)));

    let mut body = Asm::new();
    body.push_u8(3).push_u8(7).array_elem_slot_from_stack().return_word();
    assert_eq!(word_from(body), hash_of(&[3]).wrapping_add(U256::from(7)));
}

#[test]
fn a_word_that_was_stored_is_loaded() {
    let mut body = Asm::new();
    body.push_word(Word::from_limbs([1, 2, 3, 4]))
        .push_u8(0x80)
        .mstore()
        .push_u8(9)
        .push_u8(0xa0)
        .mstore()
        .push_u8(0x80)
        .mload()
        .return_word();
    assert_eq!(word_from(body), U256::from_limbs([1, 2, 3, 4]));
}

#[test]
fn a_packed_string_is_returned_with_its_length() {
    let mut packed = [0u8; 32];
    packed[..5].copy_from_slice(b"hello");
    packed[31] = 10;
    let mut body = Asm::new();
    body.push_word(Word::from_be_slice(&packed)).return_short_string();
    let result = run_body(body, &[]);
    let mut expected = U256::from(0x20).to_be_bytes::<32>().to_vec();
    expected.extend_from_slice(&U256::from(5).to_be_bytes::<32>());
    packed[31] = 0;
    expected.extend_from_slice(&packed);
    assert_eq!(result.output().unwrap().to_vec(), expected);
}

#[test]
fn a_string_parameter_is_packed() {
    let mut data = U256::from(0x20).to_be_bytes::<32>().to_vec();
    data.extend_from_slice(&U256::from(5).to_be_bytes::<32>());
    let mut word = [0u8; 32];
    word[..5].copy_from_slice(b"hello");
    data.extend_from_slice(&word);
    let mut body = Asm::new();
    body.decode_short_string_param(4, 0x80).push_u8(0x80).mload().return_word();
    let result = run_body(body, &data);
    word[31] = 10;
    assert_eq!(result.output().unwrap().to_vec(), word.to_vec());
}

/// Fills the first four words of memory with ones.
fn fill_memory(program: &mut Asm) {
    for at in [0x00, 0x20, 0x40, 0x60] {
        program.push_bytes(&[0xff; 32]).push_u8(at).mstore();
    }
}

#[test]
fn a_string_parameter_is_packed_anywhere_and_nowhere_else() {
    let mut data = U256::from(0x20).to_be_bytes::<32>().to_vec();
    data.extend_from_slice(&U256::from(3).to_be_bytes::<32>());
    let mut word = [0u8; 32];
    word[..3].copy_from_slice(b"abc");
    data.extend_from_slice(&word);
    word[31] = 6;
    for slot in [0x00usize, 0x05, 0x21, 0x60] {
        let mut body = Asm::new();
        fill_memory(&mut body);
        body.decode_short_string_param(4, slot as u32).push_u8(0x80).push_u8(0x00).ret();
        let result = run_body(body, &data);
        let mut expected = [0xffu8; 0x80];
        expected[slot..slot + 32].copy_from_slice(&word);
        assert_eq!(result.output().unwrap().to_vec(), expected.to_vec(), "slot {slot}");
    }
}

#[test]
fn a_string_argument_is_packed_anywhere_behind_two_scratch_words() {
    let length = U256::from(3).to_be_bytes::<32>();
    let mut text = [0u8; 32];
    text[..3].copy_from_slice(b"abc");
    let mut packed = text;
    packed[31] = 6;
    for slot in [0x10usize, 0x40, 0x45, 0x60] {
        let mut constructor = Asm::new();
        fill_memory(&mut constructor);
        constructor
            .decode_short_string_constructor_arg(64, 32, slot as u32)
            .push_u8(0x80)
            .push_u8(0x00)
            .ret();
        let mut code = Builder.assemble_contract_with_constructor(Vec::new(), constructor);
        code.extend_from_slice(&length);
        code.extend_from_slice(&text);
        let mut evm = Context::mainnet()
            .with_db(CacheDB::new(EmptyDB::default()))
            .build_mainnet();
        let result = evm
            .transact_commit(
                TxEnv::builder()
                    .caller(Address::from([0x10u8; 20]))
                    .kind(TxKind::Create)
                    .data(code.into())
                    .gas_limit(1_000_000)
                    .nonce(0)
                    .build()
                    .unwrap(),
            )
            .unwrap();
        let mut expected = [0xffu8; 0x80];
        expected[..32].copy_from_slice(&length);
        expected[32..64].copy_from_slice(&text);
        expected[slot..slot + 32].copy_from_slice(&packed);
        assert_eq!(result.output().unwrap().to_vec(), expected.to_vec(), "slot {slot}");
    }
}

#[test]
fn reverts_carry_no_data() {
    let mut body = Asm::new();
    body.revert_empty();
    let result = run_body(body, &[]);
    assert!(!result.is_success());
    assert!(result.output().unwrap().is_empty());
}

#[test]
fn single_instructions() {
    let mut program = Asm::new();
    program
        .sload()
        .sstore()
        .mload()
        .mstore()
        .add()
        .keccak256()
        .pop()
        .and()
        .or()
        .not()
        .dup1()
        .swap1()
        .shr()
        .shl()
        .ret()
        .code_size()
        .code_copy()
        .sub()
        .tx_origin()
        .balance()
        .calldataload();
    assert_eq!(
        hex::encode(program.finish()),
        "5455515201205016171980901c1bf3383903323135"
    );
}
