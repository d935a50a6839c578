//! Contracts, compiled from their source and run on a machine.

use revm::context::TxEnv;
use revm::context::result::ExecutionResult;
use revm::database::{CacheDB, EmptyDB};
use revm::primitives::{Address, Bytes, TxKind, U256, keccak256};
use revm::{Context, ExecuteCommitEvm, MainBuilder, MainContext};
use rulidity::ast;
use rulidity::contract::Builder;
use rulidity::errors::ErrorKind;
use rulidity::expand::contract;

/// The name of the last segment of a path, and the types between its angle brackets.
fn last_segment(path: &syn::Path) -> (String, Vec<ast::Type>) {
    let segment = path.segments.last().expect("a path has a segment");
    let mut args = Vec::new();
    if let syn::PathArguments::AngleBracketed(brackets) = &segment.arguments {
        for arg in &brackets.args {
            if let syn::GenericArgument::Type(ty) = arg {
                args.push(convert_type(ty));
            }
        }
    }
    (segment.ident.to_string(), args)
}

fn convert_type(ty: &syn::Type) -> ast::Type {
    match ty {
        syn::Type::Path(path) => {
            let (name, args) = last_segment(&path.path);
            ast::Type::Path(name, args)
        }
        syn::Type::Tuple(tuple) => {
            ast::Type::Tuple(tuple.elems.iter().map(convert_type).collect())
        }
        _ => ast::Type::Other,
    }
}

fn convert_output(output: &syn::ReturnType) -> Option<ast::Type> {
    match output {
        syn::ReturnType::Default => None,
        syn::ReturnType::Type(_, ty) => Some(convert_type(ty)),
    }
}

fn convert_operator(op: &syn::BinOp) -> ast::BinOp {
    match op {
        syn::BinOp::Add(_) => ast::BinOp::Add,
        syn::BinOp::Sub(_) => ast::BinOp::Sub,
        syn::BinOp::Mul(_) => ast::BinOp::Mul,
        syn::BinOp::Div(_) => ast::BinOp::Div,
        syn::BinOp::Rem(_) => ast::BinOp::Rem,
        syn::BinOp::Shl(_) => ast::BinOp::Shl,
        syn::BinOp::Lt(_) => ast::BinOp::Lt,
        syn::BinOp::Gt(_) => ast::BinOp::Gt,
        syn::BinOp::Eq(_) => ast::BinOp::Eq,
        syn::BinOp::Ne(_) => ast::BinOp::Ne,
        syn::BinOp::Le(_) => ast::BinOp::Le,
        syn::BinOp::Ge(_) => ast::BinOp::Ge,
        _ => ast::BinOp::Other,
    }
}

fn convert_member(member: &syn::Member) -> ast::Member {
    match member {
        syn::Member::Named(name) => ast::Member::Named(name.to_string()),
        syn::Member::Unnamed(_) => ast::Member::Unnamed,
    }
}

fn convert_pattern(pat: &syn::Pat) -> ast::Pat {
    match pat {
        syn::Pat::Ident(name) => ast::Pat::Ident(name.ident.to_string()),
        syn::Pat::Type(typed) => ast::Pat::Typed(Box::new(convert_pattern(&typed.pat))),
        _ => ast::Pat::Other,
    }
}

fn convert_exprs<'a>(exprs: impl Iterator<Item = &'a syn::Expr>) -> Vec<ast::Expr> {
    exprs.map(convert_expr).collect()
}

fn convert_expr(expr: &syn::Expr) -> ast::Expr {
    match expr {
        syn::Expr::Lit(lit) => match &lit.lit {
            syn::Lit::Int(int) => ast::Expr::Int(int.base10_parse::<u64>().ok()),
            syn::Lit::Bool(b) => ast::Expr::Bool(b.value),
            syn::Lit::Str(s) => ast::Expr::Str(s.value()),
            _ => ast::Expr::Other,
        },
        syn::Expr::Path(path) => match path.path.get_ident() {
            Some(name) => ast::Expr::Ident(name.to_string()),
            None => ast::Expr::Path(
                path.path
                    .segments
                    .iter()
                    .map(|segment| segment.ident.to_string())
                    .collect(),
            ),
        },
        syn::Expr::Field(field) => ast::Expr::Field(
            Box::new(convert_expr(&field.base)),
            convert_member(&field.member),
        ),
        syn::Expr::MethodCall(call) => ast::Expr::MethodCall(
            Box::new(convert_expr(&call.receiver)),
            call.method.to_string(),
            convert_exprs(call.args.iter()),
        ),
        syn::Expr::Call(call) => ast::Expr::Call(
            Box::new(convert_expr(&call.func)),
            convert_exprs(call.args.iter()),
        ),
        syn::Expr::Binary(bin) => ast::Expr::Binary(
            convert_operator(&bin.op),
            Box::new(convert_expr(&bin.left)),
            Box::new(convert_expr(&bin.right)),
        ),
        syn::Expr::Paren(paren) => ast::Expr::Paren(Box::new(convert_expr(&paren.expr))),
        syn::Expr::Tuple(tuple) => ast::Expr::Tuple(convert_exprs(tuple.elems.iter())),
        syn::Expr::Assign(assign) => ast::Expr::Assign(
            Box::new(convert_expr(&assign.left)),
            Box::new(convert_expr(&assign.right)),
        ),
        syn::Expr::If(cond) => ast::Expr::If(
            Box::new(convert_expr(&cond.cond)),
            convert_block(&cond.then_branch),
            cond.else_branch
                .as_ref()
                .map(|(_, other)| Box::new(convert_expr(other))),
        ),
        syn::Expr::While(cycle) => ast::Expr::While(
            Box::new(convert_expr(&cycle.cond)),
            convert_block(&cycle.body),
        ),
        syn::Expr::Block(block) => ast::Expr::Block(convert_block(&block.block)),
        syn::Expr::Struct(literal) => ast::Expr::Struct(
            last_segment(&literal.path).0,
            literal
                .fields
                .iter()
                .map(|field| ast::FieldValue {
                    member: convert_member(&field.member),
                    value: convert_expr(&field.expr),
                })
                .collect(),
        ),
        _ => ast::Expr::Other,
    }
}

fn convert_block(block: &syn::Block) -> Vec<ast::Stmt> {
    block.stmts.iter().map(convert_stmt).collect()
}

fn convert_stmt(stmt: &syn::Stmt) -> ast::Stmt {
    match stmt {
        syn::Stmt::Expr(expr, semi) => ast::Stmt::Expr(convert_expr(expr), semi.is_some()),
        syn::Stmt::Local(local) => ast::Stmt::Local(
            convert_pattern(&local.pat),
            local.init.as_ref().map(|init| convert_expr(&init.expr)),
        ),
        _ => ast::Stmt::Other,
    }
}

/// The attributes whose path is a single name.
fn convert_attrs(attrs: &[syn::Attribute]) -> Vec<String> {
    attrs
        .iter()
        .filter_map(|attr| attr.path().get_ident())
        .map(|name| name.to_string())
        .collect()
}

fn convert_input(input: &syn::FnArg) -> ast::FnArg {
    match input {
        syn::FnArg::Receiver(receiver) => ast::FnArg::Receiver(receiver.mutability.is_some()),
        syn::FnArg::Typed(typed) => {
            ast::FnArg::Typed(convert_pattern(&typed.pat), convert_type(&typed.ty))
        }
    }
}

fn convert_item(item: &syn::Item) -> ast::Item {
    match item {
        syn::Item::Struct(s) => ast::Item::Struct(
            convert_attrs(&s.attrs),
            s.ident.to_string(),
            s.fields
                .iter()
                .map(|field| ast::StructField {
                    attrs: convert_attrs(&field.attrs),
                    name: field.ident.as_ref().map(|name| name.to_string()),
                    ty: convert_type(&field.ty),
                })
                .collect(),
        ),
        syn::Item::Impl(imp) => ast::Item::Impl(
            imp.items
                .iter()
                .filter_map(|item| match item {
                    syn::ImplItem::Fn(f) => Some(ast::Method {
                        attrs: convert_attrs(&f.attrs),
                        name: f.sig.ident.to_string(),
                        inputs: f.sig.inputs.iter().map(convert_input).collect(),
                        output: convert_output(&f.sig.output),
                        block: convert_block(&f.block),
                    }),
                    _ => None,
                })
                .collect(),
        ),
        syn::Item::Trait(t) => ast::Item::Trait(
            convert_attrs(&t.attrs),
            t.ident.to_string(),
            t.items
                .iter()
                .filter_map(|item| match item {
                    syn::TraitItem::Fn(f) => Some(ast::Signature {
                        name: f.sig.ident.to_string(),
                        inputs: f.sig.inputs.iter().map(convert_input).collect(),
                        output: convert_output(&f.sig.output),
                    }),
                    _ => None,
                })
                .collect(),
        ),
        _ => ast::Item::Other,
    }
}

/// The items of a module, from its source.
fn items(source: &str) -> Vec<ast::Item> {
    let file: syn::File = syn::parse_str(source).expect("the source does not parse");
    file.items.iter().map(convert_item).collect()
}

/// The code that deploys the contract with the given source.
fn deploy_code(source: &str) -> Vec<u8> {
    match contract(&items(source)) {
        Ok(expansion) => expansion.deploy_code,
        Err(errors) => panic!("{:?}", errors),
    }
}

fn addr_word(a: Address) -> [u8; 32] {
    let mut w = [0u8; 32];
    w[12..].copy_from_slice(a.as_slice());
    w
}

fn decode_u256(r: ExecutionResult) -> U256 {
    U256::from_be_slice(&r.into_output().unwrap())
}

/// Decode a standard ABI-encoded `string` return: [offset(32)][len(32)][data..].
fn read_string(r: ExecutionResult) -> String {
    let out = r.into_output().unwrap();
    let len = U256::from_be_slice(&out[32..64]).to::<usize>();
    String::from_utf8(out[64..64 + len].to_vec()).unwrap()
}

const COUNTER: &str = r#"
#[storage]
struct Counter {
    count: U256,
}

impl Counter {
    #[external]
    #[allow(clippy::assign_op_pattern)] // this is deliberate here to make sure macro works on those cases as well
    fn increment(&mut self) {
        self.count = self.count + U256::from(1);
    }

    #[external]
    fn get(&self) -> U256 {
        self.count
    }
}
"#;

#[test]
fn macro_counter_works() {
    let builder = Builder;
    let inc = builder.selector("increment()");
    let get = builder.selector("get()");

    let bytecode: Bytes = deploy_code(COUNTER).into();

    let caller = Address::from([0x11u8; 20]);
    let mut evm = Context::mainnet()
        .with_db(CacheDB::new(EmptyDB::default()))
        .build_mainnet();
    let mut nonce = 0u64;

    let deploy = evm
        .transact_commit(
            TxEnv::builder()
                .caller(caller)
                .kind(TxKind::Create)
                .data(bytecode)
                .gas_limit(1_000_000)
                .nonce(nonce)
                .build()
                .unwrap(),
        )
        .unwrap();
    assert!(deploy.is_success(), "deploy failed: {deploy:?}");
    let addr = deploy.created_address().unwrap();
    nonce += 1;

    for _ in 0..2 {
        let r = evm
            .transact_commit(
                TxEnv::builder()
                    .caller(caller)
                    .kind(TxKind::Call(addr))
                    .data(Bytes::from(inc.to_vec()))
                    .gas_limit(1_000_000)
                    .nonce(nonce)
                    .build()
                    .unwrap(),
            )
            .unwrap();
        assert!(r.is_success(), "increment failed: {r:?}");
        nonce += 1;
    }

    let r = evm
        .transact_commit(
            TxEnv::builder()
                .caller(caller)
                .kind(TxKind::Call(addr))
                .data(Bytes::from(get.to_vec()))
                .gas_limit(1_000_000)
                .nonce(nonce)
                .build()
                .unwrap(),
        )
        .unwrap();
    assert!(r.is_success(), "get failed: {r:?}");
    let out = r.into_output().unwrap();
    assert_eq!(U256::from_be_slice(&out), U256::from(2));
}

const TOKEN_TOKEN: &str = r#"
#[storage]
struct Token {
    balances: Mapping<Address, U256>,
}

impl Token {
    #[external]
    fn deposit(&mut self) {
        self.balances.insert(
            msg_sender(),
            self.balances.get(msg_sender()) + U256::from(1),
        );
    }

    #[external]
    fn my_balance(&self) -> U256 {
        self.balances.get(msg_sender())
    }
}
"#;

#[test]
fn mapping_and_msg_sender_work() {
    let builder = Builder;
    let deposit = builder.selector("deposit()");
    let my_balance = builder.selector("my_balance()");

    let bytecode: Bytes = deploy_code(TOKEN_TOKEN).into();

    let alice = Address::from([0x11u8; 20]);
    let bob = Address::from([0x22u8; 20]);

    let mut evm = Context::mainnet()
        .with_db(CacheDB::new(EmptyDB::default()))
        .build_mainnet();

    let deploy = evm
        .transact_commit(
            TxEnv::builder()
                .caller(alice)
                .kind(TxKind::Create)
                .data(bytecode)
                .gas_limit(2_000_000)
                .nonce(0)
                .build()
                .unwrap(),
        )
        .unwrap();
    assert!(deploy.is_success(), "deploy failed: {deploy:?}");
    let addr = deploy.created_address().unwrap();

    let mut send = |caller: Address, data: Bytes, nonce: u64| {
        evm.transact_commit(
            TxEnv::builder()
                .caller(caller)
                .kind(TxKind::Call(addr))
                .data(data)
                .gas_limit(2_000_000)
                .nonce(nonce)
                .build()
                .unwrap(),
        )
        .unwrap()
    };

    assert!(send(alice, Bytes::from(deposit.to_vec()), 1).is_success());
    assert!(send(alice, Bytes::from(deposit.to_vec()), 2).is_success());

    let ra = send(alice, Bytes::from(my_balance.to_vec()), 3);
    assert!(ra.is_success(), "my_balance failed: {ra:?}");
    assert_eq!(
        U256::from_be_slice(&ra.into_output().unwrap()),
        U256::from(2),
        "alice should have 2"
    );

    // bob never deposited, so his balance is 0 (mapping keys on the caller)
    let rb = send(bob, Bytes::from(my_balance.to_vec()), 0);
    assert!(rb.is_success(), "my_balance failed: {rb:?}");
    assert_eq!(
        U256::from_be_slice(&rb.into_output().unwrap()),
        U256::from(0),
        "bob should have 0"
    );
}

const TOKEN2_TOKEN: &str = r#"
#[storage]
struct Token {
    balances: Mapping<Address, U256>,
}

impl Token {
    #[external]
    fn deposit(&mut self) {
        self.balances.insert(
            msg_sender(),
            self.balances.get(msg_sender()) + U256::from(1),
        );
    }

    #[external]
    fn my_balance(&self) -> U256 {
        self.balances.get(msg_sender())
    }

    #[external]
    fn mint(&mut self, to: Address, amount: U256) {
        let current = self.balances.get(to);
        self.balances.insert(to, current + amount);
    }

    #[external]
    fn balance_of(&self, who: Address) -> U256 {
        self.balances.get(who)
    }
}
"#;

#[test]
fn function_parameters_work() {
    let builder = Builder;
    let mint = builder.selector("mint(address,uint256)");
    let balance_of = builder.selector("balance_of(address)");

    let bytecode: Bytes = deploy_code(TOKEN2_TOKEN).into();

    let caller = Address::from([0x11u8; 20]);
    let alice = Address::from([0xAAu8; 20]); // note: NOT the caller
    let bob = Address::from([0xBBu8; 20]);

    let mut evm = Context::mainnet()
        .with_db(CacheDB::new(EmptyDB::default()))
        .build_mainnet();

    let deploy = evm
        .transact_commit(
            TxEnv::builder()
                .caller(caller)
                .kind(TxKind::Create)
                .data(bytecode)
                .gas_limit(2_000_000)
                .nonce(0)
                .build()
                .unwrap(),
        )
        .unwrap();
    assert!(deploy.is_success(), "deploy failed: {deploy:?}");
    let addr = deploy.created_address().unwrap();

    // build calldata: selector ++ 32-byte-per-arg
    let mint_call = |to: Address, amount: u64| -> Bytes {
        let mut data = mint.to_vec();
        data.extend_from_slice(&addr_word(to));
        data.extend_from_slice(&U256::from(amount).to_be_bytes::<32>());
        Bytes::from(data)
    };
    let balance_call = |who: Address| -> Bytes {
        let mut data = balance_of.to_vec();
        data.extend_from_slice(&addr_word(who));
        Bytes::from(data)
    };

    let mut send = |data: Bytes, nonce: u64| {
        evm.transact_commit(
            TxEnv::builder()
                .caller(caller)
                .kind(TxKind::Call(addr))
                .data(data)
                .gas_limit(2_000_000)
                .nonce(nonce)
                .build()
                .unwrap(),
        )
        .unwrap()
    };

    assert!(
        send(mint_call(alice, 100), 1).is_success(),
        "mint #1 failed"
    );
    assert!(send(mint_call(alice, 50), 2).is_success(), "mint #2 failed");

    let r = send(balance_call(alice), 3);
    assert!(r.is_success(), "balance_of(alice) failed: {r:?}");
    assert_eq!(
        U256::from_be_slice(&r.into_output().unwrap()),
        U256::from(150),
        "alice should have 150"
    );

    // bob was never minted to, so 0: proves the param really keys the mapping
    let r = send(balance_call(bob), 4);
    assert!(r.is_success(), "balance_of(bob) failed: {r:?}");
    assert_eq!(
        U256::from_be_slice(&r.into_output().unwrap()),
        U256::from(0),
        "bob should have 0"
    );
}

const TOKEN3_TOKEN: &str = r#"
#[storage]
struct Token {
    balances: Mapping<Address, U256>,
}

impl Token {
    #[external]
    fn deposit(&mut self) {
        self.balances.insert(
            msg_sender(),
            self.balances.get(msg_sender()) + U256::from(100),
        );
    }

    #[external]
    fn balance_of(&self, who: Address) -> U256 {
        self.balances.get(who)
    }

    #[external]
    fn transfer(&mut self, to: Address, amount: U256) {
        let from_bal = self.balances.get(msg_sender());
        require(from_bal >= amount);
        self.balances.insert(msg_sender(), from_bal - amount);
        self.balances.insert(to, self.balances.get(to) + amount);
    }

    #[external]
    fn capped_deposit(&mut self, amount: U256) {
        if amount < U256::from(1000) {
            self.balances
                .insert(msg_sender(), self.balances.get(msg_sender()) + amount);
        }
    }
}
"#;

#[test]
fn require_and_if_work() {
    let builder = Builder;
    let deposit = builder.selector("deposit()");
    let balance_of = builder.selector("balance_of(address)");
    let transfer = builder.selector("transfer(address,uint256)");
    let capped_deposit = builder.selector("capped_deposit(uint256)");

    let bytecode: Bytes = deploy_code(TOKEN3_TOKEN).into();

    let alice = Address::from([0xAAu8; 20]);
    let bob = Address::from([0xBBu8; 20]);

    let mut evm = Context::mainnet()
        .with_db(CacheDB::new(EmptyDB::default()))
        .build_mainnet();

    let deploy = evm
        .transact_commit(
            TxEnv::builder()
                .caller(alice)
                .kind(TxKind::Create)
                .data(bytecode)
                .gas_limit(3_000_000)
                .nonce(0)
                .build()
                .unwrap(),
        )
        .unwrap();
    assert!(deploy.is_success(), "deploy failed: {deploy:?}");
    let addr = deploy.created_address().unwrap();

    // one closure for every call; alice's nonce climbs by one each time
    // (a reverted-but-included tx still consumes its nonce).
    let mut send = |data: Bytes, nonce: u64| {
        evm.transact_commit(
            TxEnv::builder()
                .caller(alice)
                .kind(TxKind::Call(addr))
                .data(data)
                .gas_limit(3_000_000)
                .nonce(nonce)
                .build()
                .unwrap(),
        )
        .unwrap()
    };

    let word = |v: u64| U256::from(v).to_be_bytes::<32>();
    let balance_call = |who: Address| -> Bytes {
        let mut d = balance_of.to_vec();
        d.extend_from_slice(&addr_word(who));
        Bytes::from(d)
    };
    let transfer_call = |to: Address, amount: u64| -> Bytes {
        let mut d = transfer.to_vec();
        d.extend_from_slice(&addr_word(to));
        d.extend_from_slice(&word(amount));
        Bytes::from(d)
    };
    let capped_call = |amount: u64| -> Bytes {
        let mut d = capped_deposit.to_vec();
        d.extend_from_slice(&word(amount));
        Bytes::from(d)
    };

    assert!(send(Bytes::from(deposit.to_vec()), 1).is_success());

    assert!(
        send(transfer_call(bob, 30), 2).is_success(),
        "transfer within balance should succeed"
    );
    assert_eq!(decode_u256(send(balance_call(alice), 3)), U256::from(70));
    assert_eq!(decode_u256(send(balance_call(bob), 4)), U256::from(30));

    let r = send(transfer_call(bob, 1000), 5);
    assert!(!r.is_success(), "over-balance transfer must revert: {r:?}");
    assert_eq!(decode_u256(send(balance_call(alice), 6)), U256::from(70));
    assert_eq!(decode_u256(send(balance_call(bob), 7)), U256::from(30));

    assert!(send(capped_call(50), 8).is_success());
    assert_eq!(decode_u256(send(balance_call(alice), 9)), U256::from(120));

    assert!(send(capped_call(5000), 10).is_success());
    assert_eq!(
        decode_u256(send(balance_call(alice), 11)),
        U256::from(120),
        "branch skipped, balance unchanged"
    );
}

const TOKEN4_TOKEN: &str = r#"
#[event]
struct Transfer {
    from: Address,
    to: Address,
    value: U256,
}

#[storage]
struct Token {
    balances: Mapping<Address, U256>,
}

impl Token {
    #[external]
    fn balance_of(&self, who: Address) -> U256 {
        self.balances.get(who)
    }

    #[external]
    fn mint(&mut self, to: Address, amount: U256) {
        self.balances.insert(to, self.balances.get(to) + amount);
    }

    #[external]
    fn transfer(&mut self, to: Address, amount: U256) {
        let from = msg_sender();
        let from_bal = self.balances.get(from);
        require(from_bal >= amount);

        self.balances.insert(from, from_bal - amount);
        self.balances.insert(to, self.balances.get(to) + amount);

        emit(Transfer {
            from,
            to,
            value: amount,
        });
    }
}
"#;

#[test]
fn transfer_emits_event() {
    let builder = Builder;
    let mint = builder.selector("mint(address,uint256)");
    let transfer = builder.selector("transfer(address,uint256)");
    let balance_of = builder.selector("balance_of(address)");

    let bytecode: Bytes = deploy_code(TOKEN4_TOKEN).into();

    let alice = Address::from([0xAAu8; 20]);
    let bob = Address::from([0xBBu8; 20]);

    let mut evm = Context::mainnet()
        .with_db(CacheDB::new(EmptyDB::default()))
        .build_mainnet();

    let deploy = evm
        .transact_commit(
            TxEnv::builder()
                .caller(alice)
                .kind(TxKind::Create)
                .data(bytecode)
                .gas_limit(3_000_000)
                .nonce(0)
                .build()
                .unwrap(),
        )
        .unwrap();
    assert!(deploy.is_success(), "deploy failed: {deploy:?}");
    let addr = deploy.created_address().unwrap();

    // all calls come from alice; her nonce climbs by one each time
    // (a reverted-but-included tx still consumes its nonce).
    let mut send = |data: Bytes, nonce: u64| -> ExecutionResult {
        evm.transact_commit(
            TxEnv::builder()
                .caller(alice)
                .kind(TxKind::Call(addr))
                .data(data)
                .gas_limit(3_000_000)
                .nonce(nonce)
                .build()
                .unwrap(),
        )
        .unwrap()
    };

    let word = |v: u64| U256::from(v).to_be_bytes::<32>();
    let addr_amount = |sel: [u8; 4], who: Address, amount: u64| -> Bytes {
        let mut d = sel.to_vec();
        d.extend_from_slice(&addr_word(who));
        d.extend_from_slice(&word(amount));
        Bytes::from(d)
    };
    let balance_call = |who: Address| -> Bytes {
        let mut d = balance_of.to_vec();
        d.extend_from_slice(&addr_word(who));
        Bytes::from(d)
    };
    let read_bal = |r: ExecutionResult| U256::from_be_slice(&r.into_output().unwrap());

    let m = send(addr_amount(mint, alice, 100), 1);
    assert!(m.is_success(), "mint failed: {m:?}");
    assert_eq!(m.logs().len(), 0, "mint emits no event");

    let r = send(addr_amount(transfer, bob, 30), 2);
    assert!(r.is_success(), "transfer failed: {r:?}");

    let logs = r.logs();
    assert_eq!(logs.len(), 1, "one Transfer event");
    let log = &logs[0];
    assert_eq!(log.address, addr, "emitted by the contract");

    // topic0 is always keccak(canonical signature)
    let topic0 = keccak256(b"Transfer(address,address,uint256)");
    assert_eq!(log.topics()[0], topic0, "topic0 = keccak(sig)");

    // there is only topic0, and all three fields sit in `data`.
    assert_eq!(
        log.topics().len(),
        1,
        "stage 1: only topic0 (no indexed yet)"
    );

    let data = &log.data.data;
    assert_eq!(data.len(), 96, "stage 1: from ++ to ++ value all in data");
    assert_eq!(&data[0..32], &addr_word(alice), "word 0 = from");
    assert_eq!(&data[32..64], &addr_word(bob), "word 1 = to");
    assert_eq!(
        U256::from_be_slice(&data[64..96]),
        U256::from(30),
        "word 2 = value"
    );

    assert_eq!(read_bal(send(balance_call(alice), 3)), U256::from(70));
    assert_eq!(read_bal(send(balance_call(bob), 4)), U256::from(30));

    let bad = send(addr_amount(transfer, bob, 1000), 5);
    assert!(!bad.is_success(), "over-balance transfer must revert");
    assert_eq!(bad.logs().len(), 0, "reverted tx emits no log");

    assert_eq!(read_bal(send(balance_call(alice), 6)), U256::from(70));
    assert_eq!(read_bal(send(balance_call(bob), 7)), U256::from(30));
}

const HOLDERS: &str = r#"
#[storage]
struct Holders {
    holders: Array<Address>,
}

impl Holders {
    #[external]
    fn add_holder(&mut self, addr: Address) {
        self.holders.push(addr);
    }

    #[external]
    fn count(&self) -> U256 {
        self.holders.len()
    }

    #[external]
    fn get(&self, idx: U256) -> Address {
        self.holders.get(idx)
    }

    #[external]
    fn set_holder(&mut self, idx: U256, addr: Address) {
        self.holders.set(idx, addr);
    }
}
"#;

#[test]
fn dynamic_array_push_get_set_len() {
    let builder = Builder;
    let add_holder = builder.selector("add_holder(address)");
    let count = builder.selector("count()");
    let get = builder.selector("get(uint256)");
    let set_holder = builder.selector("set_holder(uint256,address)");

    let bytecode: Bytes = deploy_code(HOLDERS).into();

    let caller = Address::from([0x11u8; 20]);
    let alice = Address::from([0xAAu8; 20]);
    let bob = Address::from([0xBBu8; 20]);
    let carol = Address::from([0xCCu8; 20]);

    let mut evm = Context::mainnet()
        .with_db(CacheDB::new(EmptyDB::default()))
        .build_mainnet();

    let deploy = evm
        .transact_commit(
            TxEnv::builder()
                .caller(caller)
                .kind(TxKind::Create)
                .data(bytecode)
                .gas_limit(3_000_000)
                .nonce(0)
                .build()
                .unwrap(),
        )
        .unwrap();
    assert!(deploy.is_success(), "deploy failed: {deploy:?}");
    let addr = deploy.created_address().unwrap();

    let mut send = |data: Bytes, nonce: u64| -> ExecutionResult {
        evm.transact_commit(
            TxEnv::builder()
                .caller(caller)
                .kind(TxKind::Call(addr))
                .data(data)
                .gas_limit(3_000_000)
                .nonce(nonce)
                .build()
                .unwrap(),
        )
        .unwrap()
    };

    let word = |v: u64| U256::from(v).to_be_bytes::<32>();
    let add_call = |a: Address| -> Bytes {
        let mut d = add_holder.to_vec();
        d.extend_from_slice(&addr_word(a));
        Bytes::from(d)
    };
    let get_call = |i: u64| -> Bytes {
        let mut d = get.to_vec();
        d.extend_from_slice(&word(i));
        Bytes::from(d)
    };
    let set_call = |i: u64, a: Address| -> Bytes {
        let mut d = set_holder.to_vec();
        d.extend_from_slice(&word(i));
        d.extend_from_slice(&addr_word(a));
        Bytes::from(d)
    };
    let read_addr = |r: ExecutionResult| -> Address {
        let out = r.into_output().unwrap();
        Address::from_slice(&out[12..32])
    };
    let read_u256 = |r: ExecutionResult| U256::from_be_slice(&r.into_output().unwrap());

    // empty array, count == 0
    assert_eq!(
        read_u256(send(Bytes::from(count.to_vec()), 1)),
        U256::from(0)
    );

    // push two holders
    assert!(send(add_call(alice), 2).is_success());
    assert!(send(add_call(bob), 3).is_success());

    // len tracks the base slot
    assert_eq!(
        read_u256(send(Bytes::from(count.to_vec()), 4)),
        U256::from(2)
    );

    // elements land at keccak256(base) + i
    assert_eq!(read_addr(send(get_call(0), 5)), alice);
    assert_eq!(read_addr(send(get_call(1), 6)), bob);

    // overwrite index 0, length unchanged
    assert!(send(set_call(0, carol), 7).is_success());
    assert_eq!(read_addr(send(get_call(0), 8)), carol);
    assert_eq!(read_addr(send(get_call(1), 9)), bob);
    assert_eq!(
        read_u256(send(Bytes::from(count.to_vec()), 10)),
        U256::from(2)
    );
}

const ALLOWANCE: &str = r#"
#[storage]
struct Allowance {
    allowances: Mapping<Address, Mapping<Address, U256>>,
}

impl Allowance {
    #[external]
    fn approve(&mut self, spender: Address, amount: U256) {
        self.allowances.get(msg_sender()).insert(spender, amount);
    }

    #[external]
    fn allowance(&self, owner: Address, spender: Address) -> U256 {
        self.allowances.get(owner).get(spender)
    }
}
"#;

#[test]
fn nested_mapping_approve_and_read() {
    let builder = Builder;
    let approve = builder.selector("approve(address,uint256)");
    let allowance = builder.selector("allowance(address,address)");

    let owner = Address::from([0x11u8; 20]); // caller -> msg_sender()
    let spender = Address::from([0xAAu8; 20]);
    let other = Address::from([0xBBu8; 20]);
    let amount: u64 = 4_242;

    let bytecode: Bytes = deploy_code(ALLOWANCE).into();

    let mut evm = Context::mainnet()
        .with_db(CacheDB::new(EmptyDB::default()))
        .build_mainnet();

    let deploy = evm
        .transact_commit(
            TxEnv::builder()
                .caller(owner)
                .kind(TxKind::Create)
                .data(bytecode)
                .gas_limit(3_000_000)
                .nonce(0)
                .build()
                .unwrap(),
        )
        .unwrap();
    assert!(deploy.is_success(), "deploy failed: {deploy:?}");
    let addr = deploy.created_address().unwrap();

    let mut send = |data: Bytes, nonce: u64| -> ExecutionResult {
        evm.transact_commit(
            TxEnv::builder()
                .caller(owner)
                .kind(TxKind::Call(addr))
                .data(data)
                .gas_limit(3_000_000)
                .nonce(nonce)
                .build()
                .unwrap(),
        )
        .unwrap()
    };

    let approve_call = |spender: Address, amount: u64| -> Bytes {
        let mut d = approve.to_vec();
        d.extend_from_slice(&addr_word(spender));
        d.extend_from_slice(&U256::from(amount).to_be_bytes::<32>());
        Bytes::from(d)
    };
    let allowance_call = |owner: Address, spender: Address| -> Bytes {
        let mut d = allowance.to_vec();
        d.extend_from_slice(&addr_word(owner));
        d.extend_from_slice(&addr_word(spender));
        Bytes::from(d)
    };
    let read_u256 = |r: ExecutionResult| U256::from_be_slice(&r.into_output().unwrap());

    // owner (msg_sender) approves spender for `amount`
    assert!(send(approve_call(spender, amount), 1).is_success());

    // allowances[owner][spender] == amount
    assert_eq!(
        read_u256(send(allowance_call(owner, spender), 2)),
        U256::from(amount)
    );

    // a different inner key is untouched: allowances[owner][other] == 0
    assert_eq!(
        read_u256(send(allowance_call(owner, other), 3)),
        U256::from(0)
    );

    // a different outer key is untouched: allowances[other][spender] == 0
    assert_eq!(
        read_u256(send(allowance_call(other, spender), 4)),
        U256::from(0)
    );
}

const CONSTRUCTOR_CONTRACT: &str = r#"
#[storage]
struct ConstructorContract {
    owner: Address,
    count: U256,
}

impl ConstructorContract {
    #[constructor]
    fn construct(&mut self, owner: Address, start: U256) {
        self.owner = owner;
        self.count = start;
    }

    #[external]
    fn owner(&self) -> Address {
        self.owner
    }

    #[external]
    fn count(&self) -> U256 {
        self.count
    }

    #[external]
    #[allow(clippy::assign_op_pattern)]
    fn increment(&mut self) {
        self.count = self.count + U256::from(1);
    }
}
"#;

#[test]
fn constructor_initializes_state() {
    let builder = Builder;
    let owner_sel = builder.selector("owner()");
    let count_sel = builder.selector("count()");
    let increment_sel = builder.selector("increment()");

    let caller = Address::from([0x11u8; 20]);
    let owner = Address::from([0xAAu8; 20]);
    let start: u64 = 41;

    // deploy data = creation code ++ abi-encoded constructor args (owner, start)
    let mut data = deploy_code(CONSTRUCTOR_CONTRACT);
    data.extend_from_slice(&addr_word(owner));
    data.extend_from_slice(&U256::from(start).to_be_bytes::<32>());

    let mut evm = Context::mainnet()
        .with_db(CacheDB::new(EmptyDB::default()))
        .build_mainnet();

    let deploy = evm
        .transact_commit(
            TxEnv::builder()
                .caller(caller)
                .kind(TxKind::Create)
                .data(Bytes::from(data))
                .gas_limit(3_000_000)
                .nonce(0)
                .build()
                .unwrap(),
        )
        .unwrap();
    assert!(deploy.is_success(), "deploy failed: {deploy:?}");
    let addr = deploy.created_address().unwrap();

    let mut send = |data: Bytes, nonce: u64| -> ExecutionResult {
        evm.transact_commit(
            TxEnv::builder()
                .caller(caller)
                .kind(TxKind::Call(addr))
                .data(data)
                .gas_limit(3_000_000)
                .nonce(nonce)
                .build()
                .unwrap(),
        )
        .unwrap()
    };

    let read_addr = |r: ExecutionResult| -> Address {
        let out = r.into_output().unwrap();
        Address::from_slice(&out[12..32])
    };
    let read_u256 = |r: ExecutionResult| U256::from_be_slice(&r.into_output().unwrap());

    // both scalars set from the constructor args
    assert_eq!(read_addr(send(Bytes::from(owner_sel.to_vec()), 1)), owner);
    assert_eq!(
        read_u256(send(Bytes::from(count_sel.to_vec()), 2)),
        U256::from(start)
    );

    // constructor-initialized state is a normal starting point for mutation
    assert!(send(Bytes::from(increment_sel.to_vec()), 3).is_success());
    assert!(send(Bytes::from(increment_sel.to_vec()), 4).is_success());
    assert_eq!(
        read_u256(send(Bytes::from(count_sel.to_vec()), 5)),
        U256::from(start + 2)
    );
}

const TOKEN_META: &str = r#"
#[storage]
struct Meta {
    symbol: ShortString,
}

impl Meta {
    #[constructor]
    fn construct(&mut self, symbol: ShortString) {
        self.symbol = symbol;
    }

    #[external]
    fn name(&self) -> ShortString {
        "MyToken"
    }

    #[external]
    fn symbol(&self) -> ShortString {
        self.symbol
    }

    #[external]
    fn set_symbol(&mut self, symbol: ShortString) {
        self.symbol = symbol;
    }
}
"#;

const ERC20_LIKE: &str = r#"
#[storage]
struct Meta {
    total_supply: U256,
    name: ShortString,
    symbol: ShortString,
}

impl Meta {
    #[constructor]
    fn construct(&mut self, total_supply: U256, name: ShortString, symbol: ShortString) {
        self.total_supply = total_supply;
        self.name = name;
        self.symbol = symbol;
    }

    #[external]
    fn totalSupply(&self) -> U256 {
        self.total_supply
    }

    #[external]
    fn name(&self) -> ShortString {
        self.name
    }

    #[external]
    fn symbol(&self) -> ShortString {
        self.symbol
    }
}
"#;

#[test]
fn short_strings_return_as_abi() {
    let builder = Builder;
    let name_sel = builder.selector("name()");
    let symbol_sel = builder.selector("symbol()");

    let caller = Address::from([0x11u8; 20]);

    // deploy payload = creation code ++ abi.encode(symbol="TST")
    // (head: offset to the string; tail: length then padded data)
    let mut data = deploy_code(TOKEN_META);
    data.extend_from_slice(&U256::from(0x20).to_be_bytes::<32>());
    data.extend_from_slice(&U256::from(3u64).to_be_bytes::<32>());
    let mut arg = [0u8; 32];
    arg[..3].copy_from_slice(b"TST");
    data.extend_from_slice(&arg);

    let mut evm = Context::mainnet()
        .with_db(CacheDB::new(EmptyDB::default()))
        .build_mainnet();

    let deploy = evm
        .transact_commit(
            TxEnv::builder()
                .caller(caller)
                .kind(TxKind::Create)
                .data(Bytes::from(data))
                .gas_limit(3_000_000)
                .nonce(0)
                .build()
                .unwrap(),
        )
        .unwrap();
    assert!(deploy.is_success(), "deploy failed: {deploy:?}");
    let addr = deploy.created_address().unwrap();

    let mut send = |data: Bytes, nonce: u64| -> ExecutionResult {
        evm.transact_commit(
            TxEnv::builder()
                .caller(caller)
                .kind(TxKind::Call(addr))
                .data(data)
                .gas_limit(3_000_000)
                .nonce(nonce)
                .build()
                .unwrap(),
        )
        .unwrap()
    };

    // pure literal return
    assert_eq!(
        read_string(send(Bytes::from(name_sel.to_vec()), 1)),
        "MyToken"
    );

    // constructor string arg: "TST" was decoded from the code tail into the slot
    assert_eq!(
        read_string(send(Bytes::from(symbol_sel.to_vec()), 2)),
        "TST"
    );

    // setter works
    let mut calldata = builder.selector("set_symbol(string)").to_vec();
    calldata.extend_from_slice(&U256::from(0x20).to_be_bytes::<32>());
    calldata.extend_from_slice(&U256::from(3u64).to_be_bytes::<32>());
    let mut data = [0u8; 32];
    data[..3].copy_from_slice(b"XYZ");
    calldata.extend_from_slice(&data);

    assert!(send(Bytes::from(calldata), 3).is_success());
    assert_eq!(
        read_string(send(Bytes::from(symbol_sel.to_vec()), 4)),
        "XYZ"
    );
}

/// Reproduces exactly what the Foundry `abi.encode(TOTAL_SUPPLY, NAME, SYMBOL)`
/// blob looks like, to prove the (U256, String, String) constructor layout.
#[test]
fn erc20_style_constructor_args() {
    let builder = Builder;
    let supply_sel = builder.selector("totalSupply()");
    let name_sel = builder.selector("name()");
    let symbol_sel = builder.selector("symbol()");

    let caller = Address::from([0x11u8; 20]);
    let supply = U256::from(1_000_000u64);

    // abi.encode(total_supply, name, symbol):
    //   head: [supply][offset_name=0x60][offset_symbol=0xa0]
    //   tail: [name_len][name_data][symbol_len][symbol_data]
    let str_word = |s: &str| {
        let mut w = [0u8; 32];
        w[..s.len()].copy_from_slice(s.as_bytes());
        w
    };
    let mut data = deploy_code(ERC20_LIKE);
    data.extend_from_slice(&supply.to_be_bytes::<32>());
    data.extend_from_slice(&U256::from(0x60).to_be_bytes::<32>());
    data.extend_from_slice(&U256::from(0xa0).to_be_bytes::<32>());
    data.extend_from_slice(&U256::from(10u64).to_be_bytes::<32>());
    data.extend_from_slice(&str_word("TEST_TOKEN"));
    data.extend_from_slice(&U256::from(3u64).to_be_bytes::<32>());
    data.extend_from_slice(&str_word("TST"));

    let mut evm = Context::mainnet()
        .with_db(CacheDB::new(EmptyDB::default()))
        .build_mainnet();

    let deploy = evm
        .transact_commit(
            TxEnv::builder()
                .caller(caller)
                .kind(TxKind::Create)
                .data(Bytes::from(data))
                .gas_limit(5_000_000)
                .nonce(0)
                .build()
                .unwrap(),
        )
        .unwrap();
    assert!(deploy.is_success(), "deploy failed: {deploy:?}");
    let addr = deploy.created_address().unwrap();

    let mut send = |data: Bytes, nonce: u64| -> ExecutionResult {
        evm.transact_commit(
            TxEnv::builder()
                .caller(caller)
                .kind(TxKind::Call(addr))
                .data(data)
                .gas_limit(3_000_000)
                .nonce(nonce)
                .build()
                .unwrap(),
        )
        .unwrap()
    };

    assert_eq!(
        U256::from_be_slice(&send(Bytes::from(supply_sel.to_vec()), 1).into_output().unwrap()),
        supply
    );
    assert_eq!(read_string(send(Bytes::from(name_sel.to_vec()), 2)), "TEST_TOKEN");
    assert_eq!(read_string(send(Bytes::from(symbol_sel.to_vec()), 3)), "TST");
}

const BRANCHY: &str = r#"
#[storage]
struct Branchy {}

impl Branchy {
    #[external]
    #[allow(unused_assignments)]
    fn classify(&self, x: U256) -> U256 {
        let mut bucket = U256::from(4);
        if x < U256::from(10) {
            bucket = U256::from(1);
        } else if x < U256::from(20) {
            bucket = U256::from(2);
        } else if x < U256::from(30) {
            bucket = U256::from(3);
        } else {
            bucket = U256::from(4);
        }
        bucket
    }
}
"#;

#[test]
fn else_if_chain_picks_the_right_branch() {
    let builder = Builder;
    let classify = builder.selector("classify(uint256)");
    let caller = Address::from([0x11u8; 20]);

    let mut evm = Context::mainnet()
        .with_db(CacheDB::new(EmptyDB::default()))
        .build_mainnet();

    let deploy = evm
        .transact_commit(
            TxEnv::builder()
                .caller(caller)
                .kind(TxKind::Create)
                .data(Bytes::from(deploy_code(BRANCHY)))
                .gas_limit(3_000_000)
                .nonce(0)
                .build()
                .unwrap(),
        )
        .unwrap();
    assert!(deploy.is_success(), "deploy failed: {deploy:?}");
    let addr = deploy.created_address().unwrap();

    let mut classify_of = {
        let mut nonce = 1u64;
        move |x: u64| -> U256 {
            let mut data = classify.to_vec();
            data.extend_from_slice(&U256::from(x).to_be_bytes::<32>());
            let r: ExecutionResult = evm
                .transact_commit(
                    TxEnv::builder()
                        .caller(caller)
                        .kind(TxKind::Call(addr))
                        .data(Bytes::from(data))
                        .gas_limit(3_000_000)
                        .nonce(nonce)
                        .build()
                        .unwrap(),
                )
                .unwrap();
            nonce += 1;
            assert!(r.is_success(), "classify failed: {r:?}");
            U256::from_be_slice(&r.into_output().unwrap())
        }
    };

    assert_eq!(classify_of(0), U256::from(1));
    assert_eq!(classify_of(9), U256::from(1));

    assert_eq!(classify_of(10), U256::from(2));
    assert_eq!(classify_of(19), U256::from(2));

    assert_eq!(classify_of(20), U256::from(3));
    assert_eq!(classify_of(29), U256::from(3));

    assert_eq!(classify_of(30), U256::from(4));
    assert_eq!(classify_of(1000), U256::from(4));
}

const MATHY: &str = r#"
#[storage]
struct Mathy {
    a: U256,
    b: U256,
}

impl Mathy {
    #[constructor]
    fn construct(&mut self, a: U256, b: U256) {
        self.a = a;
        self.b = b;
    }

    #[external]
    fn sqrt(&self, y: U256) -> U256 {
        let mut z = y;
        let mut x = y / U256::from(2) + U256::from(1);
        while x < z {
            z = x;
            x = (y / x + x) / U256::from(2);
        }
        z
    }

    // div / mod / bit ops
    #[external]
    fn div(&self, x: U256, d: U256) -> U256 {
        x / d
    }

    #[external]
    fn rem(&self, x: U256, d: U256) -> U256 {
        x % d
    }

    #[external]
    fn shifted(&self, x: U256, n: U256) -> U256 {
        x << n
    }

    #[external]
    fn pair(&self) -> (U256, U256) {
        (self.a, self.b)
    }

    #[external]
    fn me(&self) -> Address {
        address_this()
    }
}
"#;

#[test]
fn math_control_flow_and_returns() {
    let builder = Builder;
    let caller = Address::from([0x11u8; 20]);

    let mut data = deploy_code(MATHY);
    data.extend_from_slice(&U256::from(11u64).to_be_bytes::<32>()); // a
    data.extend_from_slice(&U256::from(22u64).to_be_bytes::<32>()); // b

    let mut evm = Context::mainnet()
        .with_db(CacheDB::new(EmptyDB::default()))
        .build_mainnet();

    let deploy = evm
        .transact_commit(
            TxEnv::builder()
                .caller(caller)
                .kind(TxKind::Create)
                .data(Bytes::from(data))
                .gas_limit(5_000_000)
                .nonce(0)
                .build()
                .unwrap(),
        )
        .unwrap();
    assert!(deploy.is_success(), "deploy failed: {deploy:?}");
    let addr = deploy.created_address().unwrap();

    let mut send = |data: Vec<u8>, nonce: u64| -> ExecutionResult {
        evm.transact_commit(
            TxEnv::builder()
                .caller(caller)
                .kind(TxKind::Call(addr))
                .data(Bytes::from(data))
                .gas_limit(3_000_000)
                .nonce(nonce)
                .build()
                .unwrap(),
        )
        .unwrap()
    };

    let arg = |sel: [u8; 4], words: &[u64]| -> Vec<u8> {
        let mut d = sel.to_vec();
        for w in words {
            d.extend_from_slice(&U256::from(*w).to_be_bytes::<32>());
        }
        d
    };
    let word = |r: ExecutionResult| U256::from_be_slice(&r.into_output().unwrap());

    // sqrt: floor(sqrt(y)) via the while loop
    let sqrt = builder.selector("sqrt(uint256)");
    assert_eq!(word(send(arg(sqrt, &[144]), 1)), U256::from(12u64));
    assert_eq!(word(send(arg(sqrt, &[1_000_000]), 2)), U256::from(1000u64));
    assert_eq!(word(send(arg(sqrt, &[99]), 3)), U256::from(9u64)); // floor
    assert_eq!(word(send(arg(sqrt, &[0]), 4)), U256::from(0u64));
    assert_eq!(word(send(arg(sqrt, &[1]), 5)), U256::from(1u64));

    // div / rem / shift
    let div = builder.selector("div(uint256,uint256)");
    assert_eq!(word(send(arg(div, &[100, 7]), 6)), U256::from(14u64));
    let rem = builder.selector("rem(uint256,uint256)");
    assert_eq!(word(send(arg(rem, &[100, 7]), 7)), U256::from(2u64));
    let shifted = builder.selector("shifted(uint256,uint256)");
    assert_eq!(word(send(arg(shifted, &[1, 8]), 8)), U256::from(256u64));

    // multi-value return: (a, b) == (11, 22)
    let pair = builder.selector("pair()");
    let out = send(pair.to_vec(), 9).into_output().unwrap();
    assert_eq!(out.len(), 64);
    assert_eq!(U256::from_be_slice(&out[0..32]), U256::from(11u64));
    assert_eq!(U256::from_be_slice(&out[32..64]), U256::from(22u64));

    // address(this) == the contract's own address
    let me = builder.selector("me()");
    let out = send(me.to_vec(), 10).into_output().unwrap();
    assert_eq!(Address::from_slice(&out[12..32]), addr);
}

const CALLEE: &str = r#"
#[storage]
struct Callee {
    v: U256,
}

impl Callee {
    #[constructor]
    fn construct(&mut self, v: U256) {
        self.v = v;
    }

    #[external]
    fn value(&self) -> U256 {
        self.v
    }

    #[external]
    fn set_value(&mut self, new_val: U256) {
        self.v = new_val;
    }
}
"#;

const CALLER: &str = r#"
#[interface]
trait ICallee {
    fn value(&self) -> U256;
    fn set_value(&mut self, _new_val: U256);
}

#[storage]
struct Caller {}

impl Caller {
    #[external]
    fn read(&self, target: Address) -> U256 {
        ICallee::at(target).value()
    }

    #[external]
    fn set(&self, target: Address, val: U256) {
        ICallee::at(target).set_value(val);
    }
}
"#;

#[test]
fn caller_reads_callee_via_staticcall() {
    let builder = Builder;
    let read_sel = builder.selector("read(address)");

    let deployer = Address::from([0x11u8; 20]);
    let value = U256::from(42u64);

    let mut evm = Context::mainnet()
        .with_db(CacheDB::new(EmptyDB::default()))
        .build_mainnet();

    let mut deploy = |data: Vec<u8>, nonce: u64| -> Address {
        let r = evm
            .transact_commit(
                TxEnv::builder()
                    .caller(deployer)
                    .kind(TxKind::Create)
                    .data(Bytes::from(data))
                    .gas_limit(5_000_000)
                    .nonce(nonce)
                    .build()
                    .unwrap(),
            )
            .unwrap();
        assert!(r.is_success(), "deploy failed: {r:?}");
        r.created_address().unwrap()
    };

    // callee: constructor takes v = 42 (single static arg appended to creation code)
    let mut callee_data = deploy_code(CALLEE);
    callee_data.extend_from_slice(&value.to_be_bytes::<32>());
    let callee_addr = deploy(callee_data, 0);

    // caller: no constructor args
    let caller_addr = deploy(deploy_code(CALLER), 1);

    // caller.read(callee_addr) -> STATICCALLs callee.value() and returns it
    let mut calldata = read_sel.to_vec();
    calldata.extend_from_slice(&addr_word(callee_addr));

    let out = evm
        .transact_commit(
            TxEnv::builder()
                .caller(deployer)
                .kind(TxKind::Call(caller_addr))
                .data(Bytes::from(calldata))
                .gas_limit(3_000_000)
                .nonce(2)
                .build()
                .unwrap(),
        )
        .unwrap();
    assert!(out.is_success(), "read failed: {out:?}");

    let read_u256 = |r: ExecutionResult| U256::from_be_slice(&r.into_output().unwrap());
    assert_eq!(read_u256(out), value);
}

#[test]
fn caller_writes_callee_via_call() {
    let builder = Builder;
    let set_sel = builder.selector("set(address,uint256)");
    let read_sel = builder.selector("read(address)");

    let deployer = Address::from([0x11u8; 20]);
    let initial = U256::from(42u64);
    let updated = U256::from(99u64);

    let mut evm = Context::mainnet()
        .with_db(CacheDB::new(EmptyDB::default()))
        .build_mainnet();

    let mut deploy = |data: Vec<u8>, nonce: u64| -> Address {
        let r = evm
            .transact_commit(
                TxEnv::builder()
                    .caller(deployer)
                    .kind(TxKind::Create)
                    .data(Bytes::from(data))
                    .gas_limit(5_000_000)
                    .nonce(nonce)
                    .build()
                    .unwrap(),
            )
            .unwrap();
        assert!(r.is_success(), "deploy failed: {r:?}");
        r.created_address().unwrap()
    };

    let mut callee_data = deploy_code(CALLEE);
    callee_data.extend_from_slice(&initial.to_be_bytes::<32>());
    let callee_addr = deploy(callee_data, 0);
    let caller_addr = deploy(deploy_code(CALLER), 1);

    let mut call = |data: Vec<u8>, nonce: u64| -> ExecutionResult {
        evm.transact_commit(
            TxEnv::builder()
                .caller(deployer)
                .kind(TxKind::Call(caller_addr))
                .data(Bytes::from(data))
                .gas_limit(3_000_000)
                .nonce(nonce)
                .build()
                .unwrap(),
        )
        .unwrap()
    };

    let mut set_data = set_sel.to_vec();
    set_data.extend_from_slice(&addr_word(callee_addr));
    set_data.extend_from_slice(&updated.to_be_bytes::<32>());
    assert!(call(set_data, 2).is_success(), "set failed");

    let mut read_data = read_sel.to_vec();
    read_data.extend_from_slice(&addr_word(callee_addr));
    let out = call(read_data, 3);
    assert!(out.is_success(), "read failed: {out:?}");
    assert_eq!(U256::from_be_slice(&out.into_output().unwrap()), updated);
}


/// Deploys code and calls the contract with each piece of call data in turn. The first result is
/// that of the deployment.
fn run(code: Vec<u8>, calls: &[Vec<u8>]) -> Vec<ExecutionResult> {
    let caller = Address::from([0x77u8; 20]);
    let mut evm = Context::mainnet()
        .with_db(CacheDB::new(EmptyDB::default()))
        .build_mainnet();
    let deploy = evm
        .transact_commit(
            TxEnv::builder()
                .caller(caller)
                .kind(TxKind::Create)
                .data(code.into())
                .gas_limit(10_000_000)
                .nonce(0)
                .build()
                .unwrap(),
        )
        .unwrap();
    let address = deploy.created_address();
    let mut results = vec![deploy];
    for (i, data) in calls.iter().enumerate() {
        let result = evm
            .transact_commit(
                TxEnv::builder()
                    .caller(caller)
                    .kind(TxKind::Call(address.expect("no contract address")))
                    .data(Bytes::from(data.clone()))
                    .gas_limit(10_000_000)
                    .nonce(1 + i as u64)
                    .build()
                    .unwrap(),
            )
            .unwrap();
        results.push(result);
    }
    results
}

/// Call data: the selector of a signature, and words.
fn call_data(signature: &str, words: &[U256]) -> Vec<u8> {
    let mut data = Builder.selector(signature).to_vec();
    for word in words {
        data.extend_from_slice(&word.to_be_bytes::<32>());
    }
    data
}

/// Call data with a single string argument.
fn string_call(signature: &str, text: &[u8]) -> Vec<u8> {
    let mut data = call_data(signature, &[U256::from(0x20), U256::from(text.len())]);
    data.extend_from_slice(text);
    data.resize(4 + 64 + text.len().div_ceil(32) * 32, 0);
    data
}

/// The word that a call returned.
fn word_of(result: &ExecutionResult) -> U256 {
    assert!(result.is_success(), "call failed: {result:?}");
    U256::from_be_slice(result.output().unwrap())
}

fn assert_reverted(result: &ExecutionResult) {
    match result {
        ExecutionResult::Revert { output, .. } => assert!(output.is_empty()),
        other => panic!("expected a revert: {other:?}"),
    }
}

/// The faults of a contract, without their subjects.
fn fault_kinds(source: &str) -> Vec<ErrorKind> {
    match contract(&items(source)) {
        Ok(_) => Vec::new(),
        Err(errors) => errors.iter().map(|e| e.kind).collect(),
    }
}

/// The faults of a contract with one storage field of each kind and the given function body.
fn body_faults(body: &str) -> Vec<ErrorKind> {
    fault_kinds(&format!(
        "#[event] struct Ping {{ who: Address }}
         #[storage] struct S {{
             x: U256, m: Mapping<Address, U256>, a: Array<U256>,
             deep: Mapping<Address, Mapping<Address, U256>>,
         }}
         impl S {{
             #[external] fn f(&mut self, p: U256) {{ {body} }}
             fn two(&self, a: U256, b: U256) -> U256 {{ a + b }}
             fn nothing(&mut self) {{ }}
         }}"
    ))
}

const ERC20: &str = r#"
#[event]
struct Transfer {
    #[indexed]
    _from: Address,
    #[indexed]
    _to: Address,
    _value: U256,
}

#[event]
struct Approval {
    #[indexed]
    _owner: Address,
    #[indexed]
    _spender: Address,
    _value: U256,
}

#[storage]
struct ERC20 {
    balances: Mapping<Address, U256>,
    allowances: Mapping<Address, Mapping<Address, U256>>,
    total_supply: U256,
}

impl ERC20 {
    #[constructor]
    fn construct(&mut self, total_supply: U256) {
        self.total_supply = total_supply;
        self.balances.insert(msg_sender(), total_supply);
    }

    #[external]
    fn totalSupply(&self) -> U256 {
        self.total_supply
    }

    #[external]
    fn balanceOf(&self, who: Address) -> U256 {
        self.balances.get(who)
    }

    #[external]
    fn allowance(&self, owner: Address, spender: Address) -> U256 {
        self.allowances.get(owner).get(spender)
    }

    #[external]
    fn transfer(&mut self, to: Address, amount: U256) {
        let from = msg_sender();
        self._transfer(from, to, amount);
    }

    #[external]
    fn transferFrom(&mut self, from: Address, to: Address, amount: U256) {
        let spender = msg_sender();
        self._spend_allowance(from, spender, amount);
        self._transfer(from, to, amount);
    }

    #[external]
    fn approve(&mut self, spender: Address, value: U256) {
        let owner = msg_sender();
        self._approve(owner, spender, value, true);
    }

    fn _transfer(&mut self, from: Address, to: Address, amount: U256) {
        require(self.balances.get(from) >= amount);

        self.balances.insert(from, self.balances.get(from) - amount);
        self.balances.insert(to, self.balances.get(to) + amount);

        emit(Transfer {
            _from: from,
            _to: to,
            _value: amount,
        });
    }

    fn _spend_allowance(&mut self, owner: Address, spender: Address, value: U256) {
        let current_allowance = self.allowances.get(owner).get(spender);
        require(current_allowance >= value);

        self._approve(owner, spender, current_allowance - value, false);
    }

    fn _approve(&mut self, owner: Address, spender: Address, value: U256, emit_event: bool) {
        self.allowances.get(owner).insert(spender, value);

        if emit_event {
            emit(Approval {
                _owner: owner,
                _spender: spender,
                _value: value,
            });
        }
    }
}
"#;

#[test]
fn a_token_moves_and_spends() {
    let me = Address::from([0x77u8; 20]).into_word().into();
    let other = U256::from(0xBEEF);
    let n = U256::from;
    let mut code = deploy_code(ERC20);
    code.extend_from_slice(&n(1000).to_be_bytes::<32>());
    let results = run(
        code,
        &[
            call_data("totalSupply()", &[]),
            call_data("balanceOf(address)", &[me]),
            call_data("transfer(address,uint256)", &[other, n(300)]),
            call_data("balanceOf(address)", &[me]),
            call_data("balanceOf(address)", &[other]),
            call_data("transfer(address,uint256)", &[other, n(701)]),
            call_data("approve(address,uint256)", &[me, n(50)]),
            call_data("allowance(address,address)", &[me, me]),
            call_data("transferFrom(address,address,uint256)", &[me, other, n(20)]),
            call_data("allowance(address,address)", &[me, me]),
            call_data("transferFrom(address,address,uint256)", &[me, other, n(31)]),
            call_data("balanceOf(address)", &[other]),
        ],
    );
    assert!(results[0].is_success());
    assert_eq!(word_of(&results[1]), n(1000));
    assert_eq!(word_of(&results[2]), n(1000));
    assert!(results[3].is_success());
    assert!(results[3].output().unwrap().is_empty());
    let log = &results[3].logs()[0];
    assert_eq!(log.data.topics(), &[keccak256(b"Transfer(address,address,uint256)")]);
    assert_eq!(log.data.data.len(), 96);
    assert_eq!(U256::from_be_slice(&log.data.data[..32]), me);
    assert_eq!(U256::from_be_slice(&log.data.data[32..64]), other);
    assert_eq!(U256::from_be_slice(&log.data.data[64..]), n(300));
    assert_eq!(word_of(&results[4]), n(700));
    assert_eq!(word_of(&results[5]), n(300));
    assert_reverted(&results[6]);
    assert_eq!(results[7].logs().len(), 1);
    assert_eq!(word_of(&results[8]), n(50));
    assert_eq!(results[9].logs().len(), 1);
    assert_eq!(word_of(&results[10]), n(30));
    assert_reverted(&results[11]);
    assert_eq!(word_of(&results[12]), n(320));
}

#[test]
fn the_interface_of_a_token() {
    let expansion = contract(&items(ERC20)).unwrap();
    let word = |name: &str, ty: &str| {
        format!("{{\"name\":\"{name}\",\"type\":\"{ty}\",\"internalType\":\"{ty}\"}}")
    };
    let field = |name: &str, ty: &str, indexed: bool| {
        format!(
            "{{\"name\":\"{name}\",\"type\":\"{ty}\",\"indexed\":{indexed},\
             \"internalType\":\"{ty}\"}}"
        )
    };
    let function = |name: &str, inputs: String, outputs: String, mutability: &str| {
        format!(
            "{{\"type\":\"function\",\"name\":\"{name}\",\"inputs\":[{inputs}],\
             \"outputs\":[{outputs}],\"stateMutability\":\"{mutability}\"}}"
        )
    };
    let event = |name: &str, a: &str, b: &str| {
        format!(
            "{{\"type\":\"event\",\"name\":\"{name}\",\"inputs\":[{},{},{}],\
             \"anonymous\":false}}",
            field(a, "address", true),
            field(b, "address", true),
            field("_value", "uint256", false),
        )
    };
    let address = |name: &str| word(name, "address");
    let number = |name: &str| word(name, "uint256");
    let expected = [
        function("totalSupply", String::new(), number(""), "view"),
        function("balanceOf", address("who"), number(""), "view"),
        function(
            "allowance",
            format!("{},{}", address("owner"), address("spender")),
            number(""),
            "view",
        ),
        function(
            "transfer",
            format!("{},{}", address("to"), number("amount")),
            String::new(),
            "nonpayable",
        ),
        function(
            "transferFrom",
            format!("{},{},{}", address("from"), address("to"), number("amount")),
            String::new(),
            "nonpayable",
        ),
        function(
            "approve",
            format!("{},{}", address("spender"), number("value")),
            String::new(),
            "nonpayable",
        ),
        event("Approval", "_owner", "_spender"),
        event("Transfer", "_from", "_to"),
        format!(
            "{{\"type\":\"constructor\",\"inputs\":[{}],\"stateMutability\":\"nonpayable\"}}",
            number("total_supply")
        ),
    ];
    assert_eq!(expansion.abi_json, format!("[{}]", expected.join(",")));
}

#[test]
fn an_empty_module_compiles() {
    let expansion = contract(&Vec::new()).unwrap();
    assert_eq!(expansion.abi_json, "[]");
    assert_eq!(
        expansion.deploy_code,
        vec![
            0x61, 0x00, 0x0b, 0x61, 0x00, 0x0f, 0x60, 0x00, 0x39, 0x61, 0x00, 0x0b, 0x60, 0x00,
            0xf3, 0x60, 0x00, 0x35, 0x60, 0xe0, 0x1c, 0x60, 0x00, 0x60, 0x00, 0xfd,
        ]
    );
}

#[test]
fn the_code_of_a_small_contract() {
    let code = deploy_code("impl S { #[external] fn one(&self) -> U256 { 1 } }");
    let selector = Builder.selector("one()");
    let mut expected = vec![
        0x61, 0x00, 0x22, 0x61, 0x00, 0x0f, 0x60, 0x00, 0x39, 0x61, 0x00, 0x22, 0x60, 0x00, 0xf3,
        0x60, 0x00, 0x35, 0x60, 0xe0, 0x1c, 0x80, 0x63,
    ];
    expected.extend_from_slice(&selector);
    expected.extend_from_slice(&[
        0x14, 0x61, 0x00, 0x16, 0x57, 0x60, 0x00, 0x60, 0x00, 0xfd, 0x5b, 0x50, 0x60, 0x01, 0x60,
        0x00, 0x52, 0x60, 0x20, 0x60, 0x00, 0xf3,
    ]);
    assert_eq!(code, expected);
}

#[test]
fn calls_that_name_no_function_revert() {
    let results = run(
        deploy_code(COUNTER),
        &[
            call_data("missing()", &[]),
            Vec::new(),
            Builder.selector("get()")[..3].to_vec(),
            call_data("get()", &[]),
        ],
    );
    assert_reverted(&results[1]);
    assert_reverted(&results[2]);
    assert_reverted(&results[3]);
    assert_eq!(word_of(&results[4]), U256::ZERO);
}

#[test]
fn storage_slots_follow_the_order_of_declaration() {
    let code = deploy_code(
        "#[storage] struct A { first: U256, second: U256 }
         #[storage] struct B { third: U256 }
         impl A { #[external] fn f(&mut self) {
             self.third = 9; self.first = 7; self.second = 8;
         } }",
    );
    // PUSH1 9, PUSH1 2, SSTORE; PUSH1 7, PUSH0, SSTORE; PUSH1 8, PUSH1 1, SSTORE; STOP
    let body = [
        0x60, 0x09, 0x60, 0x02, 0x55, 0x60, 0x07, 0x5f, 0x55, 0x60, 0x08, 0x60, 0x01, 0x55, 0x00,
    ];
    assert_eq!(&code[code.len() - body.len()..], &body);
}

#[test]
fn events_are_listed_by_name() {
    let expansion = contract(&items(
        "#[event] struct Zeta { a: U256 }
         #[event] struct Alpha { b: bool }",
    ))
    .unwrap();
    assert_eq!(
        expansion.abi_json,
        "[{\"type\":\"event\",\"name\":\"Alpha\",\"inputs\":[{\"name\":\"b\",\"type\":\"bool\",\
         \"indexed\":false,\"internalType\":\"bool\"}],\"anonymous\":false},\
         {\"type\":\"event\",\"name\":\"Zeta\",\"inputs\":[{\"name\":\"a\",\"type\":\"uint256\",\
         \"indexed\":false,\"internalType\":\"uint256\"}],\"anonymous\":false}]"
    );
}

const WORDS: &str = r#"
#[storage]
struct Words {
    kept: ShortString,
    flag: bool,
}

impl Words {
    #[external]
    fn empty(&self) -> ShortString {
        ""
    }

    #[external]
    fn longest(&self) -> ShortString {
        "0123456789012345678901234567890"
    }

    #[external]
    fn echo(&self, text: ShortString) -> ShortString {
        text
    }

    #[external]
    fn keep(&mut self, text: ShortString) {
        self.kept = text;
    }

    #[external]
    fn kept(&self) -> ShortString {
        self.kept
    }

    #[external]
    fn flip(&mut self, on: bool) {
        if on { self.flag = true; } else { self.flag = false; }
    }

    #[external]
    fn flag(&self) -> bool {
        self.flag
    }
}
"#;

#[test]
fn short_strings_come_back_as_they_went_in() {
    let long = b"abcdefghijklmnopqrstuvwxyz01234";
    assert_eq!(long.len(), 31);
    let results = run(
        deploy_code(WORDS),
        &[
            call_data("empty()", &[]),
            call_data("longest()", &[]),
            string_call("echo(string)", long),
            string_call("echo(string)", b""),
            string_call("keep(string)", b"kept"),
            call_data("kept()", &[]),
            string_call("echo(string)", &[b'x'; 32]),
        ],
    );
    assert_eq!(read_string(results[1].clone()), "");
    assert_eq!(read_string(results[2].clone()), "0123456789012345678901234567890");
    assert_eq!(read_string(results[3].clone()).as_bytes(), long);
    assert_eq!(results[3].output().unwrap().len(), 96);
    assert_eq!(read_string(results[4].clone()), "");
    assert!(results[5].is_success());
    assert_eq!(read_string(results[6].clone()), "kept");
    assert_reverted(&results[7]);
}

#[test]
fn booleans_are_stored() {
    let results = run(
        deploy_code(WORDS),
        &[
            call_data("flip(bool)", &[U256::from(1)]),
            call_data("flag()", &[]),
            call_data("flip(bool)", &[U256::ZERO]),
            call_data("flag()", &[]),
        ],
    );
    assert_eq!(word_of(&results[2]), U256::from(1));
    assert_eq!(word_of(&results[4]), U256::ZERO);
}

const VARIABLES: &str = r#"
#[event]
struct Four { a: U256, b: U256, c: U256, d: U256 }

#[event]
struct Five { a: U256, b: U256, c: U256, d: U256, e: U256 }

#[storage]
struct Variables {
    n: U256,
}

impl Variables {
    #[external]
    fn nested(&mut self, p: U256) -> U256 {
        let a = p + 1;
        let b = self.helper(a);
        self.helper(b);
        let p = 100;
        a + b * 1000 + p * 1000000
    }

    fn helper(&mut self, x: U256) -> U256 {
        let a = x * 2;
        let b = a + 1;
        self.n = self.n + 1;
        b
    }

    #[external]
    fn count(&self) -> U256 {
        self.n
    }

    #[external]
    fn looped(&self, n: U256) -> U256 {
        let mut i = 0;
        let mut sum = 0;
        while i < n {
            i = i + 1;
            sum = sum + i;
        }
        sum
    }

    #[external]
    fn small_event(&self) -> U256 {
        let kept = 42;
        emit(Four { a: 1, b: 2, c: 3, d: 4 });
        kept
    }

    #[external]
    fn large_event(&self) -> U256 {
        let kept = 42;
        emit(Five { a: 1, b: 2, c: 3, d: 4, e: 5 });
        kept
    }

    #[external]
    fn less(&self, a: U256, b: U256) -> U256 {
        a - b
    }

    #[external]
    fn over(&self, a: U256, b: U256) -> U256 {
        a / b
    }

    #[external]
    fn compare(&self, a: U256, b: U256) -> U256 {
        let mut r = 0;
        if a < b { r = r + 1; }
        if a > b { r = r + 10; }
        if a <= b { r = r + 100; }
        if a >= b { r = r + 1000; }
        if a == b { r = r + 10000; }
        if a != b { r = r + 100000; }
        r
    }

    #[external]
    fn now(&self) -> U256 {
        block_timestamp()
    }
}
"#;

#[test]
fn variables_keep_apart() {
    let n = U256::from;
    let results = run(
        deploy_code(VARIABLES),
        &[
            call_data("nested(uint256)", &[n(4)]),
            call_data("count()", &[]),
            call_data("looped(uint256)", &[n(10)]),
            call_data("looped(uint256)", &[n(0)]),
        ],
    );
    assert_eq!(word_of(&results[1]), n(5 + 11 * 1000 + 100 * 1000000));
    assert_eq!(word_of(&results[2]), n(2));
    assert_eq!(word_of(&results[3]), n(55));
    assert_eq!(word_of(&results[4]), n(0));
}

#[test]
fn event_data_leaves_variables_alone() {
    let results = run(
        deploy_code(VARIABLES),
        &[call_data("small_event()", &[]), call_data("large_event()", &[])],
    );
    assert_eq!(word_of(&results[1]), U256::from(42));
    assert_eq!(results[1].logs()[0].data.data.len(), 128);
    assert_eq!(word_of(&results[2]), U256::from(42));
    assert_eq!(results[2].logs()[0].data.data.len(), 160);
    for (i, word) in results[2].logs()[0].data.data.chunks(32).enumerate() {
        assert_eq!(U256::from_be_slice(word), U256::from(i + 1));
    }
}

#[test]
fn an_internal_call_leaves_the_variables_of_its_caller_alone() {
    let source = "
        #[event] struct Six { a: U256, b: U256, c: U256, d: U256, e: U256, f: U256 }
        #[storage] struct S { x: U256 }
        impl S {
            #[external] fn run(&mut self, p: U256) -> U256 {
                let a = 1;
                let b = self.callee(p + 10, a);
                a + b * 100 + p * 100000
            }
            fn callee(&mut self, a: U256, p: U256) -> U256 {
                let mut c = a;
                let b = 7;
                c = c + p;
                a = 99;
                emit(Six { a: a, b: b, c: c, d: p, e: 5, f: 6 });
                c + b
            }
        }";
    let results = run(deploy_code(source), &[call_data("run(uint256)", &[U256::from(3)])]);
    assert_eq!(word_of(&results[1]), U256::from(1 + 21 * 100 + 3 * 100000));
    let words: Vec<U256> =
        results[1].logs()[0].data.data.chunks(32).map(U256::from_be_slice).collect();
    assert_eq!(words, [99u64, 7, 14, 1, 5, 6].map(U256::from));
}

#[test]
fn what_was_written_reads_back() {
    let source = "
        #[storage] struct S {
            m: Mapping<Address, Mapping<Address, U256>>,
            a: Array<U256>,
        }
        impl S {
            #[external] fn inserted(&mut self, o: Address, s: Address, v: U256) -> U256 {
                self.m.get(o).insert(s, self.bump(v));
                self.m.get(o).get(s) + self.m.get(s).get(o)
            }
            #[external] fn set(&mut self, i: U256, v: U256) -> U256 {
                self.a.push(1);
                self.a.push(2);
                self.a.set(i, self.bump(v));
                self.a.get(i) + self.a.len() * 1000
            }
            #[external] fn assigned(&self, v: U256) -> U256 {
                let mut x = 1;
                let y = 2;
                x = self.bump(v) + x;
                x + y * 1000
            }
            fn bump(&self, v: U256) -> U256 {
                let x = v + 1;
                x
            }
        }";
    let n = U256::from;
    let results = run(
        deploy_code(source),
        &[
            call_data("inserted(address,address,uint256)", &[n(1), n(2), n(40)]),
            call_data("set(uint256,uint256)", &[n(1), n(6)]),
            call_data("assigned(uint256)", &[n(8)]),
        ],
    );
    assert_eq!(word_of(&results[1]), n(41));
    assert_eq!(word_of(&results[2]), n(2007));
    assert_eq!(word_of(&results[3]), n(2010));
}

#[test]
fn arithmetic_wraps_and_division_by_zero_is_zero() {
    let n = U256::from;
    let results = run(
        deploy_code(VARIABLES),
        &[
            call_data("less(uint256,uint256)", &[n(1), n(2)]),
            call_data("over(uint256,uint256)", &[n(7), n(0)]),
            call_data("over(uint256,uint256)", &[n(7), n(2)]),
            call_data("compare(uint256,uint256)", &[n(1), n(2)]),
            call_data("compare(uint256,uint256)", &[n(2), n(1)]),
            call_data("compare(uint256,uint256)", &[n(2), n(2)]),
            call_data("now()", &[]),
        ],
    );
    assert_eq!(word_of(&results[1]), U256::MAX);
    assert_eq!(word_of(&results[2]), n(0));
    assert_eq!(word_of(&results[3]), n(3));
    assert_eq!(word_of(&results[4]), n(100101));
    assert_eq!(word_of(&results[5]), n(101010));
    assert_eq!(word_of(&results[6]), n(11100));
    assert_eq!(word_of(&results[7]), n(1));
}

#[test]
fn a_constructor_can_refuse() {
    let source = "#[storage] struct S { x: U256 }
         impl S {
             #[constructor] fn new(&mut self, x: U256) { require(x > 5); self.x = x; }
             #[external] fn x(&self) -> U256 { self.x }
         }";
    let mut code = deploy_code(source);
    code.extend_from_slice(&U256::from(5).to_be_bytes::<32>());
    assert_reverted(&run(code, &[])[0]);
    let mut code = deploy_code(source);
    code.extend_from_slice(&U256::from(6).to_be_bytes::<32>());
    let results = run(code, &[call_data("x()", &[])]);
    assert_eq!(word_of(&results[1]), U256::from(6));
}

#[test]
fn recursion_is_refused() {
    assert_eq!(
        fault_kinds(
            "impl S {
                 #[external] fn f(&self) { self.a(); }
                 fn a(&self) { self.a(); }
             }"
        ),
        vec![ErrorKind::RecursiveCall]
    );
    assert_eq!(
        fault_kinds(
            "impl S {
                 #[external] fn f(&self) { self.a(); }
                 fn a(&self) { self.b(); }
                 fn b(&self) { self.a(); }
             }"
        ),
        vec![ErrorKind::RecursiveCall]
    );
    assert_eq!(
        fault_kinds(
            "impl S {
                 #[external] fn f(&self) { self.a(); self.a(); }
                 fn a(&self) { self.b(); self.b(); }
                 fn b(&self) { }
             }"
        ),
        Vec::new()
    );
}

#[test]
fn faults_in_bodies() {
    let cases = [
        ("g!();", ErrorKind::UnsupportedStatement),
        ("loop {}", ErrorKind::ValueAsStatement),
        ("p;", ErrorKind::ValueAsStatement),
        ("self.nothing(1);", ErrorKind::WrongArgumentCount),
        ("p = 1;", ErrorKind::AssignmentTarget),
        ("self.m.insert(p);", ErrorKind::InsertArguments),
        ("self.a.get(p).insert(p, p);", ErrorKind::InsertReceiver),
        ("self.m.set(p, p);", ErrorKind::SetReceiver),
        ("self.a.set(p);", ErrorKind::SetArguments),
        ("self.x.push(p);", ErrorKind::PushReceiver),
        ("self.a.push(p, p);", ErrorKind::PushArguments),
        ("emit(p);", ErrorKind::EmitArgument),
        ("emit(Pong { who: p });", ErrorKind::UnknownEvent),
        ("emit(Ping { other: p });", ErrorKind::MissingEventField),
        ("let y;", ErrorKind::LocalWithoutValue),
        ("let y = [1];", ErrorKind::UnsupportedExpression),
        ("let y = self.deep.get(p);", ErrorKind::GetNotScalar),
        ("let y = self.m.get(p, p);", ErrorKind::GetArguments),
        ("let y = self.x.get(p);", ErrorKind::GetReceiver),
        ("let y = p.get(p);", ErrorKind::StorageAccess),
        ("self.0 = p;", ErrorKind::TupleField),
        ("self.missing = p;", ErrorKind::UnknownField),
        ("p.push(p);", ErrorKind::NotSelfField),
        ("let y = self.m.len();", ErrorKind::LenReceiver),
        ("let y = p & p;", ErrorKind::UnsupportedOperator),
        ("let y = q;", ErrorKind::UnknownIdentifier),
        ("let y = g(p);", ErrorKind::UnsupportedCall),
        ("require();", ErrorKind::MissingArgument),
        ("let y = 18446744073709551616;", ErrorKind::LiteralTooLarge),
        (
            "let y = \"01234567890123456789012345678901\";",
            ErrorKind::ShortStringTooLong,
        ),
        ("let (a, b) = p;", ErrorKind::LetPattern),
    ];
    for (body, kind) in cases {
        assert_eq!(body_faults(body), vec![kind], "{body}");
    }
    assert_eq!(body_faults("let y = self.two(p, 1); self.x = y;"), Vec::new());
}

#[test]
fn faults_in_declarations() {
    let cases = [
        ("#[storage] struct S(U256);", ErrorKind::TupleField),
        ("#[storage] struct S { x: (U256, U256) }", ErrorKind::FieldKindType),
        (
            "impl S { #[external] fn f(&self, (a, b): U256) { } }",
            ErrorKind::ArgumentPattern,
        ),
        ("impl S { #[external] fn f(&self, a: [U256; 2]) { } }", ErrorKind::UnsupportedType),
        ("impl S { #[external] fn f(&self, a: u8) { } }", ErrorKind::UnsupportedParameterType),
        (
            "impl S { #[constructor] fn a(&mut self) { } #[constructor] fn b(&mut self) { } }",
            ErrorKind::SecondConstructor,
        ),
        (
            "impl S { #[external] fn f(&self) -> (U256, ShortString) { (1, \"a\") } }",
            ErrorKind::TupleWords,
        ),
        (
            "#[interface] trait I { fn g(&self); }
             impl S { #[external] fn f(&self, a: Address) { I::at(a).h(); } }",
            ErrorKind::UnknownInterfaceMethod,
        ),
        (
            "#[interface] trait I { fn g(&self, s: ShortString); }
             impl S { #[external] fn f(&self, a: Address) { I::at(a).g(a); } }",
            ErrorKind::InterfaceWords,
        ),
        (
            "#[interface] trait I { fn g(&self); }
             impl S { #[external] fn f(&self, a: Address) { let x = I::at(a).g(); } }",
            ErrorKind::InterfaceVoid,
        ),
    ];
    for (source, kind) in cases {
        assert_eq!(fault_kinds(source), vec![kind], "{source}");
    }
}

#[test]
fn all_faults_of_the_bodies_are_reported() {
    let errors = contract(&items(
        "impl S {
             #[external] fn f(&self) { let y = a; let z = b; }
             #[constructor] fn new(&mut self) { let y = c; }
         }",
    ))
    .err()
    .unwrap();
    let messages: Vec<String> = errors.iter().map(|e| e.message()).collect();
    assert_eq!(
        messages,
        ["unknown identifier c", "unknown identifier a", "unknown identifier b"]
    );
}

#[test]
fn a_call_that_reverts_leaves_nothing_behind() {
    let source = "
        #[event] struct Stored { value: U256 }
        #[storage] struct S { x: U256 }
        impl S {
            #[external] fn put(&mut self, v: U256) {
                self.x = v;
                emit(Stored { value: v });
                require(v < 10);
            }
            #[external] fn get(&self) -> U256 { self.x }
        }";
    let results = run(
        deploy_code(source),
        &[
            call_data("put(uint256)", &[U256::from(7)]),
            call_data("put(uint256)", &[U256::from(70)]),
            call_data("get()", &[]),
            call_data("missing()", &[]),
            call_data("get()", &[]),
        ],
    );
    assert!(results[1].is_success());
    assert_eq!(results[1].logs().len(), 1);
    assert_reverted(&results[2]);
    assert!(results[2].logs().is_empty());
    assert_eq!(word_of(&results[3]), U256::from(7));
    assert_reverted(&results[4]);
    assert!(results[4].logs().is_empty());
    assert_eq!(word_of(&results[5]), U256::from(7));
}

#[test]
fn a_constructor_that_reverts_deploys_nothing() {
    let source = "
        #[storage] struct S { x: U256 }
        impl S {
            #[constructor] fn new(&mut self, v: U256) {
                self.x = v;
                require(v < 10);
            }
            #[external] fn get(&self) -> U256 { self.x }
        }";
    for (v, deployed) in [(7u64, true), (70, false)] {
        let mut code = deploy_code(source);
        code.extend_from_slice(&U256::from(v).to_be_bytes::<32>());
        if deployed {
            let results = run(code, &[call_data("get()", &[])]);
            assert_eq!(word_of(&results[1]), U256::from(v));
        } else {
            assert_reverted(&run(code, &[])[0]);
        }
    }
}

#[test]
fn code_that_is_too_large_is_refused() {
    let mut body = String::new();
    for _ in 0..12_000 {
        body.push_str("self.x = self.x + 1;");
    }
    assert_eq!(body_faults(&body), vec![ErrorKind::CodeTooLarge]);
}
