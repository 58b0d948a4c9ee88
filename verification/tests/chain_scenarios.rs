use minichain::blockchain::Blockchain;
use minichain::errors::BcError;
use minichain::transaction::Transaction;
use minichain::utxoset::UTXOSet;
use minichain::wallets::Wallets;

fn err_of<T, E>(r: Result<T, E>) -> E {
    match r {
        Err(e) => e,
        Ok(_) => panic!("expected an error"),
    }
}

fn new_address(wallets: &mut Wallets) -> String {
    wallets.create_wallet().unwrap()
}

#[test]
fn create_blockchain_makes_a_genesis_with_the_subsidy() {
    let mut wallets = Wallets::new();
    let a = new_address(&mut wallets);
    let bc = Blockchain::create_blockchain(&a, false).unwrap();
    assert_eq!(bc.get_block_count(), 1);
    assert_eq!(bc.get_best_height(), 0);
    let genesis = bc.block_at(0);
    assert_eq!(genesis.height, 0);
    assert_eq!(genesis.prev_block_hash, "");
    assert!(genesis.transactions[0].is_coinbase());
    let mut utxo = UTXOSet::new(bc);
    utxo.reindex().unwrap();
    assert_eq!(utxo.get_balance(&a).unwrap(), 10);
}

#[test]
fn send_with_mining_moves_value_and_appends_a_block() {
    let mut wallets = Wallets::new();
    let a = new_address(&mut wallets);
    let b = new_address(&mut wallets);
    let bc = Blockchain::create_blockchain(&a, false).unwrap();
    let mut utxo = UTXOSet::new(bc);
    utxo.reindex().unwrap();
    let wallet_a = wallets.get_wallet(&a).unwrap();
    let tx = Transaction::new_utxo_checked(wallet_a, &b, 4, &utxo).unwrap();
    utxo.blockchain.mine_block(vec![tx]).unwrap();
    utxo.reindex().unwrap();
    assert_eq!(utxo.blockchain.get_block_count(), 2);
    assert_eq!(utxo.get_balance(&a).unwrap(), 6);
    assert_eq!(utxo.get_balance(&b).unwrap(), 4);

    // Asking for more than the remaining balance names what is there.
    let err = err_of(Transaction::new_utxo_checked(wallet_a, &b, 100, &utxo));
    assert_eq!(err, BcError::InsufficientFunds { have: 6, need: 100 });
    assert_eq!(utxo.blockchain.get_block_count(), 2);
}

#[test]
fn create_blockchain_refuses_an_existing_store() {
    let mut wallets = Wallets::new();
    let a = new_address(&mut wallets);
    let err = err_of(Blockchain::create_blockchain(&a, true));
    assert_eq!(err, BcError::AlreadyExists);
}

#[test]
fn tampered_nonce_fails_validation() {
    let mut wallets = Wallets::new();
    let a = new_address(&mut wallets);
    let b = new_address(&mut wallets);
    let bc = Blockchain::create_blockchain(&a, false).unwrap();
    let mut utxo = UTXOSet::new(bc);
    utxo.reindex().unwrap();
    let wallet_a = wallets.get_wallet(&a).unwrap();
    let tx = Transaction::new_utxo_checked(wallet_a, &b, 4, &utxo).unwrap();
    utxo.blockchain.mine_block(vec![tx]).unwrap();

    let stored = utxo.blockchain.block_at(1).serialize();
    let mut tampered = minichain::block::Block::deserialize(&stored).unwrap();
    tampered.nonce = tampered.nonce.wrapping_add(1);
    let verdict = err_of(tampered.validate(utxo.blockchain.block_at(0)));
    assert!(verdict == BcError::HashMismatch || verdict == BcError::InvalidProofOfWork);

    // The untampered block still validates.
    assert_eq!(
        utxo.blockchain.block_at(1).validate(utxo.blockchain.block_at(0)).unwrap(),
        true
    );
}

#[test]
fn balance_of_unknown_address_is_zero() {
    let mut wallets = Wallets::new();
    let a = new_address(&mut wallets);
    let c = new_address(&mut wallets);
    let bc = Blockchain::create_blockchain(&a, false).unwrap();
    let mut utxo = UTXOSet::new(bc);
    utxo.reindex().unwrap();
    assert_eq!(utxo.get_balance(&c).unwrap(), 0);
}

#[test]
fn send_of_zero_creates_a_zero_value_output_and_no_change() {
    let mut wallets = Wallets::new();
    let a = new_address(&mut wallets);
    let b = new_address(&mut wallets);
    let bc = Blockchain::create_blockchain(&a, false).unwrap();
    let mut utxo = UTXOSet::new(bc);
    utxo.reindex().unwrap();
    let wallet_a = wallets.get_wallet(&a).unwrap();
    let tx = Transaction::new_utxo_checked(wallet_a, &b, 0, &utxo).unwrap();
    assert_eq!(tx.vout.len(), 1);
    assert_eq!(tx.vout[0].value, 0);
    assert!(tx.vin.is_empty());
}

#[test]
fn open_rebuilds_and_revalidates_a_stored_chain() {
    let mut wallets = Wallets::new();
    let a = new_address(&mut wallets);
    let b = new_address(&mut wallets);
    let bc = Blockchain::create_blockchain(&a, false).unwrap();
    let mut utxo = UTXOSet::new(bc);
    utxo.reindex().unwrap();
    let wallet_a = wallets.get_wallet(&a).unwrap();
    let tx = Transaction::new_utxo_checked(wallet_a, &b, 4, &utxo).unwrap();
    utxo.blockchain.mine_block(vec![tx]).unwrap();

    // Store and reload, tip first, as a store iteration would yield them.
    let stored: Vec<Vec<u8>> =
        utxo.blockchain.blocks().iter().map(|blk| blk.serialize()).collect();
    let mut tip_first: Vec<minichain::block::Block> = Vec::new();
    for bytes in stored.iter().rev() {
        tip_first.push(minichain::block::Block::deserialize(bytes).unwrap());
    }
    let reopened = Blockchain::open(tip_first).unwrap();
    assert_eq!(reopened.get_block_count(), 2);
    assert_eq!(reopened.get_best_height(), 1);
    let mut utxo2 = UTXOSet::new(reopened);
    utxo2.reindex().unwrap();
    assert_eq!(utxo2.get_balance(&a).unwrap(), 6);
    assert_eq!(utxo2.get_balance(&b).unwrap(), 4);
}

#[test]
fn reindex_is_deterministic() {
    let mut wallets = Wallets::new();
    let a = new_address(&mut wallets);
    let bc = Blockchain::create_blockchain(&a, false).unwrap();
    let mut utxo = UTXOSet::new(bc);
    let n1 = utxo.reindex().unwrap();
    let first: Vec<(String, Vec<(u32, i32, Vec<u8>)>)> = utxo
        .entries()
        .iter()
        .map(|e| {
            (
                e.txid.clone(),
                e.outputs
                    .outputs
                    .iter()
                    .map(|o| (o.index, o.output.value, o.output.pub_key_hash.clone()))
                    .collect(),
            )
        })
        .collect();
    let n2 = utxo.reindex().unwrap();
    let second: Vec<(String, Vec<(u32, i32, Vec<u8>)>)> = utxo
        .entries()
        .iter()
        .map(|e| {
            (
                e.txid.clone(),
                e.outputs
                    .outputs
                    .iter()
                    .map(|o| (o.index, o.output.value, o.output.pub_key_hash.clone()))
                    .collect(),
            )
        })
        .collect();
    assert_eq!(n1, n2);
    assert_eq!(first, second);
}

#[test]
fn open_of_an_empty_store_reports_not_initialised() {
    assert_eq!(err_of(Blockchain::open(Vec::new())), BcError::NotInitialised);
}

#[test]
fn get_block_by_hash_and_not_found() {
    let mut wallets = Wallets::new();
    let a = new_address(&mut wallets);
    let bc = Blockchain::create_blockchain(&a, false).unwrap();
    let genesis_hash = bc.block_at(0).hash.clone();
    assert_eq!(bc.get_block(&genesis_hash).unwrap().height, 0);
    assert_eq!(err_of(bc.get_block("no such hash")), BcError::NotFound);
    let hashes = bc.get_block_hashes();
    assert_eq!(hashes, vec![genesis_hash]);
}

#[test]
fn mining_refuses_inadmissible_transactions() {
    let mut wallets = Wallets::new();
    let a = new_address(&mut wallets);
    let bc = Blockchain::create_blockchain(&a, false).unwrap();
    let mut utxo = UTXOSet::new(bc);
    utxo.reindex().unwrap();

    // An empty transaction list is not a block.
    let err = err_of(utxo.blockchain.mine_block(Vec::new()));
    assert_eq!(err, BcError::SerializationFailure);

    // A transaction whose id is not its content hash is refused.
    let mut tx = Transaction::new_coinbase(a.clone(), String::new()).unwrap();
    tx.id = "00".to_string();
    let err = err_of(utxo.blockchain.mine_block(vec![tx]));
    assert_eq!(err, BcError::HashMismatch);
    assert_eq!(utxo.blockchain.get_block_count(), 1);
}

#[test]
fn validate_names_the_first_broken_link() {
    let mut wallets = Wallets::new();
    let a = new_address(&mut wallets);
    let bc = Blockchain::create_blockchain(&a, false).unwrap();
    let genesis = bc.block_at(0);
    let cb = Transaction::new_coinbase(a.clone(), String::new()).unwrap();

    // Wrong height, correct predecessor hash.
    let wrong_height = minichain::block::Block::mine_block_at(
        vec![Transaction::new_coinbase(a.clone(), String::new()).unwrap()],
        genesis.hash.clone(),
        5,
        minichain::TARGET_BITS,
        genesis.timestamp + 1,
    )
    .unwrap();
    assert_eq!(err_of(wrong_height.validate(genesis)), BcError::HeightMismatch);

    // Timestamp not after the predecessor's.
    let stale = minichain::block::Block::mine_block_at(
        vec![cb],
        genesis.hash.clone(),
        1,
        minichain::TARGET_BITS,
        genesis.timestamp,
    )
    .unwrap();
    assert_eq!(err_of(stale.validate(genesis)), BcError::InvalidTimestamp);

    // A block does not follow itself.
    let stored = genesis.serialize();
    let copy = minichain::block::Block::deserialize(&stored).unwrap();
    assert_eq!(err_of(copy.validate(genesis)), BcError::PrevHashMismatch);
}

#[test]
fn difficulty_boundaries_pin_the_target() {
    let block = minichain::block::Block {
        timestamp: 0,
        transactions: Vec::new(),
        prev_block_hash: String::new(),
        hash: String::new(),
        nonce: 0,
        height: 0,
        difficulty: 0,
    };
    assert_eq!(block.calculate_target(), vec![0xffu8; 32]);
    let zeros = "0".repeat(64);
    assert!(block.is_valid_proof(&zeros));

    let hard = minichain::block::Block { difficulty: 256, ..block };
    assert_eq!(hard.calculate_target(), vec![0u8; 32]);
    assert!(!hard.is_valid_proof(&zeros));
    assert!(!hard.is_valid_proof(&"f".repeat(64)));

    let sixteen = minichain::block::Block { difficulty: 16, ..hard };
    let mut target = vec![0xffu8; 32];
    target[0] = 0;
    target[1] = 0;
    assert_eq!(sixteen.calculate_target(), target);
    assert!(!sixteen.is_valid_proof("not hex"));
}

#[test]
fn coinbase_detection_is_exact() {
    let mut wallets = Wallets::new();
    let a = new_address(&mut wallets);
    let cb = Transaction::new_coinbase(a.clone(), "memo".to_string()).unwrap();
    assert!(cb.is_coinbase());
    assert_eq!(cb.vout.len(), 1);
    assert_eq!(cb.vout[0].value, 10);

    let mut not_cb = Transaction::new_coinbase(a.clone(), "memo".to_string()).unwrap();
    not_cb.vin[0].vout = 0;
    assert!(!not_cb.is_coinbase());
    let mut named = Transaction::new_coinbase(a, "memo".to_string()).unwrap();
    named.vin[0].txid = "ff".to_string();
    assert!(!named.is_coinbase());
}
