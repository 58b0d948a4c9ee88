use minichain::block::{merkle_root, Block};
use sha2::Digest;
use minichain::hex::{hex_decode, hex_encode};
use minichain::transaction::{TXInput, TXOutput, Transaction};

fn sample_tx(id: &str) -> Transaction {
    Transaction {
        id: id.to_string(),
        vin: vec![
            TXInput {
                txid: String::new(),
                vout: -1,
                signature: Vec::new(),
                pub_key: vec![1, 2, 3, 255, 0, 7],
            },
            TXInput {
                txid: "00ff".to_string(),
                vout: 3,
                signature: vec![9, 9],
                pub_key: vec![],
            },
        ],
        vout: vec![
            TXOutput { value: 10, pub_key_hash: vec![5; 20] },
            TXOutput { value: -1, pub_key_hash: vec![] },
        ],
    }
}

fn tx_as_tuple(
    tx: &Transaction,
) -> (String, Vec<(String, i32, Vec<u8>, Vec<u8>)>, Vec<(i32, Vec<u8>)>) {
    (
        tx.id.clone(),
        tx.vin
            .iter()
            .map(|i| (i.txid.clone(), i.vout, i.signature.clone(), i.pub_key.clone()))
            .collect(),
        tx.vout.iter().map(|o| (o.value, o.pub_key_hash.clone())).collect(),
    )
}

#[test]
fn hex_encode_matches_hex_crate() {
    let data: Vec<u8> = vec![0x00, 0x01, 0x7f, 0x80, 0xab, 0xff];
    assert_eq!(hex_encode(&data), hex::encode(&data));
    assert_eq!(hex_encode(&Vec::new()), "");
}

#[test]
fn hex_decode_matches_hex_crate() {
    let text = "00017f80abff";
    assert_eq!(hex_decode(text).unwrap(), hex::decode(text).unwrap());
    let upper = "DEADBEEF";
    assert_eq!(hex_decode(upper).unwrap(), hex::decode(upper).unwrap());
    assert!(hex_decode("abc").is_none());
    assert!(hex_decode("zz").is_none());
}

#[test]
fn hex_round_trip() {
    let data: Vec<u8> = (0u16..=255).map(|b| b as u8).collect();
    let text = hex_encode(&data);
    assert_eq!(hex_decode(&text).unwrap(), data);
}

#[test]
fn transaction_encoding_matches_bincode() {
    let tx = sample_tx("ab01");
    let expected = bincode::serialize(&tx_as_tuple(&tx)).unwrap();
    assert_eq!(tx.serialize(), expected);
}

#[test]
fn transaction_id_matches_reference_computation() {
    let tx = sample_tx("ab01");
    let mut cleared = tx_as_tuple(&tx);
    cleared.0 = String::new();
    let digest = sha2::Sha256::digest(&bincode::serialize(&cleared).unwrap());
    assert_eq!(tx.hash(), hex::encode(digest));
}

#[test]
fn transaction_hash_is_stable() {
    let tx = sample_tx("ab01");
    assert_eq!(tx.hash(), tx.hash());
}

#[test]
fn block_encoding_matches_bincode() {
    let tx = sample_tx("ab01");
    let block = Block {
        timestamp: 123456789012345678901234567890u128,
        transactions: vec![tx],
        prev_block_hash: "00aa".to_string(),
        hash: "bb11".to_string(),
        nonce: 424242,
        height: -3,
        difficulty: 16,
    };
    let tuple = (
        block.timestamp,
        block.transactions.iter().map(tx_as_tuple).collect::<Vec<_>>(),
        block.prev_block_hash.clone(),
        block.hash.clone(),
        block.nonce,
        block.height,
        block.difficulty,
    );
    assert_eq!(block.serialize(), bincode::serialize(&tuple).unwrap());
}

#[test]
fn block_serialization_round_trip() {
    let block = Block {
        timestamp: 77,
        transactions: vec![sample_tx("ab01"), sample_tx("cd02")],
        prev_block_hash: String::new(),
        hash: "bb11".to_string(),
        nonce: 5,
        height: 0,
        difficulty: 16,
    };
    let bytes = block.serialize();
    let back = Block::deserialize(&bytes).unwrap();
    assert_eq!(back.timestamp, block.timestamp);
    assert_eq!(back.transactions.len(), 2);
    assert_eq!(back.transactions[0].id, "ab01");
    assert_eq!(back.transactions[1].vin[1].txid, "00ff");
    assert_eq!(back.transactions[1].vout[1].value, -1);
    assert_eq!(back.prev_block_hash, block.prev_block_hash);
    assert_eq!(back.hash, block.hash);
    assert_eq!(back.nonce, block.nonce);
    assert_eq!(back.height, block.height);
    assert_eq!(back.difficulty, block.difficulty);
    assert!(Block::deserialize(&bytes[..bytes.len() - 1].to_vec()).is_err());
    let mut extra = bytes.clone();
    extra.push(0);
    assert!(Block::deserialize(&extra).is_err());
}

struct MergeSha256;

impl merkle_cbt::merkle_tree::Merge for MergeSha256 {
    type Item = Vec<u8>;
    fn merge(left: &Self::Item, right: &Self::Item) -> Self::Item {
        let mut hasher = sha2::Sha256::new();
        hasher.update(left);
        hasher.update(right);
        hasher.finalize().to_vec()
    }
}

#[test]
fn merkle_root_matches_merkle_cbt() {
    for n in 1usize..=5 {
        let leaves: Vec<Vec<u8>> =
            (0..n).map(|i| format!("leaf-{}", i).into_bytes()).collect();
        let tree = merkle_cbt::merkle_tree::CBMT::<Vec<u8>, MergeSha256>::build_merkle_tree(
            &leaves,
        );
        assert_eq!(merkle_root(&leaves), tree.root(), "leaf count {}", n);
    }
}

#[test]
fn merkle_root_of_no_leaves_is_empty() {
    assert_eq!(merkle_root(&Vec::new()), Vec::<u8>::new());
}
