use minichain::errors::BcError;
use minichain::transaction::{TXOutput, Transaction};
use minichain::utxoset::UTXOSet;
use minichain::wallets::{decode_address, double_sha256, hash_pub_key, Wallet, Wallets};
use ripemd::Digest;

fn err_of<T, E>(r: Result<T, E>) -> E {
    match r {
        Err(e) => e,
        Ok(_) => panic!("expected an error"),
    }
}

#[test]
fn hash_pub_key_matches_the_reference_digests() {
    let pk = b"an example public key";
    let sha = sha2::Sha256::digest(pk);
    let expected = ripemd::Ripemd160::digest(sha).to_vec();
    assert_eq!(hash_pub_key(pk), expected);
    assert_eq!(double_sha256(pk).to_vec(), sha2::Sha256::digest(sha2::Sha256::digest(pk)).to_vec());
}

#[test]
fn address_decodes_to_the_public_key_hash() {
    let wallet = Wallet::new().unwrap();
    let address = wallet.get_address();
    let payload = decode_address(&address).unwrap();
    assert_eq!(payload, hash_pub_key(&wallet.public_key()));
    assert_eq!(payload.len(), 20);
}

#[test]
fn address_checksum_verifies() {
    let wallet = Wallet::new().unwrap();
    let address = wallet.get_address();
    let decoded = bs58::decode(&address)
        .with_alphabet(bs58::Alphabet::BITCOIN)
        .into_vec()
        .unwrap();
    assert_eq!(decoded.len(), 25);
    assert_eq!(decoded[0], 0x00);
    let checksum = double_sha256(&decoded[..21]);
    assert_eq!(&decoded[21..], &checksum[..4]);
}

#[test]
fn address_round_trips_through_base58() {
    let wallet = Wallet::new().unwrap();
    let address = wallet.get_address();
    let decoded = bs58::decode(&address)
        .with_alphabet(bs58::Alphabet::BITCOIN)
        .into_vec()
        .unwrap();
    let reencoded = bs58::encode(decoded).with_alphabet(bs58::Alphabet::BITCOIN).into_string();
    assert_eq!(reencoded, address);
}

#[test]
fn bad_addresses_name_what_is_wrong() {
    // Not in the alphabet at all: '0' never appears in Base58 text.
    assert_eq!(err_of(decode_address("0O0O")), BcError::InvalidAddressChecksum);
    // Decodes to fewer bytes than version plus checksum.
    let short = bs58::encode([1u8, 2, 3]).with_alphabet(bs58::Alphabet::BITCOIN).into_string();
    assert_eq!(err_of(decode_address(&short)), BcError::InvalidAddressLength);
    // Long enough, but the checksum does not match.
    let junk = bs58::encode([0u8; 25]).with_alphabet(bs58::Alphabet::BITCOIN).into_string();
    assert_eq!(err_of(decode_address(&junk)), BcError::InvalidAddressChecksum);
    assert!(TXOutput::new(1, &junk).is_err());
}

#[test]
fn signing_is_deterministic_and_verifies() {
    let wallet = Wallet::new().unwrap();
    let message = b"a message to sign";
    let s1 = wallet.try_sign(message).unwrap();
    let s2 = wallet.try_sign(message).unwrap();
    assert_eq!(s1, s2);
    assert_eq!(s1.len(), 64);
    let pk = wallet.try_public_key().unwrap();
    let verifier = ring::signature::UnparsedPublicKey::new(&ring::signature::ED25519, &pk);
    assert!(verifier.verify(message, &s1).is_ok());
}

#[test]
fn corrupt_key_material_is_reported_not_found() {
    let wallet = Wallet::from_pkcs8(vec![1, 2, 3]);
    assert!(wallet.try_public_key().is_none());
    assert!(wallet.try_sign(b"m").is_none());
    assert!(wallet.try_get_address().is_none());

    let mut wallets = Wallets::new();
    let a = wallets.create_wallet().unwrap();
    let bc = minichain::blockchain::Blockchain::create_blockchain(&a, false).unwrap();
    let mut utxo = UTXOSet::new(bc);
    utxo.reindex().unwrap();
    let err = err_of(Transaction::new_utxo_checked(&wallet, &a, 1, &utxo));
    assert_eq!(err, BcError::WalletNotFound);
}

#[test]
fn wallet_collection_keeps_wallets_by_address() {
    let mut wallets = Wallets::new();
    let a = wallets.create_wallet().unwrap();
    let b = wallets.create_wallet().unwrap();
    assert_ne!(a, b);
    assert_eq!(wallets.len(), 2);
    let mut addresses = wallets.get_all_addresses();
    addresses.sort();
    let mut expected = vec![a.clone(), b.clone()];
    expected.sort();
    assert_eq!(addresses, expected);
    assert!(wallets.get_wallet(&a).is_some());
    assert!(wallets.get_wallet("nobody").is_none());
}

#[test]
fn wallet_collection_round_trips_through_bytes() {
    let mut wallets = Wallets::new();
    let a = wallets.create_wallet().unwrap();
    let b = wallets.create_wallet().unwrap();
    let bytes = wallets.to_bytes();
    let back = Wallets::from_bytes(&bytes).unwrap();
    assert_eq!(back.len(), 2);
    let wa = back.get_wallet(&a).unwrap();
    assert_eq!(wa.get_address(), a);
    let wb = back.get_wallet(&b).unwrap();
    assert_eq!(wb.get_address(), b);
    assert!(Wallets::from_bytes(&vec![1, 2, 3]).is_err());
}

#[test]
fn coinbase_ids_differ_even_with_equal_memos() {
    let mut wallets = Wallets::new();
    let a = wallets.create_wallet().unwrap();
    let t1 = Transaction::new_coinbase(a.clone(), "same memo".to_string()).unwrap();
    let t2 = Transaction::new_coinbase(a, "same memo".to_string()).unwrap();
    assert_ne!(t1.id, t2.id);
    assert_eq!(t1.id, t1.hash());
    assert_eq!(t2.id, t2.hash());
}
