use albatross_sync::messages::{
    Block, BlockHashType, MacroBlock, Objects, RequestBlockHashesFilter, MAX_HASHES,
};
use albatross_sync::primitives::bytes_eq;

#[test]
fn block_hash_type_from_block() {
    let m = MacroBlock { block_number: 128, hash: [1; 32], is_election_block: true };
    assert_eq!(BlockHashType::from(&Block::Macro(m)), BlockHashType::Election);
    let c = MacroBlock { is_election_block: false, ..m };
    assert_eq!(BlockHashType::from(&Block::Macro(c)), BlockHashType::Checkpoint);
    let micro = Block::Micro { block_number: 3, hash: [2; 32] };
    assert_eq!(BlockHashType::from(&micro), BlockHashType::Micro);
    assert_eq!(BlockHashType::Election.to_u8(), 3);
    assert_eq!(RequestBlockHashesFilter::ElectionOnly.to_u8(), 2);
}

#[test]
fn objects_kinds() {
    let o: Objects<u8> = Objects::with_hashes(vec![[0; 32]]);
    assert!(o.contains_hashes());
    assert!(!o.contains_objects());
    let p: Objects<u8> = Objects::with_objects(vec![1, 2]);
    assert!(p.contains_objects());
    assert_eq!(MAX_HASHES, 1000);
}

#[test]
fn byte_equality() {
    assert!(bytes_eq(&[1u8, 2, 3], &[1u8, 2, 3]));
    assert!(!bytes_eq(&[1u8, 2, 3], &[1u8, 2, 4]));
}
