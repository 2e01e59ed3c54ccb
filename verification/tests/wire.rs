use subspacer::TransactionReader;
use subspacer::HEADER_SIZE;

fn header(version: u8, space_hash: [u8; 32]) -> Vec<u8> {
    let mut bytes = vec![version];
    bytes.extend_from_slice(&space_hash);
    bytes
}

fn frame(subspace: [u8; 32], owner: [u8; 32], witness: &[u8]) -> Vec<u8> {
    let len = (64 + witness.len()) as u16;
    let mut bytes = len.to_le_bytes().to_vec();
    bytes.extend_from_slice(&subspace);
    bytes.extend_from_slice(&owner);
    bytes.extend_from_slice(witness);
    bytes
}

#[test]
fn reader_header_accessors() {
    let bytes = header(7, [9u8; 32]);
    let reader = TransactionReader::new(&bytes);
    assert_eq!(reader.version(), 7);
    assert_eq!(reader.space_hash(), &[9u8; 32][..]);
    assert_eq!(reader.header().len(), HEADER_SIZE);
    assert_eq!(reader.header()[0], 7);
}

#[test]
fn reader_yields_entries_in_order() {
    let mut bytes = header(0, [0u8; 32]);
    bytes.extend_from_slice(&frame([1u8; 32], [2u8; 32], &[0x00, 0xaa]));
    bytes.extend_from_slice(&frame([3u8; 32], [4u8; 32], &[]));
    let reader = TransactionReader::new(&bytes);
    let mut iter = reader.iter();

    let first = iter.next().expect("first entry");
    assert_eq!(first.subspace_hash, &[1u8; 32][..]);
    assert_eq!(first.owner, &[2u8; 32][..]);
    assert_eq!(first.witness, &[0x00, 0xaa][..]);

    let second = iter.next().expect("second entry");
    assert_eq!(second.subspace_hash, &[3u8; 32][..]);
    assert_eq!(second.owner, &[4u8; 32][..]);
    assert_eq!(second.witness, &[] as &[u8]);

    assert!(iter.next().is_none());
}

#[test]
fn reader_stops_mid_frame() {
    // A frame that promises 70 bytes but delivers only 40: end of
    // iteration, not an error.
    let mut bytes = header(0, [0u8; 32]);
    bytes.extend_from_slice(&70u16.to_le_bytes());
    bytes.extend_from_slice(&[5u8; 40]);
    let reader = TransactionReader::new(&bytes);
    let mut iter = reader.iter();
    assert!(iter.next().is_none());
    assert!(iter.next().is_none());
}

#[test]
fn reader_stops_on_undersized_length() {
    // A length below the 64-byte minimum ends the stream even if valid
    // frames follow.
    let mut bytes = header(0, [0u8; 32]);
    bytes.extend_from_slice(&63u16.to_le_bytes());
    bytes.extend_from_slice(&[0u8; 63]);
    bytes.extend_from_slice(&frame([1u8; 32], [2u8; 32], &[]));
    let reader = TransactionReader::new(&bytes);
    let mut iter = reader.iter();
    assert!(iter.next().is_none());
    assert!(iter.next().is_none());
}

#[test]
fn reader_stops_on_single_trailing_byte() {
    let mut bytes = header(0, [0u8; 32]);
    bytes.push(0x01);
    let reader = TransactionReader::new(&bytes);
    let mut iter = reader.iter();
    assert!(iter.next().is_none());
}
