use fish_torrent::file::{OutputFile, StoreError};

const ABCDE_SHA1: [u8; 20] = [
    0x03, 0xde, 0x6c, 0x57, 0x0b, 0xfe, 0x24, 0xbf, 0xc3, 0x28, 0xcc, 0xd7, 0xca, 0x46, 0xb7, 0x6e,
    0xad, 0xaf, 0x43, 0x34,
];

#[test]
fn test_general() {
    let filesize = 23;
    let blocksize = 1;
    // This results in a file with 4 5-byte pieces and one 3-byte piece.
    let mut test_file = OutputFile::new(filesize, 5, 5, blocksize).unwrap();
    // Write some data. The piece must be filled before it can be read.
    let _ = test_file.write_block(0, 0, Vec::from([b'a', b'b', b'c', b'd', b'e']));
    for i in 0..5 {
        let _ = test_file.write_block(0, i, Vec::from([b'a']));
        let _ = test_file.write_block(1, i, Vec::from([b'z']));
    }
    assert_eq!(test_file.hash_piece(0).is_ok(), true);
    test_file.set_piece_finished(0).unwrap();
    assert_eq!(test_file.hash_piece(1).is_ok(), true);
    test_file.set_piece_finished(1).unwrap();
    // See if that data reads back.
    let test = test_file.read_block(0, 0, 4).unwrap();
    assert_eq!(test, Vec::from([b'a', b'a', b'a', b'a']));
    let test = test_file.read_block(1, 0, 3).unwrap();
    assert_eq!(test, Vec::from([b'z', b'z', b'z']));
    // Write some more data, this time at an offset, and read it back.
    let _ = test_file.write_block(0, 3, Vec::from([b't']));
    let _ = test_file.write_block(0, 4, Vec::from([b'v']));
    let test = test_file.read_block(0, 3, 2).unwrap();
    assert_eq!(test, Vec::from([b't', b'v']));
    // Write data up to the very end of the last piece.
    let _ = test_file.write_block(4, 0, Vec::from([b'a']));
    let _ = test_file.write_block(4, 1, Vec::from([b'b']));
    let _ = test_file.write_block(4, 2, Vec::from([b'c']));
    test_file.set_piece_finished(4).unwrap();
    assert_eq!(test_file.hash_piece(4).is_ok(), true);
    let test = test_file.read_block(4, 0, 3).unwrap();
    assert_eq!(test, Vec::from([b'a', b'b', b'c']));
    // The file has the expected size.
    assert_eq!(23, test_file.get_file_length());
}

#[test]
fn test_write_fail() {
    let mut test_file = OutputFile::new(50, 5, 10, 1).unwrap();
    // Write to the bounds of the file and of its pieces. Expect errors.
    assert!(test_file.write_block(5, 0, Vec::from([b'a'])).is_err());
    assert!(test_file.write_block(0, 10, Vec::new()).is_err());
    assert!(test_file.write_block(0, 8, Vec::from([b'a', b'b', b'c'])).is_err());

    // Failed writes overwrite nothing.
    assert!(test_file.write_block(4, 5, Vec::from([b'a'])).is_ok());
    assert!(test_file
        .write_block(4, 5, Vec::from([b'x', b'b', b'c', b'd', b'e', b'f']))
        .is_err());
    test_file.set_piece_finished(4).unwrap();
    let tmp = test_file.read_block(4, 5, 1).unwrap();
    assert_eq!(tmp, Vec::from([b'a']));
    let tmp = test_file.read_block(4, 9, 1).unwrap();
    assert_eq!(tmp, Vec::from([0]));
    assert!(test_file.write_block(4, 9, Vec::from([b'a'])).is_ok());
    let tmp = test_file.read_block(4, 9, 1).unwrap();
    assert_eq!(tmp, Vec::from([b'a']));

    assert_eq!(50, test_file.get_file_length());
}

#[test]
fn test_read_fail() {
    let mut test_file = OutputFile::new(50, 5, 10, 1).unwrap();
    test_file.set_piece_finished(0).unwrap();
    test_file.set_piece_finished(4).unwrap();
    // Reading past the end of a piece.
    assert!(test_file.read_block(0, 9, 1).is_ok());
    assert!(test_file.read_block(0, 9, 2).is_err());
    // Reading from too high a piece index.
    assert!(test_file.read_block(4, 0, 0).is_ok());
    assert!(test_file.read_block(5, 0, 0).is_err());
    // Reading past the end of a piece due to the length of the read.
    assert!(test_file.read_block(0, 5, 5).is_ok());
    assert!(test_file.read_block(0, 5, 6).is_err());

    for i in 5..10 {
        let _ = test_file.write_block(0, i, Vec::from([97 + (i - 5) as u8]));
    }
    for i in 5..10 {
        let _ = test_file.write_block(4, i, Vec::from([118 + (i - 5) as u8]));
    }
    let tmp = test_file.read_block(0, 5, 5).unwrap();
    assert_eq!(tmp, Vec::from([b'a', b'b', b'c', b'd', b'e']));
    let tmp = test_file.read_block(4, 5, 5).unwrap();
    assert_eq!(tmp, Vec::from([b'v', b'w', b'x', b'y', b'z']));

    assert_eq!(50, test_file.get_file_length());
}

#[test]
fn test_bitvecs() {
    let num_pieces = 5;
    let piece_size = 10;
    let block_size = 1;
    let mut test_file =
        OutputFile::new(num_pieces * piece_size, num_pieces, piece_size, block_size).unwrap();

    // Nothing is written at first.
    assert_eq!(test_file.get_num_pieces(), num_pieces);
    for i in 0..num_pieces {
        for j in 0..piece_size {
            assert_eq!(test_file.is_byte_finished(i, j), Some(false));
        }
    }

    // No write fills a piece, so none returns true.
    assert_eq!(test_file.write_block(0, 0, Vec::from([b'a', b'b'])).unwrap(), false);
    let _ = test_file.write_block(0, 1, Vec::from([b'b']));
    assert_eq!(test_file.write_block(1, 0, Vec::from([b'x', b'y'])).unwrap(), false);
    let _ = test_file.write_block(1, 1, Vec::from([b'b']));
    assert_eq!(test_file.write_block(0, 5, Vec::from([b't', b'u', b'v'])).unwrap(), false);
    let _ = test_file.write_block(0, 6, Vec::from([b'u']));
    let _ = test_file.write_block(0, 7, Vec::from([b'v']));

    assert_eq!(test_file.is_byte_finished(0, 0), Some(true));
    assert_eq!(test_file.is_byte_finished(0, 1), Some(true));
    assert_eq!(test_file.is_byte_finished(0, 5), Some(true));
    assert_eq!(test_file.is_byte_finished(0, 6), Some(true));
    assert_eq!(test_file.is_byte_finished(0, 7), Some(true));
    assert_eq!(test_file.is_byte_finished(1, 0), Some(true));
    assert_eq!(test_file.is_byte_finished(1, 1), Some(true));

    // Spot checks that no other bit was set.
    assert_eq!(test_file.is_byte_finished(0, 2), Some(false));
    assert_eq!(test_file.is_byte_finished(0, 9), Some(false));
    assert_eq!(test_file.is_byte_finished(1, 2), Some(false));
    assert_eq!(test_file.is_byte_finished(1, 7), Some(false));

    // This fills the piece and returns true.
    assert_eq!(test_file.get_file_bitfield()[1], false);
    for i in 0..piece_size - 1 {
        let _ = test_file.write_block(1, i, Vec::from([99 + i as u8]));
    }
    assert_eq!(test_file.write_block(1, 9, Vec::from([b'l'])).unwrap(), true);
    assert_eq!(test_file.hash_piece(1).is_ok(), true);
    test_file.set_piece_finished(1).unwrap();
    assert_eq!(test_file.get_file_bitfield()[1], true);
}

#[test]
fn test_hash() {
    let num_pieces = 2;
    let piece_size = 5;
    let block_size = 1;
    let mut test_file =
        OutputFile::new(num_pieces * piece_size, num_pieces, piece_size, block_size).unwrap();
    // Write a piece "abcde", a byte at a time.
    for (i, b) in [b'a', b'b', b'c', b'd'].iter().enumerate() {
        assert_eq!(test_file.write_block(0, i, Vec::from([*b])).unwrap(), false);
    }
    assert_eq!(test_file.write_block(0, 4, Vec::from([b'e'])).unwrap(), true);
    // The digest is the expected one.
    assert_eq!(
        format!("{:02x?}", test_file.hash_piece(0).unwrap()),
        "[03, de, 6c, 57, 0b, fe, 24, bf, c3, 28, cc, d7, ca, 46, b7, 6e, ad, af, 43, 34]"
    );
    // The comparison is true against that digest.
    assert_eq!(test_file.compare_piece_hash(0, &ABCDE_SHA1).unwrap(), true);
    // And false against another.
    let mut other = ABCDE_SHA1;
    other[0] = 0x04;
    assert_eq!(test_file.compare_piece_hash(0, &other).unwrap(), false);
}

#[test]
fn test_bitvec_part_2() {
    let num_pieces = 2;
    let piece_size = 5;
    let block_size = 1;
    let mut test_file =
        OutputFile::new(num_pieces * piece_size, num_pieces, piece_size, block_size).unwrap();

    assert_eq!(test_file.get_file_bitfield(), vec![false, false]);
    assert_eq!(test_file.get_blocks()[0], vec![false, false, false, false, false]);
    // This drops all but the first byte.
    let _ = test_file.write_block(0, 0, Vec::from([b'a', b'b', b'c', b'd', b'e']));
    assert_eq!(test_file.get_blocks()[0], vec![true, false, false, false, false]);
    for i in 0..piece_size {
        let _ = test_file.write_block(0, i, Vec::from([b'a']));
    }
    assert_eq!(test_file.get_blocks()[0], vec![true, true, true, true, true]);
    test_file.set_piece_finished(0).unwrap();
    assert_eq!(test_file.get_file_bitfield(), vec![true, false]);

    test_file.clear_piece(0).unwrap();
    assert_eq!(test_file.get_blocks()[0], vec![false, false, false, false, false]);
    assert_eq!(test_file.get_file_bitfield(), vec![false, false]);
}

#[test]
fn test_last_piece() {
    // Three pieces of 4 bytes, the last one 2 bytes long.
    let mut f = OutputFile::new(10, 3, 4, 2).unwrap();
    assert_eq!(f.get_piece_len(2), 2);
    assert_eq!(f.write_block(2, 2, vec![1]), Err(StoreError::BeyondLastPieceSize));
    assert_eq!(f.write_block(2, 0, vec![1, 2, 3]), Err(StoreError::BeyondLastPieceSize));
    assert_eq!(f.write_block(2, 0, vec![7, 8]), Ok(true));
    f.set_piece_finished(2).unwrap();
    assert_eq!(f.read_block(2, 0, 2), Ok(vec![7, 8]));
    assert_eq!(f.read_block(2, 0, 3), Err(StoreError::BeyondLastPieceSize));
}

#[test]
fn new_refuses_inconsistent_geometry() {
    assert!(OutputFile::new(10, 0, 5, 1).is_none());
    assert!(OutputFile::new(10, 2, 0, 1).is_none());
    assert!(OutputFile::new(10, 2, 5, 0).is_none());
    // Too long for two pieces of 5 bytes, and too short for three.
    assert!(OutputFile::new(11, 2, 5, 1).is_none());
    assert!(OutputFile::new(10, 3, 5, 1).is_none());
    let f = OutputFile::new(11, 3, 5, 2).unwrap();
    assert_eq!(f.get_piece_len(2), 1);
    assert_eq!(f.get_blocks()[0].len(), 3);
}

#[test]
fn write_errors_change_nothing() {
    let mut f = OutputFile::new(20, 2, 10, 4).unwrap();
    assert_eq!(f.write_block(2, 0, vec![1]), Err(StoreError::IndexOutOfRange));
    assert_eq!(f.write_block(0, 8, vec![1, 2, 3]), Err(StoreError::BeyondPieceSize));
    assert_eq!(f.write_block(0, 0, vec![]), Err(StoreError::EmptyBlock));
    assert_eq!(f.write_block(0, 2, vec![1]), Err(StoreError::Misaligned));
    for k in 0..10 {
        assert_eq!(f.is_byte_finished(0, k), Some(false));
    }
    assert_eq!(f.get_blocks(), vec![vec![false; 3], vec![false; 3]]);
}

#[test]
fn oversized_block_is_cut_to_block_size() {
    let mut f = OutputFile::new(8, 1, 8, 4).unwrap();
    assert_eq!(f.write_block(0, 4, vec![1, 2, 3, 4]), Ok(false));
    assert_eq!(f.write_block(0, 0, vec![9, 9, 9, 9, 5, 5, 5, 5]), Ok(true));
    f.set_piece_finished(0).unwrap();
    assert_eq!(f.read_block(0, 0, 8), Ok(vec![9, 9, 9, 9, 1, 2, 3, 4]));
}

#[test]
fn read_and_hash_errors() {
    let mut f = OutputFile::new(10, 2, 5, 5).unwrap();
    assert_eq!(f.read_block(0, 0, 1), Err(StoreError::NotFinished));
    assert_eq!(f.hash_piece(0), Err(StoreError::NotComplete));
    assert_eq!(f.compare_piece_hash(2, &ABCDE_SHA1), Err(StoreError::IndexOutOfRange));
    assert_eq!(f.set_piece_finished(2), Err(StoreError::IndexOutOfRange));
    assert_eq!(f.clear_piece(2), Err(StoreError::IndexOutOfRange));
    assert_eq!(f.is_block_finished(2, 0), None);
    assert_eq!(f.is_block_finished(0, 5), None);
    assert_eq!(f.is_block_finished(0, 0), Some(false));
    f.write_block(0, 0, b"abc".to_vec()).unwrap();
    assert_eq!(f.is_block_finished(0, 0), Some(true));
}

#[test]
fn completion_is_coverage_in_any_order() {
    // Overlapping writes in reverse order complete the piece once every
    // offset is covered.
    let mut f = OutputFile::new(6, 1, 6, 2).unwrap();
    assert_eq!(f.write_block(0, 4, vec![5, 6]), Ok(false));
    assert_eq!(f.write_block(0, 2, vec![3]), Ok(false));
    assert_eq!(f.write_block(0, 2, vec![3, 4]), Ok(false));
    assert_eq!(f.write_block(0, 0, vec![1, 2]), Ok(true));
    assert_eq!(f.write_block(0, 0, vec![1, 2]), Ok(true));
}

#[test]
fn end_to_end_two_pieces() {
    let mut f = OutputFile::new(10, 2, 5, 5).unwrap();
    assert_eq!(f.write_block(0, 0, b"abcde".to_vec()), Ok(true));
    assert_eq!(f.compare_piece_hash(0, &ABCDE_SHA1), Ok(true));
    f.set_piece_finished(0).unwrap();
    assert_eq!(f.get_file_bitfield(), vec![true, false]);
    assert!(!f.is_file_finished());
    assert_eq!(f.read_block(0, 0, 5), Ok(b"abcde".to_vec()));
}

#[test]
fn file_finished_when_all_verified() {
    let mut f = OutputFile::new(2, 2, 1, 1).unwrap();
    f.set_piece_finished(0).unwrap();
    assert!(!f.is_file_finished());
    f.set_piece_finished(1).unwrap();
    assert!(f.is_file_finished());
    assert_eq!(f.get_piece_size(), 1);
    assert_eq!(f.get_block_size(), 1);
}

#[test]
fn bytes_left_counts_unverified_pieces() {
    let mut f = OutputFile::new(23, 5, 5, 5).unwrap();
    assert_eq!(f.bytes_left(), 23);
    f.set_piece_finished(4).unwrap();
    assert_eq!(f.bytes_left(), 20);
    f.set_piece_finished(0).unwrap();
    assert_eq!(f.bytes_left(), 15);
}
