use dysentropy::{deobfuscate_iter, deobfuscate_strict, obfuscate_iter, CodecError};

fn sample(len: usize) -> Vec<u8> {
    let mut bytes = Vec::new();
    for i in 0..len {
        bytes.push(((i * 37 + 11) % 251) as u8);
    }
    bytes
}

#[test]
fn test_obfuscation() -> anyhow::Result<()> {
    let original_bytes =
        b"Hello there it is me bytes johnson and I'm here to take your cheese away";

    let obfuscated: Vec<_> = obfuscate_iter(&original_bytes[..]).into_iter().collect();
    let deobfuscated: Vec<_> = deobfuscate_iter(&obfuscated).into_iter().collect();

    assert_eq!(deobfuscated, original_bytes);

    Ok(())
}

#[test]
fn round_trip_for_every_length_up_to_two_hundred() {
    for len in 0..=200 {
        let original = sample(len);
        let hidden = obfuscate_iter(&original);
        assert_eq!(deobfuscate_iter(&hidden), original, "length {}", len);
    }
}

#[test]
fn strict_reading_takes_every_hidden_form() {
    for len in 0..=200 {
        let original = sample(len);
        let hidden = obfuscate_iter(&original);
        assert_eq!(deobfuscate_strict(&hidden), Ok(original), "length {}", len);
    }
}

#[test]
fn empty_stays_empty() {
    assert_eq!(obfuscate_iter(&[]), Vec::<u8>::new());
    assert_eq!(deobfuscate_iter(&[]), Vec::<u8>::new());
    assert_eq!(deobfuscate_strict(&[]), Ok(Vec::<u8>::new()));
}

#[test]
fn hello_the_gives_two_records_and_one_byte() {
    let original = b"Hello the";
    let hidden = obfuscate_iter(&original[..]);
    let expected: Vec<u8> = vec![
        0, 0, 0, 0, b'o', b' ', b't', b'h', // position 0 carries the second chunk
        1, 0, 0, 0, b'H', b'e', b'l', b'l', // position 1 carries the first chunk
        b'e',
    ];
    assert_eq!(hidden.len(), 17);
    assert_eq!(hidden, expected);
    assert_eq!(deobfuscate_iter(&hidden), original.to_vec());
}

#[test]
fn exactly_as_many_chunks_as_places() {
    let original = sample(28);
    let hidden = obfuscate_iter(&original);
    assert_eq!(hidden.len(), 56);
    // a rotation by the whole length moves nothing
    for k in 0..7 {
        assert_eq!(&hidden[8 * k + 4..8 * k + 8], &original[4 * k..4 * k + 4]);
    }
    assert_eq!(deobfuscate_iter(&hidden), original);
}

#[test]
fn fewer_chunks_than_places() {
    for chunks in 1..7 {
        for rest in 0..4 {
            let original = sample(4 * chunks + rest);
            let hidden = obfuscate_iter(&original);
            for k in 0..chunks {
                let from = (k + 7) % chunks;
                assert_eq!(&hidden[8 * k + 4..8 * k + 8], &original[4 * from..4 * from + 4]);
            }
            assert_eq!(deobfuscate_iter(&hidden), original);
        }
    }
}

#[test]
fn one_chunk_alone() {
    let hidden = obfuscate_iter(&[9, 8, 7, 6]);
    assert_eq!(hidden, vec![0, 0, 0, 0, 9, 8, 7, 6]);
    assert_eq!(deobfuscate_iter(&hidden), vec![9, 8, 7, 6]);
}

#[test]
fn fewer_bytes_than_a_chunk_pass_through() {
    assert_eq!(obfuscate_iter(&[1, 2, 3]), vec![1, 2, 3]);
    assert_eq!(deobfuscate_iter(&[1, 2, 3]), vec![1, 2, 3]);
}

#[test]
fn strict_reading_refuses_four_trailing_bytes() {
    let mut hidden = obfuscate_iter(&sample(8));
    hidden.extend_from_slice(&[1, 2, 3, 4]);
    assert_eq!(deobfuscate_strict(&hidden), Err(CodecError::MalformedRecord));
    assert_eq!(deobfuscate_strict(&[1, 2, 3, 4]), Err(CodecError::MalformedRecord));
    assert_eq!(deobfuscate_strict(&[1, 2, 3, 4, 5, 6, 7]), Err(CodecError::MalformedRecord));
    assert_eq!(deobfuscate_strict(&[1, 2, 3]), Ok(vec![1, 2, 3]));
}

#[test]
fn lenient_reading_of_trailing_bytes() {
    // no whole record: everything is handed on
    assert_eq!(deobfuscate_iter(&[1, 2, 3, 4, 5, 6, 7]), vec![1, 2, 3, 4, 5, 6, 7]);
    // one record and four bytes more count as two chunks, read round the one payload
    let hidden = [0, 0, 0, 0, 10, 11, 12, 13, 20, 21, 22, 23];
    assert_eq!(
        deobfuscate_iter(&hidden),
        vec![10, 11, 12, 13, 10, 11, 12, 13, 20, 21, 22, 23]
    );
}

#[test]
fn the_tag_is_not_read() {
    let original = sample(43);
    let mut hidden = obfuscate_iter(&original);
    for k in 0..10 {
        hidden[8 * k] = 0xff;
        hidden[8 * k + 3] = 0xee;
    }
    assert_eq!(deobfuscate_iter(&hidden), original);
}
