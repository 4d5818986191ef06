use dysentropy::obfuscate_iter;

fn sample(len: usize) -> Vec<u8> {
    let mut bytes = Vec::new();
    for i in 0..len {
        bytes.push(((i * 101 + 3) % 256) as u8);
    }
    bytes
}

#[test]
fn length_grows_by_four_bytes_a_chunk() {
    for len in 0..=130 {
        let hidden = obfuscate_iter(&sample(len));
        assert_eq!(hidden.len(), 8 * (len / 4) + len % 4, "length {}", len);
    }
    assert_eq!(obfuscate_iter(&sample(9)).len(), 17);
    assert_eq!(obfuscate_iter(&sample(40)).len(), 80);
    assert_eq!(obfuscate_iter(&sample(3)).len(), 3);
}

#[test]
fn the_remainder_closes_the_hidden_form() {
    for len in 0..=130 {
        let original = sample(len);
        let hidden = obfuscate_iter(&original);
        let rest = len % 4;
        assert_eq!(&hidden[hidden.len() - rest..], &original[len - rest..], "length {}", len);
    }
    let hidden = obfuscate_iter(&[1, 2, 3, 4, 5, 6, 7]);
    assert_eq!(&hidden[8..], &[5, 6, 7]);
}

#[test]
fn records_carry_their_position_and_the_rotated_chunk() {
    // ten chunks: more than the seven places of the rotation
    let original = sample(42);
    let hidden = obfuscate_iter(&original);
    for k in 0..10 {
        let from = (k + 7) % 10;
        assert_eq!(&hidden[8 * k..8 * k + 4], &[k as u8, 0, 0, 0]);
        assert_eq!(&hidden[8 * k + 4..8 * k + 8], &original[4 * from..4 * from + 4]);
    }
    // position 0 carries chunk 7, position 3 carries chunk 0
    assert_eq!(&hidden[4..8], &original[28..32]);
    assert_eq!(&hidden[28..32], &original[0..4]);
    assert_eq!(&hidden[80..], &original[40..]);
}

#[test]
fn the_same_as_skipping_and_cycling() {
    for len in 0..=90 {
        let original = sample(len);
        let count = len / 4;
        let mut expected: Vec<u8> = Vec::new();
        for (k, chunk) in original.chunks_exact(4).cycle().skip(7).take(count).enumerate() {
            expected.extend_from_slice(&(k as u32).to_le_bytes());
            expected.extend_from_slice(chunk);
        }
        expected.extend_from_slice(&original[4 * count..]);
        assert_eq!(obfuscate_iter(&original), expected, "length {}", len);
    }
}

#[test]
fn tags_take_two_bytes_from_the_two_hundred_and_fifty_sixth_record() {
    let original = sample(4 * 300);
    let hidden = obfuscate_iter(&original);
    assert_eq!(&hidden[8 * 255..8 * 255 + 4], &[255, 0, 0, 0]);
    assert_eq!(&hidden[8 * 256..8 * 256 + 4], &[0, 1, 0, 0]);
    assert_eq!(&hidden[8 * 299..8 * 299 + 4], &[43, 1, 0, 0]);
}
