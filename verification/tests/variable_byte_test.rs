use search_engine::index::variable_byte;
use search_engine::index::variable_byte_encoder;

#[test]
fn encode_known_values() {
    assert_eq!(variable_byte::encode(0), vec![128]);
    assert_eq!(variable_byte::encode(5), vec![133]);
    assert_eq!(variable_byte::encode(127), vec![255]);
    assert_eq!(variable_byte::encode(128), vec![1, 128]);
    assert_eq!(variable_byte::encode(1337), vec![10, 185]);
    assert_eq!(variable_byte::encode(u32::MAX), vec![15, 127, 127, 127, 255]);
}

#[test]
fn decode_gives_back_encoded_numbers() {
    for n in [0u32, 1, 127, 128, 300, 16383, 16384, 1337, 2097151, 2097152, u32::MAX] {
        let mut bytes = variable_byte::encode(n);
        let len = bytes.len() as u32;
        while bytes.len() < 5 {
            bytes.push(7);
        }
        assert_eq!(variable_byte::decode(&bytes), Some((n, len)));
    }
}

#[test]
fn decode_without_terminator() {
    assert_eq!(variable_byte::decode(&[1, 2, 3, 4, 5]), None);
    assert_eq!(variable_byte::decode(&[1, 2]), None);
    assert_eq!(variable_byte::decode(&[]), None);
    assert_eq!(variable_byte::decode(&[0, 0, 0, 0, 0, 130]), None);
}

#[test]
fn prepend_moves_bytes_to_the_front() {
    let mut stuff = vec![1u8, 2];
    let mut target = vec![3u8, 4];
    variable_byte::prepend(&mut stuff, &mut target);
    assert_eq!(target, vec![1, 2, 3, 4]);
    assert!(stuff.is_empty());
}

#[test]
fn vb_encode_values() {
    assert_eq!(variable_byte_encoder::vb_encode(0), vec![0]);
    assert_eq!(variable_byte_encoder::vb_encode(1337), vec![10, 185]);
    assert_eq!(variable_byte_encoder::prepend(vec![3, 4], vec![1, 2]), vec![1, 2, 3, 4]);
}
