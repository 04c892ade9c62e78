use hpak::codec::read_bytes;
use hpak::codec::read_u16;
use hpak::codec::read_u64;
use hpak::codec::write_bytes;
use hpak::codec::write_u16;
use hpak::codec::write_u64;

#[test]
fn test_string_encode_decode() {
    let string = "Hello World!".to_string();
    let mut bytes = Vec::new();
    write_bytes(&mut bytes, string.as_bytes());
    let (decoded, used) = read_bytes(&bytes, 0).unwrap();

    assert_eq!(string.as_bytes().to_vec(), decoded);
    assert_eq!(used, bytes.len());
}

#[test]
fn test_array_encode_decode() {
    let array = [u16::MIN, u16::MAX];
    let mut bytes = Vec::new();
    for v in array {
        write_u16(&mut bytes, v);
    }
    let (first, p) = read_u16(&bytes, 0).unwrap();
    let (second, used) = read_u16(&bytes, p).unwrap();

    assert_eq!(array, [first, second]);
    assert_eq!(used, bytes.len());
}

#[test]
fn test_vec_encode_decode() {
    let vec = vec![u16::MIN, u16::MAX];
    let mut bytes = Vec::new();
    write_u64(&mut bytes, vec.len() as u64);
    for v in &vec {
        write_u16(&mut bytes, *v);
    }
    let (len, mut pos) = read_u64(&bytes, 0).unwrap();
    let mut decoded = Vec::new();
    for _ in 0..len {
        let (v, p) = read_u16(&bytes, pos).unwrap();
        decoded.push(v);
        pos = p;
    }

    assert_eq!(vec, decoded);
}

#[test]
fn test_tuple_encode_decode() {
    let tuple: (u16, u16, u16, u16, u16, u16, u16, u16, u16, u16, u16, u16) =
        (0, 1, 2, 3, 4, 5, 6, 7, 8, 9, 10, 11);
    let values = [
        tuple.0, tuple.1, tuple.2, tuple.3, tuple.4, tuple.5, tuple.6, tuple.7, tuple.8, tuple.9,
        tuple.10, tuple.11,
    ];
    let mut bytes = Vec::new();
    for v in values {
        write_u16(&mut bytes, v);
    }
    let mut decoded = Vec::new();
    let mut pos = 0;
    for _ in 0..12 {
        let (v, p) = read_u16(&bytes, pos).unwrap();
        decoded.push(v);
        pos = p;
    }

    assert_eq!(values.to_vec(), decoded);
}

#[test]
fn truncated_input_is_rejected() {
    let mut bytes = Vec::new();
    write_u64(&mut bytes, 99);
    // a length prefix that promises 99 bytes with none following
    assert!(read_bytes(&bytes, 0).is_err());
    assert!(read_u64(&bytes, 3).is_err());
}
