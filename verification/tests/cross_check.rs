use plenty_of_fluids::codec::{decode, Value};

fn to_outside(value: &Value) -> bencode::Bencode {
    match value {
        Value::Integer(n) => bencode::Bencode::Number(*n),
        Value::ByteString(b) => bencode::Bencode::ByteString(b.clone()),
        Value::List(items) => bencode::Bencode::List(items.iter().map(to_outside).collect()),
        Value::Dict(_) => {
            // a dictionary is walked through its own encoding
            bencode::from_vec(value.encode()).unwrap()
        }
    }
}

fn same_as_outside(bytes: &[u8]) {
    let ours = decode(bytes).unwrap();
    let theirs = bencode::from_vec(bytes.to_vec()).unwrap();
    assert_eq!(ours.encode(), theirs.to_bytes().unwrap());
}

#[test]
fn encodings_agree_with_the_bencode_crate() {
    same_as_outside(b"i0e");
    same_as_outside(b"i-7e");
    same_as_outside(b"i9223372036854775807e");
    same_as_outside(b"0:");
    same_as_outside(b"4:spam");
    same_as_outside(b"le");
    same_as_outside(b"l1:ai2elee");
    same_as_outside(b"de");
    same_as_outside(b"d1:ai1e1:bl1:xe1:cd1:k1:vee");
    // keys out of order come out in order from both
    same_as_outside(b"d1:bi1e1:ai2e2:aai3ee");
    // a repeated key keeps its last value in both
    same_as_outside(b"d1:ai1e1:ai2ee");
}

#[test]
fn values_agree_with_the_bencode_crate() {
    let value = Value::List(vec![
        Value::Integer(-1),
        Value::ByteString(vec![0, 255]),
        Value::List(vec![Value::Integer(3)]),
    ]);
    assert_eq!(to_outside(&value).to_bytes().unwrap(), value.encode());
}
