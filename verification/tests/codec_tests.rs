use ledger_state::errors::StateError;
use ledger_state::plaintext::{Identifier, Literal, Plaintext};

fn bits_le(n: u64, w: usize) -> Vec<bool> {
    let mut out = Vec::new();
    let mut m = n;
    for _ in 0..w {
        out.push(m % 2 == 1);
        m /= 2;
    }
    out
}

fn bits_be(n: u64, w: usize) -> Vec<bool> {
    let mut out = bits_le(n, w);
    out.reverse();
    out
}

fn lit(variant: u8, bits: Vec<bool>) -> Plaintext {
    Plaintext::Literal(Literal { variant, bits })
}

fn ident(name: &[u8]) -> Identifier {
    Identifier::new(name.to_vec()).unwrap()
}

#[test]
fn literal_encodes_exactly_le() {
    let value = lit(3, vec![true, false, true]);
    let mut expected = vec![false, false];
    expected.extend(bits_le(3, 8));
    expected.extend(bits_le(3, 16));
    expected.extend(vec![true, false, true]);
    assert_eq!(value.to_bits_le().unwrap(), expected);
}

#[test]
fn literal_encodes_exactly_be() {
    let value = lit(3, vec![true, false, true]);
    let mut expected = vec![false, false];
    expected.extend(bits_be(3, 8));
    expected.extend(bits_be(3, 16));
    expected.extend(vec![true, false, true]);
    assert_eq!(value.to_bits_be().unwrap(), expected);
}

#[test]
fn struct_encodes_members_in_declaration_order() {
    let value = Plaintext::Struct(vec![
        (ident(b"a"), lit(1, vec![true])),
        (ident(b"b"), lit(2, vec![false])),
    ]);
    let mut expected = vec![false, true];
    expected.extend(bits_le(2, 8)); // member count
    for (name, variant, bit) in [(b'a', 1u64, true), (b'b', 2u64, false)] {
        expected.extend(bits_le(8, 8)); // identifier bit length
        expected.extend(bits_le(name as u64, 8)); // identifier bits
        expected.extend(bits_le(2 + 8 + 16 + 1, 16)); // member value bit length
        expected.extend(vec![false, false]);
        expected.extend(bits_le(variant, 8));
        expected.extend(bits_le(1, 16));
        expected.push(bit);
    }
    assert_eq!(value.to_bits_le().unwrap(), expected);
}

#[test]
fn encoding_is_deterministic() {
    let value = Plaintext::Array(vec![lit(0, vec![true; 9]), lit(5, vec![false; 4])]);
    assert_eq!(value.to_bits_le().unwrap(), value.to_bits_le().unwrap());
    assert_eq!(value.to_bits_be().unwrap(), value.to_bits_be().unwrap());
}

#[test]
fn distinct_values_encode_differently() {
    let a = lit(1, vec![true, true]);
    let b = lit(1, vec![true, false]);
    let c = lit(2, vec![true, true]);
    assert_ne!(a.to_bits_le().unwrap(), b.to_bits_le().unwrap());
    assert_ne!(a.to_bits_le().unwrap(), c.to_bits_le().unwrap());
}

#[test]
fn le_and_be_encodings_have_equal_length() {
    let value = Plaintext::Struct(vec![
        (ident(b"first"), lit(7, vec![true; 13])),
        (
            ident(b"second"),
            Plaintext::Array(vec![lit(0, vec![false; 3]), lit(9, vec![true; 21])]),
        ),
    ]);
    assert_eq!(
        value.to_bits_le().unwrap().len(),
        value.to_bits_be().unwrap().len()
    );
}

#[test]
fn reordering_struct_members_changes_encoding() {
    let a = Plaintext::Struct(vec![
        (ident(b"x"), lit(1, vec![true])),
        (ident(b"y"), lit(2, vec![false])),
    ]);
    let b = Plaintext::Struct(vec![
        (ident(b"y"), lit(2, vec![false])),
        (ident(b"x"), lit(1, vec![true])),
    ]);
    assert_ne!(a.to_bits_le().unwrap(), b.to_bits_le().unwrap());
    assert_ne!(a.to_bits_be().unwrap(), b.to_bits_be().unwrap());
}

fn many_members(count: usize) -> Plaintext {
    let mut members = Vec::new();
    for i in 0..count {
        let name = vec![b'm', (i / 256) as u8, (i % 256) as u8];
        members.push((ident(&name), lit(0, vec![i % 2 == 0])));
    }
    Plaintext::Struct(members)
}

#[test]
fn struct_with_255_members_encodes() {
    assert!(many_members(255).to_bits_le().is_ok());
    assert!(many_members(255).to_bits_be().is_ok());
}

#[test]
fn struct_with_256_members_is_rejected() {
    assert_eq!(
        many_members(256).to_bits_le().unwrap_err(),
        StateError::ProtocolLimitExceeded
    );
    assert_eq!(
        many_members(256).to_bits_be().unwrap_err(),
        StateError::ProtocolLimitExceeded
    );
}

#[test]
fn oversized_literal_is_rejected_and_sink_untouched() {
    let value = lit(0, vec![true; 70_000]);
    let mut sink = vec![true, true];
    assert_eq!(
        value.write_bits_le(&mut sink).unwrap_err(),
        StateError::ProtocolLimitExceeded
    );
    assert_eq!(sink, vec![true, true]);
}

#[test]
fn write_bits_le_appends() {
    let value = lit(1, vec![true]);
    let mut sink = vec![true];
    value.write_bits_le(&mut sink).unwrap();
    let mut expected = vec![true];
    expected.extend(value.to_bits_le().unwrap());
    assert_eq!(sink, expected);
}

#[test]
fn future_encodes_with_prefixed_names() {
    let future = ledger_state::plaintext::FutureValue {
        program_name: ident(b"credits"),
        program_network: ident(b"aleo"),
        function_name: ident(b"transfer"),
        inputs: vec![lit(1, vec![true, true])],
    };
    let value = Plaintext::Future(future);
    let bits = value.to_bits_le().unwrap();
    assert_eq!(bits[0], true);
    assert_eq!(bits[1], true);
    // identifier length prefix of "credits": 56 bits
    assert_eq!(&bits[2..10], &bits_le(56, 8)[..]);
}

#[test]
fn identifier_length_is_bounded() {
    assert!(Identifier::new(vec![]).is_err());
    assert!(Identifier::new(vec![b'a'; 32]).is_err());
    assert!(Identifier::new(vec![b'a'; 31]).is_ok());
}
