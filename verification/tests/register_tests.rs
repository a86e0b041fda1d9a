use ledger_state::errors::StateError;
use ledger_state::plaintext::{Identifier, Literal, Plaintext, Value};
use ledger_state::registers::{FinalizeRegisters, FinalizeTypes, Register, same_type};

fn lit(variant: u8, bits: Vec<bool>) -> Plaintext {
    Plaintext::Literal(Literal { variant, bits })
}

fn file_with_u8_register() -> FinalizeRegisters {
    let mut types = FinalizeTypes::new();
    // Locator 0 is declared as an 8-bit literal of kind 1.
    types.declare(0, lit(1, vec![false; 8]));
    FinalizeRegisters::new(types)
}

#[test]
fn store_then_restore_same_shape_keeps_content() {
    let mut registers = file_with_u8_register();
    let a = vec![true, false, true, false, true, false, true, false];
    registers
        .store(&Register::Locator(0), Value::Plaintext(lit(1, a.clone())))
        .unwrap();
    // A structurally identical value replaces the content.
    registers
        .store(&Register::Locator(0), Value::Plaintext(lit(1, a.clone())))
        .unwrap();
    match registers.get(0).unwrap() {
        Plaintext::Literal(l) => {
            assert_eq!(l.variant, 1);
            assert_eq!(l.bits, a);
        }
        _ => panic!("stored a literal"),
    }
}

#[test]
fn store_differently_typed_value_fails() {
    let mut registers = file_with_u8_register();
    registers
        .store(&Register::Locator(0), Value::Plaintext(lit(1, vec![true; 8])))
        .unwrap();
    // A different literal kind is a different structural shape.
    assert_eq!(
        registers
            .store(&Register::Locator(0), Value::Plaintext(lit(2, vec![true; 8])))
            .unwrap_err(),
        StateError::TypeMismatch
    );
    // A different width is a different structural shape.
    assert_eq!(
        registers
            .store(&Register::Locator(0), Value::Plaintext(lit(1, vec![true; 16])))
            .unwrap_err(),
        StateError::TypeMismatch
    );
}

#[test]
fn record_values_are_rejected() {
    let mut registers = file_with_u8_register();
    assert_eq!(
        registers
            .store(&Register::Locator(0), Value::Record(vec![1, 2, 3]))
            .unwrap_err(),
        StateError::ValueKindRejected
    );
}

#[test]
fn member_registers_are_not_assignable() {
    let mut registers = file_with_u8_register();
    let path = vec![Identifier::new(b"field".to_vec()).unwrap()];
    assert_eq!(
        registers
            .store(
                &Register::Member(0, path),
                Value::Plaintext(lit(1, vec![true; 8]))
            )
            .unwrap_err(),
        StateError::NotAssignable
    );
}

#[test]
fn undeclared_register_is_rejected() {
    let mut registers = file_with_u8_register();
    assert_eq!(
        registers
            .store(&Register::Locator(7), Value::Plaintext(lit(1, vec![true; 8])))
            .unwrap_err(),
        StateError::UndeclaredRegister
    );
}

#[test]
fn structural_matcher_is_deep() {
    let ident = |name: &[u8]| Identifier::new(name.to_vec()).unwrap();
    let a = Plaintext::Struct(vec![
        (ident(b"x"), lit(1, vec![true; 8])),
        (ident(b"y"), Plaintext::Array(vec![lit(2, vec![false; 4])])),
    ]);
    let b = Plaintext::Struct(vec![
        (ident(b"x"), lit(1, vec![false; 8])),
        (ident(b"y"), Plaintext::Array(vec![lit(2, vec![true; 4])])),
    ]);
    let c = Plaintext::Struct(vec![
        (ident(b"x"), lit(1, vec![false; 8])),
        (ident(b"z"), Plaintext::Array(vec![lit(2, vec![true; 4])])),
    ]);
    assert!(same_type(&a, &b));
    assert!(!same_type(&a, &c));
}
