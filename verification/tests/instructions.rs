use bvm::instructions::Instruction;
use bvm::instructions::Opcode;

#[test]
fn test_as_u32() {
    assert_eq!(Instruction(0x12345678).as_u32(), 0x12345678);
}

#[test]
fn test_as_hex() {
    assert_eq!(Instruction(0x12345678).as_hex(), "0x12345678".to_owned());
    assert_eq!(Instruction(0x1A).as_hex(), "0x001A".to_owned());
    assert_eq!(Instruction(0).as_hex(), "0x0000".to_owned());
}

#[test]
fn test_as_bin() {
    assert_eq!(
        Instruction(0x12345678).as_bin(),
        "0b10010001101000101011001111000".to_owned()
    );
    assert_eq!(
        Instruction(0).as_bin(),
        "0b000000000000000000000000000".to_owned()
    );
}

#[test]
fn test_get_opcode() {
    assert_eq!(Instruction(0x12345678).get_opcode(), 0x12);
    assert_eq!(Instruction(0x00000000).get_opcode(), 0);
    assert_eq!(Instruction(0xFF000000).get_opcode(), 0xFF);
}

#[test]
fn test_get_ophex() {
    assert_eq!(Instruction(0xFF000000).get_ophex(), "0xFF".to_owned());
    assert_eq!(Instruction(0).get_ophex(), "0x0".to_owned());
}

#[test]
fn test_get_op_decodes_every_symbol() {
    assert_eq!(Instruction(0x00000000).get_op(), Some(Opcode::MOV));
    assert_eq!(Instruction(0x01000000).get_op(), Some(Opcode::MEX));
    assert_eq!(Instruction(0x07123456).get_op(), Some(Opcode::JMP));
    assert_eq!(Instruction(0x0C000000).get_op(), Some(Opcode::ADD));
    assert_eq!(Instruction(0x15000000).get_op(), Some(Opcode::ILX));
}

#[test]
fn test_get_op_unknown_value_is_absent() {
    assert_eq!(Instruction(0xFF000000).get_op(), None);
    assert_eq!(Instruction(0x16000000).get_op(), None);
}

#[test]
fn test_get_bit() {
    let i = Instruction(0b1010);
    assert!(!i.get_bit(0));
    assert!(i.get_bit(1));
    assert!(!i.get_bit(2));
    assert!(i.get_bit(3));
    assert!(Instruction(0x80000000).get_bit(31));
}

#[test]
fn test_mask() {
    assert_eq!(Instruction(0x12345678).mask(0x00FF0000), 0x00340000);
}

#[test]
fn test_shift() {
    assert_eq!(Instruction(0x12345678).shift(24), 0x12);
    assert_eq!(Instruction(0x12345678).shift(-8), 0x34567800);
    assert_eq!(Instruction(0x12345678).shift(0), 0x12345678);
}

#[test]
fn test_smask_field_extraction() {
    let word = Instruction(0x12345678);
    assert_eq!(word.smask(24, 0xFF), 0x12);
    assert_eq!(word.smask(-8, 0xFFFFFFFF), 0x34567800);
    assert_eq!(word.smask(8, 0xFFFF), 0x3456);
}
