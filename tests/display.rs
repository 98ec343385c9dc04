use instrs::instruction::Instruction;

fn test_fmt(instruction: &Instruction, cmp: &'static str) {
    let mut s = String::new();
    instruction.into_string(&mut s);

    assert_eq!(s, cmp);
}

#[test]
fn unit() {
    let instruction = Instruction::Halt;

    test_fmt(&instruction, "Halt ");
}

#[test]
fn display_tuple() {
    let instruction = Instruction::Jump(64);
    test_fmt(&instruction, "Jump 64, ");
}

#[test]
fn display_struct() {
    let instruction = Instruction::Add { a: 1, b: 2, addr: 3 };
    test_fmt(&instruction, "Add 1,2,3, ")
}

#[test]
fn text_appends() {
    let mut s = String::from("> ");
    Instruction::Jump(4_000_000_000).into_string(&mut s);
    Instruction::Add { a: 0, b: 255, addr: 10 }.into_string(&mut s);
    assert_eq!(s, "> Jump 4000000000, Add 0,255,10, ");
}

#[test]
fn text_parses_back() {
    let mut s: &str = "Add 1,2,3, Jump 64, Halt rest";
    assert_eq!(Instruction::from_string(&mut s), Some(Instruction::Add { a: 1, b: 2, addr: 3 }));
    assert_eq!(Instruction::from_string(&mut s), Some(Instruction::Jump(64)));
    assert_eq!(Instruction::from_string(&mut s), Some(Instruction::Halt));
    assert_eq!(s, "rest");
}

#[test]
fn text_rejects_malformed() {
    let mut s: &str = "Nop ";
    assert_eq!(Instruction::from_string(&mut s), None);
    assert_eq!(s, "Nop ");
    let mut s: &str = "Add 1,256,3, ";
    assert_eq!(Instruction::from_string(&mut s), None);
    let mut s: &str = "Jump 64 ";
    assert_eq!(Instruction::from_string(&mut s), None);
    let mut s: &str = "Jump ,";
    assert_eq!(Instruction::from_string(&mut s), None);
    let mut s: &str = "Jump 4294967296, ";
    assert_eq!(Instruction::from_string(&mut s), None);
    let mut s: &str = "Jump 4294967295, ";
    assert_eq!(Instruction::from_string(&mut s), Some(Instruction::Jump(u32::MAX)));
}
