use grep_engine::{Inst, Regex, Text, VM};

fn compile(pattern: &str) -> Regex {
    Regex::new(pattern).expect("the pattern compiles")
}

#[test]
fn regex_test_compile_zero_or_more() {
    let reg = compile("a*bbbb");
    assert!(!reg.instrs().is_empty());
}

#[test]
fn regex_test_compile_group() {
    let reg = compile(r"zz[^abc]d\d");
    assert!(!reg.instrs().is_empty());
}

#[test]
fn regex_test_run_chars() {
    let reg = compile("abc");
    assert_eq!(reg.is_match("abc"), true);
}

#[test]
fn regex_test_negative_group() {
    let reg = compile("[^abc]pple");
    assert_eq!(reg.is_match("applepple"), true);
    assert_eq!(reg.is_match(r"apple"), false);
    assert_eq!(reg.is_match(r"appleapplepple"), true);
}

#[test]
fn regex_test_postive_group() {
    let reg = compile("[abc]pple");
    assert_eq!(reg.is_match("epplepple"), false);
    assert_eq!(reg.is_match(r"apple"), true);
    assert_eq!(reg.is_match(r"pppleapplepple"), true);
}

#[test]
fn regex_test_match_escaped_char() {
    let reg = compile(r"\d apple");
    assert_eq!(reg.is_match("sally has 3 apples"), true);
}

#[test]
fn regex_test_escaped_char_alphanumber() {
    let reg = compile(r"\d \w\w\ws");
    assert_eq!(reg.is_match("sally has 3 dogs"), true);
}

#[test]
fn regex_test_escaped_char_underline() {
    let reg = compile(r"\w");
    assert_eq!(reg.is_match("×#÷_%÷×"), true);
}

#[test]
fn regex_test_match_zero_or_more() {
    let reg = compile("a*ab");
    assert_eq!(reg.is_match("aaacb"), false);
}

#[test]
fn test_match_anchor() {
    let reg = compile("a*ab$");
    assert_eq!(reg.is_match("aaabb"), false);
}

#[test]
fn test_match_wildcard() {
    let reg = compile(r"g.+gol");
    assert_eq!(reg.is_match("goøö0Ogol"), true);
}

#[test]
fn test_char_at() {
    let s = "";
    let text = Text::new(s);
    let a = text.char_at(0);
    assert_eq!(a, None);
}

#[test]
fn test_splice() {
    let a = '0';
    let z = 'z';
    let aa = a as usize;
    let zz = z as usize;
    assert!(aa <= zz);
    let v: Vec<char> = (a..=z).into_iter().collect();
    assert_eq!(v.len(), zz - aa + 1);
}

#[test]
fn test_backref() {
    let instrs: Vec<Inst> = vec![
        Inst::GroupBegin(1),
        Inst::Char('f'),
        Inst::Char('o'),
        Inst::Char('o'),
        Inst::GroupBegin(2),
        Inst::Char('m'),
        Inst::Char('n'),
        Inst::GroupEnd(2),
        Inst::GroupEnd(1),
        Inst::Char('b'),
        Inst::Char('a'),
        Inst::Char('r'),
        Inst::Ref(2),
        Inst::Digit,
        Inst::Match,
    ];

    let input = "foomnbarmn8";
    let text = Text::new(input);

    let mut vm = VM::new(&instrs);
    assert_eq!(vm.run(0, &text, 0), true);
}

#[test]
fn test_backref2() {
    let instrs: Vec<Inst> = vec![
        Inst::GroupBegin(1),
        Inst::Split(2, 6),
        Inst::Char('f'),
        Inst::Char('o'),
        Inst::Char('o'),
        Inst::Jump(9),
        Inst::Char('b'),
        Inst::Char('a'),
        Inst::Char('r'),
        Inst::GroupEnd(1),
        Inst::Char('-'),
        Inst::Ref(1),
        Inst::Digit,
        Inst::Match,
    ];

    let input1 = "foo-foo8";
    let text1 = Text::new(input1);
    let mut vm1 = VM::new(&instrs);
    assert_eq!(vm1.run(0, &text1, 0), true);

    let input2 = "bar-bar8";
    let text2 = Text::new(input2);
    let mut vm2 = VM::new(&instrs);
    assert_eq!(vm2.run(0, &text2, 0), true);

    let input = "foo-bar8";
    let text = Text::new(input);
    let mut vm = VM::new(&instrs);
    assert_eq!(vm.run(0, &text, 0), false);
}

#[test]
fn test_vec_index() {
    let mut v = Vec::<usize>::new();
    for i in 0..9 {
        v.push(i);
    }
    if let Some(num) = v.get_mut(8) {
        *num = 100;
    }
    assert_eq!(v[8], 100);
    assert_eq!(v.len(), 9);
}
