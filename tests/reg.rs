use grep_engine::Regex;

fn compile(pattern: &str) -> Regex {
    Regex::new(pattern).expect("the pattern compiles")
}

#[test]
fn reg_test_compile_zero_or_more() {
    let reg = compile("a*bbbb");
    assert!(!reg.instrs().is_empty());
}

#[test]
fn reg_test_compile_group() {
    let reg = compile(r"zz[^abc]d\d");
    assert!(!reg.instrs().is_empty());
}

#[test]
fn reg_test_run_chars() {
    let reg = compile("abc");
    // "abe" does not hold "abc", so a literal pattern does not match it.
    assert_eq!(reg.is_match("abe"), false);
}

#[test]
fn reg_test_negative_group() {
    let reg = compile("[^abc]pple");
    assert_eq!(reg.is_match("applepple"), true);
    assert_eq!(reg.is_match(r"apple"), false);
    assert_eq!(reg.is_match(r"appleapplepple"), true);
}

#[test]
fn reg_test_postive_group() {
    let reg = compile("[abc]pple");
    assert_eq!(reg.is_match("epplepple"), false);
    assert_eq!(reg.is_match(r"apple"), true);
    assert_eq!(reg.is_match(r"pppleapplepple"), true);
}

#[test]
fn reg_test_match_escaped_char() {
    let reg = compile(r"\d apple");
    assert_eq!(reg.is_match("sally has 3 apples"), true);
}

#[test]
fn reg_test_escaped_char_alphanumber() {
    let reg = compile(r"\d \w\w\ws");
    assert_eq!(reg.is_match("sally has 3 dogs"), true);
}

#[test]
fn reg_test_escaped_char_underline() {
    let reg = compile(r"\w");
    assert_eq!(reg.is_match("×#÷_%÷×"), true);
}

#[test]
fn reg_test_match_zero_or_more() {
    let reg = compile("a*ab");
    assert_eq!(reg.is_match("aaacb"), false);
}
