use grep_engine::ir::{is_digit, is_word};
use grep_engine::parser::is_ascii_alnum;
use grep_engine::{Inst, MatchResult, ParseError, Parser, Regex, Text, VM};

fn compile(pattern: &str) -> Regex {
    Regex::new(pattern).expect("the pattern compiles")
}

fn program_text(pattern: &str) -> String {
    format!("{:?}", compile(pattern).instrs())
}

fn error_of(pattern: &str) -> ParseError {
    match Regex::new(pattern) {
        Ok(_) => panic!("the pattern compiled"),
        Err(e) => e,
    }
}

#[test]
fn literal_matches_as_substring() {
    let re = compile("abc");
    assert!(re.is_match("xxabcxx"));
    assert!(!re.is_match("ab"));
    assert!(re.is_match("abc"));
    assert!(!re.is_match(""));
}

#[test]
fn anchors_match_whole_text_only() {
    let re = compile("^abc$");
    assert!(re.is_match("abc"));
    assert!(!re.is_match("xabc"));
    assert!(!re.is_match("abcx"));
}

#[test]
fn plus_equals_copy_then_star() {
    for (x, y) in [("a+", "aa*"), ("[bc]+", "[bc][bc]*"), (r"\d+", r"\d\d*"), (".+", "..*")] {
        let a = compile(x);
        let b = compile(y);
        assert_eq!(format!("{:?}", a.instrs()), format!("{:?}", b.instrs()));
        for t in ["", "a", "aa", "xbcb", "12", "x", "bbbbc"] {
            assert_eq!(a.is_match(t), b.is_match(t));
        }
    }
}

#[test]
fn negated_class_accepts_the_complement() {
    let pos = compile("[a-c_x]");
    let neg = compile("[^a-c_x]");
    for c in "abcdxyz_-0Z é".chars() {
        let t = c.to_string();
        assert_eq!(neg.is_match(&t), !pos.is_match(&t));
    }
}

#[test]
fn greedy_star_backtracks() {
    let re = compile("a*ab");
    assert!(!re.is_match("aaacb"));
    assert!(re.is_match("aaab"));
}

#[test]
fn back_reference_repeats_capture() {
    let re = compile(r"(cat) and \1");
    assert!(re.is_match("cat and cat"));
    assert!(!re.is_match("cat and dog"));
    let re = compile(r"(\d+) (\w+) squares and \1 \2 circles");
    assert!(re.is_match("3 red squares and 3 red circles"));
    assert!(!re.is_match("3 red squares and 4 red circles"));
}

#[test]
fn nested_groups_number_in_preorder() {
    let re = compile(r"('(cat) and \2') is the same as \1");
    assert!(re.is_match("'cat and cat' is the same as 'cat and cat'"));
    assert!(!re.is_match("'cat and cat' is the same as 'cat and dog'"));
}

#[test]
fn compiling_twice_gives_the_same_program() {
    for p in ["a*b", "(x|y)+z", r"[^\d]{2,3}", "^q?$"] {
        let a = compile(p);
        let b = compile(p);
        assert_eq!(format!("{:?}", a.instrs()), format!("{:?}", b.instrs()));
        for t in ["", "ab", "xyz", "aab", "q", "ww1"] {
            assert_eq!(a.is_match(t), b.is_match(t));
        }
    }
}

#[test]
fn errors_are_deterministic() {
    for _ in 0..2 {
        assert_eq!(error_of("[abc"), ParseError::UnclosedCharClass);
        assert_eq!(error_of("a$b"), ParseError::MisplacedAnchor);
    }
}

#[test]
fn each_error_has_its_input() {
    assert_eq!(error_of(r"\x"), ParseError::UnknownEscape('x'));
    assert_eq!(error_of(r"[\q]"), ParseError::UnknownEscape('q'));
    assert_eq!(error_of("ab\\"), ParseError::IncompletedEscape);
    assert_eq!(error_of("[ab\\"), ParseError::IncompletedEscape);
    assert_eq!(error_of("[abc"), ParseError::UnclosedCharClass);
    assert_eq!(error_of("(ab"), ParseError::UnclosedGroup);
    assert_eq!(error_of("(a|b"), ParseError::UnclosedGroup);
    assert_eq!(error_of("a$b"), ParseError::MisplacedAnchor);
    assert_eq!(error_of("a{3,1}"), ParseError::InvalidQuantifier);
    assert_eq!(error_of("a{x}"), ParseError::InvalidQuantifier);
    assert_eq!(error_of("a{2"), ParseError::InvalidQuantifier);
    assert_eq!(error_of("a{99999999999999999999}"), ParseError::ProgramTooLarge);
    assert_eq!(error_of("a{0,99999999999999999999}"), ParseError::ProgramTooLarge);
    assert_eq!(error_of("a)"), ParseError::GroupNumMissError);

}

#[test]
fn quantifier_code_shapes() {
    assert_eq!(program_text("a*"), "[Split(1, 3), Char('a'), Jump(0), Match]");
    assert_eq!(program_text("a+"), "[Char('a'), Split(2, 4), Char('a'), Jump(1), Match]");
    assert_eq!(program_text("a?"), "[Split(1, 2), Char('a'), Match]");
    assert_eq!(
        program_text("(a|b)"),
        "[GroupBegin(1), Split(2, 4), Char('a'), Jump(5), Char('b'), GroupEnd(1), Match]"
    );
    assert_eq!(program_text("a{2}"), "[Char('a'), Char('a'), Match]");
    assert_eq!(program_text("a{1,2}"), "[Char('a'), Split(2, 3), Char('a'), Match]");
    assert_eq!(program_text("a{1,}"), "[Char('a'), Split(2, 4), Char('a'), Jump(1), Match]");
    assert_eq!(program_text(""), "[Match]");
}

#[test]
fn counted_repetition() {
    let re = compile("^a{2,3}$");
    assert!(!re.is_match("a"));
    assert!(re.is_match("aa"));
    assert!(re.is_match("aaa"));
    assert!(!re.is_match("aaaa"));
    let re = compile("^a{2,}$");
    assert!(re.is_match("aaaaa"));
    assert!(!re.is_match("a"));
    let re = compile("^(ab){2}$");
    assert!(re.is_match("abab"));
    assert!(!re.is_match("ab"));
}

#[test]
fn alternation_inside_groups() {
    let re = compile("(cat|dog)s");
    assert!(re.is_match("dogs"));
    assert!(re.is_match("cats"));
    assert!(!re.is_match("cows"));
    let re = compile("^(a|b|c)$");
    assert!(re.is_match("c"));
    assert!(!re.is_match("d"));
    let re = compile(r"^(a|ab)\1$");
    assert!(re.is_match("abab"));
    assert!(re.is_match("aa"));
    assert!(!re.is_match("aab"));
}

#[test]
fn class_ranges() {
    let re = compile("^[a-c]$");
    assert!(re.is_match("b"));
    assert!(!re.is_match("d"));
    assert!(!re.is_match("-"));
    let re = compile("^[c-a]$");
    assert!(re.is_match("-"));
    assert!(re.is_match("c"));
    assert!(!re.is_match("b"));
    let re = compile("^[a-9]$");
    assert!(re.is_match("-"));
    assert!(!re.is_match("5"));
    let re = compile("^[a-]$");
    assert!(re.is_match("a"));
    assert!(re.is_match("-"));
    let re = compile(r"^[\d]$");
    assert!(re.is_match("7"));
    assert!(!re.is_match("x"));
    let re = compile(r"^[\w]+$");
    assert!(re.is_match("a_Z9"));
    assert!(!re.is_match("a b"));
    let re = compile("^[^]$");
    assert!(re.is_match("q"));
}

#[test]
fn translate_range_expands_same_kind_only() {
    assert_eq!(Parser::translate_range('a', 'e'), vec!['a', 'b', 'c', 'd', 'e']);
    assert_eq!(Parser::translate_range('0', '3'), vec!['0', '1', '2', '3']);
    assert_eq!(Parser::translate_range('e', 'a'), vec!['e', '-', 'a']);
    assert_eq!(Parser::translate_range('a', 'Z'), vec!['a', '-', 'Z']);
}

#[test]
fn word_class_uses_unicode_alphanumerics() {
    let re = compile(r"^\w$");
    assert!(re.is_match("é"));
    assert!(re.is_match("_"));
    assert!(!re.is_match("#"));
    assert!(!re.is_match("×"));
}

#[test]
fn non_ascii_text() {
    let re = compile("é+x");
    assert!(re.is_match("caféééx"));
    assert!(!re.is_match("cafex"));
    let re = compile(r"^(é.)\1$");
    assert!(re.is_match("éøéø"));
    assert!(!re.is_match("éøéo"));
}

#[test]
fn end_anchor_and_empty_text() {
    assert!(compile("$").is_match(""));
    assert!(compile("b*$").is_match("a"));
    assert!(compile("").is_match("anything"));
    assert!(compile("^").is_match(""));
    assert!(!compile("^a").is_match("ba"));
}

#[test]
fn empty_loop_body_terminates() {
    let re = compile("(a*)*b");
    assert!(!re.is_match("aaac"));
    assert!(re.is_match("aab"));
}

#[test]
fn backref_to_missing_group_fails() {
    let re = compile(r"a\3");
    assert!(!re.is_match("aa"));
}

#[test]
fn instruction_predicate() {
    assert!(Inst::Char('a').is_match(&'a'));
    assert!(!Inst::Char('a').is_match(&'b'));
    assert!(Inst::AnyChar.is_match(&'z'));
    assert!(Inst::Digit.is_match(&'5'));
    assert!(!Inst::Digit.is_match(&'x'));
    assert!(Inst::MetaChar.is_match(&'_'));
    let class = Inst::CharClass { negated: false, chars: vec!['x', 'y'] };
    assert!(class.is_match(&'y'));
    let negated = Inst::CharClass { negated: true, chars: vec!['x', 'y'] };
    assert!(!negated.is_match(&'y'));
    assert!(negated.is_match(&'q'));
}

#[test]
fn text_cursor() {
    // "a" is one byte, "é" two, " " and "b" one each.
    let text = Text::new("aé b");
    assert_eq!(text.char_at(0), Some('a'));
    assert_eq!(text.char_at(1), Some('é'));
    assert_eq!(text.char_at(2), None);
    assert_eq!(text.char_at(3), Some(' '));
    assert_eq!(text.char_at(5), None);
    assert!(text.matchwith_at(3, &' '));
    assert!(!text.matchwith_at(3, &'b'));
    assert!(text.is_end(5));
    assert!(text.is_end(2));
    assert!(!text.is_end(4));
    assert_eq!(text.next_cursor_unsafe(1), 3);
    assert_eq!(text.next_cursor_unsafe(0), 1);
    assert_eq!(text.slice(1, 4), "é ");
    assert_eq!(text.slice(4, 1), "");
    assert_eq!(text.slice(2, 4), "");
    assert_eq!(text.slice(0, 5), "aé b");
    assert_eq!(text.text(), "aé b");
    assert_eq!(text.len(), 4);
    assert_eq!(text.byte_len(), 5);
    assert_eq!(text.position(3), Some(2));
    assert_eq!(text.position(5), Some(4));
    assert_eq!(text.position(2), None);
    assert_eq!(text.char_of(1), 'é');
}

#[test]
fn text_cursor_wide_characters() {
    let text = Text::new("éa");
    assert_eq!(text.char_at(1), None);
    assert_eq!(text.char_at(2), Some('a'));
    let one = Text::new("é");
    assert_eq!(one.next_cursor_unsafe(0), 2);
    let text = Text::new("€𝄞x");
    assert_eq!(text.char_at(3), Some('𝄞'));
    assert_eq!(text.next_cursor_unsafe(3), 7);
    assert_eq!(text.char_at(7), Some('x'));
    assert_eq!(Text::new("").char_at(0), None);
}

#[test]
fn back_reference_advances_by_bytes() {
    let instrs = vec![
        Inst::GroupBegin(1),
        Inst::AnyChar,
        Inst::AnyChar,
        Inst::GroupEnd(1),
        Inst::Ref(1),
        Inst::End,
        Inst::Match,
    ];
    let text = Text::new("é€é€");
    let mut vm = VM::new(&instrs);
    assert!(vm.run(0, &text, 0));
    let text = Text::new("é€é€x");
    let mut vm = VM::new(&instrs);
    assert!(!vm.run(0, &text, 0));
    assert!(compile(r"^(é€)\1x$").is_match("é€é€x"));
}

#[test]
fn large_repetition_counts() {
    let re = compile("^a{1001}$");
    assert_eq!(re.instrs().len(), 1004);
    assert!(re.is_match(&"a".repeat(1001)));
    assert!(!re.is_match(&"a".repeat(1000)));
    assert_eq!(error_of("a{3000,2000}"), ParseError::InvalidQuantifier);
}

#[test]
fn translate_range_takes_any_characters() {
    assert_eq!(Parser::translate_range('é', 'ü'), vec!['é', '-', 'ü']);
    assert_eq!(Parser::translate_range('#', '%'), vec!['#', '-', '%']);
}

#[test]
fn vm_capture_rollback() {
    // (a|ab)c\1 on "abca": the first branch captures "a", fails at c,
    // then the second captures "ab" and the reference needs "ab".
    let re = compile(r"^(a|ab)c\1$");
    assert!(re.is_match("abcab"));
    assert!(!re.is_match("abca"));
    let instrs = vec![Inst::GroupBegin(1), Inst::AnyChar, Inst::GroupEnd(1), Inst::Ref(1), Inst::Match];
    let text = Text::new("xx");
    let mut vm = VM::new(&instrs);
    assert!(vm.run(0, &text, 0));
    let text = Text::new("xy");
    let mut vm = VM::new(&instrs);
    assert!(!vm.run(0, &text, 0));
    assert!(!vm.run(7, &text, 0));
}

#[test]
fn vm_context_methods() {
    let instrs = vec![Inst::GroupBegin(1), Inst::GroupEnd(1), Inst::Ref(1), Inst::Match];
    let text = Text::new("abab");
    let mut vm = VM::new(&instrs);
    vm.save_context(1, 0);
    vm.fill_back(1, 2);
    vm.restore_context(1, (0, Some(2)));
    assert!(vm.run(2, &text, 2));
    vm.restore_context(1, (0, None));
    assert!(!vm.run(2, &text, 2));
}

#[test]
fn match_result_holds_its_values() {
    let r = MatchResult::new(true, vec![(0, 3)]);
    assert!(r.is_match());
    assert_eq!(r.captured(), &vec![(0, 3)]);
}

#[test]
fn parser_compiles_directly() {
    let program = Parser::new("ab").compile().expect("compiles");
    assert_eq!(format!("{:?}", program), "[Char('a'), Char('b'), Match]");
}

#[test]
fn no_depth_cap_on_runs() {
    let instrs = vec![
        Inst::Jump(1),
        Inst::Jump(2),
        Inst::Split(3, 5),
        Inst::Ref(1),
        Inst::Match,
        Inst::GroupEnd(1),
        Inst::Jump(1),
    ];
    let text = Text::new("");
    let mut vm = VM::new(&instrs);
    assert!(vm.run(0, &text, 0));
    assert!(vm.run(1, &text, 0));
    let mut anchored = instrs;
    anchored[0] = Inst::Start;
    let mut vm = VM::new(&anchored);
    assert!(vm.run(0, &text, 0));
}

#[test]
fn cycles_that_change_captures_are_followed() {
    let mut instrs: Vec<Inst> = (0..8).map(|i| Inst::Jump(i + 1)).collect();
    instrs.extend(vec![
        Inst::Split(9, 11),
        Inst::Ref(3),
        Inst::Match,
        Inst::Split(12, 16),
        Inst::Ref(2),
        Inst::GroupBegin(3),
        Inst::GroupEnd(3),
        Inst::Jump(1),
        Inst::Split(17, 21),
        Inst::Ref(1),
        Inst::GroupBegin(2),
        Inst::GroupEnd(2),
        Inst::Jump(1),
        Inst::GroupBegin(1),
        Inst::GroupEnd(1),
        Inst::Jump(1),
    ]);
    let text = Text::new("x");
    let mut vm = VM::new(&instrs);
    assert!(vm.run(1, &text, 1));
    let mut vm = VM::new(&instrs);
    assert!(vm.run(0, &text, 1));
    assert!(compile(r"(()|\2())*\3").is_match(""));
}

#[test]
fn character_predicates() {
    assert!(is_digit('0') && is_digit('9'));
    assert!(!is_digit('a') && !is_digit('٣'));
    assert!(is_word('a') && is_word('_') && is_word('ß') && is_word('7'));
    assert!(!is_word('-') && !is_word(' '));
    assert!(is_ascii_alnum('q') && is_ascii_alnum('Q') && is_ascii_alnum('3'));
    assert!(!is_ascii_alnum('é') && !is_ascii_alnum('_'));
}
