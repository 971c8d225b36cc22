use vstd::prelude::*;

verus! {

/// One instruction of a compiled program. Jump and split targets are
/// absolute instruction indices; group numbers start at 1.
#[derive(Debug)]
pub enum Inst {
    Char(char),
    AnyChar,
    Start,
    End,
    Match,
    Jump(usize),
    Split(usize, usize),
    CharClass { negated: bool, chars: Vec<char> },
    Digit,
    MetaChar,
    GroupBegin(usize),
    GroupEnd(usize),
    Ref(usize),
}

/// The mathematical value of an instruction: the character set of a class
/// is a sequence, targets and group numbers are natural numbers.
pub enum InstView {
    Char(char),
    AnyChar,
    Start,
    End,
    Match,
    Jump(nat),
    Split(nat, nat),
    CharClass { negated: bool, chars: Seq<char> },
    Digit,
    MetaChar,
    GroupBegin(nat),
    GroupEnd(nat),
    Ref(nat),
}

impl View for Inst {
    type V = InstView;

    open spec fn view(&self) -> InstView {
        match self {
            Inst::Char(c) => InstView::Char(*c),
            Inst::AnyChar => InstView::AnyChar,
            Inst::Start => InstView::Start,
            Inst::End => InstView::End,
            Inst::Match => InstView::Match,
            Inst::Jump(t) => InstView::Jump(*t as nat),
            Inst::Split(a, b) => InstView::Split(*a as nat, *b as nat),
            Inst::CharClass { negated, chars } => InstView::CharClass {
                negated: *negated,
                chars: chars@,
            },
            Inst::Digit => InstView::Digit,
            Inst::MetaChar => InstView::MetaChar,
            Inst::GroupBegin(n) => InstView::GroupBegin(*n as nat),
            Inst::GroupEnd(n) => InstView::GroupEnd(*n as nat),
            Inst::Ref(n) => InstView::Ref(*n as nat),
        }
    }
}

/// The values of a sequence of instructions.
pub open spec fn code_view(v: Seq<Inst>) -> Seq<InstView> {
    v.map_values(|i: Inst| i@)
}

pub proof fn lemma_code_view_push(v: Seq<Inst>, i: Inst)
    ensures
        code_view(v.push(i)) == code_view(v).push(i@),
        code_view(v.push(i)).len() == v.len() + 1,
{
    assert(code_view(v.push(i)) =~= code_view(v).push(i@));
}

pub proof fn lemma_code_view_update(v: Seq<Inst>, j: int, i: Inst)
    requires
        0 <= j < v.len(),
    ensures
        code_view(v.update(j, i)) == code_view(v).update(j, i@),
{
    assert(code_view(v.update(j, i)) =~= code_view(v).update(j, i@));
}

/// What `char::is_alphanumeric` returns for `c`: whether `c` is alphabetic
/// or numeric in Unicode's sense.
pub uninterp spec fn alphanumeric(c: char) -> bool;

/// Relies on `char::is_alphanumeric`, which classifies `c` by Unicode's
/// alphabetic and numeric properties.
#[verifier::external_body]
fn is_alphanumeric(c: char) -> (r: bool)
    ensures
        r == alphanumeric(c),
{
    c.is_alphanumeric()
}

/// A decimal digit, `0` to `9`.
pub open spec fn is_digit_spec(c: char) -> bool {
    '0' <= c && c <= '9'
}

/// A word character: alphanumeric or `_`.
pub open spec fn is_word_spec(c: char) -> bool {
    alphanumeric(c) || c == '_'
}

pub fn is_digit(c: char) -> (r: bool)
    ensures
        r == is_digit_spec(c),
{
    '0' <= c && c <= '9'
}

pub fn is_word(c: char) -> (r: bool)
    ensures
        r == is_word_spec(c),
{
    is_alphanumeric(c) || c == '_'
}

impl InstView {
    /// Instructions that test and consume exactly one character.
    pub open spec fn consumes_one(self) -> bool {
        match self {
            InstView::Char(_) | InstView::AnyChar | InstView::CharClass { .. }
            | InstView::Digit | InstView::MetaChar => true,
            _ => false,
        }
    }

    /// Whether a one-character instruction accepts `c`.
    pub open spec fn accepts(self, c: char) -> bool {
        match self {
            InstView::Char(d) => d == c,
            InstView::AnyChar => true,
            InstView::CharClass { negated, chars } => chars.contains(c) != negated,
            InstView::Digit => is_digit_spec(c),
            InstView::MetaChar => is_word_spec(c),
            _ => false,
        }
    }
}

/// Whether `c` occurs in `chars`.
pub fn contains_char(chars: &Vec<char>, c: char) -> (r: bool)
    ensures
        r == chars@.contains(c),
{
    let mut i: usize = 0;
    while i < chars.len()
        invariant
            i <= chars.len(),
            forall|j: int| 0 <= j < i ==> chars@[j] != c,
        decreases chars.len() - i,
    {
        if chars[i] == c {
            return true;
        }
        i = i + 1;
    }
    false
}

/// A copy of a sequence of characters.
pub fn copy_chars(chars: &Vec<char>) -> (r: Vec<char>)
    ensures
        r@ == chars@,
{
    let mut r: Vec<char> = Vec::new();
    let mut i: usize = 0;
    while i < chars.len()
        invariant
            i <= chars.len(),
            r@ == chars@.take(i as int),
        decreases chars.len() - i,
    {
        r.push(chars[i]);
        i = i + 1;
    }
    assert(r@ == chars@);
    r
}

impl Inst {
    /// Whether this one-character instruction accepts `ch`.
    pub fn is_match(&self, ch: &char) -> (r: bool)
        requires
            self@.consumes_one(),
        ensures
            r == self@.accepts(*ch),
    {
        match self {
            Inst::Char(c) => *c == *ch,
            Inst::AnyChar => true,
            Inst::CharClass { negated, chars } => {
                if *negated {
                    !contains_char(chars, *ch)
                } else {
                    contains_char(chars, *ch)
                }
            },
            Inst::Digit => is_digit(*ch),
            Inst::MetaChar => is_word(*ch),
            _ => false,
        }
    }

    /// An equal copy of this instruction.
    pub fn copy(&self) -> (r: Inst)
        ensures
            r@ == self@,
    {
        match self {
            Inst::Char(c) => Inst::Char(*c),
            Inst::AnyChar => Inst::AnyChar,
            Inst::Start => Inst::Start,
            Inst::End => Inst::End,
            Inst::Match => Inst::Match,
            Inst::Jump(t) => Inst::Jump(*t),
            Inst::Split(a, b) => Inst::Split(*a, *b),
            Inst::CharClass { negated, chars } => Inst::CharClass {
                negated: *negated,
                chars: copy_chars(chars),
            },
            Inst::Digit => Inst::Digit,
            Inst::MetaChar => Inst::MetaChar,
            Inst::GroupBegin(n) => Inst::GroupBegin(*n),
            Inst::GroupEnd(n) => Inst::GroupEnd(*n),
            Inst::Ref(n) => Inst::Ref(*n),
        }
    }
}

} // verus!
