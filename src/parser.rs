use vstd::prelude::*;

use crate::codegen::{
    alt_code, append_code, closed_code, targets_below, copy_code, group_code, lemma_alt_closed, lemma_group_closed,
    lemma_opt_closed, lemma_plus_closed, lemma_seq_closed, lemma_star_closed, lemma_times_closed,
    opt_code, plus_code, repeat_code, repeat_len, seq_code, shift_into, star_code,
    times_code, MAX_LEN,
};
use crate::ir::{code_view, lemma_code_view_push, lemma_code_view_update, Inst, InstView};

verus! {

/// Why a pattern does not compile.
#[derive(Debug, Clone, Copy, PartialEq, Eq, Structural)]
pub enum ParseError {
    /// `\` followed by a character that is no escape.
    UnknownEscape(char),
    /// The pattern ends right after `\`.
    IncompletedEscape,
    /// `[` without a closing `]`.
    UnclosedCharClass,
    /// `(` without a closing `)`.
    UnclosedGroup,
    /// `$` followed by more of the pattern.
    MisplacedAnchor,
    /// A malformed `{m,n}`, or `m > n`.
    InvalidQuantifier,
    /// A jump or split target could not be resolved.
    PatchError,
    /// `)` without an open group.
    GroupNumMissError,
    /// The program, or a part of it, would exceed the size limit.
    ProgramTooLarge,
}

/// A parsed part of the pattern: its code, the position after it and the
/// number of groups opened so far.
pub struct Parsed {
    pub code: Seq<InstView>,
    pub pos: int,
    pub groups: int,
}

pub open spec fn at(s: Seq<char>, pos: int, c: char) -> bool {
    0 <= pos < s.len() && s[pos] == c
}

/// Whether the expression that starts at `pos` ends there: at the end of
/// the pattern or, inside a group, at `)` or `|`.
pub open spec fn ends_expr(s: Seq<char>, pos: int, depth: int) -> bool {
    pos >= s.len() || (depth > 0 && (s[pos] == ')' || s[pos] == '|'))
}

/// `code` as a result, unless it is larger than the limit.
pub open spec fn limited(code: Seq<InstView>, pos: int, groups: int) -> Result<Parsed, ParseError> {
    if code.len() > MAX_LEN {
        Err(ParseError::ProgramTooLarge)
    } else {
        Ok(Parsed { code, pos, groups })
    }
}

pub open spec fn is_lower_spec(c: char) -> bool {
    'a' <= c && c <= 'z'
}

pub open spec fn is_upper_spec(c: char) -> bool {
    'A' <= c && c <= 'Z'
}

pub open spec fn is_ascii_alnum_spec(c: char) -> bool {
    crate::ir::is_digit_spec(c) || is_lower_spec(c) || is_upper_spec(c)
}

/// The characters from `a` to `b`, both included, for ASCII `a` and `b`.
pub open spec fn char_range(a: char, b: char) -> Seq<char> {
    Seq::new((b as int - a as int + 1) as nat, |i: int| ((a as int + i) as u8) as char)
}

/// What `a-b` stands for in a class: the range when both ends are digits,
/// both lower case or both upper case letters and `a <= b`; else the three
/// characters themselves.
pub open spec fn range_chars(a: char, b: char) -> Seq<char> {
    let same_kind = (crate::ir::is_digit_spec(a) && crate::ir::is_digit_spec(b)) || (
    is_lower_spec(a) && is_lower_spec(b)) || (is_upper_spec(a) && is_upper_spec(b));
    if same_kind && a <= b {
        char_range(a, b)
    } else {
        seq![a, '-', b]
    }
}

/// What `\d` stands for in a class.
pub open spec fn digit_chars() -> Seq<char> {
    char_range('0', '9')
}

/// What `\w` stands for in a class.
pub open spec fn word_chars() -> Seq<char> {
    seq!['_'] + char_range('0', '9') + char_range('a', 'z') + char_range('A', 'Z')
}

/// The members of a class from position `p` up to its `]`, after `acc`;
/// and the position after the `]`.
pub open spec fn class_items(s: Seq<char>, p: int, acc: Seq<char>) -> Result<
    (Seq<char>, int),
    ParseError,
>
    decreases s.len() - p,
{
    if p < 0 || p >= s.len() {
        Err(ParseError::UnclosedCharClass)
    } else {
        let c = s[p];
        if c == ']' {
            Ok((acc, p + 1))
        } else if c == '\\' {
            if p + 1 >= s.len() {
                Err(ParseError::IncompletedEscape)
            } else if s[p + 1] == 'd' {
                class_items(s, p + 2, acc + digit_chars())
            } else if s[p + 1] == 'w' {
                class_items(s, p + 2, acc + word_chars())
            } else {
                Err(ParseError::UnknownEscape(s[p + 1]))
            }
        } else if is_ascii_alnum_spec(c) && at(s, p + 1, '-') && p + 2 < s.len()
            && is_ascii_alnum_spec(s[p + 2]) {
            class_items(s, p + 3, acc + range_chars(c, s[p + 2]))
        } else {
            class_items(s, p + 1, acc.push(c))
        }
    }
}

/// The class that starts at `p`, right after `[`: whether it is negated,
/// its members, and the position after its `]`.
pub open spec fn parse_class_spec(s: Seq<char>, p: int) -> Result<(bool, Seq<char>, int), ParseError> {
    let negated = at(s, p, '^');
    let start = if negated {
        p + 1
    } else {
        p
    };
    match class_items(s, start, Seq::empty()) {
        Ok((chars, q)) => Ok((negated, chars, q)),
        Err(e) => Err(e),
    }
}

/// The value of a decimal digit.
pub open spec fn digit_value(c: char) -> int {
    c as int - '0' as int
}

/// `v`, or one past the size limit if `v` is above it. A repetition bound
/// that large always asks for more instructions than the limit allows.
pub open spec fn saturate(v: int) -> int {
    if v > MAX_LEN {
        MAX_LEN + 1
    } else {
        v
    }
}

/// The decimal number that starts at `p`, read after `acc`, and the
/// position after its last digit. A value above the size limit is read as
/// one past the limit.
pub open spec fn read_number(s: Seq<char>, p: int, acc: int) -> (int, int)
    decreases s.len() - p,
{
    if 0 <= p < s.len() && crate::ir::is_digit_spec(s[p]) {
        read_number(s, p + 1, saturate(acc * 10 + digit_value(s[p])))
    } else {
        (acc, p)
    }
}

/// The bounds of `{m}`, `{m,}` or `{m,n}` whose `m` starts at `p`, and the
/// position after the `}`; none if the text there has another shape.
pub open spec fn parse_bounds_spec(s: Seq<char>, p: int) -> Option<(nat, Option<nat>, int)> {
    let (m, q) = read_number(s, p, 0);
    if q == p {
        None
    } else if at(s, q, '}') {
        Some((m as nat, Some(m as nat), q + 1))
    } else if at(s, q, ',') {
        let (n, r) = read_number(s, q + 1, 0);
        if r == q + 1 {
            if at(s, r, '}') {
                Some((m as nat, None, r + 1))
            } else {
                None
            }
        } else if !at(s, r, '}') {
            None
        } else {
            Some((m as nat, Some(n as nat), r + 1))
        }
    } else {
        None
    }
}

/// The instruction that matches exactly `c`.
pub open spec fn char_inst(c: char) -> InstView {
    InstView::Char(c)
}

/// The atom at `pos` when it is no group: a literal, `.`, an escape, a
/// class or an anchor; `)` here closes no group. `ng` counts the groups
/// opened before `pos`.
pub open spec fn parse_leaf_spec(s: Seq<char>, pos: int, ng: int) -> Result<Parsed, ParseError> {
    let c = s[pos];
    if c == '.' {
        Ok(Parsed { code: seq![InstView::AnyChar], pos: pos + 1, groups: ng })
    } else if c == '\\' {
        if pos + 1 >= s.len() {
            Err(ParseError::IncompletedEscape)
        } else {
            let d = s[pos + 1];
            if d == 'd' {
                Ok(Parsed { code: seq![InstView::Digit], pos: pos + 2, groups: ng })
            } else if d == 'w' {
                Ok(Parsed { code: seq![InstView::MetaChar], pos: pos + 2, groups: ng })
            } else if '1' <= d && d <= '9' {
                Ok(Parsed { code: seq![InstView::Ref(digit_value(d) as nat)], pos: pos + 2, groups: ng })
            } else {
                Err(ParseError::UnknownEscape(d))
            }
        }
    } else if c == '[' {
        match parse_class_spec(s, pos + 1) {
            Ok((negated, chars, q)) => Ok(
                Parsed { code: seq![InstView::CharClass { negated, chars }], pos: q, groups: ng },
            ),
            Err(e) => Err(e),
        }
    } else if c == '^' {
        Ok(Parsed { code: seq![InstView::Start], pos: pos + 1, groups: ng })
    } else if c == '$' {
        if pos + 1 < s.len() {
            Err(ParseError::MisplacedAnchor)
        } else {
            Ok(Parsed { code: seq![InstView::End], pos: pos + 1, groups: ng })
        }
    } else if c == ')' {
        Err(ParseError::GroupNumMissError)
    } else {
        Ok(Parsed { code: seq![char_inst(c)], pos: pos + 1, groups: ng })
    }
}

/// The atom at `pos`: a group or one of the atoms of `parse_leaf_spec`.
/// `depth` counts the enclosing groups and `ng` the groups opened before
/// `pos`.
pub open spec fn parse_atom_spec(s: Seq<char>, pos: int, depth: int, ng: int) -> Result<
    Parsed,
    ParseError,
>
    decreases s.len() - pos, 0int,
{
    if pos < 0 || pos >= s.len() {
        Err(ParseError::PatchError)
    } else if s[pos] == '(' {
        match parse_alt_spec(s, pos + 1, depth + 1, ng + 1) {
            Ok(b) => if at(s, b.pos, ')') {
                limited(group_code((ng + 1) as nat, b.code), b.pos + 1, b.groups)
            } else {
                Err(ParseError::UnclosedGroup)
            },
            Err(e) => Err(e),
        }
    } else {
        parse_leaf_spec(s, pos, ng)
    }
}

/// The term at `pos`: an atom and the quantifier after it, if any.
pub open spec fn parse_term_spec(s: Seq<char>, pos: int, depth: int, ng: int) -> Result<
    Parsed,
    ParseError,
>
    decreases s.len() - pos, 1int,
{
    match parse_atom_spec(s, pos, depth, ng) {
        Ok(a) => {
            let q = a.pos;
            if at(s, q, '*') {
                limited(star_code(a.code), q + 1, a.groups)
            } else if at(s, q, '+') {
                limited(plus_code(a.code), q + 1, a.groups)
            } else if at(s, q, '?') {
                limited(opt_code(a.code), q + 1, a.groups)
            } else if at(s, q, '{') {
                match parse_bounds_spec(s, q + 1) {
                    Some((m, max, r)) => if max is Some && m > max->0 {
                        Err(ParseError::InvalidQuantifier)
                    } else if repeat_len(a.code.len(), m, max) > MAX_LEN {
                        Err(ParseError::ProgramTooLarge)
                    } else {
                        Ok(Parsed { code: repeat_code(a.code, m, max), pos: r, groups: a.groups })
                    },
                    None => Err(ParseError::InvalidQuantifier),
                }
            } else {
                Ok(a)
            }
        },
        Err(e) => Err(e),
    }
}

/// The terms from `pos` to the end of the expression, compiled after `acc`.
pub open spec fn parse_seq_spec(
    s: Seq<char>,
    pos: int,
    depth: int,
    ng: int,
    acc: Seq<InstView>,
) -> Result<Parsed, ParseError>
    decreases s.len() - pos, 2int,
{
    if ends_expr(s, pos, depth) {
        Ok(Parsed { code: acc, pos, groups: ng })
    } else {
        match parse_term_spec(s, pos, depth, ng) {
            Ok(a) => if pos < a.pos <= s.len() {
                let c = seq_code(acc, a.code);
                if c.len() > MAX_LEN {
                    Err(ParseError::ProgramTooLarge)
                } else {
                    parse_seq_spec(s, a.pos, depth, a.groups, c)
                }
            } else {
                // every term consumes part of the pattern
                Err(ParseError::PatchError)
            },
            Err(e) => Err(e),
        }
    }
}

/// The alternatives from `pos` to the end of the enclosing group.
pub open spec fn parse_alt_spec(s: Seq<char>, pos: int, depth: int, ng: int) -> Result<
    Parsed,
    ParseError,
>
    decreases s.len() - pos, 3int,
{
    match parse_seq_spec(s, pos, depth, ng, Seq::empty()) {
        Ok(a) => if at(s, a.pos, '|') && a.pos >= pos {
            match parse_alt_spec(s, a.pos + 1, depth, a.groups) {
                Ok(b) => limited(alt_code(a.code, b.code), b.pos, b.groups),
                Err(e) => Err(e),
            }
        } else {
            Ok(a)
        },
        Err(e) => Err(e),
    }
}

/// The compiler: a recursive-descent parser over the pattern that emits a
/// flat instruction sequence.
pub struct Parser {
    chars: Vec<char>,
    patch_list: Vec<usize>,
    groups: usize,
}

/// A program whose one `Match` is its last instruction and whose every
/// jump and split target is an instruction of it.
pub open spec fn well_formed_program(p: Seq<InstView>) -> bool {
    &&& p.len() > 0
    &&& p.last() == InstView::Match
    &&& targets_below(p.drop_last(), (p.len() - 1) as nat)
}

/// The program for pattern `s`: the compiled pattern, then `Match`.
pub open spec fn compile_spec(s: Seq<char>) -> Result<Seq<InstView>, ParseError> {
    match parse_seq_spec(s, 0, 0, 0, Seq::empty()) {
        Ok(r) => Ok(r.code.push(InstView::Match)),
        Err(e) => Err(e),
    }
}

} // verus!

verus! {

/// The exec result of a parse function agrees with `expect`, the value of
/// its spec function; `groups` is the group count after the call.
pub open spec fn agrees(
    r: Result<(Vec<Inst>, usize), ParseError>,
    groups: usize,
    expect: Result<Parsed, ParseError>,
) -> bool {
    match r {
        Ok((c, p)) => expect == Ok::<Parsed, ParseError>(Parsed { code: code_view(c@), pos: p as int, groups: groups as int }),
        Err(e) => expect == Err::<Parsed, ParseError>(e),
    }
}

/// A successful parse from `pos` gives a closed fragment within the size
/// limit and a position between `pos` and the end of the pattern, with no
/// more groups than characters read.
pub open spec fn sane(
    r: Result<(Vec<Inst>, usize), ParseError>,
    pos: usize,
    groups: usize,
    len: nat,
) -> bool {
    match r {
        Ok((c, p)) => closed_code(code_view(c@)) && c.len() <= MAX_LEN && pos <= p <= len && groups
            <= p,
        Err(_) => true,
    }
}

/// `i` with its second target, or its target, set to `t`.
pub open spec fn retarget(i: InstView, t: nat) -> InstView {
    match i {
        InstView::Split(a, _) => InstView::Split(a, t),
        InstView::Jump(_) => InstView::Jump(t),
        _ => i,
    }
}

pub fn is_lower(c: char) -> (r: bool)
    ensures
        r == is_lower_spec(c),
{
    'a' <= c && c <= 'z'
}

pub fn is_upper(c: char) -> (r: bool)
    ensures
        r == is_upper_spec(c),
{
    'A' <= c && c <= 'Z'
}

pub fn is_ascii_alnum(c: char) -> (r: bool)
    ensures
        r == is_ascii_alnum_spec(c),
{
    crate::ir::is_digit(c) || is_lower(c) || is_upper(c)
}

/// Appends the characters from `a` to `b` to `acc`.
fn push_range(acc: &mut Vec<char>, a: char, b: char)
    requires
        is_ascii_alnum_spec(a),
        is_ascii_alnum_spec(b),
        a <= b,
    ensures
        final(acc)@ == old(acc)@ + char_range(a, b),
{
    let lo = a as u32;
    let hi = b as u32;
    let mut x: u32 = lo;
    while x <= hi
        invariant
            lo == a as u32,
            hi == b as u32,
            lo <= x <= hi + 1,
            hi < 128,
            acc@ == old(acc)@ + char_range(a, b).take(x - lo),
        decreases hi + 1 - x,
    {
        acc.push((x as u8) as char);
        assert(acc@ =~= old(acc)@ + char_range(a, b).take(x - lo + 1));
        x = x + 1;
    }
    assert(char_range(a, b).take(x - lo) =~= char_range(a, b));
}

impl Parser {
    /// What `start-end` stands for in a class.
    pub fn translate_range(start: char, end: char) -> (r: Vec<char>)
        ensures
            r@ == range_chars(start, end),
    {
        let same_kind = (crate::ir::is_digit(start) && crate::ir::is_digit(end)) || (is_lower(start)
            && is_lower(end)) || (is_upper(start) && is_upper(end));
        let mut r: Vec<char> = Vec::new();
        if same_kind && start <= end {
            push_range(&mut r, start, end);
            assert(r@ =~= range_chars(start, end));
        } else {
            r.push(start);
            r.push('-');
            r.push(end);
            assert(r@ =~= range_chars(start, end));
        }
        r
    }

    /// The class that starts at `p`, right after `[`.
    fn parse_class(&self, p: usize) -> (r: Result<(bool, Vec<char>, usize), ParseError>)
        requires
            p <= self.chars.len(),
        ensures
            match r {
                Ok((negated, chars, q)) => parse_class_spec(self.chars@, p as int) == Ok::<(bool, Seq<char>, int), ParseError>(
                    (negated, chars@, q as int),
                ) && q <= self.chars.len() && p < q,
                Err(e) => parse_class_spec(self.chars@, p as int) == Err::<(bool, Seq<char>, int), ParseError>(e),
            },
    {
        let ghost s = self.chars@;
        let len = self.chars.len();
        let mut negated = false;
        let mut i = p;
        if i < len && self.chars[i] == '^' {
            negated = true;
            i = i + 1;
        }
        let ghost start = i as int;
        let mut acc: Vec<char> = Vec::new();
        loop
            invariant
                s == self.chars@,
                len == s.len(),
                p <= start <= i <= len,
                negated == at(s, p as int, '^'),
                start == (if negated {
                    p + 1
                } else {
                    p as int
                }),
                class_items(s, i as int, acc@) == class_items(s, start, Seq::empty()),
            decreases len - i,
        {
            if i >= len {
                return Err(ParseError::UnclosedCharClass);
            }
            let c = self.chars[i];
            if c == ']' {
                return Ok((negated, acc, i + 1));
            } else if c == '\\' {
                if i + 1 >= len {
                    return Err(ParseError::IncompletedEscape);
                }
                let d = self.chars[i + 1];
                if d == 'd' {
                    push_range(&mut acc, '0', '9');
                } else if d == 'w' {
                    let ghost before = acc@;
                    acc.push('_');
                    push_range(&mut acc, '0', '9');
                    push_range(&mut acc, 'a', 'z');
                    push_range(&mut acc, 'A', 'Z');
                    assert(acc@ =~= before + word_chars());
                } else {
                    return Err(ParseError::UnknownEscape(d));
                }
                i = i + 2;
            } else if is_ascii_alnum(c) && len - i > 2 && self.chars[i + 1] == '-' && is_ascii_alnum(
                self.chars[i + 2],
            ) {
                let range = Parser::translate_range(c, self.chars[i + 2]);
                let mut k: usize = 0;
                let ghost before = acc@;
                while k < range.len()
                    invariant
                        k <= range.len(),
                        acc@ == before + range@.take(k as int),
                    decreases range.len() - k,
                {
                    acc.push(range[k]);
                    assert(acc@ =~= before + range@.take(k as int + 1));
                    k = k + 1;
                }
                assert(range@.take(k as int) =~= range@);
                i = i + 3;
            } else {
                acc.push(c);
                i = i + 1;
            }
        }
    }

    /// The decimal number that starts at `p` and the position after it.
    fn read_number(&self, p: usize) -> (r: (usize, usize))
        requires
            p <= self.chars.len(),
        ensures
            read_number(self.chars@, p as int, 0) == (r.0 as int, r.1 as int),
            p <= r.1 <= self.chars.len(),
            r.0 <= MAX_LEN + 1,
    {
        let ghost s = self.chars@;
        let len = self.chars.len();
        let cap = MAX_LEN as u128;
        assert(cap < 0x2000_0000_0000_0000);
        let mut acc: u128 = 0;
        let mut i = p;
        while i < len && crate::ir::is_digit(self.chars[i])
            invariant
                s == self.chars@,
                len == s.len(),
                p <= i <= len,
                cap == MAX_LEN,
                cap < 0x2000_0000_0000_0000,
                acc <= cap + 1,
                read_number(s, i as int, acc as int) == read_number(s, p as int, 0),
            decreases len - i,
        {
            let d = (self.chars[i] as u32 - '0' as u32) as u128;
            acc = acc * 10 + d;
            if acc > cap {
                acc = cap + 1;
            }
            i = i + 1;
        }
        (acc as usize, i)
    }

    /// The bounds of the counted repetition whose first bound starts at `p`.
    fn parse_bounds(&self, p: usize) -> (r: Option<(usize, Option<usize>, usize)>)
        requires
            p <= self.chars.len(),
        ensures
            match r {
                Some((m, max, q)) => parse_bounds_spec(self.chars@, p as int) == Some(
                    (
                        m as nat,
                        match max {
                            Some(n) => Some(n as nat),
                            None => None,
                        },
                        q as int,
                    ),
                ) && m <= MAX_LEN + 1 && q <= self.chars.len() && p < q && (match max {
                    Some(n) => n <= MAX_LEN + 1,
                    None => true,
                }),
                None => parse_bounds_spec(self.chars@, p as int) is None,
            },
    {
        let len = self.chars.len();
        let (m, q) = self.read_number(p);
        if q == p {
            None
        } else if q < len && self.chars[q] == '}' {
            Some((m, Some(m), q + 1))
        } else if q < len && self.chars[q] == ',' {
            let (n, r) = self.read_number(q + 1);
            if r == q + 1 {
                if r < len && self.chars[r] == '}' {
                    Some((m, None, r + 1))
                } else {
                    None
                }
            } else if !(r < len && self.chars[r] == '}') {
                None
            } else {
                Some((m, Some(n), r + 1))
            }
        } else {
            None
        }
    }

    /// Resolves the most recent pending target: the instruction whose
    /// index is on top of the worklist gets `target`.
    fn patch(&mut self, code: &mut Vec<Inst>, target: usize) -> (r: Result<(), ParseError>)
        ensures
            final(self).chars == old(self).chars,
            final(self).groups == old(self).groups,
            ({
                let pl = old(self).patch_list@;
                let c = code_view(old(code)@);
                (pl.len() > 0 && pl.last() < c.len() && (c[pl.last() as int] is Split
                    || c[pl.last() as int] is Jump)) ==> {
                    &&& r is Ok
                    &&& final(self).patch_list@ == pl.drop_last()
                    &&& code_view(final(code)@) == c.update(
                        pl.last() as int,
                        retarget(c[pl.last() as int], target as nat),
                    )
                }
            }),
    {
        let ghost c = code_view(code@);
        match self.patch_list.pop() {
            Some(i) => {
                if i < code.len() {
                    let new_inst = match &code[i] {
                        Inst::Split(a, _) => Inst::Split(*a, target),
                        Inst::Jump(_) => Inst::Jump(target),
                        _ => {
                            return Err(ParseError::PatchError);
                        },
                    };
                    proof {
                        lemma_code_view_update(code@, i as int, new_inst);
                    }
                    code.set(i, new_inst);
                    Ok(())
                } else {
                    Err(ParseError::PatchError)
                }
            },
            None => Err(ParseError::PatchError),
        }
    }

    /// `atom*`: a split into the loop body or past it, the body, and a jump
    /// back to the split. The split's exit is resolved by backpatching.
    fn generate_zero_or_more_code(&mut self, atom: &Vec<Inst>) -> (r: Result<Vec<Inst>, ParseError>)
        requires
            closed_code(code_view(atom@)),
            atom.len() <= MAX_LEN,
        ensures
            final(self).chars == old(self).chars,
            final(self).groups == old(self).groups,
            final(self).patch_list@ == old(self).patch_list@,
            r is Ok,
            r matches Ok(c) ==> code_view(c@) == star_code(code_view(atom@)),
    {
        let ghost x = code_view(atom@);
        let mut out: Vec<Inst> = Vec::new();
        let split = Inst::Split(1, 0);
        proof {
            lemma_code_view_push(out@, split);
        }
        out.push(split);
        self.patch_list.push(0);
        shift_into(&mut out, atom, 1);
        let jump = Inst::Jump(0);
        proof {
            lemma_code_view_push(out@, jump);
        }
        out.push(jump);
        let target = out.len();
        assert(self.patch_list@.drop_last() == old(self).patch_list@);
        match self.patch(&mut out, target) {
            Ok(()) => {},
            Err(e) => {
                return Err(e);
            },
        }
        assert(code_view(out@) =~= star_code(x));
        Ok(out)
    }

    /// `atom+`: one copy of the atom, then `atom*`.
    fn generate_one_or_more_code(&mut self, atom: &Vec<Inst>) -> (r: Result<Vec<Inst>, ParseError>)
        requires
            closed_code(code_view(atom@)),
            atom.len() <= MAX_LEN,
        ensures
            final(self).chars == old(self).chars,
            final(self).groups == old(self).groups,
            final(self).patch_list@ == old(self).patch_list@,
            r is Ok,
            r matches Ok(c) ==> code_view(c@) == plus_code(code_view(atom@)),
    {
        let mut out = copy_code(atom);
        let star = match self.generate_zero_or_more_code(atom) {
            Ok(c) => c,
            Err(e) => {
                return Err(e);
            },
        };
        proof {
            lemma_star_closed(code_view(atom@));
        }
        append_code(&mut out, &star);
        Ok(out)
    }

    /// `atom?`: a split into the atom or past it, resolved by backpatching.
    fn generate_zero_or_one_code(&mut self, atom: &Vec<Inst>) -> (r: Result<Vec<Inst>, ParseError>)
        requires
            closed_code(code_view(atom@)),
            atom.len() <= MAX_LEN,
        ensures
            final(self).chars == old(self).chars,
            final(self).groups == old(self).groups,
            final(self).patch_list@ == old(self).patch_list@,
            r is Ok,
            r matches Ok(c) ==> code_view(c@) == opt_code(code_view(atom@)),
    {
        let ghost x = code_view(atom@);
        let mut out: Vec<Inst> = Vec::new();
        let split = Inst::Split(1, 0);
        proof {
            lemma_code_view_push(out@, split);
        }
        out.push(split);
        self.patch_list.push(0);
        shift_into(&mut out, atom, 1);
        let target = out.len();
        assert(self.patch_list@.drop_last() == old(self).patch_list@);
        match self.patch(&mut out, target) {
            Ok(()) => {},
            Err(e) => {
                return Err(e);
            },
        }
        assert(code_view(out@) =~= opt_code(x));
        Ok(out)
    }

    /// Group `num` around `body`.
    fn generate_group_code(num: usize, body: &Vec<Inst>) -> (r: Vec<Inst>)
        requires
            closed_code(code_view(body@)),
            body.len() <= MAX_LEN,
        ensures
            code_view(r@) == group_code(num as nat, code_view(body@)),
    {
        let mut out: Vec<Inst> = Vec::new();
        let begin = Inst::GroupBegin(num);
        proof {
            lemma_code_view_push(out@, begin);
        }
        out.push(begin);
        shift_into(&mut out, body, 1);
        let end = Inst::GroupEnd(num);
        proof {
            lemma_code_view_push(out@, end);
        }
        out.push(end);
        assert(code_view(out@) =~= group_code(num as nat, code_view(body@)));
        out
    }

    /// `a|b`: a split over the branches, whose second target is resolved
    /// once `a` is placed, and a jump from the end of `a` past `b`, resolved
    /// once `b` is placed.
    fn generate_alternation_code(&mut self, a: &Vec<Inst>, b: &Vec<Inst>) -> (r: Result<
        Vec<Inst>,
        ParseError,
    >)
        requires
            closed_code(code_view(a@)),
            closed_code(code_view(b@)),
            a.len() <= MAX_LEN,
            b.len() <= MAX_LEN,
        ensures
            final(self).chars == old(self).chars,
            final(self).groups == old(self).groups,
            final(self).patch_list@ == old(self).patch_list@,
            r is Ok,
            r matches Ok(c) ==> code_view(c@) == alt_code(code_view(a@), code_view(b@)),
    {
        let ghost xa = code_view(a@);
        let ghost xb = code_view(b@);
        let mut out: Vec<Inst> = Vec::new();
        let split = Inst::Split(1, 0);
        proof {
            lemma_code_view_push(out@, split);
        }
        out.push(split);
        self.patch_list.push(0);
        shift_into(&mut out, a, 1);
        let jump_at = out.len();
        let jump = Inst::Jump(0);
        proof {
            lemma_code_view_push(out@, jump);
        }
        out.push(jump);
        let second = out.len();
        assert(self.patch_list@.drop_last() == old(self).patch_list@);
        match self.patch(&mut out, second) {
            Ok(()) => {},
            Err(e) => {
                return Err(e);
            },
        }
        self.patch_list.push(jump_at);
        shift_into(&mut out, b, second);
        let end = out.len();
        assert(self.patch_list@.drop_last() == old(self).patch_list@);
        assert(code_view(out@)[jump_at as int] == InstView::Jump(0));
        match self.patch(&mut out, end) {
            Ok(()) => {},
            Err(e) => {
                return Err(e);
            },
        }
        assert(code_view(out@) =~= alt_code(xa, xb));
        Ok(out)
    }
}

} // verus!

verus! {

/// The bound of a repetition as a natural number.
pub open spec fn opt_nat(o: Option<usize>) -> Option<nat> {
    match o {
        Some(n) => Some(n as nat),
        None => None,
    }
}

/// One instruction as a fragment.
fn one_inst(i: Inst) -> (r: Vec<Inst>)
    requires
        !(i@ is Jump),
        !(i@ is Split),
        !(i@ is Match),
    ensures
        code_view(r@) == seq![i@],
        closed_code(code_view(r@)),
        r.len() == 1,
{
    let mut r: Vec<Inst> = Vec::new();
    proof {
        lemma_code_view_push(r@, i);
    }
    r.push(i);
    assert(code_view(r@) =~= seq![i@]);
    r
}

/// `repeat_len` on machine integers.
fn repeat_size(xlen: usize, m: usize, max: Option<usize>) -> (r: u128)
    requires
        xlen <= MAX_LEN,
        m <= MAX_LEN + 1,
        max matches Some(n) ==> m <= n <= MAX_LEN + 1,
    ensures
        r == repeat_len(xlen as nat, m as nat, opt_nat(max)),
{
    let big: u128 = 0x2000_0000_0000_0000;
    assert(MAX_LEN + 1 <= big);
    let x = xlen as u128;
    let a = m as u128;
    assert(a * x <= big * big) by (nonlinear_arith)
        requires
            a <= big,
            x <= big,
    ;
    assert(a * (x + 1) <= big * big) by (nonlinear_arith)
        requires
            a <= big,
            x + 1 <= big,
    ;
    match max {
        Some(n) => {
            let k = (n - m) as u128;
            assert(k * (x + 1) <= big * big) by (nonlinear_arith)
                requires
                    k <= big,
                    x + 1 <= big,
            ;
            a * x + k * (x + 1)
        },
        None => a * x + x + 2,
    }
}

impl Parser {
    /// `atom{m,n}`: `m` copies of the atom, then `n - m` copies of `atom?`;
    /// with no upper bound, `m` copies, then `atom*`.
    fn generate_repeat_code(&mut self, atom: &Vec<Inst>, m: usize, max: Option<usize>) -> (r: Result<
        Vec<Inst>,
        ParseError,
    >)
        requires
            closed_code(code_view(atom@)),
            atom.len() <= MAX_LEN,
            max matches Some(n) ==> m <= n,
            repeat_len(atom.len() as nat, m as nat, opt_nat(max)) <= MAX_LEN,
        ensures
            final(self).chars == old(self).chars,
            final(self).groups == old(self).groups,
            final(self).patch_list@ == old(self).patch_list@,
            r is Ok,
            r matches Ok(c) ==> code_view(c@) == repeat_code(code_view(atom@), m as nat, opt_nat(max))
                && c.len() <= MAX_LEN && closed_code(code_view(c@)),
    {
        let ghost x = code_view(atom@);
        let xlen = atom.len();
        assert(m * xlen <= repeat_len(xlen as nat, m as nat, opt_nat(max)));
        let mut out: Vec<Inst> = Vec::new();
        let mut i: usize = 0;
        while i < m
            invariant
                i <= m,
                x == code_view(atom@),
                closed_code(x),
                xlen == x.len(),
                m * xlen <= MAX_LEN,
                code_view(out@) == times_code(x, i as nat),
                out.len() == i * xlen,
            decreases m - i,
        {
            proof {
                lemma_times_closed(x, i as nat);
                assert((i + 1) * xlen <= m * xlen) by (nonlinear_arith)
                    requires
                        i < m,
                ;
                assert((i + 1) * xlen == i * xlen + xlen) by (nonlinear_arith);
            }
            append_code(&mut out, atom);
            i = i + 1;
        }
        proof {
            lemma_times_closed(x, m as nat);
        }
        match max {
            Some(n) => {
                let opt = match self.generate_zero_or_one_code(atom) {
                    Ok(c) => c,
                    Err(e) => {
                        return Err(e);
                    },
                };
                let ghost o = code_view(opt@);
                proof {
                    lemma_opt_closed(x);
                }
                let k = n - m;
                assert(k * (xlen + 1) <= MAX_LEN);
                assert(opt.len() == o.len());
                let mut tail: Vec<Inst> = Vec::new();
                let mut j: usize = 0;
                while j < k
                    invariant
                        j <= k,
                        o == code_view(opt@),
                        closed_code(o),
                        o.len() == xlen + 1,
                        opt.len() == xlen + 1,
                        k * (xlen + 1) <= MAX_LEN,
                        code_view(tail@) == times_code(o, j as nat),
                        tail.len() == j * (xlen + 1),
                    decreases k - j,
                {
                    proof {
                        lemma_times_closed(o, j as nat);
                        assert((j + 1) * (xlen + 1) <= k * (xlen + 1)) by (nonlinear_arith)
                            requires
                                j < k,
                        ;
                        assert((j + 1) * (xlen + 1) == j * (xlen + 1) + (xlen + 1))
                            by (nonlinear_arith);
                    }
                    append_code(&mut tail, &opt);
                    j = j + 1;
                }
                proof {
                    lemma_times_closed(o, k as nat);
                    lemma_seq_closed(times_code(x, m as nat), times_code(o, k as nat));
                }
                append_code(&mut out, &tail);
                Ok(out)
            },
            None => {
                let star = match self.generate_zero_or_more_code(atom) {
                    Ok(c) => c,
                    Err(e) => {
                        return Err(e);
                    },
                };
                proof {
                    lemma_star_closed(x);
                    lemma_seq_closed(times_code(x, m as nat), star_code(x));
                }
                append_code(&mut out, &star);
                Ok(out)
            },
        }
    }

    /// The atom at `pos`.
    fn parse_atom(&mut self, pos: usize, depth: usize) -> (r: Result<(Vec<Inst>, usize), ParseError>)
        requires
            pos < old(self).chars.len(),
            old(self).groups <= pos,
            depth <= pos,
        ensures
            final(self).chars == old(self).chars,
            final(self).patch_list@ == old(self).patch_list@,
            agrees(
                r,
                final(self).groups,
                parse_atom_spec(
                    old(self).chars@,
                    pos as int,
                    depth as int,
                    old(self).groups as int,
                ),
            ),
            sane(r, pos, final(self).groups, old(self).chars.len() as nat),
            r matches Ok((_, p)) ==> pos < p,
        decreases old(self).chars.len() - pos, 0int,
    {
        let len = self.chars.len();
        let c = self.chars[pos];
        if c == '.' {
            Ok((one_inst(Inst::AnyChar), pos + 1))
        } else if c == '\\' {
            if pos + 1 >= len {
                return Err(ParseError::IncompletedEscape);
            }
            let d = self.chars[pos + 1];
            if d == 'd' {
                Ok((one_inst(Inst::Digit), pos + 2))
            } else if d == 'w' {
                Ok((one_inst(Inst::MetaChar), pos + 2))
            } else if '1' <= d && d <= '9' {
                let n = (d as u32 - '0' as u32) as usize;
                Ok((one_inst(Inst::Ref(n)), pos + 2))
            } else {
                Err(ParseError::UnknownEscape(d))
            }
        } else if c == '[' {
            match self.parse_class(pos + 1) {
                Ok((negated, chars, q)) => Ok(
                    (one_inst(Inst::CharClass { negated, chars }), q),
                ),
                Err(e) => Err(e),
            }
        } else if c == '^' {
            Ok((one_inst(Inst::Start), pos + 1))
        } else if c == '$' {
            if pos + 1 < len {
                Err(ParseError::MisplacedAnchor)
            } else {
                Ok((one_inst(Inst::End), pos + 1))
            }
        } else if c == '(' {
            let n = self.groups + 1;
            self.groups = n;
            match self.parse_alt(pos + 1, depth + 1) {
                Ok((body, q)) => {
                    if q < len && self.chars[q] == ')' {
                        let g = Parser::generate_group_code(n, &body);
                        proof {
                            lemma_group_closed(n as nat, code_view(body@));
                        }
                        if g.len() > MAX_LEN {
                            Err(ParseError::ProgramTooLarge)
                        } else {
                            Ok((g, q + 1))
                        }
                    } else {
                        Err(ParseError::UnclosedGroup)
                    }
                },
                Err(e) => Err(e),
            }
        } else if c == ')' {
            Err(ParseError::GroupNumMissError)
        } else {
            Ok((one_inst(Inst::Char(c)), pos + 1))
        }
    }

    /// The term at `pos`: an atom and its quantifier, if any.
    fn parse_term(&mut self, pos: usize, depth: usize) -> (r: Result<(Vec<Inst>, usize), ParseError>)
        requires
            pos < old(self).chars.len(),
            old(self).groups <= pos,
            depth <= pos,
        ensures
            final(self).chars == old(self).chars,
            final(self).patch_list@ == old(self).patch_list@,
            agrees(
                r,
                final(self).groups,
                parse_term_spec(
                    old(self).chars@,
                    pos as int,
                    depth as int,
                    old(self).groups as int,
                ),
            ),
            sane(r, pos, final(self).groups, old(self).chars.len() as nat),
            r matches Ok((_, p)) ==> pos < p,
        decreases old(self).chars.len() - pos, 1int,
    {
        let (atom, q) = match self.parse_atom(pos, depth) {
            Ok(a) => a,
            Err(e) => {
                return Err(e);
            },
        };
        let ghost x = code_view(atom@);
        let len = self.chars.len();
        if q < len && self.chars[q] == '*' {
            let c = match self.generate_zero_or_more_code(&atom) {
                Ok(c) => c,
                Err(e) => {
                    return Err(e);
                },
            };
            proof {
                lemma_star_closed(x);
            }
            if c.len() > MAX_LEN {
                Err(ParseError::ProgramTooLarge)
            } else {
                Ok((c, q + 1))
            }
        } else if q < len && self.chars[q] == '+' {
            let c = match self.generate_one_or_more_code(&atom) {
                Ok(c) => c,
                Err(e) => {
                    return Err(e);
                },
            };
            proof {
                lemma_plus_closed(x);
            }
            if c.len() > MAX_LEN {
                Err(ParseError::ProgramTooLarge)
            } else {
                Ok((c, q + 1))
            }
        } else if q < len && self.chars[q] == '?' {
            let c = match self.generate_zero_or_one_code(&atom) {
                Ok(c) => c,
                Err(e) => {
                    return Err(e);
                },
            };
            proof {
                lemma_opt_closed(x);
            }
            if c.len() > MAX_LEN {
                Err(ParseError::ProgramTooLarge)
            } else {
                Ok((c, q + 1))
            }
        } else if q < len && self.chars[q] == '{' {
            match self.parse_bounds(q + 1) {
                Some((m, max, r)) => {
                    if let Some(n) = max {
                        if m > n {
                            return Err(ParseError::InvalidQuantifier);
                        }
                    }
                    if repeat_size(atom.len(), m, max) > MAX_LEN as u128 {
                        return Err(ParseError::ProgramTooLarge);
                    }
                    match self.generate_repeat_code(&atom, m, max) {
                        Ok(c) => Ok((c, r)),
                        Err(e) => Err(e),
                    }
                },
                None => Err(ParseError::InvalidQuantifier),
            }
        } else {
            Ok((atom, q))
        }
    }

    /// The terms from `pos` to the end of the expression, one after the
    /// other.
    fn parse_expr(&mut self, pos: usize, depth: usize) -> (r: Result<(Vec<Inst>, usize), ParseError>)
        requires
            pos <= old(self).chars.len(),
            old(self).groups <= pos,
            depth <= pos,
        ensures
            final(self).chars == old(self).chars,
            final(self).patch_list@ == old(self).patch_list@,
            agrees(
                r,
                final(self).groups,
                parse_seq_spec(
                    old(self).chars@,
                    pos as int,
                    depth as int,
                    old(self).groups as int,
                    Seq::empty(),
                ),
            ),
            sane(r, pos, final(self).groups, old(self).chars.len() as nat),
        decreases old(self).chars.len() - pos, 2int,
    {
        let ghost s = self.chars@;
        let len = self.chars.len();
        let mut acc: Vec<Inst> = Vec::new();
        let mut i = pos;
        assert(code_view(acc@) =~= Seq::<InstView>::empty());
        loop
            invariant
                s == self.chars@,
                len == s.len(),
                self.chars == old(self).chars,
                self.patch_list@ == old(self).patch_list@,
                pos <= i <= len,
                self.groups <= i,
                depth <= pos,
                closed_code(code_view(acc@)),
                acc.len() <= MAX_LEN,
                parse_seq_spec(s, i as int, depth as int, self.groups as int, code_view(acc@))
                    == parse_seq_spec(s, pos as int, depth as int, old(self).groups as int, Seq::empty()),
            decreases len - i,
        {
            if i >= len || (depth > 0 && (self.chars[i] == ')' || self.chars[i] == '|')) {
                return Ok((acc, i));
            }
            let (t, q) = match self.parse_term(i, depth) {
                Ok(a) => a,
                Err(e) => {
                    return Err(e);
                },
            };
            proof {
                lemma_seq_closed(code_view(acc@), code_view(t@));
            }
            if acc.len() + t.len() > MAX_LEN {
                return Err(ParseError::ProgramTooLarge);
            }
            append_code(&mut acc, &t);
            i = q;
        }
    }

    /// The alternatives from `pos` to the end of the enclosing group.
    fn parse_alt(&mut self, pos: usize, depth: usize) -> (r: Result<(Vec<Inst>, usize), ParseError>)
        requires
            pos <= old(self).chars.len(),
            old(self).groups <= pos,
            depth <= pos,
        ensures
            final(self).chars == old(self).chars,
            final(self).patch_list@ == old(self).patch_list@,
            agrees(
                r,
                final(self).groups,
                parse_alt_spec(old(self).chars@, pos as int, depth as int, old(self).groups as int),
            ),
            sane(r, pos, final(self).groups, old(self).chars.len() as nat),
        decreases old(self).chars.len() - pos, 3int,
    {
        let len = self.chars.len();
        let (a, q) = match self.parse_expr(pos, depth) {
            Ok(r) => r,
            Err(e) => {
                return Err(e);
            },
        };
        if q < len && self.chars[q] == '|' {
            let (b, r) = match self.parse_alt(q + 1, depth) {
                Ok(r) => r,
                Err(e) => {
                    return Err(e);
                },
            };
            let c = match self.generate_alternation_code(&a, &b) {
                Ok(c) => c,
                Err(e) => {
                    return Err(e);
                },
            };
            proof {
                lemma_alt_closed(code_view(a@), code_view(b@));
            }
            if c.len() > MAX_LEN {
                Err(ParseError::ProgramTooLarge)
            } else {
                Ok((c, r))
            }
        } else {
            Ok((a, q))
        }
    }

    pub fn new(pattern: &str) -> (r: Parser)
        ensures
            r.pattern() == pattern@,
    {
        let mut chars: Vec<char> = Vec::new();
        for c in it: pattern.chars()
            invariant
                chars@ == it.seq().take(it.index() as int),
        {
            chars.push(c);
        }
        assert(chars@ == pattern@);
        Parser { chars, patch_list: Vec::new(), groups: 0 }
    }

    /// The pattern being compiled.
    pub closed spec fn pattern(self) -> Seq<char> {
        self.chars@
    }

    /// Compiles the pattern: the program, which ends in `Match`, or the
    /// first error met.
    pub fn compile(self) -> (r: Result<Vec<Inst>, ParseError>)
        ensures
            match r {
                Ok(p) => compile_spec(self.pattern()) == Ok::<Seq<InstView>, ParseError>(code_view(p@)),
                Err(e) => compile_spec(self.pattern()) == Err::<Seq<InstView>, ParseError>(e),
            },
            r matches Ok(p) ==> well_formed_program(code_view(p@)),
    {
        let mut parser = self;
        parser.groups = 0;
        match parser.parse_expr(0, 0) {
            Ok((code, _)) => {
                let mut code = code;
                let ghost before = code_view(code@);
                proof {
                    lemma_code_view_push(code@, Inst::Match);
                    assert(before.push(InstView::Match).drop_last() =~= before);
                }
                code.push(Inst::Match);
                Ok(code)
            },
            Err(e) => Err(e),
        }
    }
}

} // verus!
