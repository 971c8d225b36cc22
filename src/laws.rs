use vstd::prelude::*;

use crate::codegen::{plus_code, seq_code, shift, star_code, MAX_LEN};
use crate::input::{byte_pos, lemma_byte_pos_next, lemma_char_index};
use crate::ir::InstView;
use crate::parser::{
    at, char_inst, class_items, compile_spec, digit_chars, ends_expr, is_ascii_alnum_spec, parse_atom_spec,
    parse_class_spec, parse_seq_spec, parse_term_spec, range_chars, word_chars, ParseError, Parsed,
};
use crate::regex::matches_spec;
use crate::vm::{initial_slots, lemma_step_monotone, reach, step, Slot};

verus! {

/// A character that stands for itself wherever it occurs in a pattern.
pub open spec fn is_plain(c: char) -> bool {
    !(c == '.' || c == '\\' || c == '[' || c == '^' || c == '$' || c == '(' || c == ')' || c
        == '*' || c == '+' || c == '?' || c == '{')
}

/// A pattern made of plain characters and anchors, with `$` only at its
/// end.
pub open spec fn simple_pattern(w: Seq<char>) -> bool {
    forall|j: int|
        0 <= j < w.len() ==> is_plain(#[trigger] w[j]) || w[j] == '^' || (w[j] == '$' && j == w.len()
            - 1)
}

/// The instruction of the character at `j` of a simple pattern.
pub open spec fn simple_inst(w: Seq<char>, j: int) -> InstView {
    if w[j] == '^' {
        InstView::Start
    } else if w[j] == '$' {
        InstView::End
    } else {
        InstView::Char(w[j])
    }
}

/// The code of a simple pattern from position `i` on.
pub open spec fn simple_code(w: Seq<char>, i: int) -> Seq<InstView> {
    Seq::new((w.len() - i) as nat, |j: int| simple_inst(w, i + j))
}

/// One `Char` instruction per character of `s`.
pub open spec fn literal_code(s: Seq<char>) -> Seq<InstView> {
    Seq::new(s.len(), |i: int| char_inst(s[i]))
}

proof fn lemma_literal_code(s: Seq<char>)
    ensures
        literal_code(s).len() == s.len(),
        forall|j: int| 0 <= j < s.len() ==> #[trigger] literal_code(s)[j] == InstView::Char(s[j]),
{
}

/// Whether `s` occurs in `t` as a run of consecutive characters.
pub open spec fn occurs_in(s: Seq<char>, t: Seq<char>) -> bool {
    exists|k: int| 0 <= k && k + s.len() <= t.len() && #[trigger] t.subrange(k, k + s.len()) == s
}

pub proof fn lemma_shift_zero(c: Seq<InstView>)
    ensures
        shift(c, 0) == c,
{
    assert(shift(c, 0) =~= c);
}

/// A one-instruction atom followed by no quantifier adds its instruction
/// to the code.
proof fn lemma_parse_simple_step(w: Seq<char>, i: int, acc: Seq<InstView>)
    requires
        simple_pattern(w),
        0 <= i < w.len(),
        acc.len() + 1 <= MAX_LEN,
    ensures
        parse_seq_spec(w, i, 0, 0, acc) == parse_seq_spec(w, i + 1, 0, 0, acc.push(simple_inst(w, i))),
{
    let inst = simple_inst(w, i);
    assert(is_plain(w[i]) || w[i] == '^' || (w[i] == '$' && i == w.len() - 1));
    assert(!ends_expr(w, i, 0));
    let a = Parsed { code: seq![inst], pos: i + 1, groups: 0 };
    assert(parse_atom_spec(w, i, 0, 0) == Ok::<Parsed, ParseError>(a));
    if i + 1 < w.len() {
        assert(is_plain(w[i + 1]) || w[i + 1] == '^' || (w[i + 1] == '$' && i + 1 == w.len() - 1));
    }
    assert(parse_term_spec(w, i, 0, 0) == Ok::<Parsed, ParseError>(a));
    assert(acc + shift(seq![inst], acc.len()) =~= acc.push(inst));
}

proof fn lemma_parse_simple(w: Seq<char>, i: int, acc: Seq<InstView>)
    requires
        simple_pattern(w),
        0 <= i <= w.len(),
        acc.len() + (w.len() - i) <= MAX_LEN,
    ensures
        parse_seq_spec(w, i, 0, 0, acc) == Ok::<Parsed, ParseError>(
            Parsed { code: acc + simple_code(w, i), pos: w.len() as int, groups: 0 },
        ),
    decreases w.len() - i,
{
    if i == w.len() {
        assert(acc + simple_code(w, i) =~= acc);
    } else {
        lemma_parse_simple_step(w, i, acc);
        lemma_parse_simple(w, i + 1, acc.push(simple_inst(w, i)));
        assert(acc.push(simple_inst(w, i)) + simple_code(w, i + 1) =~= acc + simple_code(w, i));
    }
}

/// A pattern of plain characters and anchors compiles to one instruction
/// per character, then `Match`.
pub proof fn lemma_simple_pattern_compiles(w: Seq<char>)
    requires
        simple_pattern(w),
        w.len() <= MAX_LEN,
    ensures
        compile_spec(w) == Ok::<Seq<InstView>, ParseError>(
            simple_code(w, 0).push(InstView::Match),
        ),
{
    lemma_parse_simple(w, 0, Seq::empty());
    assert(Seq::<InstView>::empty() + simple_code(w, 0) =~= simple_code(w, 0));
}

/// A run of `Char` instructions at `j0` matches exactly the characters it
/// names, one instruction and one unit of depth per character.
proof fn lemma_run_chars(
    p: Seq<InstView>,
    t: Seq<char>,
    s: Seq<char>,
    j0: int,
    j: int,
    k: int,
    caps: Seq<Slot>,
    f: nat,
)
    requires
        0 <= j0,
        j0 + s.len() <= p.len(),
        p.subrange(j0, j0 + s.len()) == literal_code(s),
        0 <= j <= s.len(),
        0 <= k <= t.len(),
        f > s.len() - j,
    ensures
        step(p, t, j0 + j, byte_pos(t, k) as int, caps, f) == (k + (s.len() - j) <= t.len()
            && t.subrange(k, k + (s.len() - j)) == s.subrange(j, s.len() as int) && step(
            p,
            t,
            j0 + s.len(),
            byte_pos(t, k + (s.len() - j)) as int,
            caps,
            (f - (s.len() - j)) as nat,
        )),
    decreases s.len() - j,
{
    if j == s.len() {
        assert(t.subrange(k, k) =~= s.subrange(j, s.len() as int));
    } else {
        assert(p[j0 + j] == p.subrange(j0, j0 + s.len())[j]);
        lemma_literal_code(s);
        assert(p[j0 + j] == InstView::Char(s[j]));
        lemma_char_index(t, k);
        if k < t.len() {
            lemma_byte_pos_next(t, k);
            lemma_run_chars(p, t, s, j0, j + 1, k + 1, caps, (f - 1) as nat);
        }
        if k < t.len() && t[k] == s[j] && k + (s.len() - j) <= t.len() {
            if t.subrange(k + 1, k + (s.len() - j)) == s.subrange(j + 1, s.len() as int) {
                assert forall|m: int| 0 <= m < s.len() - j implies t.subrange(k, k + (s.len() - j))[m]
                    == s.subrange(j, s.len() as int)[m] by {
                    if m > 0 {
                        assert(t.subrange(k + 1, k + (s.len() - j))[m - 1] == s.subrange(
                            j + 1,
                            s.len() as int,
                        )[m - 1]);
                    }
                }
                assert(t.subrange(k, k + (s.len() - j)) =~= s.subrange(j, s.len() as int));
            } else {
                assert(t.subrange(k + 1, k + (s.len() - j)) =~= t.subrange(
                    k,
                    k + (s.len() - j),
                ).subrange(1, s.len() - j));
                assert(s.subrange(j + 1, s.len() as int) =~= s.subrange(
                    j,
                    s.len() as int,
                ).subrange(1, s.len() - j));
            }
        } else if k + (s.len() - j) <= t.len() {
            assert(t.subrange(k, k + (s.len() - j))[0] == t[k]);
            assert(s.subrange(j, s.len() as int)[0] == s[j]);
        }
    }
}

/// The program of a pattern of plain characters.
pub open spec fn literal_program(s: Seq<char>) -> Seq<InstView> {
    literal_code(s).push(InstView::Match)
}

/// A pattern of plain characters compiles to one `Char` per character and
/// matches exactly the texts in which it occurs.
pub proof fn lemma_literal_pattern(s: Seq<char>, t: Seq<char>)
    requires
        forall|j: int| 0 <= j < s.len() ==> is_plain(#[trigger] s[j]),
        s.len() <= MAX_LEN,
    ensures
        compile_spec(s) == Ok::<Seq<InstView>, ParseError>(literal_program(s)),
        matches_spec(literal_program(s), t) == occurs_in(s, t),
{
    assert(simple_pattern(s));
    lemma_simple_pattern_compiles(s);
    lemma_literal_code(s);
    assert forall|j: int| 0 <= j < s.len() implies simple_code(s, 0)[j] == literal_code(s)[j] by {
        assert(is_plain(s[j]));
    }
    assert(simple_code(s, 0) =~= literal_code(s));
    let p = literal_program(s);
    let caps = initial_slots(p);
    let f0 = s.len() + 1;
    assert(p.subrange(0, s.len() as int) =~= literal_code(s));
    assert(!(p[0] is Start)) by {
        if s.len() > 0 {
            assert(p[0] == InstView::Char(s[0]));
        }
    }
    assert(s.subrange(0, s.len() as int) =~= s);
    assert(p[s.len() as int] == InstView::Match);
    assert forall|k: int| 0 <= k <= t.len() implies #[trigger] reach(
        p,
        t,
        0,
        byte_pos(t, k) as int,
        caps,
    ) == (k + s.len() <= t.len() && t.subrange(k, k + s.len()) == s) by {
        let off = byte_pos(t, k) as int;
        lemma_run_chars(p, t, s, 0, 0, k, caps, f0);
        if k + s.len() <= t.len() && t.subrange(k, k + s.len()) == s {
            assert(step(p, t, 0, off, caps, f0));
        }
        if reach(p, t, 0, off, caps) {
            let f = choose|f: nat| #[trigger] step(p, t, 0, off, caps, f);
            let g: nat = if f > f0 {
                f
            } else {
                f0
            };
            lemma_step_monotone(p, t, 0, off, caps, f, g);
            lemma_run_chars(p, t, s, 0, 0, k, caps, g);
        }
    }
    if occurs_in(s, t) {
        let k = choose|k: int|
            0 <= k && k + s.len() <= t.len() && #[trigger] t.subrange(k, k + s.len()) == s;
        assert(reach(p, t, 0, byte_pos(t, k) as int, caps));
    }
    if matches_spec(p, t) {
        let k = choose|k: int|
            0 <= k <= t.len() && #[trigger] reach(p, t, 0, byte_pos(t, k) as int, caps);
        assert(t.subrange(k, k + s.len()) == s);
    }
}

/// `^s$` for plain `s` matches exactly the text `s`.
pub proof fn lemma_anchored_literal(s: Seq<char>, t: Seq<char>)
    requires
        forall|j: int| 0 <= j < s.len() ==> is_plain(#[trigger] s[j]),
        s.len() + 2 <= MAX_LEN,
    ensures
        compile_spec(seq!['^'] + s + seq!['$']) == Ok::<Seq<InstView>, ParseError>(
            seq![InstView::Start] + literal_code(s) + seq![InstView::End, InstView::Match],
        ),
        matches_spec(
            seq![InstView::Start] + literal_code(s) + seq![InstView::End, InstView::Match],
            t,
        ) == (t == s),
{
    let w = seq!['^'] + s + seq!['$'];
    assert(simple_pattern(w)) by {
        assert forall|j: int| 0 <= j < w.len() implies is_plain(#[trigger] w[j]) || w[j] == '^' || (
        w[j] == '$' && j == w.len() - 1) by {
            if 1 <= j <= s.len() {
                assert(w[j] == s[j - 1]);
            }
        }
    }
    lemma_simple_pattern_compiles(w);
    let p = seq![InstView::Start] + literal_code(s) + seq![InstView::End, InstView::Match];
    lemma_literal_code(s);
    assert(simple_code(w, 0).push(InstView::Match) =~= p) by {
        assert forall|j: int| 1 <= j <= s.len() implies simple_code(w, 0)[j] == p[j] by {
            assert(w[j] == s[j - 1]);
            assert(is_plain(s[j - 1]));
            assert(literal_code(s)[j - 1] == InstView::Char(s[j - 1]));
            assert(p[j] == literal_code(s)[j - 1]);
        }
        assert(w[0] == '^');
        assert(w[w.len() - 1] == '$');
    }
    assert(p.subrange(1, 1 + s.len() as int) =~= literal_code(s));
    let caps = initial_slots(p);
    assert(t.take(0) =~= Seq::<char>::empty());
    assert(byte_pos(t, 0) == 0);
    assert(s.subrange(0, s.len() as int) =~= s);
    assert(p[0] is Start);
    assert(p[1 + s.len() as int] == InstView::End);
    assert(p[2 + s.len() as int] == InstView::Match);
    let end = byte_pos(t, s.len() as int) as int;
    let cond = s.len() <= t.len() && t.subrange(0, s.len() as int) == s && s.len() >= t.len();
    assert forall|g: nat| g > s.len() + 2 implies #[trigger] step(p, t, 1, 0, caps, g) == cond by {
        lemma_run_chars(p, t, s, 1, 0, 0, caps, g);
        let f1 = (g - s.len()) as nat;
        assert(step(p, t, 2 + s.len() as int, end, caps, (f1 - 1) as nat));
        if s.len() <= t.len() {
            lemma_char_index(t, s.len() as int);
        }
    }
    if cond {
        assert(step(p, t, 1, 0, caps, s.len() + 3));
    }
    if reach(p, t, 1, 0, caps) {
        let f = choose|f: nat| #[trigger] step(p, t, 1, 0, caps, f);
        let g: nat = if f > s.len() + 3 {
            f
        } else {
            s.len() + 3
        };
        lemma_step_monotone(p, t, 1, 0, caps, f, g);
    }
    assert(matches_spec(p, t) == cond);
    if t == s {
        assert(t.subrange(0, s.len() as int) =~= s);
    }
    if s.len() <= t.len() && t.subrange(0, s.len() as int) == s && s.len() >= t.len() {
        assert(t =~= s);
    }
}

} // verus!

verus! {

/// A class that parses to the end position `q` covers positions `p..q`.
proof fn lemma_class_bounds(s: Seq<char>, p: int, acc: Seq<char>)
    ensures
        class_items(s, p, acc) matches Ok((_, q)) ==> p < q <= s.len(),
    decreases s.len() - p,
{
    if 0 <= p < s.len() {
        let c = s[p];
        if c == ']' {
        } else if c == '\\' {
            if p + 1 < s.len() {
                lemma_class_bounds(s, p + 2, acc + digit_chars());
                lemma_class_bounds(s, p + 2, acc + word_chars());
            }
        } else if is_ascii_alnum_spec(c) && at(s, p + 1, '-') && p + 2 < s.len()
            && is_ascii_alnum_spec(s[p + 2]) {
            lemma_class_bounds(s, p + 3, acc + range_chars(c, s[p + 2]));
        } else {
            lemma_class_bounds(s, p + 1, acc.push(c));
        }
    }
}

/// A class body reads nothing outside the positions it covers: the same
/// characters elsewhere give the same members.
proof fn lemma_class_window(s1: Seq<char>, i1: int, s2: Seq<char>, i2: int, acc: Seq<char>)
    requires
        0 <= i1,
        0 <= i2,
        class_items(s1, i1, acc) is Ok,
        i2 + (class_items(s1, i1, acc)->Ok_0.1 - i1) <= s2.len(),
        s1.subrange(i1, class_items(s1, i1, acc)->Ok_0.1) == s2.subrange(
            i2,
            i2 + (class_items(s1, i1, acc)->Ok_0.1 - i1),
        ),
    ensures
        class_items(s2, i2, acc) == Ok::<(Seq<char>, int), ParseError>(
            (
                class_items(s1, i1, acc)->Ok_0.0,
                i2 + (class_items(s1, i1, acc)->Ok_0.1 - i1),
            ),
        ),
    decreases s1.len() - i1,
{
    let q1 = class_items(s1, i1, acc)->Ok_0.1;
    let n = q1 - i1;
    lemma_class_bounds(s1, i1, acc);
    let w1 = s1.subrange(i1, q1);
    let w2 = s2.subrange(i2, i2 + n);
    assert(w1[0] == w2[0]);
    if n > 1 {
        assert(w1[1] == w2[1]);
    }
    if n > 2 {
        assert(w1[2] == w2[2]);
    }
    let c = s1[i1];
    if c == ']' {
    } else if c == '\\' {
        let d = s1[i1 + 1];
        let next = if d == 'd' {
            acc + digit_chars()
        } else {
            acc + word_chars()
        };
        lemma_class_bounds(s1, i1 + 2, next);
        assert(s1.subrange(i1 + 2, q1) =~= w1.subrange(2, n));
        assert(s2.subrange(i2 + 2, i2 + n) =~= w2.subrange(2, n));
        lemma_class_window(s1, i1 + 2, s2, i2 + 2, next);
    } else if is_ascii_alnum_spec(c) && at(s1, i1 + 1, '-') && i1 + 2 < s1.len()
        && is_ascii_alnum_spec(s1[i1 + 2]) {
        let next = acc + range_chars(c, s1[i1 + 2]);
        lemma_class_bounds(s1, i1 + 3, next);
        assert(s1.subrange(i1 + 3, q1) =~= w1.subrange(3, n));
        assert(s2.subrange(i2 + 3, i2 + n) =~= w2.subrange(3, n));
        lemma_class_window(s1, i1 + 3, s2, i2 + 3, next);
    } else {
        let next = acc.push(c);
        lemma_class_bounds(s1, i1 + 1, next);
        if is_ascii_alnum_spec(c) && at(s2, i2 + 1, '-') && i2 + 2 < s2.len() {
            assert(s1[i1 + 1] == '-');
            assert(c != ']' && c != '\\');
            assert('-' != ']' && '-' != '\\');
            assert(!is_ascii_alnum_spec('-'));
            lemma_class_bounds(s1, i1 + 2, next.push('-'));
            assert(i1 + 2 < q1);
            assert(s1[i1 + 2] == s2[i2 + 2]);
        }
        assert(s1.subrange(i1 + 1, q1) =~= w1.subrange(1, n));
        assert(s2.subrange(i2 + 1, i2 + n) =~= w2.subrange(1, n));
        lemma_class_window(s1, i1 + 1, s2, i2 + 1, next);
    }
}

/// A pattern that is one class compiles to that class, then `Match`.
proof fn lemma_single_class_compiles(w: Seq<char>, negated: bool, chars: Seq<char>)
    requires
        w.len() > 0,
        w[0] == '[',
        parse_class_spec(w, 1) == Ok::<(bool, Seq<char>, int), ParseError>(
            (negated, chars, w.len() as int),
        ),
    ensures
        compile_spec(w) == Ok::<Seq<InstView>, ParseError>(
            seq![InstView::CharClass { negated, chars }, InstView::Match],
        ),
{
    let i = InstView::CharClass { negated, chars };
    let a = Parsed { code: seq![i], pos: w.len() as int, groups: 0 };
    assert(!ends_expr(w, 0, 0));
    assert(parse_atom_spec(w, 0, 0, 0) == Ok::<Parsed, ParseError>(a));
    assert(parse_term_spec(w, 0, 0, 0) == Ok::<Parsed, ParseError>(a));
    assert(Seq::<InstView>::empty() + shift(seq![i], 0) =~= seq![i]);
    assert(parse_seq_spec(w, w.len() as int, 0, 0, seq![i]) == Ok::<Parsed, ParseError>(a));
    assert(seq![i].push(InstView::Match) =~= seq![i, InstView::Match]);
}

/// A program of one character instruction matches a one-character text
/// exactly when the instruction accepts that character.
proof fn lemma_one_inst_matches(i: InstView, c: char)
    requires
        i.consumes_one(),
    ensures
        matches_spec(seq![i, InstView::Match], seq![c]) == i.accepts(c),
{
    let p = seq![i, InstView::Match];
    let t = seq![c];
    let caps = initial_slots(p);
    let w = byte_pos(t, 1) as int;
    assert(t.take(0) =~= Seq::<char>::empty());
    lemma_char_index(t, 0);
    lemma_char_index(t, 1);
    lemma_byte_pos_next(t, 0);
    assert(step(p, t, 1, w, caps, 1));
    if i.accepts(c) {
        assert(step(p, t, 0, 0, caps, 2));
        assert(reach(p, t, 0, byte_pos(t, 0) as int, caps));
    }
    assert(!reach(p, t, 0, w, caps)) by {
        if reach(p, t, 0, w, caps) {
            let f = choose|f: nat| #[trigger] step(p, t, 0, w, caps, f);
        }
    }
    if reach(p, t, 0, 0, caps) {
        let f = choose|f: nat| #[trigger] step(p, t, 0, 0, caps, f);
    }
    if matches_spec(p, t) {
        let k = choose|k: int| 0 <= k <= t.len() && #[trigger] reach(p, t, 0, byte_pos(t, k) as int, caps);
        assert(k == 0 || k == 1);
    }
}

/// A class body free of `]` and `\` runs to the `]` that ends the pattern.
proof fn lemma_class_closes(s: Seq<char>, p: int, acc: Seq<char>)
    requires
        0 <= p < s.len(),
        s.last() == ']',
        forall|j: int| p <= j < s.len() - 1 ==> #[trigger] s[j] != ']' && s[j] != '\\',
    ensures
        class_items(s, p, acc) is Ok,
        class_items(s, p, acc)->Ok_0.1 == s.len(),
    decreases s.len() - p,
{
    if p < s.len() - 1 {
        let c = s[p];
        assert(c != ']' && c != '\\');
        if is_ascii_alnum_spec(c) && at(s, p + 1, '-') && p + 2 < s.len() && is_ascii_alnum_spec(
            s[p + 2],
        ) {
            assert(p + 2 != s.len() - 1);
            lemma_class_closes(s, p + 3, acc + range_chars(c, s[p + 2]));
        } else {
            lemma_class_closes(s, p + 1, acc.push(c));
        }
    }
}

/// The members of the class `[body]`.
pub open spec fn class_members(body: Seq<char>) -> Seq<char> {
    class_items(seq!['['] + body + seq![']'], 1, Seq::empty())->Ok_0.0
}

/// For a class body with no `]` and no `\` that does not start with `^`,
/// `[^body]` compiles to the members of `[body]`, negated, and accepts
/// exactly the characters that `[body]` rejects.
pub proof fn lemma_negated_class(body: Seq<char>, c: char)
    requires
        forall|j: int| 0 <= j < body.len() ==> #[trigger] body[j] != ']' && body[j] != '\\',
        body.len() > 0 ==> body[0] != '^',
    ensures
        compile_spec(seq!['['] + body + seq![']']) == Ok::<Seq<InstView>, ParseError>(
            seq![InstView::CharClass { negated: false, chars: class_members(body) }, InstView::Match],
        ),
        compile_spec(seq!['[', '^'] + body + seq![']']) == Ok::<Seq<InstView>, ParseError>(
            seq![InstView::CharClass { negated: true, chars: class_members(body) }, InstView::Match],
        ),
        matches_spec(
            seq![InstView::CharClass { negated: true, chars: class_members(body) }, InstView::Match],
            seq![c],
        ) == !matches_spec(
            seq![InstView::CharClass { negated: false, chars: class_members(body) }, InstView::Match],
            seq![c],
        ),
{
    let pos = seq!['['] + body + seq![']'];
    let neg = seq!['[', '^'] + body + seq![']'];
    let chars = class_members(body);
    assert forall|j: int| 1 <= j < pos.len() - 1 implies #[trigger] pos[j] != ']' && pos[j] != '\\' by {
        assert(pos[j] == body[j - 1]);
    }
    lemma_class_closes(pos, 1, Seq::empty());
    if body.len() > 0 {
        assert(pos[1] == body[0]);
    }
    assert(!at(pos, 1, '^'));
    lemma_single_class_compiles(pos, false, chars);
    assert(pos.subrange(1, pos.len() as int) =~= neg.subrange(2, neg.len() as int));
    lemma_class_window(pos, 1, neg, 2, Seq::empty());
    assert(at(neg, 1, '^'));
    lemma_single_class_compiles(neg, true, chars);
    lemma_one_inst_matches(InstView::CharClass { negated: true, chars }, c);
    lemma_one_inst_matches(InstView::CharClass { negated: false, chars }, c);
}

} // verus!

verus! {

/// A pattern that is one atom, neither a group nor `$`, whose first
/// character is no quantifier.
pub open spec fn single_atom(x: Seq<char>) -> bool {
    &&& x.len() > 0
    &&& (is_plain(x[0]) || x[0] == '.' || x[0] == '\\' || x[0] == '[' || x[0] == '^')
    &&& parse_atom_spec(x, 0, 0, 0) is Ok
    &&& parse_atom_spec(x, 0, 0, 0)->Ok_0.pos == x.len()
}

/// The code of a single atom.
pub open spec fn atom_code(x: Seq<char>) -> Seq<InstView> {
    parse_atom_spec(x, 0, 0, 0)->Ok_0.code
}

/// A single atom parses the same wherever it stands in a pattern.
#[verifier::rlimit(60)]
proof fn lemma_atom_window(x: Seq<char>, s: Seq<char>, o: int, d: int, g: int)
    requires
        single_atom(x),
        0 <= o,
        o + x.len() <= s.len(),
        s.subrange(o, o + x.len()) == x,
    ensures
        parse_atom_spec(s, o, d, g) == Ok::<Parsed, ParseError>(
            Parsed { code: atom_code(x), pos: o + x.len(), groups: g },
        ),
        atom_code(x).len() == 1,
{
    assert(s[o] == x[0]);
    if x[0] == '\\' {
        assert(s[o + 1] == x[1]);
    } else if x[0] == '[' {
        let neg = at(x, 1, '^');
        let st = if neg {
            2int
        } else {
            1int
        };
        lemma_class_bounds(x, st, Seq::empty());
        assert(s[o + 1] == x[1]);
        assert(at(s, o + 1, '^') == neg);
        assert(x.subrange(st, x.len() as int) =~= s.subrange(o + st, o + x.len()));
        lemma_class_window(x, st, s, o + st, Seq::empty());
    }
    lemma_atom_code_len(x);
}

proof fn lemma_atom_code_len(x: Seq<char>)
    requires
        single_atom(x),
    ensures
        atom_code(x).len() == 1,
{
    let r = parse_atom_spec(x, 0, 0, 0);
    if x[0] == '\\' {
        let d = x[1];
        if d == 'd' {
            assert(r->Ok_0.code == seq![InstView::Digit]);
        } else if d == 'w' {
            assert(r->Ok_0.code == seq![InstView::MetaChar]);
        } else {
            assert(r->Ok_0.code == seq![InstView::Ref(crate::parser::digit_value(d) as nat)]);
        }
    } else if x[0] == '[' {
        let c = parse_class_spec(x, 1);
        assert(r->Ok_0.code == seq![
            InstView::CharClass { negated: c->Ok_0.0, chars: c->Ok_0.1 },
        ]);
    } else if x[0] == '.' {
        assert(r->Ok_0.code == seq![InstView::AnyChar]);
    } else if x[0] == '^' {
        assert(r->Ok_0.code == seq![InstView::Start]);
    } else {
        assert(r->Ok_0.code == seq![char_inst(x[0])]);
    }
}

/// `x+` and `xx*` compile to the same program, so they match the same
/// texts.
#[verifier::rlimit(60)]
pub proof fn lemma_plus_is_copy_then_star(x: Seq<char>, t: Seq<char>)
    requires
        single_atom(x),
    ensures
        compile_spec(x + seq!['+']) is Ok,
        compile_spec(x + seq!['+']) == compile_spec(x + x + seq!['*']),
        matches_spec(compile_spec(x + seq!['+'])->Ok_0, t) == matches_spec(
            compile_spec(x + x + seq!['*'])->Ok_0,
            t,
        ),
{
    let a = atom_code(x);
    let n = x.len() as int;
    let plus = plus_code(a);
    let l = x + seq!['+'];
    assert(l.subrange(0, n) =~= x);
    lemma_atom_window(x, l, 0, 0, 0);
    assert(l[n] == '+');
    assert(plus.len() == 4);
    assert(parse_term_spec(l, 0, 0, 0) == Ok::<Parsed, ParseError>(
        Parsed { code: plus, pos: n + 1, groups: 0 },
    ));
    assert(!ends_expr(l, 0, 0));
    lemma_shift_zero(plus);
    assert(seq_code(Seq::empty(), plus) =~= plus);
    assert(parse_seq_spec(l, n + 1, 0, 0, plus) == Ok::<Parsed, ParseError>(
        Parsed { code: plus, pos: n + 1, groups: 0 },
    ));
    assert(parse_seq_spec(l, 0, 0, 0, Seq::empty()) == Ok::<Parsed, ParseError>(
        Parsed { code: plus, pos: n + 1, groups: 0 },
    ));
    let r = x + x + seq!['*'];
    assert(r.subrange(0, n) =~= x);
    assert(r.subrange(n, 2 * n) =~= x);
    lemma_atom_window(x, r, 0, 0, 0);
    lemma_atom_window(x, r, n, 0, 0);
    assert(r[n] == x[0]);
    assert(r[2 * n] == '*');
    assert(parse_term_spec(r, 0, 0, 0) == Ok::<Parsed, ParseError>(
        Parsed { code: a, pos: n, groups: 0 },
    ));
    assert(parse_term_spec(r, n, 0, 0) == Ok::<Parsed, ParseError>(
        Parsed { code: star_code(a), pos: 2 * n + 1, groups: 0 },
    ));
    lemma_shift_zero(a);
    assert(seq_code(Seq::empty(), a) =~= a);
    assert(!ends_expr(r, 0, 0));
    assert(!ends_expr(r, n, 0));
    assert(parse_seq_spec(r, 2 * n + 1, 0, 0, plus) == Ok::<Parsed, ParseError>(
        Parsed { code: plus, pos: 2 * n + 1, groups: 0 },
    ));
    assert(parse_seq_spec(r, n, 0, 0, a) == parse_seq_spec(r, 2 * n + 1, 0, 0, plus));
    assert(parse_seq_spec(r, 0, 0, 0, Seq::empty()) == parse_seq_spec(r, n, 0, 0, a));
}

/// Compiling a pattern twice gives the same program, which matches the
/// same texts.
pub proof fn lemma_compile_deterministic(
    s: Seq<char>,
    first: Seq<InstView>,
    second: Seq<InstView>,
    t: Seq<char>,
)
    requires
        compile_spec(s) == Ok::<Seq<InstView>, ParseError>(first),
        compile_spec(s) == Ok::<Seq<InstView>, ParseError>(second),
    ensures
        first == second,
        matches_spec(first, t) == matches_spec(second, t),
{
}

} // verus!
