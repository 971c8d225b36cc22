use vstd::prelude::*;
use vstd::utf8::{encode_scalar, encode_utf8};

verus! {

/// The number of bytes in the UTF-8 encoding of `c`.
pub open spec fn width(c: char) -> nat {
    encode_scalar(c as u32).len()
}

/// The number of bytes in the UTF-8 encoding of `t`.
pub open spec fn byte_len(t: Seq<char>) -> nat
    decreases t.len(),
{
    if t.len() == 0 {
        0
    } else {
        byte_len(t.drop_last()) + width(t.last())
    }
}

/// The byte offset at which character `i` of `t` starts (the byte length
/// of `t` for `i == t.len()`).
pub open spec fn byte_pos(t: Seq<char>, i: int) -> nat {
    byte_len(t.take(i))
}

/// The index of the character that starts at byte offset `off`, or the
/// length of `t` when `off` is the end of the text; none when `off` is no
/// character boundary.
pub open spec fn char_index(t: Seq<char>, off: int) -> Option<int> {
    if exists|i: int| 0 <= i <= t.len() && #[trigger] byte_pos(t, i) == off {
        Some(choose|i: int| 0 <= i <= t.len() && #[trigger] byte_pos(t, i) == off)
    } else {
        None
    }
}

/// The character that starts at byte offset `off` of `t`, if one does.
pub open spec fn char_at_spec(t: Seq<char>, off: int) -> Option<char> {
    match char_index(t, off) {
        Some(i) => if i < t.len() {
            Some(t[i])
        } else {
            None
        },
        None => None,
    }
}

pub proof fn lemma_width_bounds(c: char)
    ensures
        1 <= width(c) <= 4,
{
}

pub proof fn lemma_byte_pos_next(t: Seq<char>, i: int)
    requires
        0 <= i < t.len(),
    ensures
        byte_pos(t, i + 1) == byte_pos(t, i) + width(t[i]),
{
    assert(t.take(i + 1).drop_last() =~= t.take(i));
}

pub proof fn lemma_byte_pos_mono(t: Seq<char>, i: int, j: int)
    requires
        0 <= i <= j <= t.len(),
    ensures
        byte_pos(t, i) + (j - i) <= byte_pos(t, j),
    decreases j - i,
{
    if i < j {
        lemma_byte_pos_mono(t, i, j - 1);
        lemma_byte_pos_next(t, j - 1);
        lemma_width_bounds(t[j - 1]);
    }
}

/// The byte offset of a character start determines the character.
pub proof fn lemma_char_index(t: Seq<char>, i: int)
    requires
        0 <= i <= t.len(),
    ensures
        char_index(t, byte_pos(t, i) as int) == Some(i),
        char_at_spec(t, byte_pos(t, i) as int) == (if i < t.len() {
            Some(t[i])
        } else {
            None::<char>
        }),
{
    let off = byte_pos(t, i) as int;
    assert(0 <= i <= t.len() && byte_pos(t, i) == off);
    let j = choose|j: int| 0 <= j <= t.len() && #[trigger] byte_pos(t, j) == off;
    if j < i {
        lemma_byte_pos_mono(t, j, i);
    } else if i < j {
        lemma_byte_pos_mono(t, i, j);
    }
}

/// The byte length of `t` is that of its UTF-8 encoding.
pub proof fn lemma_byte_len_encoding(t: Seq<char>)
    ensures
        byte_len(t) == encode_utf8(t).len(),
    decreases t.len(),
{
    if t.len() > 0 {
        lemma_byte_len_front(t);
        lemma_byte_len_encoding(t.drop_first());
    }
}

proof fn lemma_byte_len_front(t: Seq<char>)
    requires
        t.len() > 0,
    ensures
        byte_len(t) == width(t[0]) + byte_len(t.drop_first()),
    decreases t.len(),
{
    if t.len() > 1 {
        lemma_byte_len_front(t.drop_last());
        assert(t.drop_last().drop_first() =~= t.drop_first().drop_last());
    } else {
        assert(t.drop_last() =~= Seq::<char>::empty());
        assert(t.drop_first() =~= Seq::<char>::empty());
    }
}

/// A character index found for a byte offset starts at that offset.
pub proof fn lemma_char_index_inv(t: Seq<char>, off: int)
    requires
        char_index(t, off) is Some,
    ensures
        0 <= char_index(t, off)->0 <= t.len(),
        byte_pos(t, char_index(t, off)->0) == off,
{
}

/// The bytes of the characters from `i` to `j`.
pub proof fn lemma_byte_pos_span(t: Seq<char>, i: int, j: int)
    requires
        0 <= i <= j <= t.len(),
    ensures
        byte_pos(t, j) == byte_pos(t, i) + byte_len(t.subrange(i, j)),
    decreases j - i,
{
    if i < j {
        lemma_byte_pos_span(t, i, j - 1);
        lemma_byte_pos_next(t, j - 1);
        assert(t.subrange(i, j).drop_last() =~= t.subrange(i, j - 1));
    } else {
        assert(t.subrange(i, j) =~= Seq::<char>::empty());
    }
}

/// The number of bytes of `c`'s UTF-8 encoding.
pub fn utf8_width(c: char) -> (r: usize)
    ensures
        r == width(c),
{
    let v = c as u32;
    if v < 0x80 {
        1
    } else if v < 0x800 {
        2
    } else if v < 0x10000 {
        3
    } else {
        4
    }
}

/// A text read through byte offsets: each offset at which a character
/// starts addresses that character, and every other offset addresses none.
pub struct Text<'t> {
    text: &'t str,
    chars: Vec<char>,
    /// For each byte offset, the index of the character starting there.
    starts: Vec<Option<usize>>,
}

impl<'t> Text<'t> {
    #[verifier::type_invariant]
    closed spec fn wf(self) -> bool {
        &&& self.chars@ == self.text@
        &&& self.starts@.len() == byte_len(self.chars@)
        &&& forall|b: int|
            0 <= b < self.starts@.len() ==> match #[trigger] self.starts@[b] {
                Some(i) => i < self.chars@.len() && byte_pos(self.chars@, i as int) == b,
                None => forall|i: int|
                    0 <= i < self.chars@.len() ==> byte_pos(self.chars@, i) != b,
            }
    }

    /// The characters of the text.
    pub closed spec fn view(self) -> Seq<char> {
        self.chars@
    }

    pub fn new(text: &'t str) -> (r: Self)
        ensures
            r.view() == text@,
    {
        let mut chars: Vec<char> = Vec::new();
        for c in it: text.chars()
            invariant
                chars@ == it.seq().take(it.index() as int),
        {
            chars.push(c);
        }
        assert(chars@ == text@);
        let ghost t = chars@;
        let bytes = text.as_bytes();
        proof {
            lemma_byte_len_encoding(t);
        }
        let mut starts: Vec<Option<usize>> = Vec::new();
        let mut i: usize = 0;
        while i < chars.len()
            invariant
                t == chars@,
                byte_len(t) == bytes@.len(),
                i <= t.len(),
                starts@.len() == byte_pos(t, i as int),
                forall|b: int|
                    0 <= b < starts@.len() ==> match #[trigger] starts@[b] {
                        Some(j) => j < i && byte_pos(t, j as int) == b,
                        None => forall|j: int| 0 <= j < t.len() ==> byte_pos(t, j) != b,
                    },
            decreases t.len() - i,
        {
            let w = utf8_width(chars[i]);
            proof {
                lemma_byte_pos_next(t, i as int);
                lemma_byte_pos_mono(t, i as int + 1, t.len() as int);
                assert(t.take(t.len() as int) =~= t);
                lemma_width_bounds(t[i as int]);
            }
            let ghost before = starts@;
            let ghost base = byte_pos(t, i as int);
            starts.push(Some(i));
            let mut k: usize = 1;
            while k < w
                invariant
                    1 <= k <= w,
                    w == width(t[i as int]),
                    i < t.len(),
                    t == chars@,
                    starts@.len() == base + k,
                    base == byte_pos(t, i as int),
                    byte_pos(t, i as int + 1) == base + w,
                    starts@.subrange(0, base as int) == before,
                    starts@[base as int] == Some(i),
                    forall|b: int| base < b < starts@.len() ==> #[trigger] starts@[b] is None,
                decreases w - k,
            {
                starts.push(None);
                k = k + 1;
            }
            assert forall|b: int| 0 <= b < starts@.len() implies match #[trigger] starts@[b] {
                Some(j) => j < i + 1 && byte_pos(t, j as int) == b,
                None => forall|j: int| 0 <= j < t.len() ==> byte_pos(t, j) != b,
            } by {
                if b < base {
                    assert(starts@[b] == before[b]);
                } else if b > base {
                    assert forall|j: int| 0 <= j < t.len() implies byte_pos(t, j) != b by {
                        if j <= i {
                            lemma_byte_pos_mono(t, j, i as int);
                        } else {
                            lemma_byte_pos_mono(t, i as int + 1, j);
                        }
                    }
                }
            }
            i = i + 1;
        }
        assert(t.take(t.len() as int) =~= t);
        Text { text, chars, starts }
    }

    /// The whole text.
    pub fn text(&self) -> (r: &str)
        ensures
            r@ == self.view(),
    {
        proof {
            use_type_invariant(self);
        }
        self.text
    }

    /// The number of characters.
    pub fn len(&self) -> (r: usize)
        ensures
            r == self.view().len(),
    {
        self.chars.len()
    }

    /// The character at character index `i`.
    pub fn char_of(&self, i: usize) -> (r: char)
        requires
            i < self.view().len(),
        ensures
            r == self.view()[i as int],
    {
        self.chars[i]
    }

    /// The number of bytes.
    pub fn byte_len(&self) -> (r: usize)
        ensures
            r == byte_len(self.view()),
    {
        proof {
            use_type_invariant(self);
        }
        self.starts.len()
    }

    /// The index of the character that starts at byte offset `index`, or
    /// the number of characters when `index` is the end of the text.
    pub fn position(&self, index: usize) -> (r: Option<usize>)
        ensures
            match r {
                Some(i) => char_index(self.view(), index as int) == Some(i as int),
                None => char_index(self.view(), index as int) is None,
            },
    {
        proof {
            use_type_invariant(self);
        }
        let ghost t = self.chars@;
        if index < self.starts.len() {
            let r = self.starts[index];
            proof {
                match r {
                    Some(i) => lemma_char_index(t, i as int),
                    None => {
                        if char_index(t, index as int) is Some {
                            let j = char_index(t, index as int)->0;
                            if j == t.len() {
                                assert(t.take(t.len() as int) =~= t);
                            }
                        }
                    },
                }
            }
            r
        } else if index == self.starts.len() {
            proof {
                assert(t.take(t.len() as int) =~= t);
                lemma_char_index(t, t.len() as int);
            }
            Some(self.chars.len())
        } else {
            proof {
                if char_index(t, index as int) is Some {
                    let j = char_index(t, index as int)->0;
                    lemma_byte_pos_mono(t, j, t.len() as int);
                    assert(t.take(t.len() as int) =~= t);
                }
            }
            None
        }
    }

    /// The character that starts at byte offset `index`, if one does.
    pub fn char_at(&self, index: usize) -> (r: Option<char>)
        ensures
            r == char_at_spec(self.view(), index as int),
    {
        match self.position(index) {
            Some(i) => {
                if i < self.chars.len() {
                    Some(self.chars[i])
                } else {
                    None
                }
            },
            None => None,
        }
    }

    /// Whether the character starting at byte offset `index` is `ch`.
    pub fn matchwith_at(&self, index: usize, ch: &char) -> (r: bool)
        ensures
            r == (char_at_spec(self.view(), index as int) == Some(*ch)),
    {
        match self.char_at(index) {
            Some(c) => c == *ch,
            None => false,
        }
    }

    /// Whether no character starts at byte offset `index`.
    pub fn is_end(&self, index: usize) -> (r: bool)
        ensures
            r == (char_at_spec(self.view(), index as int) is None),
    {
        self.char_at(index).is_none()
    }

    /// The byte offset right after the character that starts at
    /// `current_cursor`.
    pub fn next_cursor_unsafe(&self, current_cursor: usize) -> (r: usize)
        requires
            char_at_spec(self.view(), current_cursor as int) is Some,
        ensures
            r == current_cursor + width(char_at_spec(self.view(), current_cursor as int)->0),
            char_index(self.view(), r as int) == Some(
                char_index(self.view(), current_cursor as int)->0 + 1,
            ),
    {
        proof {
            use_type_invariant(self);
        }
        let ghost t = self.chars@;
        let i = match self.position(current_cursor) {
            Some(i) => i,
            None => {
                return 0;
            },
        };
        proof {
            lemma_char_index_inv(t, current_cursor as int);
            lemma_char_index(t, i as int);
            lemma_byte_pos_next(t, i as int);
            lemma_byte_pos_mono(t, i as int + 1, t.len() as int);
            assert(t.take(t.len() as int) =~= t);
            lemma_char_index(t, i as int + 1);
            assert(byte_pos(t, t.len() as int) == self.starts@.len());
        }
        assert(i < t.len());
        let total = self.starts.len();
        assert(byte_pos(t, i as int + 1) <= total);
        let w = utf8_width(self.chars[i]);
        assert(current_cursor + w == byte_pos(t, i as int + 1));
        current_cursor + w
    }

    /// The text between byte offsets `start` and `end`; empty when the two
    /// are not character boundaries in order.
    pub fn slice(&self, start: usize, end: usize) -> (r: &str)
        ensures
            r@ == (match (char_index(self.view(), start as int), char_index(self.view(), end as int)) {
                (Some(i), Some(j)) => if i <= j {
                    self.view().subrange(i, j)
                } else {
                    Seq::<char>::empty()
                },
                _ => Seq::<char>::empty(),
            }),
    {
        proof {
            use_type_invariant(self);
        }
        match (self.position(start), self.position(end)) {
            (Some(i), Some(j)) => {
                if i <= j {
                    proof {
                        if j as int > self.chars@.len() {
                        }
                    }
                    self.text.substring_char(i, j)
                } else {
                    proof {
                        reveal_strlit("");
                    }
                    ""
                }
            },
            _ => {
                proof {
                    reveal_strlit("");
                }
                ""
            },
        }
    }
}

} // verus!
