use vstd::prelude::*;

use crate::input::{byte_pos, lemma_char_index, lemma_char_index_inv, Text};
use crate::ir::{code_view, Inst, InstView};
use crate::parser::{compile_spec, well_formed_program, ParseError, Parser};
use crate::vm::{initial_slots, reach, VM};

verus! {

/// Whether program `p` matches text `t`. An empty program matches. A
/// program that starts with `Start` runs once, from instruction 1 at byte
/// offset 0; any other runs from instruction 0 at each character boundary
/// of the text, its end included, until one run succeeds.
pub open spec fn matches_spec(p: Seq<InstView>, t: Seq<char>) -> bool {
    if p.len() == 0 {
        true
    } else if p[0] is Start {
        reach(p, t, 1, 0, initial_slots(p))
    } else {
        exists|k: int|
            0 <= k <= t.len() && #[trigger] reach(p, t, 0, byte_pos(t, k) as int, initial_slots(p))
    }
}

/// A compiled pattern.
pub struct Regex {
    instrs: Vec<Inst>,
}

impl Regex {
    /// The compiled program.
    pub closed spec fn program(self) -> Seq<InstView> {
        code_view(self.instrs@)
    }

    /// Compiles `pattern`.
    pub fn new(pattern: &str) -> (r: Result<Self, ParseError>)
        ensures
            match r {
                Ok(re) => compile_spec(pattern@) == Ok::<Seq<InstView>, ParseError>(re.program()),
                Err(e) => compile_spec(pattern@) == Err::<Seq<InstView>, ParseError>(e),
            },
            r matches Ok(re) ==> well_formed_program(re.program()),
    {
        match Parser::new(pattern).compile() {
            Ok(instrs) => Ok(Regex { instrs }),
            Err(e) => Err(e),
        }
    }

    /// Whether the pattern matches somewhere in `text`, or at its start when
    /// the pattern begins with `^`.
    pub fn is_match(&self, text: &str) -> (r: bool)
        ensures
            r == matches_spec(self.program(), text@),
    {
        let ghost p = self.program();
        let ghost t = text@;
        if self.instrs.len() == 0 {
            return true;
        }
        let input = Text::new(text);
        let mut vm = VM::new(&self.instrs);
        assert(p[0] == self.instrs@[0]@);
        if let Inst::Start = &self.instrs[0] {
            return vm.run(1, &input, 0);
        }
        assert(!(p[0] is Start));
        let len = input.len();
        let mut k: usize = 0;
        let mut off: usize = 0;
        assert(t.take(0) =~= Seq::<char>::empty());
        loop
            invariant
                k <= len,
                p == self.program(),
                t == text@,
                len == t.len(),
                input.view() == t,
                off == byte_pos(t, k as int),
                vm.program() == p,
                vm.slots() == initial_slots(p),
                p.len() > 0,
                !(p[0] is Start),
                forall|j: int|
                    0 <= j < k ==> !#[trigger] reach(p, t, 0, byte_pos(t, j) as int, initial_slots(p)),
            decreases len - k,
        {
            let found = vm.run(0, &input, off);
            if found {
                assert(reach(p, t, 0, byte_pos(t, k as int) as int, initial_slots(p)));
                return true;
            }
            proof {
                lemma_char_index(t, k as int);
            }
            if input.is_end(off) {
                assert forall|j: int| 0 <= j <= t.len() implies !#[trigger] reach(p, t, 0, byte_pos(t, j) as int, initial_slots(p)) by {
                    if j < k {
                    }
                }
                return false;
            }
            off = input.next_cursor_unsafe(off);
            proof {
                lemma_char_index_inv(t, off as int);
            }
            k = k + 1;
        }
    }

    /// The compiled program's instructions.
    pub fn instrs(&self) -> (r: &Vec<Inst>)
        ensures
            code_view(r@) == self.program(),
    {
        &self.instrs
    }
}

} // verus!
