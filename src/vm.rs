use vstd::prelude::*;

use crate::input::{
    byte_len, byte_pos, char_at_spec, char_index, lemma_byte_pos_mono, lemma_byte_pos_next,
    lemma_byte_pos_span, lemma_char_index_inv, width, Text,
};
use vstd::set_lib::{lemma_int_range, lemma_len_subset, set_int_range};
use crate::ir::{code_view, Inst, InstView};

verus! {

/// A capture slot: the start of the group and, once the group has closed,
/// its end. Slot `n - 1` belongs to group `n`.
pub type Slot = (usize, Option<usize>);

/// The group number that an instruction opens or closes, or 0.
pub open spec fn group_of(i: InstView) -> nat {
    match i {
        InstView::GroupBegin(n) => n,
        InstView::GroupEnd(n) => n,
        _ => 0,
    }
}

/// The largest group number opened or closed in `p`.
pub open spec fn max_group(p: Seq<InstView>) -> nat
    decreases p.len(),
{
    if p.len() == 0 {
        0
    } else {
        let m = max_group(p.drop_last());
        let g = group_of(p.last());
        if g > m {
            g
        } else {
            m
        }
    }
}

/// The capture table at the start of a run: one open slot per group.
pub open spec fn initial_slots(p: Seq<InstView>) -> Seq<Slot> {
    Seq::new(max_group(p), |i: int| (0usize, None::<usize>))
}

/// Whether group `n` has a slot in `caps`.
pub open spec fn has_slot(caps: Seq<Slot>, n: nat) -> bool {
    1 <= n <= caps.len()
}

/// The table after group `n` opens at `off`.
pub open spec fn open_group(caps: Seq<Slot>, n: nat, off: usize) -> Seq<Slot> {
    if has_slot(caps, n) {
        caps.update(n - 1, (off, None))
    } else {
        caps
    }
}

/// The table after group `n` closes at `off`.
pub open spec fn close_group(caps: Seq<Slot>, n: nat, off: usize) -> Seq<Slot> {
    if has_slot(caps, n) {
        caps.update(n - 1, (caps[n - 1].0, Some(off)))
    } else {
        caps
    }
}

/// The byte span `(start, end)` that group `n` captured, if it closed
/// after it opened.
pub open spec fn captured(caps: Seq<Slot>, n: nat) -> Option<(usize, usize)> {
    if has_slot(caps, n) {
        match caps[n - 1].1 {
            Some(e) => if caps[n - 1].0 <= e {
                Some((caps[n - 1].0, e))
            } else {
                None
            },
            None => None,
        }
    } else {
        None
    }
}

/// Whether the characters from index `off` on repeat `t[s..e]`.
pub open spec fn repeats_at(t: Seq<char>, s: int, e: int, off: int) -> bool {
    off + (e - s) <= t.len() && t.subrange(off, off + (e - s)) == t.subrange(s, e)
}

/// Whether program `p`, started at instruction `pc` and byte offset `off`
/// of text `t` with capture table `caps`, reaches `Match` along some path of
/// at most `fuel` instructions. A character instruction tests the character
/// that starts at `off` and moves past its UTF-8 bytes; a back-reference
/// needs the captured span and `off` on character boundaries and moves past
/// the span's bytes. A split tries its first target, then its second; the
/// capture table travels by value, so an abandoned path leaves no trace. An
/// index outside the program fails.
pub open spec fn step(
    p: Seq<InstView>,
    t: Seq<char>,
    pc: int,
    off: int,
    caps: Seq<Slot>,
    fuel: nat,
) -> bool
    decreases fuel,
{
    if fuel == 0 || pc < 0 || pc >= p.len() || off < 0 {
        false
    } else {
        let f = (fuel - 1) as nat;
        let i = p[pc];
        match i {
            InstView::Start => off == 0 && step(p, t, pc + 1, off, caps, f),
            InstView::End => char_at_spec(t, off) is None && step(p, t, pc + 1, off, caps, f),
            InstView::Match => true,
            InstView::Jump(target) => step(p, t, target as int, off, caps, f),
            InstView::Split(a, b) => step(p, t, a as int, off, caps, f) || step(
                p,
                t,
                b as int,
                off,
                caps,
                f,
            ),
            InstView::GroupBegin(n) => step(p, t, pc + 1, off, open_group(caps, n, off as usize), f),
            InstView::GroupEnd(n) => step(p, t, pc + 1, off, close_group(caps, n, off as usize), f),
            InstView::Ref(n) => match captured(caps, n) {
                Some((s, e)) => match (
                    char_index(t, s as int),
                    char_index(t, e as int),
                    char_index(t, off),
                ) {
                    (Some(is), Some(ie), Some(k)) => is <= ie && repeats_at(t, is, ie, k) && step(
                        p,
                        t,
                        pc + 1,
                        off + (e - s),
                        caps,
                        f,
                    ),
                    _ => false,
                },
                None => false,
            },
            _ => match char_at_spec(t, off) {
                Some(c) => i.accepts(c) && step(p, t, pc + 1, off + width(c), caps, f),
                None => false,
            },
        }
    }
}

/// The backtracking matcher: a program and the capture table of one run.
pub struct VM<'r> {
    instrs: &'r Vec<Inst>,
    captured: Vec<Slot>,
}

impl<'r> VM<'r> {
    /// The program that this machine runs.
    pub closed spec fn program(self) -> Seq<InstView> {
        code_view(self.instrs@)
    }

    /// The capture table.
    pub closed spec fn slots(self) -> Seq<Slot> {
        self.captured@
    }

    pub fn new(instrs: &'r Vec<Inst>) -> (r: Self)
        ensures
            r.program() == code_view(instrs@),
            r.slots() == initial_slots(code_view(instrs@)),
    {
        let ghost p = code_view(instrs@);
        let mut m: usize = 0;
        let mut i: usize = 0;
        while i < instrs.len()
            invariant
                i <= instrs.len(),
                p == code_view(instrs@),
                m == max_group(p.take(i as int)),
            decreases instrs.len() - i,
        {
            assert(p.take(i as int + 1).drop_last() == p.take(i as int));
            let g: usize = match &instrs[i] {
                Inst::GroupBegin(n) => *n,
                Inst::GroupEnd(n) => *n,
                _ => 0,
            };
            if g > m {
                m = g;
            }
            i = i + 1;
        }
        assert(p.take(i as int) == p);
        let mut captured: Vec<Slot> = Vec::new();
        let mut k: usize = 0;
        while k < m
            invariant
                k <= m,
                captured@ == Seq::new(k as nat, |j: int| (0usize, None::<usize>)),
            decreases m - k,
        {
            captured.push((0, None));
            k = k + 1;
            assert(captured@ == Seq::new(k as nat, |j: int| (0usize, None::<usize>)));
        }
        VM { instrs, captured }
    }

    /// Records byte offset `cursor` as the start of group `group_num` and
    /// opens it.
    pub fn save_context(&mut self, group_num: usize, cursor: usize)
        ensures
            final(self).program() == old(self).program(),
            final(self).slots() == open_group(old(self).slots(), group_num as nat, cursor),
    {
        if 1 <= group_num && group_num <= self.captured.len() {
            self.captured.set(group_num - 1, (cursor, None));
        }
    }

    /// Records `end` as the end of group `group_num`, closing it.
    pub fn fill_back(&mut self, group_num: usize, end: usize)
        ensures
            final(self).program() == old(self).program(),
            final(self).slots() == close_group(old(self).slots(), group_num as nat, end),
    {
        if 1 <= group_num && group_num <= self.captured.len() {
            let start = self.captured[group_num - 1].0;
            self.captured.set(group_num - 1, (start, Some(end)));
        }
    }

    /// Puts back `slot` as the slot of group `group_num`.
    pub fn restore_context(&mut self, group_num: usize, slot: Slot)
        ensures
            final(self).program() == old(self).program(),
            final(self).slots() == (if has_slot(old(self).slots(), group_num as nat) {
                old(self).slots().update(group_num - 1, slot)
            } else {
                old(self).slots()
            }),
    {
        if 1 <= group_num && group_num <= self.captured.len() {
            self.captured.set(group_num - 1, slot);
        }
    }

    /// The slot of group `group_num`, if it has one.
    fn slot(&self, group_num: usize) -> (r: Option<Slot>)
        ensures
            r == (if has_slot(self.slots(), group_num as nat) {
                Some(self.slots()[group_num - 1])
            } else {
                None::<Slot>
            }),
    {
        if 1 <= group_num && group_num <= self.captured.len() {
            Some(self.captured[group_num - 1])
        } else {
            None
        }
    }

    /// Runs the program from instruction `pc` at byte offset `cursor`: true
    /// exactly when some path of the machine reaches `Match`. A branch that
    /// comes back to a state (instruction, offset and capture table) already
    /// on the current branch is dropped, which loses no path to `Match`. On
    /// failure the capture table is as it was.
    pub fn run(&mut self, pc: usize, text: &Text, cursor: usize) -> (r: bool)
        ensures
            r == reach(old(self).program(), text.view(), pc as int, cursor as int, old(self).slots()),
            final(self).program() == old(self).program(),
            !r ==> final(self).slots() == old(self).slots(),
    {
        let ghost p = self.program();
        let ghost t = text.view();
        let ghost caps = self.slots();
        let ghost sm = slots_max(caps);
        let ghost m: nat = if cursor as nat >= byte_len(t) && cursor as nat >= sm {
            cursor as nat
        } else if byte_len(t) >= sm {
            byte_len(t)
        } else {
            sm
        };
        let ghost b: nat = if p.len() >= m + 2 {
            p.len()
        } else {
            m + 2
        };
        let ghost g = caps.len();
        let mut path: Vec<(usize, usize, Vec<Slot>)> = Vec::new();
        proof {
            lemma_slots_max(caps);
            lemma_slots_within_mono(caps, sm, m);
            assert(path_view(path@) =~= Seq::<RunState>::empty());
        }
        let r = self.search_run(pc, text, cursor, &mut path, Ghost(Set::empty()), Ghost(m), Ghost(b), Ghost(g));
        proof {
            lemma_search_reach(p, t, pc as int, cursor as int, caps);
        }
        r
    }
}

/// The largest offset in a capture table.
pub open spec fn slots_max(caps: Seq<Slot>) -> nat
    decreases caps.len(),
{
    if caps.len() == 0 {
        0
    } else {
        let rest = slots_max(caps.drop_last());
        let sl = caps.last();
        let e = match sl.1 {
            Some(e) => e as nat,
            None => 0,
        };
        let x = if (sl.0 as nat) > e {
            sl.0 as nat
        } else {
            e
        };
        if x > rest {
            x
        } else {
            rest
        }
    }
}

proof fn lemma_slots_max(caps: Seq<Slot>)
    ensures
        slots_within(caps, slots_max(caps)),
    decreases caps.len(),
{
    if caps.len() > 0 {
        lemma_slots_max(caps.drop_last());
        let m = slots_max(caps);
        assert forall|j: int| 0 <= j < caps.len() implies (#[trigger] caps[j]).0 <= m && (caps[j].1 matches Some(
            e,
        ) ==> e <= m) by {
            if j < caps.len() - 1 {
                assert(caps[j] == caps.drop_last()[j]);
            }
        }
    }
}

proof fn lemma_slots_within_mono(caps: Seq<Slot>, m1: nat, m2: nat)
    requires
        slots_within(caps, m1),
        m1 <= m2,
    ensures
        slots_within(caps, m2),
{
}

/// Whether the text at `off` repeats the part from `s` up to `e`.
pub fn same_span(text: &Text, s: usize, e: usize, off: usize) -> (r: bool)
    requires
        s <= e <= text.view().len(),
    ensures
        r == repeats_at(text.view(), s as int, e as int, off as int),
{
    let ghost t = text.view();
    let n = e - s;
    let len = text.len();
    if off > len || n > len - off {
        return false;
    }
    let mut i: usize = 0;
    while i < n
        invariant
            s <= e <= t.len(),
            n == e - s,
            len == t.len(),
            off + n <= len,
            i <= n,
            t == text.view(),
            forall|j: int| 0 <= j < i ==> t.subrange(off as int, off + n)[j] == #[trigger] t.subrange(s as int, e as int)[j],
        decreases n - i,
    {
        if text.char_of(off + i) != text.char_of(s + i) {
            assert(t.subrange(off as int, off + n)[i as int] != t.subrange(s as int, e as int)[i as int]);
            return false;
        }
        i = i + 1;
    }
    assert(t.subrange(off as int, off + n) =~= t.subrange(s as int, e as int));
    true
}

} // verus!

verus! {

/// More depth never turns a match into a failure: a run that succeeds
/// within `f` steps also succeeds within any `g >= f`.
pub proof fn lemma_step_monotone(
    p: Seq<InstView>,
    t: Seq<char>,
    pc: int,
    off: int,
    caps: Seq<Slot>,
    f: nat,
    g: nat,
)
    requires
        f <= g,
        step(p, t, pc, off, caps, f),
    ensures
        step(p, t, pc, off, caps, g),
    decreases f,
{
    let f1 = (f - 1) as nat;
    let g1 = (g - 1) as nat;
    match p[pc] {
        InstView::Start => lemma_step_monotone(p, t, pc + 1, off, caps, f1, g1),
        InstView::End => lemma_step_monotone(p, t, pc + 1, off, caps, f1, g1),
        InstView::Match => {},
        InstView::Jump(target) => lemma_step_monotone(p, t, target as int, off, caps, f1, g1),
        InstView::Split(a, b) => {
            if step(p, t, a as int, off, caps, f1) {
                lemma_step_monotone(p, t, a as int, off, caps, f1, g1);
            } else {
                lemma_step_monotone(p, t, b as int, off, caps, f1, g1);
            }
        },
        InstView::GroupBegin(n) => lemma_step_monotone(
            p,
            t,
            pc + 1,
            off,
            open_group(caps, n, off as usize),
            f1,
            g1,
        ),
        InstView::GroupEnd(n) => lemma_step_monotone(
            p,
            t,
            pc + 1,
            off,
            close_group(caps, n, off as usize),
            f1,
            g1,
        ),
        InstView::Ref(n) => {
            let (s, e) = captured(caps, n)->0;
            lemma_step_monotone(p, t, pc + 1, off + (e - s), caps, f1, g1);
        },
        _ => {
            let c = char_at_spec(t, off)->0;
            lemma_step_monotone(p, t, pc + 1, off + width(c), caps, f1, g1);
        },
    }
}

} // verus!

verus! {

/// A state of a run: instruction, byte offset and capture table.
pub type RunState = (int, int, Seq<Slot>);

/// Whether program `p` reaches `Match` from a state, at some depth.
pub open spec fn reach(p: Seq<InstView>, t: Seq<char>, pc: int, off: int, caps: Seq<Slot>) -> bool {
    exists|f: nat| #[trigger] step(p, t, pc, off, caps, f)
}

/// `step`, except that a branch that comes back to a state already on
/// `path`, the states of the current branch so far, fails: it only repeats
/// a cycle.
pub open spec fn search(
    p: Seq<InstView>,
    t: Seq<char>,
    pc: int,
    off: int,
    caps: Seq<Slot>,
    path: Seq<RunState>,
    fuel: nat,
) -> bool
    decreases fuel, 0int,
{
    if fuel == 0 || pc < 0 || pc >= p.len() || off < 0 || path.contains((pc, off, caps)) {
        false
    } else {
        search_next(p, t, pc, off, caps, path.push((pc, off, caps)), (fuel - 1) as nat)
    }
}

/// What `search` does at instruction `pc` once the state is on path `q`.
pub open spec fn search_next(
    p: Seq<InstView>,
    t: Seq<char>,
    pc: int,
    off: int,
    caps: Seq<Slot>,
    q: Seq<RunState>,
    f: nat,
) -> bool
    decreases f, 1int,
{
    if pc < 0 || pc >= p.len() {
        false
    } else {
        let i = p[pc];
        match i {
            InstView::Start => off == 0 && search(p, t, pc + 1, off, caps, q, f),
            InstView::End => char_at_spec(t, off) is None && search(p, t, pc + 1, off, caps, q, f),
            InstView::Match => true,
            InstView::Jump(target) => search(p, t, target as int, off, caps, q, f),
            InstView::Split(a, b) => search(p, t, a as int, off, caps, q, f) || search(
                p,
                t,
                b as int,
                off,
                caps,
                q,
                f,
            ),
            InstView::GroupBegin(n) => search(
                p,
                t,
                pc + 1,
                off,
                open_group(caps, n, off as usize),
                q,
                f,
            ),
            InstView::GroupEnd(n) => search(
                p,
                t,
                pc + 1,
                off,
                close_group(caps, n, off as usize),
                q,
                f,
            ),
            InstView::Ref(n) => match captured(caps, n) {
                Some((s, e)) => match (
                    char_index(t, s as int),
                    char_index(t, e as int),
                    char_index(t, off),
                ) {
                    (Some(is), Some(ie), Some(k)) => is <= ie && repeats_at(t, is, ie, k) && search(
                        p,
                        t,
                        pc + 1,
                        off + (e - s),
                        caps,
                        q,
                        f,
                    ),
                    _ => false,
                },
                None => false,
            },
            _ => match char_at_spec(t, off) {
                Some(c) => i.accepts(c) && search(p, t, pc + 1, off + width(c), caps, q, f),
                None => false,
            },
        }
    }
}

/// A search that succeeds follows a path that `step` follows too.
pub proof fn lemma_search_sound(
    p: Seq<InstView>,
    t: Seq<char>,
    pc: int,
    off: int,
    caps: Seq<Slot>,
    path: Seq<RunState>,
    f: nat,
)
    requires
        search(p, t, pc, off, caps, path, f),
    ensures
        step(p, t, pc, off, caps, f),
    decreases f,
{
    let f1 = (f - 1) as nat;
    let q = path.push((pc, off, caps));
    match p[pc] {
        InstView::Start => lemma_search_sound(p, t, pc + 1, off, caps, q, f1),
        InstView::End => lemma_search_sound(p, t, pc + 1, off, caps, q, f1),
        InstView::Match => {},
        InstView::Jump(target) => lemma_search_sound(p, t, target as int, off, caps, q, f1),
        InstView::Split(a, b) => {
            if search(p, t, a as int, off, caps, q, f1) {
                lemma_search_sound(p, t, a as int, off, caps, q, f1);
            } else {
                lemma_search_sound(p, t, b as int, off, caps, q, f1);
            }
        },
        InstView::GroupBegin(n) => lemma_search_sound(
            p,
            t,
            pc + 1,
            off,
            open_group(caps, n, off as usize),
            q,
            f1,
        ),
        InstView::GroupEnd(n) => lemma_search_sound(
            p,
            t,
            pc + 1,
            off,
            close_group(caps, n, off as usize),
            q,
            f1,
        ),
        InstView::Ref(n) => {
            let (s, e) = captured(caps, n)->0;
            lemma_search_sound(p, t, pc + 1, off + (e - s), caps, q, f1);
        },
        _ => {
            let c = char_at_spec(t, off)->0;
            lemma_search_sound(p, t, pc + 1, off + width(c), caps, q, f1);
        },
    }
}

/// A state that reaches `Match` does so at a least depth.
proof fn lemma_least_depth(
    p: Seq<InstView>,
    t: Seq<char>,
    pc: int,
    off: int,
    caps: Seq<Slot>,
    f: nat,
) -> (m: nat)
    requires
        step(p, t, pc, off, caps, f),
    ensures
        1 <= m <= f,
        step(p, t, pc, off, caps, m),
        !step(p, t, pc, off, caps, (m - 1) as nat),
    decreases f,
{
    if step(p, t, pc, off, caps, (f - 1) as nat) {
        lemma_least_depth(p, t, pc, off, caps, (f - 1) as nat)
    } else {
        f
    }
}

/// A state that reaches `Match` within `f` steps is found by the search
/// from any path whose states do not reach `Match` within `f` steps.
proof fn lemma_search_complete(
    p: Seq<InstView>,
    t: Seq<char>,
    pc: int,
    off: int,
    caps: Seq<Slot>,
    path: Seq<RunState>,
    f: nat,
)
    requires
        step(p, t, pc, off, caps, f),
        forall|j: int| 0 <= j < path.len() ==> !#[trigger] step(p, t, path[j].0, path[j].1, path[j].2, f),
    ensures
        exists|g: nat| #[trigger] search(p, t, pc, off, caps, path, g),
    decreases f,
{
    let m = lemma_least_depth(p, t, pc, off, caps, f);
    let m1 = (m - 1) as nat;
    let q = path.push((pc, off, caps));
    assert forall|j: int| 0 <= j < path.len() implies !#[trigger] step(
        p,
        t,
        path[j].0,
        path[j].1,
        path[j].2,
        m,
    ) by {
        if step(p, t, path[j].0, path[j].1, path[j].2, m) {
            lemma_step_monotone(p, t, path[j].0, path[j].1, path[j].2, m, f);
        }
    }
    assert(!path.contains((pc, off, caps))) by {
        if path.contains((pc, off, caps)) {
            let j = choose|j: int| 0 <= j < path.len() && path[j] == (pc, off, caps);
            assert(!step(p, t, path[j].0, path[j].1, path[j].2, m));
        }
    }
    assert forall|j: int| 0 <= j < q.len() implies !#[trigger] step(
        p,
        t,
        q[j].0,
        q[j].1,
        q[j].2,
        m1,
    ) by {
        if j < path.len() {
            assert(q[j] == path[j]);
            if step(p, t, path[j].0, path[j].1, path[j].2, m1) {
                lemma_step_monotone(p, t, path[j].0, path[j].1, path[j].2, m1, m);
            }
        }
    }
    match p[pc] {
        InstView::Match => {
            assert(search(p, t, pc, off, caps, path, 1));
        },
        InstView::Start => {
            lemma_search_complete(p, t, pc + 1, off, caps, q, m1);
            let g = choose|g: nat| #[trigger] search(p, t, pc + 1, off, caps, q, g);
            assert(search(p, t, pc, off, caps, path, g + 1));
        },
        InstView::End => {
            lemma_search_complete(p, t, pc + 1, off, caps, q, m1);
            let g = choose|g: nat| #[trigger] search(p, t, pc + 1, off, caps, q, g);
            assert(search(p, t, pc, off, caps, path, g + 1));
        },
        InstView::Jump(target) => {
            lemma_search_complete(p, t, target as int, off, caps, q, m1);
            let g = choose|g: nat| #[trigger] search(p, t, target as int, off, caps, q, g);
            assert(search(p, t, pc, off, caps, path, g + 1));
        },
        InstView::Split(a, b) => {
            if step(p, t, a as int, off, caps, m1) {
                lemma_search_complete(p, t, a as int, off, caps, q, m1);
                let g = choose|g: nat| #[trigger] search(p, t, a as int, off, caps, q, g);
                assert(search(p, t, pc, off, caps, path, g + 1));
            } else {
                lemma_search_complete(p, t, b as int, off, caps, q, m1);
                let g = choose|g: nat| #[trigger] search(p, t, b as int, off, caps, q, g);
                assert(search(p, t, pc, off, caps, path, g + 1));
            }
        },
        InstView::GroupBegin(n) => {
            let c2 = open_group(caps, n, off as usize);
            lemma_search_complete(p, t, pc + 1, off, c2, q, m1);
            let g = choose|g: nat| #[trigger] search(p, t, pc + 1, off, c2, q, g);
            assert(search(p, t, pc, off, caps, path, g + 1));
        },
        InstView::GroupEnd(n) => {
            let c2 = close_group(caps, n, off as usize);
            lemma_search_complete(p, t, pc + 1, off, c2, q, m1);
            let g = choose|g: nat| #[trigger] search(p, t, pc + 1, off, c2, q, g);
            assert(search(p, t, pc, off, caps, path, g + 1));
        },
        InstView::Ref(n) => {
            let (s, e) = captured(caps, n)->0;
            let o2 = off + (e - s);
            lemma_search_complete(p, t, pc + 1, o2, caps, q, m1);
            let g = choose|g: nat| #[trigger] search(p, t, pc + 1, o2, caps, q, g);
            assert(search(p, t, pc, off, caps, path, g + 1));
        },
        _ => {
            let c = char_at_spec(t, off)->0;
            let o2 = off + width(c);
            lemma_search_complete(p, t, pc + 1, o2, caps, q, m1);
            let g = choose|g: nat| #[trigger] search(p, t, pc + 1, o2, caps, q, g);
            assert(search(p, t, pc, off, caps, path, g + 1));
        },
    }
}

/// The search from an empty path succeeds exactly when some depth reaches
/// `Match`: cutting cycles loses no path.
pub proof fn lemma_search_reach(p: Seq<InstView>, t: Seq<char>, pc: int, off: int, caps: Seq<Slot>)
    ensures
        reach(p, t, pc, off, caps) == exists|g: nat|
            #[trigger] search(p, t, pc, off, caps, Seq::<RunState>::empty(), g),
{
    if reach(p, t, pc, off, caps) {
        let f = choose|f: nat| #[trigger] step(p, t, pc, off, caps, f);
        lemma_search_complete(p, t, pc, off, caps, Seq::empty(), f);
    }
    if exists|g: nat| #[trigger] search(p, t, pc, off, caps, Seq::<RunState>::empty(), g) {
        let g = choose|g: nat| #[trigger] search(p, t, pc, off, caps, Seq::<RunState>::empty(), g);
        lemma_search_sound(p, t, pc, off, caps, Seq::empty(), g);
    }
}

} // verus!

verus! {

/// `b` to the power `e`.
pub open spec fn pow_nat(b: nat, e: nat) -> nat
    decreases e,
{
    if e == 0 {
        1
    } else {
        b * pow_nat(b, (e - 1) as nat)
    }
}

/// The end of a slot as a digit: 0 while open, else the end plus one.
pub open spec fn end_digit(e: Option<usize>) -> nat {
    match e {
        Some(x) => x as nat + 1,
        None => 0,
    }
}

/// A slot as a number below `b * b`.
pub open spec fn slot_code(sl: Slot, b: nat) -> nat {
    sl.0 as nat + b * end_digit(sl.1)
}

/// A capture table as a number below `(b * b)` to the power of its length.
pub open spec fn caps_code(caps: Seq<Slot>, b: nat) -> nat
    decreases caps.len(),
{
    if caps.len() == 0 {
        0
    } else {
        slot_code(caps[0], b) + (b * b) * caps_code(caps.drop_first(), b)
    }
}

/// A run state as a number; distinct states with offsets and slot values
/// at most `b - 2` and instructions below `b` get distinct numbers.
pub open spec fn state_code(s: RunState, b: nat) -> int {
    s.0 + b * (s.1 + b * caps_code(s.2, b))
}

/// Every offset in the capture table is at most `m`.
pub open spec fn slots_within(caps: Seq<Slot>, m: nat) -> bool {
    forall|j: int|
        0 <= j < caps.len() ==> (#[trigger] caps[j]).0 <= m && (caps[j].1 matches Some(e) ==> e <= m)
}

/// A state whose numbers fit the code for `b`, with a table of `g` slots.
pub open spec fn state_within(s: RunState, plen: nat, m: nat, g: nat) -> bool {
    0 <= s.0 < plen && 0 <= s.1 <= m && s.2.len() == g && slots_within(s.2, m)
}

proof fn lemma_digits(x1: int, y1: int, x2: int, y2: int, r: int)
    requires
        0 <= x1 < r,
        0 <= x2 < r,
        0 <= y1,
        0 <= y2,
        x1 + r * y1 == x2 + r * y2,
    ensures
        x1 == x2,
        y1 == y2,
{
    assert(y1 == y2) by (nonlinear_arith)
        requires
            0 <= x1 < r,
            0 <= x2 < r,
            0 <= y1,
            0 <= y2,
            x1 + r * y1 == x2 + r * y2,
    ;
}

proof fn lemma_slot_code_bound(sl: Slot, m: nat, b: nat)
    requires
        sl.0 <= m,
        sl.1 matches Some(e) ==> e <= m,
        m + 2 <= b,
    ensures
        slot_code(sl, b) < b * b,
{
    let d = end_digit(sl.1);
    assert(d <= b - 1);
    assert(sl.0 as nat + b * d < b * b) by (nonlinear_arith)
        requires
            sl.0 <= b - 2,
            d <= b - 1,
            b >= 2,
    ;
}

proof fn lemma_caps_code(a: Seq<Slot>, c: Seq<Slot>, m: nat, b: nat)
    requires
        slots_within(a, m),
        slots_within(c, m),
        m + 2 <= b,
    ensures
        caps_code(a, b) < pow_nat(b * b, a.len()),
        a.len() == c.len() && caps_code(a, b) == caps_code(c, b) ==> a == c,
    decreases a.len(),
{
    if a.len() > 0 {
        let a0 = a[0];
        assert(a0 == a[0]);
        lemma_slot_code_bound(a0, m, b);
        assert(slots_within(a.drop_first(), m)) by {
            assert forall|j: int| 0 <= j < a.drop_first().len() implies (
            #[trigger] a.drop_first()[j]).0 <= m && (a.drop_first()[j].1 matches Some(e) ==> e
                <= m) by {
                assert(a.drop_first()[j] == a[j + 1]);
            }
        }
        let ct = if c.len() > 0 {
            c.drop_first()
        } else {
            c
        };
        assert(slots_within(ct, m)) by {
            assert forall|j: int| 0 <= j < ct.len() implies (#[trigger] ct[j]).0 <= m && (
            ct[j].1 matches Some(e) ==> e <= m) by {
                if c.len() > 0 {
                    assert(ct[j] == c[j + 1]);
                }
            }
        }
        lemma_caps_code(a.drop_first(), ct, m, b);
        let rest = caps_code(a.drop_first(), b);
        let pw = pow_nat(b * b, (a.len() - 1) as nat);
        assert(slot_code(a0, b) + (b * b) * rest < (b * b) * pw) by (nonlinear_arith)
            requires
                slot_code(a0, b) < b * b,
                rest < pw,
                rest >= 0,
        ;
        if c.len() == a.len() && caps_code(a, b) == caps_code(c, b) {
            let c0 = c[0];
            lemma_slot_code_bound(c0, m, b);
            lemma_digits(
                slot_code(a0, b) as int,
                rest as int,
                slot_code(c0, b) as int,
                caps_code(ct, b) as int,
                (b * b) as int,
            );
            lemma_digits(
                a0.0 as int,
                end_digit(a0.1) as int,
                c0.0 as int,
                end_digit(c0.1) as int,
                b as int,
            );
            assert(a0 == c0);
            assert(a =~= c) by {
                assert forall|j: int| 0 <= j < a.len() implies a[j] == c[j] by {
                    if j > 0 {
                        assert(a[j] == a.drop_first()[j - 1]);
                        assert(c[j] == ct[j - 1]);
                    }
                }
            }
        }
    }
}

/// The state code is injective and bounded on states that fit it.
pub proof fn lemma_state_code(s1: RunState, s2: RunState, plen: nat, m: nat, g: nat, b: nat)
    requires
        state_within(s1, plen, m, g),
        state_within(s2, plen, m, g),
        m + 2 <= b,
        plen <= b,
    ensures
        0 <= state_code(s1, b) < b * b * pow_nat(b * b, g),
        state_code(s1, b) == state_code(s2, b) ==> s1 == s2,
{
    lemma_caps_code(s1.2, s2.2, m, b);
    lemma_caps_code(s2.2, s1.2, m, b);
    let c1 = caps_code(s1.2, b);
    let pw = pow_nat(b * b, g);
    assert(s1.0 + b * (s1.1 + b * c1) < b * b * pw) by (nonlinear_arith)
        requires
            0 <= s1.0 < b,
            0 <= s1.1 < b,
            0 <= c1 < pw,
    ;
    assert(0 <= s1.0 + b * (s1.1 + b * c1)) by (nonlinear_arith)
        requires
            0 <= s1.0,
            0 <= s1.1,
            0 <= c1,
            b >= 0,
    ;
    if state_code(s1, b) == state_code(s2, b) {
        let c2 = caps_code(s2.2, b);
        assert(0 <= s1.1 + b * c1 && 0 <= s2.1 + b * c2) by (nonlinear_arith)
            requires
                0 <= s1.1,
                0 <= s2.1,
                0 <= c1,
                0 <= c2,
                b >= 0,
        ;
        lemma_digits(s1.0, s1.1 + b * c1, s2.0, s2.1 + b * c2, b as int);
        lemma_digits(s1.1, c1 as int, s2.1, c2 as int, b as int);
    }
}

} // verus!

verus! {

/// The state that a path entry records.
pub open spec fn entry_view(e: (usize, usize, Vec<Slot>)) -> RunState {
    (e.0 as int, e.1 as int, e.2@)
}

/// The states that a path records.
pub open spec fn path_view(v: Seq<(usize, usize, Vec<Slot>)>) -> Seq<RunState> {
    Seq::new(v.len(), |j: int| entry_view(v[j]))
}

proof fn lemma_char_end(t: Seq<char>, off: int)
    requires
        char_at_spec(t, off) is Some,
    ensures
        off + width(char_at_spec(t, off)->0) <= byte_len(t),
{
    lemma_char_index_inv(t, off);
    let i = char_index(t, off)->0;
    lemma_byte_pos_next(t, i);
    lemma_byte_pos_mono(t, i + 1, t.len() as int);
    assert(t.take(t.len() as int) =~= t);
}

proof fn lemma_slots_update(caps: Seq<Slot>, m: nat, n: nat, off: usize)
    requires
        slots_within(caps, m),
        off <= m,
    ensures
        slots_within(open_group(caps, n, off), m),
        slots_within(close_group(caps, n, off), m),
        open_group(caps, n, off).len() == caps.len(),
        close_group(caps, n, off).len() == caps.len(),
{
    if has_slot(caps, n) {
        let o = open_group(caps, n, off);
        let c = close_group(caps, n, off);
        assert forall|j: int| 0 <= j < o.len() implies (#[trigger] o[j]).0 <= m && (o[j].1 matches Some(
            e,
        ) ==> e <= m) by {
            assert(caps[j].0 <= m);
        }
        assert forall|j: int| 0 <= j < c.len() implies (#[trigger] c[j]).0 <= m && (c[j].1 matches Some(
            e,
        ) ==> e <= m) by {
            assert(caps[j].0 <= m);
        }
    }
}

/// Whether two capture tables are equal.
fn same_slots(a: &Vec<Slot>, b: &Vec<Slot>) -> (r: bool)
    ensures
        r == (a@ == b@),
{
    if a.len() != b.len() {
        return false;
    }
    let mut i: usize = 0;
    while i < a.len()
        invariant
            a.len() == b.len(),
            i <= a.len(),
            forall|j: int| 0 <= j < i ==> a@[j] == b@[j],
        decreases a.len() - i,
    {
        let (s1, e1) = a[i];
        let (s2, e2) = b[i];
        let same_end = match (e1, e2) {
            (Some(x), Some(y)) => x == y,
            (None, None) => true,
            _ => false,
        };
        if s1 != s2 || !same_end {
            return false;
        }
        i = i + 1;
    }
    assert(a@ =~= b@);
    true
}

/// A copy of a capture table.
fn copy_slots(a: &Vec<Slot>) -> (r: Vec<Slot>)
    ensures
        r@ == a@,
{
    let mut r: Vec<Slot> = Vec::new();
    let mut i: usize = 0;
    while i < a.len()
        invariant
            i <= a.len(),
            r@ == a@.take(i as int),
        decreases a.len() - i,
    {
        r.push(a[i]);
        assert(r@ =~= a@.take(i as int + 1));
        i = i + 1;
    }
    assert(r@ =~= a@);
    r
}

/// Whether `path` records the state `(pc, off, caps)`.
fn on_path(path: &Vec<(usize, usize, Vec<Slot>)>, pc: usize, off: usize, caps: &Vec<Slot>) -> (r:
    bool)
    ensures
        r == path_view(path@).contains((pc as int, off as int, caps@)),
{
    let ghost pv = path_view(path@);
    let mut i: usize = 0;
    while i < path.len()
        invariant
            i <= path.len(),
            pv == path_view(path@),
            forall|j: int| 0 <= j < i ==> pv[j] != (pc as int, off as int, caps@),
        decreases path.len() - i,
    {
        let e = &path[i];
        if e.0 == pc && e.1 == off && same_slots(&e.2, caps) {
            assert(pv[i as int] == (pc as int, off as int, caps@));
            return true;
        }
        i = i + 1;
    }
    assert(!pv.contains((pc as int, off as int, caps@)));
    false
}

} // verus!


verus! {

/// What the exec search needs of its state: offsets and slots fit the
/// state code for `b`, and `codes` holds exactly the codes of the states on
/// path `pv`, all below the number of codes.
pub open spec fn path_fits(
    plen: nat,
    caps: Seq<Slot>,
    t: Seq<char>,
    pv: Seq<RunState>,
    codes: Set<int>,
    m: nat,
    b: nat,
    g: nat,
) -> bool {
    &&& byte_len(t) <= m
    &&& m + 2 <= b
    &&& plen <= b
    &&& caps.len() == g
    &&& slots_within(caps, m)
    &&& codes.finite()
    &&& forall|c: int| #[trigger] codes.contains(c) ==> 0 <= c < b * b * pow_nat(b * b, g)
    &&& forall|c: int|
        #[trigger] codes.contains(c) ==> exists|j: int| 0 <= j < pv.len() && state_code(pv[j], b) == c
    &&& forall|j: int| 0 <= j < pv.len() ==> state_within(#[trigger] pv[j], plen, m, g)
}

impl<'r> VM<'r> {
    /// Runs the program from instruction `pc` at byte offset `cursor` as
    /// `search` does from path `path`. Each call adds a state to the path
    /// whose code is new, so the depth is bounded by the number of codes.
    fn search_run(
        &mut self,
        pc: usize,
        text: &Text,
        cursor: usize,
        path: &mut Vec<(usize, usize, Vec<Slot>)>,
        codes: Ghost<Set<int>>,
        m: Ghost<nat>,
        b: Ghost<nat>,
        g: Ghost<nat>,
    ) -> (r: bool)
        requires
            cursor <= m@,
            path_fits(
                old(self).program().len(),
                old(self).slots(),
                text.view(),
                path_view(old(path)@),
                codes@,
                m@,
                b@,
                g@,
            ),
        ensures
            r == exists|f: nat|
                #[trigger] search(
                    old(self).program(),
                    text.view(),
                    pc as int,
                    cursor as int,
                    old(self).slots(),
                    path_view(old(path)@),
                    f,
                ),
            final(self).program() == old(self).program(),
            !r ==> final(self).slots() == old(self).slots(),
            final(path)@ == old(path)@,
        decreases b@ * b@ * pow_nat(b@ * b@, g@) - codes@.len(), 1int,
    {
        let ghost p = self.program();
        let ghost t = text.view();
        let ghost caps0 = self.slots();
        let ghost pv = path_view(path@);
        let ghost bound = b@ * b@ * pow_nat(b@ * b@, g@);
        if pc >= self.instrs.len() || on_path(path, pc, cursor, &self.captured) {
            proof {
                assert forall|f: nat| !#[trigger] search(p, t, pc as int, cursor as int, caps0, pv, f) by {}
            }
            return false;
        }
        let ghost st: RunState = (pc as int, cursor as int, caps0);
        let ghost c = state_code(st, b@);
        proof {
            lemma_state_code(st, st, p.len(), m@, g@, b@);
            if codes@.contains(c) {
                let j = choose|j: int| 0 <= j < pv.len() && state_code(pv[j], b@) == c;
                lemma_state_code(pv[j], st, p.len(), m@, g@, b@);
                assert(pv.contains(st));
            }
            lemma_int_range(0, bound as int);
            assert(codes@.insert(c).subset_of(set_int_range(0, bound as int)));
            lemma_len_subset(codes@.insert(c), set_int_range(0, bound as int));
        }
        let ghost codes2 = codes@.insert(c);
        let snapshot = copy_slots(&self.captured);
        path.push((pc, cursor, snapshot));
        let ghost q = path_view(path@);
        proof {
            assert(q =~= pv.push(st));
            assert forall|x: int| #[trigger] codes2.contains(x) implies exists|j: int|
                0 <= j < q.len() && state_code(q[j], b@) == x by {
                if x == c {
                    assert(state_code(q[pv.len() as int], b@) == x);
                } else {
                    let j = choose|j: int| 0 <= j < pv.len() && state_code(pv[j], b@) == x;
                    assert(q[j] == pv[j]);
                }
            }
            assert forall|j: int| 0 <= j < q.len() implies state_within(
                #[trigger] q[j],
                p.len(),
                m@,
                g@,
            ) by {
                if j < pv.len() {
                    assert(q[j] == pv[j]);
                }
            }
        }
        let r = self.search_inst(pc, text, cursor, path, Ghost(codes2), m, b, g);
        path.pop();
        proof {
            assert(path@ =~= old(path)@);
            if r {
                let f = choose|f: nat| #[trigger] search_next(p, t, pc as int, cursor as int, caps0, q, f);
                assert(search(p, t, pc as int, cursor as int, caps0, pv, f + 1));
            } else {
                assert forall|f: nat| !#[trigger] search(p, t, pc as int, cursor as int, caps0, pv, f) by {
                    if f > 0 {
                        assert(!search_next(p, t, pc as int, cursor as int, caps0, q, (f - 1) as nat));
                    }
                }
            }
        }
        r
    }

    /// The step of `search_next` at instruction `pc`.
    fn search_inst(
        &mut self,
        pc: usize,
        text: &Text,
        cursor: usize,
        path: &mut Vec<(usize, usize, Vec<Slot>)>,
        codes: Ghost<Set<int>>,
        m: Ghost<nat>,
        b: Ghost<nat>,
        g: Ghost<nat>,
    ) -> (r: bool)
        requires
            pc < old(self).program().len(),
            cursor <= m@,
            path_fits(
                old(self).program().len(),
                old(self).slots(),
                text.view(),
                path_view(old(path)@),
                codes@,
                m@,
                b@,
                g@,
            ),
        ensures
            r == exists|f: nat|
                #[trigger] search_next(
                    old(self).program(),
                    text.view(),
                    pc as int,
                    cursor as int,
                    old(self).slots(),
                    path_view(old(path)@),
                    f,
                ),
            final(self).program() == old(self).program(),
            !r ==> final(self).slots() == old(self).slots(),
            final(path)@ == old(path)@,
        decreases b@ * b@ * pow_nat(b@ * b@, g@) - codes@.len(), 3int,
    {
        let ghost p = self.program();
        let ghost t = text.view();
        let ghost caps0 = self.slots();
        let ghost q = path_view(path@);
        let instrs = self.instrs;
        assert(pc < instrs.len());
        let inst = &instrs[pc];
        assert(p[pc as int] == inst@);
        match inst {
            Inst::Start => {
                if cursor != 0 {
                    assert forall|f: nat| !#[trigger] search_next(p, t, pc as int, cursor as int, caps0, q, f) by {}
                    false
                } else {
                    let r = self.search_run(pc + 1, text, cursor, path, codes, m, b, g);
                    assert(r == exists|f: nat| #[trigger] search_next(p, t, pc as int, cursor as int, caps0, q, f)) by {
                        if r {
                            let f = choose|f: nat| #[trigger] search(p, t, pc + 1, cursor as int, caps0, q, f);
                            assert(search_next(p, t, pc as int, cursor as int, caps0, q, f));
                        } else {
                            assert forall|f: nat| !#[trigger] search_next(p, t, pc as int, cursor as int, caps0, q, f) by {
                                assert(!search(p, t, pc + 1, cursor as int, caps0, q, f));
                            }
                        }
                    }
                    r
                }
            },
            Inst::End => {
                if !text.is_end(cursor) {
                    assert forall|f: nat| !#[trigger] search_next(p, t, pc as int, cursor as int, caps0, q, f) by {}
                    false
                } else {
                    let r = self.search_run(pc + 1, text, cursor, path, codes, m, b, g);
                    assert(r == exists|f: nat| #[trigger] search_next(p, t, pc as int, cursor as int, caps0, q, f)) by {
                        if r {
                            let f = choose|f: nat| #[trigger] search(p, t, pc + 1, cursor as int, caps0, q, f);
                            assert(search_next(p, t, pc as int, cursor as int, caps0, q, f));
                        } else {
                            assert forall|f: nat| !#[trigger] search_next(p, t, pc as int, cursor as int, caps0, q, f) by {
                                assert(!search(p, t, pc + 1, cursor as int, caps0, q, f));
                            }
                        }
                    }
                    r
                }
            },
            Inst::Match => {
                assert(search_next(p, t, pc as int, cursor as int, caps0, q, 0));
                true
            },
            Inst::Jump(target) => {
                let r = self.search_run(*target, text, cursor, path, codes, m, b, g);
                assert(r == exists|f: nat| #[trigger] search_next(p, t, pc as int, cursor as int, caps0, q, f)) by {
                    if r {
                        let f = choose|f: nat| #[trigger] search(p, t, *target as int, cursor as int, caps0, q, f);
                        assert(search_next(p, t, pc as int, cursor as int, caps0, q, f));
                    } else {
                        assert forall|f: nat| !#[trigger] search_next(p, t, pc as int, cursor as int, caps0, q, f) by {
                            assert(!search(p, t, *target as int, cursor as int, caps0, q, f));
                        }
                    }
                }
                r
            },
            Inst::Split(a, b2) => {
                let r1 = self.search_run(*a, text, cursor, path, codes, m, b, g);
                if r1 {
                    proof {
                        let f = choose|f: nat| #[trigger] search(p, t, *a as int, cursor as int, caps0, q, f);
                        assert(search_next(p, t, pc as int, cursor as int, caps0, q, f));
                    }
                    true
                } else {
                    let r2 = self.search_run(*b2, text, cursor, path, codes, m, b, g);
                    assert(r2 == exists|f: nat| #[trigger] search_next(p, t, pc as int, cursor as int, caps0, q, f)) by {
                        if r2 {
                            let f = choose|f: nat| #[trigger] search(p, t, *b2 as int, cursor as int, caps0, q, f);
                            assert(search_next(p, t, pc as int, cursor as int, caps0, q, f));
                        } else {
                            assert forall|f: nat| !#[trigger] search_next(p, t, pc as int, cursor as int, caps0, q, f) by {
                                assert(!search(p, t, *a as int, cursor as int, caps0, q, f));
                                assert(!search(p, t, *b2 as int, cursor as int, caps0, q, f));
                            }
                        }
                    }
                    r2
                }
            },
            Inst::GroupBegin(n) => {
                let saved = self.slot(*n);
                self.save_context(*n, cursor);
                proof {
                    lemma_slots_update(caps0, m@, *n as nat, cursor);
                }
                let ghost c2 = open_group(caps0, *n as nat, cursor);
                let r = self.search_run(pc + 1, text, cursor, path, codes, m, b, g);
                assert(r == exists|f: nat| #[trigger] search_next(p, t, pc as int, cursor as int, caps0, q, f)) by {
                    if r {
                        let f = choose|f: nat| #[trigger] search(p, t, pc + 1, cursor as int, c2, q, f);
                        assert(search_next(p, t, pc as int, cursor as int, caps0, q, f));
                    } else {
                        assert forall|f: nat| !#[trigger] search_next(p, t, pc as int, cursor as int, caps0, q, f) by {
                            assert(!search(p, t, pc + 1, cursor as int, c2, q, f));
                        }
                    }
                }
                if !r {
                    if let Some(sl) = saved {
                        self.restore_context(*n, sl);
                        assert(self.slots() =~= caps0);
                    }
                }
                r
            },
            Inst::GroupEnd(n) => {
                let saved = self.slot(*n);
                self.fill_back(*n, cursor);
                proof {
                    lemma_slots_update(caps0, m@, *n as nat, cursor);
                }
                let ghost c2 = close_group(caps0, *n as nat, cursor);
                let r = self.search_run(pc + 1, text, cursor, path, codes, m, b, g);
                assert(r == exists|f: nat| #[trigger] search_next(p, t, pc as int, cursor as int, caps0, q, f)) by {
                    if r {
                        let f = choose|f: nat| #[trigger] search(p, t, pc + 1, cursor as int, c2, q, f);
                        assert(search_next(p, t, pc as int, cursor as int, caps0, q, f));
                    } else {
                        assert forall|f: nat| !#[trigger] search_next(p, t, pc as int, cursor as int, caps0, q, f) by {
                            assert(!search(p, t, pc + 1, cursor as int, c2, q, f));
                        }
                    }
                }
                if !r {
                    if let Some(sl) = saved {
                        self.restore_context(*n, sl);
                        assert(self.slots() =~= caps0);
                    }
                }
                r
            },
            Inst::Ref(n) => self.search_ref(*n, pc, text, cursor, path, codes, m, b, g),
            _ => {
                match text.char_at(cursor) {
                    Some(ch) => {
                        if inst.is_match(&ch) {
                            let next = text.next_cursor_unsafe(cursor);
                            proof {
                                lemma_char_end(t, cursor as int);
                            }
                            let r = self.search_run(pc + 1, text, next, path, codes, m, b, g);
                            assert(r == exists|f: nat| #[trigger] search_next(p, t, pc as int, cursor as int, caps0, q, f)) by {
                                if r {
                                    let f = choose|f: nat| #[trigger] search(p, t, pc + 1, next as int, caps0, q, f);
                                    assert(search_next(p, t, pc as int, cursor as int, caps0, q, f));
                                } else {
                                    assert forall|f: nat| !#[trigger] search_next(p, t, pc as int, cursor as int, caps0, q, f) by {
                                        assert(!search(p, t, pc + 1, next as int, caps0, q, f));
                                    }
                                }
                            }
                            r
                        } else {
                            assert forall|f: nat| !#[trigger] search_next(p, t, pc as int, cursor as int, caps0, q, f) by {}
                            false
                        }
                    },
                    None => {
                        assert forall|f: nat| !#[trigger] search_next(p, t, pc as int, cursor as int, caps0, q, f) by {}
                        false
                    },
                }
            },
        }
    }

    /// The step of `search_next` at a back-reference to group `n`.
    fn search_ref(
        &mut self,
        n: usize,
        pc: usize,
        text: &Text,
        cursor: usize,
        path: &mut Vec<(usize, usize, Vec<Slot>)>,
        codes: Ghost<Set<int>>,
        m: Ghost<nat>,
        b: Ghost<nat>,
        g: Ghost<nat>,
    ) -> (r: bool)
        requires
            pc < old(self).program().len(),
            old(self).program()[pc as int] == InstView::Ref(n as nat),
            cursor <= m@,
            path_fits(
                old(self).program().len(),
                old(self).slots(),
                text.view(),
                path_view(old(path)@),
                codes@,
                m@,
                b@,
                g@,
            ),
        ensures
            r == exists|f: nat|
                #[trigger] search_next(
                    old(self).program(),
                    text.view(),
                    pc as int,
                    cursor as int,
                    old(self).slots(),
                    path_view(old(path)@),
                    f,
                ),
            final(self).program() == old(self).program(),
            !r ==> final(self).slots() == old(self).slots(),
            final(path)@ == old(path)@,
        decreases b@ * b@ * pow_nat(b@ * b@, g@) - codes@.len(), 2int,
    {
        let ghost p = self.program();
        let ghost t = text.view();
        let ghost caps0 = self.slots();
        let ghost q = path_view(path@);
        assert(pc < self.instrs.len());
        let (s, e) = match self.slot(n) {
            Some((s, Some(e))) => (s, e),
            _ => {
                assert forall|f: nat| !#[trigger] search_next(p, t, pc as int, cursor as int, caps0, q, f) by {}
                return false;
            },
        };
        let (is, ie, k) = match (text.position(s), text.position(e), text.position(cursor)) {
            (Some(is), Some(ie), Some(k)) => (is, ie, k),
            _ => {
                assert forall|f: nat| !#[trigger] search_next(p, t, pc as int, cursor as int, caps0, q, f) by {}
                return false;
            },
        };
        if s > e || is > ie || !same_span(text, is, ie, k) {
            assert forall|f: nat| !#[trigger] search_next(p, t, pc as int, cursor as int, caps0, q, f) by {}
            return false;
        }
        proof {
            lemma_char_index_inv(t, s as int);
            lemma_char_index_inv(t, e as int);
            lemma_char_index_inv(t, cursor as int);
            let mm = ie - is;
            lemma_byte_pos_span(t, is as int, ie as int);
            lemma_byte_pos_span(t, k as int, k + mm);
            lemma_byte_pos_mono(t, k + mm, t.len() as int);
            assert(t.take(t.len() as int) =~= t);
        }
        let total = text.byte_len();
        assert(cursor + (e - s) <= total);
        let next = cursor + (e - s);
        let r = self.search_run(pc + 1, text, next, path, codes, m, b, g);
        assert(r == exists|f: nat| #[trigger] search_next(p, t, pc as int, cursor as int, caps0, q, f)) by {
            if r {
                let f = choose|f: nat| #[trigger] search(p, t, pc + 1, next as int, caps0, q, f);
                assert(search_next(p, t, pc as int, cursor as int, caps0, q, f));
            } else {
                assert forall|f: nat| !#[trigger] search_next(p, t, pc as int, cursor as int, caps0, q, f) by {
                    assert(!search(p, t, pc + 1, next as int, caps0, q, f));
                }
            }
        }
        r
    }
}

} // verus!
