use vstd::prelude::*;

use crate::ir::{code_view, lemma_code_view_push, Inst, InstView};

verus! {

/// The largest number of instructions that a compiled program, or any part
/// of one, may have.
pub const MAX_LEN: usize = usize::MAX / 8;

/// Code fragments are position independent: their jump and split targets
/// count from the fragment's first instruction. Placing a fragment at
/// address `k` adds `k` to each target.
pub open spec fn reloc(i: InstView, k: nat) -> InstView {
    match i {
        InstView::Jump(t) => InstView::Jump(t + k),
        InstView::Split(a, b) => InstView::Split(a + k, b + k),
        _ => i,
    }
}

/// Fragment `c` placed at address `k`.
pub open spec fn shift(c: Seq<InstView>, k: nat) -> Seq<InstView> {
    c.map_values(|i: InstView| reloc(i, k))
}

/// `i` is no `Match`, and every target of `i` is at most `bound`.
pub open spec fn inst_below(i: InstView, bound: nat) -> bool {
    match i {
        InstView::Jump(t) => t <= bound,
        InstView::Split(a, b) => a <= bound && b <= bound,
        InstView::Match => false,
        _ => true,
    }
}

/// `c` holds no `Match`, and every target in it is at most `bound`.
pub open spec fn targets_below(c: Seq<InstView>, bound: nat) -> bool {
    forall|j: int| 0 <= j < c.len() ==> inst_below(#[trigger] c[j], bound)
}

/// A closed fragment: no `Match`, and every target lies inside it or right
/// after its end.
pub open spec fn closed_code(c: Seq<InstView>) -> bool {
    targets_below(c, c.len())
}

/// `a` followed by `b`.
pub open spec fn seq_code(a: Seq<InstView>, b: Seq<InstView>) -> Seq<InstView> {
    a + shift(b, a.len())
}

/// `x*`: `L: Split(L+1, L2); x; Jump(L); L2:`.
pub open spec fn star_code(x: Seq<InstView>) -> Seq<InstView> {
    seq![InstView::Split(1, x.len() + 2)] + shift(x, 1) + seq![InstView::Jump(0)]
}

/// `x+`: one copy of `x`, then `x*`.
pub open spec fn plus_code(x: Seq<InstView>) -> Seq<InstView> {
    seq_code(x, star_code(x))
}

/// `x?`: `L: Split(L+1, L2); x; L2:`.
pub open spec fn opt_code(x: Seq<InstView>) -> Seq<InstView> {
    seq![InstView::Split(1, x.len() + 1)] + shift(x, 1)
}

/// Capturing group `n` around `body`.
pub open spec fn group_code(n: nat, body: Seq<InstView>) -> Seq<InstView> {
    seq![InstView::GroupBegin(n)] + shift(body, 1) + seq![InstView::GroupEnd(n)]
}

/// `a|b`: a split over the two branches; the first ends with a jump past
/// the second.
pub open spec fn alt_code(a: Seq<InstView>, b: Seq<InstView>) -> Seq<InstView> {
    seq![InstView::Split(1, a.len() + 2)] + shift(a, 1) + seq![
        InstView::Jump(a.len() + b.len() + 2),
    ] + shift(b, a.len() + 2)
}

/// `k` copies of `x` one after the other.
pub open spec fn times_code(x: Seq<InstView>, k: nat) -> Seq<InstView>
    decreases k,
{
    if k == 0 {
        Seq::empty()
    } else {
        seq_code(times_code(x, (k - 1) as nat), x)
    }
}

/// `x{m,n}`: `m` copies of `x`, then `n - m` copies of `x?`; with no upper
/// bound, `m` copies of `x`, then `x*`.
pub open spec fn repeat_code(x: Seq<InstView>, m: nat, max: Option<nat>) -> Seq<InstView> {
    match max {
        Some(n) => seq_code(times_code(x, m), times_code(opt_code(x), (n - m) as nat)),
        None => seq_code(times_code(x, m), star_code(x)),
    }
}

/// The length of `repeat_code(x, m, max)` for a fragment of `xlen`
/// instructions.
pub open spec fn repeat_len(xlen: nat, m: nat, max: Option<nat>) -> nat {
    match max {
        Some(n) => (m * xlen + (n - m) * (xlen + 1)) as nat,
        None => m * xlen + xlen + 2,
    }
}

pub proof fn lemma_shift_below(c: Seq<InstView>, bound: nat, k: nat)
    requires
        targets_below(c, bound),
    ensures
        targets_below(shift(c, k), bound + k),
        shift(c, k).len() == c.len(),
{
    assert forall|j: int| 0 <= j < shift(c, k).len() implies inst_below(
        #[trigger] shift(c, k)[j],
        bound + k,
    ) by {
        assert(inst_below(c[j], bound));
    }
}

pub proof fn lemma_below_mono(c: Seq<InstView>, b1: nat, b2: nat)
    requires
        targets_below(c, b1),
        b1 <= b2,
    ensures
        targets_below(c, b2),
{
    assert forall|j: int| 0 <= j < c.len() implies inst_below(#[trigger] c[j], b2) by {
        assert(inst_below(c[j], b1));
    }
}

pub proof fn lemma_below_concat(a: Seq<InstView>, b: Seq<InstView>, bound: nat)
    requires
        targets_below(a, bound),
        targets_below(b, bound),
    ensures
        targets_below(a + b, bound),
{
    assert forall|j: int| 0 <= j < (a + b).len() implies inst_below(#[trigger] (a + b)[j], bound) by {
        if j < a.len() {
            assert(inst_below(a[j], bound));
        } else {
            assert(inst_below(b[j - a.len()], bound));
        }
    }
}

pub proof fn lemma_seq_closed(a: Seq<InstView>, b: Seq<InstView>)
    requires
        closed_code(a),
        closed_code(b),
    ensures
        closed_code(seq_code(a, b)),
        seq_code(a, b).len() == a.len() + b.len(),
{
    lemma_shift_below(b, b.len(), a.len());
    lemma_below_mono(a, a.len(), a.len() + b.len());
    lemma_below_concat(a, shift(b, a.len()), a.len() + b.len());
}

pub proof fn lemma_star_closed(x: Seq<InstView>)
    requires
        closed_code(x),
    ensures
        closed_code(star_code(x)),
        star_code(x).len() == x.len() + 2,
{
    let n = x.len() + 2;
    lemma_shift_below(x, x.len(), 1);
    lemma_below_mono(shift(x, 1), x.len() + 1, n);
    let h = seq![InstView::Split(1, x.len() + 2)];
    let t = seq![InstView::Jump(0)];
    assert(targets_below(h, n));
    assert(targets_below(t, n));
    lemma_below_concat(h, shift(x, 1), n);
    lemma_below_concat(h + shift(x, 1), t, n);
}

pub proof fn lemma_plus_closed(x: Seq<InstView>)
    requires
        closed_code(x),
    ensures
        closed_code(plus_code(x)),
        plus_code(x).len() == 2 * x.len() + 2,
{
    lemma_star_closed(x);
    lemma_seq_closed(x, star_code(x));
}

pub proof fn lemma_opt_closed(x: Seq<InstView>)
    requires
        closed_code(x),
    ensures
        closed_code(opt_code(x)),
        opt_code(x).len() == x.len() + 1,
{
    let n = x.len() + 1;
    lemma_shift_below(x, x.len(), 1);
    let h = seq![InstView::Split(1, x.len() + 1)];
    assert(targets_below(h, n));
    lemma_below_concat(h, shift(x, 1), n);
}

pub proof fn lemma_group_closed(g: nat, x: Seq<InstView>)
    requires
        closed_code(x),
    ensures
        closed_code(group_code(g, x)),
        group_code(g, x).len() == x.len() + 2,
{
    let n = x.len() + 2;
    lemma_shift_below(x, x.len(), 1);
    lemma_below_mono(shift(x, 1), x.len() + 1, n);
    let h = seq![InstView::GroupBegin(g)];
    let t = seq![InstView::GroupEnd(g)];
    assert(targets_below(h, n));
    assert(targets_below(t, n));
    lemma_below_concat(h, shift(x, 1), n);
    lemma_below_concat(h + shift(x, 1), t, n);
}

pub proof fn lemma_alt_closed(a: Seq<InstView>, b: Seq<InstView>)
    requires
        closed_code(a),
        closed_code(b),
    ensures
        closed_code(alt_code(a, b)),
        alt_code(a, b).len() == a.len() + b.len() + 2,
{
    let n = a.len() + b.len() + 2;
    lemma_shift_below(a, a.len(), 1);
    lemma_below_mono(shift(a, 1), a.len() + 1, n);
    lemma_shift_below(b, b.len(), a.len() + 2);
    let h = seq![InstView::Split(1, a.len() + 2)];
    let j = seq![InstView::Jump(a.len() + b.len() + 2)];
    assert(targets_below(h, n));
    assert(targets_below(j, n));
    lemma_below_concat(h, shift(a, 1), n);
    lemma_below_concat(h + shift(a, 1), j, n);
    lemma_below_concat(h + shift(a, 1) + j, shift(b, a.len() + 2), n);
}

pub proof fn lemma_times_closed(x: Seq<InstView>, k: nat)
    requires
        closed_code(x),
    ensures
        closed_code(times_code(x, k)),
        times_code(x, k).len() == k * x.len(),
    decreases k,
{
    if k == 0 {
        assert(closed_code(times_code(x, k)));
    } else {
        lemma_times_closed(x, (k - 1) as nat);
        lemma_seq_closed(times_code(x, (k - 1) as nat), x);
        assert(k * x.len() == (k - 1) * x.len() + x.len()) by (nonlinear_arith);
    }
}

/// The instruction `i` with `k` added to its targets.
pub fn reloc_inst(i: &Inst, k: usize) -> (r: Inst)
    requires
        inst_below(i@, (usize::MAX - k) as nat),
    ensures
        r@ == reloc(i@, k as nat),
{
    match i {
        Inst::Jump(t) => Inst::Jump(*t + k),
        Inst::Split(a, b) => Inst::Split(*a + k, *b + k),
        _ => i.copy(),
    }
}

/// Appends fragment `frag`, placed at address `k`, to `out`.
pub fn shift_into(out: &mut Vec<Inst>, frag: &Vec<Inst>, k: usize)
    requires
        closed_code(code_view(frag@)),
        frag.len() + k <= usize::MAX,
    ensures
        code_view(final(out)@) == code_view(old(out)@) + shift(code_view(frag@), k as nat),
        final(out).len() == old(out).len() + frag.len(),
{
    let ghost f = code_view(frag@);
    let ghost o = code_view(out@);
    let mut j: usize = 0;
    while j < frag.len()
        invariant
            j <= frag.len(),
            f == code_view(frag@),
            closed_code(f),
            frag.len() + k <= usize::MAX,
            code_view(out@) == o + shift(f, k as nat).take(j as int),
            out.len() == old(out).len() + j,
        decreases frag.len() - j,
    {
        assert(inst_below(f[j as int], f.len()));
        let r = reloc_inst(&frag[j], k);
        proof {
            lemma_code_view_push(out@, r);
        }
        out.push(r);
        assert(code_view(out@) =~= o + shift(f, k as nat).take(j as int + 1));
        j = j + 1;
    }
    assert(shift(f, k as nat).take(j as int) =~= shift(f, k as nat));
}

/// Appends `frag` to `out`, right after its last instruction.
pub fn append_code(out: &mut Vec<Inst>, frag: &Vec<Inst>)
    requires
        closed_code(code_view(frag@)),
        old(out).len() + frag.len() <= usize::MAX,
    ensures
        code_view(final(out)@) == seq_code(code_view(old(out)@), code_view(frag@)),
        final(out).len() == old(out).len() + frag.len(),
{
    let k = out.len();
    shift_into(out, frag, k);
}

/// A copy of a fragment.
pub fn copy_code(c: &Vec<Inst>) -> (r: Vec<Inst>)
    ensures
        code_view(r@) == code_view(c@),
{
    let mut r: Vec<Inst> = Vec::new();
    let mut j: usize = 0;
    while j < c.len()
        invariant
            j <= c.len(),
            code_view(r@) == code_view(c@).take(j as int),
        decreases c.len() - j,
    {
        let i = c[j].copy();
        proof {
            lemma_code_view_push(r@, i);
        }
        r.push(i);
        assert(code_view(r@) =~= code_view(c@).take(j as int + 1));
        j = j + 1;
    }
    assert(code_view(c@).take(j as int) =~= code_view(c@));
    r
}

} // verus!
