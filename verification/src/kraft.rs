//! The adaptive Huffman tables keep a complete prefix code: per code length a group count,
//! whose Kraft sum fills the code space exactly, and whose plain sum is the symbol count.
//! This module states that invariant, and the order of a table's regions, over the byte
//! image of a table, and proves that a fresh table has them and that registering a symbol,
//! rebuilding the code, counting a symbol and rebuilding the limits keep them; and that a
//! rebuild only reorders the slot table while registering a symbol appends to it.
use vstd::prelude::*;

use crate::codec::{
    bump_run, bump_symtab, get16, get16s, get32, in_table, group_step, i32_max, merge_move, merge_scan, pow2, put16, put32, rebalance, rebuild_tail, scan_groups, simple_move, spec_add_symbol,
    sort_inner, sort_outer, spec_rebuild, top_threshold, weigh, GroupPass, HState, limits_from, spec_build_limits,
    put16_run, put32_run, spec_new_tree, lemma_pow2_mono, spec_update_freq,
};

verus! {

/// The little-endian 16-bit word at `off`.
pub open spec fn word16(m: Seq<u8>, off: int) -> int {
    m[off] + 256 * m[off + 1]
}

/// The little-endian 32-bit word at `off`.
pub open spec fn word32(m: Seq<u8>, off: int) -> int {
    m[off] + 0x100 * m[off + 1] + 0x1_0000 * m[off + 2] + 0x100_0000 * m[off + 3]
}

/// A 16-bit word read as a two's-complement number.
pub open spec fn signed16(v: int) -> int {
    if v >= 0x8000 {
        v - 0x1_0000
    } else {
        v
    }
}

pub proof fn lemma_get16(s: HState, off: int)
    ensures
        get16(s, off).0.m == s.m,
        get16(s, off).0.bad == (s.bad || !in_table(s, off, 2)),
        in_table(s, off, 2) ==> get16(s, off).1 == word16(s.m, off),
        get16s(s, off).0 == get16(s, off).0,
        in_table(s, off, 2) ==> get16s(s, off).1 == signed16(word16(s.m, off)),
{
    reveal(get16);
}

pub proof fn lemma_get32(s: HState, off: int)
    ensures
        get32(s, off).0.m == s.m,
        get32(s, off).0.bad == (s.bad || !in_table(s, off, 4)),
        in_table(s, off, 4) ==> get32(s, off).1 == word32(s.m, off),
{
    reveal(get32);
}

pub proof fn lemma_put16(s: HState, off: int, val: int)
    ensures
        put16(s, off, val).m.len() == s.m.len(),
        put16(s, off, val).bad == (s.bad || !in_table(s, off, 2)),
        forall|i: int|
            0 <= i < s.m.len() && (i < off || i >= off + 2) ==> #[trigger] put16(s, off, val).m[i] == s.m[i],
        in_table(s, off, 2) ==> word16(put16(s, off, val).m, off) == val % 0x1_0000,
{
    reveal(put16);
}

pub proof fn lemma_put32(s: HState, off: int, val: int)
    ensures
        put32(s, off, val).m.len() == s.m.len(),
        put32(s, off, val).bad == (s.bad || !in_table(s, off, 4)),
        forall|i: int|
            0 <= i < s.m.len() && (i < off || i >= off + 4) ==> #[trigger] put32(s, off, val).m[i] == s.m[i],
{
    reveal(put32);
}

pub proof fn lemma_put32_value(s: HState, off: int, val: int)
    requires
        in_table(s, off, 4),
        0 <= val < 0x1_0000_0000,
    ensures
        word32(put32(s, off, val).m, off) == val,
{
    reveal(put32);
}

/// The Kraft sum of the first `k` group counts: a code word of length `l + 1` takes
/// 2^(num - 1 - l) of the 2^num code points.
pub open spec fn kraft_sum(g: Seq<int>, num: int, k: int) -> int
    decreases k,
{
    if k <= 0 {
        0
    } else {
        kraft_sum(g, num, k - 1) + g[k - 1] * pow2((num - k) as nat)
    }
}

/// The sum of the first `k` group counts.
pub open spec fn count_sum(g: Seq<int>, k: int) -> int
    decreases k,
{
    if k <= 0 {
        0
    } else {
        count_sum(g, k - 1) + g[k - 1]
    }
}

pub proof fn lemma_sums_update(g: Seq<int>, num: int, k: int, j: int, v: int)
    requires
        0 <= j < g.len(),
        k <= g.len(),
        k <= num,
    ensures
        kraft_sum(g.update(j, v), num, k) == kraft_sum(g, num, k) + if j < k {
            (v - g[j]) * pow2((num - 1 - j) as nat)
        } else {
            0
        },
        count_sum(g.update(j, v), k) == count_sum(g, k) + if j < k { v - g[j] } else { 0 },
    decreases k,
{
    if k > 0 {
        lemma_sums_update(g, num, k - 1, j, v);
        if j == k - 1 {
            let p = pow2((num - k) as nat);
            assert(v * p - g[j] * p == (v - g[j]) * p) by (nonlinear_arith);
        }
    }
}

/// With no negative count, no single term exceeds the sums.
pub proof fn lemma_sums_bound(g: Seq<int>, num: int, k: int, j: int)
    requires
        0 <= j < k <= g.len(),
        k <= num,
        forall|l: int| 0 <= l < k ==> g[l] >= 0,
    ensures
        g[j] * pow2((num - 1 - j) as nat) <= kraft_sum(g, num, k),
        g[j] <= count_sum(g, k),
        0 <= count_sum(g, k),
        0 <= kraft_sum(g, num, k),
    decreases k,
{
    let p = pow2((num - k) as nat);
    assert(g[k - 1] * p >= 0) by (nonlinear_arith)
        requires
            g[k - 1] >= 0,
            p >= 0,
    ;
    assert(kraft_sum(g, num, k) == kraft_sum(g, num, k - 1) + g[k - 1] * p);
    assert(count_sum(g, k) == count_sum(g, k - 1) + g[k - 1]);
    if j < k - 1 {
        lemma_sums_bound(g, num, k - 1, j);
    } else if k > 1 {
        lemma_sums_bound(g, num, k - 1, 0);
    }
    if j == k - 1 {
        assert((num - 1 - j) as nat == (num - k) as nat);
    }
}

/// The group counts of a table whose counts start at `gc`, for `num` code lengths.
pub open spec fn group_counts(s: HState, gc: int, num: int) -> Seq<int> {
    Seq::new(num as nat, |l: int| signed16(word16(s.m, gc + 2 * l)))
}

/// Where a table keeps its group counts.
pub open spec fn gc_base(s: HState) -> int {
    word32(s.m, 0x0c)
}

/// The number of code lengths of a table.
pub open spec fn levels(s: HState) -> int {
    word16(s.m, 0x04)
}

/// The number of symbols the table has seen.
pub open spec fn symbols(s: HState) -> int {
    word16(s.m, 0x08)
}

/// The number of code lengths in use.
pub open spec fn groups_used(s: HState) -> int {
    word16(s.m, 0x0a)
}

/// The table's code is a complete prefix code: no count is negative, the Kraft sum of the
/// counts fills the 2^num code points, and the counts add up to the symbols in the code
/// (two at least: the escape symbol and one more).
pub open spec fn complete_code(s: HState) -> bool {
    let g = group_counts(s, gc_base(s), levels(s));
    let num = levels(s);
    &&& forall|l: int| 0 <= l < num ==> #[trigger] g[l] >= 0
    &&& kraft_sum(g, num, num) == pow2(num as nat)
    &&& count_sum(g, num) == if symbols(s) > 2 { symbols(s) } else { 2 }
}

/// The byte layout of a table: header, then group counts, symbol table, slot table, weights
/// and limits in that order within a table of at most 2^32 bytes (its offsets are 32-bit
/// words); every seen symbol's slot points at a weight; counts and sizes small enough for
/// the 16-bit fields.
pub open spec fn table_layout(s: HState) -> bool {
    let m = s.m;
    let gc = word32(m, 0x0c);
    let st = word32(m, 0x20);
    let slot = word32(m, 0x1c);
    let w = word32(m, 0x18);
    let num = word16(m, 0x04);
    let ns = word16(m, 0x08);
    let ng = word16(m, 0x0a);
    let alpha = pow2(word16(m, 0x06) as nat);
    &&& 0x34 <= m.len() <= 0x1_0000_0000
    &&& 0x34 <= gc
    &&& gc + 2 * num <= st
    &&& st + 4 * (num + 1) <= slot
    &&& slot + 4 * (alpha + 2) <= w
    &&& w + 2 * (alpha + 2) <= m.len()
    &&& 2 <= num
    &&& ng <= num
    &&& ns <= alpha + 1
    &&& ns < 0x4000
    &&& ns < pow2(num as nat)
    &&& forall|i: int|
        0 <= i < ns ==> w <= #[trigger] word32(m, slot + 4 * i) && word32(m, slot + 4 * i) + 2 <= w + 2 * (
        alpha + 2)
}

/// The header bytes that the invariant reads: the level count, the symbol count and the
/// group-count base.
pub open spec fn hdr_guarded(i: int) -> bool {
    (4 <= i < 6) || (8 <= i < 0x0a) || (0x0c <= i < 0x10)
}

/// The bytes that a rebuild keeps apart from its rebalance: the header bytes above, the
/// count of groups in use, and the group counts.
pub open spec fn guarded(i: int, gc: int, num: int) -> bool {
    hdr_guarded(i) || (0x0a <= i < 0x0c) || (gc <= i < gc + 2 * num)
}

/// `t` has the same length as `s` and the same guarded header bytes.
pub open spec fn hdr_keeps(s: HState, t: HState) -> bool {
    &&& t.m.len() == s.m.len()
    &&& forall|i: int| 0 <= i < s.m.len() && hdr_guarded(i) ==> #[trigger] t.m[i] == s.m[i]
}

/// `t` has the same length as `s` and the same guarded bytes.
pub open spec fn keeps(s: HState, t: HState, gc: int, num: int) -> bool {
    &&& t.m.len() == s.m.len()
    &&& forall|i: int| 0 <= i < s.m.len() && guarded(i, gc, num) ==> #[trigger] t.m[i] == s.m[i]
}

/// A write of `width` bytes at `off` that touches no guarded byte.
pub open spec fn clear_of(off: int, width: int, gc: int, num: int) -> bool {
    forall|i: int| off <= i < off + width ==> !#[trigger] guarded(i, gc, num)
}

pub proof fn lemma_keeps_trans(a: HState, b: HState, c: HState, gc: int, num: int)
    requires
        keeps(a, b, gc, num),
        keeps(b, c, gc, num),
    ensures
        keeps(a, c, gc, num),
{
    assert forall|i: int| 0 <= i < a.m.len() && guarded(i, gc, num) implies #[trigger] c.m[i] == a.m[i] by {
        assert(b.m[i] == a.m[i]);
    }
}

pub proof fn lemma_put16_keeps(s: HState, off: int, val: int, gc: int, num: int)
    requires
        clear_of(off, 2, gc, num),
    ensures
        keeps(s, put16(s, off, val), gc, num),
{
    lemma_put16(s, off, val);
    assert forall|i: int| 0 <= i < s.m.len() && guarded(i, gc, num) implies #[trigger] put16(s, off, val).m[i] == s.m[i] by {
        if off <= i < off + 2 {
            assert(!guarded(i, gc, num));
        }
    }
}

pub proof fn lemma_put32_keeps(s: HState, off: int, val: int, gc: int, num: int)
    requires
        clear_of(off, 4, gc, num),
    ensures
        keeps(s, put32(s, off, val), gc, num),
{
    lemma_put32(s, off, val);
    assert forall|i: int| 0 <= i < s.m.len() && guarded(i, gc, num) implies #[trigger] put32(s, off, val).m[i] == s.m[i] by {
        if off <= i < off + 4 {
            assert(!guarded(i, gc, num));
        }
    }
}

/// Keeping the guarded bytes keeps everything the invariant reads.
pub proof fn lemma_keeps_view(s: HState, t: HState)
    requires
        keeps(s, t, gc_base(s), levels(s)),
        0x10 <= s.m.len(),
        0 <= gc_base(s),
        gc_base(s) + 2 * levels(s) <= s.m.len(),
    ensures
        gc_base(t) == gc_base(s),
        levels(t) == levels(s),
        symbols(t) == symbols(s),
        groups_used(t) == groups_used(s),
        group_counts(t, gc_base(s), levels(s)) == group_counts(s, gc_base(s), levels(s)),
{
    let gc = gc_base(s);
    let num = levels(s);
    assert(guarded(4, gc, num) && guarded(5, gc, num) && guarded(8, gc, num) && guarded(9, gc, num));
    assert(guarded(0x0c, gc, num) && guarded(0x0d, gc, num) && guarded(0x0e, gc, num) && guarded(0x0f, gc, num));
    assert(t.m[4] == s.m[4] && t.m[5] == s.m[5] && t.m[8] == s.m[8] && t.m[9] == s.m[9]);
    assert(guarded(0x0a, gc, num) && guarded(0x0b, gc, num));
    assert(t.m[0x0a] == s.m[0x0a] && t.m[0x0b] == s.m[0x0b]);
    assert(t.m[0x0c] == s.m[0x0c] && t.m[0x0d] == s.m[0x0d] && t.m[0x0e] == s.m[0x0e] && t.m[0x0f] == s.m[0x0f]);
    assert forall|l: int| 0 <= l < num implies #[trigger] group_counts(t, gc, num)[l] == group_counts(s, gc, num)[l] by {
        assert(guarded(gc + 2 * l, gc, num) && guarded(gc + 2 * l + 1, gc, num));
        assert(t.m[gc + 2 * l] == s.m[gc + 2 * l]);
        assert(t.m[gc + 2 * l + 1] == s.m[gc + 2 * l + 1]);
    }
    assert(group_counts(t, gc, num) =~= group_counts(s, gc, num));
}

/// `t` differs from `s` at most in the bytes `[lo, hi)`, and is no shorter or longer.
pub open spec fn same_outside(s: HState, t: HState, lo: int, hi: int) -> bool {
    &&& t.m.len() == s.m.len()
    &&& forall|i: int| 0 <= i < s.m.len() && (i < lo || i >= hi) ==> #[trigger] t.m[i] == s.m[i]
}

/// Adding `delta` to the group count of code length `l`: read it, write it back changed.
pub open spec fn count_step(s: HState, gc: int, l: int, delta: int) -> HState {
    let (t1, v) = get16s(s, gc + 2 * l);
    put16(t1, gc + 2 * l, v + delta)
}

pub proof fn lemma_count_step(s: HState, gc: int, num: int, l: int, delta: int)
    requires
        0 <= gc,
        0 <= l < num,
        gc + 2 * num <= s.m.len(),
    ensures
        ({
            let t = count_step(s, gc, l, delta);
            let g = group_counts(s, gc, num);
            &&& t.bad == s.bad
            &&& same_outside(s, t, gc + 2 * l, gc + 2 * l + 2)
            &&& get16s(s, gc + 2 * l).1 == g[l]
            &&& group_counts(t, gc, num) == g.update(l, signed16((g[l] + delta) % 0x1_0000))
        }),
{
    let off = gc + 2 * l;
    lemma_get16(s, off);
    let t1 = get16s(s, off).0;
    let v = get16s(s, off).1;
    lemma_put16(t1, off, v + delta);
    let t = put16(t1, off, v + delta);
    let g = group_counts(s, gc, num);
    assert forall|k: int| 0 <= k < num implies #[trigger] group_counts(t, gc, num)[k] == g.update(
        l,
        signed16((g[l] + delta) % 0x1_0000),
    )[k] by {
        if k != l {
            assert(t.m[gc + 2 * k] == s.m[gc + 2 * k]);
            assert(t.m[gc + 2 * k + 1] == s.m[gc + 2 * k + 1]);
        }
    }
    assert(group_counts(t, gc, num) =~= g.update(l, signed16((g[l] + delta) % 0x1_0000)));
}

/// Adding `delta` to the 32-bit word at `off`.
pub open spec fn word_step(s: HState, off: int, delta: int) -> HState {
    let (t1, v) = get32(s, off);
    put32(t1, off, v + delta)
}

pub proof fn lemma_word_step(s: HState, off: int, delta: int)
    ensures
        word_step(s, off, delta).bad == (s.bad || !in_table(s, off, 4)),
        same_outside(s, word_step(s, off, delta), off, off + 4),
{
    lemma_get32(s, off);
    lemma_put32(get32(s, off).0, off, get32(s, off).1 + delta);
}

/// Changes outside the group counts leave them as they are.
pub proof fn lemma_same_outside_counts(s: HState, t: HState, lo: int, hi: int, gc: int, num: int)
    requires
        same_outside(s, t, lo, hi),
        0 <= gc,
        0 <= num,
        gc + 2 * num <= s.m.len(),
        hi <= gc || lo >= gc + 2 * num,
    ensures
        group_counts(t, gc, num) == group_counts(s, gc, num),
{
    assert forall|k: int| 0 <= k < num implies #[trigger] group_counts(t, gc, num)[k] == group_counts(s, gc, num)[k] by {
        assert(t.m[gc + 2 * k] == s.m[gc + 2 * k]);
        assert(t.m[gc + 2 * k + 1] == s.m[gc + 2 * k + 1]);
    }
    assert(group_counts(t, gc, num) =~= group_counts(s, gc, num));
}

pub proof fn lemma_same_outside_widen(s: HState, t: HState, lo: int, hi: int, lo2: int, hi2: int)
    requires
        same_outside(s, t, lo, hi),
        lo2 <= lo,
        hi <= hi2,
    ensures
        same_outside(s, t, lo2, hi2),
{
}

pub proof fn lemma_same_outside_trans(a: HState, b: HState, c: HState, lo: int, hi: int)
    requires
        same_outside(a, b, lo, hi),
        same_outside(b, c, lo, hi),
    ensures
        same_outside(a, c, lo, hi),
{
    assert forall|i: int| 0 <= i < a.m.len() && (i < lo || i >= hi) implies #[trigger] c.m[i] == a.m[i] by {
        assert(b.m[i] == a.m[i]);
    }
}

pub proof fn lemma_bump_run(s: HState, p: int, n: nat)
    ensures
        same_outside(s, bump_run(s, p, n), p + 8, p + 8 + 4 * n),
        s.bad ==> bump_run(s, p, n).bad,
    decreases n,
{
    if n > 0 {
        lemma_word_step(s, p + 8, 4);
        let t = word_step(s, p + 8, 4);
        assert(t == put32(get32(s, p + 8).0, p + 8, get32(s, p + 8).1 + 4));
        lemma_bump_run(t, p + 4, (n - 1) as nat);
        lemma_same_outside_widen(s, t, p + 8, p + 12, p + 8, p + 8 + 4 * n);
        lemma_same_outside_widen(t, bump_run(t, p + 4, (n - 1) as nat), p + 12, p + 12 + 4 * (n - 1), p + 8, p + 8 + 4 * n);
        lemma_same_outside_trans(s, t, bump_run(t, p + 4, (n - 1) as nat), p + 8, p + 8 + 4 * n);
    }
}

/// The group scan only reads: the bytes stay, a fault stays, and a group it finds lies
/// between where it started and the used groups' end and has more than one symbol.
pub proof fn lemma_merge_scan(s: HState, gc: int, symt: int, ng: int, u17: int, acc: int)
    ensures
        merge_scan(s, gc, symt, ng, u17, acc).0.m == s.m,
        s.bad ==> merge_scan(s, gc, symt, ng, u17, acc).0.bad,
        merge_scan(s, gc, symt, ng, u17, acc).1 ==> {
            let u = merge_scan(s, gc, symt, ng, u17, acc).2;
            &&& u17 <= u < ng
            &&& !merge_scan(s, gc, symt, ng, u17, acc).0.bad ==> in_table(s, gc + u * 2, 2) && word16(s.m, gc + u * 2) > 1
        },
    decreases ng - u17,
{
    if u17 < ng {
        let p4 = symt + u17 * 4;
        lemma_get32(s, p4);
        let (s1, a) = get32(s, p4);
        lemma_get32(s1, a);
        let (s2, b) = get32(s1, a);
        lemma_get16(s2, b);
        let (s3, w) = get16s(s2, b);
        let acc2 = (acc - w) % 0x1_0000;
        lemma_get16(s3, gc + u17 * 2);
        let (s4, gcnt) = get16(s3, gc + u17 * 2);
        lemma_get32(s4, p4);
        let (s5, a2) = get32(s4, p4);
        lemma_get32(s5, a2 + 4);
        let (s6, b2) = get32(s5, a2 + 4);
        lemma_get16(s6, b2);
        let (s7, wn) = get16(s6, b2);
        if !(gcnt > 1 && (acc2 >= 0x8000 || acc2 < wn)) {
            lemma_merge_scan(s7, gc, symt, ng, u17 + 1, acc2);
        }
    }
}

/// The fixed shape of a table during a rebuild: counts at `gc` for `num` levels, then the
/// symbol table at `symt`, all within the table; the counts fill the code space and add up
/// to at most 2^14.
pub open spec fn shape_ok(base: HState, gc: int, symt: int, num: int) -> bool {
    let c0 = group_counts(base, gc, num);
    &&& 0x34 <= gc
    &&& 2 <= num < 0x1_0000
    &&& gc + 2 * num <= symt
    &&& symt + 4 * (num + 1) <= base.m.len()
    &&& count_sum(c0, num) <= 0x4000
    &&& kraft_sum(c0, num, num) == pow2(num as nat)
}

/// What holds of the rebalance state throughout: the header bytes of `base`, no negative
/// count, the count sums of `base`, groups in use within the levels, and the top-group index.
pub open spec fn pass_ok(g: GroupPass, base: HState, gc: int, symt: int, num: int) -> bool {
    let c = group_counts(g.s, gc, num);
    let c0 = group_counts(base, gc, num);
    &&& hdr_keeps(base, g.s)
    &&& forall|l: int| 0 <= l < num ==> #[trigger] c[l] >= 0
    &&& kraft_sum(c, num, num) == kraft_sum(c0, num, num)
    &&& count_sum(c, num) == count_sum(c0, num)
    &&& 1 <= g.ng <= num
    &&& g.ustk == g.ng - 1
    &&& 0 <= g.la
    &&& 0 <= g.moved
}

pub proof fn lemma_pow2_step(n: int)
    requires
        0 < n,
    ensures
        pow2(n as nat) == 2 * pow2((n - 1) as nat),
{
}

/// A count change in place keeps the header bytes, and the counts change by `delta` at `l`.
proof fn lemma_count_step_ok(s: HState, base: HState, gc: int, symt: int, num: int, l: int, delta: int)
    requires
        shape_ok(base, gc, symt, num),
        s.m.len() == base.m.len(),
        hdr_keeps(base, s),
        0 <= l < num,
        0 <= group_counts(s, gc, num)[l] + delta < 0x8000,
    ensures
        ({
            let t = count_step(s, gc, l, delta);
            let c = group_counts(s, gc, num);
            &&& t.bad == s.bad
            &&& hdr_keeps(base, t)
            &&& group_counts(t, gc, num) == c.update(l, c[l] + delta)
            &&& kraft_sum(group_counts(t, gc, num), num, num) == kraft_sum(c, num, num) + delta * pow2(
                (num - 1 - l) as nat,
            )
            &&& count_sum(group_counts(t, gc, num), num) == count_sum(c, num) + delta
        }),
{
    lemma_count_step(s, gc, num, l, delta);
    let t = count_step(s, gc, l, delta);
    let c = group_counts(s, gc, num);
    assert((c[l] + delta) % 0x1_0000 == c[l] + delta);
    lemma_sums_update(c, num, num, l, c[l] + delta);
    assert forall|i: int| 0 <= i < base.m.len() && hdr_guarded(i) implies #[trigger] t.m[i] == base.m[i] by {
        assert(s.m[i] == base.m[i]);
    }
}

/// A symbol-table word change keeps the header bytes and the counts.
proof fn lemma_word_step_ok(s: HState, base: HState, gc: int, symt: int, num: int, off: int, delta: int)
    requires
        shape_ok(base, gc, symt, num),
        s.m.len() == base.m.len(),
        hdr_keeps(base, s),
        gc + 2 * num <= off,
    ensures
        ({
            let t = word_step(s, off, delta);
            &&& t.bad == (s.bad || !in_table(s, off, 4))
            &&& hdr_keeps(base, t)
            &&& group_counts(t, gc, num) == group_counts(s, gc, num)
        }),
{
    lemma_word_step(s, off, delta);
    let t = word_step(s, off, delta);
    lemma_same_outside_counts(s, t, off, off + 4, gc, num);
    assert forall|i: int| 0 <= i < base.m.len() && hdr_guarded(i) implies #[trigger] t.m[i] == base.m[i] by {
        assert(s.m[i] == base.m[i]);
    }
}

/// The top-group update at the end of a move: reading a count and maybe writing the group
/// count word keep the header bytes and the counts.
proof fn lemma_ng_write_ok(s: HState, base: HState, gc: int, symt: int, num: int, v: int)
    requires
        shape_ok(base, gc, symt, num),
        s.m.len() == base.m.len(),
        hdr_keeps(base, s),
    ensures
        hdr_keeps(base, put16(s, 0x0a, v)),
        group_counts(put16(s, 0x0a, v), gc, num) == group_counts(s, gc, num),
        put16(s, 0x0a, v).bad == s.bad,
{
    lemma_put16(s, 0x0a, v);
    let t = put16(s, 0x0a, v);
    lemma_same_outside_counts(s, t, 0x0a, 0x0c, gc, num);
    assert forall|i: int| 0 <= i < base.m.len() && hdr_guarded(i) implies #[trigger] t.m[i] == base.m[i] by {
        assert(s.m[i] == base.m[i]);
    }
}

/// Any change above the group counts keeps the header bytes and the counts.
proof fn lemma_above_counts_ok(s: HState, t: HState, base: HState, gc: int, symt: int, num: int, lo: int, hi: int)
    requires
        shape_ok(base, gc, symt, num),
        s.m.len() == base.m.len(),
        hdr_keeps(base, s),
        same_outside(s, t, lo, hi),
        gc + 2 * num <= lo,
    ensures
        hdr_keeps(base, t),
        group_counts(t, gc, num) == group_counts(s, gc, num),
{
    lemma_same_outside_counts(s, t, lo, hi, gc, num);
    assert forall|i: int| 0 <= i < base.m.len() && hdr_guarded(i) implies #[trigger] t.m[i] == base.m[i] by {
        assert(s.m[i] == base.m[i]);
    }
}

/// Every count is at most the sum of the counts.
proof fn lemma_counts_small(c: Seq<int>, num: int)
    requires
        c.len() == num,
        0 < num,
        forall|l: int| 0 <= l < num ==> #[trigger] c[l] >= 0,
    ensures
        forall|l: int| 0 <= l < num ==> #[trigger] c[l] <= count_sum(c, num),
        0 <= count_sum(c, num),
{
    assert forall|l: int| 0 <= l < num implies #[trigger] c[l] <= count_sum(c, num) by {
        lemma_sums_bound(c, num, num, l);
    }
    lemma_sums_bound(c, num, num, 0);
}

/// A merge move keeps the rebalance invariant: one symbol of group `la` goes one level down,
/// two symbols of group `u17` go one level up, so the Kraft sum and the count sum stay.
#[verifier::spinoff_prover]
proof fn lemma_merge_move(g: GroupPass, base: HState, gc: int, symt: int, num: int, u17: int)
    requires
        shape_ok(base, gc, symt, num),
        pass_ok(g, base, gc, symt, num),
        g.la + 2 <= u17 < g.ng,
        group_counts(g.s, gc, num)[g.la] >= 1,
        group_counts(g.s, gc, num)[u17] >= 2,
        !merge_move(g, gc, symt, u17).s.bad,
    ensures
        pass_ok(GroupPass { moved: g.moved + 1, ..merge_move(g, gc, symt, u17) }, base, gc, symt, num),
        merge_move(g, gc, symt, u17).moved == g.moved + 1,
{
    let c = group_counts(g.s, gc, num);
    let c0 = group_counts(base, gc, num);
    lemma_counts_small(c, num);
    let la = g.la;
    let la1 = la + 1;
    let p2 = symt + la * 4;
    let p16 = p2 + 4;
    let t2 = count_step(g.s, gc, la, -1);
    lemma_count_step_ok(g.s, base, gc, symt, num, la, -1);
    let c2 = group_counts(t2, gc, num);
    let t4 = word_step(t2, p16, -4);
    lemma_word_step_ok(t2, base, gc, symt, num, p16, -4);
    let t6 = count_step(t4, gc, la1, 2);
    lemma_count_step_ok(t4, base, gc, symt, num, la1, 2);
    let c6 = group_counts(t6, gc, num);
    let t8 = word_step(t6, p2 + 8, 4);
    lemma_word_step_ok(t6, base, gc, symt, num, p2 + 8, 4);
    let span = u17 - 1 - la1;
    assert((u17 - 1) % 0x1_0000 == u17 - 1);
    let far = la1 < (u17 - 1) % 0x1_0000;
    let t9 = if far { bump_run(t8, p16, span as nat) } else { t8 };
    if far {
        lemma_bump_run(t8, p16, span as nat);
        lemma_above_counts_ok(t8, t9, base, gc, symt, num, p16 + 8, p16 + 8 + 4 * span);
    }
    let la2 = if far { la1 + span } else { la1 };
    assert(la2 == u17 - 1);
    let p16b = if far { p16 + 4 * span } else { p16 };
    let t11 = count_step(t9, gc, la2, 1);
    lemma_count_step_ok(t9, base, gc, symt, num, la2, 1);
    let c11 = group_counts(t11, gc, num);
    let t13 = word_step(t11, p16b + 4, 4);
    lemma_word_step_ok(t11, base, gc, symt, num, p16b + 4, 4);
    let t15 = count_step(t13, gc, la2 + 1, -2);
    assert(group_counts(t13, gc, num)[u17] == c[u17]);
    lemma_count_step_ok(t13, base, gc, symt, num, la2 + 1, -2);
    let c15 = group_counts(t15, gc, num);
    lemma_get16(t15, gc + g.ustk * 2);
    let (t16, z) = get16s(t15, gc + g.ustk * 2);
    let fin = if z == 0 { put16(t16, 0x0a, g.ng - 1) } else { t16 };
    if z == 0 {
        lemma_ng_write_ok(t16, base, gc, symt, num, g.ng - 1);
    }
    let r = merge_move(g, gc, symt, u17);
    assert(r.s == fin);
    // the four count changes cancel in both sums
    lemma_pow2_step(num - 1 - la);
    lemma_pow2_step(num - 1 - la2);
    assert(-1 * pow2((num - 1 - la) as nat) + 2 * pow2((num - 1 - la1) as nat) + 1 * pow2((num - 1 - la2) as nat)
        + -2 * pow2((num - 1 - (la2 + 1)) as nat) == 0);
    assert forall|l: int| 0 <= l < num implies #[trigger] c15[l] >= 0 by {
        if l != la && l != la1 && l != la2 && l != la2 + 1 {
            assert(c15[l] == c[l]);
        }
    }
}

/// A simple move keeps the rebalance invariant: of three symbols of group `la`, one goes a
/// level up and two a level down, so the Kraft sum and the count sum stay.
#[verifier::spinoff_prover]
proof fn lemma_simple_move(g: GroupPass, s: HState, base: HState, gc: int, symt: int, num: int)
    requires
        shape_ok(base, gc, symt, num),
        pass_ok(g, base, gc, symt, num),
        s.m == g.s.m,
        1 <= g.la,
        g.la + 1 < num,
        g.la < g.ng,
        group_counts(g.s, gc, num)[g.la] >= 3,
        !simple_move(g, s, gc, symt).s.bad,
    ensures
        pass_ok(simple_move(g, s, gc, symt), base, gc, symt, num),
        simple_move(g, s, gc, symt).moved == g.moved + 1,
{
    let c = group_counts(g.s, gc, num);
    lemma_counts_small(c, num);
    assert(group_counts(s, gc, num) == c);
    assert(hdr_keeps(base, s)) by {
        assert forall|i: int| 0 <= i < base.m.len() && hdr_guarded(i) implies #[trigger] s.m[i] == base.m[i] by {
            assert(g.s.m[i] == base.m[i]);
        }
    }
    let la = g.la;
    let p2 = symt + la * 4;
    let t2 = count_step(s, gc, la - 1, 1);
    lemma_count_step_ok(s, base, gc, symt, num, la - 1, 1);
    let t4 = count_step(t2, gc, la, -3);
    lemma_count_step_ok(t2, base, gc, symt, num, la, -3);
    let t6 = count_step(t4, gc, la + 1, 2);
    lemma_count_step_ok(t4, base, gc, symt, num, la + 1, 2);
    let c6 = group_counts(t6, gc, num);
    let t8 = word_step(t6, p2, 4);
    lemma_word_step_ok(t6, base, gc, symt, num, p2, 4);
    let t10 = word_step(t8, p2 + 4, -8);
    lemma_word_step_ok(t8, base, gc, symt, num, p2 + 4, -8);
    let fin = if g.ustk == la { put16(t10, 0x0a, g.ng + 1) } else { t10 };
    if g.ustk == la {
        lemma_ng_write_ok(t10, base, gc, symt, num, g.ng + 1);
    }
    let r = simple_move(g, s, gc, symt);
    assert(r.s == fin);
    lemma_pow2_step(num - la);
    lemma_pow2_step(num - 1 - la);
    assert(1 * pow2((num - 1 - (la - 1)) as nat) + -3 * pow2((num - 1 - la) as nat) + 2 * pow2(
        (num - 1 - (la + 1)) as nat,
    ) == 0);
    assert forall|l: int| 0 <= l < num implies #[trigger] c6[l] >= 0 by {
        if l != la - 1 && l != la && l != la + 1 {
            assert(c6[l] == c[l]);
        }
    }
}

pub proof fn lemma_pow2_pos(n: nat)
    ensures
        pow2(n) >= 1,
    decreases n,
{
    if n > 0 {
        lemma_pow2_pos((n - 1) as nat);
    }
}

proof fn lemma_count_step_bad(s: HState, gc: int, l: int, delta: int)
    ensures
        s.bad ==> count_step(s, gc, l, delta).bad,
{
    lemma_get16(s, gc + 2 * l);
    lemma_put16(get16s(s, gc + 2 * l).0, gc + 2 * l, get16s(s, gc + 2 * l).1 + delta);
}

/// A fault before a merge move stays after it.
proof fn lemma_merge_move_bad(g: GroupPass, gc: int, symt: int, u17: int)
    ensures
        g.s.bad ==> merge_move(g, gc, symt, u17).s.bad,
{
    let la = g.la;
    let la1 = la + 1;
    let p2 = symt + la * 4;
    let p16 = p2 + 4;
    let t2 = count_step(g.s, gc, la, -1);
    lemma_count_step_bad(g.s, gc, la, -1);
    let t4 = word_step(t2, p16, -4);
    lemma_word_step(t2, p16, -4);
    let t6 = count_step(t4, gc, la1, 2);
    lemma_count_step_bad(t4, gc, la1, 2);
    let t8 = word_step(t6, p2 + 8, 4);
    lemma_word_step(t6, p2 + 8, 4);
    let span = u17 - 1 - la1;
    let far = la1 < (u17 - 1) % 0x1_0000;
    let t9 = if far { bump_run(t8, p16, span as nat) } else { t8 };
    lemma_bump_run(t8, p16, span as nat);
    let la2 = if far { la1 + span } else { la1 };
    let p16b = if far { p16 + 4 * span } else { p16 };
    let t11 = count_step(t9, gc, la2, 1);
    lemma_count_step_bad(t9, gc, la2, 1);
    let t13 = word_step(t11, p16b + 4, 4);
    lemma_word_step(t11, p16b + 4, 4);
    let t15 = count_step(t13, gc, la2 + 1, -2);
    lemma_count_step_bad(t13, gc, la2 + 1, -2);
    lemma_get16(t15, gc + g.ustk * 2);
    let (t16, z) = get16s(t15, gc + g.ustk * 2);
    lemma_put16(t16, 0x0a, g.ng - 1);
    assert(merge_move(g, gc, symt, u17).s == if z == 0 { put16(t16, 0x0a, g.ng - 1) } else { t16 });
}

/// A nonnegative small count reads the same unsigned as signed.
proof fn lemma_count_word(s: HState, gc: int, num: int, l: int)
    requires
        0 <= l < num,
        0 <= gc,
        gc + 2 * num <= s.m.len(),
        0 <= group_counts(s, gc, num)[l] <= 0x4000,
    ensures
        word16(s.m, gc + 2 * l) == group_counts(s, gc, num)[l],
        get16(s, gc + l * 2).1 == group_counts(s, gc, num)[l],
{
    lemma_get16(s, gc + 2 * l);
}

/// One rebalance step keeps the invariant, and either moves on to the next group or
/// counts one more move.
#[verifier::spinoff_prover]
proof fn lemma_group_step(g: GroupPass, base: HState, gc: int, symt: int, num: int)
    requires
        shape_ok(base, gc, symt, num),
        pass_ok(g, base, gc, symt, num),
        g.la < g.ng,
        !group_step(g, gc, symt, num).s.bad,
    ensures
        pass_ok(group_step(g, gc, symt, num), base, gc, symt, num),
        ({
            let r = group_step(g, gc, symt, num);
            (r.moved == g.moved && r.la == g.la + 1) || r.moved == g.moved + 1
        }),
{
    let c = group_counts(g.s, gc, num);
    let c0 = group_counts(base, gc, num);
    lemma_counts_small(c, num);
    let la = g.la;
    let pgc = gc + la * 2;
    let p2 = symt + la * 4;
    lemma_count_word(g.s, gc, num, la);
    lemma_get16(g.s, pgc);
    let (s1, cnt) = get16(g.s, pgc);
    if cnt != 0 {
        lemma_get32(s1, p2 + 4);
        let (s2, p1) = get32(s1, p2 + 4);
        lemma_get32(s2, p2);
        let (s3, a) = get32(s2, p2);
        lemma_get32(s3, a);
        let (s4, b) = get32(s3, a);
        lemma_get16(s4, b);
        let (s5, w_first) = get16(s4, b);
        lemma_get32(s5, p1 - 4);
        let (s6, c6) = get32(s5, p1 - 4);
        lemma_get16(s6, c6);
        let (s7, w_last) = get16(s6, c6);
        lemma_get32(s7, p1 - 8);
        let (s8, d) = get32(s7, p1 - 8);
        lemma_get16(s8, d);
        let (s9, w_last2) = get16(s8, d);
        if cnt < 3 || (num - 1) % 0x1_0000 == la || w_first < w_last + w_last2 {
            lemma_get32(s9, p1 - 4);
            let (s10, e) = get32(s9, p1 - 4);
            lemma_get16(s10, e);
            let (s11, acc0) = get16(s10, e);
            lemma_merge_scan(s11, gc, symt, g.ng, la + 2, acc0);
            let (s12, found, u17) = merge_scan(s11, gc, symt, g.ng, la + 2, acc0);
            if found && g.moved < 0x7FFF_FFFF {
                let g12 = GroupPass { s: s12, ..g };
                lemma_merge_move_bad(g12, gc, symt, u17);
                assert(group_counts(s12, gc, num) == c);
                lemma_count_word(g.s, gc, num, u17);
                lemma_merge_move(g12, base, gc, symt, num, u17);
            }
        } else if g.moved < 0x7FFF_FFFF {
            assert((num - 1) % 0x1_0000 == num - 1);
            lemma_sums_bound(c, num, num, 0);
            lemma_pow2_step(num);
            lemma_pow2_pos((num - 1) as nat);
            if la == 0 {
                let p = pow2((num - 1) as nat);
                assert(c[0] <= 2) by (nonlinear_arith)
                    requires
                        c[0] * p <= 2 * p,
                        p >= 1,
                ;
            }
            lemma_simple_move(g, s9, base, gc, symt, num);
        }
    }
}

/// Rebalancing keeps the invariant, unless it stops on a fault.
proof fn lemma_rebalance(g: GroupPass, base: HState, gc: int, symt: int, num: int)
    requires
        shape_ok(base, gc, symt, num),
        pass_ok(g, base, gc, symt, num),
    ensures
        !rebalance(g, gc, symt, num).s.bad ==> pass_ok(rebalance(g, gc, symt, num), base, gc, symt, num),
    decreases i32_max() - g.moved, g.ng - g.la,
{
    if !(g.la >= g.ng || g.moved > i32_max() || g.moved < 0) {
        let g2 = group_step(g, gc, symt, num);
        if !g2.s.bad {
            lemma_group_step(g, base, gc, symt, num);
            if g2.la < g2.ng {
                lemma_rebalance(g2, base, gc, symt, num);
            }
        }
    }
}

/// A write at or above the group counts touches no guarded byte.
proof fn lemma_clear_above(off: int, width: int, gc: int, num: int)
    requires
        0x10 <= gc,
        0 <= num,
        gc + 2 * num <= off,
    ensures
        clear_of(off, width, gc, num),
{
    assert forall|i: int| off <= i < off + width implies !#[trigger] guarded(i, gc, num) by {}
}

/// Weighing writes only the weights that the slots point at.
proof fn lemma_weigh(s: HState, slot: int, n: int, halve: bool, i: int, maxw: int, gc: int, num: int, lo: int, hi: int)
    requires
        0 <= i,
        0x10 <= gc,
        0 <= num,
        gc + 2 * num <= lo,
        0 <= slot,
        slot + 4 * n <= lo,
        hi <= s.m.len(),
        forall|k: int| i <= k < n ==> lo <= #[trigger] word32(s.m, slot + 4 * k) && word32(s.m, slot + 4 * k) + 2 <= hi,
    ensures
        keeps(s, weigh(s, slot, n, halve, i, maxw).0, gc, num),
        same_outside(s, weigh(s, slot, n, halve, i, maxw).0, lo, hi),
        s.bad ==> weigh(s, slot, n, halve, i, maxw).0.bad,
    decreases n - i,
{
    if i < n {
        lemma_get32(s, slot + i * 4);
        let (s1, p) = get32(s, slot + i * 4);
        assert(p == word32(s.m, slot + 4 * i));
        lemma_get16(s1, p);
        let (s2, wv) = get16(s1, p);
        let s3 = if halve { put16(s2, p, wv / 2) } else { s2 };
        lemma_put16(s2, p, wv / 2);
        assert(in_table(s, slot + 4 * i, 4));
        assert(lo <= p && p + 2 <= hi);
        if halve {
            lemma_clear_above(p, 2, gc, num);
            lemma_put16_keeps(s2, p, wv / 2, gc, num);
        }
        assert forall|k: int| i + 1 <= k < n implies lo <= #[trigger] word32(s3.m, slot + 4 * k) && word32(
            s3.m,
            slot + 4 * k,
        ) + 2 <= hi by {
            assert(lo <= word32(s.m, slot + 4 * k));
            assert(s3.m[slot + 4 * k] == s.m[slot + 4 * k]);
            assert(s3.m[slot + 4 * k + 1] == s.m[slot + 4 * k + 1]);
            assert(s3.m[slot + 4 * k + 2] == s.m[slot + 4 * k + 2]);
            assert(s3.m[slot + 4 * k + 3] == s.m[slot + 4 * k + 3]);
        }
        let w = if halve { wv / 2 } else { wv };
        lemma_weigh(s3, slot, n, halve, i + 1, if maxw < w { w } else { maxw }, gc, num, lo, hi);
        lemma_keeps_trans(s, s3, weigh(s, slot, n, halve, i, maxw).0, gc, num);
        lemma_same_outside_widen(s, s3, p, p + 2, lo, hi);
        lemma_same_outside_trans(s, s3, weigh(s, slot, n, halve, i, maxw).0, lo, hi);
    }
}

/// The inner sort pass writes only slot words, at or after the insertion point.
proof fn lemma_sort_inner(s: HState, slot: int, n: int, t: int, u17: int, ins: int, gc: int, num: int)
    requires
        0 <= ins,
        0 <= u17,
        0x10 <= gc,
        0 <= num,
        gc + 2 * num <= slot,
    ensures
        keeps(s, sort_inner(s, slot, n, t, u17, ins).0, gc, num),
        s.bad ==> sort_inner(s, slot, n, t, u17, ins).0.bad,
        sort_inner(s, slot, n, t, u17, ins).1 >= ins,
    decreases n - u17,
{
    if u17 < n {
        let pp = slot + u17 * 4;
        lemma_get32(s, pp);
        let (s1, p9) = get32(s, pp);
        lemma_get16(s1, p9);
        let (s2, v) = get16(s1, p9);
        if v >= t {
            lemma_get32(s2, slot + ins * 4);
            let (s3, pv) = get32(s2, slot + ins * 4);
            lemma_put32(s3, slot + ins * 4, p9);
            lemma_clear_above(slot + ins * 4, 4, gc, num);
            lemma_put32_keeps(s3, slot + ins * 4, p9, gc, num);
            let s4 = put32(s3, slot + ins * 4, p9);
            lemma_put32(s4, pp, pv);
            lemma_clear_above(pp, 4, gc, num);
            lemma_put32_keeps(s4, pp, pv, gc, num);
            let s5 = put32(s4, pp, pv);
            lemma_get32(s5, slot + (ins + 1) * 4);
            let (s6, _) = get32(s5, slot + (ins + 1) * 4);
            lemma_sort_inner(s6, slot, n, t, u17 + 1, ins + 1, gc, num);
            lemma_keeps_trans(s3, s4, s5, gc, num);
            lemma_keeps_trans(s, s5, sort_inner(s6, slot, n, t, u17 + 1, ins + 1).0, gc, num);
        } else {
            lemma_sort_inner(s2, slot, n, t, u17 + 1, ins, gc, num);
        }
    }
}

/// The radix partition writes only slot words.
proof fn lemma_sort_outer(s: HState, slot: int, n: int, la: int, t: int, gc: int, num: int)
    requires
        0 <= la,
        0x10 <= gc,
        0 <= num,
        gc + 2 * num <= slot,
    ensures
        keeps(s, sort_outer(s, slot, n, la, t), gc, num),
        s.bad ==> sort_outer(s, slot, n, la, t).bad,
    decreases t, n - la,
{
    if !(la >= n || t < 1) {
        lemma_get32(s, slot + la * 4);
        let (s1, pcur) = get32(s, slot + la * 4);
        lemma_get16(s1, pcur);
        let (s2, v) = get16(s1, pcur);
        if v < t {
            if n > la + 1 {
                lemma_sort_inner(s2, slot, n, t, la + 1, la, gc, num);
                let (s3, ins) = sort_inner(s2, slot, n, t, la + 1, la);
                let la2 = if ins != la { ins - 1 } else { la };
                if t > 2 {
                    lemma_sort_outer(s3, slot, n, la2, t / 2, gc, num);
                    lemma_keeps_trans(s2, s3, sort_outer(s3, slot, n, la2, t / 2), gc, num);
                }
            }
        } else {
            lemma_sort_outer(s2, slot, n, la + 1, t, gc, num);
        }
    }
}

/// A 16-bit write to one of the period and countdown words.
proof fn lemma_period_write(s: HState, off: int, val: int, gc: int, num: int)
    requires
        off == 0x00 || off == 0x02 || off == 0x2c || off == 0x2e,
        0x30 <= gc,
        0x30 <= s.m.len(),
    ensures
        keeps(s, put16(s, off, val), gc, num),
        put16(s, off, val).bad == s.bad,
{
    lemma_put16(s, off, val);
    lemma_put16_keeps(s, off, val, gc, num);
}

/// The end of a rebuild touches only the period and countdown words.
proof fn lemma_rebuild_tail(s: HState, moved: int, gc: int, num: int)
    requires
        0x30 <= gc,
        0x34 <= s.m.len(),
    ensures
        keeps(s, rebuild_tail(s, moved), gc, num),
        s.bad == rebuild_tail(s, moved).bad,
{
    lemma_get16(s, 0x2e);
    lemma_get16(s, 0x32);
    let s1 = if moved < 0x10 {
        if moved < 8 {
            let (a, v) = get16(s, 0x2e);
            if v != 1 {
                lemma_get16(a, 0x02);
                let (b, v1) = get16(a, 0x02);
                lemma_period_write(b, 0x02, v1 * 2, gc, num);
                let c = put16(b, 0x02, v1 * 2);
                lemma_get16(c, 0x2c);
                let (d, v2) = get16(c, 0x2c);
                lemma_period_write(d, 0x2c, v2 / 2, gc, num);
                let e = put16(d, 0x2c, v2 / 2);
                lemma_get16(e, 0x2e);
                let (f, v3) = get16(e, 0x2e);
                lemma_period_write(f, 0x2e, v3 / 2, gc, num);
                lemma_keeps_trans(b, c, e, gc, num);
                lemma_keeps_trans(b, e, put16(f, 0x2e, v3 / 2), gc, num);
                put16(f, 0x2e, v3 / 2)
            } else {
                a
            }
        } else {
            s
        }
    } else {
        let (a, v) = get16(s, 0x32);
        lemma_period_write(a, 0x02, v, gc, num);
        let b = put16(a, 0x02, v);
        lemma_get16(b, 0x30);
        let (c, v1) = get16(b, 0x30);
        lemma_period_write(c, 0x2e, v1, gc, num);
        lemma_keeps_trans(a, b, put16(c, 0x2e, v1), gc, num);
        put16(c, 0x2e, v1)
    };
    assert(keeps(s, s1, gc, num) && s1.bad == s.bad);
    lemma_get16(s1, 0x02);
    let (t, v) = get16(s1, 0x02);
    lemma_period_write(t, 0x00, v, gc, num);
    let t2 = put16(t, 0x00, v);
    lemma_get16(t2, 0x2c);
    let (t3, z) = get16(t2, 0x2c);
    lemma_keeps_trans(s, s1, t2, gc, num);
    if z == 0 {
        lemma_get16(t3, 0x2e);
        let (t4, v4) = get16(t3, 0x2e);
        lemma_period_write(t4, 0x2c, v4, gc, num);
        lemma_keeps_trans(s, t2, put16(t4, 0x2c, v4), gc, num);
    }
}

/// The first part of a rebuild: the countdown step, the weights and the slot sort.
pub open spec fn rebuild_front(s: HState) -> HState {
    let (s1, slot) = get32(s, 0x1c);
    let (s2, symt) = get32(s1, 0x20);
    let (s3, gc) = get32(s2, 0x0c);
    let (s4, n_slots) = get16(s3, 0x08);
    let (s5, upd) = get16s(s4, 0x2c);
    let (s6, num) = get16(s5, 0x04);
    let s7 = put16(s6, 0x2c, upd - 1);
    let (s8, maxw) = weigh(s7, slot, n_slots, (upd - 1) % 0x1_0000 == 0, 0, 0);
    if maxw != 0 { sort_outer(s8, slot, n_slots, 0, top_threshold(maxw, 0x8000)) } else { s8 }
}

/// The front of a rebuild keeps every guarded byte.
#[verifier::spinoff_prover]
proof fn lemma_rebuild_front(s: HState)
    requires
        table_layout(s),
    ensures
        keeps(s, rebuild_front(s), gc_base(s), levels(s)),
{
    let m = s.m;
    let gc = gc_base(s);
    let num = levels(s);
    let w = word32(m, 0x18);
    let alpha = pow2(word16(m, 0x06) as nat);
    lemma_get32(s, 0x1c);
    let (s1, slot) = get32(s, 0x1c);
    lemma_get32(s1, 0x20);
    let (s2, symt) = get32(s1, 0x20);
    lemma_get32(s2, 0x0c);
    let (s3, gcv) = get32(s2, 0x0c);
    lemma_get16(s3, 0x08);
    let (s4, n_slots) = get16(s3, 0x08);
    lemma_get16(s4, 0x2c);
    let (s5, upd) = get16s(s4, 0x2c);
    lemma_get16(s5, 0x04);
    let (s6, numv) = get16(s5, 0x04);
    lemma_period_write(s6, 0x2c, upd - 1, gc, num);
    let s7 = put16(s6, 0x2c, upd - 1);
    lemma_put16(s6, 0x2c, upd - 1);
    assert forall|k: int| 0 <= k < n_slots implies w <= #[trigger] word32(s7.m, slot + 4 * k) && word32(
        s7.m,
        slot + 4 * k,
    ) + 2 <= w + 2 * (alpha + 2) by {
        assert(w <= word32(m, slot + 4 * k));
        assert(s7.m[slot + 4 * k] == m[slot + 4 * k]);
        assert(s7.m[slot + 4 * k + 1] == m[slot + 4 * k + 1]);
        assert(s7.m[slot + 4 * k + 2] == m[slot + 4 * k + 2]);
        assert(s7.m[slot + 4 * k + 3] == m[slot + 4 * k + 3]);
    }
    let halve = (upd - 1) % 0x1_0000 == 0;
    lemma_weigh(s7, slot, n_slots, halve, 0, 0, gc, num, w, w + 2 * (alpha + 2));
    let (s8, maxw) = weigh(s7, slot, n_slots, halve, 0, 0);
    lemma_sort_outer(s8, slot, n_slots, 0, top_threshold(maxw, 0x8000), gc, num);
    lemma_keeps_trans(s6, s7, s8, gc, num);
    if maxw != 0 {
        lemma_keeps_trans(s6, s8, sort_outer(s8, slot, n_slots, 0, top_threshold(maxw, 0x8000)), gc, num);
    }
}

/// The rebalance of a rebuild whose front left `s9`.
pub open spec fn rebalanced(s: HState, s9: HState) -> GroupPass {
    let (s10, ng) = get16(s9, 0x0a);
    let g0 = GroupPass { s: s10, la: 0, ng, ustk: (ng - 1) % 0x1_0000, moved: 0 };
    if ng != 0 { rebalance(g0, gc_base(s), word32(s.m, 0x20), levels(s)) } else { g0 }
}

/// The rebalance part of a rebuild, started on `s9`, keeps the header bytes and the
/// invariant's sums.
#[verifier::spinoff_prover]
proof fn lemma_rebuild_middle(s: HState, s9: HState)
    requires
        table_layout(s),
        complete_code(s),
        keeps(s, s9, gc_base(s), levels(s)),
        !rebalanced(s, s9).s.bad,
    ensures
        hdr_keeps(s, rebalanced(s, s9).s),
        forall|l: int|
            0 <= l < levels(s) ==> #[trigger] group_counts(rebalanced(s, s9).s, gc_base(s), levels(s))[l] >= 0,
        kraft_sum(group_counts(rebalanced(s, s9).s, gc_base(s), levels(s)), levels(s), levels(s)) == kraft_sum(
            group_counts(s, gc_base(s), levels(s)),
            levels(s),
            levels(s),
        ),
        count_sum(group_counts(rebalanced(s, s9).s, gc_base(s), levels(s)), levels(s)) == count_sum(
            group_counts(s, gc_base(s), levels(s)),
            levels(s),
        ),
{
    let gc = gc_base(s);
    let num = levels(s);
    let symt = word32(s.m, 0x20);
    let c = group_counts(s, gc, num);
    lemma_keeps_view(s, s9);
    lemma_get16(s9, 0x0a);
    let (s10, ng) = get16(s9, 0x0a);
    assert(group_counts(s10, gc, num) == c);
    lemma_counts_small(c, num);
    let g0 = GroupPass { s: s10, la: 0, ng, ustk: (ng - 1) % 0x1_0000, moved: 0 };
    assert forall|i: int| 0 <= i < s.m.len() && hdr_guarded(i) implies #[trigger] s10.m[i] == s.m[i] by {
        assert(guarded(i, gc, num));
    }
    if ng != 0 {
        assert(shape_ok(s10, gc, symt, num));
        assert(pass_ok(g0, s10, gc, symt, num));
        lemma_rebalance(g0, s10, gc, symt, num);
        let g = rebalance(g0, gc, symt, num);
        assert forall|i: int| 0 <= i < s.m.len() && hdr_guarded(i) implies #[trigger] g.s.m[i] == s.m[i] by {
            assert(s10.m[i] == s.m[i]);
        }
    }
}

/// The end of the rebuild argument: a table with the header bytes and count sums of `s`,
/// whose guarded bytes the tail keeps, has a complete code like `s`.
proof fn lemma_rebuild_end(s: HState, gs: HState, r: HState)
    requires
        table_layout(s),
        complete_code(s),
        hdr_keeps(s, gs),
        ({
            let gc = gc_base(s);
            let num = levels(s);
            let c = group_counts(s, gc, num);
            let cg = group_counts(gs, gc, num);
            &&& forall|l: int| 0 <= l < num ==> #[trigger] cg[l] >= 0
            &&& kraft_sum(cg, num, num) == kraft_sum(c, num, num)
            &&& count_sum(cg, num) == count_sum(c, num)
        }),
        keeps(gs, r, gc_base(s), levels(s)),
    ensures
        complete_code(r),
        levels(r) == levels(s),
        symbols(r) == symbols(s),
        gc_base(r) == gc_base(s),
        count_sum(group_counts(r, gc_base(s), levels(s)), levels(s)) == count_sum(
            group_counts(s, gc_base(s), levels(s)),
            levels(s),
        ),
{
    let gc = gc_base(s);
    let num = levels(s);
    let m = s.m;
    assert(hdr_guarded(4) && hdr_guarded(5) && hdr_guarded(8) && hdr_guarded(9));
    assert(hdr_guarded(0x0c) && hdr_guarded(0x0d) && hdr_guarded(0x0e) && hdr_guarded(0x0f));
    assert(gs.m[4] == m[4] && gs.m[5] == m[5] && gs.m[8] == m[8] && gs.m[9] == m[9]);
    assert(gs.m[0x0c] == m[0x0c] && gs.m[0x0d] == m[0x0d] && gs.m[0x0e] == m[0x0e] && gs.m[0x0f] == m[0x0f]);
    assert(gc_base(gs) == gc && levels(gs) == num && symbols(gs) == symbols(s));
    lemma_keeps_view(gs, r);
    let cr = group_counts(r, gc, num);
    let cg = group_counts(gs, gc, num);
    assert(cr == cg);
    assert forall|l: int| 0 <= l < num implies #[trigger] cr[l] >= 0 by {
        assert(cr[l] == cg[l]);
    }
}

/// A fault before the end of a rebuild stays after it.
proof fn lemma_rebuild_tail_bad(s: HState, moved: int)
    ensures
        s.bad ==> rebuild_tail(s, moved).bad,
{
    lemma_get16(s, 0x2e);
    lemma_get16(s, 0x32);
    let (a, v) = get16(s, 0x2e);
    lemma_get16(a, 0x02);
    let (b, v1) = get16(a, 0x02);
    lemma_put16(b, 0x02, v1 * 2);
    let c = put16(b, 0x02, v1 * 2);
    lemma_get16(c, 0x2c);
    let (d, v2) = get16(c, 0x2c);
    lemma_put16(d, 0x2c, v2 / 2);
    let e = put16(d, 0x2c, v2 / 2);
    lemma_get16(e, 0x2e);
    let (f, v3) = get16(e, 0x2e);
    lemma_put16(f, 0x2e, v3 / 2);
    let (a2, w) = get16(s, 0x32);
    lemma_put16(a2, 0x02, w);
    let b2 = put16(a2, 0x02, w);
    lemma_get16(b2, 0x30);
    let (c2, w1) = get16(b2, 0x30);
    lemma_put16(c2, 0x2e, w1);
    let s1 = if moved < 0x10 {
        if moved < 8 {
            if v != 1 { put16(f, 0x2e, v3 / 2) } else { a }
        } else {
            s
        }
    } else {
        put16(c2, 0x2e, w1)
    };
    lemma_get16(s1, 0x02);
    let (t, x) = get16(s1, 0x02);
    lemma_put16(t, 0x00, x);
    let t2 = put16(t, 0x00, x);
    lemma_get16(t2, 0x2c);
    let (t3, z) = get16(t2, 0x2c);
    lemma_get16(t3, 0x2e);
    let (t4, v4) = get16(t3, 0x2e);
    lemma_put16(t4, 0x2c, v4);
}

/// Rebuilding the code keeps it a complete prefix code: the weights are halved or kept and
/// the slots re-sorted, and the rebalance only moves symbols between code lengths, so the
/// level count, the symbol count and the number of symbols in the code stay as they were.
/// (A rebuild that faults makes decompression fail, so only fault-free results are spoken of.)
#[verifier::spinoff_prover]
pub proof fn lemma_rebuild_keeps_code(s: HState)
    requires
        table_layout(s),
        complete_code(s),
        !spec_rebuild(s).bad,
    ensures
        complete_code(spec_rebuild(s)),
        levels(spec_rebuild(s)) == levels(s),
        symbols(spec_rebuild(s)) == symbols(s),
        gc_base(spec_rebuild(s)) == gc_base(s),
        count_sum(group_counts(spec_rebuild(s), gc_base(s), levels(s)), levels(s)) == count_sum(
            group_counts(s, gc_base(s), levels(s)),
            levels(s),
        ),
{
    let gc = gc_base(s);
    let num = levels(s);
    let symt = word32(s.m, 0x20);
    lemma_get32(s, 0x1c);
    let (s1, slot) = get32(s, 0x1c);
    lemma_get32(s1, 0x20);
    let (s2, symtv) = get32(s1, 0x20);
    lemma_get32(s2, 0x0c);
    let (s3, gcv) = get32(s2, 0x0c);
    lemma_get16(s3, 0x08);
    let (s4, n_slots) = get16(s3, 0x08);
    lemma_get16(s4, 0x2c);
    let (s5, upd) = get16s(s4, 0x2c);
    lemma_get16(s5, 0x04);
    let (s6, numv) = get16(s5, 0x04);
    assert(symtv == symt && gcv == gc && numv == num);
    let s9 = rebuild_front(s);
    lemma_rebuild_front(s);
    let (s10, ng) = get16(s9, 0x0a);
    let g0 = GroupPass { s: s10, la: 0, ng, ustk: (ng - 1) % 0x1_0000, moved: 0 };
    let g = if ng != 0 { rebalance(g0, gc, symt, num) } else { g0 };
    assert(g == rebalanced(s, s9));
    let r = rebuild_tail(g.s, g.moved);
    assert(r == spec_rebuild(s));
    lemma_get16(s9, 0x0a);
    lemma_rebuild_tail_bad(g.s, g.moved);
    lemma_rebuild_middle(s, s9);
    lemma_rebuild_tail(g.s, g.moved, gc, num);
    lemma_rebuild_end(s, g.s, r);
}

/// Adding 4 to the symbol-table pointers `u..=num` writes only those pointers.
proof fn lemma_bump_symtab(s: HState, st: int, u: int, num: int)
    ensures
        same_outside(s, bump_symtab(s, st, u, num), st + 4 * u, st + 4 * (num + 1)),
        s.bad ==> bump_symtab(s, st, u, num).bad,
    decreases num + 1 - u,
{
    if u <= num {
        lemma_word_step(s, st + u * 4, 4);
        let t = word_step(s, st + u * 4, 4);
        assert(t == put32(get32(s, st + u * 4).0, st + u * 4, get32(s, st + u * 4).1 + 4));
        lemma_bump_symtab(t, st, u + 1, num);
        lemma_same_outside_widen(s, t, st + 4 * u, st + 4 * u + 4, st + 4 * u, st + 4 * (num + 1));
        lemma_same_outside_widen(t, bump_symtab(t, st, u + 1, num), st + 4 * (u + 1), st + 4 * (num + 1), st + 4 * u, st + 4 * (num + 1));
        lemma_same_outside_trans(s, t, bump_symtab(t, st, u + 1, num), st + 4 * u, st + 4 * (num + 1));
    }
}

/// The downward scan for a nonzero group count finds the highest one at or below `u`.
proof fn lemma_scan_groups(s: HState, gc: int, num: int, u: int, k: nat)
    requires
        !s.bad,
        0 <= gc,
        0 <= u < num,
        gc + 2 * num <= s.m.len(),
        k + u < 0x1_0000,
        exists|l: int| 0 <= l <= u && group_counts(s, gc, num)[l] != 0,
    ensures
        scan_groups(s, gc, u, k).0.m == s.m,
        scan_groups(s, gc, u, k).0.bad == s.bad,
        0 <= scan_groups(s, gc, u, k).1 <= u,
        group_counts(s, gc, num)[scan_groups(s, gc, u, k).1] != 0,
    decreases u,
{
    lemma_get16(s, gc + u * 2);
    let (s1, v) = get16s(s, gc + u * 2);
    assert(v == group_counts(s, gc, num)[u]);
    if !(s1.bad || v != 0) {
        assert((u - 1) % 0x1_0000 == u - 1) by {
            if u == 0 {
                assert(group_counts(s, gc, num)[0] == 0);
            }
        }
        assert(group_counts(s1, gc, num) == group_counts(s, gc, num));
        lemma_scan_groups(s1, gc, num, u - 1, k + 1);
    }
}

/// The part of registering a symbol before its code length is chosen: its weight set to 1,
/// its weight's address put in the next slot, and the symbol count raised.
pub open spec fn add_front(s: HState, newsym: int) -> HState {
    let (s1, w) = get32(s, 0x18);
    let (s2, slot) = get32(s1, 0x1c);
    let (s3, gc) = get32(s2, 0x0c);
    let (s4, st) = get32(s3, 0x20);
    let iv = newsym * 2;
    let s5 = put16(s4, w + iv, 1);
    let (s6, ns) = get16(s5, 0x08);
    let s7 = put32(s6, slot + ns * 4, w + iv);
    put16(s7, 0x08, ns + 1)
}

/// The code length in use at the top holds a symbol.
pub open spec fn top_group_ok(s: HState) -> bool {
    let ng = groups_used(s);
    &&& 1 <= ng
    &&& group_counts(s, gc_base(s), levels(s))[ng - 1] >= 1
}

#[verifier::spinoff_prover]
proof fn lemma_add_front(s: HState, newsym: int)
    requires
        table_layout(s),
        0 <= newsym < pow2(word16(s.m, 0x06) as nat),
    ensures
        ({
            let t = add_front(s, newsym);
            let gc = gc_base(s);
            let num = levels(s);
            &&& t.bad == s.bad
            &&& t.m.len() == s.m.len()
            &&& gc_base(t) == gc
            &&& levels(t) == num
            &&& symbols(t) == symbols(s) + 1
            &&& groups_used(t) == groups_used(s)
            &&& word32(t.m, 0x20) == word32(s.m, 0x20)
            &&& group_counts(t, gc, num) == group_counts(s, gc, num)
        }),
{
    let m = s.m;
    let gc = gc_base(s);
    let num = levels(s);
    let alpha = pow2(word16(m, 0x06) as nat);
    lemma_get32(s, 0x18);
    let (s1, w) = get32(s, 0x18);
    lemma_get32(s1, 0x1c);
    let (s2, slot) = get32(s1, 0x1c);
    lemma_get32(s2, 0x0c);
    let (s3, gcv) = get32(s2, 0x0c);
    lemma_get32(s3, 0x20);
    let (s4, st) = get32(s3, 0x20);
    let iv = newsym * 2;
    lemma_put16(s4, w + iv, 1);
    lemma_clear_above(w + iv, 2, gc, num);
    lemma_put16_keeps(s4, w + iv, 1, gc, num);
    let s5 = put16(s4, w + iv, 1);
    lemma_get16(s5, 0x08);
    let (s6, ns) = get16(s5, 0x08);
    assert(s5.m[8] == m[8] && s5.m[9] == m[9]);
    assert(ns == symbols(s));
    lemma_put32(s6, slot + ns * 4, w + iv);
    lemma_clear_above(slot + ns * 4, 4, gc, num);
    lemma_put32_keeps(s6, slot + ns * 4, w + iv, gc, num);
    let s7 = put32(s6, slot + ns * 4, w + iv);
    lemma_put16(s7, 0x08, ns + 1);
    let t = put16(s7, 0x08, ns + 1);
    lemma_keeps_trans(s, s5, s7, gc, num);
    lemma_keeps_view(s, s7);
    assert(guarded(0x20, gc, num) == false);
    assert(t.m[0x20] == m[0x20] && t.m[0x21] == m[0x21] && t.m[0x22] == m[0x22] && t.m[0x23] == m[0x23]);
    assert(t.m[4] == s7.m[4] && t.m[5] == s7.m[5] && t.m[0x0a] == s7.m[0x0a] && t.m[0x0b] == s7.m[0x0b]);
    assert(t.m[0x0c] == s7.m[0x0c] && t.m[0x0d] == s7.m[0x0d] && t.m[0x0e] == s7.m[0x0e] && t.m[0x0f] == s7.m[0x0f]);
    assert forall|l: int| 0 <= l < num implies #[trigger] group_counts(t, gc, num)[l] == group_counts(s7, gc, num)[l] by {
        assert(t.m[gc + 2 * l] == s7.m[gc + 2 * l]);
        assert(t.m[gc + 2 * l + 1] == s7.m[gc + 2 * l + 1]);
    }
    assert(group_counts(t, gc, num) =~= group_counts(s7, gc, num));
}

/// The part of registering a symbol after the symbol count was raised: the code length
/// `u6` whose word is split (the top used one when a longer length is still free, else the
/// highest nonempty one below the last), its count lowered and the next one's raised by two.
pub open spec fn add_split(s8: HState, gc: int, st: int) -> (HState, int) {
    let (s9, ng) = get16(s8, 0x0a);
    let (s10, numv) = get16(s9, 0x04);
    let (s11, u6) = if ng < numv {
        (put16(s10, 0x0a, ng + 1), (ng - 1) % 0x1_0000)
    } else {
        scan_groups(s10, gc, (ng - 2) % 0x1_0000, 0)
    };
    (bump_symtab(word_step(count_step(count_step(s11, gc, u6, -1), gc, u6 + 1, 2), st + (u6 + 1) * 4, -4), st, u6 + 2, numv), u6)
}

proof fn lemma_scan_groups_bad(s: HState, gc: int, u: int, k: nat)
    ensures
        s.bad ==> scan_groups(s, gc, u, k).0.bad,
    decreases 0x1_0000 - k,
{
    if k < 0x1_0000 {
        lemma_get16(s, gc + u * 2);
        let (s1, v) = get16s(s, gc + u * 2);
        if !(s1.bad || v != 0) {
            lemma_scan_groups_bad(s1, gc, (u - 1) % 0x1_0000, k + 1);
        }
    }
}

proof fn lemma_sums_zero(c: Seq<int>, num: int, k: int)
    requires
        0 <= k <= c.len(),
        forall|l: int| 0 <= l < k ==> #[trigger] c[l] == 0,
    ensures
        kraft_sum(c, num, k) == 0,
        count_sum(c, k) == 0,
    decreases k,
{
    if k > 0 {
        lemma_sums_zero(c, num, k - 1);
    }
}

/// The second part of registering a symbol, from the state after the symbol count was raised:
/// one code word of the chosen length `u6` is split into two one level longer.
#[verifier::spinoff_prover]
#[verifier::rlimit(40)]
proof fn lemma_add_split(s8: HState, gc: int, st: int, num: int, ns: int)
    requires
        shape_ok(s8, gc, st, num),
        gc_base(s8) == gc,
        levels(s8) == num,
        symbols(s8) == ns + 1,
        2 <= ns < pow2(num as nat),
        count_sum(group_counts(s8, gc, num), num) == ns,
        forall|l: int| 0 <= l < num ==> #[trigger] group_counts(s8, gc, num)[l] >= 0,
        top_group_ok(s8),
        groups_used(s8) <= num,
        !add_split(s8, gc, st).0.bad,
    ensures
        complete_code(add_split(s8, gc, st).0),
        top_group_ok(add_split(s8, gc, st).0),
        gc_base(add_split(s8, gc, st).0) == gc,
        levels(add_split(s8, gc, st).0) == num,
        symbols(add_split(s8, gc, st).0) == ns + 1,
        forall|l: int|
            0 <= l < add_split(s8, gc, st).1 ==> #[trigger] group_counts(add_split(s8, gc, st).0, gc, num)[l]
                == group_counts(s8, gc, num)[l],
        same_outside(s8, add_split(s8, gc, st).0, 0, st + 4 * (num + 1)),
        forall|i: int| 4 <= i < 0x24 && i != 0x0a && i != 0x0b ==> #[trigger] add_split(s8, gc, st).0.m[i] == s8.m[i],
        word16(add_split(s8, gc, st).0.m, 0x0a) <= num,
{
    let c = group_counts(s8, gc, num);
    lemma_counts_small(c, num);
    lemma_get16(s8, 0x0a);
    let (s9, ng) = get16(s8, 0x0a);
    lemma_get16(s9, 0x04);
    let (s10, numv) = get16(s9, 0x04);
    assert(numv == num);
    assert(hdr_keeps(s8, s10));
    assert(group_counts(s10, gc, num) == c);
    let (s11, u6) = if ng < numv {
        (put16(s10, 0x0a, ng + 1), (ng - 1) % 0x1_0000)
    } else {
        scan_groups(s10, gc, (ng - 2) % 0x1_0000, 0)
    };
    let s13 = count_step(s11, gc, u6, -1);
    let s15 = count_step(s13, gc, u6 + 1, 2);
    let s17 = word_step(s15, st + (u6 + 1) * 4, -4);
    let fin = bump_symtab(s17, st, u6 + 2, numv);
    lemma_bump_symtab(s17, st, u6 + 2, num);
    lemma_word_step(s15, st + (u6 + 1) * 4, -4);
    lemma_count_step_bad(s11, gc, u6, -1);
    lemma_count_step_bad(s13, gc, u6 + 1, 2);
    if ng < numv {
        assert((ng - 1) % 0x1_0000 == ng - 1);
        lemma_ng_write_ok(s10, s8, gc, st, num, ng + 1);
        lemma_put16(s10, 0x0a, ng + 1);
    } else {
        assert(ng == num);
        assert((ng - 2) % 0x1_0000 == num - 2);
        lemma_scan_groups_bad(s10, gc, num - 2, 0);
        assert(exists|l: int| 0 <= l <= num - 2 && c[l] != 0) by {
            if forall|l: int| 0 <= l <= num - 2 ==> c[l] == 0 {
                lemma_sums_zero(c, num, num - 1);
                lemma_pow2_step(num);
                lemma_pow2_step(num - 1);
                lemma_pow2_pos((num - 2) as nat);
                assert(pow2(0) == 1);
                assert(kraft_sum(c, num, num) == kraft_sum(c, num, num - 1) + c[num - 1] * pow2((num - num) as nat));
                assert(count_sum(c, num) == count_sum(c, num - 1) + c[num - 1]);
                let top = c[num - 1];
                let p0 = pow2((num - num) as nat);
                assert(p0 == 1);
                assert(top * p0 == top) by (nonlinear_arith)
                    requires
                        p0 == 1,
                ;
                assert(false);
            }
        }
        lemma_scan_groups(s10, gc, num, num - 2, 0);
        assert(group_counts(s11, gc, num) == c);
        assert(hdr_keeps(s8, s11));
    }
    assert(0 <= u6 && u6 + 1 < num);
    assert(c[u6] >= 1);
    lemma_count_step_ok(s11, s8, gc, st, num, u6, -1);
    lemma_count_step(s11, gc, num, u6, -1);
    lemma_count_step_ok(s13, s8, gc, st, num, u6 + 1, 2);
    lemma_count_step(s13, gc, num, u6 + 1, 2);
    lemma_word_step_ok(s15, s8, gc, st, num, st + (u6 + 1) * 4, -4);
    lemma_above_counts_ok(s17, fin, s8, gc, st, num, st + 4 * (u6 + 2), st + 4 * (num + 1));
    let cf = group_counts(fin, gc, num);
    lemma_pow2_step(num - 1 - u6);
    assert(-1 * pow2((num - 1 - u6) as nat) + 2 * pow2((num - 1 - (u6 + 1)) as nat) == 0);
    // the header bytes that the invariant reads are those of `s8`
    assert(hdr_guarded(4) && hdr_guarded(5) && hdr_guarded(8) && hdr_guarded(9));
    assert(hdr_guarded(0x0c) && hdr_guarded(0x0d) && hdr_guarded(0x0e) && hdr_guarded(0x0f));
    assert(fin.m[4] == s8.m[4] && fin.m[5] == s8.m[5] && fin.m[8] == s8.m[8] && fin.m[9] == s8.m[9]);
    assert(fin.m[0x0c] == s8.m[0x0c] && fin.m[0x0d] == s8.m[0x0d] && fin.m[0x0e] == s8.m[0x0e] && fin.m[0x0f]
        == s8.m[0x0f]);
    // the used-group word is that of `s11`
    assert(fin.m[0x0a] == s11.m[0x0a] && fin.m[0x0b] == s11.m[0x0b]);
    assert forall|l: int| 0 <= l < num implies #[trigger] cf[l] >= 0 by {
        if l != u6 && l != u6 + 1 {
            assert(cf[l] == c[l]);
        }
    }
    assert forall|l: int| 0 <= l < u6 implies #[trigger] cf[l] == c[l] by {}
    // every write lies below the end of the symbol table
    let top = st + 4 * (num + 1);
    assert(same_outside(s8, s11, 0, top));
    lemma_count_step_frame(s11, gc, u6, -1);
    lemma_count_step_frame(s13, gc, u6 + 1, 2);
    lemma_same_outside_widen(s11, s13, gc + 2 * u6, gc + 2 * u6 + 2, 0, top);
    lemma_same_outside_widen(s13, s15, gc + 2 * (u6 + 1), gc + 2 * (u6 + 1) + 2, 0, top);
    lemma_same_outside_widen(s15, s17, st + (u6 + 1) * 4, st + (u6 + 1) * 4 + 4, 0, top);
    lemma_same_outside_widen(s17, fin, st + 4 * (u6 + 2), top, 0, top);
    lemma_same_outside_trans(s8, s11, s13, 0, top);
    lemma_same_outside_trans(s8, s13, s15, 0, top);
    lemma_same_outside_trans(s8, s15, s17, 0, top);
    lemma_same_outside_trans(s8, s17, fin, 0, top);
    // and all of them but the groups-in-use word at or above the group counts
    lemma_same_outside_widen(s11, s13, gc + 2 * u6, gc + 2 * u6 + 2, 0x34, top);
    lemma_same_outside_widen(s13, s15, gc + 2 * (u6 + 1), gc + 2 * (u6 + 1) + 2, 0x34, top);
    lemma_same_outside_widen(s15, s17, st + (u6 + 1) * 4, st + (u6 + 1) * 4 + 4, 0x34, top);
    lemma_same_outside_widen(s17, fin, st + 4 * (u6 + 2), top, 0x34, top);
    lemma_same_outside_trans(s11, s13, s15, 0x34, top);
    lemma_same_outside_trans(s11, s15, s17, 0x34, top);
    lemma_same_outside_trans(s11, s17, fin, 0x34, top);
    assert forall|i: int| 4 <= i < 0x24 && i != 0x0a && i != 0x0b implies #[trigger] fin.m[i] == s8.m[i] by {
        assert(fin.m[i] == s11.m[i]);
    }
    assert(fin.m[0x0a] == s11.m[0x0a] && fin.m[0x0b] == s11.m[0x0b]);
}

/// Registering a new symbol keeps the code a complete prefix code: the symbol count goes up
/// by one, and unless the new symbol is the second one, one code word of some length `l` is
/// split into two of length `l + 1`; the counts below the returned level `l` are unchanged,
/// and the top code length in use still holds a symbol. (Only fault-free results are spoken of.)
#[verifier::spinoff_prover]
pub proof fn lemma_add_symbol_keeps_code(s: HState, newsym: int)
    requires
        table_layout(s),
        complete_code(s),
        top_group_ok(s),
        1 <= symbols(s),
        0 <= newsym < pow2(word16(s.m, 0x06) as nat),
        !spec_add_symbol(s, newsym).0.bad,
    ensures
        complete_code(spec_add_symbol(s, newsym).0),
        top_group_ok(spec_add_symbol(s, newsym).0),
        symbols(spec_add_symbol(s, newsym).0) == symbols(s) + 1,
        levels(spec_add_symbol(s, newsym).0) == levels(s),
        gc_base(spec_add_symbol(s, newsym).0) == gc_base(s),
        forall|l: int|
            0 <= l < spec_add_symbol(s, newsym).1 ==> #[trigger] group_counts(
                spec_add_symbol(s, newsym).0,
                gc_base(s),
                levels(s),
            )[l] == group_counts(s, gc_base(s), levels(s))[l],
        symbols(s) == 1 ==> spec_add_symbol(s, newsym).1 == 0,
{
    let m = s.m;
    let gc = gc_base(s);
    let num = levels(s);
    let st = word32(m, 0x20);
    let ns = symbols(s);
    let c = group_counts(s, gc, num);
    lemma_get32(s, 0x18);
    let (s1, w) = get32(s, 0x18);
    lemma_get32(s1, 0x1c);
    let (s2, slot) = get32(s1, 0x1c);
    lemma_get32(s2, 0x0c);
    let (s3, gcv) = get32(s2, 0x0c);
    lemma_get32(s3, 0x20);
    let (s4, stv) = get32(s3, 0x20);
    let iv = newsym * 2;
    lemma_put16(s4, w + iv, 1);
    let s5 = put16(s4, w + iv, 1);
    lemma_get16(s5, 0x08);
    let (s6, nsv) = get16(s5, 0x08);
    assert(gcv == gc && stv == st);
    assert(s5.m[8] == m[8] && s5.m[9] == m[9]);
    assert(nsv == ns);
    let s8 = add_front(s, newsym);
    lemma_add_front(s, newsym);
    let r = spec_add_symbol(s, newsym);
    if ns + 1 == 2 {
        assert(r == (s8, 0int));
        assert(group_counts(s8, gc, num) == c);
        assert(groups_used(s8) == groups_used(s));
    } else {
        lemma_counts_small(c, num);
        assert(shape_ok(s8, gc, st, num));
        assert(r == add_split(s8, gc, st));
        assert(group_counts(s8, gc, num) == c);
        lemma_add_split(s8, gc, st, num, ns);
    }
}

/// Registering a symbol gives it weight 1 and appends the address of its weight to the slot
/// table: the slots before it and the weights of all other symbols stay as they were.
/// (Only fault-free results are spoken of.)
#[verifier::spinoff_prover]
pub proof fn lemma_add_symbol_records_slot(s: HState, newsym: int)
    requires
        table_layout(s),
        complete_code(s),
        top_group_ok(s),
        1 <= symbols(s),
        0 <= newsym < pow2(word16(s.m, 0x06) as nat),
        !spec_add_symbol(s, newsym).0.bad,
    ensures
        ({
            let t = spec_add_symbol(s, newsym).0;
            let w = word32(s.m, 0x18);
            let slot = word32(s.m, 0x1c);
            &&& word16(t.m, w + 2 * newsym) == 1
            &&& slot_seq(t, slot, symbols(s) + 1) == slot_seq(s, slot, symbols(s)).push(w + 2 * newsym)
            &&& forall|j: int|
                0 <= j < pow2(word16(s.m, 0x06) as nat) && j != newsym ==> #[trigger] word16(t.m, w + 2 * j)
                    == word16(s.m, w + 2 * j)
        }),
{
    let m = s.m;
    let gc = gc_base(s);
    let num = levels(s);
    let st = word32(m, 0x20);
    let ns = symbols(s);
    let w = word32(m, 0x18);
    let slot = word32(m, 0x1c);
    let alpha = pow2(word16(m, 0x06) as nat);
    let c = group_counts(s, gc, num);
    lemma_get32(s, 0x18);
    let (s1, wv) = get32(s, 0x18);
    lemma_get32(s1, 0x1c);
    let (s2, slotv) = get32(s1, 0x1c);
    lemma_get32(s2, 0x0c);
    let (s3, gcv) = get32(s2, 0x0c);
    lemma_get32(s3, 0x20);
    let (s4, stv) = get32(s3, 0x20);
    let iv = newsym * 2;
    lemma_put16(s4, w + iv, 1);
    let s5 = put16(s4, w + iv, 1);
    lemma_get16(s5, 0x08);
    let (s6, nsv) = get16(s5, 0x08);
    assert(wv == w && slotv == slot && gcv == gc && stv == st);
    assert(s5.m[8] == m[8] && s5.m[9] == m[9]);
    assert(nsv == ns);
    lemma_word32_range(m, 0x18);
    lemma_put32(s6, slot + ns * 4, w + iv);
    lemma_put32_value(s6, slot + ns * 4, w + iv);
    let s7 = put32(s6, slot + ns * 4, w + iv);
    lemma_put16(s7, 0x08, ns + 1);
    let s8 = put16(s7, 0x08, ns + 1);
    assert(s8 == add_front(s, newsym));
    let r = spec_add_symbol(s, newsym);
    let t = r.0;
    let top = st + 4 * (num + 1);
    if ns + 1 == 2 {
        assert(t == s8);
    } else {
        lemma_add_front(s, newsym);
        lemma_counts_small(c, num);
        assert(shape_ok(s8, gc, st, num));
        assert(r == add_split(s8, gc, st));
        assert(group_counts(s8, gc, num) == c);
        lemma_add_split(s8, gc, st, num, ns);
    }
    assert(same_outside(s8, t, 0, top));
    // the weight word of the new symbol
    assert(t.m[w + iv] == s8.m[w + iv] && t.m[w + iv + 1] == s8.m[w + iv + 1]);
    assert(s8.m[w + iv] == s5.m[w + iv] && s8.m[w + iv + 1] == s5.m[w + iv + 1]);
    // the slot words
    let q = slot_seq(s, slot, ns).push(w + iv);
    assert forall|k: int| 0 <= k < ns + 1 implies #[trigger] slot_seq(t, slot, ns + 1)[k] == q[k] by {
        let o = slot + 4 * k;
        assert(t.m[o] == s8.m[o] && t.m[o + 1] == s8.m[o + 1] && t.m[o + 2] == s8.m[o + 2] && t.m[o + 3]
            == s8.m[o + 3]);
        assert(s8.m[o] == s7.m[o] && s8.m[o + 1] == s7.m[o + 1] && s8.m[o + 2] == s7.m[o + 2] && s8.m[o + 3]
            == s7.m[o + 3]);
        if k < ns {
            assert(s7.m[o] == m[o] && s7.m[o + 1] == m[o + 1] && s7.m[o + 2] == m[o + 2] && s7.m[o + 3]
                == m[o + 3]);
        }
    }
    assert(slot_seq(t, slot, ns + 1) =~= q);
    // the other weights
    assert forall|j: int| 0 <= j < alpha && j != newsym implies #[trigger] word16(t.m, w + 2 * j) == word16(
        m,
        w + 2 * j,
    ) by {
        let o = w + 2 * j;
        assert(t.m[o] == s8.m[o] && t.m[o + 1] == s8.m[o + 1]);
        assert(s8.m[o] == m[o] && s8.m[o + 1] == m[o + 1]);
    }
}

/// Chaining a change inside `[lo, hi)` onto one inside `[0, top)`.
proof fn lemma_below_step(base: HState, a: HState, b: HState, lo: int, hi: int, top: int)
    requires
        same_outside(base, a, 0, top),
        same_outside(a, b, lo, hi),
        0 <= lo,
        hi <= top,
    ensures
        same_outside(base, b, 0, top),
{
    lemma_same_outside_widen(a, b, lo, hi, 0, top);
    lemma_same_outside_trans(base, a, b, 0, top);
}

proof fn lemma_count_step_frame(s: HState, gc: int, l: int, delta: int)
    ensures
        same_outside(s, count_step(s, gc, l, delta), gc + 2 * l, gc + 2 * l + 2),
{
    lemma_get16(s, gc + 2 * l);
    lemma_put16(get16s(s, gc + 2 * l).0, gc + 2 * l, get16s(s, gc + 2 * l).1 + delta);
}

/// `t` has the bytes of `base` below `gc - 2`, but for the groups-in-use word.
pub open spec fn low_bytes(base: HState, t: HState, gc: int) -> bool {
    forall|i: int| 0 <= i < base.m.len() && i < gc - 2 && i != 0x0a && i != 0x0b ==> #[trigger] t.m[i] == base.m[i]
}

/// What a rebalance keeps below the group counts: the bytes of `base`, and the groups-in-use
/// word holding the pass's group count.
pub open spec fn low_ok(g: GroupPass, base: HState, gc: int) -> bool {
    &&& 0x34 <= base.m.len()
    &&& g.s.m.len() == base.m.len()
    &&& low_bytes(base, g.s, gc)
    &&& word16(g.s.m, 0x0a) == g.ng
}

/// Chaining a change at or above `gc - 2` onto the low bytes.
proof fn lemma_low_step(base: HState, a: HState, b: HState, lo: int, hi: int, gc: int)
    requires
        low_bytes(base, a, gc),
        a.m.len() == base.m.len(),
        0x34 <= base.m.len(),
        same_outside(a, b, lo, hi),
        gc - 2 <= lo,
        0x34 <= gc,
    ensures
        low_bytes(base, b, gc),
        b.m.len() == base.m.len(),
        word16(b.m, 0x0a) == word16(a.m, 0x0a),
{
    assert(b.m[0x0a] == a.m[0x0a] && b.m[0x0b] == a.m[0x0b]);
}

/// What a rebalance keeps of a table regardless of its counts: every byte from `top` on,
/// used groups within the levels, and the top-group index.
pub open spec fn frame_ok(g: GroupPass, base: HState, num: int, top: int) -> bool {
    &&& same_outside(base, g.s, 0, top)
    &&& 1 <= g.ng <= num
    &&& g.ustk == g.ng - 1
    &&& 0 <= g.la
    &&& 0 <= g.moved
}

proof fn lemma_merge_frame(g: GroupPass, base: HState, gc: int, symt: int, num: int, u17: int)
    requires
        0x34 <= gc,
        2 <= num < 0x1_0000,
        gc + 2 * num <= symt,
        frame_ok(g, base, num, symt + 4 * (num + 1)),
        low_ok(g, base, gc),
        g.la + 2 <= u17 < g.ng,
    ensures
        frame_ok(merge_move(g, gc, symt, u17), base, num, symt + 4 * (num + 1)),
        low_ok(merge_move(g, gc, symt, u17), base, gc),
{
    let top = symt + 4 * (num + 1);
    let la = g.la;
    let la1 = la + 1;
    let p2 = symt + la * 4;
    let p16 = p2 + 4;
    let t2 = count_step(g.s, gc, la, -1);
    lemma_count_step_frame(g.s, gc, la, -1);
    lemma_below_step(base, g.s, t2, gc + 2 * la, gc + 2 * la + 2, top);
    let t4 = word_step(t2, p16, -4);
    lemma_word_step(t2, p16, -4);
    lemma_below_step(base, t2, t4, p16, p16 + 4, top);
    lemma_low_step(base, t2, t4, p16, p16 + 4, gc);
    let t6 = count_step(t4, gc, la1, 2);
    lemma_count_step_frame(t4, gc, la1, 2);
    lemma_below_step(base, t4, t6, gc + 2 * la1, gc + 2 * la1 + 2, top);
    lemma_low_step(base, t4, t6, gc + 2 * la1, gc + 2 * la1 + 2, gc);
    let t8 = word_step(t6, p2 + 8, 4);
    lemma_word_step(t6, p2 + 8, 4);
    lemma_below_step(base, t6, t8, p2 + 8, p2 + 12, top);
    lemma_low_step(base, t6, t8, p2 + 8, p2 + 12, gc);
    let span = u17 - 1 - la1;
    assert((u17 - 1) % 0x1_0000 == u17 - 1);
    let far = la1 < (u17 - 1) % 0x1_0000;
    let t9 = if far { bump_run(t8, p16, span as nat) } else { t8 };
    if far {
        lemma_bump_run(t8, p16, span as nat);
        lemma_below_step(base, t8, t9, p16 + 8, p16 + 8 + 4 * span, top);
        lemma_low_step(base, t8, t9, p16 + 8, p16 + 8 + 4 * span, gc);
    }
    let la2 = if far { la1 + span } else { la1 };
    let p16b = if far { p16 + 4 * span } else { p16 };
    let t11 = count_step(t9, gc, la2, 1);
    lemma_count_step_frame(t9, gc, la2, 1);
    lemma_below_step(base, t9, t11, gc + 2 * la2, gc + 2 * la2 + 2, top);
    lemma_low_step(base, t9, t11, gc + 2 * la2, gc + 2 * la2 + 2, gc);
    let t13 = word_step(t11, p16b + 4, 4);
    lemma_word_step(t11, p16b + 4, 4);
    lemma_below_step(base, t11, t13, p16b + 4, p16b + 8, top);
    lemma_low_step(base, t11, t13, p16b + 4, p16b + 8, gc);
    let t15 = count_step(t13, gc, la2 + 1, -2);
    lemma_count_step_frame(t13, gc, la2 + 1, -2);
    lemma_below_step(base, t13, t15, gc + 2 * (la2 + 1), gc + 2 * (la2 + 1) + 2, top);
    lemma_low_step(base, t13, t15, gc + 2 * (la2 + 1), gc + 2 * (la2 + 1) + 2, gc);
    lemma_get16(t15, gc + g.ustk * 2);
    let (t16, z) = get16s(t15, gc + g.ustk * 2);
    lemma_put16(t16, 0x0a, g.ng - 1);
    if z == 0 {
        lemma_below_step(base, t16, put16(t16, 0x0a, g.ng - 1), 0x0a, 0x0c, top);
        assert(low_bytes(base, put16(t16, 0x0a, g.ng - 1), gc));
    }
    assert(merge_move(g, gc, symt, u17).s == if z == 0 { put16(t16, 0x0a, g.ng - 1) } else { t16 });
}

proof fn lemma_simple_frame(g: GroupPass, s: HState, base: HState, gc: int, symt: int, num: int)
    requires
        0x34 <= gc,
        2 <= num < 0x1_0000,
        gc + 2 * num <= symt,
        frame_ok(g, base, num, symt + 4 * (num + 1)),
        same_outside(base, s, 0, symt + 4 * (num + 1)),
        low_ok(GroupPass { s, ..g }, base, gc),
        g.la + 1 < num,
        g.la < g.ng,
    ensures
        frame_ok(simple_move(g, s, gc, symt), base, num, symt + 4 * (num + 1)),
        low_ok(simple_move(g, s, gc, symt), base, gc),
{
    let top = symt + 4 * (num + 1);
    let la = g.la;
    let p2 = symt + la * 4;
    let t2 = count_step(s, gc, la - 1, 1);
    lemma_count_step_frame(s, gc, la - 1, 1);
    lemma_below_step(base, s, t2, gc + 2 * (la - 1), gc + 2 * (la - 1) + 2, top);
    lemma_low_step(base, s, t2, gc + 2 * (la - 1), gc + 2 * (la - 1) + 2, gc);
    let t4 = count_step(t2, gc, la, -3);
    lemma_count_step_frame(t2, gc, la, -3);
    lemma_below_step(base, t2, t4, gc + 2 * la, gc + 2 * la + 2, top);
    lemma_low_step(base, t2, t4, gc + 2 * la, gc + 2 * la + 2, gc);
    let t6 = count_step(t4, gc, la + 1, 2);
    lemma_count_step_frame(t4, gc, la + 1, 2);
    lemma_below_step(base, t4, t6, gc + 2 * (la + 1), gc + 2 * (la + 1) + 2, top);
    lemma_low_step(base, t4, t6, gc + 2 * (la + 1), gc + 2 * (la + 1) + 2, gc);
    let t8 = word_step(t6, p2, 4);
    lemma_word_step(t6, p2, 4);
    lemma_below_step(base, t6, t8, p2, p2 + 4, top);
    lemma_low_step(base, t6, t8, p2, p2 + 4, gc);
    let t10 = word_step(t8, p2 + 4, -8);
    lemma_word_step(t8, p2 + 4, -8);
    lemma_below_step(base, t8, t10, p2 + 4, p2 + 8, top);
    lemma_low_step(base, t8, t10, p2 + 4, p2 + 8, gc);
    lemma_put16(t10, 0x0a, g.ng + 1);
    if g.ustk == la {
        lemma_below_step(base, t10, put16(t10, 0x0a, g.ng + 1), 0x0a, 0x0c, top);
        assert(low_bytes(base, put16(t10, 0x0a, g.ng + 1), gc));
    }
    assert(simple_move(g, s, gc, symt).s == if g.ustk == la { put16(t10, 0x0a, g.ng + 1) } else { t10 });
}

#[verifier::spinoff_prover]
proof fn lemma_group_step_frame(g: GroupPass, base: HState, gc: int, symt: int, num: int)
    requires
        0x34 <= gc,
        2 <= num < 0x1_0000,
        gc + 2 * num <= symt,
        frame_ok(g, base, num, symt + 4 * (num + 1)),
        low_ok(g, base, gc),
        g.la < g.ng,
    ensures
        frame_ok(group_step(g, gc, symt, num), base, num, symt + 4 * (num + 1)),
        low_ok(group_step(g, gc, symt, num), base, gc),
        ({
            let r = group_step(g, gc, symt, num);
            r.s.bad || (r.moved == g.moved && r.la == g.la + 1) || r.moved == g.moved + 1
        }),
{
    let top = symt + 4 * (num + 1);
    let la = g.la;
    let pgc = gc + la * 2;
    let p2 = symt + la * 4;
    lemma_get16(g.s, pgc);
    let (s1, cnt) = get16(g.s, pgc);
    if cnt != 0 {
        lemma_get32(s1, p2 + 4);
        let (s2, p1) = get32(s1, p2 + 4);
        lemma_get32(s2, p2);
        let (s3, a) = get32(s2, p2);
        lemma_get32(s3, a);
        let (s4, b) = get32(s3, a);
        lemma_get16(s4, b);
        let (s5, w_first) = get16(s4, b);
        lemma_get32(s5, p1 - 4);
        let (s6, c6) = get32(s5, p1 - 4);
        lemma_get16(s6, c6);
        let (s7, w_last) = get16(s6, c6);
        lemma_get32(s7, p1 - 8);
        let (s8, d) = get32(s7, p1 - 8);
        lemma_get16(s8, d);
        let (s9, w_last2) = get16(s8, d);
        if cnt < 3 || (num - 1) % 0x1_0000 == la || w_first < w_last + w_last2 {
            lemma_get32(s9, p1 - 4);
            let (s10, e) = get32(s9, p1 - 4);
            lemma_get16(s10, e);
            let (s11, acc0) = get16(s10, e);
            lemma_merge_scan(s11, gc, symt, g.ng, la + 2, acc0);
            let (s12, found, u17) = merge_scan(s11, gc, symt, g.ng, la + 2, acc0);
            if found && g.moved < 0x7FFF_FFFF {
                lemma_merge_frame(GroupPass { s: s12, ..g }, base, gc, symt, num, u17);
            }
        } else if g.moved < 0x7FFF_FFFF {
            assert((num - 1) % 0x1_0000 == num - 1);
            lemma_simple_frame(g, s9, base, gc, symt, num);
        }
    }
}

/// A rebalance changes nothing at or above the end of the symbol table.
proof fn lemma_rebalance_frame(g: GroupPass, base: HState, gc: int, symt: int, num: int)
    requires
        0x34 <= gc,
        2 <= num < 0x1_0000,
        gc + 2 * num <= symt,
        frame_ok(g, base, num, symt + 4 * (num + 1)),
        low_ok(g, base, gc),
    ensures
        frame_ok(rebalance(g, gc, symt, num), base, num, symt + 4 * (num + 1)),
        low_ok(rebalance(g, gc, symt, num), base, gc),
    decreases i32_max() - g.moved, g.ng - g.la,
{
    if !(g.la >= g.ng || g.moved > i32_max() || g.moved < 0) {
        let g2 = group_step(g, gc, symt, num);
        lemma_group_step_frame(g, base, gc, symt, num);
        if !g2.s.bad && g2.la < g2.ng {
            lemma_rebalance_frame(g2, base, gc, symt, num);
        }
    }
}

/// The `n` slot words starting at `slot`.
pub open spec fn slot_seq(s: HState, slot: int, n: int) -> Seq<int> {
    Seq::new(n as nat, |i: int| word32(s.m, slot + 4 * i))
}

proof fn lemma_word32_range(m: Seq<u8>, off: int)
    requires
        0 <= off,
        off + 4 <= m.len(),
    ensures
        0 <= word32(m, off) < 0x1_0000_0000,
{
}

/// Equal slot bytes give equal slot words.
proof fn lemma_slot_seq_same(s: HState, t: HState, slot: int, n: int, lo: int, hi: int)
    requires
        same_outside(s, t, lo, hi),
        0 <= slot,
        0 <= n,
        slot + 4 * n <= s.m.len(),
        hi <= slot || slot + 4 * n <= lo,
    ensures
        slot_seq(t, slot, n) == slot_seq(s, slot, n),
{
    assert forall|k: int| 0 <= k < n implies #[trigger] slot_seq(t, slot, n)[k] == slot_seq(s, slot, n)[k] by {
        assert(t.m[slot + 4 * k] == s.m[slot + 4 * k]);
        assert(t.m[slot + 4 * k + 1] == s.m[slot + 4 * k + 1]);
        assert(t.m[slot + 4 * k + 2] == s.m[slot + 4 * k + 2]);
        assert(t.m[slot + 4 * k + 3] == s.m[slot + 4 * k + 3]);
    }
    assert(slot_seq(t, slot, n) =~= slot_seq(s, slot, n));
}

/// Exchanging two entries of a sequence keeps its multiset.
proof fn lemma_swap_multiset(q: Seq<int>, i: int, j: int)
    requires
        0 <= i < q.len(),
        0 <= j < q.len(),
        i != j,
    ensures
        q.update(i, q[j]).update(j, q[i]).to_multiset() == q.to_multiset(),
{
    broadcast use vstd::seq_lib::group_to_multiset_ensures, vstd::multiset::group_multiset_axioms;

    let a = q[j];
    let b = q[i];
    let q1 = q.update(i, a);
    let q2 = q1.update(j, b);
    let m = q.to_multiset();
    let m1 = q1.to_multiset();
    assert(q.contains(b));
    assert(q1[j] == a);
    assert(q1.contains(a));
    assert(m.count(b) > 0);
    assert(m1.count(a) > 0);
    assert(m1 == m.insert(a).remove(b));
    assert(q2.to_multiset() == m1.insert(b).remove(a));
    assert forall|x: int| #[trigger] q2.to_multiset().count(x) == m.count(x) by {
        assert(m1.count(x) == m.count(x) + (if x == a { 1int } else { 0 }) - (if x == b { 1int } else { 0 }));
    }
    assert(q2.to_multiset() =~= m);
}

/// The inner sort pass only swaps slot words.
proof fn lemma_sort_inner_perm(s: HState, slot: int, n: int, t: int, u17: int, ins: int)
    requires
        0 <= ins <= u17,
        0 <= slot,
        0 <= n,
        slot + 4 * n <= s.m.len(),
    ensures
        slot_seq(sort_inner(s, slot, n, t, u17, ins).0, slot, n).to_multiset() == slot_seq(s, slot, n).to_multiset(),
        same_outside(s, sort_inner(s, slot, n, t, u17, ins).0, slot, slot + 4 * n),
        sort_inner(s, slot, n, t, u17, ins).1 >= ins,
    decreases n - u17,
{

    if u17 < n {
        let pp = slot + u17 * 4;
        lemma_get32(s, pp);
        let (s1, p9) = get32(s, pp);
        lemma_get16(s1, p9);
        let (s2, v) = get16(s1, p9);
        if v >= t {
            let q = slot_seq(s, slot, n);
            lemma_get32(s2, slot + ins * 4);
            let (s3, pv) = get32(s2, slot + ins * 4);
            assert(p9 == q[u17] && pv == q[ins]);
            lemma_word32_range(s.m, pp);
            lemma_word32_range(s.m, slot + ins * 4);
            lemma_put32(s3, slot + ins * 4, p9);
            lemma_put32_value(s3, slot + ins * 4, p9);
            let s4 = put32(s3, slot + ins * 4, p9);
            lemma_put32(s4, pp, pv);
            lemma_put32_value(s4, pp, pv);
            let s5 = put32(s4, pp, pv);
            let q2 = q.update(ins, p9).update(u17, pv);
            assert forall|k: int| 0 <= k < n implies #[trigger] slot_seq(s5, slot, n)[k] == q2[k] by {
                if k != ins && k != u17 {
                    assert(s5.m[slot + 4 * k] == s.m[slot + 4 * k]);
                    assert(s5.m[slot + 4 * k + 1] == s.m[slot + 4 * k + 1]);
                    assert(s5.m[slot + 4 * k + 2] == s.m[slot + 4 * k + 2]);
                    assert(s5.m[slot + 4 * k + 3] == s.m[slot + 4 * k + 3]);
                } else if k == ins && k != u17 {
                    assert(s5.m[slot + 4 * k] == s4.m[slot + 4 * k]);
                    assert(s5.m[slot + 4 * k + 1] == s4.m[slot + 4 * k + 1]);
                    assert(s5.m[slot + 4 * k + 2] == s4.m[slot + 4 * k + 2]);
                    assert(s5.m[slot + 4 * k + 3] == s4.m[slot + 4 * k + 3]);
                }
            }
            assert(slot_seq(s5, slot, n) =~= q2);
            let q1 = q.update(ins, p9);
            if ins == u17 {
                assert(q2 =~= q);
            } else {
                lemma_swap_multiset(q, ins, u17);
                assert(q2 =~= q.update(ins, q[u17]).update(u17, q[ins]));
            }
            lemma_same_outside_widen(s3, s4, slot + ins * 4, slot + ins * 4 + 4, slot, slot + 4 * n);
            lemma_same_outside_widen(s4, s5, pp, pp + 4, slot, slot + 4 * n);
            lemma_same_outside_trans(s3, s4, s5, slot, slot + 4 * n);
            lemma_get32(s5, slot + (ins + 1) * 4);
            let (s6, _) = get32(s5, slot + (ins + 1) * 4);
            lemma_sort_inner_perm(s6, slot, n, t, u17 + 1, ins + 1);
            lemma_same_outside_trans(s, s6, sort_inner(s6, slot, n, t, u17 + 1, ins + 1).0, slot, slot + 4 * n);
        } else {
            lemma_sort_inner_perm(s2, slot, n, t, u17 + 1, ins);
        }
    }
}

/// The radix partition only permutes the slot words.
proof fn lemma_sort_outer_perm(s: HState, slot: int, n: int, la: int, t: int)
    requires
        0 <= la,
        0 <= slot,
        0 <= n,
        slot + 4 * n <= s.m.len(),
    ensures
        slot_seq(sort_outer(s, slot, n, la, t), slot, n).to_multiset() == slot_seq(s, slot, n).to_multiset(),
        same_outside(s, sort_outer(s, slot, n, la, t), slot, slot + 4 * n),
    decreases t, n - la,
{
    if !(la >= n || t < 1) {
        lemma_get32(s, slot + la * 4);
        let (s1, pcur) = get32(s, slot + la * 4);
        lemma_get16(s1, pcur);
        let (s2, v) = get16(s1, pcur);
        if v < t {
            if n > la + 1 {
                lemma_sort_inner_perm(s2, slot, n, t, la + 1, la);
                let (s3, ins) = sort_inner(s2, slot, n, t, la + 1, la);
                let la2 = if ins != la { ins - 1 } else { la };
                if t > 2 {
                    lemma_sort_outer_perm(s3, slot, n, la2, t / 2);
                    lemma_same_outside_trans(s2, s3, sort_outer(s3, slot, n, la2, t / 2), slot, slot + 4 * n);
                }
            }
        } else {
            lemma_sort_outer_perm(s2, slot, n, la + 1, t);
        }
    }
}


/// Equal guarded bytes, with the slot words guarded, give equal slot words.
proof fn lemma_slot_seq_kept(s: HState, t: HState, slot: int, n: int)
    requires
        keeps(s, t, slot, 2 * n),
        0 <= slot,
        0 <= n,
        slot + 4 * n <= s.m.len(),
    ensures
        slot_seq(t, slot, n) == slot_seq(s, slot, n),
{
    assert forall|k: int| 0 <= k < n implies #[trigger] slot_seq(t, slot, n)[k] == slot_seq(s, slot, n)[k] by {
        assert(guarded(slot + 4 * k, slot, 2 * n));
        assert(guarded(slot + 4 * k + 1, slot, 2 * n));
        assert(guarded(slot + 4 * k + 2, slot, 2 * n));
        assert(guarded(slot + 4 * k + 3, slot, 2 * n));
        assert(t.m[slot + 4 * k] == s.m[slot + 4 * k]);
        assert(t.m[slot + 4 * k + 1] == s.m[slot + 4 * k + 1]);
        assert(t.m[slot + 4 * k + 2] == s.m[slot + 4 * k + 2]);
        assert(t.m[slot + 4 * k + 3] == s.m[slot + 4 * k + 3]);
    }
    assert(slot_seq(t, slot, n) =~= slot_seq(s, slot, n));
}

/// The front of a rebuild only permutes the slot words.
#[verifier::spinoff_prover]
proof fn lemma_rebuild_front_perm(s: HState)
    requires
        table_layout(s),
    ensures
        rebuild_front(s).m.len() == s.m.len(),
        same_outside(s, rebuild_front(s), 0x2c, s.m.len() as int),
        slot_seq(rebuild_front(s), word32(s.m, 0x1c), symbols(s)).to_multiset() == slot_seq(
            s,
            word32(s.m, 0x1c),
            symbols(s),
        ).to_multiset(),
{
    let m = s.m;
    let gc = gc_base(s);
    let num = levels(s);
    let w = word32(m, 0x18);
    let alpha = pow2(word16(m, 0x06) as nat);
    lemma_get32(s, 0x1c);
    let (s1, slot) = get32(s, 0x1c);
    lemma_get32(s1, 0x20);
    let (s2, symt) = get32(s1, 0x20);
    lemma_get32(s2, 0x0c);
    let (s3, gcv) = get32(s2, 0x0c);
    lemma_get16(s3, 0x08);
    let (s4, n_slots) = get16(s3, 0x08);
    lemma_get16(s4, 0x2c);
    let (s5, upd) = get16s(s4, 0x2c);
    lemma_get16(s5, 0x04);
    let (s6, numv) = get16(s5, 0x04);
    assert(n_slots == symbols(s));
    let s7 = put16(s6, 0x2c, upd - 1);
    lemma_put16(s6, 0x2c, upd - 1);
    assert(same_outside(s6, s7, 0x2c, 0x2e));
    lemma_slot_seq_same(s6, s7, slot, n_slots, 0x2c, 0x2e);
    assert forall|k: int| 0 <= k < n_slots implies w <= #[trigger] word32(s7.m, slot + 4 * k) && word32(
        s7.m,
        slot + 4 * k,
    ) + 2 <= w + 2 * (alpha + 2) by {
        assert(w <= word32(m, slot + 4 * k));
        assert(s7.m[slot + 4 * k] == m[slot + 4 * k]);
        assert(s7.m[slot + 4 * k + 1] == m[slot + 4 * k + 1]);
        assert(s7.m[slot + 4 * k + 2] == m[slot + 4 * k + 2]);
        assert(s7.m[slot + 4 * k + 3] == m[slot + 4 * k + 3]);
    }
    let halve = (upd - 1) % 0x1_0000 == 0;
    lemma_weigh(s7, slot, n_slots, halve, 0, 0, gc, num, w, w + 2 * (alpha + 2));
    let (s8, maxw) = weigh(s7, slot, n_slots, halve, 0, 0);
    lemma_slot_seq_same(s7, s8, slot, n_slots, w, w + 2 * (alpha + 2));
    let len = m.len() as int;
    lemma_same_outside_widen(s6, s7, 0x2c, 0x2e, 0x2c, len);
    lemma_same_outside_widen(s7, s8, w, w + 2 * (alpha + 2), 0x2c, len);
    lemma_same_outside_trans(s6, s7, s8, 0x2c, len);
    if maxw != 0 {
        lemma_sort_outer_perm(s8, slot, n_slots, 0, top_threshold(maxw, 0x8000));
        let s9 = sort_outer(s8, slot, n_slots, 0, top_threshold(maxw, 0x8000));
        lemma_same_outside_widen(s8, s9, slot, slot + 4 * n_slots, 0x2c, len);
        lemma_same_outside_trans(s6, s8, s9, 0x2c, len);
    }
}

/// Rebuilding the code only reorders the slot table: the slot words after a rebuild are
/// those before it, each as often, for every table laid out as the code tables are.
#[verifier::spinoff_prover]
pub proof fn lemma_rebuild_permutes_slots(s: HState)
    requires
        table_layout(s),
    ensures
        slot_seq(spec_rebuild(s), word32(s.m, 0x1c), symbols(s)).to_multiset() == slot_seq(
            s,
            word32(s.m, 0x1c),
            symbols(s),
        ).to_multiset(),
{
    let gc = gc_base(s);
    let num = levels(s);
    let symt = word32(s.m, 0x20);
    let slot = word32(s.m, 0x1c);
    let ns = symbols(s);
    lemma_get32(s, 0x1c);
    let (s1, slotv) = get32(s, 0x1c);
    lemma_get32(s1, 0x20);
    let (s2, symtv) = get32(s1, 0x20);
    lemma_get32(s2, 0x0c);
    let (s3, gcv) = get32(s2, 0x0c);
    lemma_get16(s3, 0x08);
    let (s4, n_slots) = get16(s3, 0x08);
    lemma_get16(s4, 0x2c);
    let (s5, upd) = get16s(s4, 0x2c);
    lemma_get16(s5, 0x04);
    let (s6, numv) = get16(s5, 0x04);
    assert(symtv == symt && gcv == gc && numv == num && slotv == slot);
    let s9 = rebuild_front(s);
    lemma_rebuild_front(s);
    lemma_rebuild_front_perm(s);
    lemma_get16(s9, 0x0a);
    let (s10, ng) = get16(s9, 0x0a);
    assert(guarded(0x0a, gc, num) && guarded(0x0b, gc, num));
    assert(ng == groups_used(s));
    let top = symt + 4 * (num + 1);
    let g0 = GroupPass { s: s10, la: 0, ng, ustk: (ng - 1) % 0x1_0000, moved: 0 };
    let g = if ng != 0 { rebalance(g0, gc, symt, num) } else { g0 };
    assert(g == rebalanced(s, s9));
    if ng != 0 {
        assert(frame_ok(g0, s10, num, top));
        lemma_rebalance_frame(g0, s10, gc, symt, num);
        lemma_slot_seq_same(s10, g.s, slot, ns, 0, top);
    }
    let r = rebuild_tail(g.s, g.moved);
    assert(r == spec_rebuild(s));
    lemma_rebuild_tail(g.s, g.moved, slot, 2 * ns);
    lemma_slot_seq_kept(g.s, r, slot, ns);
}


/// A 16-bit write at or above `lo` leaves every byte below `lo`.
proof fn lemma_put16_above(s: HState, off: int, val: int, lo: int)
    requires
        lo <= off,
    ensures
        same_outside(s, put16(s, off, val), lo, s.m.len() as int),
{
    lemma_put16(s, off, val);
}

/// A 32-bit write at or above `lo` leaves every byte below `lo`.
proof fn lemma_put32_above(s: HState, off: int, val: int, lo: int)
    requires
        lo <= off,
    ensures
        same_outside(s, put32(s, off, val), lo, s.m.len() as int),
{
    lemma_put32(s, off, val);
}

/// A run of 16-bit writes two bytes apart: what it writes, and nothing outside it.
proof fn lemma_put16_run(s: HState, base: int, n: nat, val: int)
    requires
        0 <= base,
    ensures
        same_outside(s, put16_run(s, base, 2, n, val), base, base + 2 * n),
        forall|k: int|
            0 <= k < n && base + 2 * k + 2 <= s.m.len() ==> #[trigger] word16(put16_run(s, base, 2, n, val).m, base + 2 * k)
                == val % 0x1_0000,
    decreases n,
{
    if n > 0 {
        let prev = put16_run(s, base, 2, (n - 1) as nat, val);
        lemma_put16_run(s, base, (n - 1) as nat, val);
        let off = base + (n - 1) * 2;
        lemma_put16(prev, off, val);
        let t = put16(prev, off, val);
        assert forall|k: int| 0 <= k < n && base + 2 * k + 2 <= s.m.len() implies #[trigger] word16(t.m, base + 2 * k)
            == val % 0x1_0000 by {
            assert(prev.m.len() == s.m.len());
            if k < n - 1 {
                assert(t.m[base + 2 * k] == prev.m[base + 2 * k]);
                assert(t.m[base + 2 * k + 1] == prev.m[base + 2 * k + 1]);
                assert(word16(prev.m, base + 2 * k) == val % 0x1_0000);
            } else {
                assert(base + 2 * k == off);
                assert(in_table(prev, off, 2));
            }
        }
        lemma_same_outside_widen(prev, t, off, off + 2, base, base + 2 * n);
        lemma_same_outside_widen(s, prev, base, base + 2 * (n - 1), base, base + 2 * n);
        lemma_same_outside_trans(s, prev, t, base, base + 2 * n);
    }
}

/// A run of 32-bit writes four bytes apart: what it writes, and nothing outside it.
proof fn lemma_put32_run(s: HState, base: int, n: nat, val: int)
    requires
        0 <= base,
        0 <= val < 0x1_0000_0000,
    ensures
        same_outside(s, put32_run(s, base, 4, n, val), base, base + 4 * n),
        forall|k: int|
            0 <= k < n && base + 4 * k + 4 <= s.m.len() ==> #[trigger] word32(put32_run(s, base, 4, n, val).m, base + 4 * k)
                == val,
    decreases n,
{
    if n > 0 {
        let prev = put32_run(s, base, 4, (n - 1) as nat, val);
        lemma_put32_run(s, base, (n - 1) as nat, val);
        let off = base + (n - 1) * 4;
        lemma_put32(prev, off, val);
        if in_table(prev, off, 4) {
            lemma_put32_value(prev, off, val);
        }
        let t = put32(prev, off, val);
        assert forall|k: int| 0 <= k < n && base + 4 * k + 4 <= s.m.len() implies #[trigger] word32(t.m, base + 4 * k)
            == val by {
            assert(prev.m.len() == s.m.len());
            if k < n - 1 {
                assert(t.m[base + 4 * k] == prev.m[base + 4 * k]);
                assert(t.m[base + 4 * k + 1] == prev.m[base + 4 * k + 1]);
                assert(t.m[base + 4 * k + 2] == prev.m[base + 4 * k + 2]);
                assert(t.m[base + 4 * k + 3] == prev.m[base + 4 * k + 3]);
                assert(word32(prev.m, base + 4 * k) == val);
            } else {
                assert(base + 4 * k == off);
                assert(in_table(prev, off, 4));
            }
        }
        lemma_same_outside_widen(prev, t, off, off + 4, base, base + 4 * n);
        lemma_same_outside_widen(s, prev, base, base + 4 * (n - 1), base, base + 4 * n);
        lemma_same_outside_trans(s, prev, t, base, base + 4 * n);
    }
}

/// The limit table is written at and above its base only.
proof fn lemma_limits_from_frame(s: HState, gc: int, lim: int, level: int, num: int, s3: int)
    requires
        0 <= level,
    ensures
        same_outside(s, limits_from(s, gc, lim, level, num, s3), lim, s.m.len() as int),
    decreases num - level,
{
    if level < num {
        lemma_get16(s, gc + level * 2);
        let (s1, g) = get16s(s, gc + level * 2);
        let s4 = s3 - g;
        let next = (s4 * 2) % 0x1_0000;
        let o = lim + level * 8;
        lemma_put16_above(s1, o, s4, lim);
        let t1 = put16(s1, o, s4);
        lemma_put16_above(t1, o + 2, next, lim);
        let t2 = put16(t1, o + 2, next);
        lemma_put16_above(t2, o + 4, s4 * 4, lim);
        let t3 = put16(t2, o + 4, s4 * 4);
        lemma_put16_above(t3, o + 6, s4 * 16, lim);
        let t4 = put16(t3, o + 6, s4 * 16);
        lemma_limits_from_frame(t4, gc, lim, level + 1, num, next);
        lemma_same_outside_trans(s1, t1, t2, lim, s.m.len() as int);
        lemma_same_outside_trans(s1, t2, t3, lim, s.m.len() as int);
        lemma_same_outside_trans(s1, t3, t4, lim, s.m.len() as int);
        lemma_same_outside_trans(s1, t4, limits_from(t4, gc, lim, level + 1, num, next), lim, s.m.len() as int);
    }
}

/// One count of 2 at the shortest code length and none at the others fill the code space.
proof fn lemma_sums_first_two(g: Seq<int>, num: int, k: int)
    requires
        1 <= k <= num <= g.len(),
        g[0] == 2,
        forall|l: int| 1 <= l < num ==> #[trigger] g[l] == 0,
    ensures
        kraft_sum(g, num, k) == 2 * pow2((num - 1) as nat),
        count_sum(g, k) == 2,
    decreases k,
{
    if k > 1 {
        lemma_sums_first_two(g, num, k - 1);
    } else {
        assert(kraft_sum(g, num, 0) == 0 && count_sum(g, 0) == 0);
    }
}

/// The first writes of a fresh table: periods, header fields and the first group count.
pub open spec fn fresh_head(esc_bits: int, num: int, init_period: int, upd_period: int) -> HState {
    let alpha = pow2(esc_bits as nat) as int;
    let off_groupcnt = 0x34int;
    let off_symtab = num * 2 + 0x34;
    let off_slot = num * 6 + 0x38;
    let off_weight = num * 6 + 0x40 + alpha * 4;
    let off_limit = off_weight + 4 + alpha * 2;
    let size = off_limit + 0xC0 + 0x100;
    let s0 = HState { m: Seq::new(size as nat, |i: int| 0u8), bad: false };
    let s1 = put16(s0, 0x32, init_period);
    let s2 = put16(s1, 0x02, init_period);
    let s3 = put16(s2, 0x00, init_period);
    let s4 = put16(s3, 0x30, upd_period);
    let s5 = put16(s4, 0x2e, upd_period);
    let s6 = put16(s5, 0x2c, upd_period);
    let s7 = put16(s6, 0x06, esc_bits);
    let s8 = put16(s7, 0x04, num);
    let s9 = put32(s8, 0x0c, off_groupcnt);
    let s10 = put32(s9, 0x20, off_symtab);
    let s11 = put32(s10, 0x1c, off_slot);
    let s12 = put32(s11, 0x18, off_weight);
    let s13 = put32(s12, 0x14, off_limit);
    let s14 = put32(s13, 0x10, off_limit);
    let s15 = put16(s14, 0x0a, 1);
    let s16 = put16(s15, 0x08, 1);
    put16(s16, off_groupcnt, 2)
}

/// The remaining writes of a fresh table: the other counts, the symbol and slot tables,
/// the weights, the alphabet size and the limit table.
pub open spec fn fresh_rest(s17: HState, esc_bits: int, num: int) -> HState {
    let alpha = pow2(esc_bits as nat) as int;
    let off_groupcnt = 0x34int;
    let off_symtab = num * 2 + 0x34;
    let off_slot = num * 6 + 0x38;
    let off_weight = num * 6 + 0x40 + alpha * 4;
    let s18 = put16_run(s17, off_groupcnt + 2, 2, (num - 1) as nat, 0);
    let s19 = put32(s18, off_symtab, off_slot);
    let s20 = put32_run(s19, off_symtab + 4, 4, num as nat, off_slot + 8);
    let wbase = off_weight + alpha * 2;
    let s21 = put32(s20, off_slot, wbase);
    let s22 = put32_run(s21, off_slot + 4, 4, (alpha + 1) as nat, wbase + 2);
    let s23 = put16_run(s22, off_weight, 2, alpha as nat, 0x8000);
    let s24 = put16(s23, off_weight + alpha * 2, 0);
    let s25 = put16(s24, off_weight + alpha * 2 + 2, 0);
    let s26 = put16(s25, 0x24, alpha);
    let (s27, lim) = get32(s26, 0x10);
    let s28 = put32_run(s27, lim, 4, 0x30, 0);
    spec_build_limits(s28, 0)
}

/// The header fields and the first count of a fresh table, as written.
#[verifier::spinoff_prover]
#[verifier::rlimit(80)]
proof fn lemma_fresh_head(esc_bits: int, num: int, init_period: int, upd_period: int)
    requires
        0 <= esc_bits <= 15,
        2 <= num < 0x1_0000,
        pow2(esc_bits as nat) <= 0x8000,
    ensures
        ({
            let h = fresh_head(esc_bits, num, init_period, upd_period);
            let alpha = pow2(esc_bits as nat) as int;
            let w = num * 6 + 0x40 + alpha * 4;
            &&& h.m.len() == w + 4 + alpha * 2 + 0x1C0
            &&& word16(h.m, 0x04) == num
            &&& word16(h.m, 0x06) == esc_bits
            &&& word16(h.m, 0x08) == 1
            &&& word16(h.m, 0x0a) == 1
            &&& word16(h.m, 0x34) == 2
            &&& word32(h.m, 0x0c) == 0x34
            &&& word32(h.m, 0x10) == w + 4 + alpha * 2
            &&& word32(h.m, 0x18) == w
            &&& word32(h.m, 0x1c) == num * 6 + 0x38
            &&& word32(h.m, 0x20) == num * 2 + 0x34
        }),
{
    let alpha = pow2(esc_bits as nat) as int;
    let gc = 0x34int;
    let st = num * 2 + 0x34;
    let slot = num * 6 + 0x38;
    let w = num * 6 + 0x40 + alpha * 4;
    let lim0 = w + 4 + alpha * 2;
    let size = lim0 + 0xC0 + 0x100;
    let s0 = HState { m: Seq::new(size as nat, |i: int| 0u8), bad: false };
    let s1 = put16(s0, 0x32, init_period);
    let s2 = put16(s1, 0x02, init_period);
    let s3 = put16(s2, 0x00, init_period);
    let s4 = put16(s3, 0x30, upd_period);
    let s5 = put16(s4, 0x2e, upd_period);
    let s6 = put16(s5, 0x2c, upd_period);
    let s7 = put16(s6, 0x06, esc_bits);
    let s8 = put16(s7, 0x04, num);
    let s9 = put32(s8, 0x0c, gc);
    let s10 = put32(s9, 0x20, st);
    let s11 = put32(s10, 0x1c, slot);
    let s12 = put32(s11, 0x18, w);
    let s13 = put32(s12, 0x14, lim0);
    let s14 = put32(s13, 0x10, lim0);
    let s15 = put16(s14, 0x0a, 1);
    let s16 = put16(s15, 0x08, 1);
    let s17 = put16(s16, gc, 2);
    assert(s17 == fresh_head(esc_bits, num, init_period, upd_period));
    lemma_put16(s0, 0x32, init_period);
    lemma_put16(s1, 0x02, init_period);
    lemma_put16(s2, 0x00, init_period);
    lemma_put16(s3, 0x30, upd_period);
    lemma_put16(s4, 0x2e, upd_period);
    lemma_put16(s5, 0x2c, upd_period);
    lemma_put16(s6, 0x06, esc_bits);
    lemma_put16(s7, 0x04, num);
    lemma_put32(s8, 0x0c, gc);
    lemma_put32_value(s8, 0x0c, gc);
    lemma_put32(s9, 0x20, st);
    lemma_put32_value(s9, 0x20, st);
    lemma_put32(s10, 0x1c, slot);
    lemma_put32_value(s10, 0x1c, slot);
    lemma_put32(s11, 0x18, w);
    lemma_put32_value(s11, 0x18, w);
    lemma_put32(s12, 0x14, lim0);
    lemma_put32_value(s12, 0x14, lim0);
    lemma_put32(s13, 0x10, lim0);
    lemma_put32_value(s13, 0x10, lim0);
    lemma_put16(s14, 0x0a, 1);
    lemma_put16(s15, 0x08, 1);
    lemma_put16(s16, gc, 2);
    assert(word16(s8.m, 0x04) == num);
    assert(word16(s17.m, 0x04) == num);
    assert(word16(s7.m, 0x06) == esc_bits);
    assert(word16(s17.m, 0x06) == esc_bits);
    assert(word16(s17.m, 0x08) == 1);
    assert(word16(s15.m, 0x0a) == 1);
    assert(word16(s17.m, 0x0a) == 1);
    assert(word16(s17.m, gc) == 2);
    assert(word32(s9.m, 0x0c) == gc);
    assert(word32(s17.m, 0x0c) == gc);
    assert(word32(s14.m, 0x10) == lim0);
    assert(word32(s17.m, 0x10) == lim0);
    assert(word32(s12.m, 0x18) == w);
    assert(word32(s17.m, 0x18) == w);
    assert(word32(s11.m, 0x1c) == slot);
    assert(word32(s17.m, 0x1c) == slot);
    assert(word32(s10.m, 0x20) == st);
    assert(word32(s17.m, 0x20) == st);
}

/// The rest of a fresh table keeps the header bytes below 0x24 and the first count, zeroes
/// the other counts, and points the first slot at the word after the weights.
#[verifier::spinoff_prover]
proof fn lemma_fresh_rest(s17: HState, esc_bits: int, num: int)
    requires
        0 <= esc_bits <= 15,
        2 <= num < 0x1_0000,
        1 <= pow2(esc_bits as nat) <= 0x8000,
        s17.m.len() == num * 6 + 0x40 + pow2(esc_bits as nat) * 6 + 4 + 0x1C0,
        word32(s17.m, 0x10) == num * 6 + 0x40 + pow2(esc_bits as nat) * 6 + 4,
    ensures
        ({
            let r = fresh_rest(s17, esc_bits, num);
            let alpha = pow2(esc_bits as nat) as int;
            let w = num * 6 + 0x40 + alpha * 4;
            let slot = num * 6 + 0x38;
            &&& r.m.len() == s17.m.len()
            &&& forall|i: int| 0 <= i < 0x24 ==> #[trigger] r.m[i] == s17.m[i]
            &&& r.m[0x34] == s17.m[0x34] && r.m[0x35] == s17.m[0x35]
            &&& forall|l: int| 1 <= l < num ==> #[trigger] word16(r.m, 0x34 + 2 * l) == 0
            &&& word32(r.m, slot) == w + alpha * 2
        }),
{
    let alpha = pow2(esc_bits as nat) as int;
    let gc = 0x34int;
    let st = num * 2 + 0x34;
    let slot = num * 6 + 0x38;
    let w = num * 6 + 0x40 + alpha * 4;
    let lim0 = w + 4 + alpha * 2;
    let size = lim0 + 0x1C0;
    let s18 = put16_run(s17, gc + 2, 2, (num - 1) as nat, 0);
    lemma_put16_run(s17, gc + 2, (num - 1) as nat, 0);
    let s19 = put32(s18, st, slot);
    lemma_put32_above(s18, st, slot, st);
    let s20 = put32_run(s19, st + 4, 4, num as nat, slot + 8);
    lemma_put32_run(s19, st + 4, num as nat, slot + 8);
    let wbase = w + alpha * 2;
    let s21 = put32(s20, slot, wbase);
    lemma_put32(s20, slot, wbase);
    lemma_put32_value(s20, slot, wbase);
    let s22 = put32_run(s21, slot + 4, 4, (alpha + 1) as nat, wbase + 2);
    lemma_put32_run(s21, slot + 4, (alpha + 1) as nat, wbase + 2);
    let s23 = put16_run(s22, w, 2, alpha as nat, 0x8000);
    lemma_put16_run(s22, w, alpha as nat, 0x8000);
    let s24 = put16(s23, w + alpha * 2, 0);
    lemma_put16_above(s23, w + alpha * 2, 0, w);
    let s25 = put16(s24, w + alpha * 2 + 2, 0);
    lemma_put16_above(s24, w + alpha * 2 + 2, 0, w);
    let s26 = put16(s25, 0x24, alpha);
    lemma_put16(s25, 0x24, alpha);
    lemma_get32(s26, 0x10);
    let (s27, lim) = get32(s26, 0x10);
    let s28 = put32_run(s27, lim, 4, 0x30, 0);
    lemma_put32_run(s27, lim, 0x30, 0);
    let r = fresh_rest(s17, esc_bits, num);
    lemma_get32(s28, 0x0c);
    let (a1, gcv) = get32(s28, 0x0c);
    lemma_get32(a1, 0x10);
    let (a2, limv) = get32(a1, 0x10);
    lemma_get16(a2, 0x04);
    let (a3, numv) = get16(a2, 0x04);
    lemma_limits_from_frame(a3, gcv, limv, 0, numv, 2);
    assert(r == limits_from(a3, gcv, limv, 0, numv, 2));
    // from the slot table on, and from the first slot's end on
    lemma_same_outside_widen(s19, s20, st + 4, st + 4 + 4 * num, st, size);
    lemma_same_outside_widen(s20, s21, slot, slot + 4, st, size);
    lemma_same_outside_widen(s21, s22, slot + 4, slot + 4 + 4 * (alpha + 1), slot + 4, size);
    lemma_same_outside_widen(s22, s23, w, w + 2 * alpha, slot + 4, size);
    lemma_same_outside_widen(s23, s24, w, size, slot + 4, size);
    lemma_same_outside_widen(s24, s25, w, size, slot + 4, size);
    lemma_same_outside_trans(s21, s22, s23, slot + 4, size);
    lemma_same_outside_trans(s21, s23, s24, slot + 4, size);
    lemma_same_outside_trans(s21, s24, s25, slot + 4, size);
    lemma_same_outside_widen(s21, s25, slot + 4, size, st, size);
    lemma_same_outside_trans(s18, s19, s20, st, size);
    lemma_same_outside_trans(s18, s20, s21, st, size);
    lemma_same_outside_trans(s18, s21, s25, st, size);
    lemma_same_outside_widen(s17, s18, gc + 2, gc + 2 * num, gc + 2, size);
    lemma_same_outside_widen(s18, s25, st, size, gc + 2, size);
    lemma_same_outside_trans(s17, s18, s25, gc + 2, size);
    // the limit word is still the one the head wrote
    assert(s26.m[0x10] == s17.m[0x10] && s26.m[0x11] == s17.m[0x11] && s26.m[0x12] == s17.m[0x12] && s26.m[0x13]
        == s17.m[0x13]);
    assert(lim == lim0);
    lemma_same_outside_widen(s27, s28, lim, lim + 4 * 0x30, lim, size);
    assert(limv == lim);
    lemma_same_outside_trans(s27, s28, r, lim, size);
    assert forall|i: int| 0 <= i < 0x24 implies #[trigger] r.m[i] == s17.m[i] by {
        assert(r.m[i] == s26.m[i]);
        assert(s26.m[i] == s25.m[i]);
    }
    assert(r.m[0x34] == s25.m[0x34] && r.m[0x35] == s25.m[0x35]);
    assert forall|l: int| 1 <= l < num implies #[trigger] word16(r.m, 0x34 + 2 * l) == 0 by {
        let o = gc + 2 * l;
        assert(r.m[o] == s25.m[o] && r.m[o + 1] == s25.m[o + 1]);
        assert(s25.m[o] == s18.m[o] && s25.m[o + 1] == s18.m[o + 1]);
        assert(word16(s18.m, gc + 2 + 2 * (l - 1)) == 0);
    }
    assert(r.m[slot] == s25.m[slot] && r.m[slot + 1] == s25.m[slot + 1] && r.m[slot + 2] == s25.m[slot + 2] && r.m[slot
        + 3] == s25.m[slot + 3]);
    assert(s25.m[slot] == s21.m[slot] && s25.m[slot + 1] == s21.m[slot + 1] && s25.m[slot + 2] == s21.m[slot + 2]
        && s25.m[slot + 3] == s21.m[slot + 3]);
}

/// A freshly laid-out table satisfies what the rebuild and symbol laws ask of a table: its
/// regions are laid out in order, its code is complete (two code words of length one: the
/// escape symbol and one more, when there are at least two code lengths), and the top code
/// length in use holds a symbol.
#[verifier::spinoff_prover]
pub proof fn lemma_new_tree_has_code(esc_bits: int, num: int, init_period: int, upd_period: int)
    requires
        0 <= esc_bits <= 15,
        2 <= num < 0x1_0000,
    ensures
        table_layout(spec_new_tree(esc_bits, num, init_period, upd_period)),
        complete_code(spec_new_tree(esc_bits, num, init_period, upd_period)),
        top_group_ok(spec_new_tree(esc_bits, num, init_period, upd_period)),
        symbols(spec_new_tree(esc_bits, num, init_period, upd_period)) == 1,
        levels(spec_new_tree(esc_bits, num, init_period, upd_period)) == num,
        word32(spec_new_tree(esc_bits, num, init_period, upd_period).m, 0x10) >= word32(
            spec_new_tree(esc_bits, num, init_period, upd_period).m,
            0x18,
        ),
{
    let alpha = pow2(esc_bits as nat) as int;
    lemma_pow2_mono(esc_bits as nat, 15);
    assert(pow2(15) == 0x8000) by {
        reveal_with_fuel(pow2, 16);
    }
    lemma_pow2_pos(esc_bits as nat);
    let h = fresh_head(esc_bits, num, init_period, upd_period);
    lemma_fresh_head(esc_bits, num, init_period, upd_period);
    let r = fresh_rest(h, esc_bits, num);
    lemma_fresh_rest(h, esc_bits, num);
    assert(r == spec_new_tree(esc_bits, num, init_period, upd_period));
    let gc = 0x34int;
    let slot = num * 6 + 0x38;
    let w = num * 6 + 0x40 + alpha * 4;
    assert(r.m[4] == h.m[4] && r.m[5] == h.m[5] && r.m[6] == h.m[6] && r.m[7] == h.m[7]);
    assert(r.m[8] == h.m[8] && r.m[9] == h.m[9] && r.m[0x0a] == h.m[0x0a] && r.m[0x0b] == h.m[0x0b]);
    assert(r.m[0x0c] == h.m[0x0c] && r.m[0x0d] == h.m[0x0d] && r.m[0x0e] == h.m[0x0e] && r.m[0x0f] == h.m[0x0f]);
    assert(r.m[0x18] == h.m[0x18] && r.m[0x19] == h.m[0x19] && r.m[0x1a] == h.m[0x1a] && r.m[0x1b] == h.m[0x1b]);
    assert(r.m[0x1c] == h.m[0x1c] && r.m[0x1d] == h.m[0x1d] && r.m[0x1e] == h.m[0x1e] && r.m[0x1f] == h.m[0x1f]);
    assert(r.m[0x20] == h.m[0x20] && r.m[0x21] == h.m[0x21] && r.m[0x22] == h.m[0x22] && r.m[0x23] == h.m[0x23]);
    assert(gc_base(r) == gc && levels(r) == num && symbols(r) == 1 && groups_used(r) == 1);
    assert(word16(r.m, 0x06) == esc_bits);
    assert(r.m[0x10] == h.m[0x10] && r.m[0x11] == h.m[0x11] && r.m[0x12] == h.m[0x12] && r.m[0x13] == h.m[0x13]);
    assert(word32(r.m, 0x18) == w && word32(r.m, 0x1c) == slot && word32(r.m, 0x20) == num * 2 + 0x34);
    assert(word32(r.m, 0x10) == w + 4 + alpha * 2);
    let g = group_counts(r, gc, num);
    assert forall|l: int| 0 <= l < num implies #[trigger] g[l] == if l == 0 { 2int } else { 0int } by {
        if l == 0 {
            assert(word16(r.m, gc) == word16(h.m, gc));
        } else {
            assert(word16(r.m, 0x34 + 2 * l) == 0);
        }
    }
    assert(g[0] == 2);
    lemma_sums_first_two(g, num, num);
    lemma_pow2_step(num);
    lemma_pow2_pos((num - 1) as nat);
    assert(word32(r.m, slot + 4 * 0) == w + alpha * 2);
}


/// The end of a rebuild writes only the period words below 4 and from 0x2c on.
proof fn lemma_rebuild_tail_mid(s: HState, moved: int)
    requires
        0x34 <= s.m.len(),
    ensures
        rebuild_tail(s, moved).m.len() == s.m.len(),
        forall|i: int| 4 <= i < 0x2c ==> #[trigger] rebuild_tail(s, moved).m[i] == s.m[i],
{
    lemma_get16(s, 0x2e);
    lemma_get16(s, 0x32);
    let (a, v) = get16(s, 0x2e);
    lemma_get16(a, 0x02);
    let (b, v1) = get16(a, 0x02);
    lemma_put16(b, 0x02, v1 * 2);
    let c = put16(b, 0x02, v1 * 2);
    lemma_get16(c, 0x2c);
    let (d, v2) = get16(c, 0x2c);
    lemma_put16(d, 0x2c, v2 / 2);
    let e = put16(d, 0x2c, v2 / 2);
    lemma_get16(e, 0x2e);
    let (f, v3) = get16(e, 0x2e);
    lemma_put16(f, 0x2e, v3 / 2);
    let (a2, w) = get16(s, 0x32);
    lemma_put16(a2, 0x02, w);
    let b2 = put16(a2, 0x02, w);
    lemma_get16(b2, 0x30);
    let (c2, w1) = get16(b2, 0x30);
    lemma_put16(c2, 0x2e, w1);
    let s1 = if moved < 0x10 {
        if moved < 8 {
            if v != 1 { put16(f, 0x2e, v3 / 2) } else { a }
        } else {
            s
        }
    } else {
        put16(c2, 0x2e, w1)
    };
    assert(s1.m.len() == s.m.len());
    assert forall|i: int| 4 <= i < 0x2c implies #[trigger] s1.m[i] == s.m[i] by {}
    lemma_get16(s1, 0x02);
    let (t, x) = get16(s1, 0x02);
    lemma_put16(t, 0x00, x);
    let t2 = put16(t, 0x00, x);
    lemma_get16(t2, 0x2c);
    let (t3, z) = get16(t2, 0x2c);
    lemma_get16(t3, 0x2e);
    let (t4, v4) = get16(t3, 0x2e);
    lemma_put16(t4, 0x2c, v4);
}

/// Rebuilding the code keeps the table's layout: the header fields stay as they were, the
/// groups in use stay within the code lengths, and every seen symbol's slot still points at
/// a weight.
#[verifier::spinoff_prover]
pub proof fn lemma_rebuild_keeps_layout(s: HState)
    requires
        table_layout(s),
    ensures
        table_layout(spec_rebuild(s)),
        word32(spec_rebuild(s).m, 0x10) == word32(s.m, 0x10),
{
    broadcast use vstd::seq_lib::group_to_multiset_ensures;

    let m = s.m;
    let gc = gc_base(s);
    let num = levels(s);
    let symt = word32(m, 0x20);
    let slot = word32(m, 0x1c);
    let ns = symbols(s);
    let w = word32(m, 0x18);
    let alpha = pow2(word16(m, 0x06) as nat);
    lemma_get32(s, 0x1c);
    let (s1, slotv) = get32(s, 0x1c);
    lemma_get32(s1, 0x20);
    let (s2, symtv) = get32(s1, 0x20);
    lemma_get32(s2, 0x0c);
    let (s3, gcv) = get32(s2, 0x0c);
    lemma_get16(s3, 0x08);
    let (s4, n_slots) = get16(s3, 0x08);
    lemma_get16(s4, 0x2c);
    let (s5, upd) = get16s(s4, 0x2c);
    lemma_get16(s5, 0x04);
    let (s6, numv) = get16(s5, 0x04);
    assert(symtv == symt && gcv == gc && numv == num && slotv == slot);
    let s9 = rebuild_front(s);
    lemma_rebuild_front(s);
    lemma_rebuild_front_perm(s);
    lemma_get16(s9, 0x0a);
    let (s10, ng) = get16(s9, 0x0a);
    assert(guarded(0x0a, gc, num) && guarded(0x0b, gc, num));
    assert(ng == groups_used(s));
    let top = symt + 4 * (num + 1);
    let g0 = GroupPass { s: s10, la: 0, ng, ustk: (ng - 1) % 0x1_0000, moved: 0 };
    let g = if ng != 0 { rebalance(g0, gc, symt, num) } else { g0 };
    assert(g == rebalanced(s, s9));
    if ng != 0 {
        assert(frame_ok(g0, s10, num, top));
        lemma_rebalance_frame(g0, s10, gc, symt, num);
    }
    let r = rebuild_tail(g.s, g.moved);
    assert(r == spec_rebuild(s));
    lemma_rebuild_tail_mid(g.s, g.moved);
    // the header bytes from 4 to 0x24, but for the groups-in-use word, are those of `s`
    assert forall|i: int| 4 <= i < 0x24 && i != 0x0a && i != 0x0b implies #[trigger] r.m[i] == m[i] by {
        assert(r.m[i] == g.s.m[i]);
        assert(s10.m[i] == s9.m[i]);
        if ng != 0 {
            assert(g.s.m[i] == s10.m[i]);
        }
        assert(s9.m[i] == m[i]);
    }
    assert(r.m[4] == m[4] && r.m[5] == m[5] && r.m[6] == m[6] && r.m[7] == m[7]);
    assert(r.m[8] == m[8] && r.m[9] == m[9]);
    assert(r.m[0x0c] == m[0x0c] && r.m[0x0d] == m[0x0d] && r.m[0x0e] == m[0x0e] && r.m[0x0f] == m[0x0f]);
    assert(r.m[0x10] == m[0x10] && r.m[0x11] == m[0x11] && r.m[0x12] == m[0x12] && r.m[0x13] == m[0x13]);
    assert(r.m[0x18] == m[0x18] && r.m[0x19] == m[0x19] && r.m[0x1a] == m[0x1a] && r.m[0x1b] == m[0x1b]);
    assert(r.m[0x1c] == m[0x1c] && r.m[0x1d] == m[0x1d] && r.m[0x1e] == m[0x1e] && r.m[0x1f] == m[0x1f]);
    assert(r.m[0x20] == m[0x20] && r.m[0x21] == m[0x21] && r.m[0x22] == m[0x22] && r.m[0x23] == m[0x23]);
    // the groups in use
    assert(r.m[0x0a] == g.s.m[0x0a] && r.m[0x0b] == g.s.m[0x0b]);
    assert(word16(r.m, 0x0a) <= num);
    // the slots are those of `s`, reordered
    lemma_rebuild_permutes_slots(s);
    let q = slot_seq(s, slot, ns);
    let q2 = slot_seq(r, slot, ns);
    assert forall|i: int| 0 <= i < ns implies w <= #[trigger] word32(r.m, slot + 4 * i) && word32(r.m, slot + 4 * i)
        + 2 <= w + 2 * (alpha + 2) by {
        let x = q2[i];
        assert(q2.contains(x));
        assert(q2.to_multiset().count(x) > 0);
        assert(q.to_multiset().count(x) > 0);
        assert(q.contains(x));
        let j = choose|j: int| 0 <= j < q.len() && q[j] == x;
        assert(w <= word32(m, slot + 4 * j));
    }
}


/// Registering a symbol keeps the table's layout, as long as the slot table and the 16-bit
/// fields have room for one more symbol: the header fields stay as they were, the groups in
/// use stay within the code lengths, and every seen symbol's slot points at a weight.
/// (Only fault-free results are spoken of.)
#[verifier::spinoff_prover]
pub proof fn lemma_add_symbol_keeps_layout(s: HState, newsym: int)
    requires
        table_layout(s),
        complete_code(s),
        top_group_ok(s),
        1 <= symbols(s) <= pow2(word16(s.m, 0x06) as nat),
        symbols(s) + 1 < 0x4000,
        symbols(s) + 1 < pow2(levels(s) as nat),
        0 <= newsym < pow2(word16(s.m, 0x06) as nat),
        !spec_add_symbol(s, newsym).0.bad,
    ensures
        table_layout(spec_add_symbol(s, newsym).0),
        word32(spec_add_symbol(s, newsym).0.m, 0x10) == word32(s.m, 0x10),
{
    let m = s.m;
    let gc = gc_base(s);
    let num = levels(s);
    let st = word32(m, 0x20);
    let ns = symbols(s);
    let w = word32(m, 0x18);
    let slot = word32(m, 0x1c);
    let alpha = pow2(word16(m, 0x06) as nat);
    let c = group_counts(s, gc, num);
    lemma_get32(s, 0x18);
    let (s1, wv) = get32(s, 0x18);
    lemma_get32(s1, 0x1c);
    let (s2, slotv) = get32(s1, 0x1c);
    lemma_get32(s2, 0x0c);
    let (s3, gcv) = get32(s2, 0x0c);
    lemma_get32(s3, 0x20);
    let (s4, stv) = get32(s3, 0x20);
    let iv = newsym * 2;
    lemma_put16(s4, w + iv, 1);
    let s5 = put16(s4, w + iv, 1);
    lemma_get16(s5, 0x08);
    let (s6, nsv) = get16(s5, 0x08);
    assert(wv == w && slotv == slot && gcv == gc && stv == st);
    assert(s5.m[8] == m[8] && s5.m[9] == m[9]);
    assert(nsv == ns);
    lemma_put32(s6, slot + ns * 4, w + iv);
    let s7 = put32(s6, slot + ns * 4, w + iv);
    lemma_put16(s7, 0x08, ns + 1);
    let s8 = put16(s7, 0x08, ns + 1);
    assert(s8 == add_front(s, newsym));
    lemma_add_front(s, newsym);
    let r = spec_add_symbol(s, newsym);
    let t = r.0;
    if ns + 1 == 2 {
        assert(t == s8);
    } else {
        lemma_counts_small(c, num);
        assert(shape_ok(s8, gc, st, num));
        assert(r == add_split(s8, gc, st));
        assert(group_counts(s8, gc, num) == c);
        lemma_add_split(s8, gc, st, num, ns);
    }
    lemma_add_symbol_keeps_code(s, newsym);
    lemma_add_symbol_records_slot(s, newsym);
    // the header words that the layout reads
    assert forall|i: int| 4 <= i < 0x24 && i != 0x08 && i != 0x09 && i != 0x0a && i != 0x0b implies #[trigger] t.m[i]
        == m[i] by {
        assert(t.m[i] == s8.m[i]);
    }
    assert(t.m[6] == m[6] && t.m[7] == m[7]);
    assert(t.m[0x10] == m[0x10] && t.m[0x11] == m[0x11] && t.m[0x12] == m[0x12] && t.m[0x13] == m[0x13]);
    assert(t.m[0x18] == m[0x18] && t.m[0x19] == m[0x19] && t.m[0x1a] == m[0x1a] && t.m[0x1b] == m[0x1b]);
    assert(t.m[0x1c] == m[0x1c] && t.m[0x1d] == m[0x1d] && t.m[0x1e] == m[0x1e] && t.m[0x1f] == m[0x1f]);
    assert(t.m[0x20] == m[0x20] && t.m[0x21] == m[0x21] && t.m[0x22] == m[0x22] && t.m[0x23] == m[0x23]);
    assert(word16(t.m, 0x0a) <= num);
    // the slots: those of `s`, then the new symbol's weight
    let q = slot_seq(s, slot, ns).push(w + 2 * newsym);
    assert forall|i: int| 0 <= i < ns + 1 implies w <= #[trigger] word32(t.m, slot + 4 * i) && word32(t.m, slot + 4 * i)
        + 2 <= w + 2 * (alpha + 2) by {
        assert(word32(t.m, slot + 4 * i) == slot_seq(t, slot, ns + 1)[i]);
        assert(slot_seq(t, slot, ns + 1)[i] == q[i]);
        if i < ns {
            assert(q[i] == word32(m, slot + 4 * i));
        }
    }
}


/// A table that agrees with a laid-out table on its header fields and on everything below
/// its weights has the same layout, code and top group.
proof fn lemma_layout_transfer(s: HState, t: HState)
    requires
        table_layout(s),
        t.m.len() == s.m.len(),
        forall|i: int| 4 <= i < word32(s.m, 0x18) ==> #[trigger] t.m[i] == s.m[i],
    ensures
        table_layout(t),
        complete_code(t) == complete_code(s),
        top_group_ok(t) == top_group_ok(s),
        word32(t.m, 0x10) == word32(s.m, 0x10),
        word32(t.m, 0x18) == word32(s.m, 0x18),
{
    let m = s.m;
    let gc = gc_base(s);
    let num = levels(s);
    let slot = word32(m, 0x1c);
    let ns = symbols(s);
    let w = word32(m, 0x18);
    assert(t.m[4] == m[4] && t.m[5] == m[5] && t.m[6] == m[6] && t.m[7] == m[7]);
    assert(t.m[8] == m[8] && t.m[9] == m[9] && t.m[0x0a] == m[0x0a] && t.m[0x0b] == m[0x0b]);
    assert(t.m[0x0c] == m[0x0c] && t.m[0x0d] == m[0x0d] && t.m[0x0e] == m[0x0e] && t.m[0x0f] == m[0x0f]);
    assert(t.m[0x10] == m[0x10] && t.m[0x11] == m[0x11] && t.m[0x12] == m[0x12] && t.m[0x13] == m[0x13]);
    assert(t.m[0x18] == m[0x18] && t.m[0x19] == m[0x19] && t.m[0x1a] == m[0x1a] && t.m[0x1b] == m[0x1b]);
    assert(t.m[0x1c] == m[0x1c] && t.m[0x1d] == m[0x1d] && t.m[0x1e] == m[0x1e] && t.m[0x1f] == m[0x1f]);
    assert(t.m[0x20] == m[0x20] && t.m[0x21] == m[0x21] && t.m[0x22] == m[0x22] && t.m[0x23] == m[0x23]);
    assert forall|l: int| 0 <= l < num implies #[trigger] group_counts(t, gc, num)[l] == group_counts(s, gc, num)[l] by {
        assert(t.m[gc + 2 * l] == m[gc + 2 * l] && t.m[gc + 2 * l + 1] == m[gc + 2 * l + 1]);
    }
    assert(group_counts(t, gc, num) =~= group_counts(s, gc, num));
    assert forall|i: int| 0 <= i < ns implies #[trigger] word32(t.m, slot + 4 * i) == word32(m, slot + 4 * i) by {
        let o = slot + 4 * i;
        assert(t.m[o] == m[o] && t.m[o + 1] == m[o + 1] && t.m[o + 2] == m[o + 2] && t.m[o + 3] == m[o + 3]);
    }
}

/// Counting one occurrence of a symbol of the alphabet (or one of the two words after it)
/// keeps the table's layout, code and top group: it writes only that symbol's weight and
/// the countdown.
pub proof fn lemma_update_freq_keeps_code(s: HState, sym: int)
    requires
        table_layout(s),
        0 <= sym < pow2(word16(s.m, 0x06) as nat) + 2,
    ensures
        table_layout(spec_update_freq(s, sym).0),
        complete_code(spec_update_freq(s, sym).0) == complete_code(s),
        top_group_ok(spec_update_freq(s, sym).0) == top_group_ok(s),
        word32(spec_update_freq(s, sym).0.m, 0x10) == word32(s.m, 0x10),
{
    let w = word32(s.m, 0x18);
    lemma_get32(s, 0x18);
    let (s1, wv) = get32(s, 0x18);
    lemma_get16(s1, w + sym * 2);
    let (s2, cur) = get16(s1, w + sym * 2);
    lemma_put16(s2, w + sym * 2, cur + 1);
    let s3 = put16(s2, w + sym * 2, cur + 1);
    lemma_get16(s3, 0x00);
    let (s4, c0) = get16s(s3, 0x00);
    lemma_put16(s4, 0x00, c0 - 1);
    let t = put16(s4, 0x00, c0 - 1);
    assert(t == spec_update_freq(s, sym).0);
    lemma_layout_transfer(s, t);
}

/// Rebuilding the limit table, when it lies at or above the weights, keeps the table's
/// layout, code and top group.
pub proof fn lemma_build_limits_keeps_code(s: HState, start: int)
    requires
        table_layout(s),
        0 <= start,
        word32(s.m, 0x10) >= word32(s.m, 0x18),
    ensures
        table_layout(spec_build_limits(s, start)),
        complete_code(spec_build_limits(s, start)) == complete_code(s),
        top_group_ok(spec_build_limits(s, start)) == top_group_ok(s),
        word32(spec_build_limits(s, start).m, 0x10) == word32(s.m, 0x10),
{
    lemma_get32(s, 0x0c);
    let (s1, gc) = get32(s, 0x0c);
    lemma_get32(s1, 0x10);
    let (s2, lim) = get32(s1, 0x10);
    lemma_get16(s2, 0x04);
    let (s3, num) = get16(s2, 0x04);
    let r = spec_build_limits(s, start);
    if start == 0 {
        lemma_limits_from_frame(s3, gc, lim, 0, num, 2);
    } else {
        lemma_get16(s3, lim + (start - 1) * 8);
        let (s4, v) = get16s(s3, lim + (start - 1) * 8);
        lemma_limits_from_frame(s4, gc, lim, start, num, (v * 2) % 0x1_0000);
    }
    assert(same_outside(s, r, lim, s.m.len() as int));
    lemma_layout_transfer(s, r);
}

} // verus!
