//! Level/group/slot adaptive Huffman + LZSS decompression of MODIFY diff payloads.
//!
//! Each adaptive Huffman alphabet keeps its whole state in one flat byte table whose
//! fields (counters, offsets into itself, group counts, slot pointers, weights, limits)
//! are 16- and 32-bit little-endian words at fixed or stored offsets. The model of a
//! table is its bytes plus a fault flag: an access outside the table reads 0, writes
//! nothing and sets the flag, and a table with the flag set makes decompression fail.
use vstd::prelude::*;

use crate::text::{dec_text, hex_text, zero_pad};

verus! {

/// The model of an adaptive Huffman table: its bytes, and whether an access left it.
pub struct HState {
    pub m: Seq<u8>,
    pub bad: bool,
}

pub open spec fn in_table(s: HState, off: int, width: int) -> bool {
    0 <= off && off + width <= s.m.len()
}

/// Whether an access of `width` bytes at `off` lies in the table; the flag records it if not.
pub open spec fn touch(s: HState, off: int, width: int) -> HState {
    HState { m: s.m, bad: s.bad || !in_table(s, off, width) }
}

/// Unsigned 16-bit read (0 outside the table).
#[verifier::opaque]
pub open spec fn get16(s: HState, off: int) -> (HState, int) {
    (touch(s, off, 2), if in_table(s, off, 2) { s.m[off] + 256 * s.m[off + 1] } else { 0 })
}

/// Signed 16-bit read.
pub open spec fn get16s(s: HState, off: int) -> (HState, int) {
    let (s1, v) = get16(s, off);
    (s1, if v >= 0x8000 { v - 0x1_0000 } else { v })
}

/// Unsigned 32-bit read (0 outside the table).
#[verifier::opaque]
pub open spec fn get32(s: HState, off: int) -> (HState, int) {
    (
        touch(s, off, 4),
        if in_table(s, off, 4) {
            s.m[off] + 0x100 * s.m[off + 1] + 0x1_0000 * s.m[off + 2] + 0x100_0000 * s.m[off + 3]
        } else {
            0
        },
    )
}

/// 16-bit write of `val` modulo 2^16 (nothing written outside the table).
#[verifier::opaque]
pub open spec fn put16(s: HState, off: int, val: int) -> HState {
    if in_table(s, off, 2) {
        let v = val % 0x1_0000;
        HState { m: s.m.update(off, (v % 256) as u8).update(off + 1, (v / 256) as u8), bad: s.bad }
    } else {
        HState { m: s.m, bad: true }
    }
}

/// 32-bit write of `val` modulo 2^32 (nothing written outside the table).
#[verifier::opaque]
pub open spec fn put32(s: HState, off: int, val: int) -> HState {
    if in_table(s, off, 4) {
        let v = val % 0x1_0000_0000;
        HState {
            m: s.m.update(off, (v % 256) as u8).update(off + 1, (v / 0x100 % 256) as u8).update(
                off + 2,
                (v / 0x1_0000 % 256) as u8,
            ).update(off + 3, (v / 0x100_0000) as u8),
            bad: s.bad,
        }
    } else {
        HState { m: s.m, bad: true }
    }
}

/// `n` 16-bit writes of `val` at `base`, `base + stride`, ...
pub open spec fn put16_run(s: HState, base: int, stride: int, n: nat, val: int) -> HState
    decreases n,
{
    if n == 0 {
        s
    } else {
        put16(put16_run(s, base, stride, (n - 1) as nat, val), base + (n - 1) * stride, val)
    }
}

/// `n` 32-bit writes of `val` at `base`, `base + stride`, ...
pub open spec fn put32_run(s: HState, base: int, stride: int, n: nat, val: int) -> HState
    decreases n,
{
    if n == 0 {
        s
    } else {
        put32(put32_run(s, base, stride, (n - 1) as nat, val), base + (n - 1) * stride, val)
    }
}

/// The limit table from `level` on: per level four words derived from the running value
/// `s3` less the level's group count (all stored modulo 2^16, `s3` kept modulo 2^16).
pub open spec fn limits_from(s: HState, gc: int, lim: int, level: int, num: int, s3: int) -> HState
    decreases num - level,
{
    if level >= num {
        s
    } else {
        let (s1, g) = get16s(s, gc + level * 2);
        let s4 = s3 - g;
        let next = (s4 * 2) % 0x1_0000;
        let t1 = put16(s1, lim + level * 8, s4);
        let t2 = put16(t1, lim + level * 8 + 2, next);
        let t3 = put16(t2, lim + level * 8 + 4, s4 * 4);
        let t4 = put16(t3, lim + level * 8 + 6, s4 * 16);
        limits_from(t4, gc, lim, level + 1, num, next)
    }
}

/// Rebuilds the limit table from level `start` on.
pub open spec fn spec_build_limits(s: HState, start: int) -> HState {
    let (s1, gc) = get32(s, 0x0c);
    let (s2, lim) = get32(s1, 0x10);
    let (s3, num) = get16(s2, 0x04);
    if start == 0 {
        limits_from(s3, gc, lim, 0, num, 2)
    } else {
        let (s4, v) = get16s(s3, lim + (start - 1) * 8);
        limits_from(s4, gc, lim, start, num, (v * 2) % 0x1_0000)
    }
}

/// Counts one occurrence of `sym` and steps the rebuild countdown; true when it reaches zero.
pub open spec fn spec_update_freq(s: HState, sym: int) -> (HState, bool) {
    let (s1, w) = get32(s, 0x18);
    let (s2, cur) = get16(s1, w + sym * 2);
    let s3 = put16(s2, w + sym * 2, cur + 1);
    let (s4, c0) = get16s(s3, 0x00);
    let cnt = c0 - 1;
    (put16(s4, 0x00, cnt), cnt % 0x1_0000 == 0)
}

/// The table of an alphabet of 2^`esc_bits` symbols over `num` levels, as first laid out:
/// periods, layout offsets, one group, every symbol unseen, the limit table built.
pub open spec fn spec_new_tree(esc_bits: int, num: int, init_period: int, upd_period: int) -> HState {
    let alpha = pow2(esc_bits as nat) as int;
    let off_groupcnt = 0x34int;
    let off_symtab = num * 2 + 0x34;
    let off_slot = num * 6 + 0x38;
    let off_weight = num * 6 + 0x40 + alpha * 4;
    let off_limit = off_weight + 4 + alpha * 2;
    let size = off_limit + 0xC0 + 0x100;
    let s0 = HState { m: Seq::new(size as nat, |i: int| 0u8), bad: false };
    let s1 = put16(s0, 0x32, init_period);
    let s2 = put16(s1, 0x02, init_period);
    let s3 = put16(s2, 0x00, init_period);
    let s4 = put16(s3, 0x30, upd_period);
    let s5 = put16(s4, 0x2e, upd_period);
    let s6 = put16(s5, 0x2c, upd_period);
    let s7 = put16(s6, 0x06, esc_bits);
    let s8 = put16(s7, 0x04, num);
    let s9 = put32(s8, 0x0c, off_groupcnt);
    let s10 = put32(s9, 0x20, off_symtab);
    let s11 = put32(s10, 0x1c, off_slot);
    let s12 = put32(s11, 0x18, off_weight);
    let s13 = put32(s12, 0x14, off_limit);
    let s14 = put32(s13, 0x10, off_limit);
    let s15 = put16(s14, 0x0a, 1);
    let s16 = put16(s15, 0x08, 1);
    let s17 = put16(s16, off_groupcnt, 2);
    let s18 = put16_run(s17, off_groupcnt + 2, 2, (num - 1) as nat, 0);
    let s19 = put32(s18, off_symtab, off_slot);
    let s20 = put32_run(s19, off_symtab + 4, 4, num as nat, off_slot + 8);
    let wbase = off_weight + alpha * 2;
    let s21 = put32(s20, off_slot, wbase);
    let s22 = put32_run(s21, off_slot + 4, 4, (alpha + 1) as nat, wbase + 2);
    let s23 = put16_run(s22, off_weight, 2, alpha as nat, 0x8000);
    let s24 = put16(s23, off_weight + alpha * 2, 0);
    let s25 = put16(s24, off_weight + alpha * 2 + 2, 0);
    let s26 = put16(s25, 0x24, alpha);
    let (s27, lim) = get32(s26, 0x10);
    let s28 = put32_run(s27, lim, 4, 0x30, 0);
    spec_build_limits(s28, 0)
}

/// Scanning group counts downward (16-bit wrap-around) from `u` for a nonzero one; the scan
/// stops at a fault, and cannot pass 2^16 entries since a wrap reaches past the table.
pub open spec fn scan_groups(s: HState, gc: int, u: int, k: nat) -> (HState, int)
    decreases 0x1_0000 - k,
{
    if k >= 0x1_0000 {
        (s, u)
    } else {
        let (s1, v) = get16s(s, gc + u * 2);
        if s1.bad || v != 0 {
            (s1, u)
        } else {
            scan_groups(s1, gc, (u - 1) % 0x1_0000, k + 1)
        }
    }
}

/// Adds 4 to the symbol-table pointers `u..=num`.
pub open spec fn bump_symtab(s: HState, st: int, u: int, num: int) -> HState
    decreases num + 1 - u,
{
    if u > num {
        s
    } else {
        let (s1, v) = get32(s, st + u * 4);
        bump_symtab(put32(s1, st + u * 4, v + 4), st, u + 1, num)
    }
}

/// Registers a newly seen symbol with weight 1 and widens the group that takes it;
/// yields the lowest level whose limits change.
pub open spec fn spec_add_symbol(s: HState, newsym: int) -> (HState, int) {
    let (s1, w) = get32(s, 0x18);
    let (s2, slot) = get32(s1, 0x1c);
    let (s3, gc) = get32(s2, 0x0c);
    let (s4, st) = get32(s3, 0x20);
    let iv = newsym * 2;
    let s5 = put16(s4, w + iv, 1);
    let (s6, ns) = get16(s5, 0x08);
    let s7 = put32(s6, slot + ns * 4, w + iv);
    let n_slots = ns + 1;
    let s8 = put16(s7, 0x08, n_slots);
    if n_slots == 2 {
        (s8, 0)
    } else {
        let (s9, n_groups) = get16(s8, 0x0a);
        let (s10, num) = get16(s9, 0x04);
        let (s11, u6) = if n_groups < num {
            (put16(s10, 0x0a, n_groups + 1), (n_groups - 1) % 0x1_0000)
        } else {
            scan_groups(s10, gc, (n_groups - 2) % 0x1_0000, 0)
        };
        let (s12, v1) = get16s(s11, gc + u6 * 2);
        let s13 = put16(s12, gc + u6 * 2, v1 - 1);
        let (s14, v2) = get16s(s13, gc + 2 + u6 * 2);
        let s15 = put16(s14, gc + 2 + u6 * 2, v2 + 2);
        let (s16, v3) = get32(s15, st + (u6 + 1) * 4);
        let s17 = put32(s16, st + (u6 + 1) * 4, v3 - 4);
        (bump_symtab(s17, st, u6 + 2, num), u6)
    }
}

/// Block A of a rebuild: each slot's weight, halved when the update countdown wrapped,
/// and the largest weight seen.
pub open spec fn weigh(s: HState, slot: int, n: int, halve: bool, i: int, maxw: int) -> (HState, int)
    decreases n - i,
{
    if i >= n {
        (s, maxw)
    } else {
        let (s1, p) = get32(s, slot + i * 4);
        let (s2, wv) = get16(s1, p);
        let s3 = if halve { put16(s2, p, wv / 2) } else { s2 };
        let w = if halve { wv / 2 } else { wv };
        weigh(s3, slot, n, halve, i + 1, if maxw < w { w } else { maxw })
    }
}

/// The largest power of two from 2^15 down that does not exceed `maxw` (the first mask bit
/// that `maxw` has set).
pub open spec fn top_threshold(maxw: int, t: int) -> int
    decreases t,
{
    if maxw < t && t > 1 {
        top_threshold(maxw, t / 2)
    } else {
        t
    }
}

/// Inner pass of Block B: slots from `u17` on whose weight reaches the threshold `t` are
/// swapped down to position `ins`; yields the state and the final insertion point.
pub open spec fn sort_inner(s: HState, slot: int, n: int, t: int, u17: int, ins: int) -> (HState, int)
    decreases n - u17,
{
    if u17 >= n {
        (s, ins)
    } else {
        let pp = slot + u17 * 4;
        let (s1, p9) = get32(s, pp);
        let (s2, v) = get16(s1, p9);
        if v >= t {
            let (s3, pv) = get32(s2, slot + ins * 4);
            let s4 = put32(s3, slot + ins * 4, p9);
            let s5 = put32(s4, pp, pv);
            let (s6, _) = get32(s5, slot + (ins + 1) * 4);
            sort_inner(s6, slot, n, t, u17 + 1, ins + 1)
        } else {
            sort_inner(s2, slot, n, t, u17 + 1, ins)
        }
    }
}

/// Block B of a rebuild: a bit-radix partition of the slots by weight, most significant
/// bit first (threshold `t` = the current mask's lowest bit).
pub open spec fn sort_outer(s: HState, slot: int, n: int, la: int, t: int) -> HState
    decreases t, n - la,
{
    if la >= n || t < 1 {
        s
    } else {
        let (s1, pcur) = get32(s, slot + la * 4);
        let (s2, v) = get16(s1, pcur);
        if v < t {
            if n <= la + 1 {
                s2
            } else {
                let (s3, ins) = sort_inner(s2, slot, n, t, la + 1, la);
                let la2 = if ins != la { ins - 1 } else { la };
                if t <= 2 {
                    s3
                } else {
                    sort_outer(s3, slot, n, la2, t / 2)
                }
            }
        } else {
            sort_outer(s2, slot, n, la + 1, t)
        }
    }
}

/// Adds 4 to `n` consecutive pointers starting 8 bytes past `p`.
pub open spec fn bump_run(s: HState, p: int, n: nat) -> HState
    decreases n,
{
    if n == 0 {
        s
    } else {
        let (s1, v) = get32(s, p + 8);
        bump_run(put32(s1, p + 8, v + 4), p + 4, (n - 1) as nat)
    }
}

/// Looks from group `u17` on for one that can take a symbol from a heavier group: the running
/// 16-bit difference `acc` goes negative or drops below the group's second weight.
pub open spec fn merge_scan(s: HState, gc: int, symt: int, ng: int, u17: int, acc: int) -> (HState, bool, int)
    decreases ng - u17,
{
    if u17 >= ng {
        (s, false, u17)
    } else {
        let p4 = symt + u17 * 4;
        let (s1, a) = get32(s, p4);
        let (s2, b) = get32(s1, a);
        let (s3, w) = get16s(s2, b);
        let acc2 = (acc - w) % 0x1_0000;
        let (s4, gcnt) = get16(s3, gc + u17 * 2);
        let (s5, a2) = get32(s4, p4);
        let (s6, b2) = get32(s5, a2 + 4);
        let (s7, wn) = get16(s6, b2);
        if gcnt > 1 && (acc2 >= 0x8000 || acc2 < wn) {
            (s7, true, u17)
        } else {
            merge_scan(s7, gc, symt, ng, u17 + 1, acc2)
        }
    }
}

/// The state of Block C: table, group index, group count, top group, moves made.
pub struct GroupPass {
    pub s: HState,
    pub la: int,
    pub ng: int,
    pub ustk: int,
    pub moved: int,
}

pub open spec fn i32_max() -> int {
    0x7FFF_FFFF
}

/// A rebalance step that moves a symbol between groups but has no room left in the 32-bit
/// move counter stops with a fault.
pub open spec fn overflowed(g: GroupPass) -> GroupPass {
    GroupPass { s: HState { m: g.s.m, bad: true }, ..g }
}

/// Merge move: one symbol leaves group `la` and the groups up to `u17 - 1` shift by one slot.
pub open spec fn merge_move(g: GroupPass, gc: int, symt: int, u17: int) -> GroupPass {
    let la = g.la;
    let pgc = gc + la * 2;
    let p2 = symt + la * 4;
    let (t1, v1) = get16s(g.s, pgc);
    let t2 = put16(t1, pgc, v1 - 1);
    let la1 = la + 1;
    let p16 = p2 + 4;
    let (t3, v3) = get32(t2, p16);
    let t4 = put32(t3, p16, v3 - 4);
    let (t5, v5) = get16s(t4, gc + la1 * 2);
    let t6 = put16(t5, gc + la1 * 2, v5 + 2);
    let (t7, v7) = get32(t6, p2 + 8);
    let t8 = put32(t7, p2 + 8, v7 + 4);
    let span = u17 - 1 - la1;
    let far = la1 < (u17 - 1) % 0x1_0000;
    let t9 = if far { bump_run(t8, p16, span as nat) } else { t8 };
    let la2 = if far { la1 + span } else { la1 };
    let p16b = if far { p16 + 4 * span } else { p16 };
    let (t10, v10) = get16s(t9, gc + la2 * 2);
    let t11 = put16(t10, gc + la2 * 2, v10 + 1);
    let (t12, v12) = get32(t11, p16b + 4);
    let t13 = put32(t12, p16b + 4, v12 + 4);
    let (t14, v14) = get16s(t13, gc + 2 + la2 * 2);
    let t15 = put16(t14, gc + 2 + la2 * 2, v14 - 2);
    let (t16, z) = get16s(t15, gc + g.ustk * 2);
    if z == 0 {
        GroupPass {
            s: put16(t16, 0x0a, g.ng - 1),
            la: 0,
            ng: g.ng - 1,
            ustk: (g.ustk - 1) % 0x1_0000,
            moved: g.moved + 1,
        }
    } else {
        GroupPass { s: t16, la: 0, ng: g.ng, ustk: g.ustk, moved: g.moved + 1 }
    }
}

/// Simple move: the heaviest symbol of group `la` moves up one group.
pub open spec fn simple_move(g: GroupPass, s: HState, gc: int, symt: int) -> GroupPass {
    let la = g.la;
    let pgc = gc + la * 2;
    let p2 = symt + la * 4;
    let (t1, v1) = get16s(s, pgc - 2);
    let t2 = put16(t1, pgc - 2, v1 + 1);
    let (t3, v3) = get16s(t2, pgc);
    let t4 = put16(t3, pgc, v3 - 3);
    let (t5, v5) = get16s(t4, gc + 2 + la * 2);
    let t6 = put16(t5, gc + 2 + la * 2, v5 + 2);
    let (t7, v7) = get32(t6, p2);
    let t8 = put32(t7, p2, v7 + 4);
    let (t9, v9) = get32(t8, p2 + 4);
    let t10 = put32(t9, p2 + 4, v9 - 8);
    if g.ustk == la {
        GroupPass {
            s: put16(t10, 0x0a, g.ng + 1),
            la: 0,
            ng: g.ng + 1,
            ustk: (g.ustk + 1) % 0x1_0000,
            moved: g.moved + 1,
        }
    } else {
        GroupPass { s: t10, la: 0, ng: g.ng, ustk: g.ustk, moved: g.moved + 1 }
    }
}

/// One step of Block C at group `la`.
pub open spec fn group_step(g: GroupPass, gc: int, symt: int, num: int) -> GroupPass {
    let la = g.la;
    let pgc = gc + la * 2;
    let p2 = symt + la * 4;
    let (s1, cnt) = get16(g.s, pgc);
    if cnt == 0 {
        GroupPass { s: s1, la: la + 1, ..g }
    } else {
        let (s2, p1) = get32(s1, p2 + 4);
        let (s3, a) = get32(s2, p2);
        let (s4, b) = get32(s3, a);
        let (s5, w_first) = get16(s4, b);
        let (s6, c) = get32(s5, p1 - 4);
        let (s7, w_last) = get16(s6, c);
        let (s8, d) = get32(s7, p1 - 8);
        let (s9, w_last2) = get16(s8, d);
        if cnt < 3 || (num - 1) % 0x1_0000 == la || w_first < w_last + w_last2 {
            let (s10, e) = get32(s9, p1 - 4);
            let (s11, acc0) = get16(s10, e);
            let (s12, found, u17) = merge_scan(s11, gc, symt, g.ng, la + 2, acc0);
            if !found {
                GroupPass { s: s12, la: la + 1, ..g }
            } else if g.moved >= i32_max() {
                overflowed(GroupPass { s: s12, ..g })
            } else {
                merge_move(GroupPass { s: s12, ..g }, gc, symt, u17)
            }
        } else if g.moved >= i32_max() {
            overflowed(GroupPass { s: s9, ..g })
        } else {
            simple_move(g, s9, gc, symt)
        }
    }
}

/// Block C of a rebuild: group rebalancing until a pass over all groups moves nothing
/// (or a fault).
pub open spec fn rebalance(g: GroupPass, gc: int, symt: int, num: int) -> GroupPass
    decreases i32_max() - g.moved, g.ng - g.la,
{
    if g.la >= g.ng || g.moved > i32_max() || g.moved < 0 {
        g
    } else {
        let g2 = group_step(g, gc, symt, num);
        if g2.s.bad || g2.la >= g2.ng {
            g2
        } else {
            rebalance(g2, gc, symt, num)
        }
    }
}

/// The end of a rebuild: the periods adapt to how much the groups moved, and the
/// countdowns restart.
pub open spec fn rebuild_tail(s: HState, moved: int) -> HState {
    let s1 = if moved < 0x10 {
        if moved < 8 {
            let (a, v) = get16(s, 0x2e);
            if v != 1 {
                let (b, v1) = get16(a, 0x02);
                let c = put16(b, 0x02, v1 * 2);
                let (d, v2) = get16(c, 0x2c);
                let e = put16(d, 0x2c, v2 / 2);
                let (f, v3) = get16(e, 0x2e);
                put16(f, 0x2e, v3 / 2)
            } else {
                a
            }
        } else {
            s
        }
    } else {
        let (a, v) = get16(s, 0x32);
        let b = put16(a, 0x02, v);
        let (c, v1) = get16(b, 0x30);
        put16(c, 0x2e, v1)
    };
    let (t, v) = get16(s1, 0x02);
    let t2 = put16(t, 0x00, v);
    let (t3, z) = get16(t2, 0x2c);
    if z == 0 {
        let (t4, v4) = get16(t3, 0x2e);
        put16(t4, 0x2c, v4)
    } else {
        t3
    }
}

/// A full rebuild of the code: weights (maybe halved), radix partition of the slots,
/// group rebalance, period adaptation.
pub open spec fn spec_rebuild(s: HState) -> HState {
    let (s1, slot) = get32(s, 0x1c);
    let (s2, symt) = get32(s1, 0x20);
    let (s3, gc) = get32(s2, 0x0c);
    let (s4, n_slots) = get16(s3, 0x08);
    let (s5, upd) = get16s(s4, 0x2c);
    let (s6, num) = get16(s5, 0x04);
    let s7 = put16(s6, 0x2c, upd - 1);
    let (s8, maxw) = weigh(s7, slot, n_slots, (upd - 1) % 0x1_0000 == 0, 0, 0);
    let s9 = if maxw != 0 { sort_outer(s8, slot, n_slots, 0, top_threshold(maxw, 0x8000)) } else { s8 };
    let (s10, ng) = get16(s9, 0x0a);
    let g = if ng != 0 {
        rebalance(GroupPass { s: s10, la: 0, ng, ustk: (ng - 1) % 0x1_0000, moved: 0 }, gc, symt, num)
    } else {
        GroupPass { s: s10, la: 0, ng, ustk: (ng - 1) % 0x1_0000, moved: 0 }
    };
    rebuild_tail(g.s, g.moved)
}

/// The executable Block C counters.
struct Pass {
    la: i64,
    ng: i64,
    ustk: i64,
    moved: i64,
}

pub open spec fn pass_ok(la: int, ng: int, ustk: int, moved: int) -> bool {
    &&& 0 <= moved <= i32_max()
    &&& 0 <= la <= ng
    &&& ng <= 0x1_0000 + moved
    &&& 0 <= ustk < 0x1_0000
}

/// Why a diff payload could not be decompressed.
pub enum CodecFault {
    /// The bit stream ends inside a field or code word.
    Truncated,
    /// The payload offset lies at or past the end of the data.
    OffsetBeyond { offset: int, len: int },
    /// The payload does not start with the diff magic.
    BadMagic { magic: int },
    /// A code table or bit cursor left its bounds.
    Corrupt,
}

/// The MSB-first bit cursor: byte position, end of the payload, bits left in the current byte.
pub struct BitState {
    pub pos: int,
    pub end: int,
    pub bl: int,
}

/// Bits still ahead of the cursor (counting a current byte as `bl` bits).
pub open spec fn bits_left(b: BitState) -> int {
    (b.end - b.pos) * 8 + b.bl
}

/// One bit, most significant first.
pub open spec fn spec_bit(b: BitState, buf: Seq<u8>) -> Result<(BitState, int), CodecFault> {
    if b.pos >= b.end {
        Err(CodecFault::Truncated)
    } else if b.bl < 1 || b.bl > 8 {
        Err(CodecFault::Corrupt)
    } else {
        let v = (((buf[b.pos] as u32) >> ((b.bl - 1) as u32)) & 1u32) as int;
        if b.bl == 1 {
            Ok((BitState { pos: b.pos + 1, bl: 8, ..b }, v))
        } else {
            Ok((BitState { bl: b.bl - 1, ..b }, v))
        }
    }
}

/// `n` bits as an unsigned number, first bit most significant (kept modulo 2^32).
pub open spec fn spec_bits(b: BitState, buf: Seq<u8>, n: nat, acc: int) -> Result<(BitState, int), CodecFault>
    decreases n,
{
    if n == 0 {
        Ok((b, acc))
    } else {
        match spec_bit(b, buf) {
            Err(f) => Err(f),
            Ok((b2, v)) => spec_bits(b2, buf, (n - 1) as nat, (acc * 2 + v) % 0x1_0000_0000),
        }
    }
}

/// The code-word window after reading further bytes of a long code.
pub struct Extended {
    pub t: HState,
    pub pos: int,
    pub val: int,
    pub idx: int,
    pub tot: int,
}

/// Reads further whole bytes into the 16-bit code window until it reaches the level's limit.
pub open spec fn extend(t: HState, pos: int, end: int, buf: Seq<u8>, lim: int, val: int, idx: int, tot: int) -> Result<
    Extended,
    CodecFault,
>
    decreases end - pos,
{
    if pos + 1 >= end {
        Err(CodecFault::Truncated)
    } else if tot + 8 > 0x7FFF_FFFF {
        Err(CodecFault::Corrupt)
    } else {
        let p2 = pos + 1;
        let idx2 = idx + 8;
        let tot2 = tot + 8;
        let val2 = (val % 256) * 256 + buf[p2];
        let (t2, th) = get16(t, lim + idx2 * 8);
        if val2 >= th {
            Ok(Extended { t: t2, pos: p2, val: val2, idx: idx2, tot: tot2 })
        } else {
            extend(t2, p2, end, buf, lim, val2, idx2, tot2)
        }
    }
}

/// Drops trailing window bits while the window still reaches the next shorter level's limit
/// (limits outside the table count as 0); yields the window, the level index and the number
/// of bits given back to the stream.
pub open spec fn shrink(t: HState, lim: int, val: int, idx: int, cnt: int, back: int) -> (int, int, int)
    decreases cnt,
{
    if cnt <= 0 {
        (val, idx, back)
    } else {
        let lo = lim + 2 + idx * 8;
        let th = if in_table(t, lo, 2) { get16(t, lo).1 } else { 0 };
        if val < th {
            (val, idx, back)
        } else {
            shrink(t, lim, val / 2, idx - 1, cnt - 1, back + 1)
        }
    }
}

/// Decodes one symbol, updates the model (rebuilding the code when due), and for the escape
/// symbol reads the raw value of a new symbol and registers it.
pub open spec fn spec_decode(t: HState, b: BitState, buf: Seq<u8>) -> Result<(HState, BitState, int), CodecFault> {
    if b.pos >= b.end {
        Err(CodecFault::Truncated)
    } else if b.bl < 1 || b.bl > 31 {
        Err(CodecFault::Corrupt)
    } else {
        let bl = b.bl;
        let val0 = ((((1u32 << (bl as u32)) - 1) as u32) & (buf[b.pos] as u32)) as int;
        let (t1, lim) = get32(t, 0x10);
        let (t2, first) = get16(t1, lim + (bl - 1) * 8);
        let ext = if val0 < first {
            extend(t2, b.pos, b.end, buf, lim, val0, bl - 1, bl)
        } else {
            Ok(Extended { t: t2, pos: b.pos, val: val0, idx: bl - 1, tot: bl })
        };
        match ext {
            Err(f) => Err(f),
            Ok(e) => {
                let (val, idx, back) = shrink(e.t, lim, e.val, e.idx - 1, (e.tot - 1) % 256, 0);
                let (t4, symt) = get32(e.t, 0x20);
                let level = (idx + 1) % 0x1_0000;
                let (t5, slot_arr) = get32(t4, symt + level * 4);
                let (t6, lv) = get16s(t5, lim + level * 8);
                let k = (val - lv) % 0x1_0000;
                let (t7, p) = get32(t6, slot_arr + k * 4);
                let (t8, ow) = get32(t7, 0x18);
                let sym = ((p - ow) / 2) % 0x1_0000;
                let b2 = if back == 0 {
                    BitState { pos: e.pos + 1, end: b.end, bl: 8 }
                } else {
                    BitState { pos: e.pos, end: b.end, bl: back }
                };
                let (t9, due) = spec_update_freq(t8, sym);
                let t10 = if due { spec_build_limits(spec_rebuild(t9), 0) } else { t9 };
                let (t11, esc) = get16(t10, 0x24);
                if sym == esc {
                    let (t12, nb) = get16(t11, 0x06);
                    match spec_bits(b2, buf, nb as nat, 0) {
                        Err(f) => Err(f),
                        Ok((b3, raw)) => {
                            let (t13, lvl) = spec_add_symbol(t12, raw);
                            let t14 = spec_build_limits(t13, lvl);
                            if t14.bad {
                                Err(CodecFault::Corrupt)
                            } else {
                                Ok((t14, b3, raw % 0x1_0000))
                            }
                        },
                    }
                } else if t11.bad {
                    Err(CodecFault::Corrupt)
                } else {
                    Ok((t11, b2, sym))
                }
            },
        }
    }
}

proof fn lemma_shrink_bound(t: HState, lim: int, val: int, idx: int, cnt: int, back: int)
    requires
        cnt >= 0,
        back >= 0,
        val >= 0,
    ensures
        back <= shrink(t, lim, val, idx, cnt, back).2 <= back + cnt,
        shrink(t, lim, val, idx, cnt, back).0 >= 0,
        shrink(t, lim, val, idx, cnt, back).0 <= val,
    decreases cnt,
{
    if cnt > 0 {
        lemma_shrink_bound(t, lim, val / 2, idx - 1, cnt - 1, back + 1);
    }
}

pub(crate) proof fn lemma_pow2_mono(a: nat, b: nat)
    requires
        a <= b,
    ensures
        pow2(a) <= pow2(b),
    decreases b,
{
    if a < b {
        lemma_pow2_mono(a, (b - 1) as nat);
    }
}

proof fn lemma_pow2_16()
    ensures
        pow2(4) == 16,
        pow2(6) == 64,
        pow2(7) == 128,
        pow2(8) == 256,
        pow2(12) == 0x1000,
        pow2(16) == 0x1_0000,
{
    reveal_with_fuel(pow2, 17);
}

proof fn lemma_get16_in_table(s: HState, off: int)
    requires
        in_table(s, off, 2),
    ensures
        get16(s, off).0 == s,
{
    reveal(get16);
}

pub open spec fn pow2(n: nat) -> nat
    decreases n,
{
    if n == 0 {
        1
    } else {
        2 * pow2((n - 1) as nat)
    }
}

/// The decompressor's state: bit cursor, the three alphabets (no literal alphabet in raw
/// literal mode) and the output so far.
pub struct Dec {
    pub b: BitState,
    pub lit: Option<HState>,
    pub lt: HState,
    pub dt: HState,
    pub out: Seq<u8>,
}

/// A back-reference: `n` bytes, each the byte `back` positions earlier (zero before the
/// start of the output), stopping at `max` bytes of output.
pub open spec fn lz_copy(out: Seq<u8>, back: int, n: nat, max: int) -> Seq<u8>
    decreases n,
{
    if n == 0 || out.len() >= max {
        out
    } else {
        let pos = out.len() as int;
        let byte: u8 = if pos >= back { out[pos - back] } else { 0 };
        lz_copy(out.push(byte), back, (n - 1) as nat, max)
    }
}

/// One token: a flag bit, then a literal, or a distance (low bits raw, high part coded) and
/// a coded length. `Ok(None)` is the zero-distance end marker.
pub open spec fn token_step(data: Seq<u8>, db: nat, max: int, d: Dec) -> Result<Option<Dec>, CodecFault> {
    match spec_bit(d.b, data) {
        Err(f) => Err(f),
        Ok((b1, flag)) => if flag == 0 {
            match d.lit {
                Some(lt) => match spec_decode(lt, b1, data) {
                    Err(f) => Err(f),
                    Ok((lt2, b2, sym)) => Ok(Some(Dec { b: b2, lit: Some(lt2), out: d.out.push((sym % 256) as u8), ..d })),
                },
                None => match spec_bits(b1, data, 8, 0) {
                    Err(f) => Err(f),
                    Ok((b2, sym)) => Ok(Some(Dec { b: b2, out: d.out.push((sym % 256) as u8), ..d })),
                },
            }
        } else {
            match spec_bits(b1, data, db, 0) {
                Err(f) => Err(f),
                Ok((b2, lo)) => match spec_decode(d.dt, b2, data) {
                    Err(f) => Err(f),
                    Ok((dt2, b3, hi)) => {
                        let dist = hi * pow2(db) + lo;
                        if dist == 0 {
                            Ok(None)
                        } else {
                            match spec_decode(d.lt, b3, data) {
                                Err(f) => Err(f),
                                Ok((lt2, b4, len)) => Ok(
                                    Some(
                                        Dec {
                                            b: b4,
                                            lt: lt2,
                                            dt: dt2,
                                            out: lz_copy(d.out, dist + 1, (len % 128) as nat, max),
                                            ..d
                                        },
                                    ),
                                ),
                            }
                        }
                    },
                },
            }
        },
    }
}

/// Tokens until the output holds `max` bytes or the end marker.
pub open spec fn spec_tokens(data: Seq<u8>, db: nat, max: int, d: Dec) -> Result<Seq<u8>, CodecFault>
    decreases bits_left(d.b),
{
    if d.out.len() >= max || bits_left(d.b) < 0 {
        Ok(d.out)
    } else {
        match token_step(data, db, max, d) {
            Err(f) => Err(f),
            Ok(None) => Ok(d.out),
            Ok(Some(d2)) => if 0 <= bits_left(d2.b) < bits_left(d.b) {
                spec_tokens(data, db, max, d2)
            } else {
                Err(CodecFault::Corrupt)
            },
        }
    }
}

pub open spec fn diff_magic() -> int {
    0xB59C
}

/// What decompressing the payload of `size` bytes at `offset` (to the end of the data when
/// `size` is 0) yields, with output capped at `max_output` bytes.
pub open spec fn spec_decompress(data: Seq<u8>, offset: int, size: int, max_output: int) -> Result<Seq<u8>, CodecFault> {
    if offset >= data.len() {
        Err(CodecFault::OffsetBeyond { offset, len: data.len() as int })
    } else {
        let end = if size > 0 && offset + size < data.len() { offset + size } else { data.len() as int };
        let b0 = BitState { pos: offset, end, bl: 8 };
        match spec_bits(b0, data, 16, 0) {
            Err(f) => Err(f),
            Ok((b1, magic)) => if magic != diff_magic() {
                Err(CodecFault::BadMagic { magic })
            } else {
                match spec_bits(b1, data, 8, 0) {
                    Err(f) => Err(f),
                    Ok((b2, use_raw)) => match spec_bits(b2, data, 8, 0) {
                        Err(f) => Err(f),
                        Ok((b3, _)) => match spec_bits(b3, data, 12, 0) {
                            Err(f) => Err(f),
                            Ok((b4, init)) => match spec_bits(b4, data, 12, 0) {
                                Err(f) => Err(f),
                                Ok((b5, upd)) => match spec_bits(b5, data, 4, 0) {
                                    Err(f) => Err(f),
                                    Ok((b6, wflag)) => {
                                        let db: nat = if wflag == 8 { 7 } else { 6 };
                                        let lit = if use_raw == 0 { Some(spec_new_tree(8, 0x10, init, upd)) } else { None };
                                        spec_tokens(
                                            data,
                                            db,
                                            max_output,
                                            Dec {
                                                b: b6,
                                                lit,
                                                lt: spec_new_tree(6, 0x0C, init, upd),
                                                dt: spec_new_tree(6, 0x0C, init, upd),
                                                out: Seq::empty(),
                                            },
                                        )
                                    },
                                },
                            },
                        },
                    },
                }
            },
        }
    }
}

proof fn lemma_lz_copy_len(out: Seq<u8>, back: int, n: nat, max: int)
    requires
        out.len() <= max,
    ensures
        lz_copy(out, back, n, max).len() <= max,
    decreases n,
{
    if n > 0 && out.len() < max {
        let pos = out.len() as int;
        let byte: u8 = if pos >= back { out[pos - back] } else { 0 };
        lemma_lz_copy_len(out.push(byte), back, (n - 1) as nat, max);
    }
}

/// What a back-reference appends: the output keeps its bytes, grows by `n` bytes or up to
/// `max`, and each new byte is the one `back` positions before it (0 before the start).
proof fn lemma_lz_copy_shape(out: Seq<u8>, back: int, n: nat, max: int)
    requires
        out.len() <= max,
        1 <= back,
    ensures
        ({
            let r = lz_copy(out, back, n, max);
            &&& r.len() == if out.len() + n <= max { (out.len() + n) as int } else { max }
            &&& r.subrange(0, out.len() as int) == out
            &&& forall|j: int|
                out.len() <= j < r.len() ==> #[trigger] r[j] == if j >= back { r[j - back] } else { 0u8 }
        }),
    decreases n,
{
    if n > 0 && out.len() < max {
        let pos = out.len() as int;
        let byte: u8 = if pos >= back { out[pos - back] } else { 0 };
        let o2 = out.push(byte);
        lemma_lz_copy_shape(o2, back, (n - 1) as nat, max);
        let r = lz_copy(out, back, n, max);
        assert(r == lz_copy(o2, back, (n - 1) as nat, max));
        assert forall|j: int| 0 <= j < o2.len() implies #[trigger] r[j] == o2[j] by {
            assert(r.subrange(0, o2.len() as int)[j] == o2[j]);
        }
        assert(r.subrange(0, out.len() as int) =~= out);
        assert forall|j: int| out.len() <= j < r.len() implies #[trigger] r[j] == if j >= back { r[j - back] } else { 0u8 } by {
            if j == pos {
                if j >= back {
                    assert(r[j - back] == o2[j - back]);
                }
            }
        }
    } else {
        assert(out.subrange(0, out.len() as int) =~= out);
    }
}

/// A back-reference token with distance field `dist >= 1` (its low `db` bits raw, its high part
/// coded) and coded length `len` appends `len % 128` bytes, up to `max` bytes of output, each
/// equal to the output byte `dist + 1` positions before it (0 before the start of the output);
/// the bytes before stay as they were.
pub proof fn lemma_back_reference(
    data: Seq<u8>,
    db: nat,
    max: int,
    d: Dec,
    b1: BitState,
    b2: BitState,
    lo: int,
    dt2: HState,
    b3: BitState,
    hi: int,
    lt2: HState,
    b4: BitState,
    len: int,
)
    requires
        d.out.len() <= max,
        spec_bit(d.b, data) == Ok::<(BitState, int), CodecFault>((b1, 1)),
        spec_bits(b1, data, db, 0) == Ok::<(BitState, int), CodecFault>((b2, lo)),
        spec_decode(d.dt, b2, data) == Ok::<(HState, BitState, int), CodecFault>((dt2, b3, hi)),
        hi * pow2(db) + lo >= 1,
        spec_decode(d.lt, b3, data) == Ok::<(HState, BitState, int), CodecFault>((lt2, b4, len)),
    ensures
        ({
            let dist = hi * pow2(db) + lo;
            let n = len % 128;
            let old_len = d.out.len() as int;
            token_step(data, db, max, d) matches Ok(Some(d2)) && {
                &&& d2.out.len() == if old_len + n <= max { old_len + n } else { max }
                &&& d2.out.subrange(0, old_len) == d.out
                &&& forall|j: int|
                    old_len <= j < d2.out.len() ==> #[trigger] d2.out[j] == if j >= dist + 1 {
                        d2.out[j - (dist + 1)]
                    } else {
                        0u8
                    }
            }
        }),
{
    let dist = hi * pow2(db) + lo;
    lemma_lz_copy_shape(d.out, dist + 1, (len % 128) as nat, max);
}

proof fn lemma_token_len(data: Seq<u8>, db: nat, max: int, d: Dec)
    requires
        d.out.len() < max,
    ensures
        token_step(data, db, max, d) matches Ok(Some(d2)) ==> d2.out.len() <= max,
{
    if let Ok((b1, flag)) = spec_bit(d.b, data) {
        if flag != 0 {
            if let Ok((b2, lo)) = spec_bits(b1, data, db, 0) {
                if let Ok((dt2, b3, hi)) = spec_decode(d.dt, b2, data) {
                    let dist = hi * pow2(db) + lo;
                    if let Ok((lt2, b4, len)) = spec_decode(d.lt, b3, data) {
                        lemma_lz_copy_len(d.out, dist + 1, (len % 128) as nat, max);
                    }
                }
            }
        }
    }
}

proof fn lemma_tokens_len(data: Seq<u8>, db: nat, max: int, d: Dec)
    requires
        0 <= max,
        d.out.len() <= max,
    ensures
        spec_tokens(data, db, max, d) matches Ok(out) ==> out.len() <= max,
    decreases bits_left(d.b),
{
    if d.out.len() < max && bits_left(d.b) >= 0 {
        lemma_token_len(data, db, max, d);
        if let Ok(Some(d2)) = token_step(data, db, max, d) {
            if 0 <= bits_left(d2.b) < bits_left(d.b) {
                lemma_tokens_len(data, db, max, d2);
            }
        }
    }
}

/// Decompression never yields more than `max_output` bytes.
pub proof fn lemma_decompress_output_bound(data: Seq<u8>, offset: int, size: int, max_output: int)
    requires
        0 <= max_output,
    ensures
        spec_decompress(data, offset, size, max_output) matches Ok(out) ==> out.len() <= max_output,
{
    if offset < data.len() {
        let end = if size > 0 && offset + size < data.len() { offset + size } else { data.len() as int };
        let b0 = BitState { pos: offset, end, bl: 8 };
        if let Ok((b1, magic)) = spec_bits(b0, data, 16, 0) {
            if let Ok((b2, use_raw)) = spec_bits(b1, data, 8, 0) {
                if let Ok((b3, _)) = spec_bits(b2, data, 8, 0) {
                    if let Ok((b4, init)) = spec_bits(b3, data, 12, 0) {
                        if let Ok((b5, upd)) = spec_bits(b4, data, 12, 0) {
                            if let Ok((b6, wflag)) = spec_bits(b5, data, 4, 0) {
                                let db: nat = if wflag == 8 { 7 } else { 6 };
                                let lit = if use_raw == 0 { Some(spec_new_tree(8, 0x10, init, upd)) } else { None };
                                lemma_tokens_len(
                                    data,
                                    db,
                                    max_output,
                                    Dec {
                                        b: b6,
                                        lit,
                                        lt: spec_new_tree(6, 0x0C, init, upd),
                                        dt: spec_new_tree(6, 0x0C, init, upd),
                                        out: Seq::empty(),
                                    },
                                );
                            }
                        }
                    }
                }
            }
        }
    }
}

/// The struct that holds a table.
struct HuffTree {
    m: Vec<u8>,
    bad: bool,
}

impl View for HuffTree {
    type V = HState;

    closed spec fn view(&self) -> HState {
        HState { m: self.m@, bad: self.bad }
    }
}

impl HuffTree {
    /// The position of an access of `width` bytes at `off`, when it lies in the table.
    fn locate(&self, off: i64, width: usize) -> (r: Option<usize>)
        requires
            0 < width <= 4,
        ensures
            r is Some <==> in_table(self@, off as int, width as int),
            r matches Some(o) ==> o == off && o + width <= self.m@.len() && self.m@.len() <= usize::MAX,
    {
        let n = self.m.len();
        if off < 0 {
            return None;
        }
        let o = off as u64;
        if o < n as u64 && width as u64 <= n as u64 - o {
            Some(o as usize)
        } else {
            None
        }
    }

    fn r16u(&mut self, off: i64) -> (v: i64)
        ensures
            (final(self)@, v as int) == get16(old(self)@, off as int),
            0 <= v < 0x1_0000,
    {
        reveal(get16);
        match self.locate(off, 2) {
            Some(o) => self.m[o] as i64 + 256 * (self.m[o + 1] as i64),
            None => {
                self.bad = true;
                0
            },
        }
    }

    fn r16s(&mut self, off: i64) -> (v: i64)
        ensures
            (final(self)@, v as int) == get16s(old(self)@, off as int),
            -0x8000 <= v < 0x8000,
    {
        let v = self.r16u(off);
        if v >= 0x8000 {
            v - 0x1_0000
        } else {
            v
        }
    }

    fn r32(&mut self, off: i64) -> (v: i64)
        ensures
            (final(self)@, v as int) == get32(old(self)@, off as int),
            0 <= v < 0x1_0000_0000,
    {
        reveal(get32);
        match self.locate(off, 4) {
            Some(o) => self.m[o] as i64 + 0x100 * (self.m[o + 1] as i64) + 0x1_0000 * (self.m[o + 2] as i64)
                + 0x100_0000 * (self.m[o + 3] as i64),
            None => {
                self.bad = true;
                0
            },
        }
    }

    fn w16(&mut self, off: i64, val: i64)
        requires
            -0x100_0000_0000 <= val < 0x100_0000_0000,
        ensures
            final(self)@ == put16(old(self)@, off as int, val as int),
    {
        reveal(put16);
        match self.locate(off, 2) {
            Some(o) => {
                let t = (val + 0x100_0000_0000) as u64;
                let v = t % 0x1_0000;
                proof {
                    vstd::arithmetic::div_mod::lemma_mod_multiples_vanish(0x100_0000, val as int, 0x1_0000);
                    assert(v as int == (val as int) % 0x1_0000);
                }
                self.m.set(o, (v % 256) as u8);
                self.m.set(o + 1, (v / 256) as u8);
            },
            None => {
                self.bad = true;
            },
        }
    }

    fn w32(&mut self, off: i64, val: i64)
        requires
            -0x100_0000_0000 <= val < 0x100_0000_0000,
        ensures
            final(self)@ == put32(old(self)@, off as int, val as int),
    {
        reveal(put32);
        match self.locate(off, 4) {
            Some(o) => {
                let t = (val + 0x100_0000_0000) as u64;
                let v = t % 0x1_0000_0000;
                proof {
                    vstd::arithmetic::div_mod::lemma_mod_multiples_vanish(0x100, val as int, 0x1_0000_0000);
                    assert(v as int == (val as int) % 0x1_0000_0000);
                }
                self.m.set(o, (v % 256) as u8);
                self.m.set(o + 1, (v / 0x100 % 256) as u8);
                self.m.set(o + 2, (v / 0x1_0000 % 256) as u8);
                self.m.set(o + 3, (v / 0x100_0000) as u8);
            },
            None => {
                self.bad = true;
            },
        }
    }

    fn w16_run(&mut self, base: i64, stride: i64, n: i64, val: i64)
        requires
            0 <= base < 0x1_0000_0000,
            0 <= stride <= 8,
            0 <= n < 0x1_0000,
            -0x100_0000_0000 <= val < 0x100_0000_0000,
        ensures
            final(self)@ == put16_run(old(self)@, base as int, stride as int, n as nat, val as int),
    {
        let mut i: i64 = 0;
        while i < n
            invariant
                0 <= i <= n,
                0 <= base < 0x1_0000_0000,
                0 <= stride <= 8,
                n < 0x1_0000,
                -0x100_0000_0000 <= val < 0x100_0000_0000,
                self@ == put16_run(old(self)@, base as int, stride as int, i as nat, val as int),
            decreases n - i,
        {
            assert(0 <= i * stride <= 0x8_0000) by (nonlinear_arith)
                requires
                    0 <= i < 0x1_0000,
                    0 <= stride <= 8,
            ;
            self.w16(base + i * stride, val);
            i = i + 1;
        }
    }

    fn w32_run(&mut self, base: i64, stride: i64, n: i64, val: i64)
        requires
            0 <= base < 0x1_0000_0000,
            0 <= stride <= 8,
            0 <= n < 0x1_0000,
            -0x100_0000_0000 <= val < 0x100_0000_0000,
        ensures
            final(self)@ == put32_run(old(self)@, base as int, stride as int, n as nat, val as int),
    {
        let mut i: i64 = 0;
        while i < n
            invariant
                0 <= i <= n,
                0 <= base < 0x1_0000_0000,
                0 <= stride <= 8,
                n < 0x1_0000,
                -0x100_0000_0000 <= val < 0x100_0000_0000,
                self@ == put32_run(old(self)@, base as int, stride as int, i as nat, val as int),
            decreases n - i,
        {
            assert(0 <= i * stride <= 0x8_0000) by (nonlinear_arith)
                requires
                    0 <= i < 0x1_0000,
                    0 <= stride <= 8,
            ;
            self.w32(base + i * stride, val);
            i = i + 1;
        }
    }
    fn build_limits(&mut self, start: i64)
        requires
            0 <= start < 0x1_0000,
        ensures
            final(self)@ == spec_build_limits(old(self)@, start as int),
    {
        let gc = self.r32(0x0c);
        let lim = self.r32(0x10);
        let num = self.r16u(0x04);
        let mut s3: i64 = if start == 0 {
            2
        } else {
            let v = self.r16s(lim + (start - 1) * 8);
            proof {
                vstd::arithmetic::div_mod::lemma_mod_multiples_vanish(2, v * 2, 0x1_0000);
            }
            (v * 2 + 0x2_0000) % 0x1_0000
        };
        let ghost target = spec_build_limits(old(self)@, start as int);
        let mut level = start;
        while level < num
            invariant
                0 <= gc < 0x1_0000_0000,
                0 <= lim < 0x1_0000_0000,
                0 <= num < 0x1_0000,
                0 <= level < 0x1_0000,
                0 <= s3 < 0x1_0000,
                limits_from(self@, gc as int, lim as int, level as int, num as int, s3 as int) == target,
            decreases num - level,
        {
            let g = self.r16s(gc + level * 2);
            let s4 = s3 - g;
            let next = (s4 * 2 + 0x2_0000) % 0x1_0000;
            proof {
                vstd::arithmetic::div_mod::lemma_mod_multiples_vanish(2, s4 * 2, 0x1_0000);
            }
            self.w16(lim + level * 8, s4);
            self.w16(lim + level * 8 + 2, next);
            self.w16(lim + level * 8 + 4, s4 * 4);
            self.w16(lim + level * 8 + 6, s4 * 16);
            s3 = next;
            level = level + 1;
        }
    }

    /// Counts `sym`; true when the rebuild countdown reaches zero.
    fn update_freq(&mut self, sym: i64) -> (r: bool)
        requires
            0 <= sym < 0x1_0000,
        ensures
            (final(self)@, r) == spec_update_freq(old(self)@, sym as int),
    {
        let w = self.r32(0x18);
        let cur = self.r16u(w + sym * 2);
        self.w16(w + sym * 2, cur + 1);
        let cnt = self.r16s(0x00) - 1;
        self.w16(0x00, cnt);
        cnt == 0
    }

    /// A fresh table for an alphabet of `1 << esc_bits` symbols over `num_levels` code lengths.
    /// The alphabet size and the level count are kept in 16-bit fields of the table, which
    /// bounds them.
    fn new(esc_bits: i64, num_levels: i64, init_period: i64, upd_period: i64) -> (t: Self)
        requires
            0 <= esc_bits <= 15,
            1 <= num_levels < 0x1_0000,
            0 <= init_period < 0x1_0000_0000,
            0 <= upd_period < 0x1_0000_0000,
        ensures
            t@ == spec_new_tree(esc_bits as int, num_levels as int, init_period as int, upd_period as int),
    {
        let mut alpha: i64 = 1;
        let mut k: i64 = 0;
        while k < esc_bits
            invariant
                0 <= k <= esc_bits <= 15,
                alpha == pow2(k as nat),
                alpha <= 0x8000,
            decreases esc_bits - k,
        {
            proof {
                lemma_pow2_mono(k as nat, 14);
                assert(pow2(14) == 0x4000) by {
                    reveal_with_fuel(pow2, 15);
                }
            }
            alpha = alpha * 2;
            k = k + 1;
        }
        let off_groupcnt: i64 = 0x34;
        let off_symtab = num_levels * 2 + 0x34;
        let off_slot = num_levels * 6 + 0x38;
        let off_weight = num_levels * 6 + 0x40 + alpha * 4;
        let off_limit = off_weight + 4 + alpha * 2;
        let size = off_limit + 0xC0 + 0x100;
        let mut m: Vec<u8> = Vec::new();
        m.resize(size as usize, 0);
        let mut t = HuffTree { m, bad: false };
        proof {
            assert(t@.m =~= Seq::new(size as nat, |i: int| 0u8));
        }
        t.w16(0x32, init_period);
        t.w16(0x02, init_period);
        t.w16(0x00, init_period);
        t.w16(0x30, upd_period);
        t.w16(0x2e, upd_period);
        t.w16(0x2c, upd_period);
        t.w16(0x06, esc_bits);
        t.w16(0x04, num_levels);
        t.w32(0x0c, off_groupcnt);
        t.w32(0x20, off_symtab);
        t.w32(0x1c, off_slot);
        t.w32(0x18, off_weight);
        t.w32(0x14, off_limit);
        t.w32(0x10, off_limit);
        t.w16(0x0a, 1);
        t.w16(0x08, 1);
        t.w16(off_groupcnt, 2);
        t.w16_run(off_groupcnt + 2, 2, num_levels - 1, 0);
        t.w32(off_symtab, off_slot);
        t.w32_run(off_symtab + 4, 4, num_levels, off_slot + 8);
        let wbase = off_weight + alpha * 2;
        t.w32(off_slot, wbase);
        t.w32_run(off_slot + 4, 4, alpha + 1, wbase + 2);
        t.w16_run(off_weight, 2, alpha, 0x8000);
        t.w16(off_weight + alpha * 2, 0);
        t.w16(off_weight + alpha * 2 + 2, 0);
        t.w16(0x24, alpha);
        let lim = t.r32(0x10);
        t.w32_run(lim, 4, 0x30, 0);
        t.build_limits(0);
        t
    }
    /// Registers a new symbol; returns the lowest level whose limits need rebuilding.
    fn add_symbol(&mut self, newsym: i64) -> (r: i64)
        requires
            0 <= newsym < 0x1_0000_0000,
        ensures
            (final(self)@, r as int) == spec_add_symbol(old(self)@, newsym as int),
            0 <= r < 0x1_0000,
    {
        let w = self.r32(0x18);
        let slot = self.r32(0x1c);
        let gc = self.r32(0x0c);
        let st = self.r32(0x20);
        let iv = newsym * 2;
        self.w16(w + iv, 1);
        let ns = self.r16u(0x08);
        self.w32(slot + ns * 4, w + iv);
        let n_slots = ns + 1;
        self.w16(0x08, n_slots);
        if n_slots == 2 {
            return 0;
        }
        let n_groups = self.r16u(0x0a);
        let num = self.r16u(0x04);
        let uvar6: i64 = if n_groups < num {
            let u = (n_groups - 1 + 0x1_0000) % 0x1_0000;
            self.w16(0x0a, n_groups + 1);
            proof {
                vstd::arithmetic::div_mod::lemma_mod_multiples_vanish(1, n_groups - 1, 0x1_0000);
            }
            u
        } else {
            let mut u = (n_groups - 2 + 0x1_0000) % 0x1_0000;
            proof {
                vstd::arithmetic::div_mod::lemma_mod_multiples_vanish(1, n_groups - 2, 0x1_0000);
            }
            let ghost target = scan_groups(self@, gc as int, u as int, 0);
            let mut k: i64 = 0;
            while k < 0x1_0000
                invariant_except_break
                    scan_groups(self@, gc as int, u as int, k as nat) == target,
                invariant
                    0 <= k <= 0x1_0000,
                    0 <= u < 0x1_0000,
                    0 <= gc < 0x1_0000_0000,
                ensures
                    target == (self@, u as int),
                    0 <= u < 0x1_0000,
                decreases 0x1_0000 - k,
            {
                let v = self.r16s(gc + u * 2);
                if self.bad || v != 0 {
                    break;
                }
                proof {
                    vstd::arithmetic::div_mod::lemma_mod_multiples_vanish(1, u - 1, 0x1_0000);
                }
                u = (u - 1 + 0x1_0000) % 0x1_0000;
                k = k + 1;
            }
            u
        };
        let v = self.r16s(gc + uvar6 * 2);
        self.w16(gc + uvar6 * 2, v - 1);
        let v = self.r16s(gc + 2 + uvar6 * 2);
        self.w16(gc + 2 + uvar6 * 2, v + 2);
        let v = self.r32(st + (uvar6 + 1) * 4);
        self.w32(st + (uvar6 + 1) * 4, v - 4);
        let ghost target = bump_symtab(self@, st as int, uvar6 + 2, num as int);
        let mut u = uvar6 + 2;
        while u <= num
            invariant
                0 <= st < 0x1_0000_0000,
                0 <= num < 0x1_0000,
                2 <= u <= 0x1_0002,
                bump_symtab(self@, st as int, u as int, num as int) == target,
            decreases num + 1 - u,
        {
            let v = self.r32(st + u * 4);
            self.w32(st + u * 4, v + 4);
            u = u + 1;
        }
        uvar6
    }
    /// Block A: weights (halved when asked) and their maximum.
    fn weigh(&mut self, slot: i64, n: i64, halve: bool) -> (maxw: i64)
        requires
            0 <= slot < 0x1_0000_0000,
            0 <= n < 0x1_0000,
        ensures
            (final(self)@, maxw as int) == weigh(old(self)@, slot as int, n as int, halve, 0, 0),
            0 <= maxw < 0x1_0000,
    {
        let ghost target = weigh(self@, slot as int, n as int, halve, 0, 0);
        let mut maxw: i64 = 0;
        let mut i: i64 = 0;
        while i < n
            invariant
                0 <= slot < 0x1_0000_0000,
                0 <= n < 0x1_0000,
                0 <= i <= n,
                0 <= maxw < 0x1_0000,
                target == weigh(old(self)@, slot as int, n as int, halve, 0, 0),
                weigh(self@, slot as int, n as int, halve, i as int, maxw as int) == target,
            decreases n - i,
        {
            let p = self.r32(slot + i * 4);
            let mut wv = self.r16u(p);
            if halve {
                wv = wv / 2;
                self.w16(p, wv);
            }
            if maxw < wv {
                maxw = wv;
            }
            i = i + 1;
        }
        maxw
    }

    /// Inner pass of Block B.
    fn sort_inner(&mut self, slot: i64, n: i64, t: i64, start: i64, ins0: i64) -> (ins: i64)
        requires
            0 <= slot < 0x1_0000_0000,
            0 <= n < 0x1_0000,
            0 <= ins0 < start <= n,
        ensures
            (final(self)@, ins as int) == sort_inner(old(self)@, slot as int, n as int, t as int, start as int, ins0 as int),
            ins0 <= ins <= n,
    {
        let ghost target = sort_inner(self@, slot as int, n as int, t as int, start as int, ins0 as int);
        let mut u17 = start;
        let mut ins = ins0;
        while u17 < n
            invariant
                0 <= slot < 0x1_0000_0000,
                0 <= n < 0x1_0000,
                0 <= ins0 <= ins < u17 <= n,
                target == sort_inner(old(self)@, slot as int, n as int, t as int, start as int, ins0 as int),
                sort_inner(self@, slot as int, n as int, t as int, u17 as int, ins as int) == target,
            ensures
                target == (self@, ins as int),
                ins0 <= ins <= n,
            decreases n - u17,
        {
            let pp = slot + u17 * 4;
            let p9 = self.r32(pp);
            let v = self.r16u(p9);
            if v >= t {
                let pv = self.r32(slot + ins * 4);
                self.w32(slot + ins * 4, p9);
                self.w32(pp, pv);
                let _ = self.r32(slot + (ins + 1) * 4);
                ins = ins + 1;
            }
            u17 = u17 + 1;
        }
        ins
    }

    /// Block B: radix partition of the slots by weight.
    fn sort_slots(&mut self, slot: i64, n: i64, t0: i64)
        requires
            0 <= slot < 0x1_0000_0000,
            0 <= n < 0x1_0000,
            1 <= t0 <= 0x8000,
        ensures
            final(self)@ == sort_outer(old(self)@, slot as int, n as int, 0, t0 as int),
    {
        let ghost target = sort_outer(self@, slot as int, n as int, 0, t0 as int);
        let mut la: i64 = 0;
        let mut t = t0;
        while la < n
            invariant_except_break
                sort_outer(self@, slot as int, n as int, la as int, t as int) == target,
            invariant
                0 <= slot < 0x1_0000_0000,
                0 <= n < 0x1_0000,
                0 <= la <= n,
                1 <= t <= 0x8000,
                target == sort_outer(old(self)@, slot as int, n as int, 0, t0 as int),
            ensures
                target == self@,
            decreases t, n - la,
        {
            let pcur = self.r32(slot + la * 4);
            let v = self.r16u(pcur);
            if v < t {
                if n <= la + 1 {
                    break;
                }
                let ins = self.sort_inner(slot, n, t, la + 1, la);
                if ins != la {
                    la = ins - 1;
                }
                if t <= 2 {
                    break;
                }
                t = t / 2;
            } else {
                la = la + 1;
            }
        }
    }

    /// Adds 4 to `n` consecutive pointers starting 8 bytes past `p`.
    fn bump_run(&mut self, p: i64, n: i64)
        requires
            -8 <= p < 0x4_0000_0000,
            0 <= n < 0x1_0000_0000,
        ensures
            final(self)@ == bump_run(old(self)@, p as int, n as nat),
    {
        let ghost target = bump_run(self@, p as int, n as nat);
        let mut q = p;
        let mut k: i64 = 0;
        while k < n
            invariant
                0 <= k <= n,
                n < 0x1_0000_0000,
                q == p + 4 * k,
                -8 <= p < 0x4_0000_0000,
                target == bump_run(old(self)@, p as int, n as nat),
                bump_run(self@, q as int, (n - k) as nat) == target,
            decreases n - k,
        {
            let v = self.r32(q + 8);
            self.w32(q + 8, v + 4);
            q = q + 4;
            k = k + 1;
        }
    }

    fn merge_scan(&mut self, gc: i64, symt: i64, ng: i64, start: i64, acc0: i64) -> (r: (bool, i64))
        requires
            0 <= gc < 0x1_0000_0000,
            0 <= symt < 0x1_0000_0000,
            0 <= start,
            0 <= ng < 0x1_0000_0000,
            0 <= acc0 < 0x1_0000,
        ensures
            (final(self)@, r.0, r.1 as int) == merge_scan(old(self)@, gc as int, symt as int, ng as int, start as int, acc0 as int),
            r.0 ==> start <= r.1 < ng,
    {
        let ghost target = merge_scan(self@, gc as int, symt as int, ng as int, start as int, acc0 as int);
        let mut u17 = start;
        let mut acc = acc0;
        while u17 < ng
            invariant
                0 <= gc < 0x1_0000_0000,
                0 <= symt < 0x1_0000_0000,
                0 <= start <= u17,
                ng < 0x1_0000_0000,
                0 <= acc < 0x1_0000,
                target == merge_scan(old(self)@, gc as int, symt as int, ng as int, start as int, acc0 as int),
                merge_scan(self@, gc as int, symt as int, ng as int, u17 as int, acc as int) == target,
            ensures
                u17 >= ng,
                target == (self@, false, u17 as int),
            decreases ng - u17,
        {
            let p4 = symt + u17 * 4;
            let a = self.r32(p4);
            let b = self.r32(a);
            let w = self.r16s(b);
            let acc2 = (acc - w + 0x1_0000) % 0x1_0000;
            proof {
                vstd::arithmetic::div_mod::lemma_mod_multiples_vanish(1, acc - w, 0x1_0000);
            }
            let gcnt = self.r16u(gc + u17 * 2);
            let a2 = self.r32(p4);
            let b2 = self.r32(a2 + 4);
            let wn = self.r16u(b2);
            if gcnt > 1 && (acc2 >= 0x8000 || acc2 < wn) {
                return (true, u17);
            }
            acc = acc2;
            u17 = u17 + 1;
        }
        (false, u17)
    }
    spec fn pass_view(s: HState, p: Pass) -> GroupPass {
        GroupPass { s, la: p.la as int, ng: p.ng as int, ustk: p.ustk as int, moved: p.moved as int }
    }

    fn merge_move(&mut self, gc: i64, symt: i64, u17: i64, p: Pass) -> (r: Pass)
        requires
            0 <= gc < 0x1_0000_0000,
            0 <= symt < 0x1_0000_0000,
            pass_ok(p.la as int, p.ng as int, p.ustk as int, p.moved as int),
            p.moved < i32_max(),
            p.la + 2 <= u17 < p.ng,
        ensures
            Self::pass_view(final(self)@, r) == merge_move(Self::pass_view(old(self)@, p), gc as int, symt as int, u17 as int),
            pass_ok(r.la as int, r.ng as int, r.ustk as int, r.moved as int),
    {
        let la = p.la;
        let pgc = gc + la * 2;
        let p2 = symt + la * 4;
        let v1 = self.r16s(pgc);
        self.w16(pgc, v1 - 1);
        let la1 = la + 1;
        let p16 = p2 + 4;
        let v3 = self.r32(p16);
        self.w32(p16, v3 - 4);
        let v5 = self.r16s(gc + la1 * 2);
        self.w16(gc + la1 * 2, v5 + 2);
        let v7 = self.r32(p2 + 8);
        self.w32(p2 + 8, v7 + 4);
        let span = u17 - 1 - la1;
        let far = la1 < (u17 - 1) % 0x1_0000;
        let mut la2 = la1;
        let mut p16b = p16;
        if far {
            self.bump_run(p16, span);
            la2 = la1 + span;
            p16b = p16 + 4 * span;
        }
        let v10 = self.r16s(gc + la2 * 2);
        self.w16(gc + la2 * 2, v10 + 1);
        let v12 = self.r32(p16b + 4);
        self.w32(p16b + 4, v12 + 4);
        let v14 = self.r16s(gc + 2 + la2 * 2);
        self.w16(gc + 2 + la2 * 2, v14 - 2);
        let z = self.r16s(gc + p.ustk * 2);
        if z == 0 {
            self.w16(0x0a, p.ng - 1);
            Pass { la: 0, ng: p.ng - 1, ustk: (p.ustk - 1 + 0x1_0000) % 0x1_0000, moved: p.moved + 1 }
        } else {
            Pass { la: 0, ng: p.ng, ustk: p.ustk, moved: p.moved + 1 }
        }
    }

    fn simple_move(&mut self, gc: i64, symt: i64, p: Pass) -> (r: Pass)
        requires
            0 <= gc < 0x1_0000_0000,
            0 <= symt < 0x1_0000_0000,
            pass_ok(p.la as int, p.ng as int, p.ustk as int, p.moved as int),
            p.moved < i32_max(),
        ensures
            Self::pass_view(final(self)@, r) == simple_move(
                Self::pass_view(old(self)@, p),
                old(self)@,
                gc as int,
                symt as int,
            ),
            pass_ok(r.la as int, r.ng as int, r.ustk as int, r.moved as int),
    {
        let la = p.la;
        let pgc = gc + la * 2;
        let p2 = symt + la * 4;
        let v1 = self.r16s(pgc - 2);
        self.w16(pgc - 2, v1 + 1);
        let v3 = self.r16s(pgc);
        self.w16(pgc, v3 - 3);
        let v5 = self.r16s(gc + 2 + la * 2);
        self.w16(gc + 2 + la * 2, v5 + 2);
        let v7 = self.r32(p2);
        self.w32(p2, v7 + 4);
        let v9 = self.r32(p2 + 4);
        self.w32(p2 + 4, v9 - 8);
        if p.ustk == la {
            self.w16(0x0a, p.ng + 1);
            Pass { la: 0, ng: p.ng + 1, ustk: (p.ustk + 1) % 0x1_0000, moved: p.moved + 1 }
        } else {
            Pass { la: 0, ng: p.ng, ustk: p.ustk, moved: p.moved + 1 }
        }
    }

    fn group_step(&mut self, gc: i64, symt: i64, num: i64, p: Pass) -> (r: Pass)
        requires
            0 <= gc < 0x1_0000_0000,
            0 <= symt < 0x1_0000_0000,
            0 <= num < 0x1_0000,
            pass_ok(p.la as int, p.ng as int, p.ustk as int, p.moved as int),
            p.la < p.ng,
        ensures
            Self::pass_view(final(self)@, r) == group_step(Self::pass_view(old(self)@, p), gc as int, symt as int, num as int),
            pass_ok(r.la as int, r.ng as int, r.ustk as int, r.moved as int),
    {
        let la = p.la;
        let pgc = gc + la * 2;
        let p2 = symt + la * 4;
        let cnt = self.r16u(pgc);
        if cnt == 0 {
            return Pass { la: la + 1, ng: p.ng, ustk: p.ustk, moved: p.moved };
        }
        let p1 = self.r32(p2 + 4);
        let a = self.r32(p2);
        let b = self.r32(a);
        let w_first = self.r16u(b);
        let c = self.r32(p1 - 4);
        let w_last = self.r16u(c);
        let d = self.r32(p1 - 8);
        let w_last2 = self.r16u(d);
        if cnt < 3 || (num - 1 + 0x1_0000) % 0x1_0000 == la || w_first < w_last + w_last2 {
            proof {
                vstd::arithmetic::div_mod::lemma_mod_multiples_vanish(1, num - 1, 0x1_0000);
            }
            let e = self.r32(p1 - 4);
            let acc0 = self.r16u(e);
            let (found, u17) = self.merge_scan(gc, symt, p.ng, la + 2, acc0);
            if !found {
                Pass { la: la + 1, ng: p.ng, ustk: p.ustk, moved: p.moved }
            } else if p.moved >= 0x7FFF_FFFF {
                self.bad = true;
                Pass { la: p.la, ng: p.ng, ustk: p.ustk, moved: p.moved }
            } else {
                self.merge_move(gc, symt, u17, p)
            }
        } else {
            proof {
                vstd::arithmetic::div_mod::lemma_mod_multiples_vanish(1, num - 1, 0x1_0000);
            }
            if p.moved >= 0x7FFF_FFFF {
                self.bad = true;
                Pass { la: p.la, ng: p.ng, ustk: p.ustk, moved: p.moved }
            } else {
                let ghost s9 = self@;
                let r = self.simple_move(gc, symt, p);
                assert(Self::pass_view(s9, p).la == p.la);
                r
            }
        }
    }
    /// Block C: group rebalance from group 0 with `ng` groups; returns the moves made.
    fn rebalance(&mut self, gc: i64, symt: i64, num: i64, ng: i64) -> (moved: i64)
        requires
            0 <= gc < 0x1_0000_0000,
            0 <= symt < 0x1_0000_0000,
            0 <= num < 0x1_0000,
            0 < ng < 0x1_0000,
        ensures
            ({
                let g = rebalance(
                    GroupPass { s: old(self)@, la: 0, ng: ng as int, ustk: (ng - 1) % 0x1_0000, moved: 0 },
                    gc as int,
                    symt as int,
                    num as int,
                );
                final(self)@ == g.s && moved == g.moved
            }),
            0 <= moved <= i32_max(),
    {
        let ghost target = rebalance(
            GroupPass { s: self@, la: 0, ng: ng as int, ustk: (ng - 1) % 0x1_0000, moved: 0 },
            gc as int,
            symt as int,
            num as int,
        );
        let mut p = Pass { la: 0, ng, ustk: ng - 1, moved: 0 };
        while p.la < p.ng
            invariant_except_break
                rebalance(Self::pass_view(self@, p), gc as int, symt as int, num as int) == target,
            invariant
                0 <= gc < 0x1_0000_0000,
                0 <= symt < 0x1_0000_0000,
                0 <= num < 0x1_0000,
                pass_ok(p.la as int, p.ng as int, p.ustk as int, p.moved as int),
            ensures
                target == Self::pass_view(self@, p),
            decreases i32_max() - p.moved, p.ng - p.la,
        {
            let p2 = self.group_step(gc, symt, num, p);
            if self.bad || p2.la >= p2.ng {
                p = p2;
                break;
            }
            p = p2;
        }
        p.moved
    }

    /// The end of a rebuild: period adaptation and countdown restart.
    fn rebuild_tail(&mut self, moved: i64)
        requires
            0 <= moved <= i32_max(),
        ensures
            final(self)@ == rebuild_tail(old(self)@, moved as int),
    {
        if moved < 0x10 {
            if moved < 8 {
                let v = self.r16u(0x2e);
                if v != 1 {
                    let v1 = self.r16u(0x02);
                    self.w16(0x02, v1 * 2);
                    let v2 = self.r16u(0x2c);
                    self.w16(0x2c, v2 / 2);
                    let v3 = self.r16u(0x2e);
                    self.w16(0x2e, v3 / 2);
                }
            }
        } else {
            let v = self.r16u(0x32);
            self.w16(0x02, v);
            let v1 = self.r16u(0x30);
            self.w16(0x2e, v1);
        }
        let v = self.r16u(0x02);
        self.w16(0x00, v);
        let z = self.r16u(0x2c);
        if z == 0 {
            let v4 = self.r16u(0x2e);
            self.w16(0x2c, v4);
        }
    }

    /// Rebuilds the code after the countdown ran out.
    fn rebuild(&mut self)
        ensures
            final(self)@ == spec_rebuild(old(self)@),
    {
        let slot = self.r32(0x1c);
        let symt = self.r32(0x20);
        let gc = self.r32(0x0c);
        let n_slots = self.r16u(0x08);
        let upd = self.r16s(0x2c);
        let num = self.r16u(0x04);
        self.w16(0x2c, upd - 1);
        let halve = (upd - 1 + 0x1_0000) % 0x1_0000 == 0;
        proof {
            vstd::arithmetic::div_mod::lemma_mod_multiples_vanish(1, upd - 1, 0x1_0000);
        }
        let maxw = self.weigh(slot, n_slots, halve);
        if maxw != 0 {
            let mut t: i64 = 0x8000;
            while maxw < t && t > 1
                invariant
                    1 <= t <= 0x8000,
                    top_threshold(maxw as int, t as int) == top_threshold(maxw as int, 0x8000),
                decreases t,
            {
                t = t / 2;
            }
            self.sort_slots(slot, n_slots, t);
        }
        let ng = self.r16u(0x0a);
        let moved = if ng != 0 {
            proof {
                vstd::arithmetic::div_mod::lemma_mod_multiples_vanish(1, ng - 1, 0x1_0000);
            }
            self.rebalance(gc, symt, num, ng)
        } else {
            0
        };
        self.rebuild_tail(moved);
    }
}

} // verus!

verus! {

/// Exec counterpart of `CodecFault`.
#[derive(Debug)]
enum DecodeErr {
    Truncated,
    OffsetBeyond { offset: usize, len: usize },
    BadMagic { magic: u32 },
    Corrupt,
}

impl View for DecodeErr {
    type V = CodecFault;

    closed spec fn view(&self) -> CodecFault {
        match self {
            DecodeErr::Truncated => CodecFault::Truncated,
            DecodeErr::OffsetBeyond { offset, len } => CodecFault::OffsetBeyond { offset: *offset as int, len: *len as int },
            DecodeErr::BadMagic { magic } => CodecFault::BadMagic { magic: *magic as int },
            DecodeErr::Corrupt => CodecFault::Corrupt,
        }
    }
}

/// MSB-first bit reader. `pos` points to the byte being consumed; `bl` bits of it remain.
struct BitIn {
    pos: usize,
    end: usize,
    bl: u32,
}

impl View for BitIn {
    type V = BitState;

    closed spec fn view(&self) -> BitState {
        BitState { pos: self.pos as int, end: self.end as int, bl: self.bl as int }
    }
}

impl BitIn {
    fn new(offset: usize, end: usize) -> (b: Self)
        ensures
            b@ == (BitState { pos: offset as int, end: end as int, bl: 8 }),
    {
        BitIn { pos: offset, end, bl: 8 }
    }

    fn bit(&mut self, buf: &[u8]) -> (r: Result<u32, DecodeErr>)
        requires
            old(self).end <= buf@.len(),
            old(self).pos <= old(self).end,
        ensures
            final(self).end == old(self).end,
            final(self).pos <= final(self).end,
            r matches Ok(x) ==> x <= 1,
            match spec_bit(old(self)@, buf@) {
                Ok((b, v)) => r matches Ok(x) && x == v && final(self)@ == b && bits_left(b) < bits_left(old(self)@),
                Err(f) => r matches Err(e) && e@ == f,
            },
    {
        if self.pos >= self.end {
            return Err(DecodeErr::Truncated);
        }
        if self.bl < 1 || self.bl > 8 {
            return Err(DecodeErr::Corrupt);
        }
        let b = buf[self.pos];
        let sh = self.bl - 1;
        let v = ((b as u32) >> sh) & 1u32;
        assert(v <= 1) by (bit_vector)
            requires
                v == ((b as u32) >> sh) & 1u32,
        ;
        if self.bl == 1 {
            self.pos = self.pos + 1;
            self.bl = 8;
        } else {
            self.bl = self.bl - 1;
        }
        Ok(v)
    }

    fn bits(&mut self, n: u32, buf: &[u8]) -> (r: Result<u32, DecodeErr>)
        requires
            old(self).end <= buf@.len(),
            old(self).pos <= old(self).end,
        ensures
            final(self).end == old(self).end,
            final(self).pos <= final(self).end,
            n <= 16 ==> (r matches Ok(x) ==> x < pow2(n as nat)),
            match spec_bits(old(self)@, buf@, n as nat, 0) {
                Ok((b, v)) => r matches Ok(x) && x == v && final(self)@ == b && bits_left(b) <= bits_left(old(self)@),
                Err(f) => r matches Err(e) && e@ == f,
            },
    {
        let ghost target = spec_bits(self@, buf@, n as nat, 0);
        let ghost start = bits_left(self@);
        let mut v: u32 = 0;
        let mut i: u32 = 0;
        while i < n
            invariant
                i <= n,
                self.end <= buf@.len(),
                self.pos <= self.end,
                self.end == old(self).end,
                bits_left(self@) <= start,
                start == bits_left(old(self)@),
                target == spec_bits(old(self)@, buf@, n as nat, 0),
                spec_bits(self@, buf@, (n - i) as nat, v as int) == target,
                n <= 16 ==> v < pow2(i as nat),
                n <= 16 ==> pow2(i as nat) <= 0x1_0000,
            decreases n - i,
        {
            let x = self.bit(buf)?;
            proof {
                assert(x <= 1);
                if n <= 16 {
                    lemma_pow2_mono((i + 1) as nat, n as nat);
                    lemma_pow2_mono(n as nat, 16);
                    lemma_pow2_16();
                }
            }
            v = ((v as u64 * 2 + x as u64) % 0x1_0000_0000) as u32;
            i = i + 1;
        }
        Ok(v)
    }
}


impl HuffTree {
    /// Reads further code bytes while the window stays below the level's limit.
    fn extend_code(&mut self, bi: &mut BitIn, buf: &[u8], lim: i64, val0: i64, idx0: i64, tot0: i64) -> (r: Result<
        (i64, i64, i64),
        DecodeErr,
    >)
        requires
            old(bi).end <= buf@.len(),
            old(bi).pos < old(bi).end,
            0 <= lim < 0x1_0000_0000,
            0 <= val0 < 0x1_0000,
            1 <= tot0 <= 31,
            idx0 == tot0 - 1,
        ensures
            final(bi).end == old(bi).end,
            final(bi).bl == old(bi).bl,
            old(bi).pos <= final(bi).pos < final(bi).end,
            match extend(old(self)@, old(bi).pos as int, old(bi).end as int, buf@, lim as int, val0 as int, idx0 as int, tot0 as int) {
                Ok(e) => r matches Ok((v, i, t)) && e == (Extended { t: final(self)@, pos: final(bi).pos as int, val: v as int, idx: i as int, tot: t as int })
                    && old(bi).pos <= final(bi).pos < final(bi).end
                    && t == tot0 + 8 * (final(bi).pos - old(bi).pos)
                    && i == t - 1 && 0 <= v < 0x1_0000 && t <= 0x7FFF_FFFF,
                Err(f) => r matches Err(e) && e@ == f,
            },
    {
        let ghost target = extend(self@, bi.pos as int, bi.end as int, buf@, lim as int, val0 as int, idx0 as int, tot0 as int);
        let mut val = val0;
        let mut idx = idx0;
        let mut tot = tot0;
        loop
            invariant_except_break
                extend(self@, bi.pos as int, bi.end as int, buf@, lim as int, val as int, idx as int, tot as int)
                    == target,
            invariant
                target == extend(old(self)@, old(bi).pos as int, old(bi).end as int, buf@, lim as int, val0 as int, idx0 as int, tot0 as int),
                bi.end == old(bi).end,
                bi.bl == old(bi).bl,
                bi.end <= buf@.len(),
                old(bi).pos <= bi.pos < bi.end,
                tot == tot0 + 8 * (bi.pos - old(bi).pos),
                idx == tot - 1,
                1 <= tot <= 0x7FFF_FFFF,
                0 <= val < 0x1_0000,
                0 <= lim < 0x1_0000_0000,
            ensures
                target == Ok::<Extended, CodecFault>(
                    Extended { t: self@, pos: bi.pos as int, val: val as int, idx: idx as int, tot: tot as int },
                ),
                old(bi).pos <= bi.pos < bi.end,
                tot == tot0 + 8 * (bi.pos - old(bi).pos),
                idx == tot - 1,
                1 <= tot <= 0x7FFF_FFFF,
                0 <= val < 0x1_0000,
            decreases bi.end - bi.pos,
        {
            if bi.pos + 1 >= bi.end {
                return Err(DecodeErr::Truncated);
            }
            if tot + 8 > 0x7FFF_FFFF {
                return Err(DecodeErr::Corrupt);
            }
            bi.pos = bi.pos + 1;
            idx = idx + 8;
            tot = tot + 8;
            let nb = buf[bi.pos] as i64;
            val = (val % 256) * 256 + nb;
            let th = self.r16u(lim + idx * 8);
            if val >= th {
                break;
            }
        }
        Ok((val, idx, tot))
    }

    /// Gives trailing window bits back to the stream while the window reaches the next
    /// shorter level's limit.
    fn shrink_code(&mut self, lim: i64, val0: i64, idx0: i64, cnt0: i64) -> (r: (i64, i64, i64))
        requires
            0 <= lim < 0x1_0000_0000,
            0 <= val0 < 0x1_0000,
            -1 <= idx0 < 0x8000_0000,
            0 <= cnt0 < 256,
        ensures
            final(self)@ == old(self)@,
            0 <= r.0 < 0x1_0000,
            -256 <= r.1 < 0x8000_0000,
            0 <= r.2 <= cnt0,
            r.1 == idx0 - r.2,
            (r.0 as int, r.1 as int, r.2 as int) == shrink(old(self)@, lim as int, val0 as int, idx0 as int, cnt0 as int, 0),
    {
        let ghost sh = shrink(self@, lim as int, val0 as int, idx0 as int, cnt0 as int, 0);
        let mut val = val0;
        let mut idx = idx0;
        let mut cnt = cnt0;
        let mut back: i64 = 0;
        while cnt > 0
            invariant_except_break
                shrink(self@, lim as int, val as int, idx as int, cnt as int, back as int) == sh,
            invariant
                sh == shrink(old(self)@, lim as int, val0 as int, idx0 as int, cnt0 as int, 0),
                self@ == old(self)@,
                0 <= cnt <= cnt0 < 256,
                back + cnt == cnt0,
                0 <= back,
                0 <= val < 0x1_0000,
                idx0 - back == idx,
                -1 <= idx0 < 0x8000_0000,
                0 <= lim < 0x1_0000_0000,
            ensures
                sh == (val as int, idx as int, back as int),
                self@ == old(self)@,
            decreases cnt,
        {
            let lo = lim + 2 + idx * 8;
            let th: i64 = if self.locate(lo, 2).is_some() {
                proof {
                    lemma_get16_in_table(self@, lo as int);
                }
                self.r16u(lo)
            } else {
                0
            };
            if val < th {
                break;
            }
            idx = idx - 1;
            cnt = cnt - 1;
            val = val / 2;
            back = back + 1;
        }
        (val, idx, back)
    }

    /// Decodes one symbol from the bit stream.
    #[verifier::spinoff_prover]
    #[verifier::rlimit(30)]
    fn decode(&mut self, bi: &mut BitIn, buf: &[u8]) -> (r: Result<u32, DecodeErr>)
        requires
            old(bi).end <= buf@.len(),
            old(bi).pos <= old(bi).end,
        ensures
            final(bi).end == old(bi).end,
            final(bi).pos <= final(bi).end,
            r matches Ok(x) ==> x < 0x1_0000,
            match spec_decode(old(self)@, old(bi)@, buf@) {
                Ok((t, b, v)) => r matches Ok(x) && x == v && final(self)@ == t && final(bi)@ == b
                    && bits_left(b) < bits_left(old(bi)@),
                Err(f) => r matches Err(e) && e@ == f,
            },
    {
        if bi.pos >= bi.end {
            return Err(DecodeErr::Truncated);
        }
        if bi.bl < 1 || bi.bl > 31 {
            return Err(DecodeErr::Corrupt);
        }
        let bl = bi.bl;
        let cur = buf[bi.pos] as u32;
        assert(1u32 << bl >= 1) by (bit_vector)
            requires
                1 <= bl <= 31,
        ;
        let mask: u32 = (1u32 << bl) - 1;
        let v0: u32 = mask & cur;
        assert(v0 <= cur) by (bit_vector)
            requires
                v0 == mask & cur,
        ;
        let mut val: i64 = v0 as i64;
        let mut idx: i64 = bl as i64 - 1;
        let mut tot: i64 = bl as i64;
        let lim = self.r32(0x10);
        let first = self.r16u(lim + idx * 8);
        if val < first {
            let (v2, i2, t2) = self.extend_code(bi, buf, lim, val, idx, tot)?;
            val = v2;
            idx = i2;
            tot = t2;
        }
        proof {
            lemma_shrink_bound(self@, lim as int, val as int, idx - 1, (tot - 1) % 256, 0);
        }
        let (v3, i3, b3) = self.shrink_code(lim, val, idx - 1, (tot - 1) % 256);
        val = v3;
        idx = i3;
        let back = b3;
        let symt = self.r32(0x20);
        let level = (idx + 1 + 0x1_0000_0000) % 0x1_0000;
        proof {
            vstd::arithmetic::div_mod::lemma_mod_multiples_vanish(0x1_0000, idx + 1, 0x1_0000);
        }
        let slot_arr = self.r32(symt + level * 4);
        let lv = self.r16s(lim + level * 8);
        let k = (val - lv + 0x1_0000) % 0x1_0000;
        proof {
            vstd::arithmetic::div_mod::lemma_mod_multiples_vanish(1, val - lv, 0x1_0000);
        }
        let p = self.r32(slot_arr + k * 4);
        let ow = self.r32(0x18);
        let d = p - ow;
        let half = if d >= 0 { d / 2 } else { -((-d + 1) / 2) };
        let sym = (half + 0x1_0000_0000) % 0x1_0000;
        proof {
            assert(half as int == (d as int) / 2);
            vstd::arithmetic::div_mod::lemma_mod_multiples_vanish(0x1_0000, half as int, 0x1_0000);
        }
        if back == 0 {
            bi.pos = bi.pos + 1;
            bi.bl = 8;
        } else {
            bi.bl = back as u32;
        }
        let due = self.update_freq(sym);
        if due {
            self.rebuild();
            self.build_limits(0);
        }
        let esc = self.r16u(0x24);
        if sym == esc {
            let nb = self.r16u(0x06);
            let raw = bi.bits(nb as u32, buf)?;
            let lvl = self.add_symbol(raw as i64);
            self.build_limits(lvl);
            if self.bad {
                return Err(DecodeErr::Corrupt);
            }
            return Ok(raw % 0x1_0000);
        }
        if self.bad {
            return Err(DecodeErr::Corrupt);
        }
        Ok(sym as u32)
    }
}


/// Appends a back-reference of `n` bytes at distance `back`, stopping at `max` bytes.
fn lz_copy_exec(out: &mut Vec<u8>, back: u64, n: u64, max: usize)
    requires
        back >= 1,
    ensures
        final(out)@ == lz_copy(old(out)@, back as int, n as nat, max as int),
{
    let ghost target = lz_copy(out@, back as int, n as nat, max as int);
    let mut k: u64 = 0;
    while k < n
        invariant_except_break
            lz_copy(out@, back as int, (n - k) as nat, max as int) == target,
        invariant
            k <= n,
            back >= 1,
            target == lz_copy(old(out)@, back as int, n as nat, max as int),
        ensures
            out@ == target,
        decreases n - k,
    {
        if out.len() >= max {
            break;
        }
        let pos = out.len();
        let byte: u8 = if pos as u64 >= back && back >= 1 {
            let bk = back as usize;
            out[pos - bk]
        } else {
            0
        };
        out.push(byte);
        k = k + 1;
    }
}

spec fn lit_view(lit: Option<HuffTree>) -> Option<HState> {
    match lit {
        Some(t) => Some(t@),
        None => None,
    }
}

/// The executable decompressor state.
struct Inflater {
    bi: BitIn,
    lit: Option<HuffTree>,
    len_tree: HuffTree,
    dist_tree: HuffTree,
    out: Vec<u8>,
}

impl View for Inflater {
    type V = Dec;

    closed spec fn view(&self) -> Dec {
        Dec { b: self.bi@, lit: lit_view(self.lit), lt: self.len_tree@, dt: self.dist_tree@, out: self.out@ }
    }
}

impl Inflater {
    /// One token; `Ok(false)` at the end marker.
    fn token(&mut self, data: &[u8], db: u32, max_output: usize) -> (r: Result<bool, DecodeErr>)
        requires
            old(self).bi.end <= data@.len(),
            old(self).bi.pos <= old(self).bi.end,
            db == 6 || db == 7,
        ensures
            final(self).bi.end == old(self).bi.end,
            final(self).bi.pos <= final(self).bi.end,
            match token_step(data@, db as nat, max_output as int, old(self)@) {
                Ok(None) => r == Ok::<bool, DecodeErr>(false) && final(self)@.out == old(self)@.out,
                Ok(Some(d)) => r == Ok::<bool, DecodeErr>(true) && final(self)@ == d && bits_left(d.b) < bits_left(
                    old(self)@.b,
                ),
                Err(f) => r matches Err(e) && e@ == f,
            },
    {
        proof {
            lemma_pow2_16();
        }
        let flag = self.bi.bit(data)?;
        if flag == 0 {
            let sym = match &mut self.lit {
                Some(t) => t.decode(&mut self.bi, data)?,
                None => self.bi.bits(8, data)?,
            };
            self.out.push((sym % 256) as u8);
            Ok(true)
        } else {
            let lo = self.bi.bits(db, data)?;
            let hi = self.dist_tree.decode(&mut self.bi, data)?;
            let scale: u64 = if db == 7 { 128 } else { 64 };
            let dist: u64 = hi as u64 * scale + lo as u64;
            if dist == 0 {
                return Ok(false);
            }
            let len = self.len_tree.decode(&mut self.bi, data)?;
            lz_copy_exec(&mut self.out, dist + 1, (len % 128) as u64, max_output);
            Ok(true)
        }
    }
}

/// Decompresses the payload; the model of the result is `spec_decompress`.
fn inflate(data: &[u8], offset: usize, size: usize, max_output: usize) -> (r: Result<Vec<u8>, DecodeErr>)
    ensures
        match spec_decompress(data@, offset as int, size as int, max_output as int) {
            Ok(out) => r matches Ok(v) && v@ == out,
            Err(f) => r matches Err(e) && e@ == f,
        },
{
    if offset >= data.len() {
        return Err(DecodeErr::OffsetBeyond { offset, len: data.len() });
    }
    let end = if size > 0 && size < data.len() - offset {
        offset + size
    } else {
        data.len()
    };
    let mut bi = BitIn::new(offset, end);
    let magic = bi.bits(16, data)?;
    if magic != 0xB59C {
        return Err(DecodeErr::BadMagic { magic });
    }
    let use_raw = bi.bits(8, data)?;
    let _reserved = bi.bits(8, data)?;
    let init_period = bi.bits(12, data)?;
    let upd_period = bi.bits(12, data)?;
    let wflag = bi.bits(4, data)?;
    proof {
        lemma_pow2_16();
    }
    let db: u32 = if wflag == 8 { 7 } else { 6 };
    let lit: Option<HuffTree> = if use_raw == 0 {
        Some(HuffTree::new(8, 0x10, init_period as i64, upd_period as i64))
    } else {
        None
    };
    let len_tree = HuffTree::new(6, 0x0C, init_period as i64, upd_period as i64);
    let dist_tree = HuffTree::new(6, 0x0C, init_period as i64, upd_period as i64);
    let mut st = Inflater { bi, lit, len_tree, dist_tree, out: Vec::new() };
    let ghost target = spec_decompress(data@, offset as int, size as int, max_output as int);
    assert(target == spec_tokens(data@, db as nat, max_output as int, st@));
    loop
        invariant_except_break
            spec_tokens(data@, db as nat, max_output as int, st@) == target,
        invariant
            target == spec_decompress(data@, offset as int, size as int, max_output as int),
            st.bi.end <= data@.len(),
            st.bi.pos <= st.bi.end,
            db == 6 || db == 7,
        ensures
            target == Ok::<Seq<u8>, CodecFault>(st.out@),
        decreases bits_left(st@.b),
    {
        if st.out.len() >= max_output {
            break;
        }
        let more = st.token(data, db, max_output)?;
        if !more {
            break;
        }
    }
    Ok(st.out)
}

/// The text that a payload offset past the data is reported with: the offset in
/// hexadecimal, the length in decimal.
pub open spec fn offset_beyond_text(offset: usize, len: usize) -> Seq<char> {
    "offset 0x"@ + hex_text(offset as nat) + " beyond data length "@ + dec_text(len as nat)
}

/// The text that a wrong diff magic is reported with: the magic in hexadecimal padded to
/// 4 digits, then the expected magic.
pub open spec fn bad_magic_text(magic: u32) -> Seq<char> {
    "bad diff magic: 0x"@ + zero_pad(hex_text(magic as nat), 4) + " (want 0xB59C)"@
}

/// Formats "offset 0x{offset:x} beyond data length {len}" with `format!`.
/// The contract states the text that these format specifiers produce.
#[verifier::external_body]
fn format_offset_beyond(offset: usize, len: usize) -> (s: String)
    ensures
        s@ == offset_beyond_text(offset, len),
{
    format!("offset 0x{offset:x} beyond data length {len}")
}

/// Formats "bad diff magic: 0x{magic:04x} (want 0xB59C)" with `format!`.
/// The contract states the text that this format specifier produces.
#[verifier::external_body]
fn format_bad_magic(magic: u32) -> (s: String)
    ensures
        s@ == bad_magic_text(magic),
{
    format!("bad diff magic: 0x{magic:04x} (want 0xB59C)")
}

/// The message that a decompression fault is reported with.
pub open spec fn codec_fault_text(f: CodecFault) -> Seq<char> {
    match f {
        CodecFault::Truncated => "bitstream truncated"@,
        CodecFault::OffsetBeyond { offset, len } => offset_beyond_text(offset as usize, len as usize),
        CodecFault::BadMagic { magic } => bad_magic_text(magic as u32),
        CodecFault::Corrupt => "diff code tables corrupt"@,
    }
}

/// Decompress a MODIFY record's compressed diff payload.
///
/// The payload is the `size` bytes at `offset` (to the end of `data` when `size` is 0 or
/// reaches past it); decompression stops at the end marker or once `max_output` bytes
/// are out, and the result is the opcode stream.
pub fn decompress(data: &[u8], offset: usize, size: usize, max_output: usize) -> (r: Result<Vec<u8>, String>)
    ensures
        match spec_decompress(data@, offset as int, size as int, max_output as int) {
            Ok(out) => r matches Ok(v) && v@ == out,
            Err(f) => r matches Err(e) && e@ == codec_fault_text(f),
        },
{
    match inflate(data, offset, size, max_output) {
        Ok(v) => Ok(v),
        Err(e) => Err(
            match e {
                DecodeErr::Truncated => "bitstream truncated".to_owned(),
                DecodeErr::OffsetBeyond { offset, len } => format_offset_beyond(offset, len),
                DecodeErr::BadMagic { magic } => format_bad_magic(magic),
                DecodeErr::Corrupt => "diff code tables corrupt".to_owned(),
            },
        ),
    }
}

} // verus!
