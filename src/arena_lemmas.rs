use vstd::prelude::*;
use crate::arena::{FreeBlock, covered, total_len, span, blocks_ordered, blocks_within, align_up};
use vstd::arithmetic::div_mod::{lemma_fundamental_div_mod, lemma_mod_multiples_basic, lemma_mod_pos_bound};

verus! {

pub proof fn lemma_covered_concat(a: Seq<FreeBlock>, b: Seq<FreeBlock>)
    ensures
        covered(a + b) == covered(a).union(covered(b)),
        total_len(a + b) == total_len(a) + total_len(b),
    decreases b.len(),
{
    if b.len() == 0 {
        assert(a + b =~= a);
        assert(covered(a).union(covered(b)) =~= covered(a));
    } else {
        lemma_covered_concat(a, b.drop_last());
        assert((a + b).drop_last() =~= a + b.drop_last());
        assert((a + b).last() == b.last());
        assert(covered(a + b) =~= covered(a).union(covered(b)));
    }
}

pub proof fn lemma_covered_single(b: FreeBlock)
    ensures
        covered(seq![b]) == span(b.start as int, b.len as int),
        total_len(seq![b]) == b.len,
{
    reveal_with_fuel(covered, 2);
    reveal_with_fuel(total_len, 2);
    assert(seq![b].drop_last() =~= Seq::<FreeBlock>::empty());
    assert(covered(seq![b]) =~= span(b.start as int, b.len as int));
}

/// A block of length zero may be left out of a list without changing it.
pub open spec fn optional_block(b: FreeBlock) -> Seq<FreeBlock> {
    if b.len > 0 {
        seq![b]
    } else {
        Seq::empty()
    }
}

pub proof fn lemma_covered_optional(b: FreeBlock)
    ensures
        covered(optional_block(b)) == span(b.start as int, b.len as int),
        total_len(optional_block(b)) == b.len,
{
    if b.len > 0 {
        lemma_covered_single(b);
    } else {
        assert(covered(Seq::<FreeBlock>::empty()) =~= span(b.start as int, b.len as int));
    }
}

pub proof fn lemma_total_nonneg(s: Seq<FreeBlock>)
    ensures
        total_len(s) >= 0,
    decreases s.len(),
{
    if s.len() > 0 {
        lemma_total_nonneg(s.drop_last());
    }
}

pub proof fn lemma_total_at_least_block(s: Seq<FreeBlock>, k: int)
    requires
        0 <= k < s.len(),
    ensures
        total_len(s) >= s[k].len,
    decreases s.len(),
{
    lemma_total_nonneg(s.drop_last());
    if k < s.len() - 1 {
        lemma_total_at_least_block(s.drop_last(), k);
    }
}

pub proof fn lemma_covered_has(s: Seq<FreeBlock>, k: int, a: int)
    requires
        0 <= k < s.len(),
        s[k].start <= a < s[k].end(),
    ensures
        covered(s).contains(a),
    decreases s.len(),
{
    if k < s.len() - 1 {
        lemma_covered_has(s.drop_last(), k, a);
    }
}

pub proof fn lemma_covered_within(s: Seq<FreeBlock>, lo: int, hi: int)
    requires
        forall|i: int| 0 <= i < s.len() ==> lo <= (#[trigger] s[i]).start && s[i].end() <= hi,
    ensures
        forall|a: int| covered(s).contains(a) ==> lo <= a < hi,
    decreases s.len(),
{
    if s.len() > 0 {
        let t = s.drop_last();
        assert forall|i: int| 0 <= i < t.len() implies lo <= (#[trigger] t[i]).start && t[i].end() <= hi by {
            assert(t[i] == s[i]);
        }
        lemma_covered_within(t, lo, hi);
        let l = s[s.len() - 1];
        assert(lo <= l.start && l.end() <= hi);
        assert forall|a: int| covered(s).contains(a) implies lo <= a < hi by {
            assert(covered(s) == covered(t).union(span(l.start as int, l.len as int)));
            if !covered(t).contains(a) {
                assert(span(l.start as int, l.len as int).contains(a));
            }
        }
    }
}

pub proof fn lemma_total_bound(s: Seq<FreeBlock>, lo: int, hi: int)
    requires
        blocks_ordered(s),
        blocks_within(s, lo, hi),
        lo <= hi,
    ensures
        0 <= total_len(s) <= hi - lo,
    decreases s.len(),
{
    if s.len() > 0 {
        let t = s.drop_last();
        let last = s.len() - 1;
        assert(blocks_ordered(t)) by {
            assert forall|i: int, j: int| 0 <= i < j < t.len() implies (#[trigger] t[i]).end() <= (#[trigger] t[j]).start by {
                assert(t[i] == s[i] && t[j] == s[j]);
            }
        }
        assert(blocks_within(t, lo, s[last].start as int)) by {
            assert forall|i: int| 0 <= i < t.len() implies lo <= (#[trigger] t[i]).start && t[i].len > 0 && t[i].end() <= s[last].start by {
                assert(t[i] == s[i]);
                assert(s[i].end() <= s[last].start);
            }
        }
        lemma_total_bound(t, lo, s[last].start as int);
    }
}

/// Replacing the blocks `i .. k` of an ordered list by an ordered run that
/// lies between the blocks around it keeps the list ordered and in bounds.
pub proof fn lemma_splice(s: Seq<FreeBlock>, i: int, k: int, mid: Seq<FreeBlock>, lo: int, hi: int, base: int, top: int)
    requires
        blocks_ordered(s),
        blocks_within(s, base, top),
        0 <= i <= k <= s.len(),
        blocks_ordered(mid),
        blocks_within(mid, base, top),
        forall|j: int| 0 <= j < i ==> (#[trigger] s[j]).end() <= lo,
        forall|j: int| k <= j < s.len() ==> hi <= (#[trigger] s[j]).start,
        forall|j: int| 0 <= j < mid.len() ==> lo <= (#[trigger] mid[j]).start && mid[j].end() <= hi,
    ensures
        blocks_ordered(s.subrange(0, i) + mid + s.subrange(k, s.len() as int)),
        blocks_within(s.subrange(0, i) + mid + s.subrange(k, s.len() as int), base, top),
{
    let n = s.subrange(0, i) + mid + s.subrange(k, s.len() as int);
    let m = mid.len();
    assert forall|x: int| 0 <= x < n.len() implies (x < i ==> n[x] == s[x]) && (i <= x < i + m ==> n[x] == mid[x - i])
        && (i + m <= x ==> n[x] == s[x - i - m + k]) by {}
    assert forall|x: int, y: int| 0 <= x < y < n.len() implies (#[trigger] n[x]).end() <= (#[trigger] n[y]).start by {
        if x < i {
            if y < i {
            } else if y < i + m {
            } else {
                assert(s[x].end() <= s[y - i - m + k].start);
            }
        } else if x < i + m {
            if y < i + m {
                assert(mid[x - i].end() <= mid[y - i].start);
            } else {
            }
        } else {
            assert(s[x - i - m + k].end() <= s[y - i - m + k].start);
        }
    }
    assert forall|x: int| 0 <= x < n.len() implies base <= (#[trigger] n[x]).start && n[x].len > 0 && n[x].end() <= top by {
        if x < i {
        } else if x < i + m {
        } else {
            assert(n[x] == s[x - i - m + k]);
        }
    }
}

/// Cutting `size` bytes at `p` out of block `i` leaves the blocks before and
/// after the cut in its place.
pub proof fn lemma_cut(s: Seq<FreeBlock>, i: int, p: int, size: int, base: int, top: int)
    requires
        blocks_ordered(s),
        blocks_within(s, base, top),
        0 <= i < s.len(),
        s[i].start <= p,
        0 <= size,
        p + size <= s[i].end(),
        top <= usize::MAX,
    ensures
        ({
            let b = s[i];
            let left = FreeBlock { start: b.start, len: (p - b.start) as usize };
            let right = FreeBlock { start: (p + size) as usize, len: (b.end() - p - size) as usize };
            let n = s.subrange(0, i) + (optional_block(left) + optional_block(right)) + s.subrange(i + 1, s.len() as int);
            &&& blocks_ordered(n)
            &&& blocks_within(n, base, top)
            &&& covered(n) == covered(s).difference(span(p, size))
            &&& span(p, size).subset_of(covered(s))
            &&& total_len(n) == total_len(s) - size
        }),
{
    let b = s[i];
    let left = FreeBlock { start: b.start, len: (p - b.start) as usize };
    let right = FreeBlock { start: (p + size) as usize, len: (b.end() - p - size) as usize };
    let pre = s.subrange(0, i);
    let post = s.subrange(i + 1, s.len() as int);
    let mid = optional_block(left) + optional_block(right);
    assert(s =~= pre + seq![b] + post);
    lemma_covered_concat(pre, seq![b]);
    lemma_covered_concat(pre + seq![b], post);
    lemma_covered_single(b);
    lemma_covered_optional(left);
    lemma_covered_optional(right);
    lemma_covered_concat(optional_block(left), optional_block(right));
    lemma_covered_concat(pre, mid);
    lemma_covered_concat(pre + mid, post);
    assert forall|j: int| 0 <= j < pre.len() implies base <= (#[trigger] pre[j]).start && pre[j].end() <= b.start by {
        assert(pre[j] == s[j]);
    }
    lemma_covered_within(pre, base, b.start as int);
    assert forall|j: int| 0 <= j < post.len() implies b.end() <= (#[trigger] post[j]).start && post[j].end() <= top by {
        assert(post[j] == s[i + 1 + j]);
    }
    lemma_covered_within(post, b.end(), top);
    assert(blocks_ordered(mid) && blocks_within(mid, base, top) && forall|j: int|
        0 <= j < mid.len() ==> b.start <= (#[trigger] mid[j]).start && mid[j].end() <= b.end()) by {
        if left.len > 0 && right.len > 0 {
            assert(mid =~= seq![left, right]);
        } else if left.len > 0 {
            assert(mid =~= seq![left]);
        } else if right.len > 0 {
            assert(mid =~= seq![right]);
        } else {
            assert(mid =~= Seq::<FreeBlock>::empty());
        }
    }
    lemma_splice(s, i, i + 1, mid, b.start as int, b.end(), base, top);
    assert(covered(pre + mid + post) =~= covered(s).difference(span(p, size)));
}

pub proof fn lemma_align_up(a: int, align: int)
    requires
        0 <= a,
        align > 0,
    ensures
        align_up(a, align) % align == 0,
        a <= align_up(a, align) < a + align,
{
    lemma_mod_pos_bound(a, align);
    lemma_fundamental_div_mod(a, align);
    if a % align != 0 {
        assert(align_up(a, align) == (a / align + 1) * align) by (nonlinear_arith)
            requires
                a == align * (a / align) + a % align,
                align_up(a, align) == a + (align - a % align),
        ;
        lemma_mod_multiples_basic(a / align + 1, align);
    }
}

/// The block that `addr .. addr + size` becomes once merged with the blocks
/// right before (`prev`) and right after (`next`) it, as they touch it.
pub open spec fn merged_block(s: Seq<FreeBlock>, i: int, addr: int, size: int, prev: bool, next: bool) -> FreeBlock {
    let start = if prev { s[i - 1].start as int } else { addr };
    let end = if next { s[i].end() } else { addr + size };
    FreeBlock { start: start as usize, len: (end - start) as usize }
}

pub open spec fn merged_list(s: Seq<FreeBlock>, i: int, addr: int, size: int, prev: bool, next: bool) -> Seq<FreeBlock> {
    let lo = if prev { i - 1 } else { i };
    let hi = if next { i + 1 } else { i };
    s.subrange(0, lo) + seq![merged_block(s, i, addr, size, prev, next)] + s.subrange(hi, s.len() as int)
}

/// The blocks that a returned run touches, together with the run, make one
/// block.
proof fn lemma_merge_run(s: Seq<FreeBlock>, i: int, addr: int, size: int, prev: bool, next: bool)
    requires
        0 <= i <= s.len(),
        size > 0,
        0 <= addr,
        prev ==> i > 0 && s[i - 1].end() == addr,
        next ==> i < s.len() && addr + size == s[i].start,
    ensures
        ({
            let lo = if prev { i - 1 } else { i };
            let hi = if next { i + 1 } else { i };
            let st = if prev { s[i - 1].start as int } else { addr };
            let en = if next { s[i].end() } else { addr + size };
            &&& covered(s.subrange(lo, hi)).union(span(addr, size)) == span(st, en - st)
            &&& total_len(s.subrange(lo, hi)) + size == en - st
        }),
{
    let lo = if prev { i - 1 } else { i };
    let hi = if next { i + 1 } else { i };
    let old_mid = s.subrange(lo, hi);
    let st = if prev { s[i - 1].start as int } else { addr };
    let en = if next { s[i].end() } else { addr + size };
    let ms = span(st, en - st);
    let a = span(addr, size);
    assert(covered(old_mid).union(a) =~= ms && total_len(old_mid) + size == en - st) by {
        if prev && next {
            assert(old_mid =~= seq![s[i - 1], s[i]]);
            reveal_with_fuel(covered, 3);
            reveal_with_fuel(total_len, 3);
            assert(old_mid.drop_last() =~= seq![s[i - 1]]);
            assert(old_mid.drop_last().drop_last() =~= Seq::<FreeBlock>::empty());
            assert(covered(old_mid) =~= span(s[i - 1].start as int, s[i - 1].len as int).union(
                span(s[i].start as int, s[i].len as int)));
            assert(covered(old_mid).union(a) =~= ms);
        } else if prev {
            assert(old_mid =~= seq![s[i - 1]]);
            lemma_covered_single(s[i - 1]);
            assert(covered(old_mid).union(a) =~= ms);
        } else if next {
            assert(old_mid =~= seq![s[i]]);
            lemma_covered_single(s[i]);
            assert(covered(old_mid).union(a) =~= ms);
        } else {
            assert(old_mid =~= Seq::<FreeBlock>::empty());
            assert(covered(old_mid).union(a) =~= ms);
        }
    }
}

/// Putting `addr .. addr + size` back between blocks `i - 1` and `i`, merged
/// with the neighbours it touches.
pub proof fn lemma_put_back(s: Seq<FreeBlock>, i: int, addr: int, size: int, prev: bool, next: bool, base: int, top: int)
    requires
        blocks_ordered(s),
        blocks_within(s, base, top),
        0 <= i <= s.len(),
        size > 0,
        base <= addr,
        addr + size <= top,
        top <= usize::MAX,
        0 <= base,
        forall|j: int| 0 <= j < i ==> (#[trigger] s[j]).end() <= addr,
        forall|j: int| i <= j < s.len() ==> addr + size <= (#[trigger] s[j]).start,
        prev <==> (i > 0 && s[i - 1].end() == addr),
        next <==> (i < s.len() && addr + size == s[i].start),
    ensures
        blocks_ordered(merged_list(s, i, addr, size, prev, next)),
        blocks_within(merged_list(s, i, addr, size, prev, next), base, top),
        covered(merged_list(s, i, addr, size, prev, next)) == covered(s).union(span(addr, size)),
        total_len(merged_list(s, i, addr, size, prev, next)) == total_len(s) + size,
{
    let lo = if prev { i - 1 } else { i };
    let hi = if next { i + 1 } else { i };
    let m = merged_block(s, i, addr, size, prev, next);
    let pre = s.subrange(0, lo);
    let old_mid = s.subrange(lo, hi);
    let post = s.subrange(hi, s.len() as int);
    assert(s =~= pre + old_mid + post);
    lemma_covered_concat(pre, old_mid);
    lemma_covered_concat(pre + old_mid, post);
    lemma_covered_concat(pre, seq![m]);
    lemma_covered_concat(pre + seq![m], post);
    lemma_covered_single(m);
    let st = if prev { s[i - 1].start as int } else { addr };
    let en = if next { s[i].end() } else { addr + size };
    if prev {
        assert(base <= s[i - 1].start);
    }
    if next {
        assert(s[i].end() <= top);
    }
    assert(m.start == st && m.end() == en && m.len > 0);
    lemma_merge_run(s, i, addr, size, prev, next);
    assert forall|j: int| 0 <= j < lo implies (#[trigger] s[j]).end() <= m.start by {
        if prev {
            assert(s[j].end() <= s[i - 1].start);
        }
    }
    assert forall|j: int| hi <= j < s.len() implies m.end() <= (#[trigger] s[j]).start by {
        if next {
            assert(s[i].end() <= s[j].start);
        }
    }
    assert(blocks_within(seq![m], base, top));
    lemma_splice(s, lo, hi, seq![m], m.start as int, m.end(), base, top);
    assert(covered(merged_list(s, i, addr, size, prev, next)) =~= covered(s).union(span(addr, size)));
}

/// A run that no free block covers fits between the last block that starts
/// below it and the first block that does not.
pub proof fn lemma_gap(s: Seq<FreeBlock>, i: int, addr: int, size: int)
    requires
        blocks_ordered(s),
        0 <= i <= s.len(),
        size > 0,
        forall|j: int| 0 <= j < i ==> (#[trigger] s[j]).start < addr,
        i < s.len() ==> s[i].start >= addr,
        forall|j: int| 0 <= j < s.len() ==> (#[trigger] s[j]).len > 0,
        span(addr, size).disjoint(covered(s)),
    ensures
        forall|j: int| 0 <= j < i ==> (#[trigger] s[j]).end() <= addr,
        forall|j: int| i <= j < s.len() ==> addr + size <= (#[trigger] s[j]).start,
{
    assert(span(addr, size).contains(addr));
    if i > 0 {
        if s[i - 1].end() > addr {
            lemma_covered_has(s, i - 1, addr);
        }
    }
    assert forall|j: int| 0 <= j < i implies (#[trigger] s[j]).end() <= addr by {
        if j < i - 1 {
            assert(s[j].end() <= s[i - 1].start);
        }
    }
    if i < s.len() {
        if s[i].start < addr + size {
            lemma_covered_has(s, i, s[i].start as int);
            assert(span(addr, size).contains(s[i].start as int));
        }
    }
    assert forall|j: int| i <= j < s.len() implies addr + size <= (#[trigger] s[j]).start by {
        if j > i {
            assert(s[i].end() <= s[j].start);
        }
    }
}

} // verus!
