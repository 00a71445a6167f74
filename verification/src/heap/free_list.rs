use vstd::prelude::*;

use crate::heap::block::{
    extracted_addr, lemma_offset_is_whole_headers, logical_extract_spec, remaining_blocks, Block,
    BlockLayout, BlockSize, BLOCK_HEADER_SIZE,
};

verus! {

/// Every block is well formed.
pub open spec fn blocks_wf(s: Seq<Block>) -> bool {
    forall|i: int| 0 <= i < s.len() ==> (#[trigger] s[i]).wf()
}

/// Blocks are in strictly increasing address order, with a gap between neighbours.
pub open spec fn blocks_sorted(s: Seq<Block>) -> bool {
    forall|i: int, j: int| #![trigger s[i], s[j]] 0 <= i < j < s.len() ==> s[i].end() < s[j].addr
}

/// A well-formed free list.
pub open spec fn free_list_wf(s: Seq<Block>) -> bool {
    &&& blocks_wf(s)
    &&& blocks_sorted(s)
}

/// Every block of the list ends at or before `bound`.
pub open spec fn blocks_below(s: Seq<Block>, bound: int) -> bool {
    forall|i: int| 0 <= i < s.len() ==> (#[trigger] s[i]).end() <= bound
}

/// Address `x` lies in some block of the list.
pub open spec fn in_free(s: Seq<Block>, x: int) -> bool {
    exists|i: int| 0 <= i < s.len() && (#[trigger] s[i]).addr <= x < s[i].end()
}

/// `b` shares no byte with any block of the list.
pub open spec fn no_overlap(s: Seq<Block>, b: Block) -> bool {
    forall|i: int| 0 <= i < s.len() ==> (#[trigger] s[i]).end() <= b.addr || b.end() <= s[i].addr
}

/// Number of leading blocks that start at or before `p`: where a block at `p` goes.
pub open spec fn insertion_index(s: Seq<Block>, p: int) -> int
    decreases s.len(),
{
    if s.len() == 0 || s[0].addr > p {
        0
    } else {
        1 + insertion_index(s.drop_first(), p)
    }
}

/// The two blocks as one, when `a` ends where `b` starts.
pub open spec fn joined(a: Block, b: Block) -> Block {
    Block { addr: a.addr, size: BlockSize { bytes: (a.size.bytes + b.size.bytes) as usize } }
}

/// The list after `b` is put back into it: inserted in address order and merged with
/// the neighbour before it and the neighbour after it when they touch.
pub open spec fn merge_into(s: Seq<Block>, b: Block) -> Seq<Block> {
    let i = insertion_index(s, b.addr as int);
    let joins_next = i < s.len() && b.end() == s[i].addr;
    let mid = if joins_next {
        joined(b, s[i])
    } else {
        b
    };
    let rest = if joins_next {
        s.skip(i + 1)
    } else {
        s.skip(i)
    };
    if 0 < i && s[i - 1].end() == b.addr {
        s.take(i - 1).push(joined(s[i - 1], mid)) + rest
    } else {
        s.take(i).push(mid) + rest
    }
}

/// The list with block `i` replaced by the blocks `r`.
pub open spec fn splice(s: Seq<Block>, i: int, r: Seq<Block>) -> Seq<Block> {
    s.take(i) + r + s.skip(i + 1)
}

/// An address is free in two lists put end to end exactly when it is free in one of them.
pub proof fn lemma_in_free_concat(a: Seq<Block>, b: Seq<Block>, x: int)
    ensures
        in_free(a + b, x) <==> in_free(a, x) || in_free(b, x),
{
    let ab = a + b;
    if in_free(ab, x) {
        let k = choose|k: int| 0 <= k < ab.len() && (#[trigger] ab[k]).addr <= x < ab[k].end();
        if k < a.len() {
            assert(a[k] == ab[k]);
        } else {
            assert(b[k - a.len()] == ab[k]);
        }
    }
    if in_free(a, x) {
        let k = choose|k: int| 0 <= k < a.len() && (#[trigger] a[k]).addr <= x < a[k].end();
        assert(ab[k] == a[k]);
    }
    if in_free(b, x) {
        let k = choose|k: int| 0 <= k < b.len() && (#[trigger] b[k]).addr <= x < b[k].end();
        assert(ab[k + a.len()] == b[k]);
    }
}

/// An address is free in a one-block list exactly when the block holds it.
pub proof fn lemma_in_free_single(b: Block, x: int)
    ensures
        in_free(seq![b], x) <==> b.addr <= x < b.end(),
{
    let s = seq![b];
    if b.addr <= x < b.end() {
        assert(s[0] == b);
    }
}

proof fn lemma_in_free_split(s: Seq<Block>, i: int, x: int)
    requires
        0 <= i < s.len(),
    ensures
        in_free(s, x) <==> in_free(s.take(i), x) || (s[i].addr <= x < s[i].end()) || in_free(
            s.skip(i + 1),
            x,
        ),
{
    assert(s =~= s.take(i) + seq![s[i]] + s.skip(i + 1));
    lemma_in_free_concat(s.take(i) + seq![s[i]], s.skip(i + 1), x);
    lemma_in_free_concat(s.take(i), seq![s[i]], x);
    lemma_in_free_single(s[i], x);
}

/// Joining a sorted list, a block and a sorted list keeps the order when the pieces
/// are apart.
proof fn lemma_sorted_join(a: Seq<Block>, m: Block, c: Seq<Block>)
    requires
        free_list_wf(a),
        free_list_wf(c),
        m.wf(),
        a.len() > 0 ==> a.last().end() < m.addr,
        c.len() > 0 ==> m.end() < c[0].addr,
    ensures
        free_list_wf(a.push(m) + c),
{
    let r = a.push(m) + c;
    let la = a.len() as int;
    assert forall|i: int| 0 <= i < r.len() implies (#[trigger] r[i]).wf() by {
        if i < la {
            assert(r[i] == a[i]);
        } else if i == la {
            assert(r[i] == m);
        } else {
            assert(r[i] == c[i - la - 1]);
        }
    }
    assert forall|i: int, j: int| #![trigger r[i], r[j]] 0 <= i < j < r.len() implies r[i].end()
        < r[j].addr by {
        if j < la {
            assert(r[i] == a[i] && r[j] == a[j]);
        } else if j == la {
            assert(r[i] == a[i]);
            assert(r[j] == m);
            if i < la - 1 {
                assert(a[i].end() < a[la - 1].addr);
            }
            assert(a[la - 1].wf());
        } else {
            let jj = j - la - 1;
            assert(r[j] == c[jj]);
            assert(c[0].wf());
            if jj > 0 {
                assert(c[0].end() < c[jj].addr);
            }
            if i == la {
                assert(r[i] == m);
            } else if i < la {
                assert(r[i] == a[i]);
                if i < la - 1 {
                    assert(a[i].end() < a[la - 1].addr);
                }
                assert(a[la - 1].wf());
            } else {
                assert(r[i] == c[i - la - 1]);
            }
        }
    }
}

proof fn lemma_sorted_sub(s: Seq<Block>, lo: int, hi: int)
    requires
        free_list_wf(s),
        0 <= lo <= hi <= s.len(),
    ensures
        free_list_wf(s.subrange(lo, hi)),
{
    let t = s.subrange(lo, hi);
    assert forall|i: int, j: int| #![trigger t[i], t[j]] 0 <= i < j < t.len() implies t[i].end()
        < t[j].addr by {
        assert(t[i] == s[lo + i] && t[j] == s[lo + j]);
    }
    assert forall|i: int| 0 <= i < t.len() implies (#[trigger] t[i]).wf() by {
        assert(t[i] == s[lo + i]);
    }
}

/// The insertion index is where the addresses pass `p`.
pub proof fn lemma_insertion_index(s: Seq<Block>, p: int, i: int)
    requires
        0 <= i <= s.len(),
        forall|j: int| 0 <= j < i ==> (#[trigger] s[j]).addr <= p,
        i < s.len() ==> s[i].addr > p,
    ensures
        insertion_index(s, p) == i,
    decreases i,
{
    if i > 0 {
        let t = s.drop_first();
        assert forall|j: int| 0 <= j < i - 1 implies (#[trigger] t[j]).addr <= p by {
            assert(t[j] == s[j + 1]);
        }
        if i - 1 < t.len() {
            assert(t[i - 1] == s[i]);
        }
        lemma_insertion_index(t, p, i - 1);
    }
}

/// The insertion index of a sorted list splits it into the blocks before `p` and after it.
pub proof fn lemma_insertion_index_bounds(s: Seq<Block>, p: int)
    requires
        blocks_sorted(s),
        blocks_wf(s),
    ensures
        0 <= insertion_index(s, p) <= s.len(),
        forall|j: int| 0 <= j < insertion_index(s, p) ==> (#[trigger] s[j]).addr <= p,
        forall|j: int| insertion_index(s, p) <= j < s.len() ==> (#[trigger] s[j]).addr > p,
    decreases s.len(),
{
    if s.len() > 0 && s[0].addr <= p {
        let t = s.drop_first();
        lemma_sorted_sub(s, 1, s.len() as int);
        assert(t =~= s.subrange(1, s.len() as int));
        lemma_insertion_index_bounds(t, p);
        let k = insertion_index(s, p);
        assert forall|j: int| 0 <= j < k implies (#[trigger] s[j]).addr <= p by {
            if j > 0 {
                assert(s[j] == t[j - 1]);
            }
        }
        assert forall|j: int| k <= j < s.len() implies (#[trigger] s[j]).addr > p by {
            assert(s[j] == t[j - 1]);
        }
    } else if s.len() > 0 {
        assert forall|j: int| 0 <= j < s.len() implies (#[trigger] s[j]).addr > p by {
            if j > 0 {
                assert(s[0].end() < s[j].addr);
                assert(s[0].wf());
            }
        }
    }
}

/// Where the inserted block lands, and that it sits apart from its neighbours.
proof fn lemma_merge_setup(s: Seq<Block>, b: Block)
    requires
        free_list_wf(s),
        b.wf(),
        no_overlap(s, b),
    ensures
        0 <= insertion_index(s, b.addr as int) <= s.len(),
        insertion_index(s, b.addr as int) > 0 ==> s[insertion_index(s, b.addr as int) - 1].end()
            <= b.addr,
        insertion_index(s, b.addr as int) < s.len() ==> b.end() <= s[insertion_index(
            s,
            b.addr as int,
        )].addr,
{
    let i = insertion_index(s, b.addr as int);
    lemma_insertion_index_bounds(s, b.addr as int);
    if i > 0 {
        assert(s[i - 1].addr <= b.addr);
    }
    if i < s.len() {
        assert(s[i].addr > b.addr);
    }
}

/// The block that goes in between the untouched front and rest of the list.
pub open spec fn merge_mid(s: Seq<Block>, b: Block) -> Block {
    let i = insertion_index(s, b.addr as int);
    let joins_next = i < s.len() && b.end() == s[i].addr;
    let mid = if joins_next {
        joined(b, s[i])
    } else {
        b
    };
    if 0 < i && s[i - 1].end() == b.addr {
        joined(s[i - 1], mid)
    } else {
        mid
    }
}

/// Where the untouched rest of the list starts.
pub open spec fn merge_rest_start(s: Seq<Block>, b: Block) -> int {
    let i = insertion_index(s, b.addr as int);
    if i < s.len() && b.end() == s[i].addr {
        i + 1
    } else {
        i
    }
}

/// Where the untouched front of the list ends.
pub open spec fn merge_front_end(s: Seq<Block>, b: Block) -> int {
    let i = insertion_index(s, b.addr as int);
    if 0 < i && s[i - 1].end() == b.addr {
        i - 1
    } else {
        i
    }
}

proof fn lemma_merge_shape(s: Seq<Block>, b: Block)
    requires
        free_list_wf(s),
        b.wf(),
        no_overlap(s, b),
    ensures
        merge_into(s, b) == s.take(merge_front_end(s, b)).push(merge_mid(s, b)) + s.skip(
            merge_rest_start(s, b),
        ),
        0 <= merge_front_end(s, b) <= merge_rest_start(s, b) <= s.len(),
        merge_rest_start(s, b) - merge_front_end(s, b) <= 2,
        merge_mid(s, b).wf(),
        merge_mid(s, b).addr <= b.addr,
        b.end() <= merge_mid(s, b).end(),
        merge_front_end(s, b) > 0 ==> s[merge_front_end(s, b) - 1].end() < merge_mid(s, b).addr,
        merge_rest_start(s, b) < s.len() ==> merge_mid(s, b).end() < s[merge_rest_start(
            s,
            b,
        )].addr,
        forall|k: int|
            merge_front_end(s, b) <= k < merge_rest_start(s, b) ==> merge_mid(s, b).addr <= (
            #[trigger] s[k]).addr && s[k].end() <= merge_mid(s, b).end(),
{
    lemma_merge_setup(s, b);
    let i = insertion_index(s, b.addr as int);
    let n = s.len() as int;
    let f = merge_front_end(s, b);
    let r = merge_rest_start(s, b);
    let m = merge_mid(s, b);
    if i > 0 {
        assert(s[i - 1].wf());
        if i > 1 {
            assert(s[i - 2].end() < s[i - 1].addr);
        }
    }
    if i < n {
        assert(s[i].wf());
        if i + 1 < n {
            assert(s[i].end() < s[i + 1].addr);
        }
    }
}

proof fn lemma_merge_mid_cover(s: Seq<Block>, b: Block, x: int)
    requires
        free_list_wf(s),
        b.wf(),
        no_overlap(s, b),
        merge_mid(s, b).addr <= x < merge_mid(s, b).end(),
        !(b.addr <= x < b.end()),
    ensures
        exists|k: int|
            merge_front_end(s, b) <= k < merge_rest_start(s, b) && (#[trigger] s[k]).addr <= x
                < s[k].end(),
{
    lemma_merge_setup(s, b);
    let i = insertion_index(s, b.addr as int);
    if x < b.addr {
        assert(s[i - 1].addr <= x < s[i - 1].end());
    } else {
        assert(s[i].addr <= x < s[i].end());
    }
}

/// Putting a block back keeps the list well formed.
pub proof fn lemma_merge_into_wf(s: Seq<Block>, b: Block)
    requires
        free_list_wf(s),
        b.wf(),
        no_overlap(s, b),
    ensures
        free_list_wf(merge_into(s, b)),
{
    lemma_merge_shape(s, b);
    let f = merge_front_end(s, b);
    let r = merge_rest_start(s, b);
    let n = s.len() as int;
    lemma_sorted_sub(s, 0, f);
    lemma_sorted_sub(s, r, n);
    assert(s.take(f) =~= s.subrange(0, f));
    assert(s.skip(r) =~= s.subrange(r, n));
    if f > 0 {
        assert(s.take(f).last() == s[f - 1]);
    }
    if r < n {
        assert(s.skip(r)[0] == s[r]);
    }
    lemma_sorted_join(s.take(f), merge_mid(s, b), s.skip(r));
}

/// Putting a block back adds exactly its bytes to the free ones.
pub proof fn lemma_merge_into_cover(s: Seq<Block>, b: Block, x: int)
    requires
        free_list_wf(s),
        b.wf(),
        no_overlap(s, b),
    ensures
        in_free(merge_into(s, b), x) <==> in_free(s, x) || (b.addr <= x < b.end()),
{
    lemma_merge_shape(s, b);
    let f = merge_front_end(s, b);
    let r = merge_rest_start(s, b);
    let m = merge_mid(s, b);
    let front = s.take(f);
    lemma_in_free_concat(front.push(m), s.skip(r), x);
    assert(front.push(m) =~= front + seq![m]);
    lemma_in_free_concat(front, seq![m], x);
    lemma_in_free_single(m, x);
    let mids = s.subrange(f, r);
    assert(s =~= front + mids + s.skip(r));
    lemma_in_free_concat(front + mids, s.skip(r), x);
    lemma_in_free_concat(front, mids, x);
    if in_free(mids, x) {
        let k = choose|k: int| 0 <= k < mids.len() && (#[trigger] mids[k]).addr <= x < mids[k].end();
        assert(mids[k] == s[f + k]);
    }
    if m.addr <= x < m.end() && !(b.addr <= x < b.end()) {
        lemma_merge_mid_cover(s, b, x);
        let k = choose|k: int| f <= k < r && (#[trigger] s[k]).addr <= x < s[k].end();
        assert(mids[k - f] == s[k]);
    }
}

/// Putting a block back keeps every block below a bound that the block respects.
pub proof fn lemma_merge_into_below(s: Seq<Block>, b: Block, bound: int)
    requires
        free_list_wf(s),
        b.wf(),
        no_overlap(s, b),
        blocks_below(s, bound),
        b.end() <= bound,
    ensures
        blocks_below(merge_into(s, b), bound),
{
    lemma_merge_shape(s, b);
    let f = merge_front_end(s, b);
    let r = merge_rest_start(s, b);
    let m = merge_mid(s, b);
    let result = merge_into(s, b);
    assert forall|k: int| 0 <= k < result.len() implies (#[trigger] result[k]).end() <= bound by {
        if k < f {
            assert(result[k] == s[k]);
        } else if k == f {
            assert(result[k] == m);
            if r > f {
                assert(s[r - 1].end() <= bound);
                if m.end() > bound {
                    assert(f <= r - 1 < r);
                }
            }
        } else {
            assert(result[k] == s[r + k - f - 1]);
        }
    }
}


/// Concatenating two sorted lists keeps the order when the first ends before the second.
proof fn lemma_sorted_concat(a: Seq<Block>, c: Seq<Block>)
    requires
        free_list_wf(a),
        free_list_wf(c),
        a.len() > 0 && c.len() > 0 ==> a.last().end() < c[0].addr,
    ensures
        free_list_wf(a + c),
{
    let r = a + c;
    let la = a.len() as int;
    assert forall|i: int| 0 <= i < r.len() implies (#[trigger] r[i]).wf() by {
        if i < la {
            assert(r[i] == a[i]);
        } else {
            assert(r[i] == c[i - la]);
        }
    }
    assert forall|i: int, j: int| #![trigger r[i], r[j]] 0 <= i < j < r.len() implies r[i].end()
        < r[j].addr by {
        if j < la {
            assert(r[i] == a[i] && r[j] == a[j]);
        } else if i >= la {
            assert(r[i] == c[i - la] && r[j] == c[j - la]);
        } else {
            assert(r[i] == a[i] && r[j] == c[j - la]);
            assert(a[la - 1].wf() && c[0].wf());
            if i < la - 1 {
                assert(a[i].end() < a[la - 1].addr);
            }
            if j - la > 0 {
                assert(c[0].end() < c[j - la].addr);
            }
        }
    }
}

/// The blocks left around an extracted sub-block are well formed, ordered, inside the
/// split block, and cover it except for the sub-block.
proof fn lemma_remaining_blocks(b: Block, layout: BlockLayout)
    requires
        b.wf(),
        layout.wf(),
        logical_extract_spec(b.addr, b.size, layout).is_some(),
    ensures
        free_list_wf(remaining_blocks(b, layout)),
        forall|k: int|
            0 <= k < remaining_blocks(b, layout).len() ==> b.addr <= (#[trigger] remaining_blocks(
                b,
                layout,
            )[k]).addr && remaining_blocks(b, layout)[k].end() <= b.end(),
        b.addr <= extracted_addr(b, layout),
        extracted_addr(b, layout) + layout.size.bytes <= b.end(),
{
    lemma_offset_is_whole_headers(b, layout);
    let r = remaining_blocks(b, layout);
    assert(free_list_wf(r));
}

/// What stays free of a block after a carve-out is the block less the carved bytes.
pub proof fn lemma_remaining_cover(b: Block, layout: BlockLayout, x: int)
    requires
        b.wf(),
        layout.wf(),
        logical_extract_spec(b.addr, b.size, layout).is_some(),
    ensures
        in_free(remaining_blocks(b, layout), x) <==> b.addr <= x < b.end() && !(extracted_addr(
            b,
            layout,
        ) <= x < extracted_addr(b, layout) + layout.size.bytes),
{
    lemma_offset_is_whole_headers(b, layout);
    let r = remaining_blocks(b, layout);
    let p = extracted_addr(b, layout);
    if b.addr <= x < b.end() && !(p <= x < p + layout.size.bytes) {
        if x < p {
            assert(r[0].addr <= x < r[0].end());
        } else {
            assert(r[r.len() - 1].addr <= x < r[r.len() - 1].end());
        }
    }
}

/// Carving a fitting block keeps the list well formed and below its bound, and takes
/// away exactly the bytes of the carved sub-block.
pub proof fn lemma_splice_extract(s: Seq<Block>, i: int, layout: BlockLayout)
    requires
        free_list_wf(s),
        0 <= i < s.len(),
        layout.wf(),
        logical_extract_spec(s[i].addr, s[i].size, layout).is_some(),
    ensures
        free_list_wf(splice(s, i, remaining_blocks(s[i], layout))),
        forall|bound: int|
            blocks_below(s, bound) ==> #[trigger] blocks_below(
                splice(s, i, remaining_blocks(s[i], layout)),
                bound,
            ),
        s[i].addr <= extracted_addr(s[i], layout),
        extracted_addr(s[i], layout) + layout.size.bytes <= s[i].end(),
        forall|x: int|
            extracted_addr(s[i], layout) <= x < extracted_addr(s[i], layout) + layout.size.bytes
                ==> #[trigger] in_free(s, x),
{
    let b = s[i];
    assert(b.wf());
    let r = remaining_blocks(b, layout);
    lemma_remaining_blocks(b, layout);
    let n = s.len() as int;
    lemma_sorted_sub(s, 0, i);
    lemma_sorted_sub(s, i + 1, n);
    assert(s.take(i) =~= s.subrange(0, i));
    assert(s.skip(i + 1) =~= s.subrange(i + 1, n));
    if i > 0 && r.len() > 0 {
        assert(s.take(i).last() == s[i - 1]);
        assert(s[i - 1].end() < s[i].addr);
    }
    lemma_sorted_concat(s.take(i), r);
    let tr = s.take(i) + r;
    if tr.len() > 0 && i + 1 < n {
        assert(s.skip(i + 1)[0] == s[i + 1]);
        assert(s[i].end() < s[i + 1].addr);
        if r.len() > 0 {
            assert(tr.last() == r[r.len() - 1]);
        } else {
            assert(tr.last() == s[i - 1]);
            assert(s[i - 1].end() < s[i + 1].addr);
        }
    }
    lemma_sorted_concat(tr, s.skip(i + 1));
    let res = splice(s, i, r);
    assert forall|bound: int| blocks_below(s, bound) implies #[trigger] blocks_below(
        res,
        bound,
    ) by {
        assert forall|k: int| 0 <= k < res.len() implies (#[trigger] res[k]).end() <= bound by {
            if k < i {
                assert(res[k] == s[k]);
            } else if k < i + r.len() {
                assert(res[k] == r[k - i]);
                assert(s[i].end() <= bound);
            } else {
                assert(res[k] == s[k - r.len() + 1]);
            }
        }
    }
    let p = extracted_addr(b, layout);
    assert forall|x: int| p <= x < p + layout.size.bytes implies #[trigger] in_free(s, x) by {
        assert(s[i].addr <= x < s[i].end());
    }
}

/// Carving a fitting block takes away exactly the bytes of the carved sub-block.
pub proof fn lemma_splice_extract_cover(s: Seq<Block>, i: int, layout: BlockLayout, x: int)
    requires
        free_list_wf(s),
        0 <= i < s.len(),
        layout.wf(),
        logical_extract_spec(s[i].addr, s[i].size, layout).is_some(),
    ensures
        in_free(splice(s, i, remaining_blocks(s[i], layout)), x) <==> in_free(s, x) && !(
        extracted_addr(s[i], layout) <= x < extracted_addr(s[i], layout) + layout.size.bytes),
{
    let b = s[i];
    assert(b.wf());
    let r = remaining_blocks(b, layout);
    lemma_remaining_blocks(b, layout);
    lemma_remaining_cover(b, layout, x);
    lemma_in_free_split(s, i, x);
    lemma_in_free_concat(s.take(i) + r, s.skip(i + 1), x);
    lemma_in_free_concat(s.take(i), r, x);
    let p = extracted_addr(b, layout);
    if p <= x < p + layout.size.bytes {
        if in_free(s.take(i), x) {
            let k = choose|k: int| 0 <= k < s.take(i).len() && (#[trigger] s.take(i)[k]).addr <= x
                < s.take(i)[k].end();
            assert(s.take(i)[k] == s[k]);
            assert(s[k].end() < s[i].addr);
        }
        if in_free(s.skip(i + 1), x) {
            let k = choose|k: int|
                0 <= k < s.skip(i + 1).len() && (#[trigger] s.skip(i + 1)[k]).addr <= x < s.skip(
                    i + 1,
                )[k].end();
            assert(s.skip(i + 1)[k] == s[i + 1 + k]);
            assert(s[i].end() < s[i + 1 + k].addr);
        }
    }
}

} // verus!
