use vstd::prelude::*;

verus! {

broadcast use vstd::seq_lib::group_to_multiset_ensures;

/// The inclusive interval `left..=right` of ids.
#[derive(Clone, Copy, Debug, PartialEq, Eq, Structural)]
pub struct Range {
    pub left: i64,
    pub right: i64,
}

/// Some range of `rs` holds `id`.
pub open spec fn covers(rs: Seq<Range>, id: int) -> bool {
    exists|k: int| 0 <= k < rs.len() && (#[trigger] rs[k]).left <= id <= rs[k].right
}

/// Non-empty ranges in increasing order, each ending before the next begins.
pub open spec fn ordered_apart(rs: Seq<Range>) -> bool {
    &&& forall|k: int| 0 <= k < rs.len() ==> (#[trigger] rs[k]).left <= rs[k].right
    &&& forall|i: int, j: int| 0 <= i < j < rs.len() ==> (#[trigger] rs[i]).right < (#[trigger] rs[j]).left
}

/// Whether some range holds `id`, by binary search over ordered ranges.
pub fn is_fresh(ranges: &[Range], id: i64) -> (r: bool)
    requires
        ordered_apart(ranges@),
    ensures
        r == covers(ranges@, id as int),
{
    let mut left: usize = 0;
    let mut right: usize = ranges.len();
    while left < right
        invariant
            ordered_apart(ranges@),
            left <= right <= ranges@.len(),
            forall|k: int| 0 <= k < left ==> (#[trigger] ranges@[k]).right < id,
            forall|k: int| right <= k < ranges@.len() ==> id < (#[trigger] ranges@[k]).left,
        decreases right - left,
    {
        let mid = left + (right - left) / 2;
        let m = ranges[mid];
        if m.left <= id && id <= m.right {
            return true;
        } else if id < m.left {
            right = mid;
        } else {
            left = mid + 1;
        }
    }
    proof {
        if covers(ranges@, id as int) {
            let k = choose|k: int| 0 <= k < ranges@.len() && (#[trigger] ranges@[k]).left <= id <= ranges@[k].right;
            if k < left {
            } else {
                assert(id < ranges@[k].left);
            }
        }
    }
    false
}

/// Non-decreasing in the left end.
pub open spec fn sorted_by_left(rs: Seq<Range>) -> bool {
    forall|i: int, j: int| 0 <= i < j < rs.len() ==> (#[trigger] rs[i]).left <= (#[trigger] rs[j]).left
}

/// Every range is non-empty and ends below `i64::MAX`.
pub open spec fn well_formed(rs: Seq<Range>) -> bool {
    forall|k: int| 0 <= k < rs.len() ==> (#[trigger] rs[k]).left <= rs[k].right < i64::MAX
}

/// Ranges in increasing order with a gap of at least one id between any two.
pub open spec fn separated(rs: Seq<Range>) -> bool {
    &&& forall|k: int| 0 <= k < rs.len() ==> (#[trigger] rs[k]).left <= rs[k].right
    &&& forall|i: int, j: int| 0 <= i < j < rs.len() ==> (#[trigger] rs[i]).right + 1 < (#[trigger] rs[j]).left
}

fn merge_by_left(l: &Vec<Range>, r: &Vec<Range>) -> (out: Vec<Range>)
    requires
        sorted_by_left(l@),
        sorted_by_left(r@),
    ensures
        sorted_by_left(out@),
        out@.to_multiset() == l@.to_multiset().add(r@.to_multiset()),
{
    let mut out: Vec<Range> = Vec::new();
    let mut i: usize = 0;
    let mut j: usize = 0;
    while i < l.len() || j < r.len()
        invariant
            i <= l.len(),
            j <= r.len(),
            sorted_by_left(l@),
            sorted_by_left(r@),
            sorted_by_left(out@),
            out@.to_multiset() == l@.subrange(0, i as int).to_multiset().add(
                r@.subrange(0, j as int).to_multiset(),
            ),
            forall|k: int| 0 <= k < out@.len() ==> (i < l.len() ==> (#[trigger] out@[k]).left <= l@[i as int].left),
            forall|k: int| 0 <= k < out@.len() ==> (j < r.len() ==> (#[trigger] out@[k]).left <= r@[j as int].left),
        decreases l.len() + r.len() - i - j,
    {
        let take_left = if i == l.len() {
            false
        } else if j == r.len() {
            true
        } else {
            l[i].left <= r[j].left
        };
        let ghost old_out = out@;
        if take_left {
            let e = l[i];
            assert(l@.subrange(0, i + 1) =~= l@.subrange(0, i as int).push(e));
            out.push(e);
            i = i + 1;
        } else {
            let e = r[j];
            assert(r@.subrange(0, j + 1) =~= r@.subrange(0, j as int).push(e));
            out.push(e);
            j = j + 1;
        }
        assert(out@ =~= old_out.push(out@.last()));
    }
    assert(l@.subrange(0, i as int) =~= l@);
    assert(r@.subrange(0, j as int) =~= r@);
    out
}

fn sort_by_left(v: &Vec<Range>, lo: usize, hi: usize) -> (out: Vec<Range>)
    requires
        lo <= hi <= v.len(),
    ensures
        sorted_by_left(out@),
        out@.to_multiset() == v@.subrange(lo as int, hi as int).to_multiset(),
    decreases hi - lo,
{
    if hi - lo <= 1 {
        let mut out: Vec<Range> = Vec::new();
        if hi - lo == 1 {
            out.push(v[lo]);
        }
        assert(out@ =~= v@.subrange(lo as int, hi as int));
        out
    } else {
        let mid = lo + (hi - lo) / 2;
        let left = sort_by_left(v, lo, mid);
        let right = sort_by_left(v, mid, hi);
        proof {
            assert(v@.subrange(lo as int, hi as int) =~= v@.subrange(lo as int, mid as int) + v@.subrange(
                mid as int,
                hi as int,
            ));
            vstd::seq_lib::lemma_multiset_commutative(
                v@.subrange(lo as int, mid as int),
                v@.subrange(mid as int, hi as int),
            );
        }
        merge_by_left(&left, &right)
    }
}

/// Sorts `ranges` by left end, in place, and returns the fewest ranges that
/// cover the same ids: overlapping or touching ranges are joined into one.
pub fn merge_ranges(ranges: &mut Vec<Range>) -> (merged: Vec<Range>)
    requires
        well_formed(old(ranges)@),
    ensures
        final(ranges)@.to_multiset() == old(ranges)@.to_multiset(),
        sorted_by_left(final(ranges)@),
        separated(merged@),
        forall|x: int| covers(merged@, x) <==> covers(old(ranges)@, x),
{
    let ghost orig = ranges@;
    let sorted = sort_by_left(ranges, 0, ranges.len());
    assert(ranges@.subrange(0, ranges@.len() as int) =~= ranges@);
    *ranges = sorted;
    let ghost s = ranges@;
    proof {
        assert forall|k: int| 0 <= k < s.len() implies (#[trigger] s[k]).left <= s[k].right < i64::MAX by {
            assert(s.to_multiset().count(s[k]) > 0);
            assert(orig.contains(s[k]));
        }
        assert forall|x: int| covers(s, x) <==> covers(orig, x) by {
            if covers(s, x) {
                let k = choose|k: int| 0 <= k < s.len() && (#[trigger] s[k]).left <= x <= s[k].right;
                assert(s.to_multiset().count(s[k]) > 0);
                assert(orig.contains(s[k]));
            }
            if covers(orig, x) {
                let k = choose|k: int| 0 <= k < orig.len() && (#[trigger] orig[k]).left <= x <= orig[k].right;
                assert(orig.to_multiset().count(orig[k]) > 0);
                assert(s.contains(orig[k]));
            }
        }
    }
    let mut merged: Vec<Range> = Vec::new();
    if ranges.len() == 0 {
        return merged;
    }
    merged.push(ranges[0]);
    assert(merged@ =~= s.take(1));
    let mut i: usize = 1;
    while i < ranges.len()
        invariant
            ranges@ == s,
            well_formed(s),
            sorted_by_left(s),
            1 <= i <= s.len(),
            merged@.len() >= 1,
            separated(merged@),
            merged@.last().left <= s[i - 1].left,
            forall|x: int| covers(merged@, x) <==> covers(s.take(i as int), x),
            forall|k: int| 0 <= k < merged@.len() ==> (#[trigger] merged@[k]).right < i64::MAX,
        decreases s.len() - i,
    {
        let r = ranges[i];
        let last_index = merged.len() - 1;
        let last = merged[last_index];
        let ghost before = merged@;
        proof {
            assert(s.take(i + 1) =~= s.take(i as int).push(r));
            assert forall|x: int| covers(s.take(i + 1), x) <==> (covers(s.take(i as int), x) || (r.left <= x <= r.right)) by {
                if covers(s.take(i + 1), x) {
                    let k = choose|k: int| 0 <= k < s.take(i + 1).len() && (#[trigger] s.take(i + 1)[k]).left <= x <= s.take(i + 1)[k].right;
                    if k < i {
                        assert(s.take(i as int)[k] == s.take(i + 1)[k]);
                    }
                }
                if covers(s.take(i as int), x) {
                    let k = choose|k: int| 0 <= k < s.take(i as int).len() && (#[trigger] s.take(i as int)[k]).left <= x <= s.take(i as int)[k].right;
                    assert(s.take(i + 1)[k] == s.take(i as int)[k]);
                }
                if r.left <= x <= r.right {
                    assert(s.take(i + 1)[i as int] == r);
                }
            }
        }
        if r.left <= last.right + 1 {
            let new_right = if r.right > last.right { r.right } else { last.right };
            merged.set(last_index, Range { left: last.left, right: new_right });
            proof {
                assert forall|x: int| covers(merged@, x) <==> (covers(before, x) || (r.left <= x <= r.right)) by {
                    if covers(merged@, x) {
                        let k = choose|k: int| 0 <= k < merged@.len() && (#[trigger] merged@[k]).left <= x <= merged@[k].right;
                        if k < last_index {
                            assert(before[k] == merged@[k]);
                        } else if x > last.right {
                        } else {
                            assert(before[k] == last);
                        }
                    }
                    if covers(before, x) {
                        let k = choose|k: int| 0 <= k < before.len() && (#[trigger] before[k]).left <= x <= before[k].right;
                        if k < last_index {
                            assert(before[k] == merged@[k]);
                        } else {
                            assert(merged@[k].left <= x <= merged@[k].right);
                        }
                    }
                    if r.left <= x <= r.right {
                        assert(merged@[last_index as int].left <= x <= merged@[last_index as int].right);
                    }
                }
            }
        } else {
            merged.push(r);
            proof {
                assert forall|x: int| covers(merged@, x) <==> (covers(before, x) || (r.left <= x <= r.right)) by {
                    if covers(merged@, x) {
                        let k = choose|k: int| 0 <= k < merged@.len() && (#[trigger] merged@[k]).left <= x <= merged@[k].right;
                        if k < before.len() {
                            assert(before[k] == merged@[k]);
                        }
                    }
                    if covers(before, x) {
                        let k = choose|k: int| 0 <= k < before.len() && (#[trigger] before[k]).left <= x <= before[k].right;
                        assert(before[k] == merged@[k]);
                    }
                    if r.left <= x <= r.right {
                        assert(merged@[before.len() as int] == r);
                    }
                }
            }
        }
        proof {
            assert forall|x: int| covers(merged@, x) <==> covers(s.take(i + 1), x) by {
                assert(covers(before, x) <==> covers(s.take(i as int), x));
            }
        }
        i = i + 1;
    }
    assert(s.take(s.len() as int) =~= s);
    merged
}

} // verus!
