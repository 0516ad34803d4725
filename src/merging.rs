use vstd::prelude::*;
use crate::geometry::Rectangle;

verus! {

/// No two entries at different positions overlap.
pub open spec fn pairwise_disjoint(s: Seq<Rectangle>) -> bool {
    forall|i: int, j: int|
        0 <= i < s.len() && 0 <= j < s.len() && i != j ==> !(#[trigger] s[i]).spec_overlaps(
            #[trigger] s[j],
        )
}

pub open spec fn all_proper(s: Seq<Rectangle>) -> bool {
    forall|i: int| 0 <= i < s.len() ==> (#[trigger] s[i]).is_proper()
}

/// Each corner coordinate of `r` is the matching coordinate of some entry of `s`.
pub open spec fn spanned(r: Rectangle, s: Seq<Rectangle>) -> bool {
    &&& exists|a: int| 0 <= a < s.len() && (#[trigger] s[a]).min_point.x == r.min_point.x
    &&& exists|a: int| 0 <= a < s.len() && (#[trigger] s[a]).min_point.y == r.min_point.y
    &&& exists|a: int| 0 <= a < s.len() && (#[trigger] s[a]).max_point.x == r.max_point.x
    &&& exists|a: int| 0 <= a < s.len() && (#[trigger] s[a]).max_point.y == r.max_point.y
}

/// Every entry of `inner` lies inside some entry of `outer`.
#[verifier::opaque]
pub open spec fn covered_by(inner: Seq<Rectangle>, outer: Seq<Rectangle>) -> bool {
    forall|i: int| 0 <= i < inner.len() ==> #[trigger] lies_in_some(inner[i], outer)
}

/// `r` lies inside some entry of `outer`.
pub open spec fn lies_in_some(r: Rectangle, outer: Seq<Rectangle>) -> bool {
    exists|j: int| 0 <= j < outer.len() && (#[trigger] outer[j]).encloses(r)
}

/// `r` encloses some entry of `inner`.
pub open spec fn holds_some(r: Rectangle, inner: Seq<Rectangle>) -> bool {
    exists|i: int| 0 <= i < inner.len() && r.encloses(#[trigger] inner[i])
}

/// Every entry of `outer` encloses some entry of `inner`.
#[verifier::opaque]
pub open spec fn each_holds_one(outer: Seq<Rectangle>, inner: Seq<Rectangle>) -> bool {
    forall|j: int| 0 <= j < outer.len() ==> #[trigger] holds_some(outer[j], inner)
}

pub open spec fn live_count(s: Seq<Option<Rectangle>>) -> nat
    decreases s.len(),
{
    if s.len() == 0 {
        0
    } else {
        live_count(s.drop_last()) + if s.last().is_some() { 1nat } else { 0nat }
    }
}

pub proof fn lemma_live_count_update(s: Seq<Option<Rectangle>>, i: int, v: Option<Rectangle>)
    requires
        0 <= i < s.len(),
    ensures
        live_count(s.update(i, v)) + (if s[i].is_some() { 1int } else { 0int }) == live_count(s) + (
        if v.is_some() { 1int } else { 0int }),
    decreases s.len(),
{
    let u = s.update(i, v);
    if i == s.len() - 1 {
        assert(u.drop_last() =~= s.drop_last());
    } else {
        assert(u.drop_last() =~= s.drop_last().update(i, v));
        lemma_live_count_update(s.drop_last(), i, v);
    }
}

/// One comparison of the pass: the slot at `cur` takes in the slot at `idx` when both
/// are live and overlap, the latter is dropped, and `cur` steps back one unless at 0.
pub open spec fn scan_step(slots: Seq<Option<Rectangle>>, cur: int, idx: int) -> (Seq<Option<Rectangle>>, int) {
    if 0 <= cur < slots.len() && 0 <= idx < slots.len() && slots[cur].is_some() && slots[idx].is_some()
        && slots[cur].unwrap().spec_overlaps(slots[idx].unwrap()) {
        (
            slots.update(cur, Some(slots[cur].unwrap().spec_merge(slots[idx].unwrap()))).update(idx, None),
            if cur != 0 { cur - 1 } else { cur },
        )
    } else {
        (slots, cur)
    }
}

/// The comparisons of slots `idx ..` against the (moving) slot `cur`.
pub open spec fn scan_from(slots: Seq<Option<Rectangle>>, cur: int, idx: nat) -> (Seq<Option<Rectangle>>, int)
    decreases slots.len() - idx,
{
    if idx >= slots.len() {
        (slots, cur)
    } else {
        let (s1, c1) = scan_step(slots, cur, idx as int);
        scan_from(s1, c1, idx + 1)
    }
}

pub proof fn lemma_scan_from(slots: Seq<Option<Rectangle>>, cur: int, idx: nat)
    requires
        0 <= cur < idx,
    ensures
        scan_from(slots, cur, idx).0.len() == slots.len(),
        0 <= scan_from(slots, cur, idx).1 <= cur,
        live_count(scan_from(slots, cur, idx).0) <= live_count(slots),
        live_count(scan_from(slots, cur, idx).0) == live_count(slots) ==> scan_from(slots, cur, idx).1 == cur,
    decreases slots.len() - idx,
{
    if idx < slots.len() {
        let (s1, c1) = scan_step(slots, cur, idx as int);
        if s1 != slots || c1 != cur {
            let m = slots[cur].unwrap().spec_merge(slots[idx as int].unwrap());
            lemma_live_count_update(slots, cur, Some(m));
            lemma_live_count_update(slots.update(cur, Some(m)), idx as int, None);
        }
        lemma_scan_from(s1, c1, idx + 1);
    }
}

/// The pass from slot `pos` on: a dropped slot is skipped; a live one is compared with
/// every later slot, and the scan goes on one past where the comparisons left it.
pub open spec fn merge_pass_from(slots: Seq<Option<Rectangle>>, pos: nat) -> Seq<Option<Rectangle>>
    decreases live_count(slots), slots.len() - pos,
{
    if pos >= slots.len() {
        slots
    } else if slots[pos as int].is_none() {
        merge_pass_from(slots, pos + 1)
    } else {
        proof {
            lemma_scan_from(slots, pos as int, pos + 1);
        }
        let (s2, c2) = scan_from(slots, pos as int, pos + 1);
        merge_pass_from(s2, (c2 + 1) as nat)
    }
}

/// The entries of the live slots, in order.
pub open spec fn live_values(slots: Seq<Option<Rectangle>>) -> Seq<Rectangle>
    decreases slots.len(),
{
    if slots.len() == 0 {
        Seq::empty()
    } else if slots.last().is_some() {
        live_values(slots.drop_last()).push(slots.last().unwrap())
    } else {
        live_values(slots.drop_last())
    }
}

pub open spec fn initial_slots(rs: Seq<Rectangle>) -> Seq<Option<Rectangle>> {
    Seq::new(rs.len(), |i: int| Some(rs[i]))
}

/// What one merge pass returns for `rs`.
pub open spec fn merge_pass(rs: Seq<Rectangle>) -> Seq<Rectangle> {
    live_values(merge_pass_from(initial_slots(rs), 0))
}

proof fn lemma_merge_spanned(a: Rectangle, b: Rectangle, s: Seq<Rectangle>)
    requires
        spanned(a, s),
        spanned(b, s),
    ensures
        spanned(a.spec_merge(b), s),
{
    let m = a.spec_merge(b);
    let a1 = choose|k: int| 0 <= k < s.len() && (#[trigger] s[k]).min_point.x == a.min_point.x;
    let a2 = choose|k: int| 0 <= k < s.len() && (#[trigger] s[k]).min_point.y == a.min_point.y;
    let a3 = choose|k: int| 0 <= k < s.len() && (#[trigger] s[k]).max_point.x == a.max_point.x;
    let a4 = choose|k: int| 0 <= k < s.len() && (#[trigger] s[k]).max_point.y == a.max_point.y;
    let b1 = choose|k: int| 0 <= k < s.len() && (#[trigger] s[k]).min_point.x == b.min_point.x;
    let b2 = choose|k: int| 0 <= k < s.len() && (#[trigger] s[k]).min_point.y == b.min_point.y;
    let b3 = choose|k: int| 0 <= k < s.len() && (#[trigger] s[k]).max_point.x == b.max_point.x;
    let b4 = choose|k: int| 0 <= k < s.len() && (#[trigger] s[k]).max_point.y == b.max_point.y;
    if a.min_point.x <= b.min_point.x { assert(s[a1].min_point.x == m.min_point.x); } else { assert(s[b1].min_point.x == m.min_point.x); }
    if a.min_point.y <= b.min_point.y { assert(s[a2].min_point.y == m.min_point.y); } else { assert(s[b2].min_point.y == m.min_point.y); }
    if a.max_point.x >= b.max_point.x { assert(s[a3].max_point.x == m.max_point.x); } else { assert(s[b3].max_point.x == m.max_point.x); }
    if a.max_point.y >= b.max_point.y { assert(s[a4].max_point.y == m.max_point.y); } else { assert(s[b4].max_point.y == m.max_point.y); }
}

pub open spec fn in_some_slot(slots: Seq<Option<Rectangle>>, r: Rectangle) -> bool {
    exists|k: int| 0 <= k < slots.len() && #[trigger] holds(slots, k, r)
}

pub open spec fn holds(slots: Seq<Option<Rectangle>>, k: int, r: Rectangle) -> bool {
    slots[k].is_some() && slots[k].unwrap().encloses(r)
}

/// What a merge pass keeps true of its slots: every input lies in a live slot, each
/// live slot holds its own input and is spanned by the inputs, and nothing has
/// changed while the inputs are pairwise disjoint.
#[verifier::opaque]
pub open spec fn slots_inv(inp: Seq<Rectangle>, slots: Seq<Option<Rectangle>>) -> bool {
    &&& slots.len() == inp.len()
    &&& forall|i: int| 0 <= i < inp.len() ==> #[trigger] in_some_slot(slots, inp[i])
    &&& forall|k: int| 0 <= k < slots.len() && (#[trigger] slots[k]).is_some() ==> {
        &&& slots[k].unwrap().encloses(inp[k])
        &&& spanned(slots[k].unwrap(), inp)
        &&& (all_proper(inp) ==> slots[k].unwrap().is_proper())
    }
    &&& pairwise_disjoint(inp) ==> forall|k: int| 0 <= k < slots.len() ==> #[trigger] slots[k] == Some(inp[k])
}

proof fn lemma_merge_step(inp: Seq<Rectangle>, slots: Seq<Option<Rectangle>>, q: int, idx: int)
    requires
        slots_inv(inp, slots),
        0 <= q < slots.len(),
        0 <= idx < slots.len(),
        q != idx,
        slots[q].is_some(),
        slots[idx].is_some(),
        slots[q].unwrap().spec_overlaps(slots[idx].unwrap()),
    ensures
        slots_inv(inp, slots.update(q, Some(slots[q].unwrap().spec_merge(slots[idx].unwrap()))).update(idx, None)),
        live_count(slots.update(q, Some(slots[q].unwrap().spec_merge(slots[idx].unwrap()))).update(idx, None)) + 1
            == live_count(slots),
{
    reveal(slots_inv);
    let a = slots[q].unwrap();
    let b = slots[idx].unwrap();
    let m = a.spec_merge(b);
    let s1 = slots.update(q, Some(m));
    let s2 = s1.update(idx, None);
    lemma_live_count_update(slots, q, Some(m));
    lemma_live_count_update(s1, idx, None);
    lemma_merge_spanned(a, b, inp);
    if pairwise_disjoint(inp) {
        assert(slots[q] == Some(inp[q]));
        assert(slots[idx] == Some(inp[idx]));
        assert(!inp[q].spec_overlaps(inp[idx]));
    }
    assert forall|i: int| 0 <= i < inp.len() implies #[trigger] in_some_slot(s2, inp[i]) by {
        assert(in_some_slot(slots, inp[i]));
        let k = choose|k: int| 0 <= k < slots.len() && #[trigger] holds(slots, k, inp[i]);
        if k == q || k == idx {
            assert(holds(s2, q, inp[i]));
        } else {
            assert(holds(s2, k, inp[i]));
        }
    }
    assert forall|k: int| 0 <= k < s2.len() && (#[trigger] s2[k]).is_some() implies {
        &&& s2[k].unwrap().encloses(inp[k])
        &&& spanned(s2[k].unwrap(), inp)
        &&& (all_proper(inp) ==> s2[k].unwrap().is_proper())
    } by {
        if k != q {
            assert(s2[k] == slots[k]);
        }
    }
}

fn live_slots(rectangles: &Vec<Rectangle>) -> (slots: Vec<Option<Rectangle>>)
    ensures
        slots_inv(rectangles@, slots@),
        slots.len() == rectangles.len(),
        slots@ == initial_slots(rectangles@),
{
    let n = rectangles.len();
    let mut slots: Vec<Option<Rectangle>> = Vec::new();
    let mut k: usize = 0;
    while k < n
        invariant
            n == rectangles.len(),
            k <= n,
            slots.len() == k,
            forall|j: int| 0 <= j < k ==> #[trigger] slots@[j] == Some(rectangles@[j]),
        decreases n - k,
    {
        slots.push(Some(rectangles[k]));
        k = k + 1;
    }
    proof {
        reveal(slots_inv);
        assert(slots@ =~= initial_slots(rectangles@));
        let inp = rectangles@;
        assert forall|i: int| 0 <= i < inp.len() implies #[trigger] in_some_slot(slots@, inp[i]) by {
            assert(holds(slots@, i, inp[i]));
        }
        assert forall|k: int| 0 <= k < slots@.len() && (#[trigger] slots@[k]).is_some() implies spanned(slots@[k].unwrap(), inp) by {
            assert(inp[k] == slots@[k].unwrap());
        }
    }
    slots
}

fn merge_slots(slots: &mut Vec<Option<Rectangle>>, Ghost(inp): Ghost<Seq<Rectangle>>)
    requires
        slots_inv(inp, old(slots)@),
    ensures
        slots_inv(inp, final(slots)@),
        final(slots).len() == old(slots).len(),
        final(slots)@ == merge_pass_from(old(slots)@, 0),
{
    let ghost target = merge_pass_from(slots@, 0);
    let n = slots.len();
    let mut position: usize = 0;
    while position < n
        invariant
            n == slots.len(),
            slots_inv(inp, slots@),
            merge_pass_from(slots@, position as nat) == target,
        decreases live_count(slots@), n - position,
    {
        if slots[position].is_none() {
            position = position + 1;
        } else {
            let ghost live_before = live_count(slots@);
            let ghost scanned = scan_from(slots@, position as int, (position + 1) as nat);
            let start = position + 1;
            let mut current = position;
            let mut index = start;
            while index < n
                invariant
                    n == slots.len(),
                    slots_inv(inp, slots@),
                    current <= position < start <= index <= n,
                    start == position + 1,
                    live_count(slots@) <= live_before,
                    live_count(slots@) == live_before ==> current == position,
                    scan_from(slots@, current as int, index as nat) == scanned,
                decreases n - index,
            {
                proof {
                    assert(scan_from(slots@, current as int, index as nat) == scan_from(scan_step(slots@, current as int, index as int).0, scan_step(slots@, current as int, index as int).1, (index + 1) as nat));
                }
                if let (Some(here), Some(there)) = (slots[current], slots[index]) {
                    if here.is_overlapping(&there) {
                        proof {
                            lemma_merge_step(inp, slots@, current as int, index as int);
                        }
                        slots.set(current, Some(here.merge(&there)));
                        slots.set(index, None);
                        if current != 0 {
                            current = current - 1;
                        }
                    }
                }
                index = index + 1;
            }
            proof {
                assert(scanned == (slots@, current as int));
            }
            position = current + 1;
        }
    }
}

fn collect_live(slots: &Vec<Option<Rectangle>>, Ghost(inp): Ghost<Seq<Rectangle>>) -> (res: (Vec<Rectangle>, Ghost<Seq<int>>, Ghost<Seq<int>>))
    requires
        slots_inv(inp, slots@),
    ensures
        res.0.len() <= slots.len(),
        res.1@.len() == res.0.len(),
        res.2@.len() == slots.len(),
        forall|j: int| 0 <= j < res.0.len() ==> 0 <= #[trigger] res.1@[j] < slots.len() && slots@[res.1@[j]] == Some(res.0@[j]),
        forall|s: int| 0 <= s < slots.len() && (#[trigger] slots@[s]).is_some() ==> 0 <= res.2@[s] < res.0.len() && res.0@[res.2@[s]] == slots@[s].unwrap(),
        pairwise_disjoint(inp) ==> res.0@ == inp,
        res.0@ == live_values(slots@),
{
    proof {
        reveal(slots_inv);
    }
    let n = slots.len();
    let mut merged: Vec<Rectangle> = Vec::new();
    let ghost mut origin: Seq<int> = Seq::empty();
    let ghost mut dest: Seq<int> = Seq::new(n as nat, |s: int| 0int);
    let mut k: usize = 0;
    while k < n
        invariant
            n == slots.len(),
            n == inp.len(),
            slots_inv(inp, slots@),
            k <= n,
            merged.len() <= k,
            origin.len() == merged.len(),
            dest.len() == n,
            forall|j: int| 0 <= j < merged.len() ==> 0 <= #[trigger] origin[j] < k && slots@[origin[j]] == Some(merged@[j]),
            forall|s: int| 0 <= s < k && (#[trigger] slots@[s]).is_some() ==> 0 <= dest[s] < merged.len() && merged@[dest[s]] == slots@[s].unwrap(),
            pairwise_disjoint(inp) ==> merged@ == inp.take(k as int),
            merged@ == live_values(slots@.take(k as int)),
        decreases n - k,
    {
        proof {
            assert(slots@.take(k + 1).drop_last() =~= slots@.take(k as int));
        }
        if let Some(rectangle) = slots[k] {
            let ghost before = merged@;
            merged.push(rectangle);
            proof {
                reveal(slots_inv);
                origin = origin.push(k as int);
                dest = dest.update(k as int, before.len() as int);
                assert forall|s: int| 0 <= s < k + 1 && (#[trigger] slots@[s]).is_some() implies 0 <= dest[s] < merged.len() && merged@[dest[s]] == slots@[s].unwrap() by {
                    if s < k {
                        assert(merged@[dest[s]] == before[dest[s]]);
                    }
                }
                assert forall|j: int| 0 <= j < merged.len() implies 0 <= #[trigger] origin[j] < k + 1 && slots@[origin[j]] == Some(merged@[j]) by {
                    if j < before.len() {
                        assert(merged@[j] == before[j]);
                    }
                }
                if pairwise_disjoint(inp) {
                    assert(merged@ =~= inp.take(k + 1));
                }
            }
        } else {
            proof {
                reveal(slots_inv);
                if pairwise_disjoint(inp) {
                    assert(slots@[k as int] == Some(inp[k as int]));
                }
            }
        }
        k = k + 1;
    }
    proof {
        if pairwise_disjoint(inp) {
            assert(inp.take(n as int) =~= inp);
        }
    }
    proof {
        assert(slots@.take(n as int) =~= slots@);
    }
    (merged, Ghost(origin), Ghost(dest))
}

proof fn lemma_collected(inp: Seq<Rectangle>, slots: Seq<Option<Rectangle>>, out: Seq<Rectangle>, origin: Seq<int>, dest: Seq<int>)
    requires
        slots_inv(inp, slots),
        origin.len() == out.len(),
        dest.len() == slots.len(),
        forall|j: int| 0 <= j < out.len() ==> 0 <= #[trigger] origin[j] < slots.len() && slots[origin[j]] == Some(out[j]),
        forall|s: int| 0 <= s < slots.len() && (#[trigger] slots[s]).is_some() ==> 0 <= dest[s] < out.len() && out[dest[s]] == slots[s].unwrap(),
    ensures
        covered_by(inp, out),
        forall|j: int| 0 <= j < out.len() ==> spanned(#[trigger] out[j], inp),
        each_holds_one(out, inp),
        all_proper(inp) ==> all_proper(out),
{
    reveal(slots_inv);
    assert(covered_by(inp, out)) by {
        reveal(covered_by);
        assert forall|i: int| 0 <= i < inp.len() implies #[trigger] lies_in_some(inp[i], out) by {
            assert(in_some_slot(slots, inp[i]));
            let s = choose|s: int| 0 <= s < slots.len() && #[trigger] holds(slots, s, inp[i]);
            assert(slots[s].is_some());
            let j = dest[s];
            assert(out[j].encloses(inp[i]));
        }
    }
    assert(each_holds_one(out, inp)) by {
        reveal(each_holds_one);
        assert forall|j: int| 0 <= j < out.len() implies #[trigger] holds_some(out[j], inp) by {
            let s = origin[j];
            assert(slots[s].is_some());
            assert(out[j].encloses(inp[s]));
        }
    }
    assert forall|j: int| 0 <= j < out.len() implies spanned(#[trigger] out[j], inp) by {
        let s = origin[j];
        assert(slots[s].is_some());
    }
    if all_proper(inp) {
        assert forall|j: int| 0 <= j < out.len() implies (#[trigger] out[j]).is_proper() by {
            let s = origin[j];
            assert(slots[s].is_some());
        }
    }
}

/// One left-to-right merge pass: a slot that overlaps a later live one takes in the
/// smallest rectangle enclosing both, the later one is dropped, and the scan steps
/// back one slot; what stays live is returned in order.
pub fn merge_rectangles(rectangles: Vec<Rectangle>) -> (r: Vec<Rectangle>)
    ensures
        r.len() <= rectangles.len(),
        covered_by(rectangles@, r@),
        forall|j: int| 0 <= j < r.len() ==> spanned(#[trigger] r@[j], rectangles@),
        each_holds_one(r@, rectangles@),
        all_proper(rectangles@) ==> all_proper(r@),
        pairwise_disjoint(rectangles@) ==> r@ == rectangles@,
        r@ == merge_pass(rectangles@),
{
    let ghost inp = rectangles@;
    let mut slots = live_slots(&rectangles);
    merge_slots(&mut slots, Ghost(inp));
    let (merged, Ghost(origin), Ghost(dest)) = collect_live(&slots, Ghost(inp));
    proof {
        lemma_collected(inp, slots@, merged@, origin, dest);
    }
    merged
}

proof fn lemma_scan_disjoint(rs: Seq<Rectangle>, cur: int, idx: nat)
    requires
        pairwise_disjoint(rs),
        0 <= cur < idx,
        cur < rs.len(),
    ensures
        scan_from(initial_slots(rs), cur, idx) == (initial_slots(rs), cur),
    decreases rs.len() - idx,
{
    let slots = initial_slots(rs);
    if idx < rs.len() {
        assert(slots[cur] == Some(rs[cur]));
        assert(slots[idx as int] == Some(rs[idx as int]));
        assert(!rs[cur].spec_overlaps(rs[idx as int]));
        lemma_scan_disjoint(rs, cur, idx + 1);
    }
}

proof fn lemma_pass_disjoint(rs: Seq<Rectangle>, pos: nat)
    requires
        pairwise_disjoint(rs),
    ensures
        merge_pass_from(initial_slots(rs), pos) == initial_slots(rs),
    decreases rs.len() - pos,
{
    if pos < rs.len() {
        lemma_scan_disjoint(rs, pos as int, pos + 1);
        lemma_pass_disjoint(rs, pos + 1);
    }
}

proof fn lemma_live_values_initial(rs: Seq<Rectangle>)
    ensures
        live_values(initial_slots(rs)) == rs,
    decreases rs.len(),
{
    if rs.len() > 0 {
        assert(initial_slots(rs).drop_last() =~= initial_slots(rs.drop_last()));
        lemma_live_values_initial(rs.drop_last());
        assert(rs.drop_last().push(rs.last()) =~= rs);
    }
}

/// A list in which no two rectangles overlap is left as it is by a merge pass, so
/// merging such a list again, once or twice, changes nothing.
pub proof fn merge_closure(rs: Seq<Rectangle>)
    requires
        pairwise_disjoint(rs),
    ensures
        merge_pass(rs) == rs,
        merge_pass(merge_pass(rs)) == rs,
{
    lemma_pass_disjoint(rs, 0);
    lemma_live_values_initial(rs);
}

} // verus!
