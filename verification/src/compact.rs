//! The id compactor: renumbers every identifier occurring in the store to
//! the dense range `0 .. k-1` (`k` distinct ids), preserving the relative
//! order of ids.
//!
//! The compacted image of an id is its rank: the number of distinct ids in
//! the store that are smaller.  The whole pass is pinned down by
//! [`compact_spec`], and the order-preservation, density and idempotence
//! laws are proved below from that definition.

use vstd::prelude::*;
use vstd::set_lib::lemma_len_subset;
use vstd::set_lib::lemma_int_range;
use vstd::set_lib::set_int_range;
use crate::data::Record;

verus! {

/// The set of distinct ids used in `rs`, as `what_id` or `location_id`.
pub open spec fn id_set(rs: Seq<Record>) -> Set<int>
    decreases rs.len(),
{
    if rs.len() == 0 {
        Set::empty()
    } else {
        id_set(rs.drop_last()).insert(rs.last().what_id as int).insert(
            rs.last().location_id as int,
        )
    }
}

/// An id occurs in `rs` exactly when some record uses it.
pub proof fn lemma_id_set_contains(rs: Seq<Record>, x: int)
    ensures
        id_set(rs).contains(x) <==> exists|i: int|
            0 <= i < rs.len() && ((#[trigger] rs[i]).what_id as int == x || rs[i].location_id as int
                == x),
    decreases rs.len(),
{
    if rs.len() > 0 {
        lemma_id_set_contains(rs.drop_last(), x);
        if id_set(rs).contains(x) {
            if x == rs.last().what_id as int || x == rs.last().location_id as int {
                assert(rs[rs.len() - 1].what_id as int == x || rs[rs.len() - 1].location_id as int
                    == x);
            } else {
                let i = choose|i: int|
                    0 <= i < rs.drop_last().len() && ((#[trigger] rs.drop_last()[i]).what_id as int
                        == x || rs.drop_last()[i].location_id as int == x);
                assert(rs[i].what_id as int == x || rs[i].location_id as int == x);
            }
        }
        if exists|i: int|
            0 <= i < rs.len() && ((#[trigger] rs[i]).what_id as int == x || rs[i].location_id as int
                == x) {
            let i = choose|i: int|
                0 <= i < rs.len() && ((#[trigger] rs[i]).what_id as int == x
                    || rs[i].location_id as int == x);
            if i < rs.len() - 1 {
                assert(rs.drop_last()[i].what_id as int == x || rs.drop_last()[i].location_id as int
                    == x);
            }
        }
    }
}

/// The id set is finite, holds only values that fit `usize`, and has at
/// most two ids per record.
pub proof fn lemma_id_set_bounds(rs: Seq<Record>)
    ensures
        id_set(rs).finite(),
        forall|x: int| id_set(rs).contains(x) ==> 0 <= x <= usize::MAX as int,
        id_set(rs).len() <= 2 * rs.len(),
    decreases rs.len(),
{
    if rs.len() > 0 {
        lemma_id_set_bounds(rs.drop_last());
    }
}

/// The number of ids in `s` smaller than `x`: the compacted image of `x`.
pub open spec fn rank(s: Set<int>, x: int) -> int {
    s.filter(|y: int| y < x).len() as int
}

/// The compacted image of id `x` in store `rs`.
pub open spec fn compact_id(rs: Seq<Record>, x: int) -> int {
    rank(id_set(rs), x)
}

/// `r` with both of its ids replaced by their compacted images.
pub open spec fn compact_record(rs: Seq<Record>, r: Record) -> Record {
    Record {
        created: r.created,
        location: r.location,
        location_id: compact_id(rs, r.location_id as int) as usize,
        notes: r.notes,
        updated: r.updated,
        what: r.what,
        what_id: compact_id(rs, r.what_id as int) as usize,
    }
}

/// The whole compaction pass: every occurrence of every id is remapped
/// consistently; all other fields are untouched.
pub open spec fn compact_spec(rs: Seq<Record>) -> Seq<Record> {
    rs.map_values(|r: Record| compact_record(rs, r))
}

/// The rank of a member of `s` lies in `0 .. |s|`.
pub proof fn lemma_rank_lt(s: Set<int>, x: int)
    requires
        s.finite(),
        s.contains(x),
    ensures
        0 <= rank(s, x) < s.len(),
{
    let b = s.filter(|y: int| y < x);
    s.lemma_len_filter(|y: int| y < x);
    assert(b.insert(x).subset_of(s));
    lemma_len_subset(b.insert(x), s);
    assert(!b.contains(x));
    assert(b.insert(x).len() == b.len() + 1);
}

/// For a non-negative id, the rank never exceeds the id itself.
pub proof fn lemma_rank_le(s: Set<int>, x: int)
    requires
        s.finite(),
        forall|y: int| s.contains(y) ==> 0 <= y,
        0 <= x,
    ensures
        0 <= rank(s, x) <= x,
{
    let b = s.filter(|y: int| y < x);
    lemma_int_range(0, x);
    assert(b.subset_of(set_int_range(0, x)));
    lemma_len_subset(b, set_int_range(0, x));
}

/// Order preservation: smaller ids keep strictly smaller images.
pub proof fn lemma_rank_strict_mono(s: Set<int>, a: int, b: int)
    requires
        s.finite(),
        s.contains(a),
        a < b,
    ensures
        rank(s, a) < rank(s, b),
{
    let ba = s.filter(|y: int| y < a);
    let bb = s.filter(|y: int| y < b);
    s.lemma_len_filter(|y: int| y < a);
    s.lemma_len_filter(|y: int| y < b);
    assert(!ba.contains(a));
    assert(ba.insert(a).subset_of(bb));
    lemma_len_subset(ba.insert(a), bb);
    assert(ba.insert(a).len() == ba.len() + 1);
}

/// Every slot of the dense range is hit by the rank of some member.
pub proof fn lemma_rank_surjective(s: Set<int>, j: int)
    requires
        s.finite(),
        0 <= j < s.len(),
    ensures
        exists|y: int| s.contains(y) && rank(s, y) == j,
    decreases s.len(),
{
    lemma_int_set_min(s);
    let m = choose|m: int| s.contains(m) && forall|y: int| s.contains(y) ==> m <= y;
    if j == 0 {
        assert(s.filter(|y: int| y < m) =~= Set::<int>::empty());
        assert(s.contains(m) && rank(s, m) == 0);
    } else {
        let s2 = s.remove(m);
        assert(s2.len() == s.len() - 1);
        lemma_rank_surjective(s2, j - 1);
        let y = choose|y: int| s2.contains(y) && rank(s2, y) == j - 1;
        let b2 = s2.filter(|t: int| t < y);
        s2.lemma_len_filter(|t: int| t < y);
        assert(m < y);
        assert(s.filter(|t: int| t < y) =~= b2.insert(m));
        assert(!b2.contains(m));
        assert(b2.insert(m).len() == b2.len() + 1);
        assert(s.contains(y) && rank(s, y) == j);
    }
}

/// The ids held in a sorted id vector, as a set.
pub open spec fn ids_set(v: Seq<usize>) -> Set<int> {
    v.map_values(|c: usize| c as int).to_set()
}

/// Strictly ascending order.
pub open spec fn strictly_sorted(s: Seq<usize>) -> bool {
    forall|i: int, j: int| 0 <= i < j < s.len() ==> s[i] < s[j]
}

proof fn lemma_ids_set_contains(v: Seq<usize>, x: int)
    ensures
        ids_set(v).contains(x) <==> exists|i: int| 0 <= i < v.len() && (#[trigger] v[i]) as int
            == x,
{
    let f = |c: usize| c as int;
    if ids_set(v).contains(x) {
        let i = choose|i: int| 0 <= i < v.map_values(f).len() && v.map_values(f)[i] == x;
        assert(v[i] as int == x);
    }
    if exists|i: int| 0 <= i < v.len() && (#[trigger] v[i]) as int == x {
        let i = choose|i: int| 0 <= i < v.len() && (#[trigger] v[i]) as int == x;
        assert(v.map_values(f)[i] == x);
        assert(v.map_values(f).contains(x));
    }
}

/// In a strictly sorted vector, the position of an id is its rank.
proof fn lemma_sorted_rank(v: Seq<usize>, j: int)
    requires
        strictly_sorted(v),
        0 <= j < v.len(),
    ensures
        rank(ids_set(v), v[j] as int) == j,
{
    let f = |c: usize| c as int;
    let b = ids_set(v).filter(|y: int| y < v[j] as int);
    let front = v.take(j);
    assert forall|y: int| b.contains(y) implies ids_set(front).contains(y) by {
        lemma_ids_set_contains(v, y);
        let i = choose|i: int| 0 <= i < v.len() && (#[trigger] v[i]) as int == y;
        assert(i < j);
        assert(front[i] as int == y);
        lemma_ids_set_contains(front, y);
    }
    assert forall|y: int| ids_set(front).contains(y) implies b.contains(y) by {
        lemma_ids_set_contains(front, y);
        let i = choose|i: int| 0 <= i < front.len() && (#[trigger] front[i]) as int == y;
        assert(v[i] as int == y);
        lemma_ids_set_contains(v, y);
        assert(v[i] < v[j]);
    }
    assert(b =~= ids_set(front));
    assert(front.map_values(f).no_duplicates()) by {
        assert forall|p: int, q: int|
            0 <= p < q < front.map_values(f).len() implies front.map_values(f)[p] != front
            .map_values(f)[q] by {
            assert(v[p] < v[q]);
        }
    }
    front.map_values(f).unique_seq_to_set();
}

/// Inserts `x` into a strictly sorted vector, keeping it sorted; a no-op
/// when `x` is already present.
fn sorted_insert(v: &mut Vec<usize>, x: usize)
    requires
        strictly_sorted(old(v)@),
    ensures
        strictly_sorted(final(v)@),
        ids_set(final(v)@) == ids_set(old(v)@).insert(x as int),
{
    let n = v.len();
    let mut p: usize = 0;
    while p < n && v[p] < x
        invariant
            0 <= p <= n,
            n == v@.len(),
            forall|i: int| 0 <= i < p ==> (#[trigger] v@[i]) < x,
        decreases n - p,
    {
        p += 1;
    }
    if p < n && v[p] == x {
        proof {
            lemma_ids_set_contains(v@, x as int);
            assert(ids_set(v@).contains(x as int));
            assert(ids_set(v@).insert(x as int) =~= ids_set(v@));
        }
        return ;
    }
    let ghost v0 = v@;
    v.insert(p, x);
    proof {
        v0.insert_ensures(p as int, x);
        assert forall|i: int, j: int| 0 <= i < j < v@.len() implies v@[i] < v@[j] by {
            if j < p {
            } else if i < p && j == p {
            } else if i == p {
                assert(v@[j] == v0[j - 1]);
                if p < v0.len() {
                    assert(v0[p as int] >= x);
                    if j - 1 > p {
                        assert(v0[p as int] < v0[j - 1]);
                    }
                }
            } else if i < p {
                assert(v@[i] == v0[i]);
                assert(v@[j] == v0[j - 1]);
                assert(v0[i] < x);
                assert(v0[p as int] >= x);
            } else {
                assert(v@[i] == v0[i - 1]);
                assert(v@[j] == v0[j - 1]);
            }
        }
        assert forall|y: int|
            ids_set(v@).contains(y) implies ids_set(v0).insert(x as int).contains(y) by {
            lemma_ids_set_contains(v@, y);
            let i = choose|i: int| 0 <= i < v@.len() && (#[trigger] v@[i]) as int == y;
            if i < p {
                assert(v0[i] as int == y);
                lemma_ids_set_contains(v0, y);
            } else if i == p {
            } else {
                assert(v0[i - 1] as int == y);
                lemma_ids_set_contains(v0, y);
            }
        }
        assert forall|y: int|
            ids_set(v0).insert(x as int).contains(y) implies ids_set(v@).contains(y) by {
            if y == x as int {
                assert(v@[p as int] as int == y);
                lemma_ids_set_contains(v@, y);
            } else {
                lemma_ids_set_contains(v0, y);
                let i = choose|i: int| 0 <= i < v0.len() && (#[trigger] v0[i]) as int == y;
                if i < p {
                    assert(v@[i] as int == y);
                } else {
                    assert(v@[i + 1] as int == y);
                }
                lemma_ids_set_contains(v@, y);
            }
        }
        assert(ids_set(v@) =~= ids_set(v0).insert(x as int));
    }
}

/// The position of `x` in an id vector that contains it.
fn find_index(v: &Vec<usize>, x: usize) -> (r: usize)
    requires
        ids_set(v@).contains(x as int),
    ensures
        r < v@.len(),
        v@[r as int] == x,
{
    let n = v.len();
    let mut i: usize = 0;
    while i < n
        invariant
            0 <= i <= n,
            n == v@.len(),
            forall|j: int| 0 <= j < i ==> (#[trigger] v@[j]) != x,
        decreases n - i,
    {
        if v[i] == x {
            return i;
        }
        i += 1;
    }
    proof {
        lemma_ids_set_contains(v@, x as int);
        assert(false);
    }
    0
}

/// Rewrites every id in `records` to its compacted image: afterwards the
/// distinct ids are exactly `0 .. k-1` in the same relative order, and no
/// other field has changed.
pub fn optimize_records_ids(records: &mut Vec<Record>)
    ensures
        final(records)@ == compact_spec(old(records)@),
        crate::data::store_wf(old(records)@) ==> crate::data::store_wf(final(records)@),
{
    let ghost rs = records@;
    let n = records.len();
    let mut ids: Vec<usize> = Vec::new();
    let mut i: usize = 0;
    while i < n
        invariant
            0 <= i <= n,
            n == records@.len(),
            records@ == rs,
            strictly_sorted(ids@),
            ids_set(ids@) == id_set(records@.take(i as int)),
        decreases n - i,
    {
        proof {
            assert(records@.take(i + 1).drop_last() =~= records@.take(i as int));
            assert(records@.take(i + 1).last() == records@[i as int]);
        }
        let w = records[i].what_id;
        let l = records[i].location_id;
        sorted_insert(&mut ids, w);
        sorted_insert(&mut ids, l);
        i += 1;
    }
    proof {
        assert(records@.take(n as int) =~= records@);
    }
    let mut out: Vec<Record> = Vec::new();
    let mut i: usize = 0;
    while i < n
        invariant
            0 <= i <= n,
            n == records@.len(),
            records@ == rs,
            strictly_sorted(ids@),
            ids_set(ids@) == id_set(rs),
            out@.len() == i,
            forall|k: int| 0 <= k < i ==> out@[k] == compact_record(rs, rs[k]),
        decreases n - i,
    {
        let r = &records[i];
        proof {
            lemma_id_set_contains(rs, r.what_id as int);
            lemma_id_set_contains(rs, r.location_id as int);
        }
        let w = find_index(&ids, r.what_id);
        let l = find_index(&ids, r.location_id);
        proof {
            lemma_sorted_rank(ids@, w as int);
            lemma_sorted_rank(ids@, l as int);
        }
        out.push(
            Record {
                created: r.created.clone(),
                location: r.location.clone(),
                location_id: l,
                notes: r.notes.clone(),
                updated: r.updated.clone(),
                what: r.what.clone(),
                what_id: w,
            },
        );
        i += 1;
    }
    *records = out;
    proof {
        assert(records@ =~= compact_spec(rs));
        if crate::data::store_wf(rs) {
            lemma_compact_preserves_store_wf(rs);
        }
    }
}

/// Order preservation: if `a < b` are ids used in the store, compaction
/// keeps their relative order.
pub proof fn lemma_compact_order_preserving(rs: Seq<Record>, a: int, b: int)
    requires
        id_set(rs).contains(a),
        id_set(rs).contains(b),
        a < b,
    ensures
        compact_id(rs, a) < compact_id(rs, b),
{
    lemma_id_set_bounds(rs);
    lemma_rank_strict_mono(id_set(rs), a, b);
}

/// Density: after compaction the set of distinct ids is exactly
/// `{0, ..., k-1}` for `k` the number of distinct ids before.
pub proof fn lemma_compact_dense(rs: Seq<Record>)
    ensures
        id_set(compact_spec(rs)) == set_int_range(0, id_set(rs).len() as int),
{
    let s = id_set(rs);
    let c = compact_spec(rs);
    let k = s.len() as int;
    lemma_id_set_bounds(rs);
    assert forall|x: int| id_set(c).contains(x) implies set_int_range(0, k).contains(x) by {
        lemma_id_set_contains(c, x);
        let i = choose|i: int|
            0 <= i < c.len() && ((#[trigger] c[i]).what_id as int == x || c[i].location_id as int
                == x);
        assert(c[i] == compact_record(rs, rs[i]));
        lemma_id_set_contains(rs, rs[i].what_id as int);
        lemma_id_set_contains(rs, rs[i].location_id as int);
        assert(s.contains(rs[i].what_id as int)) by {
            assert(rs[i].what_id as int == rs[i].what_id as int || rs[i].location_id as int == rs[
                i
            ].what_id as int);
        }
        assert(s.contains(rs[i].location_id as int));
        lemma_rank_le(s, rs[i].what_id as int);
        lemma_rank_le(s, rs[i].location_id as int);
        lemma_rank_lt(s, rs[i].what_id as int);
        lemma_rank_lt(s, rs[i].location_id as int);
    }
    assert forall|x: int| set_int_range(0, k).contains(x) implies id_set(c).contains(x) by {
        lemma_rank_surjective(s, x);
        let y = choose|y: int| s.contains(y) && rank(s, y) == x;
        lemma_id_set_contains(rs, y);
        let i = choose|i: int|
            0 <= i < rs.len() && ((#[trigger] rs[i]).what_id as int == y || rs[i].location_id as int
                == y);
        assert(c[i] == compact_record(rs, rs[i]));
        lemma_rank_le(s, y);
        assert(c[i].what_id as int == x || c[i].location_id as int == x);
        lemma_id_set_contains(c, x);
    }
    assert(id_set(c) =~= set_int_range(0, k));
}

/// Idempotence: compacting an already compacted store changes nothing.
pub proof fn lemma_compact_idempotent(rs: Seq<Record>)
    ensures
        compact_spec(compact_spec(rs)) == compact_spec(rs),
{
    let s = id_set(rs);
    let c = compact_spec(rs);
    let k = s.len() as int;
    lemma_compact_dense(rs);
    lemma_int_range(0, k);
    assert forall|x: int| id_set(c).contains(x) implies rank(id_set(c), x) == x by {
        assert(0 <= x < k);
        assert(id_set(c).filter(|y: int| y < x) =~= set_int_range(0, x));
        lemma_int_range(0, x);
    }
    assert forall|i: int| 0 <= i < c.len() implies #[trigger] compact_spec(c)[i] == c[i] by {
        lemma_id_set_contains(c, c[i].what_id as int);
        lemma_id_set_contains(c, c[i].location_id as int);
        assert(id_set(c).contains(c[i].what_id as int)) by {
            assert(c[i].what_id as int == c[i].what_id as int || c[i].location_id as int == c[
                i
            ].what_id as int);
        }
        assert(id_set(c).contains(c[i].location_id as int));
        assert(compact_spec(c)[i] == compact_record(c, c[i]));
    }
    assert(compact_spec(c) =~= c);
}

/// Distinct ids keep distinct images.
pub proof fn lemma_rank_injective(s: Set<int>, a: int, b: int)
    requires
        s.finite(),
        s.contains(a),
        s.contains(b),
        a != b,
    ensures
        rank(s, a) != rank(s, b),
{
    if a < b {
        lemma_rank_strict_mono(s, a, b);
    } else {
        lemma_rank_strict_mono(s, b, a);
    }
}

/// Compaction preserves the store invariant: images of distinct
/// `what_id`s stay distinct, and every occurrence of an id keeps the one
/// string it had.
pub proof fn lemma_compact_preserves_store_wf(rs: Seq<Record>)
    requires
        crate::data::store_wf(rs),
    ensures
        crate::data::store_wf(compact_spec(rs)),
{
    let c = compact_spec(rs);
    let s = id_set(rs);
    lemma_id_set_bounds(rs);
    assert(crate::data::whats_unique(c)) by {
        assert forall|i: int, j: int|
            0 <= i < c.len() && 0 <= j < c.len() && i != j implies (#[trigger] c[i]).what_id != (
        #[trigger] c[j]).what_id by {
            lemma_compact_entry(rs, i);
            lemma_compact_entry(rs, j);
            assert(rs[i].what_id != rs[j].what_id);
            lemma_rank_injective(s, rs[i].what_id as int, rs[j].what_id as int);
        }
    }
    assert(crate::data::id_strings_consistent(c)) by {
        assert forall|i: int, j: int|
            0 <= i < c.len() && 0 <= j < c.len() implies {
            &&& ((#[trigger] c[i]).what_id == (#[trigger] c[j]).what_id ==> c[i].what@
                == c[j].what@)
            &&& (c[i].what_id == c[j].location_id ==> c[i].what@ == c[j].location@)
            &&& (c[i].location_id == c[j].location_id ==> c[i].location@ == c[j].location@)
        } by {
            lemma_compact_entry(rs, i);
            lemma_compact_entry(rs, j);
            if c[i].what_id == c[j].what_id && rs[i].what_id as int != rs[j].what_id as int {
                lemma_rank_injective(s, rs[i].what_id as int, rs[j].what_id as int);
            }
            if c[i].what_id == c[j].location_id && rs[i].what_id as int != rs[
                j
            ].location_id as int {
                lemma_rank_injective(s, rs[i].what_id as int, rs[j].location_id as int);
            }
            if c[i].location_id == c[j].location_id && rs[i].location_id as int != rs[
                j
            ].location_id as int {
                lemma_rank_injective(s, rs[i].location_id as int, rs[j].location_id as int);
            }
        }
    }
}

proof fn lemma_compact_entry(rs: Seq<Record>, i: int)
    requires
        0 <= i < rs.len(),
    ensures
        id_set(rs).contains(rs[i].what_id as int),
        id_set(rs).contains(rs[i].location_id as int),
        compact_spec(rs)[i].what_id as int == rank(id_set(rs), rs[i].what_id as int),
        compact_spec(rs)[i].location_id as int == rank(id_set(rs), rs[i].location_id as int),
        compact_spec(rs)[i].what == rs[i].what,
        compact_spec(rs)[i].location == rs[i].location,
{
    let s = id_set(rs);
    lemma_id_set_bounds(rs);
    lemma_id_set_contains(rs, rs[i].what_id as int);
    lemma_id_set_contains(rs, rs[i].location_id as int);
    assert(s.contains(rs[i].what_id as int)) by {
        assert(rs[i].what_id as int == rs[i].what_id as int || rs[i].location_id as int == rs[
            i
        ].what_id as int);
    }
    assert(s.contains(rs[i].location_id as int));
    lemma_rank_le(s, rs[i].what_id as int);
    lemma_rank_le(s, rs[i].location_id as int);
    assert(compact_spec(rs)[i] == compact_record(rs, rs[i]));
}

/// A finite non-empty set of integers has a least member.
proof fn lemma_int_set_min(s: Set<int>)
    requires
        s.finite(),
        s.len() > 0,
    ensures
        exists|m: int| s.contains(m) && forall|y: int| s.contains(y) ==> m <= y,
    decreases s.len(),
{
    let x = s.choose();
    assert(s.contains(x));
    let s2 = s.remove(x);
    assert(s2.len() == s.len() - 1);
    if s2.len() == 0 {
        assert forall|y: int| s.contains(y) implies x <= y by {
            if y != x {
                assert(s2.contains(y));
                assert(s2.len() > 0) by {
                    lemma_len_subset(set![y], s2);
                    assert(set![y].len() == 1) by {
                        assert(set![y] =~= Set::empty().insert(y));
                    }
                }
            }
        }
        assert(s.contains(x) && forall|y: int| s.contains(y) ==> x <= y);
    } else {
        lemma_int_set_min(s2);
        let m2 = choose|m: int| s2.contains(m) && forall|y: int| s2.contains(y) ==> m <= y;
        let m = if m2 < x {
            m2
        } else {
            x
        };
        assert(s.contains(m) && forall|y: int| s.contains(y) ==> m <= y);
    }
}

} // verus!
