//! Read-only views of the store: search, listing, statistics, the tree
//! rendering, and the display line of a record.
//!
//! Search matches a record when a query token equals one of its ids, or
//! occurs (ASCII case-insensitively) inside its `what` or `location`
//! string; either side can be skipped.  Listing selects all records,
//! only leaves, or the first record of each root location.

use vstd::prelude::*;
use vstd::string::StrSliceExecFns;
use vstd::string::StringExecFns;
use vstd::utf8::encode_utf8;
use crate::data::Context;
use crate::data::lemma_assoc_id_node_dom_finite;
use crate::data::Node;
use crate::data::Record;
use crate::data::TreeNode;
use crate::text::contains_ci;
use crate::text::dec_str;
use crate::text::dec_val;
use crate::text::is_numeric;
use crate::text::is_substring_bytes;
use crate::text::lower_bytes;
use crate::text::parse_usize;
use crate::text::usize_to_string;

verus! {

/// `q` occurs inside `hay`, both taken ASCII case-insensitively.
pub open spec fn text_matches(hay: Seq<char>, q: Seq<char>) -> bool {
    is_substring_bytes(lower_bytes(encode_utf8(hay)), lower_bytes(encode_utf8(q)))
}

/// One query token matches a record: a numeric token equals one of its
/// ids, or the token occurs inside its `what` or `location` string;
/// `skip_what` and `skip_location` each disable one side.
pub open spec fn query_matches(r: Record, q: Seq<char>, skip_what: bool, skip_location: bool) -> bool {
    ||| (is_numeric(q) && ((!skip_what && r.what_id as int == dec_val(q)) || (!skip_location
        && r.location_id as int == dec_val(q))))
    ||| (!skip_what && text_matches(r.what@, q))
    ||| (!skip_location && text_matches(r.location@, q))
}

/// The search predicate over one record, as a function value.
pub open spec fn search_pred(qs: Seq<Seq<char>>, skip_what: bool, skip_location: bool) -> spec_fn(
    Record,
) -> bool {
    |r: Record| any_query_matches(r, qs, skip_what, skip_location)
}

/// Some query token matches the record.
pub open spec fn any_query_matches(
    r: Record,
    qs: Seq<Seq<char>>,
    skip_what: bool,
    skip_location: bool,
) -> bool {
    exists|qi: int| 0 <= qi < qs.len() && query_matches(r, #[trigger] qs[qi], skip_what, skip_location)
}

fn record_matches(r: &Record, queries: &Vec<String>, skip_what: bool, skip_location: bool) -> (m:
    bool)
    ensures
        m == any_query_matches(*r, queries.deep_view(), skip_what, skip_location),
{
    let n = queries.len();
    let mut qi: usize = 0;
    while qi < n
        invariant
            0 <= qi <= n,
            n == queries@.len(),
            forall|k: int|
                0 <= k < qi ==> !query_matches(
                    *r,
                    #[trigger] queries.deep_view()[k],
                    skip_what,
                    skip_location,
                ),
        decreases n - qi,
    {
        proof {
            assert(queries.deep_view()[qi as int] == queries@[qi as int]@);
        }
        let q = &queries[qi];
        match parse_usize(q.as_str()) {
            Some(id) => {
                if !skip_what && r.what_id == id {
                    return true;
                }
                if !skip_location && r.location_id == id {
                    return true;
                }
            },
            None => {},
        }
        if !skip_what && contains_ci(r.what.as_str(), q.as_str()) {
            return true;
        }
        if !skip_location && contains_ci(r.location.as_str(), q.as_str()) {
            return true;
        }
        qi += 1;
    }
    false
}

/// The records matched by any of the query tokens, in store order.
#[verifier::loop_isolation(false)]
pub fn search_records(
    records: &Vec<Record>,
    queries: &Vec<String>,
    skip_what: bool,
    skip_location: bool,
) -> (out: Vec<Record>)
    ensures
        out@ == records@.filter(search_pred(queries.deep_view(), skip_what, skip_location)),
{
    let ghost pred = search_pred(queries.deep_view(), skip_what, skip_location);
    let mut out: Vec<Record> = Vec::new();
    let n = records.len();
    let mut i: usize = 0;
    while i < n
        invariant
            0 <= i <= n,
            n == records@.len(),
            out@ == records@.take(i as int).filter(pred),
        decreases n - i,
    {
        let ghost prefix = records@.take(i as int);
        proof {
            reveal(Seq::filter);
            assert(records@.take(i + 1) =~= prefix + seq![records@[i as int]]);
            Seq::filter_distributes_over_add(prefix, seq![records@[i as int]], pred);
            assert(seq![records@[i as int]].drop_last() =~= Seq::<Record>::empty());
            assert(Seq::<Record>::empty().filter(pred) =~= Seq::<Record>::empty());
        }
        let r = &records[i];
        if record_matches(r, queries, skip_what, skip_location) {
            out.push(r.clone());
            proof {
                assert(out@ =~= records@.take(i + 1).filter(pred));
            }
        } else {
            proof {
                assert(out@ =~= records@.take(i + 1).filter(pred));
            }
        }
        i += 1;
    }
    proof {
        assert(records@.take(n as int) =~= records@);
    }
    out
}

impl Record {
    /// The display line of a record: item and its id, container and its
    /// id, the update date, and the notes.
    pub fn print_line(&self) -> (r: String)
        ensures
            r@ == "- "@ + self.what@ + " ["@ + dec_str(self.what_id as nat) + "] | "@
                + self.location@ + " ["@ + dec_str(self.location_id as nat) + "] | "@
                + self.updated@ + " | "@ + self.notes@,
    {
        let mut s = String::from_str("- ");
        s.append(self.what.as_str());
        s.append(" [");
        let wid = usize_to_string(self.what_id);
        s.append(wid.as_str());
        s.append("] | ");
        s.append(self.location.as_str());
        s.append(" [");
        let lid = usize_to_string(self.location_id);
        s.append(lid.as_str());
        s.append("] | ");
        s.append(self.updated.as_str());
        s.append(" | ");
        s.append(self.notes.as_str());
        s
    }

    /// The display line of a record's container: the location, its id,
    /// and how many items the location node holds.
    pub fn print_location_with_count(&self, context: &Context) -> (r: String)
        requires
            context.wf(),
            context.forest().contains_key(self.location_id as int),
        ensures
            r@ == "- "@ + self.location@ + " ["@ + dec_str(self.location_id as nat) + "] <"@
                + dec_str(context.forest()[self.location_id as int].children.len()) + " items>"@,
    {
        let node = context.forest_node(self.location_id).unwrap();
        let count = node.children.len();
        proof {
            lemma_distinct_children_count(node.children@);
        }
        let mut s = String::from_str("- ");
        s.append(self.location.as_str());
        s.append(" [");
        let lid = usize_to_string(self.location_id);
        s.append(lid.as_str());
        s.append("] <");
        let c = usize_to_string(count);
        s.append(c.as_str());
        s.append(" items>");
        s
    }
}

/// The number of parentless nodes of a forest.
pub open spec fn root_count(m: Map<int, Node>) -> int {
    m.dom().filter(|k: int| m[k].parent is None).len() as int
}

impl Context {
    /// Counts the root nodes: forest nodes without a parent.
    pub fn count_root_nodes(&self) -> (count: usize)
        ensures
            count as int == root_count(self.forest()),
    {
        let ghost m = self.forest();
        let keys = self.forest_keys();
        let n = keys.len();
        let mut count: usize = 0;
        let ghost counted = Set::<int>::empty();
        let mut i: usize = 0;
        while i < n
            invariant
                0 <= i <= n,
                n == keys@.len(),
                m == self.forest(),
                keys@.no_duplicates(),
                forall|k: usize| keys@.contains(k) <==> self.forest().contains_key(k as int),
                counted.finite(),
                count as int == counted.len(),
                count <= i,
                counted =~= Set::new(
                    |k: int|
                        exists|j: int|
                            0 <= j < i && (#[trigger] keys@[j]) as int == k && m.contains_key(k)
                                && m[k].parent is None,
                ),
            decreases n - i,
        {
            let key = keys[i];
            proof {
                assert(keys@.contains(key)) by {
                    assert(keys@[i as int] == key);
                }
            }
            let node = self.forest_node(key).unwrap();
            let ghost c0 = counted;
            if node.parent.is_none() {
                count += 1;
                proof {
                    counted = counted.insert(key as int);
                    assert(!c0.contains(key as int)) by {
                        if c0.contains(key as int) {
                            let j = choose|j: int|
                                0 <= j < i && (#[trigger] keys@[j]) as int == key as int
                                    && m.contains_key(key as int) && m[key as int].parent is None;
                            assert(keys@[j] == keys@[i as int]);
                        }
                    }
                    assert(counted =~= Set::new(
                        |k: int|
                            exists|j: int|
                                0 <= j < i + 1 && (#[trigger] keys@[j]) as int == k
                                    && m.contains_key(k) && m[k].parent is None,
                    )) by {
                        assert(keys@[i as int] as int == key as int);
                    }
                }
            } else {
                proof {
                    assert(counted =~= Set::new(
                        |k: int|
                            exists|j: int|
                                0 <= j < i + 1 && (#[trigger] keys@[j]) as int == k
                                    && m.contains_key(k) && m[k].parent is None,
                    )) by {
                        assert(m[key as int].parent is Some);
                    }
                }
            }
            i += 1;
        }
        proof {
            let rootset = m.dom().filter(|k: int| m[k].parent is None);
            assert forall|k: int| counted.contains(k) implies rootset.contains(k) by {}
            assert forall|k: int| rootset.contains(k) implies counted.contains(k) by {
                assert(m.contains_key(k));
                assert(0 <= k <= usize::MAX as int) by {
                    if !(0 <= k <= usize::MAX as int) {
                        assert(!keys@.contains(k as usize) ==> !m.contains_key(k as usize as int));
                        lemma_forest_keys_in_range(self.hierarchy@, k);
                    }
                }
                assert(keys@.contains(k as usize));
                let j = choose|j: int| 0 <= j < keys@.len() && keys@[j] == k as usize;
                assert(keys@[j] as int == k);
            }
            assert(counted =~= rootset);
        }
        count
    }
}

/// Every key of a node association map is a `usize` value.
proof fn lemma_forest_keys_in_range(s: Seq<(usize, crate::data::TreeNode)>, k: int)
    requires
        !(0 <= k <= usize::MAX as int),
    ensures
        !crate::data::assoc_id_node(s).contains_key(k),
    decreases s.len(),
{
    if s.len() > 0 {
        lemma_forest_keys_in_range(s.drop_last(), k);
    }
}

/// A record is a leaf when its own node has no children.
pub open spec fn leaf_pred(m: Map<int, Node>) -> spec_fn(Record) -> bool {
    |r: Record|
        m.contains_key(r.what_id as int) && m[r.what_id as int].children =~= Set::<int>::empty()
}

/// The records whose own node has no children, in store order.
#[verifier::loop_isolation(false)]
pub fn list_leaf_records(records: &Vec<Record>, context: &Context) -> (out: Vec<Record>)
    ensures
        out@ == records@.filter(leaf_pred(context.forest())),
{
    let ghost pred = leaf_pred(context.forest());
    let mut out: Vec<Record> = Vec::new();
    let n = records.len();
    let mut i: usize = 0;
    while i < n
        invariant
            0 <= i <= n,
            n == records@.len(),
            out@ == records@.take(i as int).filter(pred),
        decreases n - i,
    {
        let ghost prefix = records@.take(i as int);
        proof {
            reveal(Seq::filter);
            assert(records@.take(i + 1) =~= prefix + seq![records@[i as int]]);
            Seq::filter_distributes_over_add(prefix, seq![records@[i as int]], pred);
            assert(seq![records@[i as int]].drop_last() =~= Seq::<Record>::empty());
            assert(Seq::<Record>::empty().filter(pred) =~= Seq::<Record>::empty());
        }
        let r = &records[i];
        let is_leaf = match context.forest_node(r.what_id) {
            Some(node) => {
                if node.children.len() == 0 {
                    proof {
                        assert(node@.children =~= Set::<int>::empty());
                    }
                    true
                } else {
                    proof {
                        assert(node@.children.contains(node.children@[0] as int)) by {
                            assert(node.children@.map_values(|c: usize| c as int)[0] == node
                                .children@[0] as int);
                            assert(node.children@.map_values(|c: usize| c as int).contains(
                                node.children@[0] as int,
                            ));
                        }
                    }
                    false
                }
            },
            None => false,
        };
        if is_leaf {
            out.push(r.clone());
        }
        proof {
            assert(out@ =~= records@.take(i + 1).filter(pred));
        }
        i += 1;
    }
    proof {
        assert(records@.take(n as int) =~= records@);
    }
    out
}

/// A record sits in a root location: its `location_id` node has no
/// parent.
pub open spec fn is_root_location(m: Map<int, Node>, r: Record) -> bool {
    m.contains_key(r.location_id as int) && m[r.location_id as int].parent is None
}

/// An earlier record already uses this `location_id`.
pub open spec fn has_location(rs: Seq<Record>, lid: int) -> bool {
    exists|j: int| 0 <= j < rs.len() && (#[trigger] rs[j]).location_id as int == lid
}

/// The first record of each root location, in store order: one record
/// per distinct parentless `location_id`.
pub open spec fn roots_spec(rs: Seq<Record>, m: Map<int, Node>) -> Seq<Record>
    decreases rs.len(),
{
    if rs.len() == 0 {
        Seq::empty()
    } else {
        let prev = roots_spec(rs.drop_last(), m);
        let r = rs.last();
        if is_root_location(m, r) && !has_location(rs.drop_last(), r.location_id as int) {
            prev.push(r)
        } else {
            prev
        }
    }
}

/// Lists, for each distinct root location, the first record using it.
#[verifier::loop_isolation(false)]
pub fn list_root_locations(records: &Vec<Record>, context: &Context) -> (out: Vec<Record>)
    ensures
        out@ == roots_spec(records@, context.forest()),
{
    let ghost m = context.forest();
    let mut out: Vec<Record> = Vec::new();
    let n = records.len();
    let mut i: usize = 0;
    while i < n
        invariant
            0 <= i <= n,
            out@ == roots_spec(records@.take(i as int), m),
        decreases n - i,
    {
        proof {
            assert(records@.take(i + 1).drop_last() =~= records@.take(i as int));
            assert(records@.take(i + 1).last() == records@[i as int]);
        }
        let r = &records[i];
        let root_here = match context.forest_node(r.location_id) {
            Some(node) => node.parent.is_none(),
            None => false,
        };
        if root_here {
            let mut seen = false;
            let mut j: usize = 0;
            while j < i
                invariant
                    0 <= j <= i <= n,
                    seen == has_location(records@.take(j as int), records@[i as int].location_id as int),
                decreases i - j,
            {
                proof {
                    assert(records@.take(j + 1).drop_last() =~= records@.take(j as int));
                }
                if records[j].location_id == records[i].location_id {
                    seen = true;
                    proof {
                        assert(records@.take(j + 1)[j as int].location_id == records@[
                            i as int
                        ].location_id);
                        assert(has_location(
                            records@.take(j + 1),
                            records@[i as int].location_id as int,
                        ));
                    }
                } else {
                    proof {
                        if has_location(records@.take(j + 1), records@[i as int].location_id as int) {
                            let w = choose|w: int|
                                0 <= w < j + 1 && (#[trigger] records@.take(j + 1)[w]).location_id
                                    as int == records@[i as int].location_id as int;
                            assert(records@.take(j as int)[if w < j {
                                w
                            } else {
                                0
                            }] == records@.take(j + 1)[if w < j {
                                w
                            } else {
                                0
                            }]);
                            if w == j {
                                assert(false);
                            }
                            assert(has_location(
                                records@.take(j as int),
                                records@[i as int].location_id as int,
                            ));
                        }
                    }
                }
                j += 1;
            }
            proof {
                assert(records@.take(i as int).take(i as int) =~= records@.take(i as int));
            }
            if !seen {
                out.push(r.clone());
            }
        }
        i += 1;
    }
    proof {
        assert(records@.take(n as int) =~= records@);
    }
    out
}

/// A parentless forest node.
pub open spec fn is_root_node(m: Map<int, Node>, k: int) -> bool {
    m.contains_key(k) && m[k].parent is None
}

/// The walk stack holds an entry for id `k`.
pub open spec fn stack_has(st: Seq<(usize, usize)>, k: usize) -> bool {
    exists|q: int| 0 <= q < st.len() && (#[trigger] st[q]).1 == k
}

/// Node `k` appears in the walk's output.
pub open spec fn listed(out: Seq<(usize, usize)>, k: int) -> bool {
    exists|q: int| 0 <= q < out.len() && (#[trigger] out[q]).1 as int == k
}

/// The ranking `h` strictly drops along every parent link of `m`.
pub open spec fn rank_drops(m: Map<int, Node>, h: spec_fn(int) -> nat) -> bool {
    forall|k: int|
        #[trigger] m.contains_key(k) && m[k].parent is Some ==> h((m[k].parent)->0) < h(k)
}

/// The forest is acyclic: some ranking strictly drops along parent
/// links, so following them can never return to a node.
pub open spec fn forest_acyclic(m: Map<int, Node>) -> bool {
    exists|h: spec_fn(int) -> nat| rank_drops(m, h)
}

impl Context {
    /// The forest in display order: a depth-first pre-order walk over
    /// every root node, each entry a `(depth, id)` pair with roots at
    /// depth 1.  A node is never listed twice, so a cyclic store cannot
    /// make the walk run forever.  On an acyclic forest the root and
    /// child-closure clauses below make the listing complete
    /// ([`lemma_tree_walk_complete`], and [`lemma_tree_nodes_complete`]
    /// for the forest of a record sequence), and each deeper entry
    /// follows an entry of a node that has it as a child, one level up.
    #[verifier::loop_isolation(false)]
    pub fn tree_nodes(&self) -> (out: Vec<(usize, usize)>)
        requires
            self.hierarchy@.len() < usize::MAX,
        ensures
            forall|i: int|
                0 <= i < out@.len() ==> self.forest().contains_key(
                    (#[trigger] out@[i]).1 as int,
                ) && out@[i].0 >= 1,
            out@.map_values(|p: (usize, usize)| p.1).no_duplicates(),
            forall|k: int| is_root_node(self.forest(), k) ==> listed(out@, k),
            forall|q: int, c: int|
                #![trigger self.forest()[(out@[q]).1 as int].children.contains(c)]
                0 <= q < out@.len() && self.forest()[(out@[q]).1 as int].children.contains(c)
                    && self.forest().contains_key(c) ==> listed(out@, c),
            forall|q: int|
                0 <= q < out@.len() && (#[trigger] out@[q]).0 == 1 ==> is_root_node(
                    self.forest(),
                    out@[q].1 as int,
                ),
            forall|q: int|
                0 <= q < out@.len() && (#[trigger] out@[q]).0 >= 2 ==> exists|q2: int|
                    0 <= q2 < q && (#[trigger] out@[q2]).0 + 1 == out@[q].0
                        && self.forest().contains_key(out@[q2].1 as int) && self.forest()[out@[
                        q2
                    ].1 as int].children.contains(out@[q].1 as int),
    {
        let ghost m = self.forest();
        let keys = self.forest_keys();
        let mut stack: Vec<(usize, usize)> = Vec::new();
        let kn = keys.len();
        let mut ki: usize = kn;
        while ki > 0
            invariant
                0 <= ki <= kn,
                kn == keys@.len(),
                forall|k: usize|
                    is_root_node(m, k as int) && keys@.contains(k) && (exists|j: int|
                        ki <= j < kn && keys@[j] == k) ==> stack_has(stack@, k),
                forall|e: int|
                    0 <= e < stack@.len() ==> (#[trigger] stack@[e]).0 == 1 && is_root_node(
                        m,
                        stack@[e].1 as int,
                    ),
            decreases ki,
        {
            ki -= 1;
            let key = keys[ki];
            proof {
                assert(keys@.contains(key)) by {
                    assert(keys@[ki as int] == key);
                }
            }
            let ghost st0 = stack@;
            let push_it = match self.forest_node(key) {
                Some(node) => node.parent.is_none(),
                None => false,
            };
            if push_it {
                stack.push((1, key));
            }
            proof {
                assert forall|k: usize|
                    is_root_node(m, k as int) && keys@.contains(k) && (exists|j: int|
                        ki <= j < kn && keys@[j] == k) implies stack_has(stack@, k) by {
                    let j = choose|j: int| ki <= j < kn && (#[trigger] keys@[j]) == k;
                    if j == ki as int {
                        assert(k == key);
                        assert(stack@[stack@.len() - 1].1 == k);
                    } else {
                        assert(stack_has(st0, k));
                        let q = choose|q: int| 0 <= q < st0.len() && (#[trigger] st0[q]).1 == k;
                        assert(stack@[q].1 == k);
                    }
                }
            }
        }
        proof {
            lemma_assoc_id_node_dom_finite(self.hierarchy@);
        }
        let mut out: Vec<(usize, usize)> = Vec::new();
        let mut visited: Vec<usize> = Vec::new();
        while stack.len() > 0
            invariant
                visited@.no_duplicates(),
                forall|v: int| 0 <= v < visited@.len() ==> m.contains_key(
                    (#[trigger] visited@[v]) as int,
                ),
                out@.map_values(|p: (usize, usize)| p.1) == visited@,
                forall|e: int|
                    0 <= e < stack@.len() ==> 1 <= (#[trigger] stack@[e]).0 <= visited@.len() + 1,
                forall|e: int|
                    0 <= e < stack@.len() && (#[trigger] stack@[e]).0 == 1 ==> is_root_node(
                        m,
                        stack@[e].1 as int,
                    ),
                forall|e: int|
                    0 <= e < stack@.len() && (#[trigger] stack@[e]).0 >= 2 ==> exists|q2: int|
                        0 <= q2 < out@.len() && (#[trigger] out@[q2]).0 + 1 == stack@[e].0
                            && m.contains_key(out@[q2].1 as int) && m[out@[
                            q2
                        ].1 as int].children.contains(stack@[e].1 as int),
                forall|q: int|
                    0 <= q < out@.len() ==> 1 <= (#[trigger] out@[q]).0 <= visited@.len(),
                forall|q: int|
                    0 <= q < out@.len() && (#[trigger] out@[q]).0 == 1 ==> is_root_node(
                        m,
                        out@[q].1 as int,
                    ),
                forall|q: int|
                    0 <= q < out@.len() && (#[trigger] out@[q]).0 >= 2 ==> exists|q2: int|
                        0 <= q2 < q && (#[trigger] out@[q2]).0 + 1 == out@[q].0 && m.contains_key(
                            out@[q2].1 as int,
                        ) && m[out@[q2].1 as int].children.contains(out@[q].1 as int),
                forall|k: usize|
                    is_root_node(m, k as int) ==> visited@.contains(k) || stack_has(stack@, k),
                forall|v: int, c: int|
                    #![trigger m[(visited@[v]) as int].children.contains(c)]
                    0 <= v < visited@.len() && m[visited@[v] as int].children.contains(c)
                        && m.contains_key(c) ==> visited@.contains(c as usize) || stack_has(
                        stack@,
                        c as usize,
                    ),
            decreases m.dom().len() - visited@.len(), stack@.len(),
        {
            proof {
                lemma_visited_bound(visited@, m, self.hierarchy@);
            }
            let ghost st0 = stack@;
            let (depth, id) = stack.pop().unwrap();
            proof {
                assert(st0[st0.len() - 1] == (depth, id));
            }
            if ids_contain(&visited, id) {
                proof {
                    lemma_cover_after_pop(st0, id);
                }
                continue ;
            }
            let node = match self.forest_node(id) {
                Some(node) => node,
                None => {
                    proof {
                        lemma_cover_after_pop(st0, id);
                        assert forall|k: usize|
                            is_root_node(m, k as int) implies visited@.contains(k) || stack_has(
                            stack@,
                            k,
                        ) by {
                            if !visited@.contains(k) {
                                assert(k != id);
                            }
                        }
                        assert forall|v: int, c: int|
                            0 <= v < visited@.len() && #[trigger] m[(visited@[
                            v
                        ]) as int].children.contains(c) && m.contains_key(
                            c,
                        ) implies visited@.contains(c as usize) || stack_has(
                            stack@,
                            c as usize,
                        ) by {
                            if !visited@.contains(c as usize) {
                                assert(0 <= c <= usize::MAX as int) by {
                                    if !(0 <= c <= usize::MAX as int) {
                                        lemma_forest_keys_in_range(self.hierarchy@, c);
                                    }
                                }
                                assert(c as usize != id);
                            }
                        }
                    }
                    continue ;
                },
            };
            let ghost v0 = visited@;
            let ghost o0 = out@;
            visited.push(id);
            out.push((depth, id));
            proof {
                assert(out@.map_values(|p: (usize, usize)| p.1) =~= visited@);
                assert(depth <= visited@.len());
                assert forall|q: int|
                    0 <= q < out@.len() && (#[trigger] out@[q]).0 >= 2 implies exists|q2: int|
                    0 <= q2 < q && (#[trigger] out@[q2]).0 + 1 == out@[q].0 && m.contains_key(
                        out@[q2].1 as int,
                    ) && m[out@[q2].1 as int].children.contains(out@[q].1 as int) by {
                    if q < o0.len() {
                        assert(out@[q] == o0[q]);
                        let q2 = choose|q2: int|
                            0 <= q2 < q && (#[trigger] o0[q2]).0 + 1 == o0[q].0 && m.contains_key(
                                o0[q2].1 as int,
                            ) && m[o0[q2].1 as int].children.contains(o0[q].1 as int);
                        assert(out@[q2] == o0[q2]);
                    } else {
                        assert(out@[q] == (depth, id));
                        let q2 = choose|q2: int|
                            0 <= q2 < o0.len() && (#[trigger] o0[q2]).0 + 1 == st0[st0.len()
                                - 1].0 && m.contains_key(o0[q2].1 as int) && m[o0[
                                q2
                            ].1 as int].children.contains(st0[st0.len() - 1].1 as int);
                        assert(out@[q2] == o0[q2]);
                    }
                }
                assert forall|e: int|
                    0 <= e < stack@.len() && (#[trigger] stack@[e]).0 >= 2 implies exists|q2: int|
                    0 <= q2 < out@.len() && (#[trigger] out@[q2]).0 + 1 == stack@[e].0
                        && m.contains_key(out@[q2].1 as int) && m[out@[
                        q2
                    ].1 as int].children.contains(stack@[e].1 as int) by {
                    assert(stack@[e] == st0[e]);
                    let q2 = choose|q2: int|
                        0 <= q2 < o0.len() && (#[trigger] o0[q2]).0 + 1 == st0[e].0
                            && m.contains_key(o0[q2].1 as int) && m[o0[
                            q2
                        ].1 as int].children.contains(st0[e].1 as int);
                    assert(out@[q2] == o0[q2]);
                }
                lemma_cover_after_pop(st0, id);
                assert forall|k: usize|
                    is_root_node(m, k as int) implies visited@.contains(k) || stack_has(
                    stack@,
                    k,
                ) by {
                    if k == id {
                        assert(visited@[visited@.len() - 1] == k);
                    } else if v0.contains(k) {
                        let q = choose|q: int| 0 <= q < v0.len() && v0[q] == k;
                        assert(visited@[q] == k);
                    }
                }
                assert forall|v: int, c: int|
                    0 <= v < v0.len() && #[trigger] m[(visited@[v]) as int].children.contains(c)
                        && m.contains_key(c) implies visited@.contains(c as usize) || stack_has(
                    stack@,
                    c as usize,
                ) by {
                    assert(visited@[v] == v0[v]);
                    if !v0.contains(c as usize) {
                        assert(0 <= c <= usize::MAX as int) by {
                            if !(0 <= c <= usize::MAX as int) {
                                lemma_forest_keys_in_range(self.hierarchy@, c);
                            }
                        }
                        if c as usize == id {
                            assert(visited@[visited@.len() - 1] == c as usize);
                        }
                    } else {
                        let u = choose|u: int| 0 <= u < v0.len() && v0[u] == c as usize;
                        assert(visited@[u] == c as usize);
                    }
                }
            }
            let mut ci: usize = 0;
            let cn = node.children.len();
            while ci < cn
                invariant
                    0 <= ci <= cn,
                    cn == node.children@.len(),
                    forall|e: int|
                        0 <= e < stack@.len() ==> 1 <= (#[trigger] stack@[e]).0 <= visited@.len()
                            + 1,
                    forall|e: int|
                        0 <= e < stack@.len() && (#[trigger] stack@[e]).0 == 1 ==> is_root_node(
                            m,
                            stack@[e].1 as int,
                        ),
                    forall|e: int|
                        0 <= e < stack@.len() && (#[trigger] stack@[e]).0 >= 2 ==> exists|q2: int|
                            0 <= q2 < out@.len() && (#[trigger] out@[q2]).0 + 1 == stack@[e].0
                                && m.contains_key(out@[q2].1 as int) && m[out@[
                                q2
                            ].1 as int].children.contains(stack@[e].1 as int),
                    forall|k: usize|
                        is_root_node(m, k as int) ==> visited@.contains(k) || stack_has(stack@, k),
                    forall|v: int, c: int|
                        #![trigger m[(visited@[v]) as int].children.contains(c)]
                        0 <= v < visited@.len() - 1 && m[visited@[v] as int].children.contains(c)
                            && m.contains_key(c) ==> visited@.contains(c as usize) || stack_has(
                            stack@,
                            c as usize,
                        ),
                    forall|c: int|
                        #![trigger m[id as int].children.contains(c)]
                        m[id as int].children.contains(c) && m.contains_key(c)
                            ==> visited@.contains(c as usize) || stack_has(stack@, c as usize) || (
                        exists|j: int| ci <= j < cn && (#[trigger] node.children@[j]) as int == c),
                decreases cn - ci,
            {
                let ghost st1 = stack@;
                proof {
                    lemma_visited_bound(visited@, m, self.hierarchy@);
                    assert(m.dom().len() <= self.hierarchy@.len());
                    assert(depth < usize::MAX);
                }
                stack.push((depth + 1, node.children[ci]));
                proof {
                    assert(stack@[stack@.len() - 1] == (
                        (depth + 1) as usize,
                        node.children@[ci as int],
                    ));
                    assert(m[id as int].children.contains(node.children@[ci as int] as int)) by {
                        assert(node.children@.map_values(|c: usize| c as int)[ci as int] == node
                            .children@[ci as int] as int);
                        assert(node.children@.map_values(|c: usize| c as int).contains(
                            node.children@[ci as int] as int,
                        ));
                    }
                    assert(out@[out@.len() - 1] == (depth, id));
                    assert forall|e: int|
                        0 <= e < stack@.len() && (#[trigger] stack@[e]).0 >= 2 implies exists|
                        q2: int,
                    |
                        0 <= q2 < out@.len() && (#[trigger] out@[q2]).0 + 1 == stack@[e].0
                            && m.contains_key(out@[q2].1 as int) && m[out@[
                            q2
                        ].1 as int].children.contains(stack@[e].1 as int) by {
                        if e < st1.len() {
                            assert(stack@[e] == st1[e]);
                        } else {
                            assert(out@[out@.len() - 1].0 + 1 == stack@[e].0);
                        }
                    }
                    assert forall|k: usize|
                        is_root_node(m, k as int) implies visited@.contains(k) || stack_has(
                        stack@,
                        k,
                    ) by {
                        if !visited@.contains(k) {
                            let q = choose|q: int| 0 <= q < st1.len() && (#[trigger] st1[q]).1 == k;
                            assert(stack@[q].1 == k);
                        }
                    }
                    assert forall|v: int, c: int|
                        0 <= v < visited@.len() - 1 && #[trigger] m[(visited@[
                        v
                    ]) as int].children.contains(c) && m.contains_key(
                        c,
                    ) implies visited@.contains(c as usize) || stack_has(stack@, c as usize) by {
                        if !visited@.contains(c as usize) {
                            let q = choose|q: int|
                                0 <= q < st1.len() && (#[trigger] st1[q]).1 == c as usize;
                            assert(stack@[q].1 == c as usize);
                        }
                    }
                    assert forall|c: int|
                        #[trigger] m[id as int].children.contains(c) && m.contains_key(
                            c,
                        ) implies visited@.contains(c as usize) || stack_has(stack@, c as usize)
                        || (exists|j: int|
                        ci + 1 <= j < cn && (#[trigger] node.children@[j]) as int == c) by {
                        assert(0 <= c <= usize::MAX as int) by {
                            if !(0 <= c <= usize::MAX as int) {
                                lemma_forest_keys_in_range(self.hierarchy@, c);
                            }
                        }
                        if !visited@.contains(c as usize) && !stack_has(st1, c as usize) {
                            let j = choose|j: int|
                                ci <= j < cn && (#[trigger] node.children@[j]) as int == c;
                            if j == ci as int {
                                assert(stack@[stack@.len() - 1].1 == c as usize);
                            }
                        } else if stack_has(st1, c as usize) {
                            let q = choose|q: int|
                                0 <= q < st1.len() && (#[trigger] st1[q]).1 == c as usize;
                            assert(stack@[q].1 == c as usize);
                        }
                    }
                }
                ci += 1;
            }
            proof {
                lemma_visited_bound(visited@, m, self.hierarchy@);
                assert forall|v: int, c: int|
                    0 <= v < visited@.len() && #[trigger] m[(visited@[v]) as int].children.contains(
                        c,
                    ) && m.contains_key(c) implies visited@.contains(c as usize) || stack_has(
                    stack@,
                    c as usize,
                ) by {
                    if v == visited@.len() - 1 {
                        assert(visited@[v] == id);
                    }
                }
            }
        }
        proof {
            assert forall|i: int|
                0 <= i < out@.len() implies m.contains_key((#[trigger] out@[i]).1 as int) by {
                assert(out@.map_values(|p: (usize, usize)| p.1)[i] == out@[i].1);
                assert(visited@[i] == out@[i].1);
            }
            assert forall|k: int| is_root_node(m, k) implies listed(out@, k) by {
                assert(0 <= k <= usize::MAX as int) by {
                    if !(0 <= k <= usize::MAX as int) {
                        lemma_forest_keys_in_range(self.hierarchy@, k);
                    }
                }
                assert(is_root_node(m, (k as usize) as int));
                assert(visited@.contains(k as usize));
                let u = choose|u: int| 0 <= u < visited@.len() && visited@[u] == k as usize;
                assert(out@.map_values(|p: (usize, usize)| p.1)[u] == out@[u].1);
                assert(out@[u].1 as int == k);
            }
            assert forall|q: int, c: int|
                0 <= q < out@.len() && #[trigger] m[(out@[q]).1 as int].children.contains(c)
                    && m.contains_key(c) implies listed(out@, c) by {
                assert(out@.map_values(|p: (usize, usize)| p.1)[q] == out@[q].1);
                assert(visited@[q] == out@[q].1);
                assert(m[visited@[q] as int].children.contains(c));
                assert(0 <= c <= usize::MAX as int) by {
                    if !(0 <= c <= usize::MAX as int) {
                        lemma_forest_keys_in_range(self.hierarchy@, c);
                    }
                }
                assert(visited@.contains(c as usize));
                let u = choose|u: int| 0 <= u < visited@.len() && visited@[u] == c as usize;
                assert(out@.map_values(|p: (usize, usize)| p.1)[u] == out@[u].1);
                assert(out@[u].1 as int == c);
            }
        }
        out
    }
}

/// On an acyclic, parent-linked forest, a listing that holds every root
/// and is closed under listed nodes' children holds every node: the
/// walk is complete.
pub proof fn lemma_tree_walk_complete(m: Map<int, Node>, out: Seq<(usize, usize)>)
    requires
        crate::data::parent_linked(m),
        forest_acyclic(m),
        forall|k: int| is_root_node(m, k) ==> listed(out, k),
        forall|q: int, c: int|
            #![trigger m[(out[q]).1 as int].children.contains(c)]
            0 <= q < out.len() && m[(out[q]).1 as int].children.contains(c) && m.contains_key(c)
                ==> listed(out, c),
    ensures
        forall|k: int| m.contains_key(k) ==> listed(out, k),
{
    let h = choose|h: spec_fn(int) -> nat| rank_drops(m, h);
    assert forall|k: int| m.contains_key(k) implies listed(out, k) by {
        lemma_walk_reaches(m, out, h, k);
    }
}

proof fn lemma_walk_reaches(m: Map<int, Node>, out: Seq<(usize, usize)>, h: spec_fn(int) -> nat, k: int)
    requires
        crate::data::parent_linked(m),
        rank_drops(m, h),
        forall|k2: int| is_root_node(m, k2) ==> listed(out, k2),
        forall|q: int, c: int|
            #![trigger m[(out[q]).1 as int].children.contains(c)]
            0 <= q < out.len() && m[(out[q]).1 as int].children.contains(c) && m.contains_key(c)
                ==> listed(out, c),
        m.contains_key(k),
    ensures
        listed(out, k),
    decreases h(k),
{
    if m[k].parent is None {
        assert(is_root_node(m, k));
    } else {
        let p = (m[k].parent)->0;
        assert(m.contains_key(p) && m[p].children.contains(k));
        assert(h(p) < h(k));
        lemma_walk_reaches(m, out, h, p);
        let q = choose|q: int| 0 <= q < out.len() && (#[trigger] out[q]).1 as int == p;
        assert(m[(out[q]).1 as int].children.contains(k));
    }
}

/// On the acyclic forest of a record sequence, a listing with the
/// walk's root and child-closure clauses holds every forest node — in
/// particular both ids of every record — and, with the walk's
/// no-duplicates clause, each exactly once.
pub proof fn lemma_tree_nodes_complete(
    rs: Seq<Record>,
    m: Map<int, Node>,
    out: Seq<(usize, usize)>,
)
    requires
        m == crate::data::hierarchy_map(rs),
        forest_acyclic(m),
        forall|k: int| is_root_node(m, k) ==> listed(out, k),
        forall|q: int, c: int|
            #![trigger m[(out[q]).1 as int].children.contains(c)]
            0 <= q < out.len() && m[(out[q]).1 as int].children.contains(c) && m.contains_key(c)
                ==> listed(out, c),
    ensures
        forall|k: int| m.contains_key(k) ==> listed(out, k),
        forall|i: int|
            0 <= i < rs.len() ==> listed(out, (#[trigger] rs[i]).what_id as int) && listed(
                out,
                rs[i].location_id as int,
            ),
{
    crate::data::lemma_hierarchy_parent_linked(rs);
    lemma_tree_walk_complete(m, out);
    assert forall|i: int|
        0 <= i < rs.len() implies listed(out, (#[trigger] rs[i]).what_id as int) && listed(
        out,
        rs[i].location_id as int,
    ) by {
        crate::data::lemma_hierarchy_domain(rs, i);
    }
}

/// Popping the top entry keeps every other id on the stack.
proof fn lemma_cover_after_pop(st0: Seq<(usize, usize)>, id: usize)
    requires
        st0.len() > 0,
        st0.last().1 == id,
    ensures
        forall|k: usize| stack_has(st0, k) && k != id ==> stack_has(st0.drop_last(), k),
{
    assert forall|k: usize| stack_has(st0, k) && k != id implies stack_has(st0.drop_last(), k) by {
        let q = choose|q: int| 0 <= q < st0.len() && (#[trigger] st0[q]).1 == k;
        if q < st0.len() - 1 {
            assert(st0.drop_last()[q].1 == k);
        }
    }
}

/// The indentation of a tree line: six spaces per depth step.
pub open spec fn indent_spec(d: nat) -> Seq<char>
    decreases d,
{
    if d == 0 {
        Seq::empty()
    } else {
        indent_spec((d - 1) as nat) + "      "@
    }
}

/// One rendered tree line: indentation, a `+` for a node with children
/// (`-` otherwise), the node's name, and its id.
pub fn render_tree_line(depth: usize, id: usize, name: &String, has_children: bool) -> (r: String)
    ensures
        r@ == indent_spec(depth as nat) + (if has_children {
            "+"@
        } else {
            "-"@
        }) + " "@ + name@ + " ["@ + dec_str(id as nat) + "]"@,
{
    let mut s = String::new();
    let mut d: usize = 0;
    while d < depth
        invariant
            0 <= d <= depth,
            s@ == indent_spec(d as nat),
        decreases depth - d,
    {
        s.append("      ");
        d += 1;
    }
    if has_children {
        s.append("+");
    } else {
        s.append("-");
    }
    s.append(" ");
    s.append(name.as_str());
    s.append(" [");
    let ids = usize_to_string(id);
    s.append(ids.as_str());
    s.append("]");
    s
}

/// Looks an id up in a list of ids.
fn ids_contain(v: &Vec<usize>, x: usize) -> (r: bool)
    ensures
        r == v@.contains(x),
{
    let n = v.len();
    let mut i: usize = 0;
    while i < n
        invariant
            0 <= i <= n,
            n == v@.len(),
            forall|j: int| 0 <= j < i ==> v@[j] != x,
        decreases n - i,
    {
        if v[i] == x {
            return true;
        }
        i += 1;
    }
    false
}

proof fn lemma_visited_bound(visited: Seq<usize>, m: Map<int, Node>, s: Seq<(usize, TreeNode)>)
    requires
        visited.no_duplicates(),
        forall|v: int| 0 <= v < visited.len() ==> m.contains_key((#[trigger] visited[v]) as int),
        m == crate::data::assoc_id_node(s),
    ensures
        visited.len() <= m.dom().len(),
        m.dom().finite(),
{
    crate::data::lemma_assoc_id_node_dom_finite(s);
    let mapped = visited.map_values(|c: usize| c as int);
    lemma_distinct_children_count(visited);
    assert(mapped.to_set().subset_of(m.dom())) by {
        assert forall|x: int| mapped.to_set().contains(x) implies m.dom().contains(x) by {
            let q = choose|q: int| 0 <= q < mapped.len() && mapped[q] == x;
            assert(m.contains_key(visited[q] as int));
        }
    }
    vstd::set_lib::lemma_len_subset(mapped.to_set(), m.dom());
}


proof fn lemma_distinct_children_count(v: Seq<usize>)
    requires
        v.no_duplicates(),
    ensures
        v.map_values(|c: usize| c as int).to_set().len() == v.len(),
{
    let m = v.map_values(|c: usize| c as int);
    assert(m.no_duplicates()) by {
        assert forall|p: int, q: int| 0 <= p < q < m.len() implies m[p] != m[q] by {
            assert(v[p] != v[q]);
        }
    }
    m.unique_seq_to_set();
}

} // verus!
