//! The record type and the hierarchy context derived from a record
//! sequence.
//!
//! A record links an item (`what`, owning `what_id`) to a container
//! (`location`, referencing `location_id`) in one shared identifier
//! namespace.  The context is recomputed from scratch from the full record
//! sequence whenever a command needs it: bidirectional id/string maps, the
//! id-to-record-index map, the parent/children forest, and the highest id
//! seen (used to allocate fresh ids).
//!
//! The context is modelled by recursive spec maps over the record
//! sequence, where a later record overrides an earlier one ("last writer
//! wins").  The executable context mirrors that model with append-only
//! association vectors: a later entry overrides an earlier one with the
//! same key, so pushing an entry is exactly a model-map `insert`.

use vstd::prelude::*;

verus! {

/// One stored record.  `created` and `updated` are date strings supplied
/// by the caller; the library never reads a clock.
#[derive(Debug, PartialEq, Eq)]
pub struct Record {
    pub created: String,
    pub location: String,
    pub location_id: usize,
    pub notes: String,
    pub updated: String,
    pub what: String,
    pub what_id: usize,
}

impl Clone for Record {
    fn clone(&self) -> (r: Record)
        ensures
            r == *self,
    {
        Record {
            created: self.created.clone(),
            location: self.location.clone(),
            location_id: self.location_id,
            notes: self.notes.clone(),
            updated: self.updated.clone(),
            what: self.what.clone(),
            what_id: self.what_id,
        }
    }
}

/// The store configuration: the backup chain depth, and a reserved
/// encryption key that current logic does not use.
#[derive(Debug)]
pub struct Config {
    pub encryption_key: String,
    pub saved_actions: usize,
}

/// One node of the derived forest.
#[derive(Debug, PartialEq, Eq)]
pub struct TreeNode {
    pub children: Vec<usize>,
    pub parent: Option<usize>,
}

impl Clone for TreeNode {
    fn clone(&self) -> (r: TreeNode)
        ensures
            r.parent == self.parent,
            r.children@ == self.children@,
            r@ == self@,
    {
        let children = self.children.clone();
        proof {
            assert(children@ =~= self.children@);
        }
        TreeNode { children, parent: self.parent }
    }
}

/// The mathematical shape of a forest node.
pub ghost struct Node {
    pub parent: Option<int>,
    pub children: Set<int>,
}

impl View for TreeNode {
    type V = Node;

    open spec fn view(&self) -> Node {
        Node {
            parent: match self.parent {
                Some(p) => Some(p as int),
                None => None,
            },
            children: self.children@.map_values(|c: usize| c as int).to_set(),
        }
    }
}

/// The canonical string of each id, derived from `rs`: each record
/// registers `what_id -> what` and then `location_id -> location`.
pub open spec fn id_to_str_map(rs: Seq<Record>) -> Map<int, Seq<char>>
    decreases rs.len(),
{
    if rs.len() == 0 {
        Map::empty()
    } else {
        let r = rs.last();
        id_to_str_map(rs.drop_last()).insert(r.what_id as int, r.what@).insert(
            r.location_id as int,
            r.location@,
        )
    }
}

/// The id of each string, derived from `rs`: the inverse registration of
/// [`id_to_str_map`].
pub open spec fn str_to_id_map(rs: Seq<Record>) -> Map<Seq<char>, int>
    decreases rs.len(),
{
    if rs.len() == 0 {
        Map::empty()
    } else {
        let r = rs.last();
        str_to_id_map(rs.drop_last()).insert(r.what@, r.what_id as int).insert(
            r.location@,
            r.location_id as int,
        )
    }
}

/// The position of each owned id in the record sequence: defined exactly
/// for ids that are some record's `what_id`.
pub open spec fn idx_map(rs: Seq<Record>) -> Map<int, int>
    decreases rs.len(),
{
    if rs.len() == 0 {
        Map::empty()
    } else {
        idx_map(rs.drop_last()).insert(rs.last().what_id as int, rs.len() - 1)
    }
}

/// The derived forest: each record sets its `what_id` node's parent to its
/// `location_id`, and adds `what_id` to the `location_id` node's children.
pub open spec fn hierarchy_map(rs: Seq<Record>) -> Map<int, Node>
    decreases rs.len(),
{
    if rs.len() == 0 {
        Map::empty()
    } else {
        let m = hierarchy_map(rs.drop_last());
        let r = rs.last();
        let w = r.what_id as int;
        let l = r.location_id as int;
        let wn = if m.contains_key(w) {
            m[w]
        } else {
            Node { parent: None, children: Set::empty() }
        };
        let m1 = m.insert(w, Node { parent: Some(l), children: wn.children });
        let ln = if m1.contains_key(l) {
            m1[l]
        } else {
            Node { parent: None, children: Set::empty() }
        };
        m1.insert(l, Node { parent: ln.parent, children: ln.children.insert(w) })
    }
}

/// The highest id occurring in `rs`, or 0 when `rs` is empty.
pub open spec fn max_id_spec(rs: Seq<Record>) -> int
    decreases rs.len(),
{
    if rs.len() == 0 {
        0
    } else {
        let m = max_id_spec(rs.drop_last());
        let r = rs.last();
        let hi = if r.what_id as int > r.location_id as int {
            r.what_id as int
        } else {
            r.location_id as int
        };
        if hi > m {
            hi
        } else {
            m
        }
    }
}

/// The map read off an id-to-string association vector, a later entry
/// overriding an earlier one.
pub open spec fn assoc_id_str(s: Seq<(usize, String)>) -> Map<int, Seq<char>>
    decreases s.len(),
{
    if s.len() == 0 {
        Map::empty()
    } else {
        assoc_id_str(s.drop_last()).insert(s.last().0 as int, s.last().1@)
    }
}

/// The map read off a string-to-id association vector.
pub open spec fn assoc_str_id(s: Seq<(String, usize)>) -> Map<Seq<char>, int>
    decreases s.len(),
{
    if s.len() == 0 {
        Map::empty()
    } else {
        assoc_str_id(s.drop_last()).insert(s.last().0@, s.last().1 as int)
    }
}

/// The map read off an id-to-id association vector.
pub open spec fn assoc_id_id(s: Seq<(usize, usize)>) -> Map<int, int>
    decreases s.len(),
{
    if s.len() == 0 {
        Map::empty()
    } else {
        assoc_id_id(s.drop_last()).insert(s.last().0 as int, s.last().1 as int)
    }
}

/// Every node entry of an association vector has distinct children.
pub open spec fn nodes_wf(s: Seq<(usize, TreeNode)>) -> bool {
    forall|k: int| 0 <= k < s.len() ==> (#[trigger] s[k]).1.children@.no_duplicates()
}

/// The map read off an id-to-node association vector.
pub open spec fn assoc_id_node(s: Seq<(usize, TreeNode)>) -> Map<int, Node>
    decreases s.len(),
{
    if s.len() == 0 {
        Map::empty()
    } else {
        assoc_id_node(s.drop_last()).insert(s.last().0 as int, s.last().1@)
    }
}

/// The derived, never persisted context of a record sequence.
#[derive(Debug)]
pub struct Context {
    pub id_to_str_map: Vec<(usize, String)>,
    pub str_to_id_map: Vec<(String, usize)>,
    pub id_to_record_idx_map: Vec<(usize, usize)>,
    pub hierarchy: Vec<(usize, TreeNode)>,
    pub max_id: usize,
}

impl Context {
    /// The id-to-string map this context holds.
    pub open spec fn id_to_str(&self) -> Map<int, Seq<char>> {
        assoc_id_str(self.id_to_str_map@)
    }

    /// The string-to-id map this context holds.
    pub open spec fn str_to_id(&self) -> Map<Seq<char>, int> {
        assoc_str_id(self.str_to_id_map@)
    }

    /// The id-to-record-index map this context holds.
    pub open spec fn id_to_idx(&self) -> Map<int, int> {
        assoc_id_id(self.id_to_record_idx_map@)
    }

    /// The forest this context holds.
    pub open spec fn forest(&self) -> Map<int, Node> {
        assoc_id_node(self.hierarchy@)
    }

    /// No node's children vector repeats a child.
    pub open spec fn wf(&self) -> bool {
        nodes_wf(self.hierarchy@)
    }

    /// The context is the one derived from `rs`.
    pub open spec fn derived_from(&self, rs: Seq<Record>) -> bool {
        &&& self.id_to_str() == id_to_str_map(rs)
        &&& self.str_to_id() == str_to_id_map(rs)
        &&& self.id_to_idx() == idx_map(rs)
        &&& self.forest() == hierarchy_map(rs)
        &&& self.max_id as int == max_id_spec(rs)
    }
}

impl Context {
    /// The canonical string of `id`, if any id-to-string entry exists.
    pub fn lookup_id_to_str(&self, id: usize) -> (r: Option<String>)
        ensures
            match r {
                Some(s) => self.id_to_str().contains_key(id as int) && s@ == self.id_to_str()[
                    id as int
                ],
                None => !self.id_to_str().contains_key(id as int),
            },
    {
        let s = &self.id_to_str_map;
        let n = s.len();
        let mut i: usize = n;
        while i > 0
            invariant
                0 <= i <= n,
                n == s@.len(),
                s@ == self.id_to_str_map@,
                forall|j: int| i <= j < n ==> (#[trigger] s@[j]).0 != id,
            decreases i,
        {
            i -= 1;
            if s[i].0 == id {
                proof {
                    lemma_assoc_id_str_last_wins(s@, i as int);
                }
                return Some(s[i].1.clone());
            }
        }
        proof {
            lemma_assoc_id_str_absent(s@, id);
        }
        None
    }

    /// The id of string `key`, if any string-to-id entry exists.
    pub fn lookup_str_to_id(&self, key: &String) -> (r: Option<usize>)
        ensures
            match r {
                Some(v) => self.str_to_id().contains_key(key@) && v as int == self.str_to_id()[
                    key@
                ],
                None => !self.str_to_id().contains_key(key@),
            },
    {
        let s = &self.str_to_id_map;
        let n = s.len();
        let mut i: usize = n;
        while i > 0
            invariant
                0 <= i <= n,
                n == s@.len(),
                s@ == self.str_to_id_map@,
                forall|j: int| i <= j < n ==> (#[trigger] s@[j]).0@ != key@,
            decreases i,
        {
            i -= 1;
            if s[i].0 == *key {
                proof {
                    lemma_assoc_str_id_last_wins(s@, i as int);
                }
                return Some(s[i].1);
            }
        }
        proof {
            lemma_assoc_str_id_absent(s@, key@);
        }
        None
    }

    /// The record index owning `id`, if `id` is some record's `what_id`.
    pub fn lookup_idx(&self, id: usize) -> (r: Option<usize>)
        ensures
            match r {
                Some(v) => self.id_to_idx().contains_key(id as int) && v as int == self.id_to_idx()[
                    id as int
                ],
                None => !self.id_to_idx().contains_key(id as int),
            },
    {
        let s = &self.id_to_record_idx_map;
        let n = s.len();
        let mut i: usize = n;
        while i > 0
            invariant
                0 <= i <= n,
                n == s@.len(),
                s@ == self.id_to_record_idx_map@,
                forall|j: int| i <= j < n ==> (#[trigger] s@[j]).0 != id,
            decreases i,
        {
            i -= 1;
            if s[i].0 == id {
                proof {
                    lemma_assoc_id_id_last_wins(s@, i as int);
                }
                return Some(s[i].1);
            }
        }
        proof {
            lemma_assoc_id_id_absent(s@, id);
        }
        None
    }

    /// Whether the forest has a node for `id`.
    pub fn forest_contains(&self, id: usize) -> (r: bool)
        ensures
            r == self.forest().contains_key(id as int),
    {
        let s = &self.hierarchy;
        let n = s.len();
        let mut i: usize = n;
        while i > 0
            invariant
                0 <= i <= n,
                n == s@.len(),
                s@ == self.hierarchy@,
                forall|j: int| i <= j < n ==> (#[trigger] s@[j]).0 != id,
            decreases i,
        {
            i -= 1;
            if s[i].0 == id {
                proof {
                    lemma_assoc_id_node_last_wins(s@, i as int);
                }
                return true;
            }
        }
        proof {
            lemma_assoc_id_node_absent(s@, id);
        }
        false
    }

    /// The distinct keys of the forest, in order of first appearance.
    pub fn forest_keys(&self) -> (keys: Vec<usize>)
        ensures
            keys@.no_duplicates(),
            forall|k: usize| keys@.contains(k) <==> self.forest().contains_key(k as int),
    {
        let s = &self.hierarchy;
        let n = s.len();
        let mut keys: Vec<usize> = Vec::new();
        let mut i: usize = 0;
        while i < n
            invariant
                0 <= i <= n,
                n == s@.len(),
                s@ == self.hierarchy@,
                keys@.no_duplicates(),
                forall|k: usize|
                    keys@.contains(k) <==> exists|j: int| 0 <= j < i && (#[trigger] s@[j]).0 == k,
            decreases n - i,
        {
            let key = s[i].0;
            let ghost k0 = keys@;
            if !children_contain(&keys, key) {
                keys.push(key);
                proof {
                    assert forall|k: usize| #[trigger]
                        keys@.contains(k) implies (exists|j: int|
                        0 <= j < i + 1 && (#[trigger] s@[j]).0 == k) by {
                        let j = choose|j: int| 0 <= j < keys@.len() && keys@[j] == k;
                        if j < k0.len() {
                            assert(k0[j] == k);
                            assert(k0.contains(k));
                        } else {
                            assert(s@[i as int].0 == k);
                        }
                    }
                    assert forall|k: usize| (exists|j: int|
                        0 <= j < i + 1 && (#[trigger] s@[j]).0 == k) implies #[trigger]
                        keys@.contains(k) by {
                        let j = choose|j: int| 0 <= j < i + 1 && (#[trigger] s@[j]).0 == k;
                        if j < i {
                            assert(k0.contains(k));
                            let q = choose|q: int| 0 <= q < k0.len() && k0[q] == k;
                            assert(keys@[q] == k);
                        } else {
                            assert(keys@[keys@.len() - 1] == k);
                        }
                    }
                    assert(forall|q: int| 0 <= q < k0.len() ==> #[trigger] keys@[q] == k0[q]);
                    assert(keys@.no_duplicates());
                }
            } else {
                proof {
                    assert forall|k: usize| (exists|j: int|
                        0 <= j < i + 1 && (#[trigger] s@[j]).0 == k) implies #[trigger]
                        keys@.contains(k) by {
                        let j = choose|j: int| 0 <= j < i + 1 && (#[trigger] s@[j]).0 == k;
                        if j == i as int {
                            assert(keys@.contains(key));
                        }
                    }
                }
            }
            i += 1;
        }
        proof {
            assert forall|k: usize| #[trigger]
                keys@.contains(k) implies self.forest().contains_key(k as int) by {
                let j = choose|j: int| 0 <= j < n && (#[trigger] s@[j]).0 == k;
                lemma_assoc_id_node_present(s@, j);
            }
            assert forall|k: usize|
                self.forest().contains_key(k as int) implies #[trigger] keys@.contains(k) by {
                if !(exists|j: int| 0 <= j < n && (#[trigger] s@[j]).0 == k) {
                    lemma_assoc_id_node_absent(s@, k);
                }
            }
        }
        keys
    }

    /// The node of `id` in the forest, if present.
    pub fn forest_node(&self, id: usize) -> (r: Option<TreeNode>)
        ensures
            match r {
                Some(node) => self.forest().contains_key(id as int) && node@ == self.forest()[
                    id as int
                ] && (self.wf() ==> node.children@.no_duplicates()),
                None => !self.forest().contains_key(id as int),
            },
    {
        hierarchy_find(&self.hierarchy, id)
    }
}

proof fn lemma_assoc_id_str_last_wins(s: Seq<(usize, String)>, i: int)
    requires
        0 <= i < s.len(),
        forall|j: int| i < j < s.len() ==> (#[trigger] s[j]).0 != s[i].0,
    ensures
        assoc_id_str(s).contains_key(s[i].0 as int),
        assoc_id_str(s)[s[i].0 as int] == s[i].1@,
    decreases s.len(),
{
    if i < s.len() - 1 {
        assert(s.drop_last()[i] == s[i]);
        lemma_assoc_id_str_last_wins(s.drop_last(), i);
    }
}

proof fn lemma_assoc_id_str_absent(s: Seq<(usize, String)>, key: usize)
    requires
        forall|j: int| 0 <= j < s.len() ==> (#[trigger] s[j]).0 != key,
    ensures
        !assoc_id_str(s).contains_key(key as int),
    decreases s.len(),
{
    if s.len() > 0 {
        assert(forall|j: int| 0 <= j < s.len() - 1 ==> (#[trigger] s.drop_last()[j]).0 != key);
        lemma_assoc_id_str_absent(s.drop_last(), key);
    }
}

proof fn lemma_assoc_str_id_last_wins(s: Seq<(String, usize)>, i: int)
    requires
        0 <= i < s.len(),
        forall|j: int| i < j < s.len() ==> (#[trigger] s[j]).0@ != s[i].0@,
    ensures
        assoc_str_id(s).contains_key(s[i].0@),
        assoc_str_id(s)[s[i].0@] == s[i].1 as int,
    decreases s.len(),
{
    if i < s.len() - 1 {
        assert(s.drop_last()[i] == s[i]);
        lemma_assoc_str_id_last_wins(s.drop_last(), i);
    }
}

proof fn lemma_assoc_str_id_absent(s: Seq<(String, usize)>, key: Seq<char>)
    requires
        forall|j: int| 0 <= j < s.len() ==> (#[trigger] s[j]).0@ != key,
    ensures
        !assoc_str_id(s).contains_key(key),
    decreases s.len(),
{
    if s.len() > 0 {
        assert(forall|j: int| 0 <= j < s.len() - 1 ==> (#[trigger] s.drop_last()[j]).0@ != key);
        lemma_assoc_str_id_absent(s.drop_last(), key);
    }
}

proof fn lemma_assoc_id_id_last_wins(s: Seq<(usize, usize)>, i: int)
    requires
        0 <= i < s.len(),
        forall|j: int| i < j < s.len() ==> (#[trigger] s[j]).0 != s[i].0,
    ensures
        assoc_id_id(s).contains_key(s[i].0 as int),
        assoc_id_id(s)[s[i].0 as int] == s[i].1 as int,
    decreases s.len(),
{
    if i < s.len() - 1 {
        assert(s.drop_last()[i] == s[i]);
        lemma_assoc_id_id_last_wins(s.drop_last(), i);
    }
}

proof fn lemma_assoc_id_id_absent(s: Seq<(usize, usize)>, key: usize)
    requires
        forall|j: int| 0 <= j < s.len() ==> (#[trigger] s[j]).0 != key,
    ensures
        !assoc_id_id(s).contains_key(key as int),
    decreases s.len(),
{
    if s.len() > 0 {
        assert(forall|j: int| 0 <= j < s.len() - 1 ==> (#[trigger] s.drop_last()[j]).0 != key);
        lemma_assoc_id_id_absent(s.drop_last(), key);
    }
}

/// Every id-to-index entry points at an in-range record that owns the id.
pub proof fn lemma_idx_map_points_home(rs: Seq<Record>, k: int)
    requires
        idx_map(rs).contains_key(k),
    ensures
        0 <= idx_map(rs)[k] < rs.len(),
        rs[idx_map(rs)[k]].what_id as int == k,
    decreases rs.len(),
{
    if rs.len() > 0 {
        if k == rs.last().what_id as int && idx_map(rs)[k] == rs.len() - 1 {
        } else {
            lemma_idx_map_points_home(rs.drop_last(), k);
            assert(rs.drop_last()[idx_map(rs.drop_last())[k]] == rs[idx_map(rs.drop_last())[k]]);
        }
    }
}

/// An id has an id-to-index entry exactly when some record owns it.
pub proof fn lemma_idx_map_domain(rs: Seq<Record>, k: int)
    ensures
        idx_map(rs).contains_key(k) <==> exists|i: int|
            0 <= i < rs.len() && (#[trigger] rs[i]).what_id as int == k,
    decreases rs.len(),
{
    if rs.len() > 0 {
        lemma_idx_map_domain(rs.drop_last(), k);
        if idx_map(rs).contains_key(k) {
            if k == rs.last().what_id as int {
                assert(rs[rs.len() - 1].what_id as int == k);
            } else {
                let i = choose|i: int|
                    0 <= i < rs.drop_last().len() && (#[trigger] rs.drop_last()[i]).what_id as int
                        == k;
                assert(rs[i].what_id as int == k);
            }
        }
        if exists|i: int| 0 <= i < rs.len() && (#[trigger] rs[i]).what_id as int == k {
            let i = choose|i: int| 0 <= i < rs.len() && (#[trigger] rs[i]).what_id as int == k;
            if i < rs.len() - 1 {
                assert(rs.drop_last()[i].what_id as int == k);
            }
        }
    }
}

/// Every node's parent is itself a forest node and lists the node among
/// its children.  Forests derived from a record sequence always have
/// this shape: each record sets its `what_id` node's parent to its
/// `location_id` and in the same step joins the `location_id` node's
/// children.
pub open spec fn parent_linked(m: Map<int, Node>) -> bool {
    forall|k: int|
        #[trigger] m.contains_key(k) && m[k].parent is Some ==> m.contains_key((m[k].parent)->0)
            && m[(m[k].parent)->0].children.contains(k)
}

/// The forest derived from any record sequence is parent-linked.
pub proof fn lemma_hierarchy_parent_linked(rs: Seq<Record>)
    ensures
        parent_linked(hierarchy_map(rs)),
    decreases rs.len(),
{
    if rs.len() > 0 {
        lemma_hierarchy_parent_linked(rs.drop_last());
        let mp = hierarchy_map(rs.drop_last());
        let r = rs.last();
        let w = r.what_id as int;
        let l = r.location_id as int;
        let wn = if mp.contains_key(w) {
            mp[w]
        } else {
            Node { parent: None, children: Set::empty() }
        };
        let m1 = mp.insert(w, Node { parent: Some(l), children: wn.children });
        let ln = if m1.contains_key(l) {
            m1[l]
        } else {
            Node { parent: None, children: Set::empty() }
        };
        let m2 = m1.insert(l, Node { parent: ln.parent, children: ln.children.insert(w) });
        assert(hierarchy_map(rs) == m2);
        assert forall|k: int|
            m2.contains_key(k) && m2[k].parent is Some implies m2.contains_key(
            (m2[k].parent)->0,
        ) && m2[(m2[k].parent)->0].children.contains(k) by {
            let p = (m2[k].parent)->0;
            if k == l {
                if l == w {
                    assert(m2[l].children.contains(l));
                } else if mp.contains_key(l) {
                    assert(m2[l].parent == mp[l].parent);
                    assert(mp.contains_key(p) && mp[p].children.contains(l));
                    if p == w {
                        assert(m2[w].children == mp[w].children);
                    }
                }
            } else if k == w {
                assert(p == l);
                assert(m2[l].children.contains(w));
            } else {
                assert(m2[k] == mp[k]);
                assert(mp.contains_key(p) && mp[p].children.contains(k));
                if p == w && w != l {
                    assert(m2[w].children == mp[w].children);
                } else if p == w && w == l {
                    assert(m2[l].children == mp[w].children.insert(w));
                } else if p == l {
                    if l == w {
                        assert(m2[l].children == wn.children.insert(w));
                        assert(wn.children == mp[l].children);
                    } else {
                        assert(m2[l].children == mp[l].children.insert(w));
                    }
                }
            }
        }
    }
}

/// Both ids of every record are nodes of the derived forest.
pub proof fn lemma_hierarchy_domain(rs: Seq<Record>, i: int)
    requires
        0 <= i < rs.len(),
    ensures
        hierarchy_map(rs).contains_key(rs[i].what_id as int),
        hierarchy_map(rs).contains_key(rs[i].location_id as int),
    decreases rs.len(),
{
    if i < rs.len() - 1 {
        assert(rs.drop_last()[i] == rs[i]);
        lemma_hierarchy_domain(rs.drop_last(), i);
    }
}

/// No two records own the same `what_id`.
pub open spec fn whats_unique(rs: Seq<Record>) -> bool {
    forall|i: int, j: int|
        0 <= i < rs.len() && 0 <= j < rs.len() && i != j ==> (#[trigger] rs[i]).what_id != (
        #[trigger] rs[j]).what_id
}

/// Each id carries exactly one string: any two occurrences of an id,
/// as `what_id` or `location_id`, agree on the string beside them.
pub open spec fn id_strings_consistent(rs: Seq<Record>) -> bool {
    forall|i: int, j: int|
        0 <= i < rs.len() && 0 <= j < rs.len() ==> {
            &&& ((#[trigger] rs[i]).what_id == (#[trigger] rs[j]).what_id ==> rs[i].what@ == rs[
                j
            ].what@)
            &&& (rs[i].what_id == rs[j].location_id ==> rs[i].what@ == rs[j].location@)
            &&& (rs[i].location_id == rs[j].location_id ==> rs[i].location@ == rs[j].location@)
        }
}

/// The store invariant: unique `what_id`s, and one string per id.
pub open spec fn store_wf(rs: Seq<Record>) -> bool {
    whats_unique(rs) && id_strings_consistent(rs)
}

/// Every id in the store is bounded by the running maximum.
pub proof fn lemma_max_id_bound(rs: Seq<Record>, i: int)
    requires
        0 <= i < rs.len(),
    ensures
        rs[i].what_id as int <= max_id_spec(rs),
        rs[i].location_id as int <= max_id_spec(rs),
    decreases rs.len(),
{
    if i < rs.len() - 1 {
        assert(rs.drop_last()[i] == rs[i]);
        lemma_max_id_bound(rs.drop_last(), i);
    }
}

/// A string-to-id entry was registered by some record, as its `what` or
/// its `location` pair.
pub proof fn lemma_str_to_id_registrar(rs: Seq<Record>, t: Seq<char>)
    requires
        str_to_id_map(rs).contains_key(t),
    ensures
        exists|i: int|
            0 <= i < rs.len() && (((#[trigger] rs[i]).what@ == t && rs[i].what_id as int
                == str_to_id_map(rs)[t]) || (rs[i].location@ == t && rs[i].location_id as int
                == str_to_id_map(rs)[t])),
    decreases rs.len(),
{
    if rs.len() > 0 {
        let r = rs.last();
        if r.location@ == t && str_to_id_map(rs)[t] == r.location_id as int {
            assert(rs[rs.len() - 1].location@ == t);
        } else if r.what@ == t && str_to_id_map(rs)[t] == r.what_id as int {
            assert(rs[rs.len() - 1].what@ == t);
        } else {
            lemma_str_to_id_registrar(rs.drop_last(), t);
            let i = choose|i: int|
                0 <= i < rs.drop_last().len() && (((#[trigger] rs.drop_last()[i]).what@ == t
                    && rs.drop_last()[i].what_id as int == str_to_id_map(rs.drop_last())[t]) || (
                rs.drop_last()[i].location@ == t && rs.drop_last()[i].location_id as int
                    == str_to_id_map(rs.drop_last())[t]));
            assert(rs[i] == rs.drop_last()[i]);
        }
    }
}

/// An id-to-string entry was registered by some record, as its `what` or
/// its `location` pair.
pub proof fn lemma_id_to_str_registrar(rs: Seq<Record>, v: int)
    requires
        id_to_str_map(rs).contains_key(v),
    ensures
        exists|i: int|
            0 <= i < rs.len() && (((#[trigger] rs[i]).what_id as int == v && rs[i].what@
                == id_to_str_map(rs)[v]) || (rs[i].location_id as int == v && rs[i].location@
                == id_to_str_map(rs)[v])),
    decreases rs.len(),
{
    if rs.len() > 0 {
        let r = rs.last();
        if r.location_id as int == v && id_to_str_map(rs)[v] == r.location@ {
            assert(rs[rs.len() - 1].location_id as int == v);
        } else if r.what_id as int == v && id_to_str_map(rs)[v] == r.what@ {
            assert(rs[rs.len() - 1].what_id as int == v);
        } else {
            lemma_id_to_str_registrar(rs.drop_last(), v);
            let i = choose|i: int|
                0 <= i < rs.drop_last().len() && (((#[trigger] rs.drop_last()[i]).what_id as int
                    == v && rs.drop_last()[i].what@ == id_to_str_map(rs.drop_last())[v]) || (
                rs.drop_last()[i].location_id as int == v && rs.drop_last()[i].location@
                    == id_to_str_map(rs.drop_last())[v]));
            assert(rs[i] == rs.drop_last()[i]);
        }
    }
}

/// Every key of the id-to-string map is an id occurring in the store,
/// hence bounded by the running maximum.
pub proof fn lemma_id_to_str_key_bound(rs: Seq<Record>, v: int)
    requires
        id_to_str_map(rs).contains_key(v),
    ensures
        v <= max_id_spec(rs),
        0 <= v,
{
    lemma_id_to_str_registrar(rs, v);
    let i = choose|i: int|
        0 <= i < rs.len() && (((#[trigger] rs[i]).what_id as int == v && rs[i].what@
            == id_to_str_map(rs)[v]) || (rs[i].location_id as int == v && rs[i].location@
            == id_to_str_map(rs)[v]));
    lemma_max_id_bound(rs, i);
}

/// Every value of the string-to-id map is an id occurring in the store,
/// hence bounded by the running maximum.
pub proof fn lemma_str_to_id_value_bound(rs: Seq<Record>, t: Seq<char>)
    requires
        str_to_id_map(rs).contains_key(t),
    ensures
        str_to_id_map(rs)[t] <= max_id_spec(rs),
        0 <= str_to_id_map(rs)[t],
{
    lemma_str_to_id_registrar(rs, t);
    let i = choose|i: int|
        0 <= i < rs.len() && (((#[trigger] rs[i]).what@ == t && rs[i].what_id as int
            == str_to_id_map(rs)[t]) || (rs[i].location@ == t && rs[i].location_id as int
            == str_to_id_map(rs)[t]));
    lemma_max_id_bound(rs, i);
}

/// Derives the context of `records` in one linear pass.
pub fn get_context(records: &Vec<Record>) -> (ctx: Context)
    ensures
        ctx.derived_from(records@),
        ctx.wf(),
{
    let mut ctx = Context {
        id_to_str_map: Vec::new(),
        str_to_id_map: Vec::new(),
        id_to_record_idx_map: Vec::new(),
        hierarchy: Vec::new(),
        max_id: 0,
    };
    let n = records.len();
    let mut idx: usize = 0;
    while idx < n
        invariant
            0 <= idx <= n,
            n == records@.len(),
            ctx.derived_from(records@.take(idx as int)),
            ctx.wf(),
        decreases n - idx,
    {
        let r = &records[idx];
        proof {
            assert(records@.take(idx + 1).drop_last() =~= records@.take(idx as int));
            assert(records@.take(idx + 1).last() == records@[idx as int]);
        }
        let ghost s0 = ctx.str_to_id_map@;
        ctx.str_to_id_map.push((r.what.clone(), r.what_id));
        let ghost s1 = ctx.str_to_id_map@;
        ctx.str_to_id_map.push((r.location.clone(), r.location_id));
        proof {
            assert(s1.drop_last() =~= s0);
            assert(ctx.str_to_id_map@.drop_last() =~= s1);
            assert(assoc_str_id(s1) == assoc_str_id(s0).insert(r.what@, r.what_id as int));
        }
        let ghost d0 = ctx.id_to_str_map@;
        ctx.id_to_str_map.push((r.what_id, r.what.clone()));
        let ghost d1 = ctx.id_to_str_map@;
        ctx.id_to_str_map.push((r.location_id, r.location.clone()));
        proof {
            assert(d1.drop_last() =~= d0);
            assert(ctx.id_to_str_map@.drop_last() =~= d1);
            assert(assoc_id_str(d1) == assoc_id_str(d0).insert(r.what_id as int, r.what@));
        }
        let wn = hierarchy_node_or_empty(&ctx.hierarchy, r.what_id);
        let ghost h0 = ctx.hierarchy@;
        ctx.hierarchy.push(
            (r.what_id, TreeNode { parent: Some(r.location_id), children: wn.children }),
        );
        proof {
            assert(ctx.hierarchy@.drop_last() =~= h0);
        }
        let ln = hierarchy_node_or_empty(&ctx.hierarchy, r.location_id);
        let ghost ln_view = ln@;
        let lparent = ln.parent;
        let mut new_children = ln.children;
        let ghost cv = new_children@;
        if !children_contain(&new_children, r.what_id) {
            new_children.push(r.what_id);
            proof {
                lemma_children_push(cv, r.what_id);
                assert(new_children@.map_values(|c: usize| c as int).to_set() == ln_view
                    .children.insert(r.what_id as int));
                assert(new_children@.no_duplicates());
            }
        } else {
            proof {
                assert(ln_view.children.contains(r.what_id as int)) by {
                    let w = choose|w: int| 0 <= w < cv.len() && cv[w] == r.what_id;
                    assert(cv.map_values(|c: usize| c as int)[w] == r.what_id as int);
                    assert(cv.map_values(|c: usize| c as int).contains(r.what_id as int));
                }
                assert(new_children@.map_values(|c: usize| c as int).to_set() =~= ln_view
                    .children.insert(r.what_id as int));
            }
        }
        let ghost h1 = ctx.hierarchy@;
        ctx.hierarchy.push((r.location_id, TreeNode { parent: lparent, children: new_children }));
        proof {
            assert(ctx.hierarchy@.drop_last() =~= h1);
        }
        if r.what_id > ctx.max_id {
            ctx.max_id = r.what_id;
        }
        if r.location_id > ctx.max_id {
            ctx.max_id = r.location_id;
        }
        let ghost x0 = ctx.id_to_record_idx_map@;
        ctx.id_to_record_idx_map.push((r.what_id, idx));
        proof {
            assert(ctx.id_to_record_idx_map@.drop_last() =~= x0);
        }
        idx += 1;
    }
    proof {
        assert(records@.take(n as int) =~= records@);
    }
    ctx
}

/// Looks a key up in a hierarchy association vector: the last entry wins.
fn hierarchy_find(s: &Vec<(usize, TreeNode)>, key: usize) -> (r: Option<TreeNode>)
    ensures
        match r {
            Some(node) => assoc_id_node(s@).contains_key(key as int) && node@ == assoc_id_node(
                s@,
            ).index(key as int) && (nodes_wf(s@) ==> node.children@.no_duplicates()),
            None => !assoc_id_node(s@).contains_key(key as int),
        },
{
    let n = s.len();
    let mut i: usize = n;
    while i > 0
        invariant
            0 <= i <= n,
            n == s@.len(),
            forall|j: int| i <= j < n ==> (#[trigger] s@[j]).0 != key,
        decreases i,
    {
        i -= 1;
        if s[i].0 == key {
            proof {
                lemma_assoc_id_node_last_wins(s@, i as int);
            }
            return Some(s[i].1.clone());
        }
    }
    proof {
        lemma_assoc_id_node_absent(s@, key);
    }
    None
}

/// The node of `key`, or a fresh parentless, childless node when the
/// forest has no entry for it.
fn hierarchy_node_or_empty(s: &Vec<(usize, TreeNode)>, key: usize) -> (node: TreeNode)
    ensures
        node@ == (if assoc_id_node(s@).contains_key(key as int) {
            assoc_id_node(s@)[key as int]
        } else {
            Node { parent: None, children: Set::empty() }
        }),
        nodes_wf(s@) ==> node.children@.no_duplicates(),
{
    match hierarchy_find(s, key) {
        Some(node) => node,
        None => {
            let t = TreeNode { parent: None, children: Vec::new() };
            proof {
                assert(t@.children =~= Set::<int>::empty());
            }
            t
        },
    }
}

proof fn lemma_assoc_id_node_present(s: Seq<(usize, TreeNode)>, j: int)
    requires
        0 <= j < s.len(),
    ensures
        assoc_id_node(s).contains_key(s[j].0 as int),
    decreases s.len(),
{
    if j < s.len() - 1 {
        assert(s.drop_last()[j] == s[j]);
        lemma_assoc_id_node_present(s.drop_last(), j);
    }
}

/// The key set of a node association vector is finite, no larger than
/// the vector.
pub proof fn lemma_assoc_id_node_dom_finite(s: Seq<(usize, TreeNode)>)
    ensures
        assoc_id_node(s).dom().finite(),
        assoc_id_node(s).dom().len() <= s.len(),
    decreases s.len(),
{
    if s.len() > 0 {
        lemma_assoc_id_node_dom_finite(s.drop_last());
        assert(assoc_id_node(s).dom() =~= assoc_id_node(s.drop_last()).dom().insert(
            s.last().0 as int,
        ));
    }
}

proof fn lemma_assoc_id_node_last_wins(s: Seq<(usize, TreeNode)>, i: int)
    requires
        0 <= i < s.len(),
        forall|j: int| i < j < s.len() ==> (#[trigger] s[j]).0 != s[i].0,
    ensures
        assoc_id_node(s).contains_key(s[i].0 as int),
        assoc_id_node(s)[s[i].0 as int] == s[i].1@,
    decreases s.len(),
{
    if i == s.len() - 1 {
    } else {
        assert(s.drop_last()[i] == s[i]);
        lemma_assoc_id_node_last_wins(s.drop_last(), i);
    }
}

fn children_contain(v: &Vec<usize>, x: usize) -> (r: bool)
    ensures
        r == v@.contains(x),
{
    let n = v.len();
    let mut i: usize = 0;
    while i < n
        invariant
            0 <= i <= n,
            n == v@.len(),
            forall|j: int| 0 <= j < i ==> v@[j] != x,
        decreases n - i,
    {
        if v[i] == x {
            return true;
        }
        i += 1;
    }
    false
}

proof fn lemma_children_push(v: Seq<usize>, w: usize)
    ensures
        v.push(w).map_values(|c: usize| c as int).to_set() == v.map_values(
            |c: usize| c as int,
        ).to_set().insert(w as int),
{
    let f = |c: usize| c as int;
    let lhs = v.push(w).map_values(f);
    let rhs = v.map_values(f);
    assert forall|x: int| lhs.to_set().contains(x) implies rhs.to_set().insert(
        w as int,
    ).contains(x) by {
        let i = choose|i: int| 0 <= i < lhs.len() && lhs[i] == x;
        if i < v.len() {
            assert(rhs[i] == x);
            assert(rhs.contains(x));
        }
    };
    assert forall|x: int|
        rhs.to_set().insert(w as int).contains(x) implies lhs.to_set().contains(x) by {
        if x == w as int {
            assert(lhs[v.len() as int] == x);
            assert(lhs.contains(x));
        } else {
            let i = choose|i: int| 0 <= i < rhs.len() && rhs[i] == x;
            assert(lhs[i] == x);
            assert(lhs.contains(x));
        }
    };
    assert(lhs.to_set() =~= rhs.to_set().insert(w as int));
}

proof fn lemma_assoc_id_node_absent(s: Seq<(usize, TreeNode)>, key: usize)
    requires
        forall|j: int| 0 <= j < s.len() ==> (#[trigger] s[j]).0 != key,
    ensures
        !assoc_id_node(s).contains_key(key as int),
    decreases s.len(),
{
    if s.len() > 0 {
        assert(forall|j: int| 0 <= j < s.len() - 1 ==> (#[trigger] s.drop_last()[j]).0 != key);
        lemma_assoc_id_node_absent(s.drop_last(), key);
    }
}

} // verus!
