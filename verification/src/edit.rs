//! The edit engine: insert, edit and remove operations on the record
//! store.
//!
//! Raw CLI tokens are first assembled into fields (consecutive tokens
//! joined by a single space, the sentinel `$` forcing a field boundary).
//! A field is then resolved as a token: a string of decimal digits names
//! an existing id; a known string reuses its id; a new string is given a
//! fresh id above the highest id in use.  Every failure is detected
//! before any mutation: on an `Err` the store is unchanged.

use vstd::prelude::*;
use vstd::string::StrSliceExecFns;
use vstd::string::StringExecFns;
use crate::data::Context;
use crate::data::Record;
use crate::data::get_context;
use crate::data::hierarchy_map;
use crate::data::id_to_str_map;
use crate::data::idx_map;
use crate::data::lemma_idx_map_points_home;
use crate::data::max_id_spec;
use crate::data::str_to_id_map;
use crate::errors::Error;
use crate::text::dec_val;
use crate::text::get_is_empty_text;
use crate::text::is_empty_tok;
use crate::text::is_numeric;
use crate::text::is_sentinel;
use crate::text::is_sentinel_token;
use crate::text::parse_usize;

verus! {

/// The notes placeholder stored when no notes are given.
pub open spec fn empty_notes() -> Seq<char> {
    "N/A"@
}

/// The default notes text.
pub fn get_empty_notes_text() -> (r: String)
    ensures
        r@ == empty_notes(),
{
    String::from_str("N/A")
}

/// The notes token that resets notes to the placeholder: a single dash.
pub open spec fn is_dash(s: Seq<char>) -> bool {
    s =~= seq!['-']
}

fn is_dash_token(txt: &str) -> (r: bool)
    ensures
        r == is_dash(txt@),
{
    let n = txt.unicode_len();
    if n == 1 {
        let c = txt.get_char(0);
        if c == '-' {
            assert(txt@ =~= seq!['-']);
            true
        } else {
            assert(!(txt@ =~= seq!['-']));
            false
        }
    } else {
        assert(!(txt@ =~= seq!['-']));
        false
    }
}

/// `acc` and `t` joined by one space; an empty `acc` takes `t` whole.
pub open spec fn join_token(acc: Seq<char>, t: Seq<char>) -> Seq<char> {
    if acc.len() == 0 {
        t
    } else {
        acc + seq![' '] + t
    }
}

/// The fields assembled from raw CLI tokens: consecutive tokens joined by
/// a single space; the sentinel `$` ends the current field and opens a
/// new, initially empty one.  The first token is taken literally.
pub open spec fn full_contents_spec(tokens: Seq<Seq<char>>) -> Seq<Seq<char>>
    recommends
        tokens.len() >= 1,
    decreases tokens.len(),
{
    if tokens.len() <= 1 {
        seq![tokens[0]]
    } else {
        let prev = full_contents_spec(tokens.drop_last());
        let t = tokens.last();
        if is_sentinel(t) {
            prev.push(Seq::empty())
        } else {
            prev.update(prev.len() - 1, join_token(prev.last(), t))
        }
    }
}

/// Assembles multi-token fields from raw CLI tokens.
pub fn get_full_contents(contents: &Vec<String>) -> (r: Vec<String>)
    requires
        contents@.len() >= 1,
    ensures
        r.deep_view() == full_contents_spec(contents.deep_view()),
        r@.len() >= 1,
{
    let mut r: Vec<String> = Vec::new();
    r.push(contents[0].clone());
    proof {
        assert(contents.deep_view().take(1).len() == 1);
        assert(contents.deep_view().take(1)[0] == contents@[0]@);
        assert(r.deep_view() =~= full_contents_spec(contents.deep_view().take(1)));
    }
    let n = contents.len();
    let mut i: usize = 1;
    while i < n
        invariant
            1 <= i <= n,
            n == contents@.len(),
            r@.len() >= 1,
            r.deep_view() == full_contents_spec(contents.deep_view().take(i as int)),
        decreases n - i,
    {
        proof {
            assert(contents.deep_view().take(i + 1).drop_last() =~= contents.deep_view().take(
                i as int,
            ));
            assert(contents.deep_view().take(i + 1).last() == contents@[i as int]@);
        }
        let ghost prev = r.deep_view();
        let t = &contents[i];
        if is_sentinel_token(t.as_str()) {
            r.push(String::new());
            proof {
                assert(r.deep_view() =~= prev.push(Seq::<char>::empty()));
            }
        } else {
            let mut last = r.pop().unwrap();
            if last.as_str().unicode_len() == 0 {
                r.push(t.clone());
                proof {
                    assert(r.deep_view() =~= prev.update(
                        prev.len() - 1,
                        join_token(prev.last(), t@),
                    ));
                }
            } else {
                last.append(" ");
                last.append(t.as_str());
                r.push(last);
                proof {
                    reveal_strlit(" ");
                    assert(" "@ =~= seq![' ']);
                    assert(r.deep_view() =~= prev.update(
                        prev.len() - 1,
                        join_token(prev.last(), t@),
                    ));
                }
            }
        }
        i += 1;
    }
    proof {
        assert(contents.deep_view().take(n as int) =~= contents.deep_view());
    }
    r
}

/// Resolution of one token against the id/string maps: a numeric token
/// names an existing id (`None` when the id is unknown); a known string
/// reuses its id; a new string is paired with the caller's fresh id.
pub open spec fn resolve_maps(
    ids: Map<int, Seq<char>>,
    sti: Map<Seq<char>, int>,
    t: Seq<char>,
    fresh: int,
) -> Option<(int, Seq<char>)> {
    if is_numeric(t) {
        if ids.contains_key(dec_val(t)) {
            Some((dec_val(t), ids[dec_val(t)]))
        } else {
            None
        }
    } else if sti.contains_key(t) {
        Some((sti[t], t))
    } else {
        Some((fresh, t))
    }
}

/// Token resolution against the store `rs`.
pub open spec fn resolve_spec(rs: Seq<Record>, t: Seq<char>, fresh: int) -> Option<
    (int, Seq<char>),
> {
    resolve_maps(id_to_str_map(rs), str_to_id_map(rs), t, fresh)
}

fn resolve_token(ctx: &Context, t: &String, fresh: usize) -> (r: Option<(usize, String)>)
    ensures
        match r {
            Some(p) => resolve_maps(ctx.id_to_str(), ctx.str_to_id(), t@, fresh as int) == Some(
                (p.0 as int, p.1@),
            ),
            None => resolve_maps(ctx.id_to_str(), ctx.str_to_id(), t@, fresh as int) is None,
        },
{
    match parse_usize(t.as_str()) {
        Some(v) => {
            match ctx.lookup_id_to_str(v) {
                Some(s) => Some((v, s)),
                None => None,
            }
        },
        None => {
            match ctx.lookup_str_to_id(t) {
                Some(id) => Some((id, t.clone())),
                None => Some((fresh, t.clone())),
            }
        },
    }
}

/// Some record already owns this `what` string.
pub open spec fn what_taken(rs: Seq<Record>, w: Seq<char>) -> bool {
    exists|j: int| 0 <= j < rs.len() && (#[trigger] rs[j]).what@ == w
}

/// Assembles the field tokens of an edit: a sentinel as the very first
/// token immediately following the id is ambiguous (the id already took
/// one position) and is rejected; otherwise the tokens become fields.
pub fn edit_fields_from_tokens(tokens: &Vec<String>) -> (res: Result<Vec<String>, Error>)
    requires
        tokens@.len() >= 1,
    ensures
        ({
            let starts_with_sentinel = tokens@[0]@.len() > 0 && tokens@[0]@[0] == '$';
            match res {
                Ok(fields) => !starts_with_sentinel && fields.deep_view() == full_contents_spec(
                    tokens.deep_view(),
                ) && fields@.len() >= 1,
                Err(e) => starts_with_sentinel && e == Error::Input,
            }
        }),
{
    let first = &tokens[0];
    if first.as_str().unicode_len() > 0 {
        let c = first.as_str().get_char(0);
        if c == '$' {
            return Err(Error::Input);
        }
    }
    Ok(get_full_contents(tokens))
}

/// Some record other than the one at `idx` owns this `what` string.
pub open spec fn what_taken_except(rs: Seq<Record>, w: Seq<char>, idx: int) -> bool {
    exists|j: int| 0 <= j < rs.len() && j != idx && (#[trigger] rs[j]).what@ == w
}

/// The resolution used for an inserted `what`: a fresh string gets
/// `max_id + 1`.
pub open spec fn insert_what_resolution(rs: Seq<Record>, t: Seq<char>) -> Option<(int, Seq<char>)> {
    resolve_spec(rs, t, max_id_spec(rs) + 1)
}

/// The resolution used for an inserted `location`: a fresh string gets
/// `max_id + 2`, so the two fresh allocations of one insert never
/// collide.
pub open spec fn insert_location_resolution(rs: Seq<Record>, t: Seq<char>) -> Option<
    (int, Seq<char>),
> {
    resolve_spec(rs, t, max_id_spec(rs) + 2)
}

/// Everything an insert ensures, in one predicate over the store
/// before (`rs`) and after (`out`), the two tokens, the notes, the date
/// and the result.
pub open spec fn insert_post(
    rs: Seq<Record>,
    what_token: Seq<char>,
    location_token: Seq<char>,
    notes: Option<String>,
    today: Seq<char>,
    res: Result<Record, Error>,
    out: Seq<Record>,
) -> bool {
    let rw = insert_what_resolution(rs, what_token);
    let rl = insert_location_resolution(rs, location_token);
    match res {
        Ok(r) => {
            &&& rw matches Some(w) && rl matches Some(l) && !what_taken(rs, w.1) && {
                &&& r.what@ == w.1
                &&& r.what_id as int == w.0
                &&& r.location@ == l.1
                &&& r.location_id as int == l.0
                &&& r.created@ == today
                &&& r.updated@ == today
                &&& match notes {
                    Some(n) => r.notes == n,
                    None => r.notes@ == empty_notes(),
                }
                &&& out == rs.push(r)
            }
        },
        Err(Error::NotFound(missing)) => {
            &&& out == rs
            &&& (rw is None && missing as int == dec_val(what_token)) || (rw is Some && rl is None
                && missing as int == dec_val(location_token))
        },
        Err(Error::Conflict(name)) => {
            &&& out == rs
            &&& rw matches Some(w) && rl is Some && name@ == w.1 && what_taken(rs, w.1)
        },
        Err(_) => false,
    }
}

/// Duplicate rejection: when both tokens resolve and the resolved
/// `what` string already names a record, an insert reports exactly that
/// conflict, carrying the resolved string, and leaves the store
/// unchanged.
pub proof fn lemma_insert_duplicate_rejected(
    rs: Seq<Record>,
    what_token: Seq<char>,
    location_token: Seq<char>,
    notes: Option<String>,
    today: Seq<char>,
    res: Result<Record, Error>,
    out: Seq<Record>,
)
    requires
        insert_post(rs, what_token, location_token, notes, today, res, out),
        insert_what_resolution(rs, what_token) matches Some(w) && what_taken(rs, w.1),
        insert_location_resolution(rs, location_token) is Some,
    ensures
        res matches Err(Error::Conflict(name)) && name@ == (insert_what_resolution(
            rs,
            what_token,
        )->0).1,
        out == rs,
{
    match res {
        Ok(_) => {
            assert(false);
        },
        Err(Error::NotFound(_)) => {
            assert(false);
        },
        Err(Error::Conflict(_)) => {},
        Err(_) => {
            assert(false);
        },
    }
}

/// Inserts one record.  Both tokens are resolved against the current
/// store; the insert fails with `NotFound` on a numeric token naming an
/// unknown id, and with `Conflict` when the resolved `what` string
/// already names a record.  On success the new record, stamped with
/// `today`, is appended; on failure the store is unchanged.
pub fn insert_record(
    records: &mut Vec<Record>,
    what_token: &String,
    location_token: &String,
    notes: Option<String>,
    today: &String,
) -> (res: Result<Record, Error>)
    requires
        max_id_spec(old(records)@) + 2 <= usize::MAX as int,
    ensures
        insert_post(old(records)@, what_token@, location_token@, notes, today@, res, final(records)@),
        crate::data::store_wf(old(records)@) && res is Ok ==> crate::data::store_wf(
            final(records)@,
        ),
{
    let ghost rs = records@;
    let ctx = get_context(records);
    let (w_id, w_str) = match resolve_token(&ctx, what_token, ctx.max_id + 1) {
        Some(p) => p,
        None => {
            let v = parse_usize(what_token.as_str()).unwrap();
            return Err(Error::NotFound(v));
        },
    };
    let (l_id, l_str) = match resolve_token(&ctx, location_token, ctx.max_id + 2) {
        Some(p) => p,
        None => {
            let v = parse_usize(location_token.as_str()).unwrap();
            return Err(Error::NotFound(v));
        },
    };
    let n = records.len();
    let mut j: usize = 0;
    while j < n
        invariant
            0 <= j <= n,
            n == records@.len(),
            records@ == rs,
            insert_what_resolution(rs, what_token@) == Some((w_id as int, w_str@)),
            insert_location_resolution(rs, location_token@) == Some((l_id as int, l_str@)),
            forall|k: int| 0 <= k < j ==> (#[trigger] rs[k]).what@ != w_str@,
        decreases n - j,
    {
        if records[j].what == w_str {
            assert(rs[j as int].what@ == w_str@);
            assert(what_taken(rs, w_str@));
            return Err(Error::Conflict(w_str));
        }
        j += 1;
    }
    assert(!what_taken(rs, w_str@));
    let rec = Record {
        created: today.clone(),
        location: l_str,
        location_id: l_id,
        notes: match notes {
            Some(n) => n,
            None => get_empty_notes_text(),
        },
        updated: today.clone(),
        what: w_str,
        what_id: w_id,
    };
    records.push(rec.clone());
    proof {
        if crate::data::store_wf(rs) {
            lemma_insert_preserves_store_wf(rs, what_token@, location_token@, rec);
            assert(records@ =~= rs.push(rec));
        }
    }
    Ok(rec)
}

/// In a well-formed store, a resolved token pair agrees with every
/// existing occurrence of its id: resolution never gives an id a second
/// string.
proof fn lemma_resolved_pair_consistent(
    rs: Seq<Record>,
    t: Seq<char>,
    fresh: int,
    id: int,
    s: Seq<char>,
)
    requires
        crate::data::store_wf(rs),
        resolve_spec(rs, t, fresh) == Some((id, s)),
        fresh > max_id_spec(rs),
    ensures
        forall|i: int|
            0 <= i < rs.len() ==> (((#[trigger] rs[i]).what_id as int == id ==> rs[i].what@ == s)
                && (rs[i].location_id as int == id ==> rs[i].location@ == s)),
{
    if is_numeric(t) {
        crate::data::lemma_id_to_str_registrar(rs, id);
        let j = choose|j: int|
            0 <= j < rs.len() && (((#[trigger] rs[j]).what_id as int == id && rs[j].what@
                == id_to_str_map(rs)[id]) || (rs[j].location_id as int == id && rs[j].location@
                == id_to_str_map(rs)[id]));
        assert forall|i: int|
            0 <= i < rs.len() implies (((#[trigger] rs[i]).what_id as int == id ==> rs[i].what@
            == s) && (rs[i].location_id as int == id ==> rs[i].location@ == s)) by {
            assert(rs[i].what_id == rs[j].what_id ==> rs[i].what@ == rs[j].what@);
            assert(rs[i].what_id == rs[j].location_id ==> rs[i].what@ == rs[j].location@);
            assert(rs[j].what_id == rs[i].location_id ==> rs[j].what@ == rs[i].location@);
            assert(rs[i].location_id == rs[j].location_id ==> rs[i].location@ == rs[j].location@);
        }
    } else if str_to_id_map(rs).contains_key(t) {
        crate::data::lemma_str_to_id_registrar(rs, t);
        let j = choose|j: int|
            0 <= j < rs.len() && (((#[trigger] rs[j]).what@ == t && rs[j].what_id as int
                == str_to_id_map(rs)[t]) || (rs[j].location@ == t && rs[j].location_id as int
                == str_to_id_map(rs)[t]));
        assert forall|i: int|
            0 <= i < rs.len() implies (((#[trigger] rs[i]).what_id as int == id ==> rs[i].what@
            == s) && (rs[i].location_id as int == id ==> rs[i].location@ == s)) by {
            assert(rs[i].what_id == rs[j].what_id ==> rs[i].what@ == rs[j].what@);
            assert(rs[i].what_id == rs[j].location_id ==> rs[i].what@ == rs[j].location@);
            assert(rs[j].what_id == rs[i].location_id ==> rs[j].what@ == rs[i].location@);
            assert(rs[i].location_id == rs[j].location_id ==> rs[i].location@ == rs[j].location@);
        }
    } else {
        assert forall|i: int|
            0 <= i < rs.len() implies (((#[trigger] rs[i]).what_id as int == id ==> rs[i].what@
            == s) && (rs[i].location_id as int == id ==> rs[i].location@ == s)) by {
            crate::data::lemma_max_id_bound(rs, i);
        }
    }
}

/// A resolved id is either the fresh id or an id already occurring in
/// the store, never above the running maximum otherwise.
proof fn lemma_resolved_id_occurs(rs: Seq<Record>, t: Seq<char>, fresh: int, id: int, s: Seq<char>)
    requires
        resolve_spec(rs, t, fresh) == Some((id, s)),
    ensures
        id == fresh || (id <= max_id_spec(rs) && exists|i: int|
            0 <= i < rs.len() && ((#[trigger] rs[i]).what_id as int == id
                || rs[i].location_id as int == id)),
{
    if is_numeric(t) {
        crate::data::lemma_id_to_str_key_bound(rs, id);
        crate::data::lemma_id_to_str_registrar(rs, id);
        let j = choose|j: int|
            0 <= j < rs.len() && (((#[trigger] rs[j]).what_id as int == id && rs[j].what@
                == id_to_str_map(rs)[id]) || (rs[j].location_id as int == id && rs[j].location@
                == id_to_str_map(rs)[id]));
        assert(rs[j].what_id as int == id || rs[j].location_id as int == id);
    } else if str_to_id_map(rs).contains_key(t) {
        crate::data::lemma_str_to_id_value_bound(rs, t);
        crate::data::lemma_str_to_id_registrar(rs, t);
        let j = choose|j: int|
            0 <= j < rs.len() && (((#[trigger] rs[j]).what@ == t && rs[j].what_id as int
                == str_to_id_map(rs)[t]) || (rs[j].location@ == t && rs[j].location_id as int
                == str_to_id_map(rs)[t]));
        assert(rs[j].what_id as int == id || rs[j].location_id as int == id);
    }
}

/// An accepted insert preserves the store invariant: the new record's
/// `what_id` is owned by no one else, and neither of its ids gains a
/// second string.
pub proof fn lemma_insert_preserves_store_wf(
    rs: Seq<Record>,
    what_token: Seq<char>,
    location_token: Seq<char>,
    r: Record,
)
    requires
        crate::data::store_wf(rs),
        insert_what_resolution(rs, what_token) == Some((r.what_id as int, r.what@)),
        insert_location_resolution(rs, location_token) == Some((r.location_id as int, r.location@)),
        !what_taken(rs, r.what@),
    ensures
        crate::data::store_wf(rs.push(r)),
{
    let rs2 = rs.push(r);
    let n = rs.len() as int;
    let top = max_id_spec(rs);
    lemma_resolved_pair_consistent(rs, what_token, top + 1, r.what_id as int, r.what@);
    lemma_resolved_pair_consistent(rs, location_token, top + 2, r.location_id as int, r.location@);
    lemma_resolved_id_occurs(rs, what_token, top + 1, r.what_id as int, r.what@);
    lemma_resolved_id_occurs(rs, location_token, top + 2, r.location_id as int, r.location@);
    assert forall|i: int| 0 <= i < n implies (#[trigger] rs2[i]).what_id != r.what_id by {
        if rs[i].what_id == r.what_id {
            assert(rs[i].what@ == r.what@);
            assert(what_taken(rs, r.what@));
        }
    }
    assert(crate::data::whats_unique(rs2)) by {
        assert forall|i: int, j: int|
            0 <= i < rs2.len() && 0 <= j < rs2.len() && i != j implies (#[trigger] rs2[i]).what_id
            != (#[trigger] rs2[j]).what_id by {
            if i < n && j < n {
                assert(rs2[i] == rs[i] && rs2[j] == rs[j]);
            }
        }
    }
    if r.what_id == r.location_id {
        assert(r.what@ == r.location@) by {
            if r.what_id as int == top + 1 || r.what_id as int == top + 2 {
                assert(r.location_id as int <= top || r.location_id as int == top + 2);
                assert(r.what_id as int <= top || r.what_id as int == top + 1);
            } else {
                let i = choose|i: int|
                    0 <= i < rs.len() && ((#[trigger] rs[i]).what_id as int == r.what_id as int
                        || rs[i].location_id as int == r.what_id as int);
                if rs[i].what_id == r.what_id {
                    assert(rs[i].what@ == r.what@);
                    assert(rs[i].what@ == r.location@);
                } else {
                    assert(rs[i].location@ == r.what@);
                    assert(rs[i].location@ == r.location@);
                }
            }
        }
    }
    assert(crate::data::id_strings_consistent(rs2)) by {
        assert forall|i: int, j: int|
            0 <= i < rs2.len() && 0 <= j < rs2.len() implies {
            &&& ((#[trigger] rs2[i]).what_id == (#[trigger] rs2[j]).what_id ==> rs2[i].what@
                == rs2[j].what@)
            &&& (rs2[i].what_id == rs2[j].location_id ==> rs2[i].what@ == rs2[j].location@)
            &&& (rs2[i].location_id == rs2[j].location_id ==> rs2[i].location@ == rs2[j].location@)
        } by {
            if i < n && j < n {
                assert(rs2[i] == rs[i] && rs2[j] == rs[j]);
            } else if i < n && j == n {
                assert(rs2[i] == rs[i] && rs2[j] == r);
            } else if i == n && j < n {
                assert(rs2[i] == r && rs2[j] == rs[j]);
            }
        }
    }
}

/// The decision an edit command comes to, before anything is mutated.
pub ghost enum EditOutcome {
    /// Wrong field count for the selected mode.
    BadInput,
    /// The edited id, or an id named by a numeric token, is unknown.
    UnknownId { missing: int },
    /// The resolved `what` string is another record's `what`.
    NameClash { name: Seq<char> },
    /// Location rename mode: `id` is a location-only node and every
    /// record pointing at it is retargeted.
    Retarget { l_id: int, l_str: Seq<char> },
    /// Record edit mode: the owning record is rewritten, and a changed
    /// `what` is propagated to every record pointing at the edited id.
    Apply {
        idx: int,
        w_changed: bool,
        w_id: int,
        w_str: Seq<char>,
        l_changed: bool,
        l_id: int,
        l_str: Seq<char>,
        n_changed: bool,
        n_val: Seq<char>,
    },
}

/// The full decision logic of an edit, as a function of the store, the
/// edited id and the assembled fields.
pub open spec fn edit_outcome(rs: Seq<Record>, id: int, fields: Seq<Seq<char>>) -> EditOutcome {
    if !hierarchy_map(rs).contains_key(id) {
        EditOutcome::UnknownId { missing: id }
    } else if !idx_map(rs).contains_key(id) {
        if fields.len() != 1 {
            EditOutcome::BadInput
        } else {
            match resolve_spec(rs, fields[0], max_id_spec(rs) + 1) {
                None => EditOutcome::UnknownId { missing: dec_val(fields[0]) },
                Some(p) => EditOutcome::Retarget { l_id: p.0, l_str: p.1 },
            }
        }
    } else {
        let idx = idx_map(rs)[id];
        let r0 = rs[idx];
        if fields.len() == 0 || fields.len() > 3 {
            EditOutcome::BadInput
        } else {
            let w_tok = fields[0];
            let w_changed = !is_empty_tok(w_tok) && w_tok != r0.what@;
            let rw = resolve_spec(rs, w_tok, max_id_spec(rs) + 1);
            if w_changed && rw is None {
                EditOutcome::UnknownId { missing: dec_val(w_tok) }
            } else {
                let w_id = if w_changed {
                    (rw->0).0
                } else {
                    id
                };
                let w_str = if w_changed {
                    (rw->0).1
                } else {
                    r0.what@
                };
                if w_changed && what_taken_except(rs, w_str, idx) {
                    EditOutcome::NameClash { name: w_str }
                } else {
                    let w_fresh = w_changed && !is_numeric(w_tok) && !str_to_id_map(
                        rs,
                    ).contains_key(w_tok);
                    let l_changed = fields.len() > 1 && !is_empty_tok(fields[1]) && fields[1]
                        != r0.location@;
                    let l_fresh = if w_fresh {
                        max_id_spec(rs) + 2
                    } else {
                        max_id_spec(rs) + 1
                    };
                    let rl = resolve_spec(rs, fields[1], l_fresh);
                    if l_changed && rl is None {
                        EditOutcome::UnknownId { missing: dec_val(fields[1]) }
                    } else {
                        let l_id = if l_changed {
                            (rl->0).0
                        } else {
                            r0.location_id as int
                        };
                        let l_str = if l_changed {
                            (rl->0).1
                        } else {
                            r0.location@
                        };
                        let n_changed = fields.len() > 2 && !is_empty_tok(fields[2]);
                        let n_val = if n_changed {
                            if is_dash(fields[2]) {
                                empty_notes()
                            } else {
                                fields[2]
                            }
                        } else {
                            r0.notes@
                        };
                        EditOutcome::Apply {
                            idx,
                            w_changed,
                            w_id,
                            w_str,
                            l_changed,
                            l_id,
                            l_str,
                            n_changed,
                            n_val,
                        }
                    }
                }
            }
        }
    }
}

/// `o` is `r` with its location retargeted; every other field unchanged.
pub open spec fn relocated(r: Record, l_id: int, l_str: Seq<char>, o: Record) -> bool {
    &&& o.location@ == l_str
    &&& o.location_id as int == l_id
    &&& o.what == r.what
    &&& o.what_id == r.what_id
    &&& o.notes == r.notes
    &&& o.created == r.created
    &&& o.updated == r.updated
}

/// The store after a location rename: every record pointing at `id` is
/// retargeted, the rest are untouched.
pub open spec fn retargeted(
    rs: Seq<Record>,
    id: int,
    l_id: int,
    l_str: Seq<char>,
    out: Seq<Record>,
) -> bool {
    &&& out.len() == rs.len()
    &&& forall|i: int|
        0 <= i < rs.len() ==> if (#[trigger] rs[i]).location_id as int == id {
            relocated(rs[i], l_id, l_str, out[i])
        } else {
            out[i] == rs[i]
        }
}

/// The store after a record edit: the record at `idx` is rewritten and
/// stamped with `today`; a changed `what` is propagated to every other
/// record pointing at `id`; nothing else moves.
pub open spec fn edited(
    rs: Seq<Record>,
    id: int,
    idx: int,
    w_changed: bool,
    w_id: int,
    w_str: Seq<char>,
    l_id: int,
    l_str: Seq<char>,
    n_val: Seq<char>,
    today: Seq<char>,
    out: Seq<Record>,
) -> bool {
    &&& out.len() == rs.len()
    &&& 0 <= idx < rs.len()
    &&& forall|i: int|
        0 <= i < rs.len() && i != idx ==> if w_changed && (#[trigger] rs[i]).location_id as int
            == id {
            relocated(rs[i], w_id, w_str, out[i])
        } else {
            out[i] == rs[i]
        }
    &&& out[idx].what@ == w_str
    &&& out[idx].what_id as int == w_id
    &&& out[idx].location@ == l_str
    &&& out[idx].location_id as int == l_id
    &&& out[idx].notes@ == n_val
    &&& out[idx].created == rs[idx].created
    &&& out[idx].updated@ == today
}

/// Edits the store at `what_id`.  If `what_id` names a record, up to
/// three ordered fields rewrite its `what`, `location` and `notes`, and a
/// `what` rename is propagated to dependent records; if it names a
/// location-only node, the single field renames that location on every
/// record pointing at it.  Failures leave the store unchanged.
#[verifier::loop_isolation(false)]
pub fn edit_records(
    records: &mut Vec<Record>,
    what_id: usize,
    fields: &Vec<String>,
    today: &String,
) -> (res: Result<(), Error>)
    requires
        max_id_spec(old(records)@) + 2 <= usize::MAX as int,
    ensures
        ({
            let rs = old(records)@;
            let oc = edit_outcome(rs, what_id as int, fields.deep_view());
            match res {
                Ok(r) => {
                    match oc {
                        EditOutcome::Retarget { l_id, l_str } => retargeted(
                            rs,
                            what_id as int,
                            l_id,
                            l_str,
                            final(records)@,
                        ),
                        EditOutcome::Apply {
                            idx,
                            w_changed,
                            w_id,
                            w_str,
                            l_changed,
                            l_id,
                            l_str,
                            n_changed,
                            n_val,
                        } => edited(
                            rs,
                            what_id as int,
                            idx,
                            w_changed,
                            w_id,
                            w_str,
                            l_id,
                            l_str,
                            n_val,
                            today@,
                            final(records)@,
                        ),
                        _ => false,
                    }
                },
                Err(e) => {
                    &&& final(records)@ == rs
                    &&& match e {
                        Error::Input => oc is BadInput,
                        Error::NotFound(m) => oc matches EditOutcome::UnknownId { missing }
                            && m as int == missing,
                        Error::Conflict(s) => oc matches EditOutcome::NameClash { name } && s@
                            == name,
                        _ => false,
                    }
                },
            }
        }),
        crate::data::store_wf(old(records)@) && res is Ok ==> crate::data::store_wf(
            final(records)@,
        ),
{
    let ghost rs = records@;
    let ghost fv = fields.deep_view();
    let ctx = get_context(records);
    if !ctx.forest_contains(what_id) {
        return Err(Error::NotFound(what_id));
    }
    let maybe_idx = ctx.lookup_idx(what_id);
    match maybe_idx {
        None => {
            if fields.len() != 1 {
                return Err(Error::Input);
            }
            proof {
                assert(fv[0] == fields@[0]@);
            }
            let (l_id, l_str) = match resolve_token(&ctx, &fields[0], ctx.max_id + 1) {
                Some(p) => p,
                None => {
                    let v = parse_usize(fields[0].as_str()).unwrap();
                    return Err(Error::NotFound(v));
                },
            };
            let mut out: Vec<Record> = Vec::new();
            let n = records.len();
            let mut i: usize = 0;
            while i < n
                invariant
                    0 <= i <= n,
                    n == records@.len(),
                    records@ == rs,
                    out@.len() == i,
                    forall|k: int|
                        0 <= k < i ==> if (#[trigger] rs[k]).location_id == what_id {
                            relocated(rs[k], l_id as int, l_str@, out@[k])
                        } else {
                            out@[k] == rs[k]
                        },
                decreases n - i,
            {
                let r = &records[i];
                if r.location_id == what_id {
                    out.push(
                        Record {
                            created: r.created.clone(),
                            location: l_str.clone(),
                            location_id: l_id,
                            notes: r.notes.clone(),
                            updated: r.updated.clone(),
                            what: r.what.clone(),
                            what_id: r.what_id,
                        },
                    );
                } else {
                    out.push(r.clone());
                }
                i += 1;
            }
            *records = out;
            proof {
                assert(retargeted(rs, what_id as int, l_id as int, l_str@, records@));
                if crate::data::store_wf(rs) {
                    assert(edit_outcome(rs, what_id as int, fv) == (EditOutcome::Retarget {
                        l_id: l_id as int,
                        l_str: l_str@,
                    }));
                    lemma_retarget_preserves_store_wf(
                        rs,
                        what_id as int,
                        fv,
                        l_id as int,
                        l_str@,
                        records@,
                    );
                }
            }
            Ok(())
        },
        Some(idx) => {
            if fields.len() == 0 || fields.len() > 3 {
                return Err(Error::Input);
            }
            proof {
                lemma_idx_map_points_home(rs, what_id as int);
                assert(fv[0] == fields@[0]@);
            }
            let w_tok = &fields[0];
            let w_changed = !(get_is_empty_text(w_tok.as_str()) || *w_tok == records[idx].what);
            let mut w_id = what_id;
            let mut w_str = records[idx].what.clone();
            if w_changed {
                match resolve_token(&ctx, w_tok, ctx.max_id + 1) {
                    Some(p) => {
                        w_id = p.0;
                        w_str = p.1;
                    },
                    None => {
                        let v = parse_usize(w_tok.as_str()).unwrap();
                        return Err(Error::NotFound(v));
                    },
                }
                let n = records.len();
                let mut j: usize = 0;
                while j < n
                    invariant
                        0 <= j <= n,
                        n == records@.len(),
                        records@ == rs,
                        forall|k: int|
                            0 <= k < j ==> !(k != idx && (#[trigger] rs[k]).what@ == w_str@),
                    decreases n - j,
                {
                    if j != idx && records[j].what == w_str {
                        assert(rs[j as int].what@ == w_str@);
                        assert(what_taken_except(rs, w_str@, idx as int));
                        return Err(Error::Conflict(w_str));
                    }
                    j += 1;
                }
                assert(!what_taken_except(rs, w_str@, idx as int));
            }
            let w_fresh = w_changed && parse_usize(w_tok.as_str()).is_none()
                && ctx.lookup_str_to_id(w_tok).is_none();
            let mut l_changed = false;
            let mut l_id = records[idx].location_id;
            let mut l_str = records[idx].location.clone();
            if fields.len() > 1 {
                proof {
                    assert(fv[1] == fields@[1]@);
                }
                let l_tok = &fields[1];
                if !(get_is_empty_text(l_tok.as_str()) || *l_tok == records[idx].location) {
                    l_changed = true;
                    let lf = if w_fresh {
                        ctx.max_id + 2
                    } else {
                        ctx.max_id + 1
                    };
                    match resolve_token(&ctx, l_tok, lf) {
                        Some(p) => {
                            l_id = p.0;
                            l_str = p.1;
                        },
                        None => {
                            let v = parse_usize(l_tok.as_str()).unwrap();
                            return Err(Error::NotFound(v));
                        },
                    }
                }
            }
            let mut n_val = records[idx].notes.clone();
            if fields.len() > 2 {
                proof {
                    assert(fv[2] == fields@[2]@);
                }
                let n_tok = &fields[2];
                if !get_is_empty_text(n_tok.as_str()) {
                    n_val = if is_dash_token(n_tok.as_str()) {
                        get_empty_notes_text()
                    } else {
                        n_tok.clone()
                    };
                }
            }
            let ghost oc = edit_outcome(rs, what_id as int, fv);
            let ghost n_changed = fv.len() > 2 && !is_empty_tok(fv[2]);
            proof {
                assert(oc == (EditOutcome::Apply {
                    idx: idx as int,
                    w_changed,
                    w_id: w_id as int,
                    w_str: w_str@,
                    l_changed,
                    l_id: l_id as int,
                    l_str: l_str@,
                    n_changed,
                    n_val: n_val@,
                }));
            }
            let mut out: Vec<Record> = Vec::new();
            let n = records.len();
            let mut i: usize = 0;
            while i < n
                invariant
                    0 <= i <= n,
                    n == records@.len(),
                    records@ == rs,
                    idx < n,
                    out@.len() == i,
                    forall|k: int|
                        0 <= k < i && k != idx ==> if w_changed && (#[trigger] rs[k]).location_id
                            == what_id {
                            relocated(rs[k], w_id as int, w_str@, out@[k])
                        } else {
                            out@[k] == rs[k]
                        },
                    i > idx ==> {
                        &&& out@[idx as int].what@ == w_str@
                        &&& out@[idx as int].what_id == w_id
                        &&& out@[idx as int].location@ == l_str@
                        &&& out@[idx as int].location_id == l_id
                        &&& out@[idx as int].notes@ == n_val@
                        &&& out@[idx as int].created == rs[idx as int].created
                        &&& out@[idx as int].updated@ == today@
                    },
                decreases n - i,
            {
                let r = &records[i];
                if i == idx {
                    out.push(
                        Record {
                            created: r.created.clone(),
                            location: l_str.clone(),
                            location_id: l_id,
                            notes: n_val.clone(),
                            updated: today.clone(),
                            what: w_str.clone(),
                            what_id: w_id,
                        },
                    );
                } else if w_changed && r.location_id == what_id {
                    out.push(
                        Record {
                            created: r.created.clone(),
                            location: w_str.clone(),
                            location_id: w_id,
                            notes: r.notes.clone(),
                            updated: r.updated.clone(),
                            what: r.what.clone(),
                            what_id: r.what_id,
                        },
                    );
                } else {
                    out.push(r.clone());
                }
                i += 1;
            }
            *records = out;
            proof {
                if crate::data::store_wf(rs) {
                    assert(edited(
                        rs,
                        what_id as int,
                        idx as int,
                        w_changed,
                        w_id as int,
                        w_str@,
                        l_id as int,
                        l_str@,
                        n_val@,
                        today@,
                        records@,
                    ));
                    lemma_edit_preserves_store_wf(
                        rs,
                        what_id as int,
                        fv,
                        idx as int,
                        w_changed,
                        w_id as int,
                        w_str@,
                        l_changed,
                        l_id as int,
                        l_str@,
                        n_changed,
                        n_val@,
                        today@,
                        records@,
                    );
                }
            }
            Ok(())
        },
    }
}

/// A location rename preserves the store invariant: the retargeted
/// records all carry the one resolved pair, and no `what_id` moves.
pub proof fn lemma_retarget_preserves_store_wf(
    rs: Seq<Record>,
    id: int,
    fields: Seq<Seq<char>>,
    l_id: int,
    l_str: Seq<char>,
    out: Seq<Record>,
)
    requires
        crate::data::store_wf(rs),
        edit_outcome(rs, id, fields) == (EditOutcome::Retarget { l_id, l_str }),
        retargeted(rs, id, l_id, l_str, out),
    ensures
        crate::data::store_wf(out),
{
    assert(resolve_spec(rs, fields[0], max_id_spec(rs) + 1) == Some((l_id, l_str)));
    lemma_resolved_pair_consistent(rs, fields[0], max_id_spec(rs) + 1, l_id, l_str);
    assert(crate::data::whats_unique(out)) by {
        assert forall|i: int, j: int|
            0 <= i < out.len() && 0 <= j < out.len() && i != j implies (#[trigger] out[i]).what_id
            != (#[trigger] out[j]).what_id by {
            assert(out[i].what_id == rs[i].what_id);
            assert(out[j].what_id == rs[j].what_id);
        }
    }
    assert(crate::data::id_strings_consistent(out)) by {
        assert forall|i: int, j: int|
            0 <= i < out.len() && 0 <= j < out.len() implies {
            &&& ((#[trigger] out[i]).what_id == (#[trigger] out[j]).what_id ==> out[i].what@
                == out[j].what@)
            &&& (out[i].what_id == out[j].location_id ==> out[i].what@ == out[j].location@)
            &&& (out[i].location_id == out[j].location_id ==> out[i].location@ == out[j].location@)
        } by {
            assert(out[i].what_id == rs[i].what_id && out[i].what@ == rs[i].what@);
            assert(out[j].what_id == rs[j].what_id && out[j].what@ == rs[j].what@);
            if rs[i].location_id as int == id {
                assert(out[i].location@ == l_str && out[i].location_id as int == l_id);
            } else {
                assert(out[i].location_id == rs[i].location_id && out[i].location@ == rs[
                    i
                ].location@);
            }
            if rs[j].location_id as int == id {
                assert(out[j].location@ == l_str && out[j].location_id as int == l_id);
            } else {
                assert(out[j].location_id == rs[j].location_id && out[j].location@ == rs[
                    j
                ].location@);
            }
        }
    }
}

/// An accepted record edit preserves the store invariant: the rewritten
/// and propagated pairs all agree with every surviving occurrence of
/// their ids, and the edited record's new `what_id` is owned by no one
/// else.
pub proof fn lemma_edit_preserves_store_wf(
    rs: Seq<Record>,
    id: int,
    fields: Seq<Seq<char>>,
    idx: int,
    w_changed: bool,
    w_id: int,
    w_str: Seq<char>,
    l_changed: bool,
    l_id: int,
    l_str: Seq<char>,
    n_changed: bool,
    n_val: Seq<char>,
    today: Seq<char>,
    out: Seq<Record>,
)
    requires
        crate::data::store_wf(rs),
        edit_outcome(rs, id, fields) == (EditOutcome::Apply {
            idx,
            w_changed,
            w_id,
            w_str,
            l_changed,
            l_id,
            l_str,
            n_changed,
            n_val,
        }),
        edited(rs, id, idx, w_changed, w_id, w_str, l_id, l_str, n_val, today, out),
    ensures
        crate::data::store_wf(out),
{
    let top = max_id_spec(rs);
    crate::data::lemma_idx_map_points_home(rs, id);
    assert(rs[idx].what_id as int == id);
    crate::data::lemma_max_id_bound(rs, idx);
    let pcw = forall|i: int|
        0 <= i < rs.len() ==> (((#[trigger] rs[i]).what_id as int == w_id ==> rs[i].what@ == w_str)
            && (rs[i].location_id as int == w_id ==> rs[i].location@ == w_str));
    let w_occurs_or_fresh = w_id > top || (exists|i: int|
        0 <= i < rs.len() && ((#[trigger] rs[i]).what_id as int == w_id
            || rs[i].location_id as int == w_id));
    if w_changed {
        assert(resolve_spec(rs, fields[0], top + 1) == Some((w_id, w_str)));
        assert(!what_taken_except(rs, w_str, idx));
        lemma_resolved_pair_consistent(rs, fields[0], top + 1, w_id, w_str);
        lemma_resolved_id_occurs(rs, fields[0], top + 1, w_id, w_str);
        assert(pcw);
        assert(w_occurs_or_fresh);
    } else {
        assert(w_id == id && w_str == rs[idx].what@);
        assert forall|i: int|
            0 <= i < rs.len() implies (((#[trigger] rs[i]).what_id as int == w_id ==> rs[i].what@
            == w_str) && (rs[i].location_id as int == w_id ==> rs[i].location@ == w_str)) by {
            if rs[i].what_id as int == w_id && i != idx {
                assert(rs[i].what_id == rs[idx].what_id);
                assert(false);
            }
            assert(rs[idx].what_id == rs[i].location_id ==> rs[idx].what@ == rs[i].location@);
        }
        assert(pcw);
        assert(rs[idx].what_id as int == w_id);
        assert(w_occurs_or_fresh);
    }
    let w_fresh = w_changed && !is_numeric(fields[0]) && !str_to_id_map(rs).contains_key(fields[0]);
    let lf = if w_fresh {
        top + 2
    } else {
        top + 1
    };
    let pcl = forall|i: int|
        0 <= i < rs.len() ==> (((#[trigger] rs[i]).what_id as int == l_id ==> rs[i].what@ == l_str)
            && (rs[i].location_id as int == l_id ==> rs[i].location@ == l_str));
    let l_occurs_or_fresh = l_id > top || (exists|i: int|
        0 <= i < rs.len() && ((#[trigger] rs[i]).what_id as int == l_id
            || rs[i].location_id as int == l_id));
    if l_changed {
        assert(resolve_spec(rs, fields[1], lf) == Some((l_id, l_str)));
        lemma_resolved_pair_consistent(rs, fields[1], lf, l_id, l_str);
        lemma_resolved_id_occurs(rs, fields[1], lf, l_id, l_str);
        assert(pcl);
        assert(l_occurs_or_fresh);
    } else {
        assert(l_id == rs[idx].location_id as int && l_str == rs[idx].location@);
        assert forall|i: int|
            0 <= i < rs.len() implies (((#[trigger] rs[i]).what_id as int == l_id ==> rs[i].what@
            == l_str) && (rs[i].location_id as int == l_id ==> rs[i].location@ == l_str)) by {
            assert(rs[i].what_id == rs[idx].location_id ==> rs[i].what@ == rs[idx].location@);
            assert(rs[i].location_id == rs[idx].location_id ==> rs[i].location@ == rs[
                idx
            ].location@);
        }
        assert(pcl);
        assert(rs[idx].location_id as int == l_id);
        assert(l_occurs_or_fresh);
    }
    if w_id == l_id {
        assert(w_str == l_str) by {
            if w_id > top {
                assert(w_changed);
                if is_numeric(fields[0]) {
                    crate::data::lemma_id_to_str_key_bound(rs, w_id);
                    assert(false);
                } else if str_to_id_map(rs).contains_key(fields[0]) {
                    crate::data::lemma_str_to_id_value_bound(rs, fields[0]);
                    assert(false);
                }
                assert(w_fresh && w_id == top + 1);
                assert(l_changed);
                if is_numeric(fields[1]) {
                    crate::data::lemma_id_to_str_key_bound(rs, l_id);
                    assert(false);
                } else if str_to_id_map(rs).contains_key(fields[1]) {
                    crate::data::lemma_str_to_id_value_bound(rs, fields[1]);
                    assert(false);
                }
                assert(l_id == top + 2);
                assert(false);
            } else {
                let i = choose|i: int|
                    0 <= i < rs.len() && ((#[trigger] rs[i]).what_id as int == w_id
                        || rs[i].location_id as int == w_id);
                if rs[i].what_id as int == w_id {
                    assert(rs[i].what@ == w_str && rs[i].what@ == l_str);
                } else {
                    assert(rs[i].location@ == w_str && rs[i].location@ == l_str);
                }
            }
        }
    }
    assert forall|i: int|
        0 <= i < out.len() && i != idx implies if w_changed && (#[trigger] rs[i]).location_id as int
        == id {
        relocated(rs[i], w_id, w_str, out[i])
    } else {
        out[i] == rs[i]
    } by {}
    assert(crate::data::whats_unique(out)) by {
        assert forall|i: int, j: int|
            0 <= i < out.len() && 0 <= j < out.len() && i != j implies (#[trigger] out[i]).what_id
            != (#[trigger] out[j]).what_id by {
            if i != idx && j != idx {
                assert(out[i].what_id == rs[i].what_id && out[j].what_id == rs[j].what_id);
            } else {
                let other = if i == idx {
                    j
                } else {
                    i
                };
                assert(out[other].what_id == rs[other].what_id);
                assert(out[idx].what_id as int == w_id);
                if rs[other].what_id as int == w_id {
                    assert(rs[other].what@ == w_str);
                    if w_changed {
                        assert(what_taken_except(rs, w_str, idx));
                        assert(false);
                    } else {
                        assert(rs[other].what_id == rs[idx].what_id);
                        assert(false);
                    }
                }
            }
        }
    }
    assert(crate::data::id_strings_consistent(out)) by {
        assert forall|i: int, j: int|
            0 <= i < out.len() && 0 <= j < out.len() implies {
            &&& ((#[trigger] out[i]).what_id == (#[trigger] out[j]).what_id ==> out[i].what@
                == out[j].what@)
            &&& (out[i].what_id == out[j].location_id ==> out[i].what@ == out[j].location@)
            &&& (out[i].location_id == out[j].location_id ==> out[i].location@ == out[j].location@)
        } by {
            if i != idx {
                assert(if w_changed && rs[i].location_id as int == id {
                    relocated(rs[i], w_id, w_str, out[i])
                } else {
                    out[i] == rs[i]
                });
            }
            if j != idx {
                assert(if w_changed && rs[j].location_id as int == id {
                    relocated(rs[j], w_id, w_str, out[j])
                } else {
                    out[j] == rs[j]
                });
            }
        }
    }
}

/// Removing a record preserves the store invariant: the remaining
/// records are the same records.
pub proof fn lemma_remove_preserves_store_wf(rs: Seq<Record>, k: int)
    requires
        crate::data::store_wf(rs),
        0 <= k < rs.len(),
    ensures
        crate::data::store_wf(rs.remove(k)),
{
    let out = rs.remove(k);
    assert forall|i: int| 0 <= i < out.len() implies #[trigger] out[i] == rs[if i < k {
        i
    } else {
        i + 1
    }] by {}
    assert(crate::data::whats_unique(out)) by {
        assert forall|i: int, j: int|
            0 <= i < out.len() && 0 <= j < out.len() && i != j implies (#[trigger] out[i]).what_id
            != (#[trigger] out[j]).what_id by {
            let i0 = if i < k {
                i
            } else {
                i + 1
            };
            let j0 = if j < k {
                j
            } else {
                j + 1
            };
            assert(out[i] == rs[i0] && out[j] == rs[j0]);
        }
    }
    assert(crate::data::id_strings_consistent(out)) by {
        assert forall|i: int, j: int|
            0 <= i < out.len() && 0 <= j < out.len() implies {
            &&& ((#[trigger] out[i]).what_id == (#[trigger] out[j]).what_id ==> out[i].what@
                == out[j].what@)
            &&& (out[i].what_id == out[j].location_id ==> out[i].what@ == out[j].location@)
            &&& (out[i].location_id == out[j].location_id ==> out[i].location@ == out[j].location@)
        } by {
            let i0 = if i < k {
                i
            } else {
                i + 1
            };
            let j0 = if j < k {
                j
            } else {
                j + 1
            };
            assert(out[i] == rs[i0] && out[j] == rs[j0]);
        }
    }
}

/// Removes the record owning `what_id`; records pointing at it keep their
/// reference, the node becoming location-only.  Fails with `NotFound`
/// when no record owns the id, leaving the store unchanged.
pub fn remove_record(records: &mut Vec<Record>, what_id: usize) -> (res: Result<(), Error>)
    ensures
        ({
            let rs = old(records)@;
            if idx_map(rs).contains_key(what_id as int) {
                res is Ok && final(records)@ == rs.remove(idx_map(rs)[what_id as int])
            } else {
                res == Err::<(), Error>(Error::NotFound(what_id)) && final(records)@ == rs
            }
        }),
        crate::data::store_wf(old(records)@) && res is Ok ==> crate::data::store_wf(
            final(records)@,
        ),
{
    let ghost rs = records@;
    let ctx = get_context(records);
    match ctx.lookup_idx(what_id) {
        Some(idx) => {
            proof {
                lemma_idx_map_points_home(rs, what_id as int);
            }
            records.remove(idx);
            proof {
                if crate::data::store_wf(rs) {
                    lemma_remove_preserves_store_wf(rs, idx as int);
                }
            }
            Ok(())
        },
        None => Err(Error::NotFound(what_id)),
    }
}

} // verus!
