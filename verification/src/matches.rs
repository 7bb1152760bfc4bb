//! Numbering of pattern matches across a set of files.
//!
//! Each file's text is searched for a pattern; the hits of one file are
//! numbered from 1 and each carries the file's total.  The pattern
//! engine is an outside crate: only the number of hits per text is taken
//! from it, and everything built on that count is verified.

use vstd::prelude::*;
use vstd::string::StringExecFns;
use crate::errors::Error;

verus! {

/// One numbered pattern hit: the file it was found in, its 1-based
/// number there, and the file's total number of hits.
#[derive(Debug, PartialEq, Eq)]
pub struct MatchItem {
    pub num: usize,
    pub path: String,
    pub total: usize,
}

impl Clone for MatchItem {
    fn clone(&self) -> (r: MatchItem)
        ensures
            r == *self,
    {
        MatchItem { num: self.num, path: self.path.clone(), total: self.total }
    }
}

impl MatchItem {
    /// The display line of a hit: the path, its number and the total.
    pub fn display_line(&self) -> (r: String)
        ensures
            r@ == self.path@ + " [num: "@ + crate::text::dec_str(self.num as nat) + ", total: "@
                + crate::text::dec_str(self.total as nat) + "]"@,
    {
        let mut s = self.path.clone();
        s.append(" [num: ");
        let n = crate::text::usize_to_string(self.num);
        s.append(n.as_str());
        s.append(", total: ");
        let t = crate::text::usize_to_string(self.total);
        s.append(t.as_str());
        s.append("]");
        s
    }
}

/// Whether the pattern engine accepts `pattern`.
pub uninterp spec fn regex_is_valid(pattern: Seq<char>) -> bool;

/// How many non-overlapping hits of `pattern` the engine finds in
/// `text`: a function of the two strings alone.
pub uninterp spec fn regex_match_count(pattern: Seq<char>, text: Seq<char>) -> nat;

/// Relies on regex::Regex::new (which accepts a pattern independently of
/// any text) and regex::Regex::captures_iter (whose number of hits
/// depends on the pattern and the text alone).
#[verifier::external_body]
fn count_pattern_matches(pattern: &str, text: &str) -> (r: Option<usize>)
    ensures
        r is Some <==> regex_is_valid(pattern@),
        r matches Some(n) ==> n as nat == regex_match_count(pattern@, text@),
{
    match regex::Regex::new(pattern) {
        Ok(re) => Some(re.captures_iter(text).count()),
        Err(_) => None,
    }
}

/// The numbered hits of one file: `count` items carrying the path.
pub open spec fn file_items(path: String, count: nat) -> Seq<MatchItem> {
    Seq::new(
        count,
        |j: int| MatchItem { num: (j + 1) as usize, path: path, total: count as usize },
    )
}

/// The numbered hits of every file in order.
pub open spec fn matches_spec(files: Seq<(String, String)>, pattern: Seq<char>) -> Seq<MatchItem>
    decreases files.len(),
{
    if files.len() == 0 {
        Seq::empty()
    } else {
        matches_spec(files.drop_last(), pattern) + file_items(
            files.last().0,
            regex_match_count(pattern, files.last().1@),
        )
    }
}

/// Numbers the hits of `pattern` over `files`, each pair a path and that
/// file's text.  Fails when the engine rejects the pattern; the store of
/// hits is otherwise exactly one numbered item per hit, in file order.
#[verifier::loop_isolation(false)]
pub fn get_matches(files: &Vec<(String, String)>, pattern: &String) -> (res: Result<
    Vec<MatchItem>,
    Error,
>)
    ensures
        res is Ok <==> regex_is_valid(pattern@),
        res matches Ok(out) ==> out@ == matches_spec(files@, pattern@),
{
    let n = files.len();
    let probe = count_pattern_matches(pattern.as_str(), "");
    if probe.is_none() {
        return Err(Error::Input);
    }
    let mut out: Vec<MatchItem> = Vec::new();
    let mut i: usize = 0;
    while i < n
        invariant
            0 <= i <= n,
            out@ == matches_spec(files@.take(i as int), pattern@),
        decreases n - i,
    {
        proof {
            assert(files@.take(i + 1).drop_last() =~= files@.take(i as int));
            assert(files@.take(i + 1).last() == files@[i as int]);
        }
        let count = match count_pattern_matches(pattern.as_str(), files[i].1.as_str()) {
            Some(c) => c,
            None => {
                proof {
                    assert(false);
                }
                0
            },
        };
        let ghost base = out@;
        let mut j: usize = 0;
        while j < count
            invariant
                0 <= j <= count,
                i < n,
                count as nat == regex_match_count(pattern@, files@[i as int].1@),
                out@ == base + file_items(files@[i as int].0, count as nat).take(j as int),
            decreases count - j,
        {
            out.push(MatchItem { num: j + 1, path: files[i].0.clone(), total: count });
            proof {
                assert(out@ =~= base + file_items(files@[i as int].0, count as nat).take(j + 1));
            }
            j += 1;
        }
        proof {
            assert(file_items(files@[i as int].0, count as nat).take(count as int)
                =~= file_items(files@[i as int].0, count as nat));
            assert(out@ =~= matches_spec(files@.take(i + 1), pattern@));
        }
        i += 1;
    }
    proof {
        assert(files@.take(n as int) =~= files@);
    }
    Ok(out)
}

} // verus!
