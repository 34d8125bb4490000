//! The decisions of result collection and the text it sends to the result
//! store: table statements and the feature lists stored with each result.
use vstd::prelude::*;
use crate::text::{decimal, push_decimal};

verus! {

// ---------------------------------------------------------------------------
// Feature lists as text
// ---------------------------------------------------------------------------

/// The decimal notations of `v`, with `sep` between each two.
pub open spec fn joined_decimals(v: Seq<usize>, sep: Seq<char>) -> Seq<char>
    decreases v.len(),
{
    if v.len() == 0 {
        Seq::empty()
    } else if v.len() == 1 {
        decimal(v[0] as nat)
    } else {
        joined_decimals(v.drop_last(), sep) + sep + decimal(v.last() as nat)
    }
}

/// A list of numbers as JSON: `[1,2,3]`.
pub open spec fn json_list(v: Seq<usize>) -> Seq<char> {
    "["@ + joined_decimals(v, ","@) + "]"@
}

/// What `serde_json` reads as a list of numbers from a text, if it reads one.
pub uninterp spec fn json_usize_list(text: Seq<char>) -> Option<Seq<usize>>;

/// The error type of `serde_json`, carried through unopened.
#[verifier::external_type_specification]
#[verifier::external_body]
pub struct ExJsonError(serde_json::Error);

/// `serde_json::to_string` on a list of numbers. Stated: it succeeds (it
/// writes into an in-memory buffer, which cannot fail, and numbers always
/// serialize); it gives the compact JSON array of the numbers' decimal
/// notations; and `serde_json` reads that text back as the same list.
#[verifier::external_body]
fn serialize_usize_list(v: &Vec<usize>) -> (r: Result<String, serde_json::Error>)
    ensures
        r is Ok,
        r matches Ok(s) ==> s@ == json_list(v@),
        r matches Ok(s) ==> json_usize_list(s@) == Some(v@),
{
    serde_json::to_string(v)
}

/// `serde_json::from_str::<Vec<usize>>`. Stated: it succeeds exactly when
/// the text is read as a list of numbers (`json_usize_list`), and then gives
/// that list. Which texts JSON reads that way is not spelt out.
#[verifier::external_body]
fn parse_usize_list(text: &str) -> (r: Result<Vec<usize>, serde_json::Error>)
    ensures
        r is Ok <==> json_usize_list(text@) is Some,
        r matches Ok(v) ==> json_usize_list(text@) == Some(v@),
{
    serde_json::from_str::<Vec<usize>>(text)
}

/// Appends the decimal notations of `v` to `s`, with `sep` between each two.
fn push_joined(s: &mut String, v: &Vec<usize>, sep: &str)
    ensures
        final(s)@ == old(s)@ + joined_decimals(v@, sep@),
{
    let ghost s0 = s@;
    let mut i: usize = 0;
    while i < v.len()
        invariant
            i <= v@.len(),
            s@ == s0 + joined_decimals(v@.take(i as int), sep@),
        decreases v@.len() - i,
    {
        let ghost before = s@;
        if i > 0 {
            s.append(sep);
        }
        push_decimal(s, v[i] as u64);
        proof {
            let t = v@.take(i + 1);
            assert(t.drop_last() =~= v@.take(i as int));
            assert(t.last() == v@[i as int]);
            if i == 0 {
                assert(joined_decimals(v@.take(i as int), sep@) =~= Seq::<char>::empty());
                assert(s@ =~= s0 + joined_decimals(t, sep@));
            } else {
                assert(s@ =~= s0 + joined_decimals(t, sep@));
            }
        }
        i += 1;
    }
    assert(v@.take(v@.len() as int) =~= v@);
}

/// The feature list as JSON text, the way results store it: `[1,2,3]`
/// (in debug notation, `[1, 2, 3]`, should JSON serialization fail).
pub fn features_json(features: &Vec<usize>) -> (r: String)
    ensures
        r@ == json_list(features@),
        json_usize_list(r@) == Some(features@),
{
    match serialize_usize_list(features) {
        Ok(s) => s,
        Err(_) => {
            let mut s = String::from_str("[");
            push_joined(&mut s, features, ", ");
            s.append("]");
            s
        },
    }
}

/// The feature list read back from stored JSON text; empty when the text
/// does not read as a list of numbers.
pub fn parse_features_json(text: &str) -> (r: Vec<usize>)
    ensures
        r@ == match json_usize_list(text@) {
            Some(v) => v,
            None => Seq::empty(),
        },
{
    match parse_usize_list(text) {
        Ok(v) => v,
        Err(_) => Vec::new(),
    }
}

// ---------------------------------------------------------------------------
// Statements for the result table
// ---------------------------------------------------------------------------

/// The statement that creates the result table if it does not exist.
pub open spec fn create_table_text(table: Seq<char>) -> Seq<char> {
    "CREATE TABLE IF NOT EXISTS "@ + table
        + " (\n                    features VARCHAR,\n                    mean_f1_macro DOUBLE\n                )"@
}

/// The statement that inserts one result into the table.
pub open spec fn insert_text(table: Seq<char>) -> Seq<char> {
    "INSERT INTO "@ + table + " VALUES (?, ?)"@
}

/// The query for the `n` best results, best first.
pub open spec fn top_query_text(table: Seq<char>, n: nat) -> Seq<char> {
    "SELECT features, mean_f1_macro FROM "@ + table
        + " \n                 ORDER BY mean_f1_macro DESC LIMIT "@ + decimal(n)
}

/// The statement that creates the result table if it does not exist.
pub fn create_table_sql(table: &str) -> (r: String)
    ensures
        r@ == create_table_text(table@),
{
    let mut s = String::from_str("CREATE TABLE IF NOT EXISTS ");
    s.append(table);
    s.append(" (\n                    features VARCHAR,\n                    mean_f1_macro DOUBLE\n                )");
    s
}

/// The statement that inserts one result into the table.
pub fn insert_sql(table: &str) -> (r: String)
    ensures
        r@ == insert_text(table@),
{
    let mut s = String::from_str("INSERT INTO ");
    s.append(table);
    s.append(" VALUES (?, ?)");
    s
}

/// The query for the `n` best results, best first.
pub fn top_query_sql(table: &str, n: usize) -> (r: String)
    ensures
        r@ == top_query_text(table@, n as nat),
{
    let mut s = String::from_str("SELECT features, mean_f1_macro FROM ");
    s.append(table);
    s.append(" \n                 ORDER BY mean_f1_macro DESC LIMIT ");
    push_decimal(&mut s, n as u64);
    s
}

// ---------------------------------------------------------------------------
// Collection progress
// ---------------------------------------------------------------------------

/// What to do when a read from the result queue came back empty.
#[derive(Debug, Clone, Copy, PartialEq, Eq)]
pub enum IdleStep {
    /// Both queues are empty: every result has been collected.
    Finish,
    /// Results are still queued or being worked on: wait and read again.
    Wait,
}

/// The counters of a collection run.
#[derive(Debug, Clone, Copy, PartialEq, Eq)]
pub struct CollectProgress {
    /// Results collected so far.
    pub total_count: usize,
    /// Batches collected so far.
    pub batch_counter: usize,
}

impl CollectProgress {
    /// Nothing collected yet.
    pub fn new() -> (r: Self)
        ensures
            r.total_count == 0,
            r.batch_counter == 0,
    {
        CollectProgress { total_count: 0, batch_counter: 0 }
    }

    /// After an empty read: finish when neither the result queue nor its
    /// processing queue holds anything, else wait.
    pub fn on_empty_batch(remaining: usize, processing: usize) -> (r: IdleStep)
        ensures
            r == (if remaining == 0 && processing == 0 {
                IdleStep::Finish
            } else {
                IdleStep::Wait
            }),
    {
        if remaining == 0 && processing == 0 {
            IdleStep::Finish
        } else {
            IdleStep::Wait
        }
    }

    /// Counts a stored batch of `batch_len` results; answers whether the
    /// transaction is due to be committed, which it is every tenth batch.
    pub fn record_batch(&mut self, batch_len: usize) -> (commit: bool)
        requires
            old(self).total_count + batch_len <= usize::MAX,
            old(self).batch_counter < usize::MAX,
        ensures
            final(self).total_count == old(self).total_count + batch_len,
            final(self).batch_counter == old(self).batch_counter + 1,
            commit == (final(self).batch_counter % 10 == 0),
    {
        self.total_count = self.total_count + batch_len;
        self.batch_counter = self.batch_counter + 1;
        self.batch_counter % 10 == 0
    }
}

} // verus!
