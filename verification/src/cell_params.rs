//! Reading numeric parameters out of netlist cells.

use vstd::prelude::*;

use crate::text::str_eq;

verus! {

/// Error generated when cell attribute retrieval fails.
#[derive(Debug)]
pub enum CellGetAttribError {
    AttributeMissing(String),
    ParseFailed(std::num::ParseIntError),
}

/// What looking up a numeric parameter of a cell gives.
pub enum ParamLookup {
    /// The cell has no such parameter.
    Missing,
    /// The parameter is there but is not a number that fits in `i64`.
    Unparsable,
    /// The parameter's value.
    Value(i64),
}

/// `r` is the result that a lookup with outcome `l` of parameter `name` reports.
pub open spec fn reports_lookup(r: Result<i64, CellGetAttribError>, l: ParamLookup, name: Seq<char>) -> bool {
    match l {
        ParamLookup::Missing => r matches Err(CellGetAttribError::AttributeMissing(s)) && s@ == name,
        ParamLookup::Unparsable => r matches Err(CellGetAttribError::ParseFailed(_)),
        ParamLookup::Value(v) => r == Ok::<i64, CellGetAttribError>(v),
    }
}

/// Handy abstraction for grabbing attributes out of cells.
pub trait CellExt {
    /// What looking up parameter `name` gives.
    spec fn param_lookup(&self, name: Seq<char>) -> ParamLookup;

    /// Get a numerical attribute from the cell, parsing it if it's a string.
    fn get_param_i64(&self, name: &str) -> (r: Result<i64, CellGetAttribError>)
        ensures
            reports_lookup(r, self.param_lookup(name@), name@),
    ;

    /// Like [`CellExt::get_param_i64`], but a missing parameter gives `default`.
    fn get_param_i64_with_default(&self, name: &str, default: i64) -> (r: Result<i64, CellGetAttribError>)
        ensures
            match self.param_lookup(name@) {
                ParamLookup::Missing => r == Ok::<i64, CellGetAttribError>(default),
                ParamLookup::Unparsable => r matches Err(CellGetAttribError::ParseFailed(_)),
                ParamLookup::Value(v) => r == Ok::<i64, CellGetAttribError>(v),
            },
    {
        match self.get_param_i64(name) {
            Err(CellGetAttribError::AttributeMissing(_)) => Ok(default),
            other => other,
        }
    }
}

/// The value of the first entry of `ps` with key `key`.
pub open spec fn assoc_lookup<V>(ps: Seq<(String, V)>, key: Seq<char>) -> Option<V>
    decreases ps.len(),
{
    if ps.len() == 0 {
        None
    } else if ps[0].0@ == key {
        Some(ps[0].1)
    } else {
        assoc_lookup(ps.drop_first(), key)
    }
}

proof fn lemma_assoc_lookup_skip<V>(ps: Seq<(String, V)>, key: Seq<char>, i: int)
    requires
        0 <= i < ps.len(),
        ps[i].0@ != key,
    ensures
        assoc_lookup(ps.subrange(i, ps.len() as int), key) == assoc_lookup(ps.subrange(i + 1, ps.len() as int), key),
{
    assert(ps.subrange(i, ps.len() as int).drop_first() =~= ps.subrange(i + 1, ps.len() as int));
}

/// The value of the first entry of `ps` with key `key`.
pub fn assoc_get<'a, V>(ps: &'a Vec<(String, V)>, key: &str) -> (r: Option<&'a V>)
    ensures
        match r {
            Some(v) => assoc_lookup(ps@, key@) == Some(*v),
            None => assoc_lookup(ps@, key@) is None,
        },
{
    let n = ps.len();
    let mut i: usize = 0;
    proof {
        assert(ps@.subrange(0, n as int) =~= ps@);
    }
    while i < n
        invariant
            n == ps@.len(),
            i <= n,
            assoc_lookup(ps@.subrange(i as int, n as int), key@) == assoc_lookup(ps@, key@),
        decreases n - i,
    {
        if str_eq(ps[i].0.as_str(), key) {
            return Some(&ps[i].1);
        }
        proof {
            lemma_assoc_lookup_skip(ps@, key@, i as int);
        }
        i = i + 1;
    }
    None
}

} // verus!
