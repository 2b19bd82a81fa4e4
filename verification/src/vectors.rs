//! Small helpers on vectors of literals and of tokens.

use vstd::prelude::*;

verus! {

/// Whether `lit` occurs in the clause.
pub fn contains_literal(clause: &Vec<u32>, lit: u32) -> (found: bool)
    ensures
        found == clause@.contains(lit),
{
    let mut i: usize = 0;
    while i < clause.len()
        invariant
            0 <= i <= clause.len(),
            forall|k: int| 0 <= k < i ==> clause@[k] != lit,
        decreases clause.len() - i,
    {
        if clause[i] == lit {
            return true;
        }
        i += 1;
    }
    false
}

/// A copy of the clause.
pub fn copy_clause(clause: &Vec<u32>) -> (copy: Vec<u32>)
    ensures
        copy@ == clause@,
{
    let mut copy: Vec<u32> = Vec::new();
    let mut i: usize = 0;
    while i < clause.len()
        invariant
            0 <= i <= clause.len(),
            copy@ == clause@.take(i as int),
        decreases clause.len() - i,
    {
        copy.push(clause[i]);
        assert(clause@.take(i as int + 1) =~= clause@.take(i as int).push(clause@[i as int]));
        i += 1;
    }
    assert(clause@.take(clause.len() as int) =~= clause@);
    copy
}

/// A copy of the tokens.
pub fn copy_tokens(tokens: &Vec<String>) -> (copy: Vec<String>)
    ensures
        copy.deep_view() == tokens.deep_view(),
{
    let mut copy: Vec<String> = Vec::new();
    let mut i: usize = 0;
    while i < tokens.len()
        invariant
            0 <= i <= tokens.len(),
            copy.len() == i,
            forall|k: int| 0 <= k < i ==> (#[trigger] copy@[k])@ == tokens@[k]@,
        decreases tokens.len() - i,
    {
        copy.push(tokens[i].clone());
        i += 1;
    }
    assert(copy.deep_view() =~= tokens.deep_view());
    copy
}

} // verus!
