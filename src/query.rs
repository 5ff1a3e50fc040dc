use vstd::prelude::*;

use crate::todo_list::SearchWordOrTag;

verus! {

/// A query: the terms that a matching item must all satisfy.
#[derive(Debug, Clone, PartialEq, Eq)]
pub struct SearchParams {
    pub params: Vec<SearchWordOrTag>,
}

impl SearchParams {
    pub fn new(params: Vec<SearchWordOrTag>) -> (r: Self)
        ensures
            r.params == params,
    {
        SearchParams { params }
    }
}

} // verus!
