//! Requests to the article store, one value per operation.

use vstd::prelude::*;

verus! {

/// Add an article with this title and these authors.
#[derive(Clone, Debug)]
pub struct Add {
    title: String,
    authors: Vec<String>,
}

impl Add {
    pub closed spec fn spec_title(&self) -> Seq<char> {
        self.title@
    }

    pub closed spec fn spec_authors(&self) -> Seq<String> {
        self.authors@
    }

    pub fn new(title: &str, authors: &[String]) -> (r: Add)
        ensures
            r.spec_title() == title@,
            r.spec_authors() == authors@,
    {
        let mut v: Vec<String> = Vec::new();
        let mut i: usize = 0;
        while i < authors.len()
            invariant
                i <= authors@.len(),
                v@ == authors@.subrange(0, i as int),
            decreases authors@.len() - i,
        {
            v.push(authors[i].clone());
            i = i + 1;
            assert(v@ =~= authors@.subrange(0, i as int));
        }
        assert(v@ =~= authors@);
        Add { title: title.to_owned(), authors: v }
    }

    pub fn title(&self) -> (r: &str)
        ensures
            r@ == self.spec_title(),
    {
        self.title.as_str()
    }

    pub fn authors(&self) -> (r: &[String])
        ensures
            r@ == self.spec_authors(),
    {
        self.authors.as_slice()
    }
}

/// Fetch the article with this id.
#[derive(Clone, Copy, Debug, PartialEq, Eq, Structural)]
pub struct Get(pub u64);

impl Get {
    pub fn new(id: u64) -> (r: Get)
        ensures
            r.0 == id,
    {
        Get(id)
    }
}

/// Remove the article with this id.
#[derive(Clone, Copy, Debug, PartialEq, Eq, Structural)]
pub struct Remove(pub u64);

impl Remove {
    pub fn new(id: u64) -> (r: Remove)
        ensures
            r.0 == id,
    {
        Remove(id)
    }
}

/// Search the articles for this query.
#[derive(Clone, Debug)]
pub struct Search(pub String);

impl Search {
    pub fn new(query: &str) -> (r: Search)
        ensures
            r.0@ == query@,
    {
        Search(query.to_owned())
    }
}

} // verus!
