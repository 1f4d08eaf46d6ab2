//! Fetching the actual resources page by page: what to ask for next, and
//! what to make of each answer.

use vstd::prelude::*;
use crate::error::Error;

verus! {

/// One answer of the provider's listing: some resources, and the page that
/// follows, where one does.
pub struct Page<R> {
    pub items: Vec<R>,
    pub next_page: Option<i64>,
}

/// A fetch under way: the resources listed so far and the page to ask for.
pub struct Fetcher<R> {
    collected: Vec<R>,
    page: Option<i64>,
}

/// Where a fetch stands after an answer.
pub enum FetchStep<R> {
    /// Another page is to be listed.
    More(Fetcher<R>),
    /// Every page was listed: the resources of all of them, in the order received.
    Done(Vec<R>),
    /// A listing failed. Nothing of the pages before it is handed on.
    Failed(Error),
}

impl<R> Fetcher<R> {
    /// The resources of the pages listed so far, in the order received.
    pub closed spec fn collected(&self) -> Seq<R> {
        self.collected@
    }

    /// The page to list next: `None` asks for the first.
    pub closed spec fn page(&self) -> Option<i64> {
        self.page
    }

    /// A fetch that has listed nothing yet.
    pub fn new() -> (f: Self)
        ensures
            f.collected() == Seq::<R>::empty(),
            f.page() == None::<i64>,
    {
        Fetcher { collected: Vec::new(), page: None }
    }

    /// The page to hand to the provider's listing.
    pub fn next_page(&self) -> (p: Option<i64>)
        ensures
            p == self.page(),
    {
        self.page
    }

    /// Takes the answer to the listing of `next_page`. A page that names a
    /// successor asks for that one; a page that names none ends the fetch
    /// with everything listed; a failure ends it with nothing.
    pub fn advance(self, listed: Result<Page<R>, String>) -> (step: FetchStep<R>)
        ensures
            match listed {
                Err(cause) => step == FetchStep::<R>::Failed(Error::Fetch { cause }),
                Ok(page) => match page.next_page {
                    Some(token) => step matches FetchStep::More(f) && f.collected()
                        == self.collected() + page.items@ && f.page() == Some(token),
                    None => step matches FetchStep::Done(all) && all@ == self.collected()
                        + page.items@,
                },
            },
    {
        match listed {
            Err(cause) => FetchStep::Failed(Error::Fetch { cause }),
            Ok(page) => {
                let mut collected = self.collected;
                let mut items = page.items;
                collected.append(&mut items);
                match page.next_page {
                    Some(token) => FetchStep::More(Fetcher { collected, page: Some(token) }),
                    None => FetchStep::Done(collected),
                }
            },
        }
    }
}

} // verus!
