//! Routes by prefix.
use vstd::prelude::*;
use crate::text::{begins_with, chars_of, copy_text, starts_with};

verus! {

/// The handler of the first route from `i` on whose pattern begins the path.
pub open spec fn first_match(
    routes: Seq<(Seq<char>, Seq<char>)>,
    path: Seq<char>,
    i: int,
) -> Option<Seq<char>>
    decreases routes.len() - i,
{
    if i < 0 || i >= routes.len() {
        None
    } else if begins_with(path, routes[i].0) {
        Some(routes[i].1)
    } else {
        first_match(routes, path, i + 1)
    }
}

/// Routes in the order in which they were added.
#[derive(Debug)]
pub struct Router {
    routes: Vec<(String, String)>,
}

impl View for Router {
    type V = Seq<(Seq<char>, Seq<char>)>;

    closed spec fn view(&self) -> Seq<(Seq<char>, Seq<char>)> {
        Seq::new(self.routes@.len(), |i: int| (self.routes@[i].0@, self.routes@[i].1@))
    }
}

impl Router {
    /// No routes.
    pub fn new() -> (r: Self)
        ensures
            r@ == Seq::<(Seq<char>, Seq<char>)>::empty(),
    {
        let r = Self { routes: Vec::new() };
        assert(r@ =~= Seq::empty());
        r
    }

    /// Adds a route behind the others.
    pub fn add_route(&mut self, pattern: &str, handler: &str)
        ensures
            final(self)@ == old(self)@.push((pattern@, handler@)),
    {
        let ghost before = self@;
        self.routes.push((copy_text(pattern), copy_text(handler)));
        assert(self@ =~= before.push((pattern@, handler@)));
    }

    /// The handler of the first route whose pattern begins the path.
    pub fn match_route(&self, path: &str) -> (r: Option<&str>)
        ensures
            match (r, first_match(self@, path@, 0)) {
                (Some(a), Some(b)) => a@ == b,
                (None, None) => true,
                _ => false,
            },
    {
        let chars = chars_of(path);
        let mut i: usize = 0;
        while i < self.routes.len()
            invariant
                i <= self.routes@.len(),
                chars@ == path@,
                first_match(self@, path@, i as int) == first_match(self@, path@, 0),
            decreases self.routes@.len() - i,
        {
            assert(self@[i as int] == (self.routes@[i as int].0@, self.routes@[i as int].1@));
            if starts_with(chars.as_slice(), self.routes[i].0.as_str()) {
                return Some(self.routes[i].1.as_str());
            }
            i = i + 1;
        }
        None
    }
}

impl Default for Router {
    fn default() -> (r: Self)
        ensures
            r@ == Seq::<(Seq<char>, Seq<char>)>::empty(),
    {
        Self::new()
    }
}

proof fn lemma_match_in_longer(
    routes: Seq<(Seq<char>, Seq<char>)>,
    route: (Seq<char>, Seq<char>),
    path: Seq<char>,
    i: int,
)
    requires
        0 <= i <= routes.len(),
    ensures
        first_match(routes.push(route), path, i) == match first_match(routes, path, i) {
            Some(h) => Some(h),
            None => if begins_with(path, route.0) {
                Some(route.1)
            } else {
                None
            },
        },
    decreases routes.len() - i,
{
    if i < routes.len() {
        lemma_match_in_longer(routes, route, path, i + 1);
    } else {
        assert(first_match(routes.push(route), path, i + 1) is None);
    }
}

/// A route that is added counts only for paths that no earlier one takes.
pub proof fn law_earlier_routes_win(
    routes: Seq<(Seq<char>, Seq<char>)>,
    route: (Seq<char>, Seq<char>),
    path: Seq<char>,
)
    ensures
        first_match(routes.push(route), path, 0) == match first_match(routes, path, 0) {
            Some(h) => Some(h),
            None => if begins_with(path, route.0) {
                Some(route.1)
            } else {
                None
            },
        },
{
    lemma_match_in_longer(routes, route, path, 0);
}

} // verus!
