//! The table of routes: which handler answers a request, and with which
//! parts of the path.

use vstd::prelude::*;
use vstd::string::*;
use crate::text::{push_char, same_text};

verus! {

/// The groups that a regular expression captures in a text, the whole match
/// first, where the expression is sound and matches; a group that took no
/// part in the match is `None`.
pub uninterp spec fn captured(pattern: Seq<char>, text: Seq<char>) -> Option<
    Seq<Option<Seq<char>>>,
>;

/// What is wrong with a regular expression, where something is.
pub uninterp spec fn pattern_fault(pattern: Seq<char>) -> Option<Seq<char>>;

/// Captured groups with each text as a sequence of characters.
pub open spec fn group_texts(groups: Seq<Option<String>>) -> Seq<Option<Seq<char>>> {
    groups.map_values(
        |g: Option<String>|
            match g {
                Some(s) => Some(s@),
                None => None,
            },
    )
}

/// Calls `regex::Regex::new` and, where it fails, writes the error out.
/// The result depends on the expression alone.
#[verifier::external_body]
pub(crate) fn check_pattern(pattern: &str) -> (r: Result<(), String>)
    ensures
        match r {
            Ok(()) => pattern_fault(pattern@) is None,
            Err(e) => pattern_fault(pattern@) == Some(e@),
        },
{
    match regex::Regex::new(pattern) {
        Ok(_) => Ok(()),
        Err(e) => Err(format!("{}", e)),
    }
}

/// Compiles the expression with `regex::Regex::new` and calls
/// `regex::Regex::captures` on the text; the groups are copied out in the
/// order of `Captures::iter`. `None` where the expression is unsound or
/// does not match. The result depends on the expression and the text
/// alone.
#[verifier::external_body]
pub(crate) fn capture(pattern: &str, text: &str) -> (r: Option<Vec<Option<String>>>)
    ensures
        match r {
            Some(groups) => captured(pattern@, text@) == Some(group_texts(groups@)),
            None => captured(pattern@, text@) is None,
        },
{
    let re = regex::Regex::new(pattern).ok()?;
    let caps = re.captures(text)?;
    Some(caps.iter().map(|m| m.map(|m| m.as_str().to_owned())).collect())
}

/// The expression for the characters of a route's path: each `?` stands for
/// a captured run of characters other than `/`.
pub open spec fn pattern_body(path: Seq<char>) -> Seq<char>
    decreases path.len(),
{
    if path.len() == 0 {
        Seq::empty()
    } else if path.last() == '?' {
        pattern_body(path.drop_last()) + "([^/]*)"@
    } else {
        pattern_body(path.drop_last()).push(path.last())
    }
}

/// The expression that a route's path stands for: it must match a whole
/// path.
pub open spec fn route_pattern(path: Seq<char>) -> Seq<char> {
    "^"@ + pattern_body(path) + "$"@
}

/// The parts of a path that a match captured: every group but the first
/// that took part in the match.
pub open spec fn captured_parts(groups: Seq<Option<Seq<char>>>) -> Seq<Seq<char>>
    decreases groups.len(),
{
    if groups.len() <= 1 {
        Seq::empty()
    } else {
        match groups.last() {
            Some(s) => captured_parts(groups.drop_last()).push(s),
            None => captured_parts(groups.drop_last()),
        }
    }
}

/// One route: requests with this method whose path fits the pattern go to
/// the handler with this number.
pub struct Route {
    pub method: String,
    pub path: String,
    pub pattern: String,
    pub handler: usize,
}

impl Route {
    /// Whether the route takes a request.
    pub open spec fn takes(self, method: Seq<char>, path: Seq<char>) -> bool {
        self.method@ == method && captured(self.pattern@, path) is Some
    }
}

/// The first route that takes a request.
pub open spec fn first_taking(routes: Seq<Route>, method: Seq<char>, path: Seq<char>) -> Option<
    int,
>
    decreases routes.len(),
{
    if routes.len() == 0 {
        None
    } else {
        match first_taking(routes.drop_last(), method, path) {
            Some(i) => Some(i),
            None => if routes.last().takes(method, path) {
                Some(routes.len() - 1)
            } else {
                None
            },
        }
    }
}

/// What `first_taking` finds in a beginning of the routes, it finds in all
/// of them.
proof fn lemma_first_taking_prefix(routes: Seq<Route>, method: Seq<char>, path: Seq<char>, n: int)
    requires
        0 <= n <= routes.len(),
        first_taking(routes.take(n), method, path) is Some,
    ensures
        first_taking(routes, method, path) == first_taking(routes.take(n), method, path),
    decreases routes.len(),
{
    if n == routes.len() {
        assert(routes.take(n) =~= routes);
    } else {
        assert(routes.drop_last().take(n) =~= routes.take(n));
        lemma_first_taking_prefix(routes.drop_last(), method, path, n);
    }
}

/// Writes the expression that a route's path stands for.
pub fn path_pattern(path: &str) -> (r: String)
    ensures
        r@ == route_pattern(path@),
{
    let n = path.unicode_len();
    let mut r = String::from_str("^");
    let mut i: usize = 0;
    proof {
        assert(path@.take(0) =~= Seq::<char>::empty());
        assert("^"@ + pattern_body(Seq::<char>::empty()) =~= "^"@);
    }
    while i < n
        invariant
            n == path@.len(),
            i <= n,
            r@ == "^"@ + pattern_body(path@.take(i as int)),
        decreases n - i,
    {
        let c = path.get_char(i);
        proof {
            assert(path@.take(i + 1).drop_last() =~= path@.take(i as int));
            assert(path@.take(i + 1).last() == c);
        }
        if c == '?' {
            r.append("([^/]*)");
            proof {
                assert(r@ =~= "^"@ + pattern_body(path@.take(i + 1)));
            }
        } else {
            push_char(&mut r, c);
            proof {
                assert(r@ =~= "^"@ + pattern_body(path@.take(i + 1)));
            }
        }
        i += 1;
    }
    proof {
        assert(path@.take(n as int) =~= path@);
    }
    r.append("$");
    r
}

/// Picks out the parts of a path that a match captured.
pub fn parts_of(groups: &Vec<Option<String>>) -> (r: Vec<String>)
    ensures
        r@.map_values(|s: String| s@) == captured_parts(group_texts(groups@)),
{
    let ghost all = group_texts(groups@);
    let mut r: Vec<String> = Vec::new();
    let mut i: usize = 1;
    proof {
        assert(r@.map_values(|s: String| s@) =~= Seq::<Seq<char>>::empty());
    }
    if groups.len() <= 1 {
        return r;
    }
    proof {
        assert(all.take(1).len() == 1);
    }
    while i < groups.len()
        invariant
            1 <= i <= groups.len(),
            all == group_texts(groups@),
            r@.map_values(|s: String| s@) == captured_parts(all.take(i as int)),
        decreases groups.len() - i,
    {
        proof {
            assert(all.take(i + 1).drop_last() =~= all.take(i as int));
            assert(all.take(i + 1).last() == all[i as int]);
        }
        match &groups[i] {
            Some(s) => {
                let ghost before = r@.map_values(|s: String| s@);
                r.push(s.clone());
                proof {
                    assert(r@.map_values(|s: String| s@) =~= before.push(s@));
                }
            },
            None => {},
        }
        i += 1;
    }
    proof {
        assert(all.take(groups.len() as int) =~= all);
    }
    r
}

/// The routes of a server, in the order in which they are tried.
pub struct Router {
    routes: Vec<Route>,
}

/// Collects the routes of a `Router`.
pub struct Builder {
    routes: Vec<Route>,
}

impl Router {
    /// The routes, in the order in which they are tried.
    pub closed spec fn routes(&self) -> Seq<Route> {
        self.routes@
    }

    /// Finds the handler for a request: that of the first route with the
    /// request's method whose pattern fits the path, with the parts of the
    /// path that the pattern captured. `None` stands for the handler of
    /// requests that no route takes.
    pub fn route(&self, method: &str, path: &str) -> (r: (Option<usize>, Vec<String>))
        ensures
            match first_taking(self.routes(), method@, path@) {
                Some(i) => r.0 == Some(self.routes()[i].handler) && r.1@.map_values(
                    |s: String| s@,
                ) == captured_parts(captured(self.routes()[i].pattern@, path@)->0),
                None => r.0 is None && r.1@.len() == 0,
            },
    {
        let mut i: usize = 0;
        while i < self.routes.len()
            invariant
                i <= self.routes.len(),
                first_taking(self.routes@.take(i as int), method@, path@) is None,
            decreases self.routes.len() - i,
        {
            let route = &self.routes[i];
            proof {
                assert(self.routes@.take(i + 1).drop_last() =~= self.routes@.take(i as int));
                assert(self.routes@.take(i + 1).last() == *route);
            }
            if same_text(route.method.as_str(), method) {
                match capture(route.pattern.as_str(), path) {
                    Some(groups) => {
                        proof {
                            lemma_first_taking_prefix(self.routes@, method@, path@, i + 1);
                        }
                        return (Some(route.handler), parts_of(&groups));
                    },
                    None => {},
                }
            }
            i += 1;
        }
        proof {
            assert(self.routes@.take(i as int) =~= self.routes@);
        }
        (None, Vec::new())
    }
}

impl Builder {
    /// The routes collected so far.
    pub closed spec fn routes(&self) -> Seq<Route> {
        self.routes@
    }

    /// A builder without routes.
    pub fn new() -> (r: Builder)
        ensures
            r.routes().len() == 0,
    {
        Builder { routes: Vec::new() }
    }

    /// Adds a route after those that are there, unless the path's pattern
    /// is no sound expression: then the error says why, and nothing is
    /// added.
    pub fn add(&mut self, method: &str, path: &str, handler: usize) -> (r: Result<(), String>)
        ensures
            match r {
                Ok(()) => pattern_fault(route_pattern(path@)) is None
                    && final(self).routes().len() == old(self).routes().len() + 1
                    && final(self).routes().drop_last() == old(self).routes()
                    && final(self).routes().last().method@ == method@
                    && final(self).routes().last().path@ == path@
                    && final(self).routes().last().pattern@ == route_pattern(path@)
                    && final(self).routes().last().handler == handler,
                Err(e) => pattern_fault(route_pattern(path@)) == Some(e@) && final(self).routes()
                    == old(self).routes(),
            },
    {
        let pattern = path_pattern(path);
        match check_pattern(pattern.as_str()) {
            Ok(()) => {},
            Err(e) => {
                return Err(e);
            },
        }
        let ghost before = self.routes@;
        self.routes.push(
            Route { method: method.to_owned(), path: path.to_owned(), pattern, handler },
        );
        proof {
            assert(self.routes@.drop_last() =~= before);
        }
        Ok(())
    }

    /// The router with the routes collected.
    pub fn build(self) -> (r: Router)
        ensures
            r.routes() == self.routes(),
    {
        Router { routes: self.routes }
    }
}

} // verus!
