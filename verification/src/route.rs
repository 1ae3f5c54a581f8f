use vstd::prelude::*;

verus! {

/// The effect applied when a match is selected: proxying, static shares,
/// rewrites and so on. The parameter bag is opaque to the control plane and
/// is kept in its canonical serialized form, so two actions are the same
/// action exactly when their `params` strings are equal.
#[derive(Debug, Clone, PartialEq, Eq)]
pub struct Action {
    pub params: String,
}

/// Mathematical model of an [`Action`].
pub struct ActionV {
    pub params: Seq<char>,
}

impl View for Action {
    type V = ActionV;

    open spec fn view(&self) -> ActionV {
        ActionV { params: self.params@ }
    }
}

impl Action {
    /// Structural equality: actions are equal exactly when their canonical
    /// parameter forms are equal.
    pub fn same(&self, other: &Action) -> (r: bool)
        ensures
            r == (self@ == other@),
    {
        self.params == other.params
    }

    pub fn duplicate(&self) -> (r: Action)
        ensures
            r@ == self@,
    {
        Action { params: self.params.clone() }
    }
}

/// A routing condition: an optional host domain, optional URI and source-IP
/// conditions, and an opaque canonical parameter bag (empty when absent).
/// A route-level match names at most one host; conditions that apply to many
/// hosts are expanded into one route per host before they reach a table.
#[derive(Debug, Clone, PartialEq, Eq)]
pub struct Match {
    pub host: Option<String>,
    pub uri: Option<String>,
    pub source: Option<String>,
    pub params: String,
}

/// Mathematical model of a [`Match`]: the merge key of a route.
pub struct MatchV {
    pub host: Option<Seq<char>>,
    pub uri: Option<Seq<char>>,
    pub source: Option<Seq<char>>,
    pub params: Seq<char>,
}

impl View for Match {
    type V = MatchV;

    open spec fn view(&self) -> MatchV {
        MatchV {
            host: match self.host {
                Some(ref h) => Some(h@),
                None => None,
            },
            uri: match self.uri {
                Some(ref u) => Some(u@),
                None => None,
            },
            source: match self.source {
                Some(ref s) => Some(s@),
                None => None,
            },
            params: self.params@,
        }
    }
}

/// One entry of a routing table: the pairing of a condition with the effect
/// applied when it is selected. A route may carry no action (pass-through).
#[derive(Debug, Clone, PartialEq, Eq)]
pub struct Route {
    pub action: Option<Action>,
    pub match_: Match,
}

/// Mathematical model of a [`Route`].
pub struct RouteV {
    pub action: Option<ActionV>,
    pub match_: MatchV,
}

impl View for Route {
    type V = RouteV;

    open spec fn view(&self) -> RouteV {
        RouteV {
            action: match self.action {
                Some(ref a) => Some(a@),
                None => None,
            },
            match_: self.match_@,
        }
    }
}

/// The models of a sequence of routes, in order.
pub open spec fn routes_view(s: Seq<Route>) -> Seq<RouteV> {
    Seq::new(s.len(), |i: int| s[i]@)
}

/// A structurally equal copy of a list of routes.
pub fn duplicate_routes(v: &Vec<Route>) -> (r: Vec<Route>)
    ensures
        routes_view(r@) == routes_view(v@),
{
    let mut r: Vec<Route> = Vec::new();
    let mut i: usize = 0;
    while i < v.len()
        invariant
            i <= v@.len(),
            r@.len() == i,
            forall|j: int| 0 <= j < i ==> #[trigger] r@[j]@ == v@[j]@,
        decreases v@.len() - i,
    {
        r.push(v[i].duplicate());
        i = i + 1;
    }
    proof {
        assert(routes_view(r@) =~= routes_view(v@));
    }
    r
}

// ---------------------------------------------------------------------------
// The total order on match keys.
//
// Merging routing tables sorts routes by their match key; any total order
// will do as long as it is fixed, so routes are ordered lexicographically
// over (host, uri, source, params), strings by code point, with an absent
// field before a present one.
// ---------------------------------------------------------------------------

/// Three-way code-point comparison of two character sequences:
/// -1 when `a` comes first, 1 when `b` comes first, 0 when they are equal.
pub open spec fn seq_cmp(a: Seq<char>, b: Seq<char>) -> int
    decreases a.len(),
{
    if a.len() == 0 && b.len() == 0 {
        0
    } else if a.len() == 0 {
        -1
    } else if b.len() == 0 {
        1
    } else if (a[0] as nat) < (b[0] as nat) {
        -1
    } else if (a[0] as nat) > (b[0] as nat) {
        1
    } else {
        seq_cmp(a.drop_first(), b.drop_first())
    }
}

/// Three-way comparison of optional character sequences: absent before present.
pub open spec fn opt_cmp(a: Option<Seq<char>>, b: Option<Seq<char>>) -> int {
    match (a, b) {
        (None, None) => 0,
        (None, Some(_)) => -1,
        (Some(_), None) => 1,
        (Some(x), Some(y)) => seq_cmp(x, y),
    }
}

/// Three-way comparison of match keys, lexicographic over the fields.
pub open spec fn match_cmp(a: MatchV, b: MatchV) -> int {
    if opt_cmp(a.host, b.host) != 0 {
        opt_cmp(a.host, b.host)
    } else if opt_cmp(a.uri, b.uri) != 0 {
        opt_cmp(a.uri, b.uri)
    } else if opt_cmp(a.source, b.source) != 0 {
        opt_cmp(a.source, b.source)
    } else {
        seq_cmp(a.params, b.params)
    }
}

/// Strict order on match keys.
pub open spec fn match_lt(a: MatchV, b: MatchV) -> bool {
    match_cmp(a, b) < 0
}

/// Characters with the same code point are the same character.
proof fn lemma_char_eq(x: char, y: char)
    requires
        x as nat == y as nat,
    ensures
        x == y,
{
}

pub proof fn lemma_seq_cmp_range(a: Seq<char>, b: Seq<char>)
    ensures
        seq_cmp(a, b) == -1 || seq_cmp(a, b) == 0 || seq_cmp(a, b) == 1,
    decreases a.len(),
{
    if a.len() == 0 || b.len() == 0 || (a[0] as nat) < (b[0] as nat) || (a[0] as nat) > (
    b[0] as nat) {
        assert(seq_cmp(a, b) == -1 || seq_cmp(a, b) == 0 || seq_cmp(a, b) == 1);
    } else {
        lemma_seq_cmp_range(a.drop_first(), b.drop_first());
        assert(seq_cmp(a, b) == seq_cmp(a.drop_first(), b.drop_first()));
    }
}

/// The comparison is zero exactly on equal sequences.
pub proof fn lemma_seq_cmp_eq(a: Seq<char>, b: Seq<char>)
    ensures
        seq_cmp(a, b) == 0 <==> a == b,
    decreases a.len(),
{
    if a.len() == 0 && b.len() == 0 {
        assert(a =~= b);
        assert(seq_cmp(a, b) == 0);
    } else if a.len() == 0 || b.len() == 0 {
        assert(seq_cmp(a, b) != 0);
    } else if (a[0] as nat) < (b[0] as nat) || (a[0] as nat) > (b[0] as nat) {
        assert(seq_cmp(a, b) != 0);
        assert(a[0] != b[0]);
    } else {
        lemma_seq_cmp_eq(a.drop_first(), b.drop_first());
        assert(seq_cmp(a, b) == seq_cmp(a.drop_first(), b.drop_first()));
        assert((a[0] as nat) == (b[0] as nat));
        lemma_char_eq(a[0], b[0]);
        if seq_cmp(a, b) == 0 {
            assert(a.drop_first() == b.drop_first());
            assert(a.len() == b.len());
            assert forall|i: int| 0 <= i < a.len() implies a[i] == b[i] by {
                if i >= 1 {
                    assert(a[i] == a.drop_first()[i - 1]);
                    assert(b[i] == b.drop_first()[i - 1]);
                }
            }
            assert(a =~= b);
        }
        if a == b {
            assert(a.drop_first() =~= b.drop_first());
        }
    }
}

/// Swapping the arguments flips the sign.
pub proof fn lemma_seq_cmp_antisym(a: Seq<char>, b: Seq<char>)
    ensures
        seq_cmp(a, b) == -seq_cmp(b, a),
    decreases a.len(),
{
    if a.len() == 0 || b.len() == 0 || (a[0] as nat) < (b[0] as nat) || (a[0] as nat) > (
    b[0] as nat) {
        assert(seq_cmp(a, b) == -seq_cmp(b, a));
    } else {
        lemma_seq_cmp_antisym(a.drop_first(), b.drop_first());
        assert(seq_cmp(a, b) == seq_cmp(a.drop_first(), b.drop_first()));
        assert(seq_cmp(b, a) == seq_cmp(b.drop_first(), a.drop_first()));
    }
}

/// The strict order is transitive.
pub proof fn lemma_seq_cmp_trans(a: Seq<char>, b: Seq<char>, c: Seq<char>)
    requires
        seq_cmp(a, b) < 0,
        seq_cmp(b, c) < 0,
    ensures
        seq_cmp(a, c) < 0,
    decreases a.len(),
{
    assert(seq_cmp(a, b) < 0);
    assert(seq_cmp(b, c) < 0);
    if a.len() == 0 {
        assert(b.len() != 0);
        assert(c.len() != 0);
        assert(seq_cmp(a, c) == -1);
    } else {
        assert(b.len() != 0);
        assert(c.len() != 0);
        if (a[0] as nat) < (b[0] as nat) {
            assert(!((b[0] as nat) > (c[0] as nat)));
            assert((a[0] as nat) < (c[0] as nat));
            assert(seq_cmp(a, c) == -1);
        } else {
            assert((a[0] as nat) == (b[0] as nat));
            if (b[0] as nat) < (c[0] as nat) {
                assert(seq_cmp(a, c) == -1);
            } else {
                assert((b[0] as nat) == (c[0] as nat));
                assert(seq_cmp(a, b) == seq_cmp(a.drop_first(), b.drop_first()));
                assert(seq_cmp(b, c) == seq_cmp(b.drop_first(), c.drop_first()));
                lemma_seq_cmp_trans(a.drop_first(), b.drop_first(), c.drop_first());
                assert(seq_cmp(a, c) == seq_cmp(a.drop_first(), c.drop_first()));
            }
        }
    }
}

pub proof fn lemma_opt_cmp_eq(a: Option<Seq<char>>, b: Option<Seq<char>>)
    ensures
        opt_cmp(a, b) == 0 <==> a == b,
{
    if a is Some && b is Some {
        lemma_seq_cmp_eq(a->0, b->0);
    }
}

pub proof fn lemma_opt_cmp_antisym(a: Option<Seq<char>>, b: Option<Seq<char>>)
    ensures
        opt_cmp(a, b) == -opt_cmp(b, a),
{
    if a is Some && b is Some {
        lemma_seq_cmp_antisym(a->0, b->0);
    }
}

pub proof fn lemma_opt_cmp_trans(a: Option<Seq<char>>, b: Option<Seq<char>>, c: Option<Seq<char>>)
    requires
        opt_cmp(a, b) < 0,
        opt_cmp(b, c) < 0,
    ensures
        opt_cmp(a, c) < 0,
{
    if a is Some && b is Some && c is Some {
        lemma_seq_cmp_trans(a->0, b->0, c->0);
    }
}

/// The match-key comparison is zero exactly on equal keys.
pub proof fn lemma_match_cmp_eq(a: MatchV, b: MatchV)
    ensures
        match_cmp(a, b) == 0 <==> a == b,
{
    lemma_opt_cmp_eq(a.host, b.host);
    lemma_opt_cmp_eq(a.uri, b.uri);
    lemma_opt_cmp_eq(a.source, b.source);
    lemma_seq_cmp_eq(a.params, b.params);
}

/// Swapping the arguments of the match-key comparison flips the sign.
pub proof fn lemma_match_cmp_antisym(a: MatchV, b: MatchV)
    ensures
        match_cmp(a, b) == -match_cmp(b, a),
{
    lemma_opt_cmp_antisym(a.host, b.host);
    lemma_opt_cmp_antisym(a.uri, b.uri);
    lemma_opt_cmp_antisym(a.source, b.source);
    lemma_seq_cmp_antisym(a.params, b.params);
}

/// The strict match-key order is transitive.
pub proof fn lemma_match_lt_trans(a: MatchV, b: MatchV, c: MatchV)
    requires
        match_lt(a, b),
        match_lt(b, c),
    ensures
        match_lt(a, c),
{
    lemma_opt_cmp_eq(a.host, b.host);
    lemma_opt_cmp_eq(b.host, c.host);
    lemma_opt_cmp_eq(a.uri, b.uri);
    lemma_opt_cmp_eq(b.uri, c.uri);
    lemma_opt_cmp_eq(a.source, b.source);
    lemma_opt_cmp_eq(b.source, c.source);
    if opt_cmp(a.host, b.host) < 0 && opt_cmp(b.host, c.host) < 0 {
        lemma_opt_cmp_trans(a.host, b.host, c.host);
    } else if opt_cmp(a.uri, b.uri) < 0 && opt_cmp(b.uri, c.uri) < 0 {
        lemma_opt_cmp_trans(a.uri, b.uri, c.uri);
    } else if opt_cmp(a.source, b.source) < 0 && opt_cmp(b.source, c.source) < 0 {
        lemma_opt_cmp_trans(a.source, b.source, c.source);
    } else if seq_cmp(a.params, b.params) < 0 && seq_cmp(b.params, c.params) < 0 {
        lemma_seq_cmp_trans(a.params, b.params, c.params);
    }
}

/// Keys unordered in both directions are equal.
pub proof fn lemma_match_connected(a: MatchV, b: MatchV)
    requires
        !match_lt(a, b),
        !match_lt(b, a),
    ensures
        a == b,
{
    lemma_match_cmp_antisym(a, b);
    lemma_match_cmp_eq(a, b);
}

// ---------------------------------------------------------------------------
// Executable comparisons.
// ---------------------------------------------------------------------------

/// When the first `i` characters agree, comparison is decided by the rest.
proof fn lemma_seq_cmp_skip(a: Seq<char>, b: Seq<char>, i: int)
    requires
        0 <= i <= a.len(),
        i <= b.len(),
        forall|j: int| 0 <= j < i ==> a[j] == b[j],
    ensures
        seq_cmp(a, b) == seq_cmp(a.skip(i), b.skip(i)),
    decreases i,
{
    if i > 0 {
        assert(a.len() != 0 && b.len() != 0 && a[0] == b[0]);
        assert(a.drop_first() =~= a.skip(1));
        assert(b.drop_first() =~= b.skip(1));
        lemma_seq_cmp_skip(a.skip(1), b.skip(1), i - 1);
        assert(a.skip(1).skip(i - 1) =~= a.skip(i));
        assert(b.skip(1).skip(i - 1) =~= b.skip(i));
    } else {
        assert(a.skip(0) =~= a);
        assert(b.skip(0) =~= b);
    }
}

/// Three-way code-point comparison of two strings.
pub fn str_cmp(a: &str, b: &str) -> (r: i8)
    ensures
        r as int == seq_cmp(a@, b@),
{
    let a_len = a.unicode_len();
    let b_len = b.unicode_len();
    let mut i: usize = 0;
    loop
        invariant
            0 <= i <= a_len,
            i <= b_len,
            a_len == a@.len(),
            b_len == b@.len(),
            forall|j: int| 0 <= j < i ==> a@[j] == b@[j],
        ensures
            i <= a@.len(),
            i <= b@.len(),
            forall|j: int| 0 <= j < i ==> a@[j] == b@[j],
            (i == a@.len() && i == b@.len()) || (i == a@.len() && i < b@.len()) || (i
                == b@.len() && i < a@.len()) || (i < a@.len() && i < b@.len() && a@[i as int]
                != b@[i as int]),
        decreases a_len - i,
    {
        if i == a_len || i == b_len {
            break ;
        }
        let ca = a.get_char(i);
        let cb = b.get_char(i);
        if ca != cb {
            break ;
        }
        i = i + 1;
    }
    proof {
        lemma_seq_cmp_skip(a@, b@, i as int);
    }
    if i == a_len && i == b_len {
        proof {
            assert(a@.skip(i as int).len() == 0 && b@.skip(i as int).len() == 0);
        }
        0
    } else if i == a_len {
        proof {
            assert(a@.skip(i as int).len() == 0 && b@.skip(i as int).len() != 0);
        }
        -1
    } else if i == b_len {
        proof {
            assert(b@.skip(i as int).len() == 0 && a@.skip(i as int).len() != 0);
        }
        1
    } else {
        let ca = a.get_char(i);
        let cb = b.get_char(i);
        proof {
            assert(a@.skip(i as int)[0] == a@[i as int]);
            assert(b@.skip(i as int)[0] == b@[i as int]);
        }
        if (ca as u32) < (cb as u32) {
            -1
        } else {
            1
        }
    }
}

/// Three-way comparison of optional strings: absent before present.
pub fn opt_str_cmp(a: &Option<String>, b: &Option<String>) -> (r: i8)
    ensures
        r as int == opt_cmp(
            match a {
                Some(x) => Some(x@),
                None => None,
            },
            match b {
                Some(y) => Some(y@),
                None => None,
            },
        ),
{
    match (a, b) {
        (None, None) => 0,
        (None, Some(_)) => -1,
        (Some(_), None) => 1,
        (Some(x), Some(y)) => str_cmp(x.as_str(), y.as_str()),
    }
}

impl Match {
    /// Three-way comparison of two match keys in the fixed merge order.
    pub fn compare(&self, other: &Match) -> (r: i8)
        ensures
            r as int == match_cmp(self@, other@),
    {
        let c = opt_str_cmp(&self.host, &other.host);
        if c != 0 {
            return c;
        }
        let c = opt_str_cmp(&self.uri, &other.uri);
        if c != 0 {
            return c;
        }
        let c = opt_str_cmp(&self.source, &other.source);
        if c != 0 {
            return c;
        }
        str_cmp(self.params.as_str(), other.params.as_str())
    }

    /// Structural equality of match keys.
    pub fn same(&self, other: &Match) -> (r: bool)
        ensures
            r == (self@ == other@),
    {
        proof {
            lemma_match_cmp_eq(self@, other@);
        }
        self.compare(other) == 0
    }

    pub fn duplicate(&self) -> (r: Match)
        ensures
            r@ == self@,
    {
        Match {
            host: match &self.host {
                Some(h) => Some(h.clone()),
                None => None,
            },
            uri: match &self.uri {
                Some(u) => Some(u.clone()),
                None => None,
            },
            source: match &self.source {
                Some(s) => Some(s.clone()),
                None => None,
            },
            params: self.params.clone(),
        }
    }
}

impl Route {
    /// Structural equality of whole routes: same match key and same action.
    pub fn same(&self, other: &Route) -> (r: bool)
        ensures
            r == (self@ == other@),
    {
        let actions_same = match (&self.action, &other.action) {
            (None, None) => true,
            (Some(a), Some(b)) => a.same(b),
            _ => false,
        };
        actions_same && self.match_.same(&other.match_)
    }

    pub fn duplicate(&self) -> (r: Route)
        ensures
            r@ == self@,
    {
        Route {
            action: match &self.action {
                Some(a) => Some(a.duplicate()),
                None => None,
            },
            match_: self.match_.duplicate(),
        }
    }
}

} // verus!
