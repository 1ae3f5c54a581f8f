use vstd::prelude::*;

use crate::config::{
    assoc_map, lemma_assoc_contains, lemma_assoc_get, unique_keys, ListenerOptsV, RouteTable,
    RuntimeConfig,
};
use crate::route::{
    duplicate_routes, lemma_match_cmp_eq, lemma_match_connected, lemma_match_lt_trans, match_lt,
    routes_view, MatchV, Route, RouteV,
};

verus! {

// ---------------------------------------------------------------------------
// The model of table merging.
//
// Merging two routing tables concatenates the old routes followed by the new
// ones, stable-sorts by match key and collapses each run of equal keys to its
// first element. The first element of a run under a stable sort is the first
// occurrence of that key in the concatenation, so the result is: the distinct
// keys in ascending order, each carrying the first route that used it. That
// is what `table_norm` computes, one insertion at a time.
// ---------------------------------------------------------------------------

/// Some route in `s` has match key `k`.
pub open spec fn has_key(s: Seq<RouteV>, k: MatchV) -> bool {
    exists|i: int| 0 <= i < s.len() && s[i].match_ == k
}

/// The first route in `s` whose match key is `k`.
pub open spec fn first_with_key(s: Seq<RouteV>, k: MatchV) -> RouteV
    decreases s.len(),
{
    if s.len() == 0 {
        arbitrary()
    } else if s[0].match_ == k {
        s[0]
    } else {
        first_with_key(s.drop_first(), k)
    }
}

/// Match keys strictly ascending: sorted, with no key repeated.
pub open spec fn sorted_distinct(s: Seq<RouteV>) -> bool {
    forall|i: int, j: int| 0 <= i < j < s.len() ==> match_lt(s[i].match_, s[j].match_)
}

/// Insert `r` into a key-sorted table, keeping the table unchanged when its
/// key is already present: the route that arrived first survives a merge.
pub open spec fn insert_keep(t: Seq<RouteV>, r: RouteV) -> Seq<RouteV>
    decreases t.len(),
{
    if t.len() == 0 {
        seq![r]
    } else if match_lt(t[0].match_, r.match_) {
        seq![t[0]] + insert_keep(t.drop_first(), r)
    } else if t[0].match_ == r.match_ {
        t
    } else {
        seq![r] + t
    }
}

/// The merged form of a table: its distinct match keys in ascending order,
/// each carrying the first route of `s` that used that key.
pub open spec fn table_norm(s: Seq<RouteV>) -> Seq<RouteV>
    decreases s.len(),
{
    if s.len() == 0 {
        Seq::empty()
    } else {
        insert_keep(table_norm(s.drop_last()), s.last())
    }
}

/// Some route in `s` is exactly `r`: same match key and same action.
pub open spec fn contains_route(s: Seq<RouteV>, r: RouteV) -> bool {
    exists|i: int| 0 <= i < s.len() && s[i] == r
}

/// `s` without every route that occurs in `n`, in the original order.
pub open spec fn remove_all(s: Seq<RouteV>, n: Seq<RouteV>) -> Seq<RouteV>
    decreases s.len(),
{
    if s.len() == 0 {
        Seq::empty()
    } else if contains_route(n, s.last()) {
        remove_all(s.drop_last(), n)
    } else {
        remove_all(s.drop_last(), n).push(s.last())
    }
}

// ---------------------------------------------------------------------------
// Keys and first occurrences under push and concatenation.
// ---------------------------------------------------------------------------

pub proof fn lemma_has_key_push(s: Seq<RouteV>, x: RouteV, k: MatchV)
    ensures
        has_key(s.push(x), k) <==> has_key(s, k) || x.match_ == k,
{
    let t = s.push(x);
    assert(forall|i: int| 0 <= i < s.len() ==> t[i] == s[i]);
    assert(t[s.len() as int] == x);
    if has_key(t, k) {
        let i = choose|i: int| 0 <= i < t.len() && t[i].match_ == k;
        if i < s.len() {
            assert(s[i].match_ == k);
        }
    }
}

pub proof fn lemma_first_push(s: Seq<RouteV>, x: RouteV, k: MatchV)
    ensures
        has_key(s, k) ==> first_with_key(s.push(x), k) == first_with_key(s, k),
        !has_key(s, k) && x.match_ == k ==> first_with_key(s.push(x), k) == x,
    decreases s.len(),
{
    let t = s.push(x);
    if s.len() == 0 {
        assert(t[0] == x);
        assert(t.len() == 1);
    } else {
        assert(t[0] == s[0]);
        if s[0].match_ == k {
        } else {
            assert(t.drop_first() =~= s.drop_first().push(x));
            lemma_first_push(s.drop_first(), x, k);
            assert(has_key(s, k) ==> has_key(s.drop_first(), k)) by {
                if has_key(s, k) {
                    let i = choose|i: int| 0 <= i < s.len() && s[i].match_ == k;
                    assert(i != 0);
                    assert(s.drop_first()[i - 1].match_ == k);
                }
            }
            assert(has_key(s.drop_first(), k) ==> has_key(s, k)) by {
                if has_key(s.drop_first(), k) {
                    let i = choose|i: int|
                        0 <= i < s.drop_first().len() && s.drop_first()[i].match_ == k;
                    assert(s[i + 1].match_ == k);
                }
            }
        }
    }
}

pub proof fn lemma_has_key_concat(a: Seq<RouteV>, b: Seq<RouteV>, k: MatchV)
    ensures
        has_key(a + b, k) <==> has_key(a, k) || has_key(b, k),
{
    let c = a + b;
    assert(forall|i: int| 0 <= i < a.len() ==> c[i] == a[i]);
    assert(forall|i: int| 0 <= i < b.len() ==> c[a.len() + i] == b[i]);
    if has_key(c, k) {
        let i = choose|i: int| 0 <= i < c.len() && c[i].match_ == k;
        if i < a.len() {
            assert(a[i].match_ == k);
        } else {
            assert(b[i - a.len()].match_ == k);
        }
    }
}

pub proof fn lemma_first_concat(a: Seq<RouteV>, b: Seq<RouteV>, k: MatchV)
    ensures
        has_key(a, k) ==> first_with_key(a + b, k) == first_with_key(a, k),
        !has_key(a, k) && has_key(b, k) ==> first_with_key(a + b, k) == first_with_key(b, k),
    decreases a.len(),
{
    let c = a + b;
    if a.len() == 0 {
        assert(c =~= b);
    } else {
        assert(c[0] == a[0]);
        if a[0].match_ == k {
        } else {
            assert(c.drop_first() =~= a.drop_first() + b);
            lemma_first_concat(a.drop_first(), b, k);
            assert(has_key(a, k) ==> has_key(a.drop_first(), k)) by {
                if has_key(a, k) {
                    let i = choose|i: int| 0 <= i < a.len() && a[i].match_ == k;
                    assert(i != 0);
                    assert(a.drop_first()[i - 1].match_ == k);
                }
            }
            assert(has_key(a.drop_first(), k) ==> has_key(a, k)) by {
                if has_key(a.drop_first(), k) {
                    let i = choose|i: int|
                        0 <= i < a.drop_first().len() && a.drop_first()[i].match_ == k;
                    assert(a[i + 1].match_ == k);
                }
            }
        }
    }
}

/// The first route with a key is itself a route of the sequence, with that key.
pub proof fn lemma_first_is_elem(s: Seq<RouteV>, k: MatchV)
    requires
        has_key(s, k),
    ensures
        contains_route(s, first_with_key(s, k)),
        first_with_key(s, k).match_ == k,
    decreases s.len(),
{
    if s.len() > 0 {
        if s[0].match_ == k {
        } else {
            assert(has_key(s.drop_first(), k)) by {
                let i = choose|i: int| 0 <= i < s.len() && s[i].match_ == k;
                assert(i != 0);
                assert(s.drop_first()[i - 1].match_ == k);
            }
            lemma_first_is_elem(s.drop_first(), k);
            let i = choose|i: int|
                0 <= i < s.drop_first().len() && s.drop_first()[i] == first_with_key(
                    s.drop_first(),
                    k,
                );
            assert(s[i + 1] == first_with_key(s, k));
        }
    }
}

/// In a table with distinct keys, any route carrying `k` is the first one.
pub proof fn lemma_distinct_first(s: Seq<RouteV>, i: int)
    requires
        sorted_distinct(s),
        0 <= i < s.len(),
    ensures
        first_with_key(s, s[i].match_) == s[i],
    decreases s.len(),
{
    if i == 0 {
    } else {
        assert(match_lt(s[0].match_, s[i].match_));
        assert(s[0].match_ != s[i].match_) by {
            lemma_match_cmp_eq(s[0].match_, s[i].match_);
        }
        assert(sorted_distinct(s.drop_first())) by {
            assert(forall|x: int, y: int|
                0 <= x < y < s.drop_first().len() ==> s.drop_first()[x] == s[x + 1]
                    && s.drop_first()[y] == s[y + 1]);
        }
        assert(s.drop_first()[i - 1] == s[i]);
        lemma_distinct_first(s.drop_first(), i - 1);
    }
}

} // verus!

verus! {

/// A key occurs in a nonempty table exactly when the head carries it or the
/// tail does.
pub proof fn lemma_has_key_head(t: Seq<RouteV>, k: MatchV)
    requires
        t.len() > 0,
    ensures
        has_key(t, k) <==> (t[0].match_ == k || has_key(t.drop_first(), k)),
{
    if has_key(t, k) {
        let i = choose|i: int| 0 <= i < t.len() && t[i].match_ == k;
        if i != 0 {
            assert(t.drop_first()[i - 1].match_ == k);
        }
    }
    if has_key(t.drop_first(), k) {
        let i = choose|i: int| 0 <= i < t.drop_first().len() && t.drop_first()[i].match_ == k;
        assert(t[i + 1].match_ == k);
    }
}

/// A route occurs in `s.push(x)` exactly when it occurs in `s` or is `x`.
pub proof fn lemma_contains_push(s: Seq<RouteV>, x: RouteV, y: RouteV)
    ensures
        contains_route(s.push(x), y) <==> (contains_route(s, y) || x == y),
{
    let t = s.push(x);
    assert(forall|i: int| 0 <= i < s.len() ==> t[i] == s[i]);
    assert(t[s.len() as int] == x);
    if contains_route(t, y) {
        let i = choose|i: int| 0 <= i < t.len() && t[i] == y;
        if i < s.len() {
            assert(s[i] == y);
        }
    }
}

/// The tail of a strictly sorted table is strictly sorted.
pub proof fn lemma_sorted_tail(t: Seq<RouteV>)
    requires
        sorted_distinct(t),
        t.len() > 0,
    ensures
        sorted_distinct(t.drop_first()),
{
    assert(forall|i: int|
        0 <= i < t.drop_first().len() ==> #[trigger] t.drop_first()[i] == t[i + 1]);
}

/// Dropping the last route of a strictly sorted table keeps it sorted.
pub proof fn lemma_sorted_prefix(t: Seq<RouteV>)
    requires
        sorted_distinct(t),
        t.len() > 0,
    ensures
        sorted_distinct(t.drop_last()),
{
    assert(forall|i: int|
        0 <= i < t.drop_last().len() ==> #[trigger] t.drop_last()[i] == t[i]);
}

/// Every route of `insert_keep(t, r)` is a route of `t` or is `r`.
pub proof fn lemma_insert_keep_elems(t: Seq<RouteV>, r: RouteV)
    ensures
        forall|i: int|
            0 <= i < insert_keep(t, r).len() ==> contains_route(t, #[trigger] insert_keep(t, r)[i])
                || insert_keep(t, r)[i] == r,
    decreases t.len(),
{
    let u = insert_keep(t, r);
    if t.len() == 0 {
        assert(u[0] == r);
    } else if match_lt(t[0].match_, r.match_) {
        lemma_insert_keep_elems(t.drop_first(), r);
        assert forall|i: int| 0 <= i < u.len() implies contains_route(t, u[i]) || u[i] == r by {
            if i == 0 {
                assert(u[0] == t[0]);
                assert(contains_route(t, t[0]));
            } else {
                assert(u[i] == insert_keep(t.drop_first(), r)[i - 1]);
                if contains_route(t.drop_first(), u[i]) {
                    let j = choose|j: int|
                        0 <= j < t.drop_first().len() && t.drop_first()[j] == u[i];
                    assert(t[j + 1] == u[i]);
                }
            }
        }
    } else if t[0].match_ == r.match_ {
        assert(forall|i: int| 0 <= i < u.len() ==> u[i] == t[i]);
    } else {
        assert forall|i: int| 0 <= i < u.len() implies contains_route(t, u[i]) || u[i] == r by {
            if i > 0 {
                assert(u[i] == t[i - 1]);
            }
        }
    }
}

/// Inserting into a strictly sorted table keeps it strictly sorted.
pub proof fn lemma_insert_keep_sorted(t: Seq<RouteV>, r: RouteV)
    requires
        sorted_distinct(t),
    ensures
        sorted_distinct(insert_keep(t, r)),
    decreases t.len(),
{
    let u = insert_keep(t, r);
    if t.len() == 0 {
    } else if match_lt(t[0].match_, r.match_) {
        lemma_sorted_tail(t);
        lemma_insert_keep_sorted(t.drop_first(), r);
        lemma_insert_keep_elems(t.drop_first(), r);
        let w = insert_keep(t.drop_first(), r);
        assert forall|i: int, j: int|
            0 <= i < j < u.len() implies match_lt(u[i].match_, u[j].match_) by {
            if i == 0 {
                assert(u[0] == t[0]);
                assert(u[j] == w[j - 1]);
                if contains_route(t.drop_first(), w[j - 1]) {
                    let l = choose|l: int|
                        0 <= l < t.drop_first().len() && t.drop_first()[l] == w[j - 1];
                    assert(t[l + 1] == w[j - 1]);
                    assert(match_lt(t[0].match_, t[l + 1].match_));
                } else {
                    assert(w[j - 1] == r);
                }
            } else {
                assert(u[i] == w[i - 1]);
                assert(u[j] == w[j - 1]);
            }
        }
    } else if t[0].match_ == r.match_ {
    } else {
        assert(match_lt(r.match_, t[0].match_)) by {
            if !match_lt(r.match_, t[0].match_) {
                lemma_match_connected(t[0].match_, r.match_);
            }
        }
        assert forall|i: int, j: int|
            0 <= i < j < u.len() implies match_lt(u[i].match_, u[j].match_) by {
            if i == 0 {
                assert(u[0] == r);
                assert(u[j] == t[j - 1]);
                if j - 1 > 0 {
                    assert(match_lt(t[0].match_, t[j - 1].match_));
                    lemma_match_lt_trans(r.match_, t[0].match_, t[j - 1].match_);
                }
            } else {
                assert(u[i] == t[i - 1]);
                assert(u[j] == t[j - 1]);
            }
        }
    }
}

/// The keys after an insertion are the old keys plus the inserted key.
pub proof fn lemma_insert_keep_keys(t: Seq<RouteV>, r: RouteV, k: MatchV)
    ensures
        has_key(insert_keep(t, r), k) <==> (has_key(t, k) || r.match_ == k),
    decreases t.len(),
{
    let u = insert_keep(t, r);
    if t.len() == 0 {
        assert(u[0] == r);
        if has_key(u, k) {
            let i = choose|i: int| 0 <= i < u.len() && u[i].match_ == k;
            assert(i == 0);
        }
    } else if match_lt(t[0].match_, r.match_) {
        lemma_insert_keep_keys(t.drop_first(), r, k);
        lemma_has_key_head(t, k);
        assert(u =~= seq![t[0]] + insert_keep(t.drop_first(), r));
        lemma_has_key_concat(seq![t[0]], insert_keep(t.drop_first(), r), k);
        assert(has_key(seq![t[0]], k) <==> t[0].match_ == k) by {
            if has_key(seq![t[0]], k) {
                let i = choose|i: int| 0 <= i < 1 && seq![t[0]][i].match_ == k;
                assert(i == 0);
            }
            assert(seq![t[0]][0] == t[0]);
        }
    } else if t[0].match_ == r.match_ {
        lemma_has_key_head(t, k);
    } else {
        assert(u =~= seq![r] + t);
        lemma_has_key_concat(seq![r], t, k);
        assert(has_key(seq![r], k) <==> r.match_ == k) by {
            if has_key(seq![r], k) {
                let i = choose|i: int| 0 <= i < 1 && seq![r][i].match_ == k;
                assert(i == 0);
            }
            assert(seq![r][0] == r);
        }
    }
}

/// Inserting a route whose key is already present changes nothing.
pub proof fn lemma_insert_keep_known(t: Seq<RouteV>, r: RouteV)
    requires
        sorted_distinct(t),
        has_key(t, r.match_),
    ensures
        insert_keep(t, r) == t,
    decreases t.len(),
{
    if t.len() == 0 {
    } else if match_lt(t[0].match_, r.match_) {
        assert(t[0].match_ != r.match_) by {
            lemma_match_cmp_eq(t[0].match_, r.match_);
        }
        lemma_has_key_head(t, r.match_);
        lemma_sorted_tail(t);
        lemma_insert_keep_known(t.drop_first(), r);
        assert(insert_keep(t, r) =~= t) by {
            assert(insert_keep(t, r) == seq![t[0]] + t.drop_first());
        }
    } else if t[0].match_ == r.match_ {
    } else {
        // impossible: the key would have to sit strictly after the head,
        // yet the head is not below it
        let i = choose|i: int| 0 <= i < t.len() && t[i].match_ == r.match_;
        if i == 0 {
        } else {
            assert(match_lt(t[0].match_, t[i].match_));
        }
    }
}

/// Insertion preserves the first route of every key that was present, and
/// gives the inserted route to a key that was not.
pub proof fn lemma_insert_keep_first(t: Seq<RouteV>, r: RouteV, k: MatchV)
    requires
        sorted_distinct(t),
    ensures
        has_key(t, k) ==> first_with_key(insert_keep(t, r), k) == first_with_key(t, k),
        !has_key(t, k) && r.match_ == k ==> first_with_key(insert_keep(t, r), k) == r,
    decreases t.len(),
{
    let u = insert_keep(t, r);
    if t.len() == 0 {
        assert(u[0] == r);
    } else if match_lt(t[0].match_, r.match_) {
        let w = insert_keep(t.drop_first(), r);
        assert(u == seq![t[0]] + w);
        assert(u[0] == t[0]);
        assert(u.drop_first() =~= w);
        if t[0].match_ == k {
        } else {
            lemma_sorted_tail(t);
            lemma_insert_keep_first(t.drop_first(), r, k);
            lemma_has_key_head(t, k);
        }
    } else if t[0].match_ == r.match_ {
        if !has_key(t, k) && r.match_ == k {
            assert(has_key(t, k)) by {
                assert(t[0].match_ == k);
            }
        }
    } else {
        assert(match_lt(r.match_, t[0].match_)) by {
            if !match_lt(r.match_, t[0].match_) {
                lemma_match_connected(t[0].match_, r.match_);
            }
        }
        assert(u == seq![r] + t);
        assert(u[0] == r);
        assert(u.drop_first() =~= t);
        if k == r.match_ {
            // no route of t can carry this key: every key of t sits at or
            // above the head, which is strictly above r's key
            assert(!has_key(t, k)) by {
                if has_key(t, k) {
                    let i = choose|i: int| 0 <= i < t.len() && t[i].match_ == k;
                    if i == 0 {
                        lemma_match_cmp_eq(r.match_, t[0].match_);
                    } else {
                        assert(match_lt(t[0].match_, t[i].match_));
                        lemma_match_lt_trans(r.match_, t[0].match_, t[i].match_);
                        lemma_match_cmp_eq(r.match_, t[i].match_);
                    }
                }
            }
        } else {
        }
    }
}

/// Where the scan of a sorted table stops is where `insert_keep` puts `r`.
pub proof fn lemma_insert_keep_split(t: Seq<RouteV>, r: RouteV, i: int)
    requires
        sorted_distinct(t),
        0 <= i <= t.len(),
        forall|j: int| 0 <= j < i ==> match_lt(t[j].match_, r.match_),
        i < t.len() ==> !match_lt(t[i].match_, r.match_) && t[i].match_ != r.match_,
    ensures
        insert_keep(t, r) =~= t.take(i) + seq![r] + t.skip(i),
    decreases t.len(),
{
    if i == 0 {
        if t.len() == 0 {
            assert(insert_keep(t, r) =~= t.take(0) + seq![r] + t.skip(0));
        } else {
            assert(!match_lt(t[0].match_, r.match_));
            assert(t[0].match_ != r.match_);
            assert(insert_keep(t, r) == seq![r] + t);
            assert(t.skip(0) =~= t);
            assert(insert_keep(t, r) =~= t.take(0) + seq![r] + t.skip(0));
        }
    } else {
        assert(match_lt(t[0].match_, r.match_));
        lemma_sorted_tail(t);
        assert(forall|j: int|
            0 <= j < t.drop_first().len() ==> #[trigger] t.drop_first()[j] == t[j + 1]);
        lemma_insert_keep_split(t.drop_first(), r, i - 1);
        assert(insert_keep(t, r) == seq![t[0]] + insert_keep(t.drop_first(), r));
        assert(insert_keep(t, r) =~= seq![t[0]] + (t.drop_first().take(i - 1) + seq![r]
            + t.drop_first().skip(i - 1)));
        assert(t.take(i) =~= seq![t[0]] + t.drop_first().take(i - 1));
        assert(t.skip(i) =~= t.drop_first().skip(i - 1));
    }
}


// ---------------------------------------------------------------------------
// Properties of the merged form.
// ---------------------------------------------------------------------------

/// The merged form of a table is strictly sorted.
pub proof fn lemma_norm_sorted(s: Seq<RouteV>)
    ensures
        sorted_distinct(table_norm(s)),
    decreases s.len(),
{
    if s.len() > 0 {
        lemma_norm_sorted(s.drop_last());
        lemma_insert_keep_sorted(table_norm(s.drop_last()), s.last());
        assert(table_norm(s) == insert_keep(table_norm(s.drop_last()), s.last()));
    }
}

/// Merging keeps exactly the keys of the input.
pub proof fn lemma_norm_keys(s: Seq<RouteV>, k: MatchV)
    ensures
        has_key(table_norm(s), k) <==> has_key(s, k),
    decreases s.len(),
{
    if s.len() == 0 {
        assert(table_norm(s) == Seq::<RouteV>::empty());
    } else {
        lemma_norm_keys(s.drop_last(), k);
        lemma_insert_keep_keys(table_norm(s.drop_last()), s.last(), k);
        assert(table_norm(s) == insert_keep(table_norm(s.drop_last()), s.last()));
        assert(s.drop_last().push(s.last()) =~= s);
        lemma_has_key_push(s.drop_last(), s.last(), k);
    }
}

/// Merging keeps, for every key, the first route that used it.
pub proof fn lemma_norm_first(s: Seq<RouteV>, k: MatchV)
    requires
        has_key(s, k),
    ensures
        has_key(table_norm(s), k),
        first_with_key(table_norm(s), k) == first_with_key(s, k),
    decreases s.len(),
{
    lemma_norm_keys(s, k);
    let s0 = s.drop_last();
    let x = s.last();
    assert(s0.push(x) =~= s);
    lemma_has_key_push(s0, x, k);
    lemma_first_push(s0, x, k);
    lemma_norm_sorted(s0);
    lemma_norm_keys(s0, k);
    assert(table_norm(s) == insert_keep(table_norm(s0), x));
    lemma_insert_keep_first(table_norm(s0), x, k);
    if has_key(s0, k) {
        lemma_norm_first(s0, k);
    } else {
        assert(x.match_ == k);
    }
}

/// A table already in merged form merges to itself.
pub proof fn lemma_norm_of_sorted(s: Seq<RouteV>)
    requires
        sorted_distinct(s),
    ensures
        table_norm(s) == s,
    decreases s.len(),
{
    if s.len() > 0 {
        lemma_sorted_prefix(s);
        lemma_norm_of_sorted(s.drop_last());
        assert(table_norm(s) == insert_keep(s.drop_last(), s.last()));
        lemma_insert_keep_split(s.drop_last(), s.last(), s.len() - 1);
        assert(s.drop_last().take(s.len() - 1) =~= s.drop_last());
        assert(s.drop_last().skip(s.len() - 1) =~= Seq::<RouteV>::empty());
        assert(insert_keep(s.drop_last(), s.last()) =~= s);
    }
}

/// Appending routes whose keys are already present does not change the
/// merged form.
pub proof fn lemma_norm_append_known(s: Seq<RouteV>, t: Seq<RouteV>)
    requires
        forall|k: MatchV| #[trigger] has_key(t, k) ==> has_key(s, k),
    ensures
        table_norm(s + t) == table_norm(s),
    decreases t.len(),
{
    if t.len() == 0 {
        assert(s + t =~= s);
    } else {
        let t0 = t.drop_last();
        assert((s + t).drop_last() =~= s + t0);
        assert((s + t).last() == t.last());
        assert(forall|k: MatchV| #[trigger] has_key(t0, k) ==> has_key(t, k)) by {
            assert(forall|i: int| 0 <= i < t0.len() ==> t0[i] == t[i]);
        }
        lemma_norm_append_known(s, t0);
        assert(table_norm(s + t) == insert_keep(table_norm(s), t.last()));
        let k0 = t.last().match_;
        assert(has_key(t, k0)) by {
            assert(t[t.len() - 1].match_ == k0);
        }
        lemma_norm_keys(s, k0);
        lemma_norm_sorted(s);
        lemma_insert_keep_known(table_norm(s), t.last());
    }
}

/// In a nonempty strictly sorted table, the tail holds exactly the other keys.
pub proof fn lemma_tail_keys(t: Seq<RouteV>, k: MatchV)
    requires
        sorted_distinct(t),
        t.len() > 0,
    ensures
        has_key(t.drop_first(), k) <==> (has_key(t, k) && k != t[0].match_),
{
    lemma_has_key_head(t, k);
    if has_key(t.drop_first(), k) {
        let i = choose|i: int| 0 <= i < t.drop_first().len() && t.drop_first()[i].match_ == k;
        assert(t[i + 1].match_ == k);
        assert(match_lt(t[0].match_, t[i + 1].match_));
        lemma_match_cmp_eq(t[0].match_, t[i + 1].match_);
    }
}

/// Two strictly sorted tables with the same keys and the same route for each
/// key are the same table.
pub proof fn lemma_sorted_unique(u: Seq<RouteV>, v: Seq<RouteV>)
    requires
        sorted_distinct(u),
        sorted_distinct(v),
        forall|k: MatchV| #[trigger] has_key(u, k) <==> #[trigger] has_key(v, k),
        forall|k: MatchV| #[trigger] has_key(u, k) ==> first_with_key(u, k) == first_with_key(
            v,
            k,
        ),
    ensures
        u == v,
    decreases u.len(),
{
    if u.len() == 0 {
        if v.len() > 0 {
            assert(has_key(v, v[0].match_)) by {
                assert(v[0].match_ == v[0].match_);
            }
            assert(has_key(u, v[0].match_));
            let i = choose|i: int| 0 <= i < u.len() && u[i].match_ == v[0].match_;
            assert(false);
        }
        assert(u =~= v);
    } else {
        assert(has_key(u, u[0].match_)) by {
            assert(u[0].match_ == u[0].match_);
        }
        if v.len() == 0 {
            assert(has_key(v, u[0].match_));
            let i = choose|i: int| 0 <= i < v.len() && v[i].match_ == u[0].match_;
            assert(false);
        }
        assert(has_key(v, v[0].match_)) by {
            assert(v[0].match_ == v[0].match_);
        }
        assert(u[0].match_ == v[0].match_) by {
            if u[0].match_ != v[0].match_ {
                assert(has_key(v, u[0].match_));
                let j = choose|j: int| 0 <= j < v.len() && v[j].match_ == u[0].match_;
                assert(j != 0);
                assert(match_lt(v[0].match_, v[j].match_));
                assert(has_key(u, v[0].match_));
                let i = choose|i: int| 0 <= i < u.len() && u[i].match_ == v[0].match_;
                assert(i != 0);
                assert(match_lt(u[0].match_, u[i].match_));
                crate::route::lemma_match_cmp_antisym(u[0].match_, v[0].match_);
            }
        }
        assert(first_with_key(u, u[0].match_) == u[0]);
        assert(first_with_key(v, u[0].match_) == v[0]);
        assert(u[0] == v[0]);
        lemma_sorted_tail(u);
        lemma_sorted_tail(v);
        assert forall|k: MatchV|
            #[trigger] has_key(u.drop_first(), k) <==> #[trigger] has_key(
                v.drop_first(),
                k,
            ) by {
            lemma_tail_keys(u, k);
            lemma_tail_keys(v, k);
        }
        assert forall|k: MatchV| #[trigger] has_key(u.drop_first(), k) implies first_with_key(
            u.drop_first(),
            k,
        ) == first_with_key(v.drop_first(), k) by {
            lemma_tail_keys(u, k);
            lemma_tail_keys(v, k);
            assert(has_key(u, k));
            assert(first_with_key(u, k) == first_with_key(u.drop_first(), k));
            assert(first_with_key(v, k) == first_with_key(v.drop_first(), k));
        }
        lemma_sorted_unique(u.drop_first(), v.drop_first());
        assert(u.drop_first() == v.drop_first());
        assert(u.len() == u.drop_first().len() + 1);
        assert(v.len() == v.drop_first().len() + 1);
        assert(u.len() == v.len());
        assert forall|i: int| 0 <= i < u.len() implies u[i] == v[i] by {
            if i >= 1 {
                assert(u[i] == u.drop_first()[i - 1]);
                assert(v[i] == v.drop_first()[i - 1]);
            }
        }
        assert(u =~= v);
    }
}

// ---------------------------------------------------------------------------
// Properties of route removal.
// ---------------------------------------------------------------------------

/// A route survives the removal exactly when it was present and is not one of
/// the routes being removed.
pub proof fn lemma_remove_all_contains(s: Seq<RouteV>, n: Seq<RouteV>, x: RouteV)
    ensures
        contains_route(remove_all(s, n), x) <==> (contains_route(s, x) && !contains_route(n, x)),
    decreases s.len(),
{
    if s.len() == 0 {
        if contains_route(remove_all(s, n), x) {
            let i = choose|i: int| 0 <= i < remove_all(s, n).len() && remove_all(s, n)[i] == x;
            assert(false);
        }
        if contains_route(s, x) {
            let i = choose|i: int| 0 <= i < s.len() && s[i] == x;
            assert(false);
        }
    } else {
        lemma_remove_all_contains(s.drop_last(), n, x);
        assert(s.drop_last().push(s.last()) =~= s);
        lemma_contains_push(s.drop_last(), s.last(), x);
        if contains_route(n, s.last()) {
            assert(remove_all(s, n) == remove_all(s.drop_last(), n));
        } else {
            assert(remove_all(s, n) == remove_all(s.drop_last(), n).push(s.last()));
            lemma_contains_push(remove_all(s.drop_last(), n), s.last(), x);
        }
    }
}

/// Removal keeps the surviving routes in their original order; in particular
/// a strictly sorted table stays strictly sorted.
pub proof fn lemma_remove_all_sorted(s: Seq<RouteV>, n: Seq<RouteV>)
    requires
        sorted_distinct(s),
    ensures
        sorted_distinct(remove_all(s, n)),
    decreases s.len(),
{
    if s.len() > 0 {
        lemma_sorted_prefix(s);
        lemma_remove_all_sorted(s.drop_last(), n);
        if !contains_route(n, s.last()) {
            let w = remove_all(s.drop_last(), n);
            let u = remove_all(s, n);
            assert(u == w.push(s.last()));
            assert forall|i: int, j: int|
                0 <= i < j < u.len() implies match_lt(u[i].match_, u[j].match_) by {
                if j < w.len() {
                    assert(u[i] == w[i]);
                    assert(u[j] == w[j]);
                } else {
                    assert(u[j] == s.last());
                    assert(u[i] == w[i]);
                    lemma_remove_all_contains(s.drop_last(), n, w[i]);
                    assert(contains_route(w, w[i]));
                    assert(contains_route(s.drop_last(), w[i]));
                    let l = choose|l: int|
                        0 <= l < s.drop_last().len() && s.drop_last()[l] == w[i];
                    assert(s[l] == w[i]);
                    assert(match_lt(s[l].match_, s[s.len() - 1].match_));
                }
            }
        }
    }
}


// ---------------------------------------------------------------------------
// Executable merging.
// ---------------------------------------------------------------------------

/// Insert one route into a table kept in merged form, leaving the table
/// unchanged when its match key is already present.
fn insert_keep_exec(out: &mut Vec<Route>, r: Route)
    requires
        sorted_distinct(routes_view(old(out)@)),
    ensures
        routes_view(final(out)@) == insert_keep(routes_view(old(out)@), r@),
        sorted_distinct(routes_view(final(out)@)),
{
    let ghost t = routes_view(out@);
    proof {
        lemma_insert_keep_sorted(t, r@);
    }
    let mut i: usize = 0;
    loop
        invariant
            i <= out@.len(),
            routes_view(out@) == t,
            sorted_distinct(t),
            forall|j: int| 0 <= j < i ==> match_lt(t[j].match_, r@.match_),
        ensures
            i <= out@.len(),
            routes_view(out@) == t,
            forall|j: int| 0 <= j < i ==> match_lt(t[j].match_, r@.match_),
            i < out@.len() ==> !match_lt(t[i as int].match_, r@.match_),
            i == out@.len() || !match_lt(t[i as int].match_, r@.match_),
        decreases out@.len() - i,
    {
        if i == out.len() {
            break ;
        }
        let c = out[i].match_.compare(&r.match_);
        proof {
            assert(t[i as int] == out@[i as int]@);
        }
        if c >= 0 {
            break ;
        }
        i = i + 1;
    }
    if i < out.len() {
        let same_key = out[i].match_.same(&r.match_);
        proof {
            assert(t[i as int] == out@[i as int]@);
        }
        if same_key {
            proof {
                assert(has_key(t, r@.match_)) by {
                    assert(t[i as int].match_ == r@.match_);
                }
                lemma_insert_keep_known(t, r@);
            }
            return ;
        }
        out.insert(i, r);
        proof {
            lemma_insert_keep_split(t, r@, i as int);
            assert(routes_view(out@) =~= t.take(i as int) + seq![r@] + t.skip(i as int));
        }
    } else {
        out.push(r);
        proof {
            lemma_insert_keep_split(t, r@, i as int);
            assert(t.take(i as int) =~= t);
            assert(t.skip(i as int) =~= Seq::<RouteV>::empty());
            assert(routes_view(out@) =~= t.take(i as int) + seq![r@] + t.skip(i as int));
        }
    }
}

/// The merged form of two tables: old routes first, then new ones, collapsed
/// to one route per match key with the earliest route winning, ordered by key.
pub fn merge_routes(a: &Vec<Route>, b: &Vec<Route>) -> (r: Vec<Route>)
    ensures
        routes_view(r@) == table_norm(routes_view(a@) + routes_view(b@)),
{
    let ghost av = routes_view(a@);
    let ghost bv = routes_view(b@);
    let mut out: Vec<Route> = Vec::new();
    proof {
        assert(routes_view(out@) =~= Seq::<RouteV>::empty());
        assert(av.take(0) =~= Seq::<RouteV>::empty());
    }
    let mut i: usize = 0;
    while i < a.len()
        invariant
            i <= a@.len(),
            av == routes_view(a@),
            routes_view(out@) == table_norm(av.take(i as int)),
            sorted_distinct(routes_view(out@)),
        decreases a@.len() - i,
    {
        let ghost before = routes_view(out@);
        insert_keep_exec(&mut out, a[i].duplicate());
        proof {
            assert(av.take(i + 1).drop_last() =~= av.take(i as int));
            assert(av.take(i + 1).last() == av[i as int]);
            assert(av[i as int] == a@[i as int]@);
            assert(table_norm(av.take(i + 1)) == insert_keep(before, av[i as int]));
        }
        i = i + 1;
    }
    proof {
        assert(av.take(a@.len() as int) =~= av);
    }
    let mut i: usize = 0;
    while i < b.len()
        invariant
            i <= b@.len(),
            av == routes_view(a@),
            bv == routes_view(b@),
            routes_view(out@) == table_norm(av + bv.take(i as int)),
            sorted_distinct(routes_view(out@)),
        decreases b@.len() - i,
    {
        let ghost before = routes_view(out@);
        insert_keep_exec(&mut out, b[i].duplicate());
        proof {
            assert((av + bv.take(i + 1)).drop_last() =~= av + bv.take(i as int));
            assert((av + bv.take(i + 1)).last() == bv[i as int]);
            assert(bv[i as int] == b@[i as int]@);
            assert(table_norm(av + bv.take(i + 1)) == insert_keep(before, bv[i as int]));
        }
        i = i + 1;
    }
    proof {
        assert(av + bv.take(b@.len() as int) =~= av + bv);
    }
    out
}

/// Whether some route of `n` is exactly `r`.
fn contains_route_exec(n: &Vec<Route>, r: &Route) -> (found: bool)
    ensures
        found == contains_route(routes_view(n@), r@),
{
    let ghost nv = routes_view(n@);
    let mut i: usize = 0;
    while i < n.len()
        invariant
            i <= n@.len(),
            nv == routes_view(n@),
            forall|j: int| 0 <= j < i ==> nv[j] != r@,
        decreases n@.len() - i,
    {
        if n[i].same(r) {
            proof {
                assert(nv[i as int] == r@);
            }
            return true;
        }
        i = i + 1;
    }
    proof {
        if contains_route(nv, r@) {
            let j = choose|j: int| 0 <= j < nv.len() && nv[j] == r@;
            assert(false);
        }
    }
    false
}

/// `a` without every route that occurs in `n`, in the original order.
pub fn remove_routes(a: &Vec<Route>, n: &Vec<Route>) -> (r: Vec<Route>)
    ensures
        routes_view(r@) == remove_all(routes_view(a@), routes_view(n@)),
{
    let ghost av = routes_view(a@);
    let ghost nv = routes_view(n@);
    let mut out: Vec<Route> = Vec::new();
    proof {
        assert(routes_view(out@) =~= Seq::<RouteV>::empty());
        assert(av.take(0) =~= Seq::<RouteV>::empty());
    }
    let mut i: usize = 0;
    while i < a.len()
        invariant
            i <= a@.len(),
            av == routes_view(a@),
            nv == routes_view(n@),
            routes_view(out@) == remove_all(av.take(i as int), nv),
        decreases a@.len() - i,
    {
        let ghost before = routes_view(out@);
        let dropped = contains_route_exec(n, &a[i]);
        proof {
            assert(av.take(i + 1).drop_last() =~= av.take(i as int));
            assert(av.take(i + 1).last() == av[i as int]);
            assert(av[i as int] == a@[i as int]@);
        }
        if !dropped {
            out.push(a[i].duplicate());
            proof {
                assert(routes_view(out@) =~= before.push(av[i as int]));
            }
        }
        i = i + 1;
    }
    proof {
        assert(av.take(a@.len() as int) =~= av);
    }
    out
}

// ---------------------------------------------------------------------------
// Merging whole configuration documents.
// ---------------------------------------------------------------------------

/// The table mapping of a merged document: tables present on one side only
/// pass through; tables present on both are merged, old routes first.
pub open spec fn merge_tables_spec(
    o: Map<Seq<char>, Seq<RouteV>>,
    n: Map<Seq<char>, Seq<RouteV>>,
) -> Map<Seq<char>, Seq<RouteV>> {
    Map::new(
        |k: Seq<char>| o.contains_key(k) || n.contains_key(k),
        |k: Seq<char>|
            if o.contains_key(k) && n.contains_key(k) {
                table_norm(o[k] + n[k])
            } else if n.contains_key(k) {
                n[k]
            } else {
                o[k]
            },
    )
}

impl RuntimeConfig {
    /// Merge a new configuration chunk over an old document.
    ///
    /// Listener entries from the new side overwrite old ones per socket.
    /// Tables present on one side only pass through unchanged; tables present
    /// on both are concatenated old-then-new, stable-sorted by match key and
    /// collapsed to the first route of each key, so a route already applied
    /// is never displaced by a benign re-push of the same match key.
    pub fn merge(old_cfg: &RuntimeConfig, new_cfg: &RuntimeConfig) -> (r: RuntimeConfig)
        requires
            old_cfg.wf(),
            new_cfg.wf(),
        ensures
            r.wf(),
            r.listeners_map() =~= old_cfg.listeners_map().union_prefer_right(
                new_cfg.listeners_map(),
            ),
            r.tables_map() =~~= merge_tables_spec(old_cfg.tables_map(), new_cfg.tables_map()),
    {
        let mut merged = old_cfg.duplicate();
        let ghost nl = new_cfg.listener_entries();
        let mut i: usize = 0;
        proof {
            assert(assoc_map(nl.take(0)) =~= Map::<Seq<char>, ListenerOptsV>::empty());
            assert(merged.listeners_map() =~= old_cfg.listeners_map().union_prefer_right(
                assoc_map(nl.take(0)),
            ));
        }
        while i < new_cfg.listeners.len()
            invariant
                i <= new_cfg.listeners@.len(),
                new_cfg.wf(),
                nl == new_cfg.listener_entries(),
                merged.wf(),
                merged.listeners_map() =~= old_cfg.listeners_map().union_prefer_right(
                    assoc_map(nl.take(i as int)),
                ),
                merged.table_entries() == old_cfg.table_entries(),
            decreases new_cfg.listeners@.len() - i,
        {
            let e = &new_cfg.listeners[i];
            merged.set_listener(e.socket.clone(), e.opts.duplicate());
            proof {
                assert(nl.take(i + 1).drop_last() =~= nl.take(i as int));
                assert(nl.take(i + 1).last() == nl[i as int]);
                assert(assoc_map(nl.take(i + 1)) == assoc_map(nl.take(i as int)).insert(
                    nl[i as int].0,
                    nl[i as int].1,
                ));
                assert(merged.listeners_map() =~= old_cfg.listeners_map().union_prefer_right(
                    assoc_map(nl.take(i + 1)),
                ));
            }
            i = i + 1;
        }
        proof {
            assert(nl.take(nl.len() as int) =~= nl);
        }
        let ghost nt = new_cfg.table_entries();
        let mut i: usize = 0;
        proof {
            assert(assoc_map(nt.take(0)) =~= Map::<Seq<char>, Seq<RouteV>>::empty());
            assert(merged.tables_map() =~~= merge_tables_spec(
                old_cfg.tables_map(),
                assoc_map(nt.take(0)),
            ));
        }
        while i < new_cfg.tables.len()
            invariant
                i <= new_cfg.tables@.len(),
                new_cfg.wf(),
                nt == new_cfg.table_entries(),
                merged.wf(),
                merged.listeners_map() =~= old_cfg.listeners_map().union_prefer_right(
                    new_cfg.listeners_map(),
                ),
                merged.tables_map() =~~= merge_tables_spec(
                    old_cfg.tables_map(),
                    assoc_map(nt.take(i as int)),
                ),
            decreases new_cfg.tables@.len() - i,
        {
            let t = &new_cfg.tables[i];
            let ghost k = nt[i as int].0;
            let ghost before = merged.listeners_map();
            proof {
                assert(k == t.name@);
                // this name has not been processed yet
                assert(!assoc_map(nt.take(i as int)).contains_key(k)) by {
                    lemma_assoc_contains(nt.take(i as int), k);
                    if assoc_map(nt.take(i as int)).contains_key(k) {
                        let j = choose|j: int|
                            0 <= j < i && nt.take(i as int)[j].0 == k;
                        assert(nt[j].0 == nt[i as int].0);
                    }
                }
            }
            match merged.find_table(&t.name) {
                Some(j) => {
                    proof {
                        lemma_assoc_get(merged.table_entries(), j as int);
                        assert(merged.tables_map()[k] == routes_view(
                            merged.tables@[j as int].routes@,
                        ));
                    }
                    let combined = merge_routes(&merged.tables[j].routes, &t.routes);
                    proof {
                        assert(routes_view(t.routes@) == nt[i as int].1);
                    }
                    merged.set_table(t.name.clone(), combined);
                },
                None => {
                    let copy = duplicate_routes(&t.routes);
                    proof {
                        assert(routes_view(t.routes@) == nt[i as int].1);
                    }
                    merged.set_table(t.name.clone(), copy);
                },
            }
            proof {
                assert(nt.take(i + 1).drop_last() =~= nt.take(i as int));
                assert(nt.take(i + 1).last() == nt[i as int]);
                assert(assoc_map(nt.take(i + 1)) == assoc_map(nt.take(i as int)).insert(
                    k,
                    nt[i as int].1,
                ));
                assert(merged.tables_map() =~~= merge_tables_spec(
                    old_cfg.tables_map(),
                    assoc_map(nt.take(i + 1)),
                ));
                assert(merged.listeners_map() =~= before);
            }
            i = i + 1;
        }
        proof {
            assert(nt.take(nt.len() as int) =~= nt);
        }
        merged
    }

    /// Remove from an old document every route that a new chunk carries:
    /// for every table of the old document that the chunk also has, drop the
    /// routes equal to one of the chunk's routes for that table. Listeners
    /// and other tables are untouched.
    pub fn unmerge(old_cfg: &RuntimeConfig, new_cfg: &RuntimeConfig) -> (r: RuntimeConfig)
        requires
            old_cfg.wf(),
            new_cfg.wf(),
        ensures
            r.wf(),
            r.listeners_map() =~= old_cfg.listeners_map(),
            forall|k: Seq<char>|
                r.tables_map().contains_key(k) <==> old_cfg.tables_map().contains_key(k),
            forall|k: Seq<char>|
                #[trigger] old_cfg.tables_map().contains_key(k)
                    ==> r.tables_map()[k] == if new_cfg.tables_map().contains_key(k) {
                    remove_all(old_cfg.tables_map()[k], new_cfg.tables_map()[k])
                } else {
                    old_cfg.tables_map()[k]
                },
    {
        let mut r = old_cfg.duplicate();
        let ghost ot = old_cfg.table_entries();
        let mut i: usize = 0;
        while i < r.tables.len()
            invariant
                old_cfg.wf(),
                new_cfg.wf(),
                ot == old_cfg.table_entries(),
                r.listener_entries() == old_cfg.listener_entries(),
                r.tables@.len() == ot.len(),
                i <= ot.len(),
                forall|j: int|
                    0 <= j < ot.len() ==> #[trigger] r.table_entries()[j].0 == ot[j].0,
                forall|j: int|
                    i <= j < ot.len() ==> #[trigger] r.table_entries()[j].1 == ot[j].1,
                forall|j: int|
                    0 <= j < i ==> #[trigger] r.table_entries()[j].1 == if new_cfg.tables_map().contains_key(
                        ot[j].0,
                    ) {
                        remove_all(ot[j].1, new_cfg.tables_map()[ot[j].0])
                    } else {
                        ot[j].1
                    },
            decreases ot.len() - i,
        {
            let ghost entries_before = r.table_entries();
            let ghost tv = r.tables@;
            match new_cfg.find_table(&r.tables[i].name) {
                Some(j) => {
                    proof {
                        assert(entries_before[i as int].0 == r.tables@[i as int].name@);
                        assert(ot[i as int].0 == new_cfg.tables@[j as int].name@);
                        assert(new_cfg.table_entries()[j as int].0 == ot[i as int].0);
                        lemma_assoc_get(new_cfg.table_entries(), j as int);
                        assert(new_cfg.tables_map()[ot[i as int].0]
                            == new_cfg.table_entries()[j as int].1);
                        assert(new_cfg.table_entries()[j as int].1 == routes_view(
                            new_cfg.tables@[j as int].routes@,
                        ));
                    }
                    let filtered = remove_routes(&r.tables[i].routes, &new_cfg.tables[j].routes);
                    proof {
                        assert(routes_view(r.tables@[i as int].routes@)
                            == entries_before[i as int].1);
                        assert(entries_before[i as int].1 == ot[i as int].1);
                        assert(routes_view(filtered@) == remove_all(
                            ot[i as int].1,
                            new_cfg.tables_map()[ot[i as int].0],
                        ));
                    }
                    let entry = r.tables.remove(i);
                    r.tables.insert(i, RouteTable { name: entry.name, routes: filtered });
                    proof {
                        assert forall|j2: int|
                            0 <= j2 < tv.len() && j2 != i implies r.tables@[j2] == tv[j2] by {
                            if j2 < i {
                                assert(tv.remove(i as int)[j2] == tv[j2]);
                            } else {
                                assert(tv.remove(i as int)[j2 - 1] == tv[j2]);
                            }
                        }
                        assert(r.tables@[i as int].name@ == tv[i as int].name@);
                        assert(routes_view(r.tables@[i as int].routes@) == routes_view(
                            filtered@,
                        ));
                        assert(r.table_entries()[i as int].1 == remove_all(
                            ot[i as int].1,
                            new_cfg.tables_map()[ot[i as int].0],
                        ));
                        assert(forall|j2: int|
                            0 <= j2 < ot.len() && j2 != i ==> #[trigger] r.table_entries()[j2]
                                == entries_before[j2]);
                    }
                },
                None => {
                    proof {
                        assert(entries_before[i as int].0 == r.tables@[i as int].name@);
                        assert(!new_cfg.tables_map().contains_key(ot[i as int].0));
                    }
                },
            }
            i = i + 1;
        }
        proof {
            assert forall|x: int, y: int|
                0 <= x < y < r.table_entries().len() implies r.table_entries()[x].0
                != r.table_entries()[y].0 by {
                assert(r.table_entries()[x].0 == ot[x].0);
                assert(r.table_entries()[y].0 == ot[y].0);
                assert(ot[x].0 != ot[y].0);
            }
            assert(unique_keys(r.table_entries()));
            assert forall|k: Seq<char>|
                r.tables_map().contains_key(k) <==> old_cfg.tables_map().contains_key(k) by {
                lemma_assoc_contains(r.table_entries(), k);
                lemma_assoc_contains(ot, k);
                if r.tables_map().contains_key(k) {
                    let w = choose|w: int|
                        0 <= w < r.table_entries().len() && r.table_entries()[w].0 == k;
                    assert(ot[w].0 == k);
                }
                if old_cfg.tables_map().contains_key(k) {
                    let w = choose|w: int| 0 <= w < ot.len() && ot[w].0 == k;
                    assert(r.table_entries()[w].0 == k);
                }
            }
            assert forall|k: Seq<char>|
                #[trigger] old_cfg.tables_map().contains_key(k)
                    implies r.tables_map()[k] == if new_cfg.tables_map().contains_key(k) {
                    remove_all(old_cfg.tables_map()[k], new_cfg.tables_map()[k])
                } else {
                    old_cfg.tables_map()[k]
                } by {
                lemma_assoc_contains(ot, k);
                let j = choose|j: int| 0 <= j < ot.len() && ot[j].0 == k;
                lemma_assoc_get(ot, j);
                lemma_assoc_get(r.table_entries(), j);
            }
        }
        r
    }

    /// Place a route at the head of a table, ahead of every present route:
    /// used for challenge routes, which must out-prioritize any general rule
    /// for the same host during the validation window.
    pub fn insert_priority_route(&mut self, name: &String, route: Route)
        requires
            old(self).wf(),
            old(self).tables_map().contains_key(name@),
        ensures
            final(self).wf(),
            final(self).tables_map() =~~= old(self).tables_map().insert(
                name@,
                seq![route@] + old(self).tables_map()[name@],
            ),
            final(self).listener_entries() == old(self).listener_entries(),
    {
        let ghost entries = self.table_entries();
        match self.find_table(name) {
            Some(i) => {
                proof {
                    lemma_assoc_get(entries, i as int);
                }
                let mut entry = self.tables.remove(i);
                entry.routes.insert(0, route);
                self.tables.insert(i, entry);
                proof {
                    assert(routes_view(self.tables@[i as int].routes@) =~= seq![route@]
                        + entries[i as int].1);
                    assert(self.table_entries() =~~= entries.update(
                        i as int,
                        (entries[i as int].0, seq![route@] + entries[i as int].1),
                    ));
                    crate::config::lemma_assoc_update(
                        entries,
                        i as int,
                        seq![route@] + entries[i as int].1,
                    );
                }
            },
            None => {
                proof {
                    assert(false);
                }
            },
        }
    }

    /// Withdraw a previously placed priority route: every route of the table
    /// equal to it is removed and the remaining routes keep their order.
    pub fn remove_priority_route(&mut self, name: &String, route: &Route)
        requires
            old(self).wf(),
            old(self).tables_map().contains_key(name@),
        ensures
            final(self).wf(),
            final(self).tables_map() =~~= old(self).tables_map().insert(
                name@,
                remove_all(old(self).tables_map()[name@], seq![route@]),
            ),
            final(self).listener_entries() == old(self).listener_entries(),
    {
        let ghost entries = self.table_entries();
        match self.find_table(name) {
            Some(i) => {
                proof {
                    lemma_assoc_get(entries, i as int);
                }
                let mut single: Vec<Route> = Vec::new();
                single.push(route.duplicate());
                let filtered = remove_routes(&self.tables[i].routes, &single);
                proof {
                    assert(routes_view(single@) =~= seq![route@]);
                }
                let entry = self.tables.remove(i);
                self.tables.insert(i, RouteTable { name: entry.name, routes: filtered });
                proof {
                    assert(self.table_entries() =~~= entries.update(
                        i as int,
                        (entries[i as int].0, remove_all(entries[i as int].1, seq![route@])),
                    ));
                    crate::config::lemma_assoc_update(
                        entries,
                        i as int,
                        remove_all(entries[i as int].1, seq![route@]),
                    );
                }
            },
            None => {
                proof {
                    assert(false);
                }
            },
        }
    }
}

// ---------------------------------------------------------------------------
// Laws of merging.
// ---------------------------------------------------------------------------

/// Merging the same chunk twice changes nothing more: for any two documents,
/// merging the new one over the result of the first merge gives the first
/// result again. Tables that the new document brings to keys the old one
/// lacks must already be in merged form (strictly sorted by match key, one
/// route per key), as every table that went through a merge of two sides is;
/// a raw, unsorted table passes the first merge untouched and would only be
/// brought into merged form by the second.
pub proof fn lemma_merge_idempotent(
    ol: Map<Seq<char>, ListenerOptsV>,
    ot: Map<Seq<char>, Seq<RouteV>>,
    nl: Map<Seq<char>, ListenerOptsV>,
    nt: Map<Seq<char>, Seq<RouteV>>,
)
    requires
        forall|k: Seq<char>|
            #[trigger] nt.contains_key(k) && !ot.contains_key(k) ==> sorted_distinct(nt[k]),
    ensures
        ol.union_prefer_right(nl).union_prefer_right(nl) =~= ol.union_prefer_right(nl),
        merge_tables_spec(merge_tables_spec(ot, nt), nt) =~~= merge_tables_spec(ot, nt),
{
    let m1 = merge_tables_spec(ot, nt);
    let m2 = merge_tables_spec(m1, nt);
    assert forall|k: Seq<char>| #[trigger] m2.contains_key(k) implies m2[k] == m1[k] by {
        if ot.contains_key(k) && nt.contains_key(k) {
            assert(m1[k] == table_norm(ot[k] + nt[k]));
            assert(m2[k] == table_norm(m1[k] + nt[k]));
            assert forall|kk: MatchV| #[trigger] has_key(nt[k], kk) implies has_key(
                m1[k],
                kk,
            ) by {
                lemma_has_key_concat(ot[k], nt[k], kk);
                lemma_norm_keys(ot[k] + nt[k], kk);
            }
            lemma_norm_append_known(m1[k], nt[k]);
            lemma_norm_sorted(ot[k] + nt[k]);
            lemma_norm_of_sorted(m1[k]);
        } else if nt.contains_key(k) {
            assert(m1[k] == nt[k]);
            assert(m2[k] == table_norm(nt[k] + nt[k]));
            assert(sorted_distinct(nt[k]));
            lemma_norm_append_known(nt[k], nt[k]);
            lemma_norm_of_sorted(nt[k]);
        } else {
            assert(m1[k] == ot[k]);
            assert(m2[k] == ot[k]);
        }
    }
}

/// Merging is deterministic on ties: when the old table already has a route
/// for a match key, the merged table keeps the old side's route for that key,
/// whatever route the new table proposes.
pub proof fn lemma_merge_tie_old_wins(a: Seq<RouteV>, b: Seq<RouteV>, k: MatchV)
    requires
        has_key(a, k),
    ensures
        has_key(table_norm(a + b), k),
        first_with_key(table_norm(a + b), k) == first_with_key(a, k),
{
    lemma_has_key_concat(a, b, k);
    lemma_norm_first(a + b, k);
    lemma_first_concat(a, b, k);
}

/// Placing a priority route puts it at the head of the table; withdrawing it
/// removes exactly the copies of that route, and the surviving routes are the
/// same sequence the withdrawal would have produced on the original table, in
/// the original order.
pub proof fn lemma_priority_round_trip(t: Seq<RouteV>, r: RouteV)
    ensures
        (seq![r] + t)[0] == r,
        !contains_route(remove_all(seq![r] + t, seq![r]), r),
        remove_all(seq![r] + t, seq![r]) == remove_all(t, seq![r]),
        forall|x: RouteV|
            #[trigger] contains_route(remove_all(t, seq![r]), x) <==> (contains_route(t, x) && x
                != r),
    decreases t.len(),
{
    assert(contains_route(seq![r], r)) by {
        assert(seq![r][0] == r);
    }
    lemma_remove_all_contains(seq![r] + t, seq![r], r);
    if t.len() == 0 {
        assert(seq![r] + t =~= seq![r]);
        assert(seq![r].last() == r);
        assert(seq![r].drop_last() =~= Seq::<RouteV>::empty());
        assert(remove_all(seq![r], seq![r]) == remove_all(Seq::<RouteV>::empty(), seq![r]));
        assert(remove_all(t, seq![r]) == Seq::<RouteV>::empty());
    } else {
        lemma_priority_round_trip(t.drop_last(), r);
        assert((seq![r] + t).drop_last() =~= seq![r] + t.drop_last());
        assert((seq![r] + t).last() == t.last());
    }
    assert forall|x: RouteV|
        #[trigger] contains_route(remove_all(t, seq![r]), x) <==> (contains_route(t, x) && x
            != r) by {
        lemma_remove_all_contains(t, seq![r], x);
        if contains_route(seq![r], x) {
            let i = choose|i: int| 0 <= i < 1 && seq![r][i] == x;
            assert(x == r);
        }
        assert(seq![r][0] == r);
    }
}

/// Unmerge removes exactly what merge added: when the two tables share no
/// match key and the old table is in merged form, removing the new table's
/// routes from the merged table yields the old table again, unchanged.
pub proof fn lemma_merge_unmerge_round_trip(a: Seq<RouteV>, b: Seq<RouteV>)
    requires
        sorted_distinct(a),
        forall|k: MatchV| #[trigger] has_key(a, k) ==> !has_key(b, k),
    ensures
        remove_all(table_norm(a + b), b) == a,
{
    let m = table_norm(a + b);
    let r = remove_all(m, b);
    lemma_norm_sorted(a + b);
    lemma_remove_all_sorted(m, b);
    // every route of the merged table is the first route of its key in a + b
    assert forall|i: int| 0 <= i < m.len() implies m[i] == first_with_key(a + b, m[i].match_)
        && has_key(a + b, m[i].match_) by {
        lemma_distinct_first(m, i);
        assert(has_key(m, m[i].match_)) by {
            assert(m[i].match_ == m[i].match_);
        }
        lemma_norm_keys(a + b, m[i].match_);
        lemma_norm_first(a + b, m[i].match_);
    }
    assert forall|k: MatchV| #[trigger] has_key(a, k) implies has_key(r, k) && first_with_key(
        r,
        k,
    ) == first_with_key(a, k) by {
        let x = first_with_key(a, k);
        lemma_first_is_elem(a, k);
        lemma_has_key_concat(a, b, k);
        lemma_first_concat(a, b, k);
        lemma_norm_keys(a + b, k);
        lemma_norm_first(a + b, k);
        lemma_first_is_elem(m, k);
        assert(contains_route(m, x));
        assert(!contains_route(b, x)) by {
            if contains_route(b, x) {
                let j = choose|j: int| 0 <= j < b.len() && b[j] == x;
                assert(has_key(b, k)) by {
                    assert(b[j].match_ == k);
                }
            }
        }
        lemma_remove_all_contains(m, b, x);
        assert(contains_route(r, x));
        let i = choose|i: int| 0 <= i < r.len() && r[i] == x;
        assert(has_key(r, k)) by {
            assert(r[i].match_ == k);
        }
        lemma_distinct_first(r, i);
    }
    assert forall|k: MatchV| #[trigger] has_key(r, k) implies has_key(a, k) by {
        let i = choose|i: int| 0 <= i < r.len() && r[i].match_ == k;
        assert(contains_route(r, r[i])) by {
            assert(r[i] == r[i]);
        }
        lemma_remove_all_contains(m, b, r[i]);
        assert(contains_route(m, r[i]));
        let j = choose|j: int| 0 <= j < m.len() && m[j] == r[i];
        assert(m[j] == first_with_key(a + b, k));
        lemma_has_key_concat(a, b, k);
        if !has_key(a, k) {
            assert(has_key(b, k));
            lemma_first_concat(a, b, k);
            assert(m[j] == first_with_key(b, k));
            lemma_first_is_elem(b, k);
            assert(contains_route(b, m[j]));
            assert(false);
        }
    }
    lemma_sorted_unique(r, a);
}

/// Every table the merge actually combined is left in merged form: strictly
/// sorted by match key with one route per key. This is what lets a later
/// merge of the same chunk change nothing.
pub proof fn lemma_merged_table_sorted(
    o: Map<Seq<char>, Seq<RouteV>>,
    n: Map<Seq<char>, Seq<RouteV>>,
    k: Seq<char>,
)
    requires
        o.contains_key(k),
        n.contains_key(k),
    ensures
        sorted_distinct(merge_tables_spec(o, n)[k]),
{
    lemma_norm_sorted(o[k] + n[k]);
}
} // verus!
