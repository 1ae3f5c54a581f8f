use vstd::prelude::*;

use crate::config::{Listener, ListenerOpts, RouteTable, RuntimeConfig, Tls, TlsV};
use crate::route::{routes_view, Action, Match, MatchV, Route, RouteV};

verus! {

// ---------------------------------------------------------------------------
// The fact store: deduplicated routing intent.
//
// A unit is one fact: a match condition (uri / source / extra parameters),
// the hosts it applies to (none meaning every host), the effect to apply and
// the listeners it is served on. Units are identified structurally by their
// condition, never by a surrogate key, so pushing the same fact twice is a
// no-op.
// ---------------------------------------------------------------------------

/// One routing fact.
#[derive(Debug, Clone, PartialEq, Eq)]
pub struct Unit {
    pub id: Option<String>,
    pub hosts: Vec<String>,
    pub uri: Option<String>,
    pub source: Option<String>,
    pub params: String,
    pub action: Option<Action>,
    pub listeners: Vec<String>,
}

/// Mathematical model of a [`Unit`].
pub struct UnitV {
    pub id: Option<Seq<char>>,
    pub hosts: Seq<Seq<char>>,
    pub uri: Option<Seq<char>>,
    pub source: Option<Seq<char>>,
    pub params: Seq<char>,
    pub action: Option<crate::route::ActionV>,
    pub listeners: Seq<Seq<char>>,
}

/// The view of an optional string.
pub open spec fn opt_view(o: Option<String>) -> Option<Seq<char>> {
    match o {
        Some(s) => Some(s@),
        None => None,
    }
}

/// The views of a list of strings, in order.
pub open spec fn strs_view(s: Seq<String>) -> Seq<Seq<char>> {
    Seq::new(s.len(), |i: int| s[i]@)
}

impl View for Unit {
    type V = UnitV;

    open spec fn view(&self) -> UnitV {
        UnitV {
            id: opt_view(self.id),
            hosts: strs_view(self.hosts@),
            uri: opt_view(self.uri),
            source: opt_view(self.source),
            params: self.params@,
            action: match self.action {
                Some(ref a) => Some(a@),
                None => None,
            },
            listeners: strs_view(self.listeners@),
        }
    }
}

/// The structural identity of a unit: its match condition.
pub open spec fn unit_cond(u: UnitV) -> (Option<Seq<char>>, Option<Seq<char>>, Seq<char>) {
    (u.uri, u.source, u.params)
}

/// A string occurs in a list of strings.
pub open spec fn contains_str(s: Seq<Seq<char>>, x: Seq<char>) -> bool {
    exists|i: int| 0 <= i < s.len() && s[i] == x
}

/// `a` followed by the members of `b` not already in `a`, in order: the
/// host and listener links of a re-pushed fact are unioned, not duplicated.
pub open spec fn union_strs(a: Seq<Seq<char>>, b: Seq<Seq<char>>) -> Seq<Seq<char>>
    decreases b.len(),
{
    if b.len() == 0 {
        a
    } else {
        let rest = union_strs(a, b.drop_last());
        if contains_str(rest, b.last()) {
            rest
        } else {
            rest.push(b.last())
        }
    }
}

/// The store after one fact is pushed: an existing unit with the same
/// condition absorbs the new hosts and listeners (keeping its own action and
/// label); otherwise the fact is appended.
pub open spec fn store_add(s: Seq<UnitV>, u: UnitV) -> Seq<UnitV> {
    if exists|j: int| 0 <= j < s.len() && unit_cond(s[j]) == unit_cond(u) {
        let j = choose|j: int| 0 <= j < s.len() && unit_cond(s[j]) == unit_cond(u);
        s.update(
            j,
            UnitV {
                hosts: union_strs(s[j].hosts, u.hosts),
                listeners: union_strs(s[j].listeners, u.listeners),
                ..s[j]
            },
        )
    } else {
        s.push(u)
    }
}

/// The store after a fact is withdrawn. A unit naming hosts takes exactly
/// those host links away; a unit whose condition matches and names no hosts,
/// or whose removal leaves no host link behind, deletes the stored unit
/// outright, and everything only it referenced goes with it.
pub open spec fn store_remove(s: Seq<UnitV>, u: UnitV) -> Seq<UnitV> {
    if exists|j: int| 0 <= j < s.len() && unit_cond(s[j]) == unit_cond(u) {
        let j = choose|j: int| 0 <= j < s.len() && unit_cond(s[j]) == unit_cond(u);
        if u.hosts.len() == 0 || remove_strs(s[j].hosts, u.hosts).len() == 0 {
            s.remove(j)
        } else {
            s.update(j, UnitV { hosts: remove_strs(s[j].hosts, u.hosts), ..s[j] })
        }
    } else {
        s
    }
}

/// `a` without the members of `b`, in order.
pub open spec fn remove_strs(a: Seq<Seq<char>>, b: Seq<Seq<char>>) -> Seq<Seq<char>>
    decreases a.len(),
{
    if a.len() == 0 {
        Seq::empty()
    } else if contains_str(b, a.last()) {
        remove_strs(a.drop_last(), b)
    } else {
        remove_strs(a.drop_last(), b).push(a.last())
    }
}

/// The fact store: every unit of routing intent currently declared, one per
/// distinct match condition.
#[derive(Debug, Clone, PartialEq, Eq)]
pub struct FactStore {
    pub units: Vec<Unit>,
}

/// The models of the stored units, in order.
pub open spec fn units_view(s: Seq<Unit>) -> Seq<UnitV> {
    Seq::new(s.len(), |i: int| s[i]@)
}

impl FactStore {
    /// The model of the store.
    pub open spec fn view_units(&self) -> Seq<UnitV> {
        units_view(self.units@)
    }

    /// Conditions are distinct and no unit repeats a host or listener link.
    pub open spec fn wf(&self) -> bool {
        &&& forall|i: int, j: int|
            0 <= i < j < self.view_units().len() ==> unit_cond(self.view_units()[i]) != unit_cond(
                self.view_units()[j],
            )
        &&& forall|i: int|
            0 <= i < self.view_units().len() ==> distinct_strs(#[trigger] self.view_units()[i].hosts)
                && distinct_strs(self.view_units()[i].listeners)
    }

    /// An empty store.
    pub fn new() -> (r: FactStore)
        ensures
            r.wf(),
            r.view_units() =~= Seq::<UnitV>::empty(),
    {
        let r = FactStore { units: Vec::new() };
        proof {
            assert(r.view_units() =~= Seq::<UnitV>::empty());
        }
        r
    }
}

/// No string appears twice.
pub open spec fn distinct_strs(s: Seq<Seq<char>>) -> bool {
    forall|i: int, j: int| 0 <= i < j < s.len() ==> s[i] != s[j]
}


/// A member of the union is a member of one of the sides.
pub proof fn lemma_union_contains(a: Seq<Seq<char>>, b: Seq<Seq<char>>, x: Seq<char>)
    ensures
        contains_str(union_strs(a, b), x) <==> (contains_str(a, x) || contains_str(b, x)),
    decreases b.len(),
{
    if b.len() == 0 {
    } else {
        lemma_union_contains(a, b.drop_last(), x);
        let rest = union_strs(a, b.drop_last());
        assert(contains_str(b, x) <==> (contains_str(b.drop_last(), x) || b.last() == x)) by {
            if contains_str(b, x) {
                let i = choose|i: int| 0 <= i < b.len() && b[i] == x;
                if i < b.len() - 1 {
                    assert(b.drop_last()[i] == x);
                }
            }
            if contains_str(b.drop_last(), x) {
                let i = choose|i: int| 0 <= i < b.drop_last().len() && b.drop_last()[i] == x;
                assert(b[i] == x);
            }
            assert(b[b.len() - 1] == b.last());
        }
        if !contains_str(rest, b.last()) {
            assert(contains_str(rest.push(b.last()), x) <==> (contains_str(rest, x) || b.last()
                == x)) by {
                if contains_str(rest.push(b.last()), x) {
                    let i = choose|i: int|
                        0 <= i < rest.push(b.last()).len() && rest.push(b.last())[i] == x;
                    if i < rest.len() {
                        assert(rest[i] == x);
                    }
                }
                if contains_str(rest, x) {
                    let i = choose|i: int| 0 <= i < rest.len() && rest[i] == x;
                    assert(rest.push(b.last())[i] == x);
                }
                assert(rest.push(b.last())[rest.len() as int] == b.last());
            }
        }
    }
}

/// Unioning members already present changes nothing.
pub proof fn lemma_union_absorbed(a: Seq<Seq<char>>, b: Seq<Seq<char>>)
    requires
        forall|x: Seq<char>| #[trigger] contains_str(b, x) ==> contains_str(a, x),
    ensures
        union_strs(a, b) == a,
    decreases b.len(),
{
    if b.len() > 0 {
        assert(forall|x: Seq<char>|
            #[trigger] contains_str(b.drop_last(), x) ==> contains_str(b, x)) by {
            assert forall|x: Seq<char>|
                #[trigger] contains_str(b.drop_last(), x) implies contains_str(b, x) by {
                let i = choose|i: int| 0 <= i < b.drop_last().len() && b.drop_last()[i] == x;
                assert(b[i] == x);
            }
        }
        lemma_union_absorbed(a, b.drop_last());
        assert(contains_str(b, b.last())) by {
            assert(b[b.len() - 1] == b.last());
        }
    }
}

/// The union of distinct links with any list keeps them distinct.
pub proof fn lemma_union_distinct(a: Seq<Seq<char>>, b: Seq<Seq<char>>)
    requires
        distinct_strs(a),
    ensures
        distinct_strs(union_strs(a, b)),
    decreases b.len(),
{
    if b.len() > 0 {
        lemma_union_distinct(a, b.drop_last());
        let rest = union_strs(a, b.drop_last());
        if !contains_str(rest, b.last()) {
            let u = rest.push(b.last());
            assert forall|i: int, j: int| 0 <= i < j < u.len() implies u[i] != u[j] by {
                if j < rest.len() {
                    assert(u[i] == rest[i] && u[j] == rest[j]);
                } else {
                    assert(u[j] == b.last());
                    assert(u[i] == rest[i]);
                    if rest[i] == b.last() {
                        assert(contains_str(rest, b.last()));
                    }
                }
            }
        }
    }
}

/// A member survives the removal exactly when it was present and not removed.
pub proof fn lemma_remove_strs_contains(a: Seq<Seq<char>>, b: Seq<Seq<char>>, x: Seq<char>)
    ensures
        contains_str(remove_strs(a, b), x) <==> (contains_str(a, x) && !contains_str(b, x)),
    decreases a.len(),
{
    if a.len() == 0 {
        if contains_str(remove_strs(a, b), x) {
            let i = choose|i: int| 0 <= i < remove_strs(a, b).len() && remove_strs(a, b)[i] == x;
            assert(false);
        }
        if contains_str(a, x) {
            let i = choose|i: int| 0 <= i < a.len() && a[i] == x;
            assert(false);
        }
    } else {
        lemma_remove_strs_contains(a.drop_last(), b, x);
        assert(contains_str(a, x) <==> (contains_str(a.drop_last(), x) || a.last() == x)) by {
            if contains_str(a, x) {
                let i = choose|i: int| 0 <= i < a.len() && a[i] == x;
                if i < a.len() - 1 {
                    assert(a.drop_last()[i] == x);
                }
            }
            if contains_str(a.drop_last(), x) {
                let i = choose|i: int| 0 <= i < a.drop_last().len() && a.drop_last()[i] == x;
                assert(a[i] == x);
            }
            assert(a[a.len() - 1] == a.last());
        }
        if !contains_str(b, a.last()) {
            let rest = remove_strs(a.drop_last(), b);
            assert(contains_str(rest.push(a.last()), x) <==> (contains_str(rest, x) || a.last()
                == x)) by {
                if contains_str(rest.push(a.last()), x) {
                    let i = choose|i: int|
                        0 <= i < rest.push(a.last()).len() && rest.push(a.last())[i] == x;
                    if i < rest.len() {
                        assert(rest[i] == x);
                    }
                }
                if contains_str(rest, x) {
                    let i = choose|i: int| 0 <= i < rest.len() && rest[i] == x;
                    assert(rest.push(a.last())[i] == x);
                }
                assert(rest.push(a.last())[rest.len() as int] == a.last());
            }
        }
    }
}

/// Removal keeps distinct links distinct.
pub proof fn lemma_remove_strs_distinct(a: Seq<Seq<char>>, b: Seq<Seq<char>>)
    requires
        distinct_strs(a),
    ensures
        distinct_strs(remove_strs(a, b)),
    decreases a.len(),
{
    if a.len() > 0 {
        assert(distinct_strs(a.drop_last())) by {
            assert(forall|i: int|
                0 <= i < a.drop_last().len() ==> a.drop_last()[i] == a[i]);
        }
        lemma_remove_strs_distinct(a.drop_last(), b);
        if !contains_str(b, a.last()) {
            let rest = remove_strs(a.drop_last(), b);
            let u = rest.push(a.last());
            assert forall|i: int, j: int| 0 <= i < j < u.len() implies u[i] != u[j] by {
                if j < rest.len() {
                    assert(u[i] == rest[i] && u[j] == rest[j]);
                } else {
                    assert(u[j] == a.last());
                    assert(u[i] == rest[i]);
                    if rest[i] == a.last() {
                        lemma_remove_strs_contains(a.drop_last(), b, a.last());
                        let w = choose|w: int|
                            0 <= w < a.drop_last().len() && a.drop_last()[w] == a.last();
                        assert(a[w] == a[a.len() - 1]);
                    }
                }
            }
        }
    }
}

/// Whether a list of strings contains a string.
fn contains_str_exec(v: &Vec<String>, x: &String) -> (found: bool)
    ensures
        found == contains_str(strs_view(v@), x@),
{
    let mut i: usize = 0;
    while i < v.len()
        invariant
            i <= v@.len(),
            forall|j: int| 0 <= j < i ==> strs_view(v@)[j] != x@,
        decreases v@.len() - i,
    {
        if v[i] == *x {
            proof {
                assert(strs_view(v@)[i as int] == x@);
            }
            return true;
        }
        i = i + 1;
    }
    proof {
        if contains_str(strs_view(v@), x@) {
            let j = choose|j: int| 0 <= j < strs_view(v@).len() && strs_view(v@)[j] == x@;
            assert(false);
        }
    }
    false
}

/// Whether two optional strings agree.
fn same_opt_str(a: &Option<String>, b: &Option<String>) -> (r: bool)
    ensures
        r == (opt_view(*a) == opt_view(*b)),
{
    match (a, b) {
        (None, None) => true,
        (Some(x), Some(y)) => *x == *y,
        _ => false,
    }
}

impl Unit {
    /// Whether two units state the same match condition.
    pub fn same_cond(&self, other: &Unit) -> (r: bool)
        ensures
            r == (unit_cond(self@) == unit_cond(other@)),
    {
        same_opt_str(&self.uri, &other.uri) && same_opt_str(&self.source, &other.source)
            && self.params == other.params
    }
}

impl FactStore {
    /// The index of the unit with the same condition, if any.
    fn find_cond(&self, u: &Unit) -> (r: Option<usize>)
        ensures
            match r {
                Some(i) => i < self.view_units().len() && unit_cond(self.view_units()[i as int])
                    == unit_cond(u@),
                None => forall|j: int|
                    0 <= j < self.view_units().len() ==> unit_cond(
                        #[trigger] self.view_units()[j],
                    ) != unit_cond(u@),
            },
    {
        let mut i: usize = 0;
        while i < self.units.len()
            invariant
                i <= self.units@.len(),
                forall|j: int|
                    0 <= j < i ==> unit_cond(#[trigger] self.view_units()[j]) != unit_cond(u@),
            decreases self.units@.len() - i,
        {
            if self.units[i].same_cond(u) {
                proof {
                    assert(self.view_units()[i as int] == self.units@[i as int]@);
                }
                return Some(i);
            }
            proof {
                assert(self.view_units()[i as int] == self.units@[i as int]@);
            }
            i = i + 1;
        }
        None
    }

    /// Push one fact. A unit with the same condition absorbs the new host and
    /// listener links; otherwise the fact is appended. Pushing a fact that is
    /// already fully present leaves the store exactly as it was.
    pub fn add_unit(&mut self, u: Unit)
        requires
            old(self).wf(),
            distinct_strs(strs_view(u.hosts@)),
            distinct_strs(strs_view(u.listeners@)),
        ensures
            final(self).wf(),
            final(self).view_units() =~~= store_add(old(self).view_units(), u@),
    {
        let ghost s = self.view_units();
        match self.find_cond(&u) {
            Some(i) => {
                let ghost iv = i as int;
                let mut entry = self.units.remove(i);
                let ghost old_entry = s[iv];
                let mut h: usize = 0;
                while h < u.hosts.len()
                    invariant
                        h <= u.hosts@.len(),
                        strs_view(entry.hosts@) == union_strs(
                            old_entry.hosts,
                            strs_view(u.hosts@).take(h as int),
                        ),
                        unit_cond(entry@) == unit_cond(old_entry),
                        entry@.listeners == old_entry.listeners,
                        entry@.id == old_entry.id,
                        entry@.action == old_entry.action,
                    decreases u.hosts@.len() - h,
                {
                    let ghost before = strs_view(entry.hosts@);
                    let present = contains_str_exec(&entry.hosts, &u.hosts[h]);
                    proof {
                        assert(strs_view(u.hosts@).take(h + 1).drop_last() =~= strs_view(
                            u.hosts@,
                        ).take(h as int));
                        assert(strs_view(u.hosts@).take(h + 1).last() == u.hosts@[h as int]@);
                    }
                    if !present {
                        entry.hosts.push(u.hosts[h].clone());
                        proof {
                            assert(strs_view(entry.hosts@) =~= before.push(u.hosts@[h as int]@));
                        }
                    }
                    h = h + 1;
                }
                proof {
                    assert(strs_view(u.hosts@).take(u.hosts@.len() as int) =~= strs_view(
                        u.hosts@,
                    ));
                }
                let mut l: usize = 0;
                while l < u.listeners.len()
                    invariant
                        l <= u.listeners@.len(),
                        strs_view(entry.hosts@) == union_strs(old_entry.hosts, u@.hosts),
                        strs_view(entry.listeners@) == union_strs(
                            old_entry.listeners,
                            strs_view(u.listeners@).take(l as int),
                        ),
                        unit_cond(entry@) == unit_cond(old_entry),
                        entry@.id == old_entry.id,
                        entry@.action == old_entry.action,
                    decreases u.listeners@.len() - l,
                {
                    let ghost before = strs_view(entry.listeners@);
                    let present = contains_str_exec(&entry.listeners, &u.listeners[l]);
                    proof {
                        assert(strs_view(u.listeners@).take(l + 1).drop_last() =~= strs_view(
                            u.listeners@,
                        ).take(l as int));
                        assert(strs_view(u.listeners@).take(l + 1).last()
                            == u.listeners@[l as int]@);
                    }
                    if !present {
                        entry.listeners.push(u.listeners[l].clone());
                        proof {
                            assert(strs_view(entry.listeners@) =~= before.push(
                                u.listeners@[l as int]@,
                            ));
                        }
                    }
                    l = l + 1;
                }
                proof {
                    assert(strs_view(u.listeners@).take(u.listeners@.len() as int) =~= strs_view(
                        u.listeners@,
                    ));
                }
                let ghost tv = self.units@;
                self.units.insert(i, entry);
                proof {
                    let m = UnitV {
                        hosts: union_strs(old_entry.hosts, u@.hosts),
                        listeners: union_strs(old_entry.listeners, u@.listeners),
                        ..old_entry
                    };
                    assert(entry@ =~~= m);
                    assert(self.view_units() =~~= s.update(iv, m)) by {
                        assert(forall|j2: int|
                            0 <= j2 < tv.len() && j2 < iv ==> self.units@[j2] == tv[j2]);
                        assert(forall|j2: int|
                            iv <= j2 < tv.len() ==> self.units@[j2 + 1] == tv[j2]);
                    }
                    // the chosen index in the model is this one, conditions
                    // being distinct
                    let j = choose|j: int| 0 <= j < s.len() && unit_cond(s[j]) == unit_cond(u@);
                    assert(j == iv);
                    lemma_union_distinct(old_entry.hosts, u@.hosts);
                    lemma_union_distinct(old_entry.listeners, u@.listeners);
                }
            },
            None => {
                self.units.push(u);
                proof {
                    assert(self.view_units() =~~= s.push(self.units@[s.len() as int]@));
                }
            },
        }
    }

    /// Withdraw one fact, unlinking its hosts and pruning a unit whose last
    /// host link is gone (a unit naming no hosts is pruned outright).
    pub fn remove_unit(&mut self, u: &Unit)
        requires
            old(self).wf(),
        ensures
            final(self).wf(),
            final(self).view_units() =~~= store_remove(old(self).view_units(), u@),
    {
        let ghost s = self.view_units();
        match self.find_cond(u) {
            Some(i) => {
                let ghost iv = i as int;
                if u.hosts.len() == 0 {
                    self.units.remove(i);
                    proof {
                        assert(self.view_units() =~~= s.remove(iv));
                        let j = choose|j: int|
                            0 <= j < s.len() && unit_cond(s[j]) == unit_cond(u@);
                        assert(j == iv);
                    }
                    return ;
                }
                let entry = &self.units[i];
                let mut kept: Vec<String> = Vec::new();
                let ghost old_hosts = s[iv].hosts;
                proof {
                    assert(strs_view(kept@) =~= Seq::<Seq<char>>::empty());
                    assert(old_hosts.take(0) =~= Seq::<Seq<char>>::empty());
                }
                let mut h: usize = 0;
                while h < entry.hosts.len()
                    invariant
                        h <= entry.hosts@.len(),
                        old_hosts == strs_view(entry.hosts@),
                        strs_view(kept@) == remove_strs(old_hosts.take(h as int), u@.hosts),
                    decreases entry.hosts@.len() - h,
                {
                    let ghost before = strs_view(kept@);
                    let dropped = contains_str_exec(&u.hosts, &entry.hosts[h]);
                    proof {
                        assert(old_hosts.take(h + 1).drop_last() =~= old_hosts.take(h as int));
                        assert(old_hosts.take(h + 1).last() == entry.hosts@[h as int]@);
                    }
                    if !dropped {
                        kept.push(entry.hosts[h].clone());
                        proof {
                            assert(strs_view(kept@) =~= before.push(entry.hosts@[h as int]@));
                        }
                    }
                    h = h + 1;
                }
                proof {
                    assert(old_hosts.take(old_hosts.len() as int) =~= old_hosts);
                }
                let ghost tv = self.units@;
                if kept.len() == 0 {
                    self.units.remove(i);
                    proof {
                        assert(self.view_units() =~~= s.remove(iv));
                        let j = choose|j: int|
                            0 <= j < s.len() && unit_cond(s[j]) == unit_cond(u@);
                        assert(j == iv);
                    }
                } else {
                    let mut entry = self.units.remove(i);
                    entry.hosts = kept;
                    self.units.insert(i, entry);
                    proof {
                        let m = UnitV { hosts: remove_strs(old_hosts, u@.hosts), ..s[iv] };
                        assert(self.units@[iv]@ =~~= m);
                        assert(self.view_units() =~~= s.update(iv, m)) by {
                            assert(forall|j2: int|
                                0 <= j2 < tv.len() && j2 < iv ==> self.units@[j2] == tv[j2]);
                            assert(forall|j2: int|
                                iv < j2 < tv.len() ==> self.units@[j2] == tv[j2]);
                        }
                        let j = choose|j: int|
                            0 <= j < s.len() && unit_cond(s[j]) == unit_cond(u@);
                        assert(j == iv);
                        lemma_remove_strs_distinct(old_hosts, u@.hosts);
                    }
                }
            },
            None => {},
        }
    }
}

/// Pushing the same fact twice leaves the store as the first push left it:
/// fact identity is structural, so a re-push is a no-op.
pub proof fn lemma_store_add_idempotent(s: Seq<UnitV>, u: UnitV)
    requires
        forall|i: int, j: int| 0 <= i < j < s.len() ==> unit_cond(s[i]) != unit_cond(s[j]),
    ensures
        store_add(store_add(s, u), u) =~~= store_add(s, u),
{
    if exists|j: int| 0 <= j < s.len() && unit_cond(s[j]) == unit_cond(u) {
        let j = choose|j: int| 0 <= j < s.len() && unit_cond(s[j]) == unit_cond(u);
        let m = UnitV {
            hosts: union_strs(s[j].hosts, u.hosts),
            listeners: union_strs(s[j].listeners, u.listeners),
            ..s[j]
        };
        let s2 = s.update(j, m);
        assert(store_add(s, u) == s2);
        assert(unit_cond(s2[j]) == unit_cond(u));
        let j2 = choose|j2: int| 0 <= j2 < s2.len() && unit_cond(s2[j2]) == unit_cond(u);
        assert(j2 == j) by {
            if j2 != j {
                assert(unit_cond(s2[j2]) == unit_cond(s[j2]));
            }
        }
        assert forall|x: Seq<char>| #[trigger] contains_str(u.hosts, x) implies contains_str(
            m.hosts,
            x,
        ) by {
            lemma_union_contains(s[j].hosts, u.hosts, x);
        }
        assert forall|x: Seq<char>| #[trigger] contains_str(u.listeners, x) implies contains_str(
            m.listeners,
            x,
        ) by {
            lemma_union_contains(s[j].listeners, u.listeners, x);
        }
        lemma_union_absorbed(m.hosts, u.hosts);
        lemma_union_absorbed(m.listeners, u.listeners);
        let m2 = UnitV {
            hosts: union_strs(s2[j].hosts, u.hosts),
            listeners: union_strs(s2[j].listeners, u.listeners),
            ..s2[j]
        };
        assert(m2 =~~= m);
        assert(store_add(s2, u) == s2.update(j, m2));
        assert(s2.update(j, m2) =~~= s2);
    } else {
        let s2 = s.push(u);
        assert(store_add(s, u) == s2);
        assert(unit_cond(s2[s.len() as int]) == unit_cond(u));
        let j2 = choose|j2: int| 0 <= j2 < s2.len() && unit_cond(s2[j2]) == unit_cond(u);
        assert(j2 == s.len()) by {
            if j2 < s.len() {
                assert(unit_cond(s2[j2]) == unit_cond(s[j2]));
            }
        }
        assert forall|x: Seq<char>| #[trigger] contains_str(u.hosts, x) implies contains_str(
            u.hosts,
            x,
        ) by {
        }
        lemma_union_absorbed(u.hosts, u.hosts);
        lemma_union_absorbed(u.listeners, u.listeners);
        let m2 = UnitV {
            hosts: union_strs(s2[j2].hosts, u.hosts),
            listeners: union_strs(s2[j2].listeners, u.listeners),
            ..s2[j2]
        };
        assert(m2 =~~= u);
        assert(store_add(s2, u) == s2.update(j2, m2));
        assert(s2.update(j2, m2) =~~= s2);
    }
}

// ---------------------------------------------------------------------------
// Translation: facts into the runtime configuration document.
// ---------------------------------------------------------------------------

/// A host whose certificate challenge is currently in flight on a listener.
/// While it is, the listener must not offer TLS for that host: it has no
/// usable certificate yet and a handshake would only fail.
#[derive(Debug, Clone, PartialEq, Eq)]
pub struct PendingChallenge {
    pub host: String,
    pub socket: String,
}

/// The models of a list of pending challenges, as (host, socket) pairs.
pub open spec fn chal_view(s: Seq<PendingChallenge>) -> Seq<(Seq<char>, Seq<char>)> {
    Seq::new(s.len(), |i: int| (s[i].host@, s[i].socket@))
}

/// The routes one unit contributes to a table: one per host, or a single
/// hostless route when the unit applies to every host.
pub open spec fn unit_routes(u: UnitV) -> Seq<RouteV> {
    if u.hosts.len() == 0 {
        seq![
            (RouteV {
                action: u.action,
                match_: (MatchV { host: None, uri: u.uri, source: u.source, params: u.params }),
            }),
        ]
    } else {
        Seq::new(
            u.hosts.len(),
            |i: int|
                RouteV {
                    action: u.action,
                    match_: (MatchV {
                        host: Some(u.hosts[i]),
                        uri: u.uri,
                        source: u.source,
                        params: u.params,
                    }),
                },
        )
    }
}

/// Every listener link in the store, in order, with repetitions.
pub open spec fn flatten_listeners(s: Seq<UnitV>) -> Seq<Seq<char>>
    decreases s.len(),
{
    if s.len() == 0 {
        Seq::empty()
    } else {
        flatten_listeners(s.drop_last()) + s.last().listeners
    }
}

/// The first occurrence of each string, in order.
pub open spec fn dedup_strs(s: Seq<Seq<char>>) -> Seq<Seq<char>>
    decreases s.len(),
{
    if s.len() == 0 {
        Seq::empty()
    } else if contains_str(s.drop_last(), s.last()) {
        dedup_strs(s.drop_last())
    } else {
        dedup_strs(s.drop_last()).push(s.last())
    }
}

/// The sockets the store references, first occurrence first.
pub open spec fn store_sockets(s: Seq<UnitV>) -> Seq<Seq<char>> {
    dedup_strs(flatten_listeners(s))
}

/// The routing table for one socket: the routes of every unit listing it, in
/// fact-store order.
pub open spec fn table_for(s: Seq<UnitV>, sock: Seq<char>) -> Seq<RouteV>
    decreases s.len(),
{
    if s.len() == 0 {
        Seq::empty()
    } else if contains_str(s.last().listeners, sock) {
        table_for(s.drop_last(), sock) + unit_routes(s.last())
    } else {
        table_for(s.drop_last(), sock)
    }
}

/// Every host link of units listing a socket, in order, with repetitions.
pub open spec fn flatten_hosts_on(s: Seq<UnitV>, sock: Seq<char>) -> Seq<Seq<char>>
    decreases s.len(),
{
    if s.len() == 0 {
        Seq::empty()
    } else if contains_str(s.last().listeners, sock) {
        flatten_hosts_on(s.drop_last(), sock) + s.last().hosts
    } else {
        flatten_hosts_on(s.drop_last(), sock)
    }
}

/// The hosts referenced on a socket, first occurrence first.
pub open spec fn hosts_on(s: Seq<UnitV>, sock: Seq<char>) -> Seq<Seq<char>> {
    dedup_strs(flatten_hosts_on(s, sock))
}

/// The hosts whose challenge is in flight on a socket.
pub open spec fn challenged_on(ch: Seq<(Seq<char>, Seq<char>)>, sock: Seq<char>) -> Seq<
    Seq<char>,
>
    decreases ch.len(),
{
    if ch.len() == 0 {
        Seq::empty()
    } else if ch.last().1 == sock {
        challenged_on(ch.drop_last(), sock).push(ch.last().0)
    } else {
        challenged_on(ch.drop_last(), sock)
    }
}

/// The TLS bundle of a listener: the hosts on it that hold a usable
/// certificate, except those whose challenge is in flight there.
pub open spec fn tls_bundle(
    hs: Seq<Seq<char>>,
    certified: Seq<Seq<char>>,
    challenged: Seq<Seq<char>>,
) -> Seq<Seq<char>>
    decreases hs.len(),
{
    if hs.len() == 0 {
        Seq::empty()
    } else {
        let rest = tls_bundle(hs.drop_last(), certified, challenged);
        if contains_str(certified, hs.last()) && !contains_str(challenged, hs.last()) {
            rest.push(hs.last())
        } else {
            rest
        }
    }
}

/// The TLS attachment of a listener, absent when the bundle is empty.
pub open spec fn listener_tls(
    s: Seq<UnitV>,
    sock: Seq<char>,
    certified: Seq<Seq<char>>,
    ch: Seq<(Seq<char>, Seq<char>)>,
) -> Option<TlsV> {
    let b = tls_bundle(hosts_on(s, sock), certified, challenged_on(ch, sock));
    if b.len() == 0 {
        None
    } else {
        Some(TlsV { certificate: b })
    }
}

/// A string occurs in a nonempty list exactly when it is the last member or
/// occurs earlier.
pub proof fn lemma_contains_str_unpush(s: Seq<Seq<char>>, x: Seq<char>)
    requires
        s.len() > 0,
    ensures
        contains_str(s, x) <==> (contains_str(s.drop_last(), x) || s.last() == x),
{
    if contains_str(s, x) {
        let i = choose|i: int| 0 <= i < s.len() && s[i] == x;
        if i < s.len() - 1 {
            assert(s.drop_last()[i] == x);
        }
    }
    if contains_str(s.drop_last(), x) {
        let i = choose|i: int| 0 <= i < s.drop_last().len() && s.drop_last()[i] == x;
        assert(s[i] == x);
    }
    assert(s[s.len() - 1] == s.last());
}

/// A string occurs in `s.push(y)` exactly when it occurs in `s` or is `y`.
pub proof fn lemma_contains_str_push(s: Seq<Seq<char>>, y: Seq<char>, x: Seq<char>)
    ensures
        contains_str(s.push(y), x) <==> (contains_str(s, x) || y == x),
{
    lemma_contains_str_unpush(s.push(y), x);
    assert(s.push(y).drop_last() =~= s);
}

/// Deduplication keeps exactly the members.
pub proof fn lemma_dedup_contains(s: Seq<Seq<char>>, x: Seq<char>)
    ensures
        contains_str(dedup_strs(s), x) <==> contains_str(s, x),
    decreases s.len(),
{
    if s.len() == 0 {
        if contains_str(s, x) {
            let i = choose|i: int| 0 <= i < s.len() && s[i] == x;
            assert(false);
        }
    } else {
        lemma_dedup_contains(s.drop_last(), x);
        lemma_contains_str_unpush(s, x);
        if !contains_str(s.drop_last(), s.last()) {
            lemma_contains_str_push(dedup_strs(s.drop_last()), s.last(), x);
        }
    }
}

/// Deduplication leaves no repetitions.
pub proof fn lemma_dedup_distinct(s: Seq<Seq<char>>)
    ensures
        distinct_strs(dedup_strs(s)),
    decreases s.len(),
{
    if s.len() > 0 {
        lemma_dedup_distinct(s.drop_last());
        if !contains_str(s.drop_last(), s.last()) {
            let rest = dedup_strs(s.drop_last());
            let u = rest.push(s.last());
            lemma_dedup_contains(s.drop_last(), s.last());
            assert forall|i: int, j: int| 0 <= i < j < u.len() implies u[i] != u[j] by {
                if j < rest.len() {
                    assert(u[i] == rest[i] && u[j] == rest[j]);
                } else {
                    assert(u[j] == s.last());
                    assert(u[i] == rest[i]);
                    if rest[i] == s.last() {
                        assert(contains_str(rest, s.last()));
                    }
                }
            }
        }
    }
}

/// A host is challenged on a socket exactly when some pending challenge
/// names that host and socket.
pub proof fn lemma_challenged_on_contains(
    ch: Seq<(Seq<char>, Seq<char>)>,
    sock: Seq<char>,
    h: Seq<char>,
)
    ensures
        contains_str(challenged_on(ch, sock), h) <==> exists|i: int|
            0 <= i < ch.len() && ch[i].0 == h && ch[i].1 == sock,
    decreases ch.len(),
{
    if ch.len() == 0 {
        if contains_str(challenged_on(ch, sock), h) {
            let i = choose|i: int|
                0 <= i < challenged_on(ch, sock).len() && challenged_on(ch, sock)[i] == h;
            assert(false);
        }
        if exists|i: int| 0 <= i < ch.len() && ch[i].0 == h && ch[i].1 == sock {
            let i = choose|i: int| 0 <= i < ch.len() && ch[i].0 == h && ch[i].1 == sock;
            assert(false);
        }
    } else {
        lemma_challenged_on_contains(ch.drop_last(), sock, h);
        if ch.last().1 == sock {
            lemma_contains_str_push(challenged_on(ch.drop_last(), sock), ch.last().0, h);
        }
        assert((exists|i: int| 0 <= i < ch.len() && ch[i].0 == h && ch[i].1 == sock) <==> ((
        exists|i: int|
            0 <= i < ch.drop_last().len() && ch.drop_last()[i].0 == h && ch.drop_last()[i].1
                == sock) || (ch.last().0 == h && ch.last().1 == sock))) by {
            if exists|i: int| 0 <= i < ch.len() && ch[i].0 == h && ch[i].1 == sock {
                let i = choose|i: int| 0 <= i < ch.len() && ch[i].0 == h && ch[i].1 == sock;
                if i < ch.len() - 1 {
                    assert(ch.drop_last()[i] == ch[i]);
                }
            }
            if exists|i: int|
                0 <= i < ch.drop_last().len() && ch.drop_last()[i].0 == h && ch.drop_last()[i].1
                    == sock {
                let i = choose|i: int|
                    0 <= i < ch.drop_last().len() && ch.drop_last()[i].0 == h
                        && ch.drop_last()[i].1 == sock;
                assert(ch[i] == ch.drop_last()[i]);
            }
            assert(ch[ch.len() - 1] == ch.last());
        }
    }
}

/// Whether a challenge for this host is in flight on this socket.
fn challenged_exec(ch: &Vec<PendingChallenge>, host: &String, sock: &String) -> (r: bool)
    ensures
        r == contains_str(challenged_on(chal_view(ch@), sock@), host@),
{
    proof {
        lemma_challenged_on_contains(chal_view(ch@), sock@, host@);
    }
    let mut i: usize = 0;
    while i < ch.len()
        invariant
            i <= ch@.len(),
            forall|j: int|
                0 <= j < i ==> !(#[trigger] chal_view(ch@)[j].0 == host@ && chal_view(ch@)[j].1
                    == sock@),
        decreases ch@.len() - i,
    {
        if ch[i].host == *host && ch[i].socket == *sock {
            proof {
                lemma_challenged_on_contains(chal_view(ch@), sock@, host@);
                assert(chal_view(ch@)[i as int].0 == host@ && chal_view(ch@)[i as int].1
                    == sock@);
            }
            return true;
        }
        proof {
            assert(chal_view(ch@)[i as int] == (ch@[i as int].host@, ch@[i as int].socket@));
        }
        i = i + 1;
    }
    proof {
        if exists|j: int|
            0 <= j < ch@.len() && chal_view(ch@)[j].0 == host@ && chal_view(ch@)[j].1 == sock@ {
            let j = choose|j: int|
                0 <= j < ch@.len() && chal_view(ch@)[j].0 == host@ && chal_view(ch@)[j].1
                    == sock@;
            assert(false);
        }
    }
    false
}

impl FactStore {
    /// The sockets the stored facts reference, first occurrence first.
    pub fn sockets(&self) -> (r: Vec<String>)
        ensures
            strs_view(r@) == store_sockets(self.view_units()),
            distinct_strs(strs_view(r@)),
    {
        let ghost units = self.view_units();
        let mut out: Vec<String> = Vec::new();
        proof {
            assert(units.take(0) =~= Seq::<UnitV>::empty());
            assert(flatten_listeners(units.take(0)) =~= Seq::<Seq<char>>::empty());
            assert(strs_view(out@) =~= dedup_strs(flatten_listeners(units.take(0))));
        }
        let mut i: usize = 0;
        while i < self.units.len()
            invariant
                i <= self.units@.len(),
                units == self.view_units(),
                strs_view(out@) == dedup_strs(flatten_listeners(units.take(i as int))),
            decreases self.units@.len() - i,
        {
            let u = &self.units[i];
            let ghost base = flatten_listeners(units.take(i as int));
            let ghost ls = strs_view(u.listeners@);
            proof {
                assert(units[i as int] == u@);
                assert(base + ls.take(0) =~= base);
            }
            let mut j: usize = 0;
            while j < u.listeners.len()
                invariant
                    j <= u.listeners@.len(),
                    ls == strs_view(u.listeners@),
                    strs_view(out@) == dedup_strs(base + ls.take(j as int)),
                decreases u.listeners@.len() - j,
            {
                let ghost before = strs_view(out@);
                let ghost f = base + ls.take(j as int);
                proof {
                    assert((base + ls.take(j + 1)).drop_last() =~= f);
                    assert((base + ls.take(j + 1)).last() == ls[j as int]);
                    lemma_dedup_contains(f, ls[j as int]);
                }
                let present = contains_str_exec(&out, &u.listeners[j]);
                if !present {
                    out.push(u.listeners[j].clone());
                    proof {
                        assert(strs_view(out@) =~= before.push(ls[j as int]));
                    }
                }
                j = j + 1;
            }
            proof {
                assert(ls.take(ls.len() as int) =~= ls);
                assert(units.take(i + 1).drop_last() =~= units.take(i as int));
                assert(units.take(i + 1).last() == units[i as int]);
                assert(flatten_listeners(units.take(i + 1)) == base + units[i as int].listeners);
                assert(units[i as int].listeners == ls);
            }
            i = i + 1;
        }
        proof {
            assert(units.take(units.len() as int) =~= units);
            lemma_dedup_distinct(flatten_listeners(units));
        }
        out
    }

    /// The routing table for one socket: every unit listing the socket
    /// contributes its routes, in store order, one per host.
    pub fn table_on(&self, sock: &String) -> (r: Vec<Route>)
        ensures
            routes_view(r@) == table_for(self.view_units(), sock@),
    {
        let ghost units = self.view_units();
        let mut out: Vec<Route> = Vec::new();
        proof {
            assert(units.take(0) =~= Seq::<UnitV>::empty());
            assert(routes_view(out@) =~= table_for(units.take(0), sock@));
        }
        let mut i: usize = 0;
        while i < self.units.len()
            invariant
                i <= self.units@.len(),
                units == self.view_units(),
                routes_view(out@) == table_for(units.take(i as int), sock@),
            decreases self.units@.len() - i,
        {
            let u = &self.units[i];
            let ghost base = table_for(units.take(i as int), sock@);
            proof {
                assert(units[i as int] == u@);
                assert(units.take(i + 1).drop_last() =~= units.take(i as int));
                assert(units.take(i + 1).last() == units[i as int]);
            }
            let listed = contains_str_exec(&u.listeners, sock);
            if listed {
                if u.hosts.len() == 0 {
                    let ghost before = routes_view(out@);
                    out.push(
                        Route {
                            action: match &u.action {
                                Some(a) => Some(a.duplicate()),
                                None => None,
                            },
                            match_: Match {
                                host: None,
                                uri: match &u.uri {
                                    Some(x) => Some(x.clone()),
                                    None => None,
                                },
                                source: match &u.source {
                                    Some(x) => Some(x.clone()),
                                    None => None,
                                },
                                params: u.params.clone(),
                            },
                        },
                    );
                    proof {
                        assert(routes_view(out@) =~= before + unit_routes(u@));
                    }
                } else {
                    let mut h: usize = 0;
                    while h < u.hosts.len()
                        invariant
                            h <= u.hosts@.len(),
                            units == self.view_units(),
                            u == self.units@[i as int],
                            i < self.units@.len(),
                            routes_view(out@) == base + unit_routes(u@).take(h as int),
                        decreases u.hosts@.len() - h,
                    {
                        let ghost before = routes_view(out@);
                        out.push(
                            Route {
                                action: match &u.action {
                                    Some(a) => Some(a.duplicate()),
                                    None => None,
                                },
                                match_: Match {
                                    host: Some(u.hosts[h].clone()),
                                    uri: match &u.uri {
                                        Some(x) => Some(x.clone()),
                                        None => None,
                                    },
                                    source: match &u.source {
                                        Some(x) => Some(x.clone()),
                                        None => None,
                                    },
                                    params: u.params.clone(),
                                },
                            },
                        );
                        proof {
                            assert(unit_routes(u@)[h as int] == (RouteV {
                                action: u@.action,
                                match_: (MatchV {
                                    host: Some(u@.hosts[h as int]),
                                    uri: u@.uri,
                                    source: u@.source,
                                    params: u@.params,
                                }),
                            }));
                            assert(routes_view(out@) =~= before.push(unit_routes(u@)[h as int]));
                            assert(base + unit_routes(u@).take(h + 1) =~= (base + unit_routes(
                                u@,
                            ).take(h as int)).push(unit_routes(u@)[h as int]));
                        }
                        h = h + 1;
                    }
                    proof {
                        assert(unit_routes(u@).take(unit_routes(u@).len() as int) =~= unit_routes(
                            u@,
                        ));
                    }
                }
                proof {
                    assert(routes_view(out@) =~= base + unit_routes(units[i as int]));
                }
            }
            proof {
                assert(routes_view(out@) == table_for(units.take(i + 1), sock@));
            }
            i = i + 1;
        }
        proof {
            assert(units.take(units.len() as int) =~= units);
        }
        out
    }

    /// The hosts referenced by units on one socket, first occurrence first.
    fn hosts_on_socket(&self, sock: &String) -> (r: Vec<String>)
        ensures
            strs_view(r@) == hosts_on(self.view_units(), sock@),
    {
        let ghost units = self.view_units();
        let mut out: Vec<String> = Vec::new();
        proof {
            assert(units.take(0) =~= Seq::<UnitV>::empty());
            assert(flatten_hosts_on(units.take(0), sock@) =~= Seq::<Seq<char>>::empty());
            assert(strs_view(out@) =~= dedup_strs(flatten_hosts_on(units.take(0), sock@)));
        }
        let mut i: usize = 0;
        while i < self.units.len()
            invariant
                i <= self.units@.len(),
                units == self.view_units(),
                strs_view(out@) == dedup_strs(flatten_hosts_on(units.take(i as int), sock@)),
            decreases self.units@.len() - i,
        {
            let u = &self.units[i];
            let ghost base = flatten_hosts_on(units.take(i as int), sock@);
            let ghost hs = strs_view(u.hosts@);
            proof {
                assert(units[i as int] == u@);
                assert(units.take(i + 1).drop_last() =~= units.take(i as int));
                assert(units.take(i + 1).last() == units[i as int]);
            }
            let listed = contains_str_exec(&u.listeners, sock);
            if listed {
                proof {
                    assert(base + hs.take(0) =~= base);
                }
                let mut j: usize = 0;
                while j < u.hosts.len()
                    invariant
                        j <= u.hosts@.len(),
                        hs == strs_view(u.hosts@),
                        strs_view(out@) == dedup_strs(base + hs.take(j as int)),
                    decreases u.hosts@.len() - j,
                {
                    let ghost before = strs_view(out@);
                    let ghost f = base + hs.take(j as int);
                    proof {
                        assert((base + hs.take(j + 1)).drop_last() =~= f);
                        assert((base + hs.take(j + 1)).last() == hs[j as int]);
                        lemma_dedup_contains(f, hs[j as int]);
                    }
                    let present = contains_str_exec(&out, &u.hosts[j]);
                    if !present {
                        out.push(u.hosts[j].clone());
                        proof {
                            assert(strs_view(out@) =~= before.push(hs[j as int]));
                        }
                    }
                    j = j + 1;
                }
                proof {
                    assert(hs.take(hs.len() as int) =~= hs);
                    assert(flatten_hosts_on(units.take(i + 1), sock@) == base
                        + units[i as int].hosts);
                    assert(units[i as int].hosts == hs);
                }
            }
            i = i + 1;
        }
        proof {
            assert(units.take(units.len() as int) =~= units);
        }
        out
    }
}

/// The hosts of `hosts` holding a usable certificate and not mid-challenge
/// on this socket, in order.
fn tls_filter(
    hosts: &Vec<String>,
    certified: &Vec<String>,
    challenges: &Vec<PendingChallenge>,
    sock: &String,
) -> (r: Vec<String>)
    ensures
        strs_view(r@) == tls_bundle(
            strs_view(hosts@),
            strs_view(certified@),
            challenged_on(chal_view(challenges@), sock@),
        ),
{
    let ghost hs = strs_view(hosts@);
    let ghost cs = strs_view(certified@);
    let ghost chs = challenged_on(chal_view(challenges@), sock@);
    let mut out: Vec<String> = Vec::new();
    proof {
        assert(hs.take(0) =~= Seq::<Seq<char>>::empty());
        assert(strs_view(out@) =~= tls_bundle(hs.take(0), cs, chs));
    }
    let mut i: usize = 0;
    while i < hosts.len()
        invariant
            i <= hosts@.len(),
            hs == strs_view(hosts@),
            cs == strs_view(certified@),
            chs == challenged_on(chal_view(challenges@), sock@),
            strs_view(out@) == tls_bundle(hs.take(i as int), cs, chs),
        decreases hosts@.len() - i,
    {
        let ghost before = strs_view(out@);
        proof {
            assert(hs.take(i + 1).drop_last() =~= hs.take(i as int));
            assert(hs.take(i + 1).last() == hs[i as int]);
        }
        let ok = contains_str_exec(certified, &hosts[i]);
        if ok {
            let challenged = challenged_exec(challenges, &hosts[i], sock);
            if !challenged {
                out.push(hosts[i].clone());
                proof {
                    assert(strs_view(out@) =~= before.push(hs[i as int]));
                }
            }
        }
        i = i + 1;
    }
    proof {
        assert(hs.take(hosts@.len() as int) =~= hs);
    }
    out
}

impl FactStore {
    /// Reconcile the stored facts into the runtime configuration document.
    ///
    /// For every socket referenced by any unit there is one routing table,
    /// named by the socket, holding the routes of every unit on that socket
    /// in store order, and one listener entry passing to that table. Each
    /// listener's TLS bundle holds exactly the hosts referenced on it that
    /// hold a usable certificate, except hosts whose challenge is in flight
    /// on that listener: those are left on plaintext until it resolves.
    pub fn translate(&self, certified: &Vec<String>, challenges: &Vec<PendingChallenge>) -> (r:
        RuntimeConfig)
        ensures
            r.wf(),
            r.table_entries().len() == store_sockets(self.view_units()).len(),
            r.listener_entries().len() == store_sockets(self.view_units()).len(),
            forall|i: int|
                0 <= i < store_sockets(self.view_units()).len()
                    ==> #[trigger] r.table_entries()[i].0 == store_sockets(self.view_units())[i]
                    && r.table_entries()[i].1 == table_for(
                    self.view_units(),
                    store_sockets(self.view_units())[i],
                ),
            forall|i: int|
                0 <= i < store_sockets(self.view_units()).len()
                    ==> #[trigger] r.listener_entries()[i].0 == store_sockets(
                    self.view_units(),
                )[i] && r.listener_entries()[i].1.pass == "routes/"@ + store_sockets(
                    self.view_units(),
                )[i] && r.listener_entries()[i].1.tls == listener_tls(
                    self.view_units(),
                    store_sockets(self.view_units())[i],
                    strs_view(certified@),
                    chal_view(challenges@),
                ),
    {
        let ghost units = self.view_units();
        let ghost socksv = store_sockets(units);
        let socks = self.sockets();
        let mut listeners: Vec<Listener> = Vec::new();
        let mut tables: Vec<RouteTable> = Vec::new();
        let mut i: usize = 0;
        while i < socks.len()
            invariant
                i <= socks@.len(),
                units == self.view_units(),
                socksv == store_sockets(units),
                strs_view(socks@) == socksv,
                distinct_strs(socksv),
                listeners@.len() == i,
                tables@.len() == i,
                forall|j: int|
                    0 <= j < i ==> #[trigger] tables@[j].name@ == socksv[j] && routes_view(
                        tables@[j].routes@,
                    ) == table_for(units, socksv[j]),
                forall|j: int|
                    0 <= j < i ==> #[trigger] listeners@[j].socket@ == socksv[j]
                        && listeners@[j].opts@.pass == "routes/"@ + socksv[j]
                        && listeners@[j].opts@.tls == listener_tls(
                        units,
                        socksv[j],
                        strs_view(certified@),
                        chal_view(challenges@),
                    ),
            decreases socks@.len() - i,
        {
            let sock = &socks[i];
            proof {
                assert(sock@ == socksv[i as int]);
            }
            let routes = self.table_on(sock);
            let hosts = self.hosts_on_socket(sock);
            let bundle = tls_filter(&hosts, certified, challenges, sock);
            let ghost bv = strs_view(bundle@);
            let tls = if bundle.len() == 0 {
                None
            } else {
                Some(Tls { certificate: bundle })
            };
            proof {
                assert(match tls {
                    Some(ref t) => t@ == (TlsV { certificate: bv }) && bv.len() != 0,
                    None => bv.len() == 0,
                });
            }
            let pass = String::from_str("routes/").concat(sock.as_str());
            proof {
                assert(bv == tls_bundle(
                    hosts_on(units, socksv[i as int]),
                    strs_view(certified@),
                    challenged_on(chal_view(challenges@), socksv[i as int]),
                ));
            }
            let ghost lv = listeners@;
            let ghost tv = tables@;
            listeners.push(Listener { socket: sock.clone(), opts: ListenerOpts { pass, tls } });
            tables.push(RouteTable { name: sock.clone(), routes });
            proof {
                assert(forall|j: int| 0 <= j < i ==> listeners@[j] == lv[j]);
                assert(forall|j: int| 0 <= j < i ==> tables@[j] == tv[j]);
                assert(listeners@[i as int].socket@ == socksv[i as int]);
                assert(listeners@[i as int].opts@.pass == "routes/"@ + socksv[i as int]);
                assert(listeners@[i as int].opts@.tls == listener_tls(
                    units,
                    socksv[i as int],
                    strs_view(certified@),
                    chal_view(challenges@),
                ));
                assert(tables@[i as int].name@ == socksv[i as int]);
                assert(routes_view(tables@[i as int].routes@) == table_for(
                    units,
                    socksv[i as int],
                ));
                assert forall|j: int|
                    0 <= j < i + 1 implies #[trigger] listeners@[j].socket@ == socksv[j]
                    && listeners@[j].opts@.pass == "routes/"@ + socksv[j]
                    && listeners@[j].opts@.tls == listener_tls(
                    units,
                    socksv[j],
                    strs_view(certified@),
                    chal_view(challenges@),
                ) by {
                    if j < i {
                        assert(listeners@[j] == lv[j]);
                        assert(lv[j].socket@ == socksv[j]);
                    }
                }
            }
            i = i + 1;
        }
        let r = RuntimeConfig { listeners, tables };
        proof {
            assert(r.table_entries().len() == socksv.len());
            assert(r.listener_entries().len() == socksv.len());
            assert(forall|j: int|
                0 <= j < socksv.len() ==> #[trigger] r.table_entries()[j].0 == socksv[j]
                    && r.table_entries()[j].1 == table_for(units, socksv[j]));
            assert(forall|j: int|
                0 <= j < socksv.len() ==> #[trigger] r.listener_entries()[j].0 == socksv[j]);
            assert(r.wf()) by {
                assert(forall|x: int, y: int|
                    0 <= x < y < socksv.len() ==> r.table_entries()[x].0 == socksv[x]
                        && r.table_entries()[y].0 == socksv[y]);
                assert(forall|x: int, y: int|
                    0 <= x < y < socksv.len() ==> r.listener_entries()[x].0 == socksv[x]
                        && r.listener_entries()[y].0 == socksv[y]);
            }
        }
        r
    }
}

/// Every host link in the store, in order, with repetitions.
pub open spec fn flatten_hosts(s: Seq<UnitV>) -> Seq<Seq<char>>
    decreases s.len(),
{
    if s.len() == 0 {
        Seq::empty()
    } else {
        flatten_hosts(s.drop_last()) + s.last().hosts
    }
}

/// Every unique host the store references, first occurrence first.
pub open spec fn store_hosts(s: Seq<UnitV>) -> Seq<Seq<char>> {
    dedup_strs(flatten_hosts(s))
}

impl FactStore {
    /// Every unique host the stored facts reference, first occurrence first:
    /// the hosts whose certificates the lifecycle manager must keep valid.
    pub fn hosts(&self) -> (r: Vec<String>)
        ensures
            strs_view(r@) == store_hosts(self.view_units()),
            distinct_strs(strs_view(r@)),
    {
        let ghost units = self.view_units();
        let mut out: Vec<String> = Vec::new();
        proof {
            assert(units.take(0) =~= Seq::<UnitV>::empty());
            assert(flatten_hosts(units.take(0)) =~= Seq::<Seq<char>>::empty());
            assert(strs_view(out@) =~= dedup_strs(flatten_hosts(units.take(0))));
        }
        let mut i: usize = 0;
        while i < self.units.len()
            invariant
                i <= self.units@.len(),
                units == self.view_units(),
                strs_view(out@) == dedup_strs(flatten_hosts(units.take(i as int))),
            decreases self.units@.len() - i,
        {
            let u = &self.units[i];
            let ghost base = flatten_hosts(units.take(i as int));
            let ghost hs = strs_view(u.hosts@);
            proof {
                assert(units[i as int] == u@);
                assert(base + hs.take(0) =~= base);
            }
            let mut j: usize = 0;
            while j < u.hosts.len()
                invariant
                    j <= u.hosts@.len(),
                    hs == strs_view(u.hosts@),
                    strs_view(out@) == dedup_strs(base + hs.take(j as int)),
                decreases u.hosts@.len() - j,
            {
                let ghost before = strs_view(out@);
                let ghost f = base + hs.take(j as int);
                proof {
                    assert((base + hs.take(j + 1)).drop_last() =~= f);
                    assert((base + hs.take(j + 1)).last() == hs[j as int]);
                    lemma_dedup_contains(f, hs[j as int]);
                }
                let present = contains_str_exec(&out, &u.hosts[j]);
                if !present {
                    out.push(u.hosts[j].clone());
                    proof {
                        assert(strs_view(out@) =~= before.push(hs[j as int]));
                    }
                }
                j = j + 1;
            }
            proof {
                assert(hs.take(hs.len() as int) =~= hs);
                assert(units.take(i + 1).drop_last() =~= units.take(i as int));
                assert(units.take(i + 1).last() == units[i as int]);
                assert(flatten_hosts(units.take(i + 1)) == base + units[i as int].hosts);
                assert(units[i as int].hosts == hs);
            }
            i = i + 1;
        }
        proof {
            assert(units.take(units.len() as int) =~= units);
            lemma_dedup_distinct(flatten_hosts(units));
        }
        out
    }
}
} // verus!
