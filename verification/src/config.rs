use vstd::prelude::*;

use crate::route::{routes_view, Route, RouteV};

verus! {

/// The TLS attachment of a listener: the host domains whose certificates the
/// runtime should serve on that socket.
#[derive(Debug, Clone, PartialEq, Eq)]
pub struct Tls {
    pub certificate: Vec<String>,
}

/// Mathematical model of a [`Tls`] attachment.
pub struct TlsV {
    pub certificate: Seq<Seq<char>>,
}

impl View for Tls {
    type V = TlsV;

    open spec fn view(&self) -> TlsV {
        TlsV { certificate: Seq::new(self.certificate@.len(), |i: int| self.certificate@[i]@) }
    }
}

impl Tls {
    pub fn duplicate(&self) -> (r: Tls)
        ensures
            r@ == self@,
    {
        let mut certificate: Vec<String> = Vec::new();
        let mut i: usize = 0;
        while i < self.certificate.len()
            invariant
                i <= self.certificate@.len(),
                certificate@.len() == i,
                forall|j: int| 0 <= j < i ==> certificate@[j]@ == self.certificate@[j]@,
            decreases self.certificate@.len() - i,
        {
            certificate.push(self.certificate[i].clone());
            i = i + 1;
        }
        let r = Tls { certificate };
        proof {
            assert(r@.certificate =~= self@.certificate);
        }
        r
    }
}

/// What the runtime holds for one listener: the routing table it passes
/// requests to, and an optional TLS attachment.
#[derive(Debug, Clone, PartialEq, Eq)]
pub struct ListenerOpts {
    pub pass: String,
    pub tls: Option<Tls>,
}

/// Mathematical model of [`ListenerOpts`].
pub struct ListenerOptsV {
    pub pass: Seq<char>,
    pub tls: Option<TlsV>,
}

impl View for ListenerOpts {
    type V = ListenerOptsV;

    open spec fn view(&self) -> ListenerOptsV {
        ListenerOptsV {
            pass: self.pass@,
            tls: match self.tls {
                Some(ref t) => Some(t@),
                None => None,
            },
        }
    }
}

impl ListenerOpts {
    pub fn duplicate(&self) -> (r: ListenerOpts)
        ensures
            r@ == self@,
    {
        ListenerOpts {
            pass: self.pass.clone(),
            tls: match &self.tls {
                Some(t) => Some(t.duplicate()),
                None => None,
            },
        }
    }
}

/// One listener of the reconciled document: a socket and its options.
#[derive(Debug, Clone, PartialEq, Eq)]
pub struct Listener {
    pub socket: String,
    pub opts: ListenerOpts,
}

/// One named routing table: an ordered sequence of routes. Order matters:
/// the runtime applies the first route whose condition matches.
#[derive(Debug, Clone, PartialEq, Eq)]
pub struct RouteTable {
    pub name: String,
    pub routes: Vec<Route>,
}

/// The reconciled runtime configuration document: a mapping from listener
/// socket to listener options, and a mapping from table name to its ordered
/// routes. Tables are named by the socket they serve.
#[derive(Debug, Clone, PartialEq, Eq)]
pub struct RuntimeConfig {
    pub listeners: Vec<Listener>,
    pub tables: Vec<RouteTable>,
}

// ---------------------------------------------------------------------------
// Association lists seen as maps.
// ---------------------------------------------------------------------------

/// The map described by a key-value sequence; a later entry with the same key
/// would shadow an earlier one, but well-formed configurations keep keys
/// distinct.
pub open spec fn assoc_map<V>(s: Seq<(Seq<char>, V)>) -> Map<Seq<char>, V>
    decreases s.len(),
{
    if s.len() == 0 {
        Map::empty()
    } else {
        assoc_map(s.drop_last()).insert(s.last().0, s.last().1)
    }
}

/// No two entries share a key.
pub open spec fn unique_keys<V>(s: Seq<(Seq<char>, V)>) -> bool {
    forall|i: int, j: int| 0 <= i < j < s.len() ==> s[i].0 != s[j].0
}

/// A key is in the map exactly when some entry carries it.
pub proof fn lemma_assoc_contains<V>(s: Seq<(Seq<char>, V)>, k: Seq<char>)
    ensures
        assoc_map(s).contains_key(k) <==> exists|i: int| 0 <= i < s.len() && s[i].0 == k,
    decreases s.len(),
{
    if s.len() > 0 {
        lemma_assoc_contains(s.drop_last(), k);
        assert(assoc_map(s) == assoc_map(s.drop_last()).insert(s.last().0, s.last().1));
        if s.last().0 == k {
            assert(s[s.len() - 1].0 == k);
        } else if assoc_map(s).contains_key(k) {
            let i = choose|i: int| 0 <= i < s.drop_last().len() && s.drop_last()[i].0 == k;
            assert(s[i].0 == k);
        } else {
            assert forall|i: int| 0 <= i < s.len() implies s[i].0 != k by {
                if i < s.len() - 1 {
                    assert(s.drop_last()[i] == s[i]);
                }
            }
        }
    }
}

/// With distinct keys, the map sends each entry's key to that entry's value.
pub proof fn lemma_assoc_get<V>(s: Seq<(Seq<char>, V)>, i: int)
    requires
        unique_keys(s),
        0 <= i < s.len(),
    ensures
        assoc_map(s).contains_key(s[i].0),
        assoc_map(s)[s[i].0] == s[i].1,
    decreases s.len(),
{
    assert(assoc_map(s) == assoc_map(s.drop_last()).insert(s.last().0, s.last().1));
    if i == s.len() - 1 {
    } else {
        assert(s.drop_last()[i] == s[i]);
        assert(unique_keys(s.drop_last())) by {
            assert(forall|x: int, y: int|
                0 <= x < y < s.drop_last().len() ==> s.drop_last()[x] == s[x]
                    && s.drop_last()[y] == s[y]);
        }
        lemma_assoc_get(s.drop_last(), i);
        assert(s.last().0 != s[i].0);
    }
}

/// Replacing the value at one entry updates the map at that entry's key.
pub proof fn lemma_assoc_update<V>(s: Seq<(Seq<char>, V)>, i: int, v: V)
    requires
        unique_keys(s),
        0 <= i < s.len(),
    ensures
        unique_keys(s.update(i, (s[i].0, v))),
        assoc_map(s.update(i, (s[i].0, v))) =~= assoc_map(s).insert(s[i].0, v),
    decreases s.len(),
{
    let t = s.update(i, (s[i].0, v));
    assert(forall|j: int| 0 <= j < s.len() ==> #[trigger] t[j].0 == s[j].0);
    if i == s.len() - 1 {
        assert(t.drop_last() =~= s.drop_last());
        assert(assoc_map(t) == assoc_map(t.drop_last()).insert(t.last().0, t.last().1));
        assert(assoc_map(s) == assoc_map(s.drop_last()).insert(s.last().0, s.last().1));
        assert(assoc_map(s).insert(s[i].0, v) =~= assoc_map(s.drop_last()).insert(s[i].0, v));
    } else {
        assert(t.drop_last() =~= s.drop_last().update(i, (s[i].0, v)));
        assert(unique_keys(s.drop_last())) by {
            assert(forall|x: int, y: int|
                0 <= x < y < s.drop_last().len() ==> s.drop_last()[x] == s[x]
                    && s.drop_last()[y] == s[y]);
        }
        assert(s.drop_last()[i] == s[i]);
        lemma_assoc_update(s.drop_last(), i, v);
        assert(t.last() == s.last());
        assert(assoc_map(t) == assoc_map(t.drop_last()).insert(s.last().0, s.last().1));
        // the two inserts commute because the keys differ
        assert(s.last().0 != s[i].0);
        assert(assoc_map(t) =~= assoc_map(s).insert(s[i].0, v));
    }
}

/// Appending a fresh entry inserts its key into the map.
pub proof fn lemma_assoc_push<V>(s: Seq<(Seq<char>, V)>, k: Seq<char>, v: V)
    ensures
        assoc_map(s.push((k, v))) =~= assoc_map(s).insert(k, v),
{
    assert(s.push((k, v)).drop_last() =~= s);
}

// ---------------------------------------------------------------------------
// The model of a configuration.
// ---------------------------------------------------------------------------

impl RuntimeConfig {
    /// The listener entries as (socket, options) pairs, in document order.
    pub open spec fn listener_entries(&self) -> Seq<(Seq<char>, ListenerOptsV)> {
        Seq::new(self.listeners@.len(), |i: int| (self.listeners@[i].socket@, self.listeners@[i].opts@))
    }

    /// The table entries as (name, routes) pairs, in document order.
    pub open spec fn table_entries(&self) -> Seq<(Seq<char>, Seq<RouteV>)> {
        Seq::new(
            self.tables@.len(),
            |i: int| (self.tables@[i].name@, routes_view(self.tables@[i].routes@)),
        )
    }

    /// The listener mapping of the document.
    pub open spec fn listeners_map(&self) -> Map<Seq<char>, ListenerOptsV> {
        assoc_map(self.listener_entries())
    }

    /// The table mapping of the document.
    pub open spec fn tables_map(&self) -> Map<Seq<char>, Seq<RouteV>> {
        assoc_map(self.table_entries())
    }

    /// Well-formed documents name each listener and each table once.
    pub open spec fn wf(&self) -> bool {
        unique_keys(self.listener_entries()) && unique_keys(self.table_entries())
    }

    /// An empty configuration.
    pub fn empty() -> (r: RuntimeConfig)
        ensures
            r.wf(),
            r.listeners_map() =~= Map::<Seq<char>, ListenerOptsV>::empty(),
            r.tables_map() =~= Map::<Seq<char>, Seq<RouteV>>::empty(),
    {
        let r = RuntimeConfig { listeners: Vec::new(), tables: Vec::new() };
        proof {
            assert(r.listener_entries() =~= Seq::empty());
            assert(r.table_entries() =~= Seq::empty());
        }
        r
    }

    /// The index of the listener entry for a socket, if any.
    pub fn find_listener(&self, socket: &String) -> (r: Option<usize>)
        ensures
            match r {
                Some(i) => i < self.listeners@.len() && self.listeners@[i as int].socket@
                    == socket@,
                None => !self.listeners_map().contains_key(socket@),
            },
    {
        let mut i: usize = 0;
        while i < self.listeners.len()
            invariant
                i <= self.listeners@.len(),
                forall|j: int| 0 <= j < i ==> self.listeners@[j].socket@ != socket@,
            decreases self.listeners@.len() - i,
        {
            if self.listeners[i].socket == *socket {
                return Some(i);
            }
            i = i + 1;
        }
        proof {
            lemma_assoc_contains(self.listener_entries(), socket@);
        }
        None
    }

    /// The index of the table with a name, if any.
    pub fn find_table(&self, name: &String) -> (r: Option<usize>)
        ensures
            match r {
                Some(i) => i < self.tables@.len() && self.tables@[i as int].name@ == name@,
                None => !self.tables_map().contains_key(name@),
            },
    {
        let mut i: usize = 0;
        while i < self.tables.len()
            invariant
                i <= self.tables@.len(),
                forall|j: int| 0 <= j < i ==> self.tables@[j].name@ != name@,
            decreases self.tables@.len() - i,
        {
            if self.tables[i].name == *name {
                return Some(i);
            }
            i = i + 1;
        }
        proof {
            lemma_assoc_contains(self.table_entries(), name@);
        }
        None
    }

    /// Write the options for a socket, overwriting any present entry.
    pub fn set_listener(&mut self, socket: String, opts: ListenerOpts)
        requires
            old(self).wf(),
        ensures
            final(self).wf(),
            final(self).listeners_map() =~= old(self).listeners_map().insert(socket@, opts@),
            final(self).table_entries() == old(self).table_entries(),
    {
        let ghost entries = self.listener_entries();
        match self.find_listener(&socket) {
            Some(i) => {
                let ghost iv = i as int;
                self.listeners.remove(i);
                let ghost k = entries[iv].0;
                self.listeners.insert(i, Listener { socket, opts });
                proof {
                    assert(self.listener_entries() =~~= entries.update(iv, (k, opts@)));
                    lemma_assoc_update(entries, iv, opts@);
                }
            },
            None => {
                self.listeners.push(Listener { socket, opts });
                proof {
                    assert(self.listener_entries() =~~= entries.push((socket@, opts@)));
                    lemma_assoc_push(entries, socket@, opts@);
                    assert(unique_keys(self.listener_entries())) by {
                        lemma_assoc_contains(entries, socket@);
                        assert(forall|j: int|
                            0 <= j < entries.len() ==> #[trigger] self.listener_entries()[j].0
                                == entries[j].0);
                    }
                }
            },
        }
    }

    /// Provision an empty table under a name, when none exists yet.
    pub fn ensure_table(&mut self, name: &String)
        requires
            old(self).wf(),
        ensures
            final(self).wf(),
            old(self).tables_map().contains_key(name@) ==> final(self).tables_map() =~= old(
                self,
            ).tables_map(),
            !old(self).tables_map().contains_key(name@) ==> final(self).tables_map() =~= old(
                self,
            ).tables_map().insert(name@, Seq::<RouteV>::empty()),
            final(self).listener_entries() == old(self).listener_entries(),
    {
        let ghost entries = self.table_entries();
        match self.find_table(name) {
            Some(i) => {
                proof {
                    assert(entries[i as int].0 == name@);
                    lemma_assoc_contains(entries, name@);
                }
            },
            None => {
                self.tables.push(RouteTable { name: name.clone(), routes: Vec::new() });
                proof {
                    assert(self.table_entries() =~~= entries.push((name@, Seq::<RouteV>::empty())));
                    lemma_assoc_push(entries, name@, Seq::<RouteV>::empty());
                    assert(unique_keys(self.table_entries())) by {
                        lemma_assoc_contains(entries, name@);
                        assert(forall|j: int|
                            0 <= j < entries.len() ==> #[trigger] self.table_entries()[j].0
                                == entries[j].0);
                    }
                }
            },
        }
    }

    /// Write the routes of a table, overwriting any table of that name and
    /// creating the table when absent.
    pub fn set_table(&mut self, name: String, routes: Vec<Route>)
        requires
            old(self).wf(),
        ensures
            final(self).wf(),
            final(self).tables_map() =~~= old(self).tables_map().insert(
                name@,
                routes_view(routes@),
            ),
            final(self).listener_entries() == old(self).listener_entries(),
    {
        let ghost entries = self.table_entries();
        match self.find_table(&name) {
            Some(i) => {
                let ghost iv = i as int;
                self.tables.remove(i);
                let ghost k = entries[iv].0;
                self.tables.insert(i, RouteTable { name, routes });
                proof {
                    assert(self.table_entries() =~~= entries.update(
                        iv,
                        (k, routes_view(self.tables@[iv].routes@)),
                    ));
                    lemma_assoc_update(entries, iv, routes_view(self.tables@[iv].routes@));
                }
            },
            None => {
                self.tables.push(RouteTable { name, routes });
                let ghost last = self.table_entries().last();
                proof {
                    assert(self.table_entries() =~~= entries.push(last));
                    lemma_assoc_push(entries, last.0, last.1);
                    assert(unique_keys(self.table_entries())) by {
                        lemma_assoc_contains(entries, last.0);
                        assert(forall|j: int|
                            0 <= j < entries.len() ==> #[trigger] self.table_entries()[j].0
                                == entries[j].0);
                    }
                }
            },
        }
    }

    /// Append a route at the end of the table with the given name.
    pub fn push_route(&mut self, name: &String, route: Route)
        requires
            old(self).wf(),
            old(self).tables_map().contains_key(name@),
        ensures
            final(self).wf(),
            final(self).tables_map() =~= old(self).tables_map().insert(
                name@,
                old(self).tables_map()[name@].push(route@),
            ),
            final(self).listener_entries() == old(self).listener_entries(),
    {
        let ghost entries = self.table_entries();
        match self.find_table(name) {
            Some(i) => {
                let ghost iv = i as int;
                let mut entry = self.tables.remove(i);
                entry.routes.push(route);
                self.tables.insert(i, entry);
                proof {
                    assert(self.table_entries() =~~= entries.update(
                        iv,
                        (entries[iv].0, entries[iv].1.push(route@)),
                    ));
                    lemma_assoc_update(entries, iv, entries[iv].1.push(route@));
                    lemma_assoc_get(entries, iv);
                }
            },
            None => {
                proof {
                    assert(false);
                }
            },
        }
    }

    /// A copy of the routes of the named table, in order; `None` when the
    /// table does not exist.
    pub fn table_routes(&self, name: &String) -> (r: Option<&Vec<Route>>)
        requires
            self.wf(),
        ensures
            match r {
                Some(v) => self.tables_map().contains_key(name@) && routes_view(v@)
                    == self.tables_map()[name@],
                None => !self.tables_map().contains_key(name@),
            },
    {
        match self.find_table(name) {
            Some(i) => {
                proof {
                    lemma_assoc_get(self.table_entries(), i as int);
                }
                Some(&self.tables[i].routes)
            },
            None => None,
        }
    }

    /// The options of the listener on a socket; `None` when absent.
    pub fn listener_opts(&self, socket: &String) -> (r: Option<&ListenerOpts>)
        requires
            self.wf(),
        ensures
            match r {
                Some(o) => self.listeners_map().contains_key(socket@) && o@
                    == self.listeners_map()[socket@],
                None => !self.listeners_map().contains_key(socket@),
            },
    {
        match self.find_listener(socket) {
            Some(i) => {
                proof {
                    lemma_assoc_get(self.listener_entries(), i as int);
                }
                Some(&self.listeners[i].opts)
            },
            None => None,
        }
    }

    /// A structurally equal copy of the document.
    pub fn duplicate(&self) -> (r: RuntimeConfig)
        ensures
            r.listener_entries() == self.listener_entries(),
            r.table_entries() == self.table_entries(),
    {
        let mut listeners: Vec<Listener> = Vec::new();
        let mut i: usize = 0;
        while i < self.listeners.len()
            invariant
                i <= self.listeners@.len(),
                listeners@.len() == i,
                forall|j: int|
                    0 <= j < i ==> #[trigger] listeners@[j].socket@ == self.listeners@[j].socket@
                        && listeners@[j].opts@ == self.listeners@[j].opts@,
            decreases self.listeners@.len() - i,
        {
            let e = &self.listeners[i];
            listeners.push(Listener { socket: e.socket.clone(), opts: e.opts.duplicate() });
            i = i + 1;
        }
        let mut tables: Vec<RouteTable> = Vec::new();
        let mut i: usize = 0;
        while i < self.tables.len()
            invariant
                i <= self.tables@.len(),
                tables@.len() == i,
                forall|j: int|
                    0 <= j < i ==> #[trigger] tables@[j].name@ == self.tables@[j].name@
                        && routes_view(tables@[j].routes@) == routes_view(self.tables@[j].routes@),
            decreases self.tables@.len() - i,
        {
            let e = &self.tables[i];
            let mut routes: Vec<Route> = Vec::new();
            let mut l: usize = 0;
            while l < e.routes.len()
                invariant
                    l <= e.routes@.len(),
                    routes@.len() == l,
                    forall|m: int| 0 <= m < l ==> #[trigger] routes@[m]@ == e.routes@[m]@,
                decreases e.routes@.len() - l,
            {
                routes.push(e.routes[l].duplicate());
                l = l + 1;
            }
            proof {
                assert(routes_view(routes@) =~= routes_view(e.routes@));
            }
            tables.push(RouteTable { name: e.name.clone(), routes });
            i = i + 1;
        }
        let r = RuntimeConfig { listeners, tables };
        proof {
            assert(r.listener_entries() =~~= self.listener_entries());
            assert(r.table_entries() =~~= self.table_entries());
        }
        r
    }
}

impl Default for RuntimeConfig {
    /// The default document provisions the usual web tables, empty, with no
    /// listeners: the runtime always has somewhere to pass web requests.
    fn default() -> (r: RuntimeConfig)
        ensures
            r.wf(),
            r.listeners_map() =~= Map::<Seq<char>, ListenerOptsV>::empty(),
            r.tables_map() =~= Map::<Seq<char>, Seq<RouteV>>::empty().insert(
                "*:80"@,
                Seq::<RouteV>::empty(),
            ).insert("*:443"@, Seq::<RouteV>::empty()),
    {
        let mut r = RuntimeConfig::empty();
        let http = String::from_str("*:80");
        let https = String::from_str("*:443");
        r.ensure_table(&http);
        r.ensure_table(&https);
        r
    }
}

} // verus!
