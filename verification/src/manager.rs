//! The connection manager: partitioning of per-server startup outcomes,
//! aggregation of per-server tool listings into one collision-free catalog,
//! and the lookup that invocation starts from.
//!
//! Spawning, the capability handshake and the tool-list requests run outside
//! this crate; the functions here take every per-server outcome as a value
//! and decide what the manager holds: which servers are live, which land in
//! the startup-error map, and what the catalog contains.

use vstd::prelude::*;

use crate::names::is_valid_name;
use crate::names::valid_name;
use crate::qualified::encode_spec;
use crate::qualified::fully_qualified_tool_name;

verus! {

broadcast use vstd::seq_lib::group_filter_ensures, Seq::filter_distributes_over_add;

/// How to launch one configured server: command, arguments, and optional
/// environment overrides.
pub struct McpServerConfig {
    pub command: String,
    pub args: Vec<String>,
    pub env: Option<Vec<(String, String)>>,
}

/// A tool descriptor as one server reported it. The manager reads only the
/// name; the rest of the descriptor rides along as opaque text.
#[derive(Debug)]
pub struct Tool {
    pub name: String,
    pub schema: String,
}

/// A tool descriptor by view: its name and its opaque remainder.
pub open spec fn tool_view(t: Tool) -> (Seq<char>, Seq<char>) {
    (t.name@, t.schema@)
}

/// The views of one server's reported tools.
pub open spec fn tools_view(s: Seq<Tool>) -> Seq<(Seq<char>, Seq<char>)> {
    s.map_values(|t: Tool| tool_view(t))
}

/// The names of a sequence of keyed entries, as character sequences.
pub open spec fn entry_names<T>(s: Seq<(String, T)>) -> Seq<Seq<char>> {
    s.map_values(|p: (String, T)| p.0@)
}

/// The views of a sequence of strings.
pub open spec fn str_views(s: Seq<String>) -> Seq<Seq<char>> {
    s.map_values(|n: String| n@)
}

/// A catalog by view: (fully-qualified name, tool view) pairs.
pub open spec fn catalog_view(cat: Seq<(String, Tool)>) -> Seq<(Seq<char>, (Seq<char>, Seq<char>))> {
    cat.map_values(|p: (String, Tool)| (p.0@, tool_view(p.1)))
}

/// The listings by view: (server name, reported tool views) pairs.
pub open spec fn listings_view(l: Seq<(String, Vec<Tool>)>) -> Seq<
    (Seq<char>, Seq<(Seq<char>, Seq<char>)>),
> {
    l.map_values(|p: (String, Vec<Tool>)| (p.0@, tools_view(p.1@)))
}

/// Whether `key` is already a key of the catalog.
pub open spec fn catalog_has_key(
    cat: Seq<(Seq<char>, (Seq<char>, Seq<char>))>,
    key: Seq<char>,
) -> bool {
    exists|i: int| 0 <= i < cat.len() && cat[i].0 == key
}

/// Folds one server's reported tools into the catalog: a tool with an
/// invalid name is dropped; a valid one is keyed by its fully-qualified name;
/// a key already present is a namespace collision and stops aggregation.
pub open spec fn aggregate_server_spec(
    server: Seq<char>,
    tools: Seq<(Seq<char>, Seq<char>)>,
    acc: Seq<(Seq<char>, (Seq<char>, Seq<char>))>,
) -> Result<Seq<(Seq<char>, (Seq<char>, Seq<char>))>, Seq<char>>
    decreases tools.len(),
{
    if tools.len() == 0 {
        Ok(acc)
    } else if !is_valid_name(tools[0].0) {
        aggregate_server_spec(server, tools.drop_first(), acc)
    } else {
        let key = encode_spec(server, tools[0].0);
        if catalog_has_key(acc, key) {
            Err(key)
        } else {
            aggregate_server_spec(server, tools.drop_first(), acc.push((key, tools[0])))
        }
    }
}

/// Folds every server's listing into the catalog, in listing order.
pub open spec fn aggregate_all_spec(
    listings: Seq<(Seq<char>, Seq<(Seq<char>, Seq<char>)>)>,
    acc: Seq<(Seq<char>, (Seq<char>, Seq<char>))>,
) -> Result<Seq<(Seq<char>, (Seq<char>, Seq<char>))>, Seq<char>>
    decreases listings.len(),
{
    if listings.len() == 0 {
        Ok(acc)
    } else {
        match aggregate_server_spec(listings[0].0, listings[0].1, acc) {
            Err(key) => Err(key),
            Ok(acc2) => aggregate_all_spec(listings.drop_first(), acc2),
        }
    }
}

/// Whether `key` is a key of the executable catalog.
fn catalog_contains(cat: &Vec<(String, Tool)>, key: &String) -> (r: bool)
    ensures
        r == catalog_has_key(catalog_view(cat@), key@),
{
    let n: usize = cat.len();
    let mut i: usize = 0;
    while i < n
        invariant
            n == cat@.len(),
            i <= n,
            forall|j: int| 0 <= j < i ==> catalog_view(cat@)[j].0 != key@,
        decreases n - i,
    {
        if cat[i].0 == *key {
            assert(catalog_view(cat@)[i as int].0 == key@);
            return true;
        }
        assert(catalog_view(cat@)[i as int].0 == cat@[i as int].0@);
        i = i + 1;
    }
    false
}

/// Merges the per-server tool listings into one catalog keyed by
/// fully-qualified name. A tool whose name is invalid is dropped; two tools
/// that map to the same key are a namespace collision, returned as the
/// offending key.
pub fn list_all_tools(listings: &Vec<(String, Vec<Tool>)>) -> (r: Result<
    Vec<(String, Tool)>,
    String,
>)
    ensures
        match r {
            Ok(cat) => aggregate_all_spec(listings_view(listings@), Seq::empty()) == Ok::<
                _,
                Seq<char>,
            >(catalog_view(cat@)),
            Err(key) => aggregate_all_spec(listings_view(listings@), Seq::empty()) == Err::<
                Seq<(Seq<char>, (Seq<char>, Seq<char>))>,
                _,
            >(key@),
        },
{
    let ghost lv = listings_view(listings@);
    let mut cat: Vec<(String, Tool)> = Vec::new();
    let n: usize = listings.len();
    let mut i: usize = 0;
    assert(lv.skip(0) =~= lv);
    assert(catalog_view(cat@) =~= Seq::<(Seq<char>, (Seq<char>, Seq<char>))>::empty());
    while i < n
        invariant
            n == listings@.len(),
            lv == listings_view(listings@),
            i <= n,
            aggregate_all_spec(lv, Seq::empty()) == aggregate_all_spec(
                lv.skip(i as int),
                catalog_view(cat@),
            ),
        decreases n - i,
    {
        let server: String = listings[i].0.clone();
        let ghost tv = tools_view(listings@[i as int].1@);
        let ghost cat0 = catalog_view(cat@);
        proof {
            assert(lv.skip(i as int)[0] == (listings@[i as int].0@, tv));
            assert(lv.skip(i as int).drop_first() =~= lv.skip(i + 1));
        }
        let m: usize = listings[i].1.len();
        let mut j: usize = 0;
        assert(tv.skip(0) =~= tv);
        while j < m
            invariant
                n == listings@.len(),
                lv == listings_view(listings@),
                i < n,
                m == listings@[i as int].1@.len(),
                tv == tools_view(listings@[i as int].1@),
                server@ == listings@[i as int].0@,
                j <= m,
                aggregate_all_spec(lv, Seq::empty()) == aggregate_all_spec(
                    lv.skip(i as int),
                    cat0,
                ),
                aggregate_server_spec(server@, tv, cat0) == aggregate_server_spec(
                    server@,
                    tv.skip(j as int),
                    catalog_view(cat@),
                ),
            decreases m - j,
        {
            proof {
                assert(tv.skip(j as int)[0] == tv[j as int]);
                assert(tv.skip(j as int).drop_first() =~= tv.skip(j + 1));
                assert(tv[j as int] == tool_view(listings@[i as int].1@[j as int]));
            }
            let tname: String = listings[i].1[j].name.clone();
            if valid_name(tname.as_str()) {
                let key: String = fully_qualified_tool_name(server.as_str(), tname.as_str());
                if catalog_contains(&cat, &key) {
                    proof {
                        assert(aggregate_server_spec(server@, tv.skip(j as int), catalog_view(cat@))
                            == Err::<Seq<(Seq<char>, (Seq<char>, Seq<char>))>, Seq<char>>(key@));
                        assert(lv.skip(i as int)[0] == (server@, tv));
                        assert(aggregate_all_spec(lv.skip(i as int), cat0) == Err::<
                            Seq<(Seq<char>, (Seq<char>, Seq<char>))>,
                            Seq<char>,
                        >(key@));
                    }
                    return Err(key);
                }
                let tool_copy = Tool {
                    name: tname,
                    schema: listings[i].1[j].schema.clone(),
                };
                let ghost pre = catalog_view(cat@);
                cat.push((key, tool_copy));
                proof {
                    assert(catalog_view(cat@) =~= pre.push(
                        (encode_spec(server@, tv[j as int].0), tv[j as int]),
                    ));
                }
            }
            j = j + 1;
        }
        proof {
            assert(tv.skip(m as int) =~= Seq::<(Seq<char>, Seq<char>)>::empty());
        }
        i = i + 1;
    }
    proof {
        assert(lv.skip(n as int) =~= Seq::<(Seq<char>, Seq<(Seq<char>, Seq<char>)>)>::empty());
    }
    Ok(cat)
}

/// The startup-error message recorded for a server whose name is invalid.
pub open spec fn invalid_name_msg() -> Seq<char> {
    "invalid server name; must match ^[a-zA-Z0-9_-]+$"@
}

/// The error message for an invocation against a server with no live session.
pub open spec fn unknown_server_msg(server: Seq<char>) -> Seq<char> {
    "unknown MCP server '"@ + server + "'"@
}

/// The configured names that pass validation, in configuration order.
pub open spec fn valid_names(c: Seq<(String, McpServerConfig)>) -> Seq<Seq<char>> {
    entry_names(c).filter(|n: Seq<char>| is_valid_name(n))
}

/// The startup-error entries for the configured names that fail validation.
pub open spec fn invalid_error_entries(c: Seq<(String, McpServerConfig)>) -> Seq<
    (Seq<char>, Seq<char>),
> {
    c.filter(|p: (String, McpServerConfig)| !is_valid_name(p.0@)).map_values(
        |p: (String, McpServerConfig)| (p.0@, invalid_name_msg()),
    )
}

/// The names of the servers whose spawn and handshake succeeded.
pub open spec fn ready_names(o: Seq<(String, Option<String>)>) -> Seq<Seq<char>> {
    o.filter(|p: (String, Option<String>)| p.1 is None).map_values(
        |p: (String, Option<String>)| p.0@,
    )
}

/// The startup-error entries for the servers whose spawn or handshake failed.
pub open spec fn failed_error_entries(o: Seq<(String, Option<String>)>) -> Seq<
    (Seq<char>, Seq<char>),
> {
    o.filter(|p: (String, Option<String>)| p.1 is Some).map_values(
        |p: (String, Option<String>)| (p.0@, p.1->0@),
    )
}

/// The views of a sequence of (name, message) error entries.
pub open spec fn error_entries_view(e: Seq<(String, String)>) -> Seq<(Seq<char>, Seq<char>)> {
    e.map_values(|p: (String, String)| (p.0@, p.1@))
}

/// The names of a sequence of error entries.
pub open spec fn error_names(e: Seq<(Seq<char>, Seq<char>)>) -> Seq<Seq<char>> {
    e.map_values(|p: (Seq<char>, Seq<char>)| p.0)
}

proof fn lemma_filter_singleton<A>(x: A, pred: spec_fn(A) -> bool)
    ensures
        seq![x].filter(pred) == if pred(x) {
            seq![x]
        } else {
            Seq::<A>::empty()
        },
{
    reveal(Seq::filter);
    assert(seq![x].drop_last() =~= Seq::<A>::empty());
    assert(Seq::<A>::empty().filter(pred) =~= Seq::<A>::empty());
    if pred(x) {
        assert(seq![x].filter(pred) =~= seq![x]);
    }
}

proof fn lemma_map_values_add<A, B>(a: Seq<A>, b: Seq<A>, f: spec_fn(A) -> B)
    ensures
        (a + b).map_values(f) =~= a.map_values(f) + b.map_values(f),
{
}

proof fn lemma_map_contains<A, B>(s: Seq<A>, f: spec_fn(A) -> B, i: int)
    requires
        0 <= i < s.len(),
    ensures
        s.map_values(f).contains(f(s[i])),
{
    assert(s.map_values(f)[i] == f(s[i]));
}

proof fn lemma_filter_subset<A>(s: Seq<A>, pred: spec_fn(A) -> bool, x: A)
    requires
        s.filter(pred).contains(x),
    ensures
        s.contains(x),
    decreases s.len(),
{
    reveal(Seq::filter);
    if s.len() > 0 {
        if pred(s.last()) && x == s.last() {
            assert(s[s.len() - 1] == x);
        } else {
            assert(s.drop_last().filter(pred).contains(x)) by {
                if pred(s.last()) {
                    let out = s.drop_last().filter(pred).push(s.last());
                    let k = choose|k: int| 0 <= k < out.len() && out[k] == x;
                    assert(out[k] == s.drop_last().filter(pred)[k]);
                }
            }
            lemma_filter_subset(s.drop_last(), pred, x);
            assert(s.contains(x)) by {
                let k = choose|k: int| 0 <= k < s.drop_last().len() && s.drop_last()[k] == x;
                assert(s[k] == x);
            }
        }
    }
}

proof fn lemma_filter_no_dup<A>(s: Seq<A>, pred: spec_fn(A) -> bool)
    requires
        s.no_duplicates(),
    ensures
        s.filter(pred).no_duplicates(),
    decreases s.len(),
{
    reveal(Seq::filter);
    if s.len() > 0 {
        assert(s.drop_last().no_duplicates());
        lemma_filter_no_dup(s.drop_last(), pred);
        if pred(s.last()) {
            assert(!s.drop_last().filter(pred).contains(s.last())) by {
                if s.drop_last().filter(pred).contains(s.last()) {
                    lemma_filter_subset(s.drop_last(), pred, s.last());
                    let k = choose|k: int|
                        0 <= k < s.drop_last().len() && s.drop_last()[k] == s.last();
                    assert(s[k] == s[s.len() - 1]);
                }
            }
            let out = s.drop_last().filter(pred).push(s.last());
            assert(out.no_duplicates()) by {
                let inner = s.drop_last().filter(pred);
                assert forall|i: int, j: int|
                    0 <= i < out.len() && 0 <= j < out.len() && i != j implies out[i]
                    != out[j] by {
                    if i < inner.len() && j < inner.len() {
                        assert(out[i] == inner[i] && out[j] == inner[j]);
                    } else if i < inner.len() {
                        assert(out[i] == inner[i] && out[j] == s.last());
                        assert(inner.contains(inner[i]));
                    } else if j < inner.len() {
                        assert(out[j] == inner[j] && out[i] == s.last());
                        assert(inner.contains(inner[j]));
                    }
                }
            }
        }
    }
}

/// The connection manager: the servers with a live session, and the
/// aggregated tool catalog. Both are built once, at construction, and
/// read-only afterwards; the session handles themselves are owned by the
/// caller, in the same order as `clients`.
pub struct McpConnectionManager {
    /// Names of the servers whose spawn and handshake succeeded.
    pub clients: Vec<String>,
    /// Fully-qualified tool name, with the tool each key names.
    pub tools: Vec<(String, Tool)>,
}

impl McpConnectionManager {
    /// Assembles the manager from the per-server startup outcomes and the
    /// per-server tool listings.
    ///
    /// `configured` is the full configuration; `outcomes` holds, for each
    /// configured server whose name passed validation, either no cause (the
    /// server is ready) or its spawn/handshake failure cause; `listings`
    /// holds the reported tools of each ready server. A configured name that
    /// fails validation is never spawned and lands in the error map with the
    /// validator's message; a spawn or handshake failure lands in the error
    /// map with its cause; a namespace collision during aggregation is fatal
    /// and returns the offending fully-qualified name instead.
    pub fn new(
        configured: &Vec<(String, McpServerConfig)>,
        outcomes: &Vec<(String, Option<String>)>,
        listings: &Vec<(String, Vec<Tool>)>,
    ) -> (r: Result<(Self, Vec<(String, String)>), String>)
        requires
            entry_names(configured@).no_duplicates(),
            entry_names(outcomes@) == valid_names(configured@),
            entry_names(listings@) == ready_names(outcomes@),
        ensures
            match r {
                Ok(p) => {
                    &&& str_views(p.0.clients@) == ready_names(outcomes@)
                    &&& error_entries_view(p.1@) == invalid_error_entries(configured@)
                        + failed_error_entries(outcomes@)
                    &&& aggregate_all_spec(listings_view(listings@), Seq::empty()) == Ok::<
                        _,
                        Seq<char>,
                    >(catalog_view(p.0.tools@))
                },
                Err(key) => aggregate_all_spec(listings_view(listings@), Seq::empty()) == Err::<
                    Seq<(Seq<char>, (Seq<char>, Seq<char>))>,
                    _,
                >(key@),
            },
    {
        let mut errors: Vec<(String, String)> = Vec::new();
        let n: usize = configured.len();
        let mut i: usize = 0;
        assert(configured@.take(0) =~= Seq::<(String, McpServerConfig)>::empty());
        assert(error_entries_view(errors@) =~= invalid_error_entries(configured@.take(0)));
        while i < n
            invariant
                n == configured@.len(),
                i <= n,
                error_entries_view(errors@) == invalid_error_entries(configured@.take(i as int)),
            decreases n - i,
        {
            proof {
                lemma_config_take_step(configured@, i as int);
            }
            let name: &String = &configured[i].0;
            if !valid_name(name.as_str()) {
                let msg: String = String::from_str("invalid server name; must match ^[a-zA-Z0-9_-]+$");
                let ghost pre = errors@;
                errors.push((name.clone(), msg));
                proof {
                    assert(error_entries_view(errors@) =~= error_entries_view(pre).push(
                        (configured@[i as int].0@, invalid_name_msg()),
                    ));
                    assert(invalid_error_entries(configured@.take(i + 1))
                        =~= invalid_error_entries(configured@.take(i as int)).push(
                        (configured@[i as int].0@, invalid_name_msg()),
                    ));
                }
            } else {
                proof {
                    assert(invalid_error_entries(configured@.take(i + 1))
                        =~= invalid_error_entries(configured@.take(i as int)));
                }
            }
            i = i + 1;
        }
        proof {
            assert(configured@.take(n as int) =~= configured@);
        }
        let mut clients: Vec<String> = Vec::new();
        let on: usize = outcomes.len();
        let mut k: usize = 0;
        assert(outcomes@.take(0) =~= Seq::<(String, Option<String>)>::empty());
        assert(str_views(clients@) =~= ready_names(outcomes@.take(0)));
        assert(failed_error_entries(outcomes@.take(0)) =~= Seq::<(Seq<char>, Seq<char>)>::empty());
        assert(error_entries_view(errors@) =~= invalid_error_entries(configured@)
            + failed_error_entries(outcomes@.take(0)));
        while k < on
            invariant
                on == outcomes@.len(),
                k <= on,
                str_views(clients@) == ready_names(outcomes@.take(k as int)),
                error_entries_view(errors@) == invalid_error_entries(configured@)
                    + failed_error_entries(outcomes@.take(k as int)),
            decreases on - k,
        {
            proof {
                lemma_outcome_take_step(outcomes@, k as int);
            }
            let entry_name: String = outcomes[k].0.clone();
            if outcomes[k].1.is_some() {
                let cause: String = outcomes[k].1.as_ref().unwrap().clone();
                let ghost pre = errors@;
                errors.push((entry_name, cause));
                proof {
                    assert(error_entries_view(errors@) =~= error_entries_view(pre).push(
                        (outcomes@[k as int].0@, outcomes@[k as int].1->0@),
                    ));
                    assert(invalid_error_entries(configured@) + failed_error_entries(
                        outcomes@.take(k + 1),
                    ) =~= (invalid_error_entries(configured@) + failed_error_entries(
                        outcomes@.take(k as int),
                    )).push((outcomes@[k as int].0@, outcomes@[k as int].1->0@)));
                    assert(str_views(clients@) =~= ready_names(outcomes@.take(k + 1)));
                }
            } else {
                let ghost pre = clients@;
                clients.push(entry_name);
                proof {
                    assert(str_views(clients@) =~= str_views(pre).push(outcomes@[k as int].0@));
                    assert(ready_names(outcomes@.take(k + 1)) =~= ready_names(
                        outcomes@.take(k as int),
                    ).push(outcomes@[k as int].0@));
                    assert(failed_error_entries(outcomes@.take(k + 1)) =~= failed_error_entries(
                        outcomes@.take(k as int),
                    ));
                }
            }
            k = k + 1;
        }
        proof {
            assert(outcomes@.take(on as int) =~= outcomes@);
        }
        let tools: Vec<(String, Tool)> = match list_all_tools(listings) {
            Ok(t) => t,
            Err(key) => {
                return Err(key);
            },
        };
        Ok((McpConnectionManager { clients, tools }, errors))
    }

    /// Returns an independent copy of the tool catalog snapshot.
    pub fn list_all_tools(&self) -> (r: Vec<(String, Tool)>)
        ensures
            catalog_view(r@) == catalog_view(self.tools@),
    {
        let n: usize = self.tools.len();
        let mut out: Vec<(String, Tool)> = Vec::new();
        let mut i: usize = 0;
        assert(catalog_view(out@) =~= catalog_view(self.tools@).take(0));
        while i < n
            invariant
                n == self.tools@.len(),
                i <= n,
                catalog_view(out@) == catalog_view(self.tools@).take(i as int),
            decreases n - i,
        {
            let key: String = self.tools[i].0.clone();
            let tool = Tool {
                name: self.tools[i].1.name.clone(),
                schema: self.tools[i].1.schema.clone(),
            };
            let ghost pre = out@;
            out.push((key, tool));
            proof {
                assert(catalog_view(out@) =~= catalog_view(pre).push(
                    catalog_view(self.tools@)[i as int],
                ));
                assert(catalog_view(self.tools@).take(i + 1) =~= catalog_view(
                    self.tools@,
                ).take(i as int).push(catalog_view(self.tools@)[i as int]));
            }
            i = i + 1;
        }
        proof {
            assert(catalog_view(self.tools@).take(n as int) =~= catalog_view(self.tools@));
        }
        out
    }

    /// Looks up the live session for `server`: the index of the caller-held
    /// session handle to invoke `tool` on. Fails with the lookup error, and
    /// consults nothing else, when no live session bears that name; the
    /// catalog is not consulted either way.
    #[allow(unused_variables)]
    pub fn call_tool(&self, server: &str, tool: &str) -> (r: Result<usize, String>)
        ensures
            match r {
                Ok(i) => i < self.clients@.len() && self.clients@[i as int]@ == server@,
                Err(m) => {
                    &&& !str_views(self.clients@).contains(server@)
                    &&& m@ == unknown_server_msg(server@)
                },
            },
    {
        let server_string: String = server.to_owned();
        let n: usize = self.clients.len();
        let mut i: usize = 0;
        while i < n
            invariant
                server_string@ == server@,
                n == self.clients@.len(),
                i <= n,
                forall|j: int| 0 <= j < i ==> self.clients@[j]@ != server@,
            decreases n - i,
        {
            if self.clients[i] == server_string {
                return Ok(i);
            }
            i = i + 1;
        }
        proof {
            if str_views(self.clients@).contains(server@) {
                let j = choose|j: int|
                    0 <= j < str_views(self.clients@).len() && str_views(self.clients@)[j]
                        == server@;
                assert(self.clients@[j]@ == server@);
            }
        }
        let msg: String = String::from_str("unknown MCP server '");
        let msg: String = msg.concat(server);
        let msg: String = msg.concat("'");
        Err(msg)
    }
}

/// The error context recorded around a failed invocation, identifying the
/// server and tool it was for.
pub open spec fn call_failure_msg(server: Seq<char>, tool: Seq<char>, cause: Seq<char>) -> Seq<
    char,
> {
    "tool call failed for `"@ + server + "/"@ + tool + "`: "@ + cause
}

/// Wraps a transport, timeout or tool-level failure reported for one
/// invocation with context identifying the (server, tool) pair it was for.
pub fn tool_call_error_context(server: &str, tool: &str, cause: &str) -> (r: String)
    ensures
        r@ == call_failure_msg(server@, tool@, cause@),
{
    let msg: String = String::from_str("tool call failed for `");
    let msg: String = msg.concat(server);
    let msg: String = msg.concat("/");
    let msg: String = msg.concat(tool);
    let msg: String = msg.concat("`: ");
    msg.concat(cause)
}

proof fn lemma_config_take_step(c: Seq<(String, McpServerConfig)>, i: int)
    requires
        0 <= i < c.len(),
    ensures
        c.take(i + 1) =~= c.take(i) + seq![c[i]],
        invalid_error_entries(c.take(i) + seq![c[i]]) == invalid_error_entries(c.take(i))
            + invalid_error_entries(seq![c[i]]),
        invalid_error_entries(seq![c[i]]) == if !is_valid_name(c[i].0@) {
            seq![(c[i].0@, invalid_name_msg())]
        } else {
            Seq::<(Seq<char>, Seq<char>)>::empty()
        },
{
    let pred = |p: (String, McpServerConfig)| !is_valid_name(p.0@);
    let f = |p: (String, McpServerConfig)| (p.0@, invalid_name_msg());
    lemma_map_values_add(c.take(i).filter(pred), seq![c[i]].filter(pred), f);
    lemma_filter_singleton(c[i], pred);
    if pred(c[i]) {
        assert(seq![c[i]].map_values(f) =~= seq![f(c[i])]);
    } else {
        assert(invalid_error_entries(seq![c[i]]) =~= Seq::<(Seq<char>, Seq<char>)>::empty());
    }
}

proof fn lemma_outcome_take_step(o: Seq<(String, Option<String>)>, k: int)
    requires
        0 <= k < o.len(),
    ensures
        o.take(k + 1) =~= o.take(k) + seq![o[k]],
        ready_names(o.take(k) + seq![o[k]]) == ready_names(o.take(k)) + ready_names(seq![o[k]]),
        failed_error_entries(o.take(k) + seq![o[k]]) == failed_error_entries(o.take(k))
            + failed_error_entries(seq![o[k]]),
        ready_names(seq![o[k]]) == if o[k].1 is None {
            seq![o[k].0@]
        } else {
            Seq::<Seq<char>>::empty()
        },
        failed_error_entries(seq![o[k]]) == if o[k].1 is Some {
            seq![(o[k].0@, o[k].1->0@)]
        } else {
            Seq::<(Seq<char>, Seq<char>)>::empty()
        },
{
    let ready_pred = |p: (String, Option<String>)| p.1 is None;
    let failed_pred = |p: (String, Option<String>)| p.1 is Some;
    let name_f = |p: (String, Option<String>)| p.0@;
    let entry_f = |p: (String, Option<String>)| (p.0@, p.1->0@);
    lemma_map_values_add(o.take(k).filter(ready_pred), seq![o[k]].filter(ready_pred), name_f);
    lemma_map_values_add(o.take(k).filter(failed_pred), seq![o[k]].filter(failed_pred), entry_f);
    lemma_filter_singleton(o[k], ready_pred);
    lemma_filter_singleton(o[k], failed_pred);
    if o[k].1 is None {
        assert(seq![o[k]].map_values(name_f) =~= seq![o[k].0@]);
        assert(failed_error_entries(seq![o[k]]) =~= Seq::<(Seq<char>, Seq<char>)>::empty());
    } else {
        assert(seq![o[k]].map_values(entry_f) =~= seq![(o[k].0@, o[k].1->0@)]);
        assert(ready_names(seq![o[k]]) =~= Seq::<Seq<char>>::empty());
    }
}

/// Every configured server lands either among the live sessions or in the
/// startup-error map, and never in both: the two sets partition the
/// configured set. The arguments are related exactly as the results of
/// [`McpConnectionManager::new`] are to its inputs.
pub proof fn lemma_startup_partition(
    configured: Seq<(String, McpServerConfig)>,
    outcomes: Seq<(String, Option<String>)>,
    errors: Seq<(Seq<char>, Seq<char>)>,
)
    requires
        entry_names(configured).no_duplicates(),
        entry_names(outcomes) == valid_names(configured),
        errors == invalid_error_entries(configured) + failed_error_entries(outcomes),
    ensures
        forall|x: Seq<char>|
            #![trigger ready_names(outcomes).contains(x)]
            #![trigger error_names(errors).contains(x)]
            #![trigger entry_names(configured).contains(x)]
            ready_names(outcomes).contains(x) || error_names(errors).contains(x) <==> entry_names(
                configured,
            ).contains(x),
        forall|x: Seq<char>|
            #![trigger ready_names(outcomes).contains(x), error_names(errors).contains(x)]
            !(ready_names(outcomes).contains(x) && error_names(errors).contains(x)),
{
    let ready_pred = |p: (String, Option<String>)| p.1 is None;
    let failed_pred = |p: (String, Option<String>)| p.1 is Some;
    let name_f = |p: (String, Option<String>)| p.0@;
    let entry_f = |p: (String, Option<String>)| (p.0@, p.1->0@);
    let inv_pred = |p: (String, McpServerConfig)| !is_valid_name(p.0@);
    let inv_f = |p: (String, McpServerConfig)| (p.0@, invalid_name_msg());
    let vpred = |n: Seq<char>| is_valid_name(n);
    let fst = |p: (Seq<char>, Seq<char>)| p.0;
    lemma_map_values_add(
        invalid_error_entries(configured),
        failed_error_entries(outcomes),
        fst,
    );
    assert forall|x: Seq<char>| #![trigger ready_names(outcomes).contains(x)]
        ready_names(outcomes).contains(x) implies entry_names(configured).contains(x)
        && is_valid_name(x) by {
        let j = choose|j: int|
            0 <= j < ready_names(outcomes).len() && ready_names(outcomes)[j] == x;
        let fe = outcomes.filter(ready_pred)[j];
        assert(name_f(fe) == x);
        lemma_filter_subset(outcomes, ready_pred, fe);
        let k = choose|k: int| 0 <= k < outcomes.len() && outcomes[k] == fe;
        assert(entry_names(outcomes)[k] == x);
        assert(valid_names(configured)[k] == x);
        assert(is_valid_name(x));
        lemma_filter_subset(entry_names(configured), vpred, x);
    }
    assert forall|x: Seq<char>| #![trigger error_names(errors).contains(x)]
        error_names(errors).contains(x) implies entry_names(configured).contains(x) by {
        let en = error_names(errors);
        let j = choose|j: int| 0 <= j < en.len() && en[j] == x;
        let inv_names = error_names(invalid_error_entries(configured));
        let fail_names = error_names(failed_error_entries(outcomes));
        assert(en =~= inv_names + fail_names);
        if j < inv_names.len() {
            let fe = configured.filter(inv_pred)[j];
            assert(inv_names[j] == fst(inv_f(fe)));
            lemma_filter_subset(configured, inv_pred, fe);
            let k = choose|k: int| 0 <= k < configured.len() && configured[k] == fe;
            assert(entry_names(configured)[k] == x);
        } else {
            let j2 = j - inv_names.len();
            let fe = outcomes.filter(failed_pred)[j2];
            assert(fail_names[j2] == fst(entry_f(fe)));
            lemma_filter_subset(outcomes, failed_pred, fe);
            let k = choose|k: int| 0 <= k < outcomes.len() && outcomes[k] == fe;
            assert(entry_names(outcomes)[k] == x);
            assert(valid_names(configured)[k] == x);
            lemma_filter_subset(entry_names(configured), vpred, x);
        }
    }
    assert forall|x: Seq<char>| #![trigger entry_names(configured).contains(x)]
        entry_names(configured).contains(x) implies ready_names(outcomes).contains(x)
        || error_names(errors).contains(x) by {
        let i = choose|i: int|
            0 <= i < entry_names(configured).len() && entry_names(configured)[i] == x;
        if is_valid_name(x) {
            assert(vpred(entry_names(configured)[i]));
            assert(entry_names(configured).filter(vpred).contains(entry_names(configured)[i]));
            assert(entry_names(configured).filter(vpred).contains(x));
            let k = choose|k: int|
                0 <= k < entry_names(outcomes).len() && entry_names(outcomes)[k] == x;
            assert(outcomes[k].0@ == x);
            if outcomes[k].1 is None {
                assert(outcomes.filter(ready_pred).contains(outcomes[k]));
                let m = choose|m: int|
                    0 <= m < outcomes.filter(ready_pred).len() && outcomes.filter(ready_pred)[m]
                        == outcomes[k];
                lemma_map_contains(outcomes.filter(ready_pred), name_f, m);
            } else {
                assert(outcomes.filter(failed_pred).contains(outcomes[k]));
                let m = choose|m: int|
                    0 <= m < outcomes.filter(failed_pred).len() && outcomes.filter(failed_pred)[m]
                        == outcomes[k];
                lemma_map_contains(outcomes.filter(failed_pred), entry_f, m);
                let fail_entries = failed_error_entries(outcomes);
                let q = choose|q: int|
                    0 <= q < fail_entries.len() && fail_entries[q] == (x, outcomes[k].1->0@);
                lemma_map_contains(fail_entries, fst, q);
                let fail_names = error_names(fail_entries);
                let inv_names = error_names(invalid_error_entries(configured));
                assert(error_names(errors) =~= inv_names + fail_names);
                let w = choose|w: int| 0 <= w < fail_names.len() && fail_names[w] == x;
                assert(error_names(errors)[inv_names.len() + w] == x);
            }
        } else {
            assert(configured[i].0@ == x);
            assert(inv_pred(configured[i]));
            assert(configured.filter(inv_pred).contains(configured[i]));
            let m = choose|m: int|
                0 <= m < configured.filter(inv_pred).len() && configured.filter(inv_pred)[m]
                    == configured[i];
            lemma_map_contains(configured.filter(inv_pred), inv_f, m);
            let inv_entries = invalid_error_entries(configured);
            let q = choose|q: int|
                0 <= q < inv_entries.len() && inv_entries[q] == (x, invalid_name_msg());
            lemma_map_contains(inv_entries, fst, q);
            let inv_names = error_names(inv_entries);
            let w = choose|w: int| 0 <= w < inv_names.len() && inv_names[w] == x;
            assert(error_names(errors) =~= inv_names + error_names(failed_error_entries(outcomes)));
            assert(error_names(errors)[w] == x);
        }
    }
    assert forall|x: Seq<char>|
        ready_names(outcomes).contains(x) && error_names(errors).contains(x) implies false by {
        assert(is_valid_name(x));
        let en = error_names(errors);
        let inv_names = error_names(invalid_error_entries(configured));
        let fail_names = error_names(failed_error_entries(outcomes));
        assert(en =~= inv_names + fail_names);
        let j = choose|j: int| 0 <= j < en.len() && en[j] == x;
        if j < inv_names.len() {
            let fe = configured.filter(inv_pred)[j];
            assert(inv_names[j] == fst(inv_f(fe)));
            assert(inv_pred(fe));
        } else {
            let j2 = j - inv_names.len();
            let fe = outcomes.filter(failed_pred)[j2];
            assert(fail_names[j2] == fst(entry_f(fe)));
            lemma_filter_subset(outcomes, failed_pred, fe);
            let kf = choose|kf: int| 0 <= kf < outcomes.len() && outcomes[kf] == fe;
            let jr = choose|jr: int|
                0 <= jr < ready_names(outcomes).len() && ready_names(outcomes)[jr] == x;
            let re = outcomes.filter(ready_pred)[jr];
            assert(name_f(re) == x);
            lemma_filter_subset(outcomes, ready_pred, re);
            let kr = choose|kr: int| 0 <= kr < outcomes.len() && outcomes[kr] == re;
            assert(kf != kr);
            assert(entry_names(outcomes)[kf] == x);
            assert(entry_names(outcomes)[kr] == x);
            lemma_filter_no_dup(entry_names(configured), vpred);
        }
    }
}

/// A configured name that fails the validator never appears among the live
/// sessions; it appears in the startup-error map, paired with the
/// validator's message.
pub proof fn lemma_invalid_name_reported(
    configured: Seq<(String, McpServerConfig)>,
    outcomes: Seq<(String, Option<String>)>,
    errors: Seq<(Seq<char>, Seq<char>)>,
    name: Seq<char>,
)
    requires
        entry_names(outcomes) == valid_names(configured),
        errors == invalid_error_entries(configured) + failed_error_entries(outcomes),
        entry_names(configured).contains(name),
        !is_valid_name(name),
    ensures
        !ready_names(outcomes).contains(name),
        errors.contains((name, invalid_name_msg())),
{
    let ready_pred = |p: (String, Option<String>)| p.1 is None;
    let name_f = |p: (String, Option<String>)| p.0@;
    let inv_pred = |p: (String, McpServerConfig)| !is_valid_name(p.0@);
    let inv_f = |p: (String, McpServerConfig)| (p.0@, invalid_name_msg());
    let vpred = |n: Seq<char>| is_valid_name(n);
    if ready_names(outcomes).contains(name) {
        let j = choose|j: int|
            0 <= j < ready_names(outcomes).len() && ready_names(outcomes)[j] == name;
        let fe = outcomes.filter(ready_pred)[j];
        assert(name_f(fe) == name);
        lemma_filter_subset(outcomes, ready_pred, fe);
        let k = choose|k: int| 0 <= k < outcomes.len() && outcomes[k] == fe;
        assert(valid_names(configured)[k] == name);
        assert(is_valid_name(name));
    }
    let i = choose|i: int|
        0 <= i < entry_names(configured).len() && entry_names(configured)[i] == name;
    assert(configured[i].0@ == name);
    assert(inv_pred(configured[i]));
    assert(configured.filter(inv_pred).contains(configured[i]));
    let m = choose|m: int|
        0 <= m < configured.filter(inv_pred).len() && configured.filter(inv_pred)[m]
            == configured[i];
    lemma_map_contains(configured.filter(inv_pred), inv_f, m);
    let q = choose|q: int|
        0 <= q < invalid_error_entries(configured).len() && invalid_error_entries(configured)[q]
            == (name, invalid_name_msg());
    assert(errors[q] == (name, invalid_name_msg()));
}

/// Keys are pairwise distinct: the catalog never merges two tools.
pub open spec fn catalog_keys_unique(cat: Seq<(Seq<char>, (Seq<char>, Seq<char>))>) -> bool {
    forall|i: int, j: int| 0 <= i < j < cat.len() ==> cat[i].0 != cat[j].0
}

proof fn lemma_push_keeps_key(
    acc: Seq<(Seq<char>, (Seq<char>, Seq<char>))>,
    e: (Seq<char>, (Seq<char>, Seq<char>)),
    key: Seq<char>,
)
    requires
        catalog_has_key(acc, key),
    ensures
        catalog_has_key(acc.push(e), key),
{
    let i = choose|i: int| 0 <= i < acc.len() && acc[i].0 == key;
    assert(acc.push(e)[i].0 == key);
}

proof fn lemma_server_err_if_key_present(
    server: Seq<char>,
    tools: Seq<(Seq<char>, Seq<char>)>,
    acc: Seq<(Seq<char>, (Seq<char>, Seq<char>))>,
    j: int,
)
    requires
        0 <= j < tools.len(),
        is_valid_name(tools[j].0),
        catalog_has_key(acc, encode_spec(server, tools[j].0)),
    ensures
        aggregate_server_spec(server, tools, acc) is Err,
    decreases j,
{
    let key = encode_spec(server, tools[j].0);
    if !is_valid_name(tools[0].0) {
        lemma_server_err_if_key_present(server, tools.drop_first(), acc, j - 1);
    } else {
        let key0 = encode_spec(server, tools[0].0);
        if !catalog_has_key(acc, key0) {
            lemma_push_keeps_key(acc, (key0, tools[0]), key);
            lemma_server_err_if_key_present(
                server,
                tools.drop_first(),
                acc.push((key0, tools[0])),
                j - 1,
            );
        }
    }
}

proof fn lemma_server_dup_err(
    server: Seq<char>,
    tools: Seq<(Seq<char>, Seq<char>)>,
    acc: Seq<(Seq<char>, (Seq<char>, Seq<char>))>,
    j1: int,
    j2: int,
)
    requires
        0 <= j1 < j2 < tools.len(),
        tools[j1].0 == tools[j2].0,
        is_valid_name(tools[j1].0),
    ensures
        aggregate_server_spec(server, tools, acc) is Err,
    decreases j1,
{
    if !is_valid_name(tools[0].0) {
        lemma_server_dup_err(server, tools.drop_first(), acc, j1 - 1, j2 - 1);
    } else {
        let key0 = encode_spec(server, tools[0].0);
        if !catalog_has_key(acc, key0) {
            let acc2 = acc.push((key0, tools[0]));
            assert(acc2[acc.len() as int].0 == key0);
            if j1 == 0 {
                assert(catalog_has_key(acc2, encode_spec(server, tools.drop_first()[j2 - 1].0)));
                lemma_server_err_if_key_present(server, tools.drop_first(), acc2, j2 - 1);
            } else {
                lemma_server_dup_err(server, tools.drop_first(), acc2, j1 - 1, j2 - 1);
            }
        }
    }
}

/// One server advertising the same valid tool name twice makes aggregation
/// fail with a collision: construction is fatal rather than silently merging
/// the two under one key.
pub proof fn lemma_duplicate_tool_collides(
    listings: Seq<(Seq<char>, Seq<(Seq<char>, Seq<char>)>)>,
    acc: Seq<(Seq<char>, (Seq<char>, Seq<char>))>,
    i: int,
    j1: int,
    j2: int,
)
    requires
        0 <= i < listings.len(),
        0 <= j1 < j2 < listings[i].1.len(),
        listings[i].1[j1].0 == listings[i].1[j2].0,
        is_valid_name(listings[i].1[j1].0),
    ensures
        aggregate_all_spec(listings, acc) is Err,
    decreases i,
{
    if i == 0 {
        lemma_server_dup_err(listings[0].0, listings[0].1, acc, j1, j2);
    } else {
        match aggregate_server_spec(listings[0].0, listings[0].1, acc) {
            Err(_) => {},
            Ok(acc2) => {
                lemma_duplicate_tool_collides(listings.drop_first(), acc2, i - 1, j1, j2);
            },
        }
    }
}

/// A tool whose name fails the validator is simply absent: removing it from
/// a server's listing changes nothing about aggregation, so every other tool
/// of that server and of every other server is unaffected.
pub proof fn lemma_invalid_tool_ignored(
    server: Seq<char>,
    a: Seq<(Seq<char>, Seq<char>)>,
    t: (Seq<char>, Seq<char>),
    b: Seq<(Seq<char>, Seq<char>)>,
    acc: Seq<(Seq<char>, (Seq<char>, Seq<char>))>,
)
    requires
        !is_valid_name(t.0),
    ensures
        aggregate_server_spec(server, a + seq![t] + b, acc) == aggregate_server_spec(
            server,
            a + b,
            acc,
        ),
    decreases a.len(),
{
    if a.len() == 0 {
        assert(a + seq![t] + b =~= seq![t] + b);
        assert(a + b =~= b);
        let s = seq![t] + b;
        assert(s[0] == t);
        assert(s.drop_first() =~= b);
    } else {
        let lhs = a + seq![t] + b;
        let rhs = a + b;
        assert(lhs[0] == a[0]);
        assert(rhs[0] == a[0]);
        assert(lhs.drop_first() =~= a.drop_first() + seq![t] + b);
        assert(rhs.drop_first() =~= a.drop_first() + b);
        if !is_valid_name(a[0].0) {
            lemma_invalid_tool_ignored(server, a.drop_first(), t, b, acc);
        } else {
            let key0 = encode_spec(server, a[0].0);
            if !catalog_has_key(acc, key0) {
                lemma_invalid_tool_ignored(
                    server,
                    a.drop_first(),
                    t,
                    b,
                    acc.push((key0, a[0])),
                );
            }
        }
    }
}

/// The same, lifted over the whole listing set: dropping an invalidly named
/// tool from one server's listing leaves the aggregation of every server
/// unchanged.
pub proof fn lemma_invalid_tool_ignored_all(
    listings: Seq<(Seq<char>, Seq<(Seq<char>, Seq<char>)>)>,
    i: int,
    a: Seq<(Seq<char>, Seq<char>)>,
    t: (Seq<char>, Seq<char>),
    b: Seq<(Seq<char>, Seq<char>)>,
    acc: Seq<(Seq<char>, (Seq<char>, Seq<char>))>,
)
    requires
        0 <= i < listings.len(),
        listings[i].1 == a + seq![t] + b,
        !is_valid_name(t.0),
    ensures
        aggregate_all_spec(listings, acc) == aggregate_all_spec(
            listings.update(i, (listings[i].0, a + b)),
            acc,
        ),
    decreases i,
{
    let l2 = listings.update(i, (listings[i].0, a + b));
    if i == 0 {
        lemma_invalid_tool_ignored(listings[0].0, a, t, b, acc);
        assert(l2[0] == (listings[0].0, a + b));
        assert(l2.drop_first() =~= listings.drop_first());
    } else {
        assert(l2[0] == listings[0]);
        match aggregate_server_spec(listings[0].0, listings[0].1, acc) {
            Err(_) => {},
            Ok(acc2) => {
                assert(listings.drop_first()[i - 1].1 == a + seq![t] + b);
                lemma_invalid_tool_ignored_all(listings.drop_first(), i - 1, a, t, b, acc2);
                assert(l2.drop_first() =~= listings.drop_first().update(
                    i - 1,
                    (listings[i].0, a + b),
                ));
            },
        }
    }
}

proof fn lemma_server_mono(
    server: Seq<char>,
    tools: Seq<(Seq<char>, Seq<char>)>,
    acc: Seq<(Seq<char>, (Seq<char>, Seq<char>))>,
    key: Seq<char>,
)
    requires
        aggregate_server_spec(server, tools, acc) is Ok,
        catalog_has_key(acc, key),
    ensures
        catalog_has_key(aggregate_server_spec(server, tools, acc)->Ok_0, key),
    decreases tools.len(),
{
    if tools.len() == 0 {
    } else if !is_valid_name(tools[0].0) {
        lemma_server_mono(server, tools.drop_first(), acc, key);
    } else {
        let key0 = encode_spec(server, tools[0].0);
        lemma_push_keeps_key(acc, (key0, tools[0]), key);
        lemma_server_mono(server, tools.drop_first(), acc.push((key0, tools[0])), key);
    }
}

proof fn lemma_all_mono(
    listings: Seq<(Seq<char>, Seq<(Seq<char>, Seq<char>)>)>,
    acc: Seq<(Seq<char>, (Seq<char>, Seq<char>))>,
    key: Seq<char>,
)
    requires
        aggregate_all_spec(listings, acc) is Ok,
        catalog_has_key(acc, key),
    ensures
        catalog_has_key(aggregate_all_spec(listings, acc)->Ok_0, key),
    decreases listings.len(),
{
    if listings.len() > 0 {
        let step = aggregate_server_spec(listings[0].0, listings[0].1, acc);
        lemma_server_mono(listings[0].0, listings[0].1, acc, key);
        lemma_all_mono(listings.drop_first(), step->Ok_0, key);
    }
}

proof fn lemma_server_adds(
    server: Seq<char>,
    tools: Seq<(Seq<char>, Seq<char>)>,
    acc: Seq<(Seq<char>, (Seq<char>, Seq<char>))>,
    j: int,
)
    requires
        aggregate_server_spec(server, tools, acc) is Ok,
        0 <= j < tools.len(),
        is_valid_name(tools[j].0),
    ensures
        catalog_has_key(
            aggregate_server_spec(server, tools, acc)->Ok_0,
            encode_spec(server, tools[j].0),
        ),
    decreases j,
{
    if !is_valid_name(tools[0].0) {
        lemma_server_adds(server, tools.drop_first(), acc, j - 1);
    } else {
        let key0 = encode_spec(server, tools[0].0);
        let acc2 = acc.push((key0, tools[0]));
        assert(acc2[acc.len() as int].0 == key0);
        if j == 0 {
            lemma_server_mono(server, tools.drop_first(), acc2, key0);
        } else {
            lemma_server_adds(server, tools.drop_first(), acc2, j - 1);
        }
    }
}

/// Every valid tool that any server lists ends up in the catalog, under its
/// fully-qualified name, whenever aggregation succeeds.
pub proof fn lemma_listed_tool_in_catalog(
    listings: Seq<(Seq<char>, Seq<(Seq<char>, Seq<char>)>)>,
    acc: Seq<(Seq<char>, (Seq<char>, Seq<char>))>,
    i: int,
    j: int,
)
    requires
        aggregate_all_spec(listings, acc) is Ok,
        0 <= i < listings.len(),
        0 <= j < listings[i].1.len(),
        is_valid_name(listings[i].1[j].0),
    ensures
        catalog_has_key(
            aggregate_all_spec(listings, acc)->Ok_0,
            encode_spec(listings[i].0, listings[i].1[j].0),
        ),
    decreases i,
{
    let step = aggregate_server_spec(listings[0].0, listings[0].1, acc);
    if i == 0 {
        lemma_server_adds(listings[0].0, listings[0].1, acc, j);
        lemma_all_mono(
            listings.drop_first(),
            step->Ok_0,
            encode_spec(listings[0].0, listings[0].1[j].0),
        );
    } else {
        lemma_listed_tool_in_catalog(listings.drop_first(), step->Ok_0, i - 1, j);
    }
}

/// Two different servers advertising a tool of the same (valid) plain name
/// produce two distinct catalog entries: their fully-qualified names differ
/// by the server half, so both are present and no collision arises between
/// them.
pub proof fn lemma_distinct_servers_distinct_entries(
    listings: Seq<(Seq<char>, Seq<(Seq<char>, Seq<char>)>)>,
    acc: Seq<(Seq<char>, (Seq<char>, Seq<char>))>,
    i1: int,
    j1: int,
    i2: int,
    j2: int,
    tname: Seq<char>,
)
    requires
        aggregate_all_spec(listings, acc) is Ok,
        0 <= i1 < listings.len(),
        0 <= i2 < listings.len(),
        0 <= j1 < listings[i1].1.len(),
        0 <= j2 < listings[i2].1.len(),
        listings[i1].0 != listings[i2].0,
        listings[i1].1[j1].0 == tname,
        listings[i2].1[j2].0 == tname,
        is_valid_name(tname),
    ensures
        catalog_has_key(aggregate_all_spec(listings, acc)->Ok_0, encode_spec(listings[i1].0, tname)),
        catalog_has_key(aggregate_all_spec(listings, acc)->Ok_0, encode_spec(listings[i2].0, tname)),
        encode_spec(listings[i1].0, tname) != encode_spec(listings[i2].0, tname),
{
    lemma_listed_tool_in_catalog(listings, acc, i1, j1);
    lemma_listed_tool_in_catalog(listings, acc, i2, j2);
    crate::qualified::lemma_encode_server_injective(listings[i1].0, listings[i2].0, tname);
}

/// `key` is the fully-qualified name of a validly named tool in `tools`.
pub open spec fn key_in_tools(
    server: Seq<char>,
    tools: Seq<(Seq<char>, Seq<char>)>,
    key: Seq<char>,
) -> bool {
    exists|j: int|
        0 <= j < tools.len() && is_valid_name(#[trigger] tools[j].0) && key == encode_spec(
            server,
            tools[j].0,
        )
}

/// `key` is the fully-qualified name of a validly named tool that some
/// listed server advertised.
pub open spec fn key_is_listed(
    listings: Seq<(Seq<char>, Seq<(Seq<char>, Seq<char>)>)>,
    key: Seq<char>,
) -> bool {
    exists|i: int, j: int|
        0 <= i < listings.len() && 0 <= j < #[trigger] listings[i].1.len() && is_valid_name(
            listings[i].1[j].0,
        ) && key == encode_spec(listings[i].0, #[trigger] listings[i].1[j].0)
}

proof fn lemma_server_key_origin(
    server: Seq<char>,
    tools: Seq<(Seq<char>, Seq<char>)>,
    acc: Seq<(Seq<char>, (Seq<char>, Seq<char>))>,
    key: Seq<char>,
)
    requires
        aggregate_server_spec(server, tools, acc) is Ok,
        catalog_has_key(aggregate_server_spec(server, tools, acc)->Ok_0, key),
    ensures
        catalog_has_key(acc, key) || key_in_tools(server, tools, key),
    decreases tools.len(),
{
    if tools.len() == 0 {
    } else if !is_valid_name(tools[0].0) {
        lemma_server_key_origin(server, tools.drop_first(), acc, key);
        if key_in_tools(server, tools.drop_first(), key) {
            let j = choose|j: int|
                0 <= j < tools.drop_first().len() && is_valid_name(tools.drop_first()[j].0) && key
                    == encode_spec(server, tools.drop_first()[j].0);
            assert(tools[j + 1].0 == tools.drop_first()[j].0);
        }
    } else {
        let key0 = encode_spec(server, tools[0].0);
        let acc2 = acc.push((key0, tools[0]));
        lemma_server_key_origin(server, tools.drop_first(), acc2, key);
        if catalog_has_key(acc2, key) {
            let idx = choose|idx: int| 0 <= idx < acc2.len() && acc2[idx].0 == key;
            if idx < acc.len() {
                assert(acc[idx].0 == key);
            } else {
                assert(key == key0);
            }
        } else if key_in_tools(server, tools.drop_first(), key) {
            let j = choose|j: int|
                0 <= j < tools.drop_first().len() && is_valid_name(tools.drop_first()[j].0) && key
                    == encode_spec(server, tools.drop_first()[j].0);
            assert(tools[j + 1].0 == tools.drop_first()[j].0);
        }
    }
}

proof fn lemma_all_key_origin(
    listings: Seq<(Seq<char>, Seq<(Seq<char>, Seq<char>)>)>,
    acc: Seq<(Seq<char>, (Seq<char>, Seq<char>))>,
    key: Seq<char>,
)
    requires
        aggregate_all_spec(listings, acc) is Ok,
        catalog_has_key(aggregate_all_spec(listings, acc)->Ok_0, key),
    ensures
        catalog_has_key(acc, key) || key_is_listed(listings, key),
    decreases listings.len(),
{
    if listings.len() > 0 {
        let step = aggregate_server_spec(listings[0].0, listings[0].1, acc);
        let acc2 = step->Ok_0;
        lemma_all_key_origin(listings.drop_first(), acc2, key);
        if key_is_listed(listings.drop_first(), key) {
            let (i, j) = choose|i: int, j: int|
                0 <= i < listings.drop_first().len() && 0 <= j < listings.drop_first()[i].1.len()
                    && is_valid_name(listings.drop_first()[i].1[j].0) && key == encode_spec(
                    listings.drop_first()[i].0,
                    listings.drop_first()[i].1[j].0,
                );
            assert(listings[i + 1] == listings.drop_first()[i]);
            assert(key_is_listed(listings, key));
        } else if catalog_has_key(acc2, key) {
            lemma_server_key_origin(listings[0].0, listings[0].1, acc, key);
            if key_in_tools(listings[0].0, listings[0].1, key) {
                let j = choose|j: int|
                    0 <= j < listings[0].1.len() && is_valid_name(listings[0].1[j].0) && key
                        == encode_spec(listings[0].0, listings[0].1[j].0);
                assert(0 <= 0 < listings.len() && 0 <= j < listings[0].1.len() && is_valid_name(
                    listings[0].1[j].0,
                ) && key == encode_spec(listings[0].0, listings[0].1[j].0));
                assert(key_is_listed(listings, key));
            }
        }
    }
}

/// Every key of a successfully aggregated catalog is the fully-qualified
/// name of a validly named tool that one of the listed servers advertised:
/// nothing else ever enters the catalog.
pub proof fn lemma_catalog_keys_listed(
    listings: Seq<(Seq<char>, Seq<(Seq<char>, Seq<char>)>)>,
    cat: Seq<(Seq<char>, (Seq<char>, Seq<char>))>,
)
    requires
        aggregate_all_spec(listings, Seq::empty()) == Ok::<_, Seq<char>>(cat),
    ensures
        forall|key: Seq<char>| #[trigger] catalog_has_key(cat, key) ==> key_is_listed(listings, key),
{
    assert forall|key: Seq<char>| #[trigger] catalog_has_key(cat, key) implies key_is_listed(
        listings,
        key,
    ) by {
        lemma_all_key_origin(listings, Seq::empty(), key);
    }
}

/// Every key of the catalog decodes to one of the listed (live) servers,
/// provided the server names are valid and do not themselves run into the
/// delimiter (see [`crate::qualified::prefix_safe`]).
pub proof fn lemma_catalog_key_decodes_to_listed_server(
    listings: Seq<(Seq<char>, Seq<(Seq<char>, Seq<char>)>)>,
    cat: Seq<(Seq<char>, (Seq<char>, Seq<char>))>,
    key: Seq<char>,
)
    requires
        aggregate_all_spec(listings, Seq::empty()) == Ok::<_, Seq<char>>(cat),
        catalog_has_key(cat, key),
        forall|i: int|
            0 <= i < listings.len() ==> is_valid_name(#[trigger] listings[i].0)
                && crate::qualified::prefix_safe(listings[i].0),
    ensures
        crate::qualified::decode_spec(key) matches Some(p) && exists|i: int|
            0 <= i < listings.len() && #[trigger] listings[i].0 == p.0,
{
    lemma_catalog_keys_listed(listings, cat);
    let (i, j) = choose|i: int, j: int|
        0 <= i < listings.len() && 0 <= j < listings[i].1.len() && is_valid_name(
            listings[i].1[j].0,
        ) && key == encode_spec(listings[i].0, listings[i].1[j].0);
    crate::qualified::lemma_decode_encode(listings[i].0, listings[i].1[j].0);
}

proof fn lemma_server_unique(
    server: Seq<char>,
    tools: Seq<(Seq<char>, Seq<char>)>,
    acc: Seq<(Seq<char>, (Seq<char>, Seq<char>))>,
)
    requires
        aggregate_server_spec(server, tools, acc) is Ok,
        catalog_keys_unique(acc),
    ensures
        catalog_keys_unique(aggregate_server_spec(server, tools, acc)->Ok_0),
    decreases tools.len(),
{
    if tools.len() == 0 {
    } else if !is_valid_name(tools[0].0) {
        lemma_server_unique(server, tools.drop_first(), acc);
    } else {
        let key0 = encode_spec(server, tools[0].0);
        let acc2 = acc.push((key0, tools[0]));
        assert(catalog_keys_unique(acc2)) by {
            assert forall|p: int, q: int| 0 <= p < q < acc2.len() implies acc2[p].0
                != acc2[q].0 by {
                if q == acc.len() {
                    assert(acc2[p].0 == acc[p].0);
                }
            }
        }
        lemma_server_unique(server, tools.drop_first(), acc2);
    }
}

/// Whenever aggregation succeeds, the catalog's keys are pairwise distinct:
/// no two tools are ever merged under one fully-qualified name.
pub proof fn lemma_catalog_keys_unique(
    listings: Seq<(Seq<char>, Seq<(Seq<char>, Seq<char>)>)>,
    acc: Seq<(Seq<char>, (Seq<char>, Seq<char>))>,
)
    requires
        aggregate_all_spec(listings, acc) is Ok,
        catalog_keys_unique(acc),
    ensures
        catalog_keys_unique(aggregate_all_spec(listings, acc)->Ok_0),
    decreases listings.len(),
{
    if listings.len() > 0 {
        let step = aggregate_server_spec(listings[0].0, listings[0].1, acc);
        lemma_server_unique(listings[0].0, listings[0].1, acc);
        lemma_catalog_keys_unique(listings.drop_first(), step->Ok_0);
    }
}

} // verus!
