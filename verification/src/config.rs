use std::collections::HashSet;
use crate::adj::{adj_error_text, expanded, indexable, Adj, AdjError, AdjView, RawAdj};
use crate::text::{chars_of, decimal, decimal_text, parse_unsigned, parse_unsigned_in};
use vstd::prelude::*;
use vstd::string::StringExecFns;

verus! {

broadcast use vstd::std_specs::hash::group_hash_axioms;

/// The address a node listens on.
#[derive(Debug, Clone, Copy, PartialEq, Eq, Structural)]
pub enum ListenIp {
    V4(u8, u8, u8, u8),
    V6(u16, u16, u16, u16, u16, u16, u16, u16),
}

/// Where a node can be reached: its authority text (host and port) and its port.
pub struct Route {
    pub authority: String,
    pub port: u16,
}

/// The validated settings of a node.
pub struct Config {
    pub id: u32,
    pub target_node: Option<u32>,
    pub listen_ip: ListenIp,
    pub adj: Adj,
    pub routes: Vec<Route>,
}

/// Settings as read from one or more configuration files, any of them possibly missing.
/// The routes map node ids, written in decimal, to authority texts.
pub struct RawConfig {
    pub id: Option<u32>,
    pub target_node: Option<u32>,
    pub listen_ip: Option<ListenIp>,
    pub adj: Option<RawAdj>,
    pub routes: Option<Vec<(String, String)>>,
}

/// Why the settings were refused.
#[derive(Debug, Clone, Copy)]
pub enum ConfigError {
    MissingKey(&'static str),
    InvalidValue(&'static str),
    Adj(AdjError),
}

impl ConfigError {
    /// The text the node shows for the error.
    pub fn message(&self) -> (s: String)
        ensures
            self matches ConfigError::MissingKey(k) ==> s@ == "The \""@ + k@ + "\" setting is missing from the config."@,
            self matches ConfigError::InvalidValue(v) ==> s@ == "The \""@ + v@ + "\" setting value is invalid."@,
            self matches ConfigError::Adj(e) ==> s@ == "The Adj matrix is incorrectly configured: "@ + adj_error_text(*e),
    {
        match self {
            ConfigError::MissingKey(k) => {
                let mut s = String::from_str("The \"");
                s.append(k);
                s.append("\" setting is missing from the config.");
                s
            },
            ConfigError::InvalidValue(v) => {
                let mut s = String::from_str("The \"");
                s.append(v);
                s.append("\" setting value is invalid.");
                s
            },
            ConfigError::Adj(e) => {
                let mut s = String::from_str("The Adj matrix is incorrectly configured: ");
                s.append(e.message());
                s
            },
        }
    }
}

/// Whether `http::uri::Authority` accepts `text` as a whole authority.
pub uninterp spec fn authority_accepts(text: Seq<char>) -> bool;

/// The position of the last `:` in `text`, if any.
pub open spec fn last_colon(text: Seq<char>) -> Option<int>
    decreases text.len(),
{
    if text.len() == 0 {
        None
    } else if text.last() == ':' {
        Some(text.len() - 1)
    } else {
        last_colon(text.drop_last())
    }
}

/// The port of an authority text: what follows its last `:`, read as a `u16`.
pub open spec fn authority_port(text: Seq<char>) -> Option<u16> {
    match last_colon(text) {
        None => None,
        Some(i) => match parse_unsigned(text.skip(i + 1), 0xffff) {
            Some(p) => Some(p as u16),
            None => None,
        },
    }
}

/// Parses `text` with `http::uri::Authority::from_str`. On success it hands back
/// the authority's text (`Authority::as_str`, a copy of the input) and
/// `Authority::port_u16`, the text after the last `:` parsed as a `u16`.
/// Which texts the crate accepts as an authority is left to the name `authority_accepts`.
#[verifier::external_body]
fn parse_authority(text: &str) -> (res: Option<(String, Option<u16>)>)
    ensures
        res is Some <==> authority_accepts(text@),
        res matches Some(parsed) ==> parsed.0@ == text@ && parsed.1 == authority_port(text@),
{
    match text.parse::<http::uri::Authority>() {
        Ok(authority) => Some((authority.as_str().to_string(), authority.port_u16())),
        Err(_) => None,
    }
}

/// The node id a route key names.
pub open spec fn route_id(key: Seq<char>) -> nat {
    parse_unsigned(key, u32::MAX as nat)->0
}

/// Every route key is a node id.
pub open spec fn route_keys_numeric(routes: Seq<(String, String)>) -> bool {
    forall|k: int| 0 <= k < routes.len() ==> (#[trigger] parse_unsigned(routes[k].0@, u32::MAX as nat)) is Some
}

/// No two routes have the same key.
pub open spec fn route_keys_distinct(routes: Seq<(String, String)>) -> bool {
    forall|a: int, b: int| 0 <= a < routes.len() && 0 <= b < routes.len() && a != b
        ==> (#[trigger] routes[a]).0@ != (#[trigger] routes[b]).0@
}

/// The greatest node id among the route keys.
pub open spec fn max_route_id(routes: Seq<(String, String)>) -> nat
    decreases routes.len(),
{
    if routes.len() == 0 {
        0
    } else {
        let rest = max_route_id(routes.drop_last());
        let last = route_id(routes.last().0@);
        if last > rest { last } else { rest }
    }
}

/// The authority text of the route whose key is the decimal text of `i`.
pub open spec fn route_text(routes: Seq<(String, String)>, i: nat) -> Option<Seq<char>> {
    if exists|k: int| 0 <= k < routes.len() && (#[trigger] routes[k]).0@ == decimal(i) {
        let k = choose|k: int| 0 <= k < routes.len() && (#[trigger] routes[k]).0@ == decimal(i);
        Some(routes[k].1@)
    } else {
        None
    }
}

/// What the check of the route to a node finds.
pub enum RouteCheck {
    /// No route names the node.
    Missing,
    /// The route's text is not an authority.
    BadAuthority,
    /// The authority has no port.
    NoPort,
    /// The authority and its port.
    Good(Seq<char>, u16),
}

/// What the check of the route to node `i` finds.
pub open spec fn route_check(routes: Seq<(String, String)>, i: nat) -> RouteCheck {
    match route_text(routes, i) {
        None => RouteCheck::Missing,
        Some(t) => if !authority_accepts(t) {
            RouteCheck::BadAuthority
        } else {
            match authority_port(t) {
                None => RouteCheck::NoPort,
                Some(p) => RouteCheck::Good(t, p),
            }
        },
    }
}

/// The first node below `upto` whose route fails its check.
pub open spec fn first_bad_route(routes: Seq<(String, String)>, upto: nat) -> Option<nat>
    decreases upto,
{
    if upto == 0 {
        None
    } else {
        match first_bad_route(routes, (upto - 1) as nat) {
            Some(i) => Some(i),
            None => if route_check(routes, (upto - 1) as nat) is Good {
                None
            } else {
                Some((upto - 1) as nat)
            },
        }
    }
}

/// Why the settings are refused, in the order the checks are made.
pub enum ConfigProblem {
    MissingId,
    MissingAdj,
    Adj(AdjError),
    BadTarget,
    MissingTarget,
    EmptyRoutes,
    IncompleteRoutes,
    InvalidAuthority,
    MissingPort,
}

impl ConfigProblem {
    /// The error that reports this problem.
    pub open spec fn reported_by(self, e: ConfigError) -> bool {
        match self {
            ConfigProblem::MissingId => e matches ConfigError::MissingKey(k) && k@ == "id"@,
            ConfigProblem::MissingAdj => e matches ConfigError::MissingKey(k) && k@ == "adj"@,
            ConfigProblem::Adj(a) => e == ConfigError::Adj(a),
            ConfigProblem::BadTarget => e matches ConfigError::InvalidValue(k) && k@ == "target_node"@,
            ConfigProblem::MissingTarget => e matches ConfigError::MissingKey(k) && k@ == "target_node"@,
            ConfigProblem::EmptyRoutes => e matches ConfigError::InvalidValue(k) && k@ == "Route list is empty"@,
            ConfigProblem::IncompleteRoutes => e matches ConfigError::InvalidValue(k) && k@
                == "Route list is incomplete"@,
            ConfigProblem::InvalidAuthority => e matches ConfigError::InvalidValue(k) && k@
                == "Route list has invalid authority"@,
            ConfigProblem::MissingPort => e matches ConfigError::InvalidValue(k) && k@ == "A route is missing port"@,
        }
    }
}

impl RawConfig {
    /// The settings before the routes are valid: id, matrix and target node.
    pub open spec fn settings_problem(&self) -> Option<ConfigProblem> {
        match self.id {
            None => Some(ConfigProblem::MissingId),
            Some(id) => match self.adj {
                None => Some(ConfigProblem::MissingAdj),
                Some(ra) => if !ra.dims_ok() {
                    Some(ConfigProblem::Adj(AdjError::BadDimensions))
                } else if !ra.network().connected() {
                    Some(ConfigProblem::Adj(AdjError::NotConnected))
                } else {
                    match self.target_node {
                        Some(t) => if t >= ra.n { Some(ConfigProblem::BadTarget) } else { None },
                        None => if id >= ra.n { Some(ConfigProblem::MissingTarget) } else { None },
                    }
                },
            },
        }
    }

    /// Why the settings are refused, if they are.
    pub open spec fn problem(&self) -> Option<ConfigProblem> {
        match self.settings_problem() {
            Some(p) => Some(p),
            None => match self.routes {
                None => Some(ConfigProblem::EmptyRoutes),
                Some(rs) => if rs@.len() == 0 {
                    Some(ConfigProblem::EmptyRoutes)
                } else {
                    match first_bad_route(rs@, max_route_id(rs@) + 1) {
                        None => None,
                        Some(i) => match route_check(rs@, i) {
                            RouteCheck::Missing => Some(ConfigProblem::IncompleteRoutes),
                            RouteCheck::BadAuthority => Some(ConfigProblem::InvalidAuthority),
                            _ => Some(ConfigProblem::MissingPort),
                        },
                    }
                },
            },
        }
    }

    /// The routes are checked once the other settings pass.
    pub open spec fn routes_checked(&self) -> bool {
        &&& self.settings_problem() is None
        &&& self.routes matches Some(rs) && rs@.len() > 0
    }

    /// Validates the settings and builds the node's configuration: the id and the
    /// matrix must be there and the matrix valid, a node outside the matrix needs
    /// a target node inside it, and the routes must name every node from 0 up to
    /// the greatest id, each with an authority that has a port.
    pub fn to_valid(&self) -> (res: Result<Config, ConfigError>)
        requires
            self.adj matches Some(ra) ==> (ra.matrix@.len() == ra.n ==> ra.n * ra.n <= usize::MAX),
            self.adj matches Some(ra) ==> (ra.dims_ok() ==> indexable(ra.n)),
            self.routes matches Some(rs) ==> route_keys_distinct(rs@),
            self.routes_checked() ==> route_keys_numeric(self.routes->0@),
            self.routes_checked() ==> max_route_id(self.routes->0@) < u32::MAX,
        ensures
            match self.problem() {
                Some(p) => res matches Err(e) && p.reported_by(e),
                None => res matches Ok(c) && {
                    &&& c.id == self.id->0
                    &&& c.target_node == self.target_node
                    &&& c.listen_ip == (match self.listen_ip {
                        Some(ip) => ip,
                        None => ListenIp::V4(0, 0, 0, 0),
                    })
                    &&& c.adj@ == self.adj->0.network()
                    &&& c.routes@.len() == max_route_id(self.routes->0@) + 1
                    &&& forall|i: int| 0 <= i < c.routes@.len() ==> route_check(self.routes->0@, i as nat)
                        == RouteCheck::Good((#[trigger] c.routes@[i]).authority@, c.routes@[i].port)
                },
            },
    {
        let id = match self.id {
            Some(id) => id,
            None => return Err(ConfigError::MissingKey("id")),
        };
        let raw_adj = match &self.adj {
            Some(raw_adj) => raw_adj,
            None => return Err(ConfigError::MissingKey("adj")),
        };
        let adj = match raw_adj.to_valid() {
            Ok(adj) => adj,
            Err(e) => return Err(ConfigError::Adj(e)),
        };
        let target_node = self.target_node;
        match target_node {
            Some(val) => {
                if val >= adj.n {
                    return Err(ConfigError::InvalidValue("target_node"));
                }
            },
            None => {
                if id >= adj.n {
                    return Err(ConfigError::MissingKey("target_node"));
                }
            },
        }
        let listen_ip = match self.listen_ip {
            Some(ip) => ip,
            None => ListenIp::V4(0, 0, 0, 0),
        };
        let route_map = match &self.routes {
            Some(route_map) => route_map,
            None => return Err(ConfigError::InvalidValue("Route list is empty")),
        };
        if route_map.len() == 0 {
            return Err(ConfigError::InvalidValue("Route list is empty"));
        }
        let max_id = greatest_route_id(route_map);
        let mut routes: Vec<Route> = Vec::new();
        let mut i: u32 = 0;
        while i <= max_id
            invariant
                route_map@.len() > 0,
                self.settings_problem() is None,
                self.routes == Some(*route_map),
                route_keys_distinct(route_map@),
                max_id == max_route_id(route_map@),
                max_id < u32::MAX,
                i <= max_id + 1,
                routes@.len() == i,
                first_bad_route(route_map@, i as nat) is None,
                forall|k: int| 0 <= k < i ==> route_check(route_map@, k as nat)
                    == RouteCheck::Good((#[trigger] routes@[k]).authority@, routes@[k].port),
            decreases max_id + 1 - i,
        {
            let found = find_route(route_map, i);
            proof {
                assert(first_bad_route(route_map@, (i + 1) as nat) == (if route_check(route_map@, i as nat) is Good {
                    None::<nat>
                } else {
                    Some(i as nat)
                }));
            }
            let text = match found {
                None => {
                    proof {
                        lemma_first_bad_stays(route_map@, (i + 1) as nat, (max_id + 1) as nat);
                    }
                    return Err(ConfigError::InvalidValue("Route list is incomplete"));
                },
                Some(k) => &route_map[k].1,
            };
            match parse_authority(text.as_str()) {
                None => {
                    proof {
                        lemma_first_bad_stays(route_map@, (i + 1) as nat, (max_id + 1) as nat);
                    }
                    return Err(ConfigError::InvalidValue("Route list has invalid authority"));
                },
                Some((authority, port)) => match port {
                    None => {
                        proof {
                            lemma_first_bad_stays(route_map@, (i + 1) as nat, (max_id + 1) as nat);
                        }
                        return Err(ConfigError::InvalidValue("A route is missing port"));
                    },
                    Some(port) => {
                        routes.push(Route { authority, port });
                    },
                },
            }
            i = i + 1;
        }
        Ok(Config { id, target_node, listen_ip, adj, routes })
    }
}

/// Whether node `i` asks node `j` to connect: it has an edge to `j` that `j`
/// does not return, or the edge goes both ways and `i` has the lower id.
pub open spec fn initiates(adj: AdjView, i: u32, j: u32) -> bool {
    let outgoing = adj.cell(i, j);
    let incoming = adj.cell(j, i);
    if outgoing && incoming { i < j } else { outgoing }
}

/// Whether node `i` waits for node `j` to connect.
pub open spec fn awaits(adj: AdjView, i: u32, j: u32) -> bool {
    let outgoing = adj.cell(i, j);
    let incoming = adj.cell(j, i);
    if outgoing && incoming { !(i < j) } else { incoming }
}

/// The nodes below `k`, in order, that satisfy `pick`.
pub open spec fn nodes_below(k: nat, pick: spec_fn(u32) -> bool) -> Seq<u32>
    decreases k,
{
    if k == 0 {
        Seq::empty()
    } else {
        let rest = nodes_below((k - 1) as nat, pick);
        if pick((k - 1) as u32) { rest.push((k - 1) as u32) } else { rest }
    }
}

/// Whether the index of every cell from or to node `id` fits in a `u32`.
pub open spec fn cells_fit(adj: AdjView, id: u32) -> bool {
    forall|j: u32| j < adj.n ==> #[trigger] (id * adj.n + j) <= u32::MAX && j * adj.n + id <= u32::MAX
}

/// Whether the index of every cell from or to node `id` in `adj` fits in a `u32`.
pub fn fits_cells(adj: &Adj, id: u32) -> (res: bool)
    ensures
        res == cells_fit(adj@, id),
{
    let n = adj.n as u64;
    let id64 = id as u64;
    if n == 0 {
        return true;
    }
    proof {
        assert(id64 * n <= 0xffff_ffff * 0xffff_ffff) by (nonlinear_arith)
            requires
                id64 <= 0xffff_ffff,
                n <= 0xffff_ffff,
        ;
        assert((n - 1) * n <= 0xffff_ffff * 0xffff_ffff) by (nonlinear_arith)
            requires
                n <= 0xffff_ffff,
                n >= 1,
        ;
    }
    let fits = id64 * n + (n - 1) <= u32::MAX as u64 && (n - 1) * n + id64 <= u32::MAX as u64;
    proof {
        let a = adj@;
        let last = (adj.n - 1) as u32;
        if fits {
            assert forall|j: u32| j < a.n implies #[trigger] (id * a.n + j) <= u32::MAX && j * a.n
                + id <= u32::MAX by {
                assert(j * a.n <= (a.n - 1) * a.n) by (nonlinear_arith)
                    requires
                        j <= a.n - 1,
                ;
            }
        } else {
            assert(id * a.n + last > u32::MAX || last * a.n + id > u32::MAX);
        }
    }
    fits
}

/// The matrix after the outside node `node_id` joins through `target`, as
/// `apply_outside_connection` makes it: grown to `node_id + 1` nodes when the
/// node lies beyond it, the node brought back into the network, and the cell
/// from the node to the target set.
pub open spec fn joined(adj: AdjView, node_id: u32, target: u32) -> AdjView {
    let base = if node_id >= adj.n {
        expanded(adj, (node_id + 1) as u32)
    } else {
        adj
    };
    AdjView {
        n: base.n,
        data: if node_id != target {
            base.data.update(node_id * base.n + target, true)
        } else {
            base.data
        },
        deactivated: base.deactivated.remove(node_id),
    }
}

/// The kinds of cell `print_adj` shows.
#[derive(Debug, Clone, Copy, PartialEq, Eq, Structural)]
pub enum AdjCell {
    NoEdge,
    Edge,
    Disconnected,
}

impl Config {
    /// Whether a node is outside the network: beyond the matrix or departed.
    pub open spec fn outside(&self, node_id: u32) -> bool {
        node_id >= self.adj.n || self.adj.deactivated@.contains(node_id)
    }

    /// Cell indices from or to this node cannot overflow.
    pub open spec fn own_cells_indexable(&self) -> bool {
        cells_fit(self.adj@, self.id)
    }

    /// Whether cell indices from or to this node cannot overflow.
    pub fn own_cells_fit(&self) -> (res: bool)
        ensures
            res == self.own_cells_indexable(),
    {
        fits_cells(&self.adj, self.id)
    }

    /// The authority text of node `id`.
    pub fn resolve_route(&self, id: u32) -> (res: String)
        requires
            id < self.routes@.len(),
        ensures
            res@ == self.routes@[id as int].authority@,
    {
        self.routes[id as usize].authority.clone()
    }

    /// The address and port this node listens on.
    pub fn get_listen_address(&self) -> (res: (ListenIp, u16))
        requires
            self.id < self.routes@.len(),
        ensures
            res == (self.listen_ip, self.routes@[self.id as int].port),
    {
        (self.listen_ip, self.routes[self.id as usize].port)
    }

    /// The nodes this node asks to connect to, and those it waits for. A node
    /// outside the network only asks its target node.
    pub fn get_nodes_to_connect(&self) -> (res: (Vec<u32>, Vec<u32>))
        requires
            self.outside(self.id) ==> self.target_node is Some,
            self.own_cells_indexable(),
        ensures
            self.outside(self.id) ==> res.0@ == seq![self.target_node->0] && res.1@ == Seq::<u32>::empty(),
            !self.outside(self.id) ==> res.0@ == nodes_below(self.adj.n as nat, |j: u32| initiates(self.adj@, self.id, j)),
            !self.outside(self.id) ==> res.1@ == nodes_below(self.adj.n as nat, |j: u32| awaits(self.adj@, self.id, j)),
    {
        if self.is_outside() {
            let t = self.target_node.unwrap();
            return (vec![t], Vec::new());
        }
        let i = self.id;
        let mut outgoing_nodes: Vec<u32> = Vec::new();
        let mut incoming_nodes: Vec<u32> = Vec::new();
        let mut j: u32 = 0;
        while j < self.adj.n
            invariant
                i == self.id,
                self.own_cells_indexable(),
                j <= self.adj.n,
                outgoing_nodes@ == nodes_below(j as nat, |j: u32| initiates(self.adj@, i, j)),
                incoming_nodes@ == nodes_below(j as nat, |j: u32| awaits(self.adj@, i, j)),
            decreases self.adj.n - j,
        {
            assert(i * self.adj@.n + j <= u32::MAX);
            let outgoing = self.adj.get_with_deactivated(i, j);
            let incoming = self.adj.get_with_deactivated(j, i);
            let bidirectional = outgoing && incoming;
            let has_priority = i < j;
            if bidirectional {
                if has_priority {
                    outgoing_nodes.push(j);
                } else {
                    incoming_nodes.push(j);
                }
            } else if outgoing {
                outgoing_nodes.push(j);
            } else if incoming {
                incoming_nodes.push(j);
            }
            j = j + 1;
        }
        (outgoing_nodes, incoming_nodes)
    }

    /// The nodes linked to this one, in either direction.
    pub fn get_adjacent_nodes(&self) -> (res: HashSet<u32>)
        requires
            self.own_cells_indexable(),
        ensures
            res@ == Set::new(|j: u32| j < self.adj.n && (self.adj@.edge(self.id, j) || self.adj@.edge(j, self.id))
                && self.id != j),
    {
        let i = self.id;
        let mut set = HashSet::new();
        let mut j: u32 = 0;
        while j < self.adj.n
            invariant
                i == self.id,
                self.own_cells_indexable(),
                j <= self.adj.n,
                set@ == Set::new(|m: u32| m < j && (self.adj@.edge(i, m) || self.adj@.edge(m, i)) && i != m),
            decreases self.adj.n - j,
        {
            assert(i * self.adj@.n + j <= u32::MAX);
            if (self.adj.get(i, j) || self.adj.get(j, i)) && i != j {
                set.insert(j);
            }
            assert(set@ =~= Set::new(|m: u32| m < j + 1 && (self.adj@.edge(i, m) || self.adj@.edge(m, i)) && i != m));
            j = j + 1;
        }
        assert(set@ =~= Set::new(|m: u32| m < self.adj.n && (self.adj@.edge(i, m) || self.adj@.edge(m, i)) && i != m));
        set
    }

    /// Installs a new matrix.
    pub fn replace_adj(&mut self, new_adj: Adj)
        ensures
            final(self).adj@ == new_adj@,
            final(self).id == old(self).id,
            final(self).target_node == old(self).target_node,
            final(self).listen_ip == old(self).listen_ip,
            final(self).routes@ == old(self).routes@,
    {
        self.adj = new_adj;
    }

    /// Whether `node_id` is outside the network.
    pub fn is_node_outside(&self, node_id: &u32) -> (res: bool)
        ensures
            res == self.outside(*node_id),
    {
        *node_id >= self.adj.n || self.adj.is_deactivated(node_id)
    }

    /// Whether this node is outside the network.
    pub fn is_outside(&self) -> (res: bool)
        ensures
            res == self.outside(self.id),
    {
        self.is_node_outside(&self.id)
    }

    /// Whether `node_id` has not left the network.
    pub fn is_node_active(&self, node_id: &u32) -> (res: bool)
        ensures
            res == self.adj@.active(*node_id),
    {
        self.adj.is_activated(node_id)
    }

    /// The matrix after the outside node `node_id` joins through `target_node`:
    /// grown to hold the node if needed, the node brought back into the
    /// network, and an edge set from it to the target.
    pub fn apply_outside_connection(&self, node_id: u32, target_node: u32) -> (res: Adj)
        requires
            node_id >= self.adj.n ==> node_id < u32::MAX && (node_id + 1) * (node_id + 1) <= u32::MAX
                && (node_id != target_node ==> target_node <= node_id),
            node_id < self.adj.n && node_id != target_node ==> node_id * self.adj.n + target_node
                < self.adj.data@.len() && node_id * self.adj.n + target_node <= u32::MAX,
        ensures
            node_id >= self.adj.n ==> {
                &&& res.n == node_id + 1
                &&& res.data@.len() == res.n * res.n
                &&& forall|i: u32, j: u32| i < res.n && j < res.n ==> #[trigger] Adj::stored(res.data@, res.n, i, j)
                    == ((i == node_id && j == target_node && i != j) || (i < self.adj.n && j < self.adj.n
                    && self.adj@.edge(i, j)))
                &&& res.deactivated@ == self.adj.deactivated@.union(Set::new(|k: u32| self.adj.n <= k < res.n)).remove(node_id)
            },
            node_id < self.adj.n ==> {
                &&& res.n == self.adj.n
                &&& res.data@ == (if node_id != target_node {
                    self.adj.data@.update(node_id * self.adj.n + target_node, true)
                } else {
                    self.adj.data@
                })
                &&& res.deactivated@ == self.adj.deactivated@.remove(node_id)
            },
            res@.member(node_id),
            target_node != node_id && target_node < res.n && res@.active(target_node)
                ==> res@.linked(node_id, target_node),
            self.adj@.connected() && self.adj@.member(target_node) && target_node != node_id ==> res@.connected(),
            res@ == joined(self.adj@, node_id, target_node),
    {
        let mut new_adj: Adj;
        if node_id >= self.adj.n {
            new_adj = self.adj.expand(node_id + 1);
        } else {
            new_adj = self.adj.clone();
        }
        let ghost base = new_adj;
        assert(base@ == (if node_id >= self.adj.n { expanded(self.adj@, (node_id + 1) as u32) } else { self.adj@ }));
        new_adj.activate_node(&node_id);
        proof {
            if node_id >= self.adj.n && node_id != target_node {
                crate::adj::lemma_index_fits((node_id + 1) as u32, node_id, target_node);
            }
        }
        new_adj.set(node_id, target_node, true);
        proof {
            if node_id >= self.adj.n {
                let nn: u32 = (node_id + 1) as u32;
                assert forall|i: u32, j: u32| i < nn && j < nn implies #[trigger] Adj::stored(new_adj.data@, nn, i, j)
                    == ((i == node_id && j == target_node && i != j) || (i < self.adj.n && j < self.adj.n
                    && self.adj@.edge(i, j))) by {
                    crate::adj::lemma_index_fits(nn, i, j);
                    if node_id != target_node {
                        if i * nn + j == node_id * nn + target_node {
                            crate::adj::lemma_index_injective(nn, i, j, node_id, target_node);
                        }
                    }
                    assert(Adj::stored(base.data@, nn, i, j) == (i < self.adj.n && j < self.adj.n && self.adj@.edge(i, j)));
                }
                if target_node != node_id && target_node < new_adj.n && new_adj@.active(target_node) {
                    assert(Adj::stored(new_adj.data@, nn, node_id, target_node));
                    crate::adj::lemma_index_fits(nn, node_id, target_node);
                }
            } else {
                if target_node != node_id && target_node < new_adj.n && new_adj@.active(target_node) {
                    assert(new_adj.data@[node_id * self.adj.n + target_node]);
                }
            }
            if self.adj@.connected() && self.adj@.member(target_node) && target_node != node_id {
                let old = self.adj@;
                let new = new_adj@;
                assert forall|i: u32| #[trigger] old.member(i) implies new.member(i) by {}
                assert forall|x: u32| #[trigger] new.member(x) implies x == node_id || old.member(x) by {}
                assert forall|i: u32, j: u32| #[trigger] old.linked(i, j) implies new.linked(i, j) by {
                    if node_id >= self.adj.n {
                        let nn: u32 = (node_id + 1) as u32;
                        crate::adj::lemma_index_fits(nn, i, j);
                        crate::adj::lemma_index_fits(nn, j, i);
                        assert(Adj::stored(new_adj.data@, nn, i, j) == ((i == node_id && j == target_node && i != j)
                            || (i < self.adj.n && j < self.adj.n && self.adj@.edge(i, j))));
                        assert(Adj::stored(new_adj.data@, nn, j, i) == ((j == node_id && i == target_node && i != j)
                            || (j < self.adj.n && i < self.adj.n && self.adj@.edge(j, i))));
                    } else {
                        if old.edge(i, j) {
                            assert(new.cell(i, j));
                        }
                        if old.edge(j, i) {
                            assert(new.cell(j, i));
                        }
                    }
                }
                lemma_join_connected(old, new, node_id, target_node);
            }
            let j = joined(self.adj@, node_id, target_node);
            assert(new_adj@.data =~= j.data);
            assert(new_adj@.deactivated =~= j.deactivated);
        }
        new_adj
    }

    /// The matrix as `print_adj` shows it, row by row: a cell of a departed node
    /// shows as disconnected, any other as its stored value.
    pub fn adj_rows(&self) -> (rows: Vec<Vec<AdjCell>>)
        requires
            self.adj.n > 0,
        ensures
            rows@.len() == (self.adj.data@.len() + self.adj.n - 1) / (self.adj.n as int),
            forall|r: int| 0 <= r < rows@.len() ==> (#[trigger] rows@[r])@.len() == (if (r + 1) * self.adj.n
                <= self.adj.data@.len() { self.adj.n as int } else { self.adj.data@.len() - r * self.adj.n }),
            forall|r: int, c: int| 0 <= r < rows@.len() && 0 <= c < rows@[r]@.len() ==> #[trigger] rows@[r]@[c]
                == (if self.adj.deactivated@.contains(r as u32) || self.adj.deactivated@.contains(c as u32) {
                AdjCell::Disconnected
            } else if self.adj.data@[r * self.adj.n + c] {
                AdjCell::Edge
            } else {
                AdjCell::NoEdge
            }),
    {
        let n = self.adj.n as usize;
        let len = self.adj.data.len();
        let mut rows: Vec<Vec<AdjCell>> = Vec::new();
        let mut start: usize = 0;
        let mut r: usize = 0;
        while start < len
            invariant
                n == self.adj.n,
                n > 0,
                len == self.adj.data@.len(),
                start <= len,
                start == (if r * n <= len { r * n } else { len as int }),
                r * n < len + n,
                rows@.len() == r,
                forall|q: int| 0 <= q < r ==> (#[trigger] rows@[q])@.len() == (if (q + 1) * self.adj.n
                    <= self.adj.data@.len() { self.adj.n as int } else { self.adj.data@.len() - q * self.adj.n }),
                forall|q: int, c: int| 0 <= q < r && 0 <= c < rows@[q]@.len() ==> #[trigger] rows@[q]@[c]
                    == (if self.adj.deactivated@.contains(q as u32) || self.adj.deactivated@.contains(c as u32) {
                    AdjCell::Disconnected
                } else if self.adj.data@[q * self.adj.n + c] {
                    AdjCell::Edge
                } else {
                    AdjCell::NoEdge
                }),
            decreases len - start,
        {
            proof {
                assert(r <= r * n) by (nonlinear_arith)
                    requires
                        n > 0,
                ;
                assert((r + 1) * n == r * n + n) by (nonlinear_arith);
            }
            let end = if len - start >= n { start + n } else { len };
            let mut row: Vec<AdjCell> = Vec::new();
            let mut c: usize = 0;
            while start + c < end
                invariant
                    n == self.adj.n,
                    start == r * n,
                    start < end <= len,
                    end - start <= n,
                    len == self.adj.data@.len(),
                    row@.len() == c,
                    start + c <= end,
                    forall|m: int| 0 <= m < c ==> #[trigger] row@[m]
                        == (if self.adj.deactivated@.contains(r as u32) || self.adj.deactivated@.contains(m as u32) {
                        AdjCell::Disconnected
                    } else if self.adj.data@[r * self.adj.n + m] {
                        AdjCell::Edge
                    } else {
                        AdjCell::NoEdge
                    }),
                decreases end - start - c,
            {
                let cell = if self.adj.is_deactivated(&(r as u32)) || self.adj.is_deactivated(&(c as u32)) {
                    AdjCell::Disconnected
                } else if self.adj.data[start + c] {
                    AdjCell::Edge
                } else {
                    AdjCell::NoEdge
                };
                row.push(cell);
                c = c + 1;
            }
            rows.push(row);
            start = end;
            r = r + 1;
        }
        proof {
            let l = len as int;
            let nn = n as int;
            let rr = r as int;
            assert((l + nn - 1) / nn == rr) by (nonlinear_arith)
                requires
                    l <= rr * nn,
                    rr * nn < l + nn,
                    nn > 0,
                    l >= 0,
            {
                let q = (l + nn - 1) / nn;
                vstd::arithmetic::div_mod::lemma_fundamental_div_mod(l + nn - 1, nn);
                vstd::arithmetic::div_mod::lemma_mod_pos_bound(l + nn - 1, nn);
            }
        }
        rows
    }
}

/// The first value that is there in a list of optional values.
pub open spec fn first_present<T>(values: Seq<Option<T>>) -> Option<T>
    decreases values.len(),
{
    if values.len() == 0 {
        None
    } else {
        match values[0] {
            Some(v) => Some(v),
            None => first_present(values.drop_first()),
        }
    }
}

impl RawConfig {
    /// Combines two sets of settings; where both have a setting, `a` wins.
    pub fn merge(a: RawConfig, b: RawConfig) -> (res: RawConfig)
        ensures
            res.id == (if a.id is Some { a.id } else { b.id }),
            res.target_node == (if a.target_node is Some { a.target_node } else { b.target_node }),
            res.listen_ip == (if a.listen_ip is Some { a.listen_ip } else { b.listen_ip }),
            res.adj == (if a.adj is Some { a.adj } else { b.adj }),
            res.routes == (if a.routes is Some { a.routes } else { b.routes }),
    {
        RawConfig {
            id: if a.id.is_some() { a.id } else { b.id },
            target_node: if a.target_node.is_some() { a.target_node } else { b.target_node },
            listen_ip: if a.listen_ip.is_some() { a.listen_ip } else { b.listen_ip },
            adj: match a.adj {
                Some(adj) => Some(adj),
                None => b.adj,
            },
            routes: match a.routes {
                Some(routes) => Some(routes),
                None => b.routes,
            },
        }
    }

    /// Combines the settings of the files that were found, in order; the first
    /// file that has a setting decides it. No files, no settings.
    pub fn merge_all(configs: Vec<RawConfig>) -> (res: Option<RawConfig>)
        ensures
            configs@.len() == 0 <==> res is None,
            res matches Some(c) ==> {
                &&& c.id == first_present(configs@.map_values(|r: RawConfig| r.id))
                &&& c.target_node == first_present(configs@.map_values(|r: RawConfig| r.target_node))
                &&& c.listen_ip == first_present(configs@.map_values(|r: RawConfig| r.listen_ip))
                &&& c.adj == first_present(configs@.map_values(|r: RawConfig| r.adj))
                &&& c.routes == first_present(configs@.map_values(|r: RawConfig| r.routes))
            },
    {
        let ghost all = configs@;
        let mut cfg: Option<RawConfig> = None;
        let mut k: usize = 0;
        for cfg2 in it: configs
            invariant
                it.seq() == all,
                (it.index() == 0) <==> cfg is None,
                cfg matches Some(c) ==> {
                    let done = all.take(it.index() as int);
                    &&& c.id == first_present(done.map_values(|r: RawConfig| r.id))
                    &&& c.target_node == first_present(done.map_values(|r: RawConfig| r.target_node))
                    &&& c.listen_ip == first_present(done.map_values(|r: RawConfig| r.listen_ip))
                    &&& c.adj == first_present(done.map_values(|r: RawConfig| r.adj))
                    &&& c.routes == first_present(done.map_values(|r: RawConfig| r.routes))
                },
        {
            let ghost done = all.take(it.index() as int);
            let ghost next = all.take(it.index() as int + 1);
            proof {
                assert(next =~= done.push(cfg2));
                lemma_first_present_push(done.map_values(|r: RawConfig| r.id), cfg2.id);
                assert(next.map_values(|r: RawConfig| r.id) =~= done.map_values(|r: RawConfig| r.id).push(cfg2.id));
                lemma_first_present_push(done.map_values(|r: RawConfig| r.target_node), cfg2.target_node);
                assert(next.map_values(|r: RawConfig| r.target_node) =~= done.map_values(|r: RawConfig| r.target_node).push(cfg2.target_node));
                lemma_first_present_push(done.map_values(|r: RawConfig| r.listen_ip), cfg2.listen_ip);
                assert(next.map_values(|r: RawConfig| r.listen_ip) =~= done.map_values(|r: RawConfig| r.listen_ip).push(cfg2.listen_ip));
                lemma_first_present_push(done.map_values(|r: RawConfig| r.adj), cfg2.adj);
                assert(next.map_values(|r: RawConfig| r.adj) =~= done.map_values(|r: RawConfig| r.adj).push(cfg2.adj));
                lemma_first_present_push(done.map_values(|r: RawConfig| r.routes), cfg2.routes);
                assert(next.map_values(|r: RawConfig| r.routes) =~= done.map_values(|r: RawConfig| r.routes).push(cfg2.routes));
                if it.index() == 0 {
                    assert(done.len() == 0);
                }
            }
            cfg = match cfg {
                Some(cfg1) => Some(RawConfig::merge(cfg1, cfg2)),
                None => Some(cfg2),
            };
        }
        proof {
            assert(all.take(all.len() as int) =~= all);
        }
        cfg
    }
}

/// A network that was connected stays connected when a node joins it through
/// one of its members: every old member reaches the target, and the new node
/// is linked to the target.
proof fn lemma_join_connected(old: AdjView, new: AdjView, node_id: u32, target: u32)
    requires
        old.connected(),
        old.member(target),
        forall|i: u32| #[trigger] old.member(i) ==> new.member(i),
        forall|x: u32| #[trigger] new.member(x) ==> x == node_id || old.member(x),
        forall|i: u32, j: u32| #[trigger] old.linked(i, j) ==> new.linked(i, j),
        new.member(node_id),
        new.linked(node_id, target),
    ensures
        new.connected(),
{
    assert(new.member(target));
    new.lemma_reaches_self(node_id);
    new.lemma_reaches_step(node_id, node_id, target);
    assert forall|x: u32, y: u32| new.member(x) && new.member(y) implies #[trigger] new.reaches(x, y) by {
        if old.member(x) && old.member(y) {
            assert(old.reaches(x, y));
            old.lemma_reaches_grow(new, x, y);
        } else if x == node_id && y == node_id {
            new.lemma_reaches_self(x);
        } else if x == node_id {
            assert(old.reaches(target, y));
            old.lemma_reaches_grow(new, target, y);
            new.lemma_reaches_trans(node_id, target, y);
        } else {
            assert(y == node_id);
            assert(old.reaches(x, target));
            old.lemma_reaches_grow(new, x, target);
            new.lemma_reaches_symmetric(node_id, target);
            new.lemma_reaches_trans(x, target, node_id);
        }
    }
}

/// Adding a value at the end only matters when none came before.
proof fn lemma_first_present_push<T>(values: Seq<Option<T>>, v: Option<T>)
    ensures
        first_present(values.push(v)) == (if first_present(values) is Some { first_present(values) } else { v }),
    decreases values.len(),
{
    if values.len() == 0 {
        assert(values.push(v).drop_first() =~= Seq::<Option<T>>::empty());
        reveal_with_fuel(first_present, 2);
    } else {
        assert(values.push(v).drop_first() =~= values.drop_first().push(v));
        lemma_first_present_push(values.drop_first(), v);
    }
}

/// Of two distinct nodes joined by an edge in either direction, exactly one asks
/// the other to connect, and the other waits for it; so every connection is made once.
pub proof fn law_one_side_connects(adj: AdjView, i: u32, j: u32)
    requires
        i != j,
        i < adj.n,
        j < adj.n,
    ensures
        nodes_below(adj.n as nat, |m: u32| initiates(adj, i, m)).contains(j)
            <==> nodes_below(adj.n as nat, |m: u32| awaits(adj, j, m)).contains(i),
        (adj.cell(i, j) || adj.cell(j, i)) ==> (nodes_below(adj.n as nat, |m: u32| initiates(adj, i, m)).contains(j)
            != nodes_below(adj.n as nat, |m: u32| initiates(adj, j, m)).contains(i)),
        !(adj.cell(i, j) || adj.cell(j, i)) ==> !nodes_below(adj.n as nat, |m: u32| initiates(adj, i, m)).contains(j),
{
    lemma_nodes_below_contains(adj.n as nat, |m: u32| initiates(adj, i, m), j);
    lemma_nodes_below_contains(adj.n as nat, |m: u32| awaits(adj, j, m), i);
    lemma_nodes_below_contains(adj.n as nat, |m: u32| initiates(adj, j, m), i);
}

/// A node is listed exactly when it is below `k` and picked.
pub proof fn lemma_nodes_below_contains(k: nat, pick: spec_fn(u32) -> bool, x: u32)
    requires
        k <= u32::MAX + 1,
    ensures
        nodes_below(k, pick).contains(x) <==> (x < k && pick(x)),
    decreases k,
{
    if k > 0 {
        lemma_nodes_below_contains((k - 1) as nat, pick, x);
        let rest = nodes_below((k - 1) as nat, pick);
        if pick((k - 1) as u32) {
            vstd::seq_lib::lemma_seq_contains_after_push(rest, (k - 1) as u32, x);
        }
    }
}

/// Once a failing route is found below `k`, it stays the first failing route below any `m >= k`.
proof fn lemma_first_bad_stays(routes: Seq<(String, String)>, k: nat, m: nat)
    requires
        k <= m,
        first_bad_route(routes, k) is Some,
    ensures
        first_bad_route(routes, m) == first_bad_route(routes, k),
    decreases m - k,
{
    if k < m {
        lemma_first_bad_stays(routes, k, (m - 1) as nat);
    }
}

/// The greatest node id among the route keys, each read as `str::parse` reads a `u32`.
fn greatest_route_id(routes: &Vec<(String, String)>) -> (res: u32)
    requires
        routes@.len() > 0,
        route_keys_numeric(routes@),
        max_route_id(routes@) < u32::MAX,
    ensures
        res == max_route_id(routes@),
{
    let mut best: u32 = 0;
    let mut k: usize = 0;
    while k < routes.len()
        invariant
            k <= routes@.len(),
            route_keys_numeric(routes@),
            best == max_route_id(routes@.take(k as int)),
        decreases routes@.len() - k,
    {
        let key = chars_of(routes[k].0.as_str());
        let parsed = parse_unsigned_in(&key, 0, key.len(), u32::MAX as u64);
        assert(key@.subrange(0, key@.len() as int) =~= routes@[k as int].0@);
        assert(parse_unsigned(routes@[k as int].0@, u32::MAX as nat) is Some);
        let v = parsed.unwrap() as u32;
        assert(routes@.take(k as int + 1).drop_last() =~= routes@.take(k as int));
        if v > best {
            best = v;
        }
        k = k + 1;
    }
    assert(routes@.take(routes@.len() as int) =~= routes@);
    best
}

/// The route whose key is the decimal text of `i`, if any.
fn find_route(routes: &Vec<(String, String)>, i: u32) -> (res: Option<usize>)
    requires
        route_keys_distinct(routes@),
    ensures
        match res {
            None => route_text(routes@, i as nat) is None,
            Some(k) => k < routes@.len() && route_text(routes@, i as nat) == Some(routes@[k as int].1@),
        },
{
    let key = decimal_text(i as u64);
    let mut k: usize = 0;
    while k < routes.len()
        invariant
            k <= routes@.len(),
            route_keys_distinct(routes@),
            key@ == decimal(i as nat),
            forall|m: int| 0 <= m < k ==> (#[trigger] routes@[m]).0@ != decimal(i as nat),
        decreases routes@.len() - k,
    {
        if routes[k].0 == key {
            proof {
                let c = choose|c: int| 0 <= c < routes@.len() && (#[trigger] routes@[c]).0@ == decimal(i as nat);
                if c != k {
                    assert(routes@[c].0@ != routes@[k as int].0@);
                }
            }
            return Some(k);
        }
        k = k + 1;
    }
    None
}

} // verus!
