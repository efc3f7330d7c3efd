use vstd::prelude::*;

verus! {

/// One recorded call site: the textual call target, the file the call stands
/// in, and its 1-based line and column. `(0, 0)` means the position could not
/// be resolved.
pub struct CallEdge {
    pub callee: String,
    pub origin_file: String,
    pub line: usize,
    pub column: usize,
}

/// The mathematical value of a `CallEdge`.
pub ghost struct EdgeModel {
    pub callee: Seq<char>,
    pub origin_file: Seq<char>,
    pub line: int,
    pub column: int,
}

impl View for CallEdge {
    type V = EdgeModel;

    open spec fn view(&self) -> EdgeModel {
        EdgeModel {
            callee: self.callee@,
            origin_file: self.origin_file@,
            line: self.line as int,
            column: self.column as int,
        }
    }
}

/// The mathematical values of a vector of edges.
pub open spec fn edge_views(edges: Seq<CallEdge>) -> Seq<EdgeModel> {
    edges.map_values(|e: CallEdge| e@)
}

/// One caller with its outgoing edges, in the order they were recorded.
pub struct GraphEntry {
    pub name: String,
    pub edges: Vec<CallEdge>,
}

/// The mathematical value of a `GraphEntry`.
pub ghost struct EntryModel {
    pub name: Seq<char>,
    pub edges: Seq<EdgeModel>,
}

impl View for GraphEntry {
    type V = EntryModel;

    open spec fn view(&self) -> EntryModel {
        EntryModel { name: self.name@, edges: edge_views(self.edges@) }
    }
}

/// Whether some entry carries this caller name.
pub open spec fn has_name(g: Seq<EntryModel>, name: Seq<char>) -> bool {
    exists|i: int| 0 <= i < g.len() && g[i].name == name
}

/// The index of the entry carrying this caller name; meaningful only when
/// `has_name` holds, and unique under `graph_wf`.
pub open spec fn index_of_name(g: Seq<EntryModel>, name: Seq<char>) -> int {
    choose|i: int| 0 <= i < g.len() && g[i].name == name
}

/// The edges recorded under this caller name, or the empty sequence when the
/// name has no entry.
pub open spec fn edges_of(g: Seq<EntryModel>, name: Seq<char>) -> Seq<EdgeModel> {
    if has_name(g, name) {
        g[index_of_name(g, name)].edges
    } else {
        Seq::empty()
    }
}

/// Caller names are unique across entries.
pub open spec fn graph_wf(g: Seq<EntryModel>) -> bool {
    forall|i: int, j: int| 0 <= i < j < g.len() ==> g[i].name != g[j].name
}

/// One step of graph construction: a function definition was encountered, or
/// a call was recorded for its enclosing function.
pub ghost enum GEvent {
    /// A function definition named `name` was encountered.
    Decl { name: Seq<char> },
    /// A call described by `edge` was recorded inside the function named
    /// `caller`.
    Edge { caller: Seq<char>, edge: EdgeModel },
}

/// How one event changes the graph: a declaration inserts an entry with no
/// edges unless the name already has one; an edge is appended to its caller's
/// list, creating the entry if the caller has none yet.
pub open spec fn apply_event(g: Seq<EntryModel>, ev: GEvent) -> Seq<EntryModel> {
    match ev {
        GEvent::Decl { name } => if has_name(g, name) {
            g
        } else {
            g.push(EntryModel { name, edges: Seq::empty() })
        },
        GEvent::Edge { caller, edge } => if has_name(g, caller) {
            let i = index_of_name(g, caller);
            g.update(i, EntryModel { name: caller, edges: g[i].edges.push(edge) })
        } else {
            g.push(EntryModel { name: caller, edges: seq![edge] })
        },
    }
}

/// The graph after a sequence of events, applied first to last.
pub open spec fn apply_events(g: Seq<EntryModel>, evs: Seq<GEvent>) -> Seq<EntryModel>
    decreases evs.len(),
{
    if evs.len() == 0 {
        g
    } else {
        apply_events(apply_event(g, evs[0]), evs.drop_first())
    }
}

/// The names declared by a sequence of events.
pub open spec fn declared_names(evs: Seq<GEvent>) -> Set<Seq<char>>
    decreases evs.len(),
{
    if evs.len() == 0 {
        Set::empty()
    } else {
        let rest = declared_names(evs.drop_first());
        match evs[0] {
            GEvent::Decl { name } => rest.insert(name),
            GEvent::Edge { caller: _, edge: _ } => rest,
        }
    }
}

/// The edges a sequence of events records for one caller, in the order they
/// occur.
pub open spec fn edges_for(evs: Seq<GEvent>, name: Seq<char>) -> Seq<EdgeModel>
    decreases evs.len(),
{
    if evs.len() == 0 {
        Seq::empty()
    } else {
        let rest = edges_for(evs.drop_first(), name);
        match evs[0] {
            GEvent::Edge { caller, edge } => if caller == name {
                seq![edge] + rest
            } else {
                rest
            },
            GEvent::Decl { name: _ } => rest,
        }
    }
}

/// In a well-formed graph the entry carrying a name is the only one, so its
/// index is pinned.
proof fn lemma_index_unique(g: Seq<EntryModel>, name: Seq<char>, i: int)
    requires
        graph_wf(g),
        0 <= i < g.len(),
        g[i].name == name,
    ensures
        has_name(g, name),
        index_of_name(g, name) == i,
{
    assert(has_name(g, name));
    let k = index_of_name(g, name);
    assert(0 <= k < g.len() && g[k].name == name);
    if k < i {
        assert(g[k].name != g[i].name);
    }
    if i < k {
        assert(g[i].name != g[k].name);
    }
}

/// Applying an event keeps caller names unique.
pub proof fn lemma_apply_event_wf(g: Seq<EntryModel>, ev: GEvent)
    requires
        graph_wf(g),
    ensures
        graph_wf(apply_event(g, ev)),
{
    let g1 = apply_event(g, ev);
    match ev {
        GEvent::Decl { name } => {
            if !has_name(g, name) {
                assert forall|i: int, j: int| 0 <= i < j < g1.len() implies g1[i].name
                    != g1[j].name by {
                    if j == g1.len() - 1 {
                        assert(!has_name(g, name));
                    }
                }
            }
        },
        GEvent::Edge { caller, edge } => {
            if has_name(g, caller) {
                let k = index_of_name(g, caller);
                assert(0 <= k < g.len() && g[k].name == caller);
                assert forall|i: int, j: int| 0 <= i < j < g1.len() implies g1[i].name
                    != g1[j].name by {
                    assert(g1[i].name == g[i].name);
                    assert(g1[j].name == g[j].name);
                }
            } else {
                assert forall|i: int, j: int| 0 <= i < j < g1.len() implies g1[i].name
                    != g1[j].name by {
                    if j == g1.len() - 1 {
                        assert(!has_name(g, caller));
                    }
                }
            }
        },
    }
}

/// Applying an event never removes a caller's entry.
pub proof fn lemma_apply_event_keeps_names(g: Seq<EntryModel>, ev: GEvent, name: Seq<char>)
    requires
        has_name(g, name),
    ensures
        has_name(apply_event(g, ev), name),
{
    let g1 = apply_event(g, ev);
    let i = choose|i: int| 0 <= i < g.len() && g[i].name == name;
    assert(g1[i].name == name);
    assert(0 <= i < g1.len());
}

/// Every name declared by a sequence of events, and every name already
/// present, has an entry once the events are applied.
pub proof fn lemma_declared_names_present(g: Seq<EntryModel>, evs: Seq<GEvent>, name: Seq<char>)
    requires
        declared_names(evs).contains(name) || has_name(g, name),
    ensures
        has_name(apply_events(g, evs), name),
    decreases evs.len(),
{
    if evs.len() == 0 {
    } else {
        let g1 = apply_event(g, evs[0]);
        if has_name(g, name) {
            lemma_apply_event_keeps_names(g, evs[0], name);
        } else {
            match evs[0] {
                GEvent::Decl { name: n } => {
                    if n == name && !declared_names(evs.drop_first()).contains(name) {
                        assert(g1 == g.push(EntryModel { name, edges: Seq::empty() }));
                        assert(g1[g.len() as int].name == name);
                        assert(has_name(g1, name));
                    }
                },
                GEvent::Edge { caller: _, edge: _ } => {},
            }
        }
        lemma_declared_names_present(g1, evs.drop_first(), name);
    }
}

/// Concatenated events declare the union of what each part declares.
pub proof fn lemma_declared_names_concat(a: Seq<GEvent>, b: Seq<GEvent>)
    ensures
        declared_names(a + b) == declared_names(a).union(declared_names(b)),
    decreases a.len(),
{
    if a.len() == 0 {
        assert(a + b =~= b);
        assert(Set::<Seq<char>>::empty().union(declared_names(b)) =~= declared_names(b));
    } else {
        assert((a + b)[0] == a[0]);
        assert((a + b).drop_first() =~= a.drop_first() + b);
        lemma_declared_names_concat(a.drop_first(), b);
        match a[0] {
            GEvent::Decl { name } => {
                assert((declared_names(a.drop_first()).union(declared_names(b))).insert(name)
                    =~= (declared_names(a.drop_first()).insert(name)).union(declared_names(b)));
            },
            GEvent::Edge { caller: _, edge: _ } => {},
        }
    }
}

/// How one event changes one caller's edge list: an edge for that caller is
/// appended, anything else leaves the list as it is.
proof fn lemma_apply_event_edges_of(g: Seq<EntryModel>, ev: GEvent, name: Seq<char>)
    requires
        graph_wf(g),
    ensures
        edges_of(apply_event(g, ev), name) == match ev {
            GEvent::Edge { caller, edge } => if caller == name {
                edges_of(g, name).push(edge)
            } else {
                edges_of(g, name)
            },
            GEvent::Decl { name: _ } => edges_of(g, name),
        },
{
    let g1 = apply_event(g, ev);
    match ev {
        GEvent::Decl { name: n } => {
            if has_name(g, n) {
            } else {
                if name == n {
                    lemma_index_unique(g1, name, g.len() as int);
                    assert(edges_of(g1, name) =~= Seq::<EdgeModel>::empty());
                    assert(edges_of(g, name) =~= Seq::<EdgeModel>::empty());
                } else {
                    if has_name(g, name) {
                        let i = choose|i: int| 0 <= i < g.len() && g[i].name == name;
                        lemma_index_unique(g, name, i);
                        lemma_apply_event_wf(g, ev);
                        lemma_index_unique(g1, name, i);
                    } else {
                        assert(!has_name(g1, name)) by {
                            if has_name(g1, name) {
                                let i = choose|i: int|
                                    0 <= i < g1.len() && g1[i].name == name;
                                assert(i < g.len());
                            }
                        }
                    }
                }
            }
        },
        GEvent::Edge { caller, edge } => {
            if has_name(g, caller) {
                let k = index_of_name(g, caller);
                assert(0 <= k < g.len() && g[k].name == caller);
                lemma_apply_event_wf(g, ev);
                if name == caller {
                    lemma_index_unique(g, name, k);
                    lemma_index_unique(g1, name, k);
                } else {
                    if has_name(g, name) {
                        let i = choose|i: int| 0 <= i < g.len() && g[i].name == name;
                        lemma_index_unique(g, name, i);
                        assert(g1[i].name == name);
                        lemma_index_unique(g1, name, i);
                        assert(g1[i] == g[i]);
                    } else {
                        assert(!has_name(g1, name)) by {
                            if has_name(g1, name) {
                                let i = choose|i: int|
                                    0 <= i < g1.len() && g1[i].name == name;
                                assert(g1[i].name == g[i].name);
                            }
                        }
                    }
                }
            } else {
                if name == caller {
                    lemma_apply_event_wf(g, ev);
                    lemma_index_unique(g1, name, g.len() as int);
                    assert(edges_of(g1, name) == seq![edge]);
                    assert(edges_of(g, name).push(edge) =~= seq![edge]);
                } else {
                    if has_name(g, name) {
                        let i = choose|i: int| 0 <= i < g.len() && g[i].name == name;
                        lemma_index_unique(g, name, i);
                        lemma_apply_event_wf(g, ev);
                        lemma_index_unique(g1, name, i);
                    } else {
                        assert(!has_name(g1, name)) by {
                            if has_name(g1, name) {
                                let i = choose|i: int|
                                    0 <= i < g1.len() && g1[i].name == name;
                                assert(i < g.len());
                            }
                        }
                    }
                }
            }
        },
    }
}

/// Edge order is event order: applying a sequence of events appends to each
/// caller's list exactly the edges recorded for that caller, in the order
/// they were recorded, after whatever the list already held.
pub proof fn lemma_edge_order(g: Seq<EntryModel>, evs: Seq<GEvent>, name: Seq<char>)
    requires
        graph_wf(g),
    ensures
        edges_of(apply_events(g, evs), name) == edges_of(g, name) + edges_for(evs, name),
    decreases evs.len(),
{
    if evs.len() == 0 {
        assert(edges_of(g, name) + Seq::<EdgeModel>::empty() =~= edges_of(g, name));
    } else {
        let g1 = apply_event(g, evs[0]);
        lemma_apply_event_wf(g, evs[0]);
        lemma_apply_event_edges_of(g, evs[0], name);
        lemma_edge_order(g1, evs.drop_first(), name);
        match evs[0] {
            GEvent::Edge { caller, edge } => {
                if caller == name {
                    assert(edges_of(g, name).push(edge) + edges_for(evs.drop_first(), name)
                        =~= edges_of(g, name) + (seq![edge] + edges_for(evs.drop_first(), name)));
                }
            },
            GEvent::Decl { name: _ } => {},
        }
    }
}

/// Events apply one at a time: a concatenation of event sequences acts as
/// the first part followed by the second.
pub proof fn lemma_apply_events_concat(g: Seq<EntryModel>, a: Seq<GEvent>, b: Seq<GEvent>)
    ensures
        apply_events(g, a + b) == apply_events(apply_events(g, a), b),
    decreases a.len(),
{
    if a.len() == 0 {
        assert(a + b =~= b);
    } else {
        assert((a + b)[0] == a[0]);
        assert((a + b).drop_first() =~= a.drop_first() + b);
        lemma_apply_events_concat(apply_event(g, a[0]), a.drop_first(), b);
    }
}

/// A static call graph: every function definition encountered is an entry,
/// keyed by its simple name, holding its outgoing call edges in the order
/// they were recorded. Entries keep insertion order.
pub struct CallGraph {
    entries: Vec<GraphEntry>,
}

impl View for CallGraph {
    type V = Seq<EntryModel>;

    closed spec fn view(&self) -> Seq<EntryModel> {
        self.entries@.map_values(|e: GraphEntry| e@)
    }
}

impl CallGraph {
    /// Caller names are unique across the graph's entries.
    pub open spec fn wf(&self) -> bool {
        graph_wf(self@)
    }

    /// Creates an empty graph.
    pub fn new() -> (g: CallGraph)
        ensures
            g@ == Seq::<EntryModel>::empty(),
            g.wf(),
    {
        let g = CallGraph { entries: Vec::new() };
        proof {
            assert(g@ =~= Seq::<EntryModel>::empty());
        }
        g
    }

    /// The index of the entry named `name`, if any; entries before it carry
    /// other names.
    fn find_index(&self, name: &String) -> (r: Option<usize>)
        ensures
            match r {
                Option::Some(i) => 0 <= i < self@.len() && self@[i as int].name == name@
                    && (forall|j: int| 0 <= j < i ==> self@[j].name != name@),
                Option::None => !has_name(self@, name@),
            },
    {
        let mut i: usize = 0;
        while i < self.entries.len()
            invariant
                i <= self.entries.len(),
                forall|j: int| 0 <= j < i ==> self@[j].name != name@,
            decreases self.entries.len() - i,
        {
            if self.entries[i].name == *name {
                return Some(i);
            }
            i = i + 1;
        }
        None
    }

    /// Ensures the graph has an entry for this caller name, inserting one
    /// with no edges when the name is new; an existing entry is left as it
    /// is.
    pub fn ensure_node(&mut self, name: &String)
        requires
            old(self).wf(),
        ensures
            final(self).wf(),
            final(self)@ == apply_event(old(self)@, GEvent::Decl { name: name@ }),
    {
        match self.find_index(name) {
            Option::Some(_) => {
                proof {
                    assert(has_name(self@, name@));
                }
            },
            Option::None => {
                let entry = GraphEntry { name: name.clone(), edges: Vec::new() };
                proof {
                    assert(entry@.edges =~= Seq::<EdgeModel>::empty());
                }
                self.entries.push(entry);
                proof {
                    assert(self@ =~= old(self)@.push(
                        EntryModel { name: name@, edges: Seq::empty() },
                    ));
                    assert forall|i: int, j: int| 0 <= i < j < self@.len() implies self@[i].name
                        != self@[j].name by {
                        if j == self@.len() - 1 {
                            assert(!has_name(old(self)@, name@));
                        }
                    }
                }
            },
        }
    }

    /// Appends one edge to this caller's list, creating the entry when the
    /// caller has none yet.
    pub fn append_edge(&mut self, caller: &String, edge: CallEdge)
        requires
            old(self).wf(),
        ensures
            final(self).wf(),
            final(self)@ == apply_event(old(self)@, GEvent::Edge { caller: caller@, edge: edge@ }),
    {
        let ghost old_view = self@;
        match self.find_index(caller) {
            Option::Some(i) => {
                proof {
                    assert(has_name(old_view, caller@));
                    let k = index_of_name(old_view, caller@);
                    assert(0 <= k < old_view.len() && old_view[k].name == caller@);
                    assert(k == i);
                }
                let ghost old_edges = self.entries@[i as int].edges@;
                self.entries[i].edges.push(edge);
                proof {
                    let i = i as int;
                    assert(self.entries@[i].edges@ =~= old_edges.push(edge));
                    assert(self.entries@[i]@.edges =~= edge_views(old_edges).push(edge@));
                    assert(self@ =~= old_view.update(
                        i,
                        EntryModel { name: caller@, edges: old_view[i].edges.push(edge@) },
                    ));
                }
            },
            Option::None => {
                let mut edges: Vec<CallEdge> = Vec::new();
                edges.push(edge);
                let entry = GraphEntry { name: caller.clone(), edges };
                proof {
                    assert(entry@.edges =~= seq![edge@]);
                }
                self.entries.push(entry);
                proof {
                    assert(self@ =~= old_view.push(
                        EntryModel { name: caller@, edges: seq![edge@] },
                    ));
                    assert forall|i: int, j: int| 0 <= i < j < self@.len() implies self@[i].name
                        != self@[j].name by {
                        if j == self@.len() - 1 {
                            assert(!has_name(old_view, caller@));
                        }
                    }
                }
            },
        }
    }

    /// How many entries the graph holds.
    pub fn len(&self) -> (n: usize)
        ensures
            n == self@.len(),
    {
        self.entries.len()
    }

    /// The caller name of the entry at this index.
    pub fn name_at(&self, i: usize) -> (r: &String)
        requires
            i < self@.len(),
        ensures
            r@ == self@[i as int].name,
    {
        &self.entries[i].name
    }

    /// The edges of the entry at this index, in recorded order.
    pub fn edges_at(&self, i: usize) -> (r: &Vec<CallEdge>)
        requires
            i < self@.len(),
        ensures
            edge_views(r@) == self@[i as int].edges,
    {
        &self.entries[i].edges
    }

    /// The edges recorded under this caller name, or `None` when no function
    /// of that name was encountered.
    pub fn lookup(&self, name: &String) -> (r: Option<&Vec<CallEdge>>)
        requires
            self.wf(),
        ensures
            match r {
                Option::Some(edges) => has_name(self@, name@) && edge_views(edges@) == edges_of(
                    self@,
                    name@,
                ),
                Option::None => !has_name(self@, name@),
            },
    {
        match self.find_index(name) {
            Option::Some(i) => {
                proof {
                    assert(has_name(self@, name@));
                    let k = index_of_name(self@, name@);
                    assert(0 <= k < self@.len() && self@[k].name == name@);
                    assert(k == i);
                }
                Some(&self.entries[i].edges)
            },
            Option::None => None,
        }
    }
}

} // verus!
