use vstd::prelude::*;
use vstd::string::StrSliceExecFns;

use crate::ast::{fn_names_of, fn_names_of_seq, join_path, join_segments, seg_views, AstNode, NodePos};
use crate::graph::{
    apply_event, apply_events, declared_names, has_name, lemma_apply_events_concat,
    lemma_declared_names_concat, lemma_declared_names_present, CallEdge, CallGraph, EdgeModel,
    EntryModel, GEvent,
};

verus! {

/// The line lengths of a text, counted in characters: the segments between
/// `'\n'` characters, with `cur` characters of the current line already
/// consumed. A final segment is listed only when it is non-empty, as when the
/// text does not end in a line break.
pub open spec fn lens_acc(s: Seq<char>, cur: int) -> Seq<int>
    decreases s.len(),
{
    if s.len() == 0 {
        if cur == 0 {
            Seq::empty()
        } else {
            seq![cur]
        }
    } else if s[0] == '\n' {
        seq![cur] + lens_acc(s.drop_first(), 0)
    } else {
        lens_acc(s.drop_first(), cur + 1)
    }
}

/// The line lengths of a text, counted in characters.
pub open spec fn line_lens_spec(s: Seq<char>) -> Seq<int> {
    lens_acc(s, 0)
}

/// The mathematical values of a vector of line lengths.
pub open spec fn lens_views(lens: Seq<usize>) -> Seq<int> {
    lens.map_values(|n: usize| n as int)
}

/// The 1-based line and column of a character offset, given the line lengths
/// of the text: the resolver walks the lines, consuming each line and its
/// line break, until the offset falls within or at the boundary of a line.
/// `(0, 0)` when the offset lies beyond the end of the text.
pub open spec fn resolve_spec(lens: Seq<int>, offset: int) -> (int, int)
    decreases lens.len(),
{
    if lens.len() == 0 {
        (0int, 0int)
    } else if offset <= lens[0] {
        (1int, offset + 1)
    } else {
        let r = resolve_spec(lens.drop_first(), offset - lens[0] - 1);
        if r.0 == 0 {
            (0int, 0int)
        } else {
            (r.0 + 1, r.1)
        }
    }
}

/// A resolver result moved `k` lines further into the text; the degraded
/// `(0, 0)` stays as it is.
pub open spec fn shift_lines(r: (int, int), k: int) -> (int, int) {
    if r.0 == 0 {
        (0int, 0int)
    } else {
        (r.0 + k, r.1)
    }
}

/// The resolver never reports a negative line, and a degraded result is
/// exactly `(0, 0)`.
pub proof fn lemma_resolve_shape(lens: Seq<int>, offset: int)
    ensures
        resolve_spec(lens, offset).0 >= 0,
        resolve_spec(lens, offset).0 == 0 ==> resolve_spec(lens, offset) == (0int, 0int),
    decreases lens.len(),
{
    if lens.len() == 0 {
    } else if offset <= lens[0] {
    } else {
        lemma_resolve_shape(lens.drop_first(), offset - lens[0] - 1);
    }
}

/// The 1-based line and column recorded for a call at this position: a pair
/// the parser reported is used as it stands; a raw offset is resolved
/// against the file's line lengths.
pub open spec fn loc_of(pos: NodePos, lens: Seq<int>) -> (int, int) {
    match pos {
        NodePos::LineCol { line, column } => (line as int, column as int),
        NodePos::Offset { offset } => resolve_spec(lens, offset as int),
    }
}

/// The edge recorded for a call whose target path has these segments, at
/// this position, in the file with this name and these line lengths.
pub open spec fn edge_model_of(
    segs: Seq<Seq<char>>,
    pos: NodePos,
    file: Seq<char>,
    lens: Seq<int>,
) -> EdgeModel {
    EdgeModel {
        callee: join_path(segs),
        origin_file: file,
        line: loc_of(pos, lens).0,
        column: loc_of(pos, lens).1,
    }
}

/// The events a traversal of one tree emits, in order, given the stack of
/// enclosing function names at its root: a function definition declares its
/// name and is traversed with that name pushed; a call whose target is a
/// plain path is recorded for the innermost enclosing function before its
/// nested nodes are traversed, and is skipped when its target is not a plain
/// path or no function encloses it; any other construct only passes the
/// traversal on to the nodes inside it.
pub open spec fn node_events(
    node: AstNode,
    stack: Seq<Seq<char>>,
    file: Seq<char>,
    lens: Seq<int>,
) -> Seq<GEvent>
    decreases node,
{
    match node {
        AstNode::FnDef { name, children } => seq![GEvent::Decl { name: name@ }] + nodes_events(
            children@,
            stack.push(name@),
            file,
            lens,
        ),
        AstNode::Call { target, pos, children } => {
            let rest = nodes_events(children@, stack, file, lens);
            match target {
                Option::Some(path) => if stack.len() > 0 {
                    seq![
                        GEvent::Edge {
                            caller: stack.last(),
                            edge: edge_model_of(seg_views(path@), pos, file, lens),
                        },
                    ] + rest
                } else {
                    rest
                },
                Option::None => rest,
            }
        },
        AstNode::Group { children } => nodes_events(children@, stack, file, lens),
    }
}

/// The events a traversal of a sequence of sibling trees emits, first to
/// last.
pub open spec fn nodes_events(
    nodes: Seq<AstNode>,
    stack: Seq<Seq<char>>,
    file: Seq<char>,
    lens: Seq<int>,
) -> Seq<GEvent>
    decreases nodes,
{
    if nodes.len() == 0 {
        Seq::empty()
    } else {
        node_events(nodes[0], stack, file, lens) + nodes_events(
            nodes.drop_first(),
            stack,
            file,
            lens,
        )
    }
}

/// Sibling trees emit their events in order: a concatenation of two
/// sequences of siblings emits the first part's events, then the second's.
pub proof fn lemma_nodes_events_concat(
    a: Seq<AstNode>,
    b: Seq<AstNode>,
    stack: Seq<Seq<char>>,
    file: Seq<char>,
    lens: Seq<int>,
)
    ensures
        nodes_events(a + b, stack, file, lens) == nodes_events(a, stack, file, lens)
            + nodes_events(b, stack, file, lens),
    decreases a.len(),
{
    if a.len() == 0 {
        assert(a + b =~= b);
        assert(Seq::<GEvent>::empty() + nodes_events(b, stack, file, lens) =~= nodes_events(
            b,
            stack,
            file,
            lens,
        ));
    } else {
        assert((a + b)[0] == a[0]);
        assert((a + b).drop_first() =~= a.drop_first() + b);
        lemma_nodes_events_concat(a.drop_first(), b, stack, file, lens);
        assert(node_events(a[0], stack, file, lens) + (nodes_events(a.drop_first(), stack, file,
            lens,
        ) + nodes_events(b, stack, file, lens)) =~= (node_events(a[0], stack, file, lens)
            + nodes_events(a.drop_first(), stack, file, lens)) + nodes_events(
            b,
            stack,
            file,
            lens,
        ));
    }
}

/// Extending a traversed prefix of siblings by one tree appends that tree's
/// events.
pub proof fn lemma_nodes_events_take_step(
    nodes: Seq<AstNode>,
    i: int,
    stack: Seq<Seq<char>>,
    file: Seq<char>,
    lens: Seq<int>,
)
    requires
        0 <= i < nodes.len(),
    ensures
        nodes_events(nodes.take(i + 1), stack, file, lens) == nodes_events(
            nodes.take(i),
            stack,
            file,
            lens,
        ) + node_events(nodes[i], stack, file, lens),
{
    let one = seq![nodes[i]];
    assert(nodes.take(i + 1) =~= nodes.take(i) + one);
    lemma_nodes_events_concat(nodes.take(i), one, stack, file, lens);
    assert(one.drop_first() =~= Seq::<AstNode>::empty());
    assert(one[0] == nodes[i]);
    assert(nodes_events(Seq::<AstNode>::empty(), stack, file, lens) =~= Seq::<GEvent>::empty());
    assert(node_events(nodes[i], stack, file, lens) + Seq::<GEvent>::empty() =~= node_events(
        nodes[i],
        stack,
        file,
        lens,
    ));
    assert(nodes_events(one, stack, file, lens) =~= node_events(nodes[i], stack, file, lens));
}

/// A tree's events declare exactly the names of the function definitions in
/// the tree, whatever the surrounding stack.
pub proof fn lemma_node_events_declared(
    node: AstNode,
    stack: Seq<Seq<char>>,
    file: Seq<char>,
    lens: Seq<int>,
)
    ensures
        declared_names(node_events(node, stack, file, lens)) == fn_names_of(node),
    decreases node,
{
    match node {
        AstNode::FnDef { name, children } => {
            let rest = nodes_events(children@, stack.push(name@), file, lens);
            lemma_nodes_events_declared(children@, stack.push(name@), file, lens);
            lemma_declared_names_concat(seq![GEvent::Decl { name: name@ }], rest);
            assert(seq![GEvent::Decl { name: name@ }].drop_first() =~= Seq::<GEvent>::empty());
            assert(declared_names(Seq::<GEvent>::empty()) =~= Set::<Seq<char>>::empty());
            assert(declared_names(seq![GEvent::Decl { name: name@ }]) =~= Set::<
                Seq<char>,
            >::empty().insert(name@));
            assert((Set::<Seq<char>>::empty().insert(name@)).union(fn_names_of_seq(children@))
                =~= fn_names_of_seq(children@).insert(name@));
        },
        AstNode::Call { target, pos, children } => {
            let rest = nodes_events(children@, stack, file, lens);
            lemma_nodes_events_declared(children@, stack, file, lens);
            match target {
                Option::Some(path) => {
                    if stack.len() > 0 {
                        let ev = GEvent::Edge {
                            caller: stack.last(),
                            edge: edge_model_of(seg_views(path@), pos, file, lens),
                        };
                        lemma_declared_names_concat(seq![ev], rest);
                        assert(seq![ev].drop_first() =~= Seq::<GEvent>::empty());
                        assert(declared_names(Seq::<GEvent>::empty()) =~= Set::<Seq<char>>::empty());
                        assert(declared_names(seq![ev]) =~= Set::<Seq<char>>::empty());
                        assert(Set::<Seq<char>>::empty().union(fn_names_of_seq(children@))
                            =~= fn_names_of_seq(children@));
                    }
                },
                Option::None => {},
            }
        },
        AstNode::Group { children } => {
            lemma_nodes_events_declared(children@, stack, file, lens);
        },
    }
}

/// The events of a sequence of sibling trees declare exactly the names of
/// the function definitions in those trees.
pub proof fn lemma_nodes_events_declared(
    nodes: Seq<AstNode>,
    stack: Seq<Seq<char>>,
    file: Seq<char>,
    lens: Seq<int>,
)
    ensures
        declared_names(nodes_events(nodes, stack, file, lens)) == fn_names_of_seq(nodes),
    decreases nodes,
{
    if nodes.len() == 0 {
    } else {
        lemma_node_events_declared(nodes[0], stack, file, lens);
        lemma_nodes_events_declared(nodes.drop_first(), stack, file, lens);
        lemma_declared_names_concat(
            node_events(nodes[0], stack, file, lens),
            nodes_events(nodes.drop_first(), stack, file, lens),
        );
    }
}

/// Every function definition in a traversed tree has an entry in the graph
/// the traversal leaves behind, even one whose body makes no calls.
pub proof fn lemma_every_function_has_node(
    node: AstNode,
    stack: Seq<Seq<char>>,
    file: Seq<char>,
    lens: Seq<int>,
    g: Seq<EntryModel>,
    name: Seq<char>,
)
    requires
        fn_names_of(node).contains(name),
    ensures
        has_name(apply_events(g, node_events(node, stack, file, lens)), name),
{
    lemma_node_events_declared(node, stack, file, lens);
    lemma_declared_names_present(g, node_events(node, stack, file, lens), name);
}

/// The edge recorded for a call carries as its callee exactly the
/// namespace-joined text of the call target's path segments, and is
/// attributed to the innermost enclosing function.
pub proof fn lemma_recorded_callee_text(
    target: Vec<String>,
    pos: NodePos,
    children: Vec<AstNode>,
    stack: Seq<Seq<char>>,
    file: Seq<char>,
    lens: Seq<int>,
)
    requires
        stack.len() > 0,
    ensures
        node_events(
            AstNode::Call { target: Option::Some(target), pos, children },
            stack,
            file,
            lens,
        )[0] == (GEvent::Edge {
            caller: stack.last(),
            edge: edge_model_of(seg_views(target@), pos, file, lens),
        }),
        edge_model_of(seg_views(target@), pos, file, lens).callee == join_path(seg_views(target@)),
{
}

/// A call whose target is not a plain path is never recorded: its events are
/// exactly those of the nodes nested inside it.
pub proof fn lemma_non_path_call_not_recorded(
    pos: NodePos,
    children: Vec<AstNode>,
    stack: Seq<Seq<char>>,
    file: Seq<char>,
    lens: Seq<int>,
)
    ensures
        node_events(AstNode::Call { target: Option::None, pos, children }, stack, file, lens)
            == nodes_events(children@, stack, file, lens),
{
}

/// A call outside every function body is never recorded, whatever its
/// target: its events are exactly those of the nodes nested inside it.
pub proof fn lemma_call_outside_function_not_recorded(
    target: Option<Vec<String>>,
    pos: NodePos,
    children: Vec<AstNode>,
    file: Seq<char>,
    lens: Seq<int>,
)
    ensures
        node_events(
            AstNode::Call { target, pos, children },
            Seq::<Seq<char>>::empty(),
            file,
            lens,
        ) == nodes_events(children@, Seq::<Seq<char>>::empty(), file, lens),
{
}

/// Calls inside a nested function definition are attributed to the nested
/// function, under the stack extended with its name; a call that follows the
/// nested definition among its siblings is attributed to the function that
/// was innermost before, not dropped and not misattributed.
pub proof fn lemma_nested_definition_attribution(
    name: String,
    inner: Vec<AstNode>,
    target: Vec<String>,
    pos: NodePos,
    args: Vec<AstNode>,
    stack: Seq<Seq<char>>,
    file: Seq<char>,
    lens: Seq<int>,
)
    requires
        stack.len() > 0,
    ensures
        nodes_events(
            seq![
                AstNode::FnDef { name, children: inner },
                AstNode::Call { target: Option::Some(target), pos, children: args },
            ],
            stack,
            file,
            lens,
        ) == seq![GEvent::Decl { name: name@ }] + nodes_events(
            inner@,
            stack.push(name@),
            file,
            lens,
        ) + seq![
            GEvent::Edge {
                caller: stack.last(),
                edge: edge_model_of(seg_views(target@), pos, file, lens),
            },
        ] + nodes_events(args@, stack, file, lens),
{
    let fdef = AstNode::FnDef { name, children: inner };
    let call = AstNode::Call { target: Option::Some(target), pos, children: args };
    let both = seq![fdef, call];
    assert(both[0] == fdef);
    assert(both.drop_first() =~= seq![call]);
    assert(seq![call][0] == call);
    assert(seq![call].drop_first() =~= Seq::<AstNode>::empty());
    assert(nodes_events(Seq::<AstNode>::empty(), stack, file, lens) == Seq::<GEvent>::empty());
    let d = seq![GEvent::Decl { name: name@ }];
    let inner_evs = nodes_events(inner@, stack.push(name@), file, lens);
    let e = seq![
        GEvent::Edge {
            caller: stack.last(),
            edge: edge_model_of(seg_views(target@), pos, file, lens),
        },
    ];
    let arg_evs = nodes_events(args@, stack, file, lens);
    assert(node_events(call, stack, file, lens) == e + arg_evs);
    assert((e + arg_evs) + Seq::<GEvent>::empty() =~= e + arg_evs);
    assert(nodes_events(seq![call], stack, file, lens) =~= e + arg_evs);
    assert(node_events(fdef, stack, file, lens) == d + inner_evs);
    assert(nodes_events(both, stack, file, lens) =~= (d + inner_evs) + (e + arg_evs));
    assert((d + inner_evs) + (e + arg_evs) =~= d + inner_evs + e + arg_evs);
}

/// Collects the call graph of one file: it keeps the file's name, the line
/// lengths of its text for offset resolution, and the stack of enclosing
/// function names at the point traversal has reached.
pub struct CallGraphCollector {
    filename: String,
    line_lens: Vec<usize>,
    stack: Vec<String>,
}

impl CallGraphCollector {
    /// The name of the file being collected.
    pub closed spec fn file(&self) -> Seq<char> {
        self.filename@
    }

    /// The line lengths of the file's text.
    pub closed spec fn lens(&self) -> Seq<int> {
        lens_views(self.line_lens@)
    }

    /// The names of the enclosing functions, outermost first.
    pub closed spec fn stack_view(&self) -> Seq<Seq<char>> {
        self.stack@.map_values(|s: String| s@)
    }

    /// Every stored line length leaves room for the line break after it.
    pub open spec fn wf(&self) -> bool {
        forall|i: int| 0 <= i < self.lens().len() ==> self.lens()[i] < usize::MAX
    }

    /// Creates a collector for one file from its name and its full text,
    /// with no enclosing function. The text must leave at least one unused
    /// character count, which any text held in memory does.
    pub fn new(filename: &str, src_content: &str) -> (c: CallGraphCollector)
        requires
            src_content@.len() < usize::MAX,
        ensures
            c.file() == filename@,
            c.lens() == line_lens_spec(src_content@),
            c.stack_view() == Seq::<Seq<char>>::empty(),
            c.wf(),
    {
        let n = src_content.unicode_len();
        let mut line_lens: Vec<usize> = Vec::new();
        let mut cur: usize = 0;
        let mut i: usize = 0;
        proof {
            assert(lens_views(line_lens@) =~= Seq::<int>::empty());
            assert(src_content@.skip(0) =~= src_content@);
            assert(Seq::<int>::empty() + lens_acc(src_content@, 0) =~= lens_acc(src_content@, 0));
        }
        while i < n
            invariant
                i <= n,
                n == src_content@.len(),
                n < usize::MAX,
                cur <= i,
                lens_views(line_lens@) + lens_acc(src_content@.skip(i as int), cur as int)
                    == line_lens_spec(src_content@),
                forall|k: int| 0 <= k < line_lens@.len() ==> line_lens@[k] < usize::MAX,
            decreases n - i,
        {
            let c = src_content.get_char(i);
            proof {
                let rest = src_content@.skip(i as int);
                assert(rest.len() > 0);
                assert(rest[0] == src_content@[i as int]);
                assert(rest.drop_first() =~= src_content@.skip(i as int + 1));
            }
            if c == '\n' {
                let ghost old_views = lens_views(line_lens@);
                line_lens.push(cur);
                proof {
                    assert(lens_views(line_lens@) =~= old_views.push(cur as int));
                    assert((old_views.push(cur as int)) + lens_acc(
                        src_content@.skip(i as int + 1),
                        0,
                    ) =~= old_views + (seq![cur as int] + lens_acc(
                        src_content@.skip(i as int + 1),
                        0,
                    )));
                }
                cur = 0;
            } else {
                cur = cur + 1;
            }
            i = i + 1;
        }
        proof {
            assert(src_content@.skip(n as int) =~= Seq::<char>::empty());
        }
        if cur > 0 {
            let ghost old_views = lens_views(line_lens@);
            line_lens.push(cur);
            proof {
                assert(lens_views(line_lens@) =~= old_views.push(cur as int));
                assert(old_views.push(cur as int) =~= old_views + seq![cur as int]);
            }
        } else {
            proof {
                assert(lens_views(line_lens@) + Seq::<int>::empty() =~= lens_views(line_lens@));
            }
        }
        let c = CallGraphCollector { filename: filename.to_owned(), line_lens, stack: Vec::new() };
        proof {
            assert(c.stack_view() =~= Seq::<Seq<char>>::empty());
        }
        c
    }

    /// Resolves a character offset into the file's text to a 1-based line and
    /// column, or to `(0, 0)` when the offset lies beyond the end of the
    /// text.
    pub fn offset_to_line_column(&self, offset: usize) -> (r: (usize, usize))
        requires
            self.wf(),
        ensures
            (r.0 as int, r.1 as int) == resolve_spec(self.lens(), offset as int),
    {
        let mut remaining: usize = offset;
        let mut i: usize = 0;
        proof {
            assert(self.lens().skip(0) =~= self.lens());
            lemma_resolve_shape(self.lens(), offset as int);
        }
        while i < self.line_lens.len()
            invariant
                self.wf(),
                i <= self.line_lens@.len(),
                resolve_spec(self.lens(), offset as int) == shift_lines(
                    resolve_spec(self.lens().skip(i as int), remaining as int),
                    i as int,
                ),
            decreases self.line_lens@.len() - i,
        {
            let line_len = self.line_lens[i];
            proof {
                let rest = self.lens().skip(i as int);
                assert(rest.len() > 0);
                assert(rest[0] == self.lens()[i as int]);
                assert(rest.drop_first() =~= self.lens().skip(i as int + 1));
                lemma_resolve_shape(
                    self.lens().skip(i as int + 1),
                    remaining as int - line_len as int - 1,
                );
            }
            if remaining <= line_len {
                return (i + 1, remaining + 1);
            }
            remaining = remaining - (line_len + 1);
            i = i + 1;
        }
        proof {
            assert(self.lens().skip(self.line_lens@.len() as int) =~= Seq::<int>::empty());
        }
        (0, 0)
    }

    /// Traverses one tree: declares every function definition it holds,
    /// records every call whose target is a plain path for its innermost
    /// enclosing function, and leaves the stack of enclosing names as it
    /// found it. The change to `graph` is exactly the application of the
    /// tree's events.
    pub fn visit_node(&mut self, node: &AstNode, graph: &mut CallGraph)
        requires
            old(self).wf(),
            old(graph).wf(),
        ensures
            final(self).wf(),
            final(graph).wf(),
            final(self).file() == old(self).file(),
            final(self).lens() == old(self).lens(),
            final(self).stack_view() == old(self).stack_view(),
            final(graph)@ == apply_events(
                old(graph)@,
                node_events(*node, old(self).stack_view(), old(self).file(), old(self).lens()),
            ),
        decreases *node,
    {
        let ghost stack0 = self.stack_view();
        let ghost file0 = self.file();
        let ghost lens0 = self.lens();
        let ghost g0 = graph@;
        match node {
            AstNode::FnDef { name, children } => {
                graph.ensure_node(name);
                proof {
                    let d = GEvent::Decl { name: name@ };
                    assert(seq![d].drop_first() =~= Seq::<GEvent>::empty());
                    assert(apply_events(apply_event(g0, d), Seq::<GEvent>::empty()) == apply_event(
                        g0,
                        d,
                    ));
                    assert(apply_events(g0, seq![d]) == apply_event(g0, d));
                }
                self.stack.push(name.clone());
                proof {
                    assert(self.stack_view() =~= stack0.push(name@));
                }
                self.visit_nodes(children, graph);
                let ghost pre_pop = self.stack@;
                proof {
                    assert(self.stack_view() == stack0.push(name@));
                    assert(self.stack_view().len() == pre_pop.len());
                    assert(pre_pop.len() == stack0.len() + 1);
                }
                let _ = self.stack.pop();
                proof {
                    assert(self.stack@ == pre_pop.subrange(0, pre_pop.len() - 1));
                    assert forall|k: int| 0 <= k < stack0.len() implies self.stack_view()[k]
                        == stack0[k] by {
                        assert(self.stack@[k] == pre_pop[k]);
                        assert(pre_pop[k]@ == self.stack_view()[k]);
                        assert(pre_pop.map_values(|s: String| s@)[k] == stack0.push(name@)[k]);
                    }
                    assert(self.stack_view() =~= stack0);
                    let d = GEvent::Decl { name: name@ };
                    let rest = nodes_events(children@, stack0.push(name@), file0, lens0);
                    lemma_apply_events_concat(g0, seq![d], rest);
                }
            },
            AstNode::Call { target, pos, children } => {
                match target {
                    Option::Some(path) => {
                        if self.stack.len() > 0 {
                            let callee = join_segments(path);
                            let loc = match pos {
                                NodePos::LineCol { line, column } => (*line, *column),
                                NodePos::Offset { offset } => self.offset_to_line_column(*offset),
                            };
                            let edge = CallEdge {
                                callee,
                                origin_file: self.filename.clone(),
                                line: loc.0,
                                column: loc.1,
                            };
                            proof {
                                assert(edge@ == edge_model_of(seg_views(path@), *pos, file0, lens0));
                            }
                            let last = self.stack.len() - 1;
                            graph.append_edge(&self.stack[last], edge);
                            proof {
                                let ev = GEvent::Edge {
                                    caller: stack0.last(),
                                    edge: edge_model_of(seg_views(path@), *pos, file0, lens0),
                                };
                                assert(self.stack@[last as int]@ == stack0.last());
                                assert(graph@ == apply_event(g0, ev));
                                assert(seq![ev].drop_first() =~= Seq::<GEvent>::empty());
                                assert(apply_events(apply_event(g0, ev), Seq::<GEvent>::empty())
                                    == apply_event(g0, ev));
                                assert(apply_events(g0, seq![ev]) == apply_event(g0, ev));
                            }
                        }
                    },
                    Option::None => {},
                }
                let ghost g1 = graph@;
                self.visit_nodes(children, graph);
                proof {
                    let rest = nodes_events(children@, stack0, file0, lens0);
                    match target {
                        Option::Some(path) => {
                            if stack0.len() > 0 {
                                let ev = GEvent::Edge {
                                    caller: stack0.last(),
                                    edge: edge_model_of(seg_views(path@), *pos, file0, lens0),
                                };
                                lemma_apply_events_concat(g0, seq![ev], rest);
                            }
                        },
                        Option::None => {},
                    }
                }
            },
            AstNode::Group { children } => {
                self.visit_nodes(children, graph);
            },
        }
    }

    /// Traverses a sequence of sibling trees in order, as `visit_node` does
    /// for each.
    pub fn visit_nodes(&mut self, nodes: &Vec<AstNode>, graph: &mut CallGraph)
        requires
            old(self).wf(),
            old(graph).wf(),
        ensures
            final(self).wf(),
            final(graph).wf(),
            final(self).file() == old(self).file(),
            final(self).lens() == old(self).lens(),
            final(self).stack_view() == old(self).stack_view(),
            final(graph)@ == apply_events(
                old(graph)@,
                nodes_events(nodes@, old(self).stack_view(), old(self).file(), old(self).lens()),
            ),
        decreases nodes@,
    {
        let ghost stack0 = self.stack_view();
        let ghost file0 = self.file();
        let ghost lens0 = self.lens();
        let ghost g0 = graph@;
        proof {
            assert(nodes@.take(0) =~= Seq::<AstNode>::empty());
        }
        let mut j: usize = 0;
        while j < nodes.len()
            invariant
                j <= nodes@.len(),
                self.wf(),
                graph.wf(),
                self.file() == file0,
                self.lens() == lens0,
                self.stack_view() == stack0,
                graph@ == apply_events(
                    g0,
                    nodes_events(nodes@.take(j as int), stack0, file0, lens0),
                ),
            decreases nodes@.len() - j,
        {
            self.visit_node(&nodes[j], graph);
            proof {
                lemma_nodes_events_take_step(nodes@, j as int, stack0, file0, lens0);
                lemma_apply_events_concat(
                    g0,
                    nodes_events(nodes@.take(j as int), stack0, file0, lens0),
                    node_events(nodes@[j as int], stack0, file0, lens0),
                );
            }
            j = j + 1;
        }
        proof {
            assert(nodes@.take(nodes@.len() as int) =~= nodes@);
        }
    }
}

} // verus!
