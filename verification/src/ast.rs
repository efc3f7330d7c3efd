use vstd::prelude::*;

verus! {

/// Where the parser placed a syntax node within its source file.
#[derive(Clone, Copy)]
pub enum NodePos {
    /// A line and column pair reported directly by the parser, 1-based.
    LineCol { line: usize, column: usize },
    /// A raw character offset from the start of the file's text, resolved
    /// into a line and column during collection.
    Offset { offset: usize },
}

/// The portion of a parsed syntax tree that call-graph collection reads:
/// function definitions, call expressions, and the nesting between them.
/// Every other construct appears only as a transparent `Group` carrying the
/// nodes nested inside it.
pub enum AstNode {
    /// A function definition, with its simple name and the nodes of its body.
    FnDef { name: String, children: Vec<AstNode> },
    /// A call expression. `target` holds the path segments of the callee when
    /// it is written as a plain (possibly namespaced) identifier chain, and
    /// `None` when the callee is any other kind of expression. `pos` is the
    /// position of the start of the callee expression. `children` holds the
    /// nodes nested in the callee and argument expressions.
    Call { target: Option<Vec<String>>, pos: NodePos, children: Vec<AstNode> },
    /// Any other construct, kept only for the nodes nested inside it.
    Group { children: Vec<AstNode> },
}

/// The character sequences of a vector of path segments.
pub open spec fn seg_views(segs: Seq<String>) -> Seq<Seq<char>> {
    segs.map_values(|s: String| s@)
}

/// The text of a call target: its path segments joined by the namespace
/// separator `::`, in declared order.
pub open spec fn join_path(segs: Seq<Seq<char>>) -> Seq<char>
    decreases segs.len(),
{
    if segs.len() == 0 {
        Seq::empty()
    } else if segs.len() == 1 {
        segs[0]
    } else {
        segs[0] + "::"@ + join_path(segs.drop_first())
    }
}

/// Appending one more segment extends the joined text by a separator and the
/// segment (or is the segment itself when there was nothing yet).
pub proof fn lemma_join_path_push(segs: Seq<Seq<char>>, seg: Seq<char>)
    ensures
        join_path(segs.push(seg)) == if segs.len() == 0 {
            seg
        } else {
            (join_path(segs) + "::"@ + seg)
        },
    decreases segs.len(),
{
    let whole = segs.push(seg);
    if segs.len() == 0 {
        assert(whole.len() == 1);
        assert(whole[0] == seg);
    } else if segs.len() == 1 {
        assert(whole.len() == 2);
        assert(whole.drop_first() =~= seq![seg]);
        assert(join_path(whole.drop_first()) == seg);
        assert(whole[0] == segs[0]);
    } else {
        assert(whole.drop_first() =~= segs.drop_first().push(seg));
        lemma_join_path_push(segs.drop_first(), seg);
        assert(whole[0] == segs[0]);
        assert((segs[0] + "::"@ + (join_path(segs.drop_first()) + "::"@ + seg)) =~= ((segs[0]
            + "::"@ + join_path(segs.drop_first())) + "::"@ + seg));
    }
}

/// Joins path segments with the namespace separator `::`, preserving their
/// declared order.
pub fn join_segments(segs: &Vec<String>) -> (r: String)
    ensures
        r@ == join_path(seg_views(segs@)),
{
    let mut r = String::new();
    let mut i: usize = 0;
    while i < segs.len()
        invariant
            i <= segs.len(),
            r@ == join_path(seg_views(segs@).take(i as int)),
        decreases segs.len() - i,
    {
        if i > 0 {
            r.append("::");
        }
        r.append(segs[i].as_str());
        proof {
            let views = seg_views(segs@);
            assert(views.take(i as int).push(views[i as int]) =~= views.take(i + 1));
            lemma_join_path_push(views.take(i as int), views[i as int]);
        }
        i = i + 1;
    }
    proof {
        assert(seg_views(segs@).take(segs@.len() as int) =~= seg_views(segs@));
    }
    r
}

/// The names of every function definition in a tree, nested ones included.
pub open spec fn fn_names_of(node: AstNode) -> Set<Seq<char>>
    decreases node,
{
    match node {
        AstNode::FnDef { name, children } => fn_names_of_seq(children@).insert(name@),
        AstNode::Call { target, pos, children } => fn_names_of_seq(children@),
        AstNode::Group { children } => fn_names_of_seq(children@),
    }
}

/// The names of every function definition in a sequence of trees.
pub open spec fn fn_names_of_seq(nodes: Seq<AstNode>) -> Set<Seq<char>>
    decreases nodes,
{
    if nodes.len() == 0 {
        Set::empty()
    } else {
        fn_names_of(nodes[0]).union(fn_names_of_seq(nodes.drop_first()))
    }
}

} // verus!
