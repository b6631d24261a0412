//! What thawing asks for, workspace by workspace: the windows go back in their
//! order, float again if they did, and then the workspace is laid out as it
//! was.

use crate::account::{once_asked, reply, went_on};
use crate::dialogue::{attempt_program, tell, Ask, Dialogue, Halt, Reply};
use crate::freeze::{
    restore_all_program, restore_children_program, restore_node_program, restore_tree_program,
    thaw_set_program,
};
use crate::parking::{is_move, lemma_restore_all, moves, sent, went};
use crate::sets::ice_name;
use crate::snapshot::{
    all_ids, lemma_all_ids_concat, shots, snapshot_ids, window_ids, Snapshot, Tree,
};
use crate::state::load_ice_program;
use crate::sway::{
    float_command, lay_out_command, lemma_move_command_injective, lemma_restoring_without_moving,
    move_command, split_command,
};
use vstd::prelude::*;

verus! {

/// Whether a tree has a window, floating or not.
pub open spec fn has_window(tree: Tree, id: i64, floating: bool) -> bool
    decreases tree,
{
    match tree {
        Tree::Window { con_id, floating: f, .. } => con_id == id && f == floating,
        Tree::Container { children, .. } => any_has_window(children, id, floating),
    }
}

/// Whether one of the trees has a window, floating or not.
pub open spec fn any_has_window(trees: Seq<Tree>, id: i64, floating: bool) -> bool
    decreases trees,
{
    trees.len() > 0 && (any_has_window(trees.drop_last(), id, floating) || has_window(
        trees.last(),
        id,
        floating,
    ))
}

/// Whether a tree has a container of a layout.
pub open spec fn has_layout(tree: Tree, layout: Seq<char>) -> bool
    decreases tree,
{
    match tree {
        Tree::Window { .. } => false,
        Tree::Container { layout: own, children } => own == layout || any_has_layout(
            children,
            layout,
        ),
    }
}

/// Whether one of the trees has a container of a layout.
pub open spec fn any_has_layout(trees: Seq<Tree>, layout: Seq<char>) -> bool
    decreases trees,
{
    trees.len() > 0 && (any_has_layout(trees.drop_last(), layout) || has_layout(
        trees.last(),
        layout,
    ))
}

/// The layouts of the containers of trees.
pub open spec fn layouts_of(trees: Seq<Tree>) -> spec_fn(Seq<char>) -> bool {
    |layout: Seq<char>| any_has_layout(trees, layout)
}

/// The requests to move windows to a workspace among some.
pub open spec fn moves_among(requests: Seq<Ask>) -> Seq<Ask> {
    requests.filter(|request: Ask| is_move(request))
}

/// Whether the request at `i` of those from `from` on moves a window, makes
/// the floating window just moved float again, or splits as one of `layouts`.
pub open spec fn brings_back(
    e: Dialogue,
    from: int,
    i: int,
    trees: Seq<Tree>,
    layouts: spec_fn(Seq<char>) -> bool,
    workspace: Seq<char>,
) -> bool {
    ||| is_move(e.asked[i])
    ||| exists|id: i64|
        {
            &&& e.asked[i] == Ask::Run(#[trigger] float_command(id))
            &&& any_has_window(trees, id, true)
            &&& i > from
            &&& e.asked[i - 1] == Ask::Run(move_command(id, workspace))
            &&& e.replies[i - 1] is Ran
        }
    ||| exists|layout: Seq<char>|
        layouts(layout) && e.asked[i] == Ask::Run(#[trigger] split_command(layout))
}

/// Whether trees were brought back to a workspace: every window was sent there,
/// once and in their order; one that floats and went was made to float right
/// after; and nothing else was asked but to split as one of `layouts`.
pub open spec fn brought_back(
    d: Dialogue,
    e: Dialogue,
    trees: Seq<Tree>,
    layouts: spec_fn(Seq<char>) -> bool,
    workspace: Seq<char>,
) -> bool {
    let n = d.asked.len() as int;
    &&& e.replies == d.replies
    &&& d.asked.is_prefix_of(e.asked)
    &&& e.answered()
    &&& moves_among(e.asked.skip(n)) == moves(all_ids(trees), workspace)
    &&& forall|i: int|
        n <= i < e.asked.len() ==> #[trigger] brings_back(e, n, i, trees, layouts, workspace)
    &&& forall|i: int, id: i64|
        #![trigger e.asked[i], move_command(id, workspace)]
        {
            &&& n <= i < e.asked.len()
            &&& e.asked[i] == Ask::Run(move_command(id, workspace))
            &&& e.replies[i] is Ran
            &&& !any_has_window(trees, id, false)
        } ==> i + 1 < e.asked.len() && e.asked[i + 1] == Ask::Run(float_command(id))
}

proof fn lemma_any_has_concat(a: Seq<Tree>, b: Seq<Tree>, id: i64, floating: bool)
    ensures
        any_has_window(a + b, id, floating) <==> any_has_window(a, id, floating) || any_has_window(
            b,
            id,
            floating,
        ),
    decreases b.len(),
{
    if b.len() == 0 {
        assert(a + b == a);
    } else {
        assert((a + b).drop_last() == a + b.drop_last());
        lemma_any_has_concat(a, b.drop_last(), id, floating);
    }
}

proof fn lemma_brought_back_more(
    d: Dialogue,
    m: Dialogue,
    e: Dialogue,
    a: Seq<Tree>,
    b: Seq<Tree>,
    layouts: spec_fn(Seq<char>) -> bool,
    workspace: Seq<char>,
)
    requires
        brought_back(d, m, a, layouts, workspace),
        brought_back(m, e, b, layouts, workspace),
    ensures
        brought_back(d, e, a + b, layouts, workspace),
{
    let n = d.asked.len() as int;
    let k = m.asked.len() as int;
    let f = |request: Ask| is_move(request);
    lemma_all_ids_concat(a, b);
    assert(e.asked.skip(n) == m.asked.skip(n) + e.asked.skip(k));
    Seq::filter_distributes_over_add(m.asked.skip(n), e.asked.skip(k), f);
    assert(moves(all_ids(a) + all_ids(b), workspace) == moves(all_ids(a), workspace) + moves(
        all_ids(b),
        workspace,
    ));
    assert forall|i: int| n <= i < e.asked.len() implies #[trigger] brings_back(
        e,
        n,
        i,
        a + b,
        layouts,
        workspace,
    ) by {
        assert forall|id: i64| any_has_window(a, id, true) || any_has_window(b, id, true) implies
            #[trigger] any_has_window(a + b, id, true) by {
            lemma_any_has_concat(a, b, id, true);
        }
        if i < k {
            assert(brings_back(m, n, i, a, layouts, workspace));
            assert(e.asked[i] == m.asked[i]);
            assert(i > n ==> e.asked[i - 1] == m.asked[i - 1]);
        } else {
            assert(brings_back(e, k, i, b, layouts, workspace));
        }
    }
    assert forall|i: int, id: i64|
        #![trigger e.asked[i], move_command(id, workspace)]
        {
            &&& n <= i < e.asked.len()
            &&& e.asked[i] == Ask::Run(move_command(id, workspace))
            &&& e.replies[i] is Ran
            &&& !any_has_window(a + b, id, false)
        } implies i + 1 < e.asked.len() && e.asked[i + 1] == Ask::Run(float_command(id)) by {
        lemma_any_has_concat(a, b, id, false);
        if i < k {
            assert(e.asked[i] == m.asked[i]);
            assert(m.asked[i + 1] == e.asked[i + 1]);
        }
    }
}

proof fn lemma_brought_back_widely(
    d: Dialogue,
    e: Dialogue,
    a: Seq<Tree>,
    b: Seq<Tree>,
    some: spec_fn(Seq<char>) -> bool,
    more: spec_fn(Seq<char>) -> bool,
    workspace: Seq<char>,
)
    requires
        brought_back(d, e, a, some, workspace),
        all_ids(a) == all_ids(b),
        forall|id: i64, floating: bool| #[trigger]
            any_has_window(a, id, floating) == any_has_window(b, id, floating),
        forall|layout: Seq<char>| some(layout) ==> #[trigger] more(layout),
    ensures
        brought_back(d, e, b, more, workspace),
{
    let n = d.asked.len() as int;
    assert forall|i: int| n <= i < e.asked.len() implies #[trigger] brings_back(
        e,
        n,
        i,
        b,
        more,
        workspace,
    ) by {
        assert(brings_back(e, n, i, a, some, workspace));
    }
}

proof fn lemma_nothing_brought_back(
    d: Dialogue,
    layouts: spec_fn(Seq<char>) -> bool,
    workspace: Seq<char>,
)
    requires
        d.answered(),
    ensures
        brought_back(d, d, seq![], layouts, workspace),
{
    reveal(Seq::filter);
    assert(d.asked.skip(d.asked.len() as int) == Seq::<Ask>::empty());
    assert(all_ids(Seq::<Tree>::empty()) == Seq::<i64>::empty());
    assert(moves(Seq::<i64>::empty(), workspace) == Seq::<Ask>::empty());
}

proof fn lemma_node_brought_back(node: Tree, workspace: Seq<char>, is_first: bool, d: Dialogue)
    requires
        d.answered(),
        restore_node_program(node, workspace, is_first)(d).1 is Ok,
    ensures
        brought_back(
            d,
            restore_node_program(node, workspace, is_first)(d).0,
            seq![node],
            |layout: Seq<char>| has_layout(node, layout),
            workspace,
        ),
    decreases node,
{
    let e = restore_node_program(node, workspace, is_first)(d).0;
    let layouts = |layout: Seq<char>| has_layout(node, layout);
    let one = seq![node];
    assert(one.drop_last() == Seq::<Tree>::empty());
    assert(all_ids(one.drop_last()) == Seq::<i64>::empty());
    assert(all_ids(one) == window_ids(node));
    assert forall|id: i64, floating: bool| #[trigger]
        any_has_window(one, id, floating) == has_window(node, id, floating) by {
        assert(!any_has_window(one.drop_last(), id, floating));
    }
    match node {
        Tree::Window { con_id, floating, .. } => {
            let n = d.asked.len() as int;
            let request = Ask::Run(move_command(con_id, workspace));
            let float = Ask::Run(float_command(con_id));
            let e1 = attempt_program(move_command(con_id, workspace))(d).0;
            assert(e1.asked == d.asked.push(request));
            assert(is_move(request));
            lemma_restoring_without_moving(con_id, workspace, workspace);
            reveal_with_fuel(Seq::filter, 3);
            let f = |request: Ask| is_move(request);
            if e.asked.len() > n + 1 {
                assert(e.asked == e1.asked.push(float));
                assert(e.asked.skip(n) == seq![request, float]);
                assert(seq![request, float].drop_last() == seq![request]);
            } else {
                assert(e.asked.skip(n) == seq![request]);
            }
            assert(seq![request].drop_last() == Seq::<Ask>::empty());
            assert(seq![request].filter(f) == seq![request]);
            assert(moves_among(e.asked.skip(n)) == seq![request]);
            assert(moves(all_ids(one), workspace) == seq![request]);
            assert forall|i: int| n <= i < e.asked.len() implies #[trigger] brings_back(
                e,
                n,
                i,
                one,
                layouts,
                workspace,
            ) by {
                if i > n {
                    assert(any_has_window(one, con_id, true));
                    assert(e.asked[i] == Ask::Run(float_command(con_id)));
                }
            }
            assert forall|i: int, id: i64|
                #![trigger e.asked[i], move_command(id, workspace)]
                {
                    &&& n <= i < e.asked.len()
                    &&& e.asked[i] == Ask::Run(move_command(id, workspace))
                    &&& e.replies[i] is Ran
                    &&& !any_has_window(one, id, false)
                } implies i + 1 < e.asked.len() && e.asked[i + 1] == Ask::Run(
                float_command(id),
            ) by {
                if i > n {
                    assert(is_move(e.asked[i]));
                } else {
                    lemma_move_command_injective(con_id, id, workspace, workspace);
                    assert(!any_has_window(one, con_id, false));
                }
            }
        },
        Tree::Container { layout, children } => {
            lemma_children_brought_back(children, layout, workspace, is_first, d);
            let inner = |x: Seq<char>| x == layout || any_has_layout(children, x);
            lemma_brought_back_widely(d, e, children, one, inner, layouts, workspace);
        },
    }
}

proof fn lemma_children_brought_back(
    children: Seq<Tree>,
    layout: Seq<char>,
    workspace: Seq<char>,
    is_first: bool,
    d: Dialogue,
)
    requires
        d.answered(),
        restore_children_program(children, layout, workspace, is_first)(d).1 is Ok,
    ensures
        brought_back(
            d,
            restore_children_program(children, layout, workspace, is_first)(d).0,
            children,
            |x: Seq<char>| x == layout || any_has_layout(children, x),
            workspace,
        ),
    decreases children,
{
    let layouts = |x: Seq<char>| x == layout || any_has_layout(children, x);
    if children.len() == 0 {
        lemma_nothing_brought_back(d, layouts, workspace);
        assert(children == Seq::<Tree>::empty());
    } else {
        let front = children.drop_last();
        let last = children.last();
        let (d1, r1) = restore_children_program(front, layout, workspace, is_first)(d);
        lemma_children_brought_back(front, layout, workspace, is_first, d);
        let some = |x: Seq<char>| x == layout || any_has_layout(front, x);
        lemma_brought_back_widely(d, d1, front, front, some, layouts, workspace);
        let split = if children.len() > 1 && !is_first {
            tell(Ask::Run(split_command(layout)))(d1)
        } else {
            (d1, Ok(()))
        };
        let d2 = split.0;
        let none = Seq::<Tree>::empty();
        assert(brought_back(d1, d2, none, layouts, workspace)) by {
            lemma_nothing_brought_back(d1, layouts, workspace);
            if children.len() > 1 && !is_first {
                let n = d1.asked.len() as int;
                let request = Ask::Run(split_command(layout));
                lemma_restoring_without_moving(0, workspace, layout);
                reveal_with_fuel(Seq::filter, 2);
                assert(d2.asked == d1.asked.push(request));
                assert(d2.asked.skip(n) == seq![request]);
                assert(seq![request].drop_last() == Seq::<Ask>::empty());
                assert(moves_among(seq![request]) == Seq::<Ask>::empty());
                assert(all_ids(none) == Seq::<i64>::empty());
                assert(moves(all_ids(none), workspace) == Seq::<Ask>::empty());
                assert(layouts(layout));
                assert forall|i: int, id: i64|
                    #![trigger d2.asked[i], move_command(id, workspace)]
                    {
                        &&& n <= i < d2.asked.len()
                        &&& d2.asked[i] == Ask::Run(move_command(id, workspace))
                        &&& d2.replies[i] is Ran
                        &&& !any_has_window(none, id, false)
                    } implies i + 1 < d2.asked.len() && d2.asked[i + 1] == Ask::Run(
                    float_command(id),
                ) by {
                    assert(is_move(d2.asked[i]));
                }
            }
        }
        lemma_brought_back_more(d, d1, d2, front, none, layouts, workspace);
        assert(front + none == front);
        let first = is_first && children.len() == 1;
        let d3 = restore_node_program(last, workspace, first)(d2).0;
        lemma_node_brought_back(last, workspace, first, d2);
        let own = |x: Seq<char>| has_layout(last, x);
        lemma_brought_back_widely(d2, d3, seq![last], seq![last], own, layouts, workspace);
        lemma_brought_back_more(d, d2, d3, front, seq![last], layouts, workspace);
        assert(front + seq![last] == children);
    }
}

proof fn lemma_tree_brought_back(tree: Seq<Tree>, workspace: Seq<char>, d: Dialogue)
    requires
        d.answered(),
        restore_tree_program(tree, workspace)(d).1 is Ok,
    ensures
        brought_back(
            d,
            restore_tree_program(tree, workspace)(d).0,
            tree,
            layouts_of(tree),
            workspace,
        ),
    decreases tree.len(),
{
    let layouts = layouts_of(tree);
    if tree.len() == 0 {
        lemma_nothing_brought_back(d, layouts, workspace);
        assert(tree == Seq::<Tree>::empty());
    } else {
        let front = tree.drop_last();
        let last = tree.last();
        let d1 = restore_tree_program(front, workspace)(d).0;
        lemma_tree_brought_back(front, workspace, d);
        let some = layouts_of(front);
        lemma_brought_back_widely(d, d1, front, front, some, layouts, workspace);
        let d2 = restore_node_program(last, workspace, true)(d1).0;
        lemma_node_brought_back(last, workspace, true, d1);
        let own = |x: Seq<char>| has_layout(last, x);
        lemma_brought_back_widely(d1, d2, seq![last], seq![last], own, layouts, workspace);
        lemma_brought_back_more(d, d1, d2, front, seq![last], layouts, workspace);
        assert(front + seq![last] == tree);
    }
}

/// The steps that rebuild a tree on a workspace: each window is moved there in
/// its turn, and before any but the first child of a container the layout is
/// split as the container's; not so in the outermost container, up to where
/// its first child's first child, and so on, stands.
pub open spec fn steps(tree: Tree, workspace: Seq<char>, outermost: bool) -> Seq<Ask>
    decreases tree,
{
    match tree {
        Tree::Window { con_id, .. } => seq![Ask::Run(move_command(con_id, workspace))],
        Tree::Container { layout, children } => steps_among(children, layout, workspace, outermost),
    }
}

/// The steps that rebuild the children of a container.
pub open spec fn steps_among(
    children: Seq<Tree>,
    layout: Seq<char>,
    workspace: Seq<char>,
    outermost: bool,
) -> Seq<Ask>
    decreases children,
{
    if children.len() == 0 {
        seq![]
    } else if children.len() == 1 {
        steps(children[0], workspace, outermost)
    } else {
        let before = steps_among(children.drop_last(), layout, workspace, outermost);
        let own = steps(children.last(), workspace, false);
        if outermost {
            before + own
        } else {
            before + seq![Ask::Run(split_command(layout))] + own
        }
    }
}

/// The steps that rebuild trees, one after another.
pub open spec fn all_steps(trees: Seq<Tree>, workspace: Seq<char>) -> Seq<Ask>
    decreases trees.len(),
{
    if trees.len() == 0 {
        seq![]
    } else {
        all_steps(trees.drop_last(), workspace) + steps(trees.last(), workspace, true)
    }
}

/// Whether a request is to make a window float.
pub open spec fn is_float(request: Ask) -> bool {
    exists|id: i64| request == Ask::Run(#[trigger] float_command(id))
}

/// Whether a dialogue went on with these steps and with windows made to float
/// in between.
pub open spec fn stepped(d: Dialogue, e: Dialogue, steps: Seq<Ask>) -> bool {
    &&& e.replies == d.replies
    &&& d.asked.is_prefix_of(e.asked)
    &&& e.answered()
    &&& e.asked.skip(d.asked.len() as int).filter(|request: Ask| !is_float(request)) == steps
}

proof fn lemma_stepped_more(d: Dialogue, m: Dialogue, e: Dialogue, a: Seq<Ask>, b: Seq<Ask>)
    requires
        stepped(d, m, a),
        stepped(m, e, b),
    ensures
        stepped(d, e, a + b),
{
    let n = d.asked.len() as int;
    let k = m.asked.len() as int;
    let f = |request: Ask| !is_float(request);
    assert(e.asked.skip(n) == m.asked.skip(n) + e.asked.skip(k));
    Seq::filter_distributes_over_add(m.asked.skip(n), e.asked.skip(k), f);
}

proof fn lemma_not_stepped(d: Dialogue)
    requires
        d.answered(),
    ensures
        stepped(d, d, seq![]),
{
    reveal(Seq::filter);
    assert(d.asked.skip(d.asked.len() as int) == Seq::<Ask>::empty());
}

proof fn lemma_one_step(d: Dialogue, e: Dialogue, request: Ask)
    requires
        e == once_asked(d, request),
        e.answered(),
    ensures
        !is_float(request) ==> stepped(d, e, seq![request]),
        is_float(request) ==> stepped(d, e, seq![]),
{
    reveal_with_fuel(Seq::filter, 2);
    assert(e.asked.skip(d.asked.len() as int) == seq![request]);
    assert(seq![request].drop_last() == Seq::<Ask>::empty());
}

proof fn lemma_steps_are_no_floats(con_id: i64, workspace: Seq<char>, layout: Seq<char>)
    ensures
        !is_float(Ask::Run(move_command(con_id, workspace))),
        !is_float(Ask::Run(split_command(layout))),
{
    reveal_strlit("\"");
    reveal_strlit(" floating enable");
    reveal_strlit("[con_id=");
    reveal_strlit("splitv");
    reveal_strlit("splith");
    reveal_strlit("layout tabbed");
    reveal_strlit("layout stacking");
    assert(move_command(con_id, workspace).last() == '"');
    assert forall|id: i64| (#[trigger] float_command(id)).last() == 'e' && float_command(id)[0]
        == '[' by {}
}

proof fn lemma_node_stepped(node: Tree, workspace: Seq<char>, is_first: bool, d: Dialogue)
    requires
        d.answered(),
        restore_node_program(node, workspace, is_first)(d).1 is Ok,
    ensures
        stepped(
            d,
            restore_node_program(node, workspace, is_first)(d).0,
            steps(node, workspace, is_first),
        ),
    decreases node,
{
    let e = restore_node_program(node, workspace, is_first)(d).0;
    match node {
        Tree::Window { con_id, floating, .. } => {
            let request = Ask::Run(move_command(con_id, workspace));
            let float = Ask::Run(float_command(con_id));
            let e1 = attempt_program(move_command(con_id, workspace))(d).0;
            assert(e1 == once_asked(d, request));
            lemma_steps_are_no_floats(con_id, workspace, workspace);
            lemma_one_step(d, e1, request);
            if e.asked.len() > e1.asked.len() {
                assert(e == once_asked(e1, float));
                assert(is_float(float));
                lemma_one_step(e1, e, float);
                lemma_stepped_more(d, e1, e, seq![request], seq![]);
                assert(seq![request] + Seq::<Ask>::empty() == seq![request]);
            }
        },
        Tree::Container { layout, children } => {
            lemma_children_stepped(children, layout, workspace, is_first, d);
        },
    }
}

proof fn lemma_children_stepped(
    children: Seq<Tree>,
    layout: Seq<char>,
    workspace: Seq<char>,
    is_first: bool,
    d: Dialogue,
)
    requires
        d.answered(),
        restore_children_program(children, layout, workspace, is_first)(d).1 is Ok,
    ensures
        stepped(
            d,
            restore_children_program(children, layout, workspace, is_first)(d).0,
            steps_among(children, layout, workspace, is_first),
        ),
    decreases children,
{
    if children.len() == 0 {
        lemma_not_stepped(d);
    } else {
        let front = children.drop_last();
        let last = children.last();
        let first = is_first && children.len() == 1;
        let d1 = restore_children_program(front, layout, workspace, is_first)(d).0;
        lemma_children_stepped(front, layout, workspace, is_first, d);
        let before = steps_among(front, layout, workspace, is_first);
        let own = steps(last, workspace, first);
        if children.len() > 1 && !is_first {
            let split = Ask::Run(split_command(layout));
            let d2 = tell(split)(d1).0;
            assert(d2 == once_asked(d1, split));
            lemma_steps_are_no_floats(0, workspace, layout);
            lemma_one_step(d1, d2, split);
            lemma_stepped_more(d, d1, d2, before, seq![split]);
            let d3 = restore_node_program(last, workspace, first)(d2).0;
            lemma_node_stepped(last, workspace, first, d2);
            lemma_stepped_more(d, d2, d3, before + seq![split], own);
        } else {
            let d3 = restore_node_program(last, workspace, first)(d1).0;
            lemma_node_stepped(last, workspace, first, d1);
            lemma_stepped_more(d, d1, d3, before, own);
            if children.len() == 1 {
                assert(before == Seq::<Ask>::empty());
                assert(before + own == own);
            }
        }
    }
}

proof fn lemma_tree_stepped(tree: Seq<Tree>, workspace: Seq<char>, d: Dialogue)
    requires
        d.answered(),
        restore_tree_program(tree, workspace)(d).1 is Ok,
    ensures
        stepped(d, restore_tree_program(tree, workspace)(d).0, all_steps(tree, workspace)),
    decreases tree.len(),
{
    if tree.len() == 0 {
        lemma_not_stepped(d);
    } else {
        let front = tree.drop_last();
        let d1 = restore_tree_program(front, workspace)(d).0;
        lemma_tree_stepped(front, workspace, d);
        let d2 = restore_node_program(tree.last(), workspace, true)(d1).0;
        lemma_node_stepped(tree.last(), workspace, true, d1);
        lemma_stepped_more(
            d,
            d1,
            d2,
            all_steps(front, workspace),
            steps(tree.last(), workspace, true),
        );
    }
}

/// Whether a snapshot was restored: its trees were brought back to the
/// workspace of its name, step by step, and then that was laid out as it was
/// stored.
pub open spec fn reopened(d: Dialogue, e: Dialogue, snapshot: Snapshot) -> bool {
    exists|m: Dialogue|
        {
            &&& #[trigger] brought_back(
                d,
                m,
                snapshot.tree,
                layouts_of(snapshot.tree),
                snapshot.name,
            )
            &&& stepped(d, m, all_steps(snapshot.tree, snapshot.name))
            &&& went_on(
                m,
                e,
                seq![Ask::Run(lay_out_command(snapshot.name, snapshot.layout))],
            )
        }
}

/// Whether snapshots were restored one after another: `stops` are the dialogue
/// before and after each.
pub open spec fn all_reopened(
    d: Dialogue,
    e: Dialogue,
    snapshots: Seq<Snapshot>,
    stops: Seq<Dialogue>,
) -> bool {
    &&& stops.len() == snapshots.len() + 1
    &&& stops[0] == d
    &&& stops.last() == e
    &&& forall|k: int|
        0 <= k < snapshots.len() ==> #[trigger] reopened(stops[k], stops[k + 1], snapshots[k])
}

/// Restoring snapshots restores one after another.
pub proof fn lemma_all_reopened(snapshots: Seq<Snapshot>, d: Dialogue) -> (stops: Seq<Dialogue>)
    requires
        d.answered(),
        restore_all_program(snapshots)(d).1 is Ok,
    ensures
        all_reopened(d, restore_all_program(snapshots)(d).0, snapshots, stops),
    decreases snapshots.len(),
{
    if snapshots.len() == 0 {
        seq![d]
    } else {
        let front = snapshots.drop_last();
        let last = snapshots.last();
        let stops = lemma_all_reopened(front, d);
        let d1 = restore_all_program(front)(d).0;
        lemma_restore_all(front, d);
        let m = restore_tree_program(last.tree, last.name)(d1).0;
        lemma_tree_brought_back(last.tree, last.name, d1);
        lemma_tree_stepped(last.tree, last.name, d1);
        let e = restore_all_program(snapshots)(d).0;
        let request = Ask::Run(lay_out_command(last.name, last.layout));
        assert(m.asked.push(request) == m.asked + seq![request]);
        assert(reopened(d1, e, last));
        let all = stops.push(e);
        assert forall|k: int| 0 <= k < snapshots.len() implies #[trigger] reopened(
            all[k],
            all[k + 1],
            snapshots[k],
        ) by {
            if k < front.len() {
                assert(reopened(stops[k], stops[k + 1], front[k]));
            }
        }
        all
    }
}

/// Whether a set was thawed: what is stored of it was read, its snapshots were
/// restored one after another, and then it was removed.
pub open spec fn thawed(
    d: Dialogue,
    e: Dialogue,
    set: Seq<char>,
    restored: nat,
    total: nat,
) -> bool {
    let read = once_asked(d, Ask::ReadIce(ice_name(set)));
    &&& reply(d, 0) matches Reply::Snapshots(stored)
    &&& exists|m: Dialogue, stops: Seq<Dialogue>|
        {
            &&& #[trigger] all_reopened(read, m, shots(stored@), stops)
            &&& went_on(m, e, seq![Ask::RemoveIce(ice_name(set))])
            &&& reply(m, 0) is Done
            &&& restored == went(m, d.asked.len() as int + 1, m.asked.len() as int)
            &&& total == sent(m, d.asked.len() as int + 1, m.asked.len() as int)
            &&& total == snapshot_ids(shots(stored@)).len()
        }
}

/// Thawing a set restores every workspace stored of it: its windows in their
/// order, floating again if they did, and then its own layout.
pub proof fn law_thawing_reopens_every_workspace_as_it_was(
    set: Seq<char>,
    d: Dialogue,
    restored: nat,
    total: nat,
)
    requires
        d.answered(),
        thaw_set_program(set)(d).1 == Ok::<(nat, nat), Halt>((restored, total)),
    ensures
        thawed(d, thaw_set_program(set)(d).0, set, restored, total),
{
    let (d1, r1) = load_ice_program(set)(d);
    let snapshots = r1->Ok_0;
    let stops = lemma_all_reopened(snapshots, d1);
    lemma_restore_all(snapshots, d1);
    let m = restore_all_program(snapshots)(d1).0;
    let request = Ask::RemoveIce(ice_name(set));
    assert(m.asked.push(request) == m.asked + seq![request]);
    assert(d1 == once_asked(d, Ask::ReadIce(ice_name(set))));
    assert(all_reopened(d1, m, snapshots, stops));
}

} // verus!
