//! What freezing, thawing and delivering ask for: windows are parked only once
//! it is stored where they belong, and what is stored is removed only once
//! every window has been sent back there.

use crate::command::deliver_snapshot_program;
use crate::dialogue::{attempt_program, tell, Ask, Dialogue, Halt, Reply};
use crate::freeze::{
    frozen, ice_set_program, move_all_program, restore_all_program, restore_children_program,
    restore_node_program, restore_tree_program, thaw_set_program,
};
use crate::pins::{pinned_windows, Pin};
use crate::sets::ice_name;
use crate::snapshot::{
    all_ids, law_solid_tree_holds_a_window, law_splicing_adds_exactly_the_windows_of_the_tree,
    law_stripping_leaves_nothing_empty, law_stripping_takes_out_exactly_the_pinned_windows,
    lemma_stripped_from, shots, snapshot_ids, spliced, window_ids, Snapshot, Tree,
};
use crate::state::{
    list_iced_program, load_ice_program, pins_program, save_ice_program, tree_program,
};
use crate::sway::{
    delivered_notice, float_command, lay_out_command, lemma_restoring_without_moving, move_command,
    moves_window, split_command,
};
use crate::tree::{set_snapshots, Node};
use crate::workspace::PARKING_WORKSPACE;
use vstd::prelude::*;

verus! {

/// The requests that move windows to a workspace.
pub open spec fn moves(ids: Seq<i64>, workspace: Seq<char>) -> Seq<Ask> {
    ids.map_values(|id: i64| Ask::Run(move_command(id, workspace)))
}

/// Moving windows asks for one after another to be moved, and cannot fail.
pub proof fn lemma_move_all_asks(ids: Seq<i64>, workspace: Seq<char>, d: Dialogue)
    ensures
        ({
            let (e, r) = move_all_program(ids, workspace)(d);
            let n = e.asked.len() - d.asked.len();
            &&& e.replies == d.replies
            &&& 0 <= n <= ids.len()
            &&& e.asked == d.asked + moves(ids.take(n), workspace)
            &&& match r {
                Ok(u) => n == ids.len(),
                Err(halt) => halt == Halt::Waiting,
            }
        }),
    decreases ids.len(),
{
    if ids.len() > 0 {
        let front = ids.drop_last();
        lemma_move_all_asks(front, workspace, d);
        let (e, r) = move_all_program(front, workspace)(d);
        let n = e.asked.len() - d.asked.len();
        assert(front.take(n) == ids.take(n));
        if r is Ok {
            let request = Ask::Run(move_command(ids.last(), workspace));
            assert(ids.take(ids.len() as int) == ids);
            assert(moves(ids, workspace) == moves(front, workspace).push(request));
            assert(tell(request)(e).0.asked == e.asked.push(request));
        }
    }
}

/// Everything that freezing a set asks for: the tree and the pins; then, if
/// there are windows to freeze, that they be stored and that each be parked.
pub open spec fn freezing(set: Seq<char>, snapshots: Seq<Snapshot>) -> Seq<Ask> {
    if snapshots.len() == 0 {
        seq![Ask::Tree, Ask::ReadPins]
    } else {
        seq![Ask::Tree, Ask::ReadPins, Ask::WriteIce(ice_name(set), snapshots)] + moves(
            snapshot_ids(snapshots),
            PARKING_WORKSPACE@,
        )
    }
}

/// The pins that a reply holds; none, where they could not be read.
pub open spec fn stored_pins(reply: Reply) -> Seq<Pin> {
    match reply {
        Reply::Pins(pins) => pins@,
        _ => seq![],
    }
}

/// Freezing a set asks for the windows of its workspaces, but for the pinned
/// ones, to be stored and then for exactly those to be parked; it counts them.
pub proof fn law_freezing_parks_exactly_what_it_stores(set: Seq<char>, d: Dialogue)
    requires
        d.answered(),
        ice_set_program(set)(d).1 is Ok,
    ensures
        exists|tree: Node, pins: Seq<Pin>|
            {
                let snapshots = #[trigger] frozen(tree, set, pins);
                &&& d.replies[d.asked.len() as int] == Reply::Tree(tree)
                &&& pins == stored_pins(d.replies[d.asked.len() as int + 1])
                &&& ice_set_program(set)(d).0.asked == d.asked + freezing(set, snapshots)
                &&& ice_set_program(set)(d).1 == Ok::<nat, Halt>(snapshot_ids(snapshots).len())
            },
{
    let n = d.asked.len() as int;
    let (d1, r1) = tree_program()(d);
    let tree = r1->Ok_0;
    let (d2, r2) = pins_program()(d1);
    let pins = r2->Ok_0;
    let snapshots = frozen(tree, set, pins);
    assert(d2.asked == d.asked + seq![Ask::Tree, Ask::ReadPins]);
    if snapshots.len() > 0 {
        let (d3, r3) = save_ice_program(set, snapshots)(d2);
        let store = Ask::WriteIce(ice_name(set), snapshots);
        assert(d3.asked == d.asked + seq![Ask::Tree, Ask::ReadPins, store]);
        let ids = snapshot_ids(snapshots);
        lemma_move_all_asks(ids, PARKING_WORKSPACE@, d3);
        assert(ids.take(ids.len() as int) == ids);
        assert(d3.asked + moves(ids, PARKING_WORKSPACE@) == d.asked + freezing(set, snapshots));
    }
}

/// Whenever freezing a set asks for anything to be run, it is that a window be
/// parked, and the set is stored by then, with that window in it.
pub proof fn law_freezing_stores_before_it_parks(set: Seq<char>, d: Dialogue, i: int)
    requires
        d.answered(),
        d.asked.len() <= i < ice_set_program(set)(d).0.asked.len(),
        ice_set_program(set)(d).0.asked[i] is Run,
    ensures
        exists|snapshots: Seq<Snapshot>, id: i64|
            {
                let asked = ice_set_program(set)(d).0.asked;
                &&& i > d.asked.len() + 2
                &&& asked[d.asked.len() as int + 2] == Ask::WriteIce(ice_name(set), snapshots)
                &&& d.replies[d.asked.len() as int + 2] is Done
                &&& #[trigger] snapshot_ids(snapshots).contains(id)
                &&& asked[i] == Ask::Run(#[trigger] move_command(id, PARKING_WORKSPACE@))
            },
{
    let n = d.asked.len() as int;
    let asked = ice_set_program(set)(d).0.asked;
    let (d1, r1) = tree_program()(d);
    if r1 is Ok {
        let (d2, r2) = pins_program()(d1);
        if r2 is Ok {
            let snapshots = frozen(r1->Ok_0, set, r2->Ok_0);
            let (d3, r3) = save_ice_program(set, snapshots)(d2);
            if snapshots.len() > 0 && r3 is Ok {
                let ids = snapshot_ids(snapshots);
                lemma_move_all_asks(ids, PARKING_WORKSPACE@, d3);
                let moved = ids.take(asked.len() - d3.asked.len());
                assert(asked == d3.asked + moves(moved, PARKING_WORKSPACE@));
                assert(asked[i] == moves(moved, PARKING_WORKSPACE@)[i - d3.asked.len()]);
                let id = moved[i - d3.asked.len()];
                assert(ids[i - d3.asked.len()] == id);
                assert(asked[n + 2] == Ask::WriteIce(ice_name(set), snapshots));
                assert(snapshot_ids(snapshots).contains(id));
                assert(asked[i] == Ask::Run(move_command(id, PARKING_WORKSPACE@)));
            }
        }
    }
}

/// What is frozen are the windows on the workspaces of the set that are not
/// pinned.
pub proof fn law_freezing_leaves_pinned_windows_out(tree: Node, set: Seq<char>, pins: Seq<Pin>)
    ensures
        snapshot_ids(frozen(tree, set, pins)) == snapshot_ids(set_snapshots(tree, set)).filter(
            |id: i64| !pinned_windows(pins).contains(id),
        ),
{
    law_stripping_takes_out_exactly_the_pinned_windows(
        set_snapshots(tree, set),
        pinned_windows(pins),
    );
}

/// Freezing a set stores something exactly where a window that is not pinned
/// is saved of its workspaces.
pub proof fn law_freezing_stores_where_an_unpinned_window_is_left(
    tree: Node,
    set: Seq<char>,
    pins: Seq<Pin>,
)
    ensures
        frozen(tree, set, pins).len() > 0 <==> exists|id: i64| #[trigger]
            snapshot_ids(set_snapshots(tree, set)).contains(id) && !pinned_windows(pins).contains(
                id,
            ),
{
    let all = snapshot_ids(set_snapshots(tree, set));
    let f = |id: i64| !pinned_windows(pins).contains(id);
    let kept = frozen(tree, set, pins);
    law_freezing_leaves_pinned_windows_out(tree, set, pins);
    if kept.len() > 0 {
        law_stripping_leaves_nothing_empty(
            set_snapshots(tree, set),
            pinned_windows(pins),
            kept.len() - 1,
        );
        law_solid_tree_holds_a_window(kept.last().tree.last());
        let ids = snapshot_ids(kept);
        assert(ids.len() > 0);
        all.lemma_filter_pred(f, 0);
        assert(ids.contains(ids[0]));
        all.lemma_filter_contains_rev(f, ids[0]);
        assert(all.contains(ids[0]));
    }
    if exists|id: i64| #[trigger] all.contains(id) && !pinned_windows(pins).contains(id) {
        let id = choose|id: i64| #[trigger]
            all.contains(id) && !pinned_windows(pins).contains(id);
        all.lemma_filter_contains(f, all.index_of(id));
        assert(snapshot_ids(kept).contains(id));
    }
}

/// Whether a request sends a window back to a workspace.
pub open spec fn sends_back(d: Dialogue, from: int, id: i64, workspace: Seq<char>) -> bool {
    exists|i: int|
        from <= i < d.asked.len() && #[trigger] d.asked[i] == Ask::Run(move_command(id, workspace))
}

/// Whether a request has to do with restoring some windows on a workspace, and
/// touches no other window.
pub open spec fn restores(request: Ask, ids: Seq<i64>, workspace: Seq<char>) -> bool {
    ||| exists|id: i64| #[trigger]
        ids.contains(id) && (request == Ask::Run(move_command(id, workspace)) || request
            == Ask::Run(float_command(id)))
    ||| exists|layout: Seq<char>| request == Ask::Run(#[trigger] split_command(layout))
    ||| exists|layout: Seq<char>| request == Ask::Run(#[trigger] lay_out_command(workspace, layout))
}

/// Whether a request is to move a window to a workspace.
pub open spec fn is_move(request: Ask) -> bool {
    request matches Ask::Run(command) && moves_window(command)
}

/// How many windows were sent to a workspace between two requests.
pub open spec fn sent(d: Dialogue, from: int, to: int) -> nat
    decreases to - from,
{
    if to <= from {
        0
    } else if is_move(d.asked[to - 1]) {
        sent(d, from, to - 1) + 1
    } else {
        sent(d, from, to - 1)
    }
}

/// How many of the windows sent to a workspace between two requests went: the
/// command that moves them reached sway.
pub open spec fn went(d: Dialogue, from: int, to: int) -> nat
    decreases to - from,
{
    if to <= from {
        0
    } else if is_move(d.asked[to - 1]) && d.replies[to - 1] is Ran {
        went(d, from, to - 1) + 1
    } else {
        went(d, from, to - 1)
    }
}

/// Whether every window sent to a workspace between two requests went.
pub open spec fn all_went(d: Dialogue, from: int, to: int) -> bool {
    forall|i: int|
        from <= i < to && is_move(#[trigger] d.asked[i]) ==> d.replies[i] is Ran
}

/// As many windows went as were sent exactly when all of them went.
proof fn lemma_all_went(d: Dialogue, from: int, to: int)
    ensures
        went(d, from, to) <= sent(d, from, to),
        went(d, from, to) == sent(d, from, to) <==> all_went(d, from, to),
    decreases to - from,
{
    if to > from {
        lemma_all_went(d, from, to - 1);
        if all_went(d, from, to - 1) && (is_move(d.asked[to - 1]) ==> d.replies[to - 1] is Ran) {
            assert(all_went(d, from, to));
        }
        if all_went(d, from, to) {
            assert(is_move(d.asked[to - 1]) ==> d.replies[to - 1] is Ran);
            assert(all_went(d, from, to - 1));
        }
    }
}

/// What was counted first and what was counted then.
proof fn lemma_counts_add_up(d: Dialogue, e: Dialogue, from: int, middle: int, to: int)
    requires
        from <= middle <= to,
        e.replies == d.replies,
        middle == d.asked.len(),
        d.asked.is_prefix_of(e.asked),
        from >= 0,
    ensures
        sent(e, from, to) == sent(d, from, middle) + sent(e, middle, to),
        went(e, from, to) == went(d, from, middle) + went(e, middle, to),
    decreases to - from,
{
    if to > middle {
        lemma_counts_add_up(d, e, from, middle, to - 1);
    } else {
        lemma_counts_before(d, e, from, middle);
    }
}

proof fn lemma_counts_before(d: Dialogue, e: Dialogue, from: int, to: int)
    requires
        0 <= from,
        to <= d.asked.len(),
        e.replies == d.replies,
        d.asked.is_prefix_of(e.asked),
    ensures
        sent(e, from, to) == sent(d, from, to),
        went(e, from, to) == went(d, from, to),
    decreases to - from,
{
    if to > from {
        lemma_counts_before(d, e, from, to - 1);
        assert(e.asked[to - 1] == d.asked[to - 1]);
    }
}

/// What restoring some windows on a workspace comes to: it only restores
/// those, it cannot fail, and in the end each was sent back and those that
/// went are counted.
pub open spec fn restored(
    d: Dialogue,
    after: (Dialogue, Result<nat, Halt>),
    ids: Seq<i64>,
    workspace: Seq<char>,
) -> bool {
    let e = after.0;
    &&& e.replies == d.replies
    &&& d.asked.is_prefix_of(e.asked)
    &&& forall|i: int|
        d.asked.len() <= i < e.asked.len() ==> restores(#[trigger] e.asked[i], ids, workspace)
    &&& match after.1 {
        Ok(count) => {
            &&& e.answered()
            &&& count == went(e, d.asked.len() as int, e.asked.len() as int)
            &&& ids.len() == sent(e, d.asked.len() as int, e.asked.len() as int)
            &&& forall|id: i64| #[trigger]
                ids.contains(id) ==> sends_back(e, d.asked.len() as int, id, workspace)
        },
        Err(halt) => halt == Halt::Waiting,
    }
}

proof fn lemma_restores_among(
    request: Ask,
    some: Seq<i64>,
    ids: Seq<i64>,
    workspace: Seq<char>,
)
    requires
        restores(request, some, workspace),
        forall|id: i64| some.contains(id) ==> ids.contains(id),
    ensures
        restores(request, ids, workspace),
{
    if exists|id: i64| #[trigger]
        some.contains(id) && (request == Ask::Run(move_command(id, workspace)) || request
            == Ask::Run(float_command(id))) {
        let id = choose|id: i64| #[trigger]
            some.contains(id) && (request == Ask::Run(move_command(id, workspace)) || request
                == Ask::Run(float_command(id)));
        assert(ids.contains(id));
    }
}

proof fn lemma_restored_more(
    d: Dialogue,
    middle: (Dialogue, Result<nat, Halt>),
    after: (Dialogue, Result<nat, Halt>),
    some: Seq<i64>,
    more: Seq<i64>,
    workspace: Seq<char>,
)
    requires
        restored(d, middle, some, workspace),
        middle.1 is Ok,
        restored(middle.0, after, more, workspace),
    ensures
        restored(
            d,
            (
                after.0,
                match after.1 {
                    Ok(m) => Ok((middle.1->Ok_0 + m) as nat),
                    Err(halt) => Err(halt),
                },
            ),
            some + more,
            workspace,
        ),
{
    let e = middle.0;
    let g = after.0;
    let ids = some + more;
    assert forall|i: int| d.asked.len() <= i < g.asked.len() implies restores(
        #[trigger] g.asked[i],
        ids,
        workspace,
    ) by {
        if i < e.asked.len() {
            assert(g.asked[i] == e.asked[i]);
            assert forall|id: i64| some.contains(id) implies ids.contains(id) by {
                let k = some.index_of(id);
                assert(ids[k] == id);
            }
            lemma_restores_among(e.asked[i], some, ids, workspace);
        } else {
            assert forall|id: i64| more.contains(id) implies ids.contains(id) by {
                let k = more.index_of(id);
                assert(ids[some.len() + k] == id);
            }
            lemma_restores_among(g.asked[i], more, ids, workspace);
        }
    }
    if after.1 is Ok {
        lemma_counts_add_up(
            e,
            g,
            d.asked.len() as int,
            e.asked.len() as int,
            g.asked.len() as int,
        );
        assert forall|id: i64| #[trigger] ids.contains(id) implies sends_back(
            g,
            d.asked.len() as int,
            id,
            workspace,
        ) by {
            if some.contains(id) {
                let i = choose|i: int|
                    d.asked.len() <= i < e.asked.len() && #[trigger] e.asked[i] == Ask::Run(
                        move_command(id, workspace),
                    );
                assert(g.asked[i] == e.asked[i]);
            } else {
                let k = ids.index_of(id);
                assert(more[k - some.len()] == id);
                assert(more.contains(id));
            }
        }
    }
}

proof fn lemma_restored_waiting(
    d: Dialogue,
    e: Dialogue,
    some: Seq<i64>,
    more: Seq<i64>,
    workspace: Seq<char>,
)
    requires
        restored(d, (e, Err(Halt::Waiting)), some, workspace),
    ensures
        restored(d, (e, Err(Halt::Waiting)), some + more, workspace),
{
    let ids = some + more;
    assert forall|i: int| d.asked.len() <= i < e.asked.len() implies restores(
        #[trigger] e.asked[i],
        ids,
        workspace,
    ) by {
        assert forall|id: i64| some.contains(id) implies ids.contains(id) by {
            let k = some.index_of(id);
            assert(ids[k] == id);
        }
        lemma_restores_among(e.asked[i], some, ids, workspace);
    }
}

proof fn lemma_restore_node(node: Tree, workspace: Seq<char>, is_first: bool, d: Dialogue)
    requires
        d.answered(),
    ensures
        restored(
            d,
            restore_node_program(node, workspace, is_first)(d),
            window_ids(node),
            workspace,
        ),
    decreases node,
{
    let p = restore_node_program(node, workspace, is_first);
    let ids = window_ids(node);
    match node {
        Tree::Window { con_id, floating, .. } => {
            let request = Ask::Run(move_command(con_id, workspace));
            let n = d.asked.len() as int;
            let e1 = attempt_program(move_command(con_id, workspace))(d).0;
            assert(e1.asked == d.asked.push(request));
            assert(ids[0] == con_id);
            assert(ids.contains(con_id));
            let e = p(d).0;
            assert(e.asked[n] == request);
            if e.asked.len() > n + 1 {
                assert(e.asked == e1.asked.push(Ask::Run(float_command(con_id))));
            }
            assert forall|i: int| n <= i < e.asked.len() implies restores(
                #[trigger] e.asked[i],
                ids,
                workspace,
            ) by {}
            assert(sends_back(e, n, con_id, workspace));
            lemma_restoring_without_moving(con_id, workspace, workspace);
            assert(is_move(request));
            assert(sent(e, n, n) == 0 && went(e, n, n) == 0);
            assert(sent(e, n, n + 1) == 1);
            assert(e.asked.len() > n + 1 ==> sent(e, n, n + 2) == 1);
            assert(went(e, n, n + 1) <= 1);
            assert(e.asked.len() > n + 1 ==> went(e, n, n + 2) == went(e, n, n + 1));
        },
        Tree::Container { layout, children } => {
            lemma_restore_children(children, layout, workspace, is_first, d);
            assert(ids == all_ids(children));
        },
    }
}

proof fn lemma_restore_children(
    children: Seq<Tree>,
    layout: Seq<char>,
    workspace: Seq<char>,
    is_first: bool,
    d: Dialogue,
)
    requires
        d.answered(),
    ensures
        restored(
            d,
            restore_children_program(children, layout, workspace, is_first)(d),
            all_ids(children),
            workspace,
        ),
    decreases children,
{
    if children.len() > 0 {
        let front = children.drop_last();
        lemma_restore_children(front, layout, workspace, is_first, d);
        let middle = restore_children_program(front, layout, workspace, is_first)(d);
        assert(all_ids(children) == all_ids(front) + window_ids(children.last()));
        if middle.1 is Ok {
            let e = middle.0;
            let none = Seq::<i64>::empty();
            let split = if children.len() > 1 && !is_first {
                tell(Ask::Run(split_command(layout)))(e)
            } else {
                (e, Ok(()))
            };
            let paused = (
                split.0,
                match split.1 {
                    Ok(u) => Ok(0nat),
                    Err(halt) => Err(halt),
                },
            );
            assert(restored(e, paused, none, workspace)) by {
                let n = e.asked.len() as int;
                assert(sent(split.0, n, n) == 0 && went(split.0, n, n) == 0);
                if children.len() > 1 && !is_first {
                    lemma_restoring_without_moving(0, workspace, layout);
                    assert(split.0.asked == e.asked.push(Ask::Run(split_command(layout))));
                    assert(sent(split.0, n, n + 1) == 0 && went(split.0, n, n + 1) == 0);
                }
            }
            lemma_restored_more(d, middle, paused, all_ids(front), none, workspace);
            assert(all_ids(front) + none == all_ids(front));
            if split.1 is Ok {
                let first = is_first && children.len() == 1;
                lemma_restore_node(children.last(), workspace, first, split.0);
                lemma_restored_more(
                    d,
                    (split.0, middle.1),
                    restore_node_program(children.last(), workspace, first)(split.0),
                    all_ids(front),
                    window_ids(children.last()),
                    workspace,
                );
            } else {
                lemma_restored_waiting(
                    d,
                    split.0,
                    all_ids(front),
                    window_ids(children.last()),
                    workspace,
                );
            }
        } else {
            lemma_restored_waiting(
                d,
                middle.0,
                all_ids(front),
                window_ids(children.last()),
                workspace,
            );
        }
    }
}

proof fn lemma_restore_tree(tree: Seq<Tree>, workspace: Seq<char>, d: Dialogue)
    requires
        d.answered(),
    ensures
        restored(d, restore_tree_program(tree, workspace)(d), all_ids(tree), workspace),
    decreases tree.len(),
{
    if tree.len() > 0 {
        let front = tree.drop_last();
        lemma_restore_tree(front, workspace, d);
        let middle = restore_tree_program(front, workspace)(d);
        if middle.1 is Ok {
            lemma_restore_node(tree.last(), workspace, true, middle.0);
            lemma_restored_more(
                d,
                middle,
                restore_node_program(tree.last(), workspace, true)(middle.0),
                all_ids(front),
                window_ids(tree.last()),
                workspace,
            );
        } else {
            lemma_restored_waiting(
                d,
                middle.0,
                all_ids(front),
                window_ids(tree.last()),
                workspace,
            );
        }
    }
}

/// Whether a request has to do with restoring one of some snapshots.
pub open spec fn restores_one(request: Ask, snapshots: Seq<Snapshot>) -> bool {
    exists|k: int|
        0 <= k < snapshots.len() && restores(
            request,
            all_ids((#[trigger] snapshots[k]).tree),
            snapshots[k].name,
        )
}

/// Whether every window of some snapshots was sent back to its workspace.
pub open spec fn all_sent_back(d: Dialogue, from: int, snapshots: Seq<Snapshot>) -> bool {
    forall|k: int, id: i64|
        0 <= k < snapshots.len() && #[trigger] all_ids(snapshots[k].tree).contains(id)
            ==> sends_back(d, from, id, snapshots[k].name)
}

/// What restoring snapshots comes to, as for one workspace.
pub open spec fn all_restored(
    d: Dialogue,
    after: (Dialogue, Result<nat, Halt>),
    snapshots: Seq<Snapshot>,
) -> bool {
    let e = after.0;
    &&& e.replies == d.replies
    &&& d.asked.is_prefix_of(e.asked)
    &&& forall|i: int|
        d.asked.len() <= i < e.asked.len() ==> restores_one(#[trigger] e.asked[i], snapshots)
    &&& match after.1 {
        Ok(count) => {
            &&& e.answered()
            &&& count == went(e, d.asked.len() as int, e.asked.len() as int)
            &&& snapshot_ids(snapshots).len() == sent(
                e,
                d.asked.len() as int,
                e.asked.len() as int,
            )
            &&& all_sent_back(e, d.asked.len() as int, snapshots)
        },
        Err(halt) => halt == Halt::Waiting,
    }
}

/// Restoring snapshots restores them, whatever the replies.
pub proof fn lemma_restore_all(snapshots: Seq<Snapshot>, d: Dialogue)
    requires
        d.answered(),
    ensures
        all_restored(d, restore_all_program(snapshots)(d), snapshots),
    decreases snapshots.len(),
{
    if snapshots.len() > 0 {
        let n = d.asked.len() as int;
        let front = snapshots.drop_last();
        let last = snapshots.last();
        lemma_restore_all(front, d);
        let (e1, r1) = restore_all_program(front)(d);
        let (g, r) = restore_all_program(snapshots)(d);
        if r1 is Ok {
            lemma_restore_tree(last.tree, last.name, e1);
            let (e2, r2) = restore_tree_program(last.tree, last.name)(e1);
            let request = Ask::Run(lay_out_command(last.name, last.layout));
            if r2 is Ok {
                assert(g.asked == e2.asked.push(request));
                assert(restores(request, all_ids(last.tree), last.name));
            }
            assert forall|i: int| n <= i < g.asked.len() implies restores_one(
                #[trigger] g.asked[i],
                snapshots,
            ) by {
                if i < e1.asked.len() {
                    assert(g.asked[i] == e1.asked[i]);
                    let k = choose|k: int|
                        0 <= k < front.len() && restores(
                            e1.asked[i],
                            all_ids((#[trigger] front[k]).tree),
                            front[k].name,
                        );
                    assert(snapshots[k] == front[k]);
                } else if i < e2.asked.len() {
                    assert(g.asked[i] == e2.asked[i]);
                    assert(restores(e2.asked[i], all_ids(last.tree), last.name));
                    assert(snapshots[snapshots.len() - 1] == last);
                } else {
                    assert(snapshots[snapshots.len() - 1] == last);
                }
            }
            if r is Ok {
                let m1 = e1.asked.len() as int;
                let m2 = e2.asked.len() as int;
                lemma_restoring_without_moving(0, last.name, last.layout);
                lemma_counts_before(e2, g, m1, m2);
                assert(sent(g, m1, m2 + 1) == sent(g, m1, m2));
                assert(went(g, m1, m2 + 1) == went(g, m1, m2));
                lemma_counts_add_up(e1, g, n, m1, m2 + 1);
                assert forall|k: int, id: i64|
                    0 <= k < snapshots.len() && #[trigger] all_ids(snapshots[k].tree).contains(
                        id,
                    ) implies sends_back(g, n, id, snapshots[k].name) by {
                    let workspace = snapshots[k].name;
                    if k < front.len() {
                        assert(front[k] == snapshots[k]);
                        assert(all_ids(front[k].tree).contains(id));
                        assert(sends_back(e1, n, id, workspace));
                        let i = choose|i: int|
                            n <= i < e1.asked.len() && #[trigger] e1.asked[i] == Ask::Run(
                                move_command(id, workspace),
                            );
                        assert(g.asked[i] == e1.asked[i]);
                    } else {
                        assert(sends_back(e2, e1.asked.len() as int, id, workspace));
                        let i = choose|i: int|
                            e1.asked.len() <= i < e2.asked.len() && #[trigger] e2.asked[i]
                                == Ask::Run(move_command(id, workspace));
                        assert(g.asked[i] == e2.asked[i]);
                    }
                }
            }
        } else {
            assert forall|i: int| n <= i < g.asked.len() implies restores_one(
                #[trigger] g.asked[i],
                snapshots,
            ) by {
                let k = choose|k: int|
                    0 <= k < front.len() && restores(
                        e1.asked[i],
                        all_ids((#[trigger] front[k]).tree),
                        front[k].name,
                    );
                assert(snapshots[k] == front[k]);
            }
        }
    }
}

/// Thawing a set that is stored sends every stored window back to the
/// workspace it was stored with, touches no other window, and then has the
/// stored set removed. The windows that went are counted: those whose move
/// reached sway, so all of them exactly when every one of the moves did.
pub proof fn law_thawing_restores_every_stored_window(set: Seq<char>, d: Dialogue)
    requires
        d.answered(),
        thaw_set_program(set)(d).1 is Ok,
    ensures
        ({
            let n = d.asked.len() as int;
            let (e, r) = thaw_set_program(set)(d);
            let last = e.asked.len() - 1;
            &&& e.asked[n] == Ask::ReadIce(ice_name(set))
            &&& d.replies[n] is Snapshots
            &&& last > n
            &&& e.asked[last] == Ask::RemoveIce(ice_name(set))
            &&& {
                let snapshots = shots(d.replies[n]->Snapshots_0@);
                let (restored, total) = r->Ok_0;
                &&& forall|i: int| n < i < last ==> restores_one(#[trigger] e.asked[i], snapshots)
                &&& all_sent_back(e, n + 1, snapshots)
                &&& total == snapshot_ids(snapshots).len()
                &&& total == sent(e, n + 1, last)
                &&& restored == went(e, n + 1, last)
                &&& restored <= total
                &&& restored == total <==> all_went(e, n + 1, last)
            }
        }),
{
    let n = d.asked.len() as int;
    let (e1, r1) = load_ice_program(set)(d);
    assert(e1.asked == d.asked.push(Ask::ReadIce(ice_name(set))));
    let snapshots = r1->Ok_0;
    lemma_restore_all(snapshots, e1);
    let (e2, r2) = restore_all_program(snapshots)(e1);
    let (e, r) = thaw_set_program(set)(d);
    assert(e.asked == e2.asked.push(Ask::RemoveIce(ice_name(set))));
    assert(e.asked[n] == e1.asked[n]);
    assert forall|i: int| n < i < e.asked.len() - 1 implies restores_one(
        #[trigger] e.asked[i],
        snapshots,
    ) by {
        assert(e.asked[i] == e2.asked[i]);
    }
    assert forall|k: int, id: i64|
        0 <= k < snapshots.len() && #[trigger] all_ids(snapshots[k].tree).contains(
            id,
        ) implies sends_back(e, n + 1, id, snapshots[k].name) by {
        let workspace = snapshots[k].name;
        assert(sends_back(e2, n + 1, id, workspace));
        let i = choose|i: int|
            n + 1 <= i < e2.asked.len() && #[trigger] e2.asked[i] == Ask::Run(
                move_command(id, workspace),
            );
        assert(e.asked[i] == e2.asked[i]);
    }
    lemma_counts_before(e2, e, n + 1, e2.asked.len() as int);
    lemma_all_went(e, n + 1, e.asked.len() - 1);
}

/// Thawing never has a stored set removed before every window of it was sent
/// back to its workspace.
pub proof fn law_thawing_removes_nothing_too_soon(set: Seq<char>, d: Dialogue, i: int)
    requires
        d.answered(),
        d.asked.len() <= i < thaw_set_program(set)(d).0.asked.len(),
        thaw_set_program(set)(d).0.asked[i] is RemoveIce,
    ensures
        i == thaw_set_program(set)(d).0.asked.len() - 1,
        d.replies[d.asked.len() as int] is Snapshots,
        all_sent_back(
            thaw_set_program(set)(d).0,
            d.asked.len() as int + 1,
            shots(d.replies[d.asked.len() as int]->Snapshots_0@),
        ),
{
    let n = d.asked.len() as int;
    let (e1, r1) = load_ice_program(set)(d);
    assert(e1.asked == d.asked.push(Ask::ReadIce(ice_name(set))));
    let e = thaw_set_program(set)(d).0;
    if r1 is Ok {
        let snapshots = r1->Ok_0;
        lemma_restore_all(snapshots, e1);
        let (e2, r2) = restore_all_program(snapshots)(e1);
        assert(e2.asked[n] == e1.asked[n]);
        if i < e2.asked.len() {
            assert(e.asked[i] == e2.asked[i]);
            assert(restores_one(e2.asked[i], snapshots));
        }
        assert(r2 is Ok);
        assert(e.asked == e2.asked.push(Ask::RemoveIce(ice_name(set))));
        assert forall|k: int, id: i64|
            0 <= k < snapshots.len() && #[trigger] all_ids(snapshots[k].tree).contains(
                id,
            ) implies sends_back(e, n + 1, id, snapshots[k].name) by {
            let workspace = snapshots[k].name;
            assert(sends_back(e2, n + 1, id, workspace));
            let j = choose|j: int|
                n + 1 <= j < e2.asked.len() && #[trigger] e2.asked[j] == Ask::Run(
                    move_command(id, workspace),
                );
            assert(e.asked[j] == e2.asked[j]);
        }
    }
}

/// Every window that freezing a set stores is stored with the workspace of the
/// set that it is on, so that is where thawing sends it back to.
pub proof fn law_frozen_window_is_stored_with_its_workspace(
    tree: Node,
    set: Seq<char>,
    pins: Seq<Pin>,
    k: int,
)
    requires
        0 <= k < frozen(tree, set, pins).len(),
    ensures
        exists|j: int|
            {
                let saved = frozen(tree, set, pins)[k];
                &&& 0 <= j < set_snapshots(tree, set).len()
                &&& saved.name == (#[trigger] set_snapshots(tree, set)[j]).name
                &&& saved.layout == set_snapshots(tree, set)[j].layout
                &&& all_ids(saved.tree) == all_ids(set_snapshots(tree, set)[j].tree).filter(
                    |id: i64| !pinned_windows(pins).contains(id),
                )
            },
{
    let j = lemma_stripped_from(set_snapshots(tree, set), pinned_windows(pins), k);
    assert(set_snapshots(tree, set)[j].name == frozen(tree, set, pins)[k].name);
}

/// Everything that delivering the windows of a snapshot asks for: which sets
/// are frozen; then, if the target is, that the windows be added to what is
/// stored of it; and then that each be moved, to parking or to the workspace,
/// and that the user be told.
pub open spec fn delivering(
    snapshot: Snapshot,
    set: Seq<char>,
    workspace: Seq<char>,
    is_frozen: bool,
    stored: Seq<Snapshot>,
) -> Seq<Ask> {
    let ids = all_ids(snapshot.tree);
    let told = Ask::Notify(delivered_notice(ids.len(), workspace, is_frozen));
    if is_frozen {
        seq![
            Ask::ListIced,
            Ask::ReadIce(ice_name(set)),
            Ask::WriteIce(
                ice_name(set),
                spliced(stored, workspace, snapshot.layout, snapshot.tree),
            ),
        ] + moves(ids, PARKING_WORKSPACE@).push(told)
    } else {
        seq![Ask::ListIced] + moves(ids, workspace).push(told)
    }
}

/// Delivering the windows of a snapshot asks for every one of them to be moved
/// to the workspace; or, where the target is frozen, for them to be added to
/// what is stored of it and then parked.
pub proof fn law_delivering_moves_or_stores_every_window(
    snapshot: Snapshot,
    set: Seq<char>,
    workspace: Seq<char>,
    d: Dialogue,
)
    requires
        d.answered(),
        deliver_snapshot_program(snapshot, set, workspace)(d).1 is Ok,
    ensures
        ({
            let (e1, iced) = list_iced_program()(d);
            let stored = load_ice_program(set)(e1).1;
            &&& iced is Ok
            &&& iced->Ok_0.contains(set) ==> stored is Ok
            &&& deliver_snapshot_program(snapshot, set, workspace)(d).0.asked == d.asked
                + delivering(snapshot, set, workspace, iced->Ok_0.contains(set), stored->Ok_0)
        }),
{
    let ids = all_ids(snapshot.tree);
    let (e1, iced) = list_iced_program()(d);
    let is_frozen = iced->Ok_0.contains(set);
    let told = Ask::Notify(delivered_notice(ids.len(), workspace, is_frozen));
    let e = deliver_snapshot_program(snapshot, set, workspace)(d).0;
    assert(ids.take(ids.len() as int) == ids);
    assert(e1.asked == d.asked.push(Ask::ListIced));
    if is_frozen {
        let (e2, r2) = load_ice_program(set)(e1);
        let stored = r2->Ok_0;
        let all = spliced(stored, workspace, snapshot.layout, snapshot.tree);
        let (e3, r3) = save_ice_program(set, all)(e2);
        assert(e3.asked == d.asked + seq![
            Ask::ListIced,
            Ask::ReadIce(ice_name(set)),
            Ask::WriteIce(ice_name(set), all),
        ]);
        lemma_move_all_asks(ids, PARKING_WORKSPACE@, e3);
        assert(e.asked == (e3.asked + moves(ids, PARKING_WORKSPACE@)).push(told));
        assert(e.asked == d.asked + delivering(snapshot, set, workspace, is_frozen, stored));
    } else {
        lemma_move_all_asks(ids, workspace, e1);
        assert(e.asked == (e1.asked + moves(ids, workspace)).push(told));
        assert(e.asked == d.asked + delivering(
            snapshot,
            set,
            workspace,
            is_frozen,
            load_ice_program(set)(e1).1->Ok_0,
        ));
    }
}

/// Whenever delivering to a frozen set asks for anything to be run, it is that
/// a window be parked, and the set is stored by then, with that window in it.
pub proof fn law_delivering_stores_before_it_parks(
    snapshot: Snapshot,
    set: Seq<char>,
    workspace: Seq<char>,
    d: Dialogue,
    i: int,
)
    requires
        d.answered(),
        list_iced_program()(d).1 is Ok,
        list_iced_program()(d).1->Ok_0.contains(set),
        d.asked.len() <= i < deliver_snapshot_program(snapshot, set, workspace)(d).0.asked.len(),
        deliver_snapshot_program(snapshot, set, workspace)(d).0.asked[i] is Run,
    ensures
        exists|snapshots: Seq<Snapshot>, id: i64|
            {
                let asked = deliver_snapshot_program(snapshot, set, workspace)(d).0.asked;
                &&& i > d.asked.len() + 2
                &&& asked[d.asked.len() as int + 2] == Ask::WriteIce(ice_name(set), snapshots)
                &&& d.replies[d.asked.len() as int + 2] is Done
                &&& #[trigger] snapshot_ids(snapshots).contains(id)
                &&& asked[i] == Ask::Run(#[trigger] move_command(id, PARKING_WORKSPACE@))
            },
{
    let n = d.asked.len() as int;
    let ids = all_ids(snapshot.tree);
    let asked = deliver_snapshot_program(snapshot, set, workspace)(d).0.asked;
    let e1 = list_iced_program()(d).0;
    let (e2, r2) = load_ice_program(set)(e1);
    if r2 is Ok {
        let stored = r2->Ok_0;
        let all = spliced(stored, workspace, snapshot.layout, snapshot.tree);
        let (e3, r3) = save_ice_program(set, all)(e2);
        if r3 is Ok {
            lemma_move_all_asks(ids, PARKING_WORKSPACE@, e3);
            let e4 = move_all_program(ids, PARKING_WORKSPACE@)(e3).0;
            assert(asked[i] == e4.asked[i]);
            let id = ids[i - e3.asked.len()];
            assert(asked[i] == Ask::Run(move_command(id, PARKING_WORKSPACE@)));
            assert(asked[n + 2] == Ask::WriteIce(ice_name(set), all));
            assert(snapshot_ids(all).contains(id)) by {
                broadcast use vstd::seq_lib::group_to_multiset_ensures;

                law_splicing_adds_exactly_the_windows_of_the_tree(
                    stored,
                    workspace,
                    snapshot.layout,
                    snapshot.tree,
                );
                assert(ids.contains(id));
                assert(ids.to_multiset().count(id) > 0);
                assert(snapshot_ids(all).to_multiset().count(id) > 0);
            }
        }
    }
}

} // verus!
