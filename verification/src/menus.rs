//! What a user may rely on of the menus: what they offer, and that what is
//! chosen is done.

use crate::account::{
    assignments_in, iced_in, last_in, law_pruning_drops_what_nothing_is_left_in, looked, once_asked,
    reply, sets_in, went_on,
};
use crate::carrying::lemma_grows;
use crate::change::prune_sets_program;
use crate::command::{obey_program, thaw_or_say_program, Intent};
use crate::conduct::besides;
use crate::dialogue::{Ask, Dialogue, File, Halt, Output, Reply};
use crate::freeze::thaw_set_program;
use crate::json::object_text;
use crate::keeping::{lemma_shows, looked_at, shows};
use crate::promises::id_of;
use crate::resume::{lemma_prune_sets_steady, lemma_thaw_or_say_steady, lemma_touch_set_steady};
use crate::screens::{
    connected_monitors, drives, law_monitors_are_those_of_the_active_outputs, Display,
};
use crate::sets::{list_text, other_than, stems};
use crate::state::{list_iced_program, select_program, touch_set_program};
use crate::string_map::{law_kept_entries_stay_as_they_are, only_keys, TextMap};
use crate::sway::not_thawed_notice;
use crate::text::{joined, trimmed, views};
use crate::workspace::belongs;
use vstd::prelude::*;

verus! {

/// Whether a set is known and there is something in it, as the replies to come
/// tell: a connected monitor shows it, it is frozen, or it has a workspace.
pub open spec fn something_is_in(d: Dialogue, set: Seq<char>) -> bool {
    ||| shown_somewhere(reply(d, 0), reply(d, 1), set)
    ||| {
        &&& reply(d, 2) matches Reply::Workspaces(workspaces)
        &&& exists|i: int|
            0 <= i < workspaces@.len() && belongs((#[trigger] workspaces@[i]).name@, set)
    }
    ||| iced_in(reply(d, 4)) is Some && iced_in(reply(d, 4))->0.contains(set)
}

/// Whether two replies tell that a connected monitor shows a set.
pub open spec fn shown_somewhere(outputs: Reply, assignments: Reply, set: Seq<char>) -> bool {
    &&& outputs matches Reply::Outputs(outputs)
    &&& assignments_in(assignments) matches Some(shown)
    &&& exists|i: int|
        {
            &&& 0 <= i < outputs@.len()
            &&& (#[trigger] outputs@[i]).active
            &&& shown.get(id_of(outputs@[i])) == Some(set)
        }
}

/// The test for sets that there is something in.
pub open spec fn not_empty(d: Dialogue) -> spec_fn(Seq<char>) -> bool {
    |set: Seq<char>| something_is_in(d, set)
}

/// Whether the sets that nothing is in were forgotten, and where they were
/// left: `sets` are the others, in their order.
pub open spec fn forgets_empty_sets(d: Dialogue, e: Dialogue, sets: Seq<Seq<char>>) -> bool {
    &&& sets_in(reply(d, 3)) matches Some(known)
    &&& sets == known.filter(not_empty(d))
    &&& last_in(reply(d, 6)) matches Some(last)
    &&& exists|kept: TextMap|
        {
            &&& went_on(
                d,
                e,
                seq![
                    Ask::Outputs,
                    Ask::Read(File::Assignments),
                    Ask::Workspaces,
                    Ask::Read(File::Sets),
                    Ask::ListIced,
                    Ask::Write(File::Sets, list_text(sets)),
                    Ask::Read(File::Last),
                    Ask::Write(File::Last, #[trigger] object_text(kept)),
                ],
            )
            &&& forall|set: Seq<char>| #[trigger]
                kept.get(set) == if sets.contains(set) {
                    last.get(set)
                } else {
                    None
                }
        }
}

proof fn lemma_shown_somewhere(outputs: Seq<Output>, shown: TextMap, set: Seq<char>)
    ensures
        ({
            let monitors = connected_monitors(outputs);
            (exists|i: int|
                {
                    &&& 0 <= i < outputs.len()
                    &&& (#[trigger] outputs[i]).active
                    &&& shown.get(id_of(outputs[i])) == Some(set)
                }) <==> (exists|i: int|
                0 <= i < monitors.len() && shown.get((#[trigger] monitors[i]).id) == Some(set))
        }),
{
    let monitors = connected_monitors(outputs);
    let f = |o: Output| o.active;
    let active = outputs.filter(f);
    law_monitors_are_those_of_the_active_outputs(outputs);
    assert(outputs.filter(|o: Output| o.active) == active);
    if exists|i: int|
        {
            &&& 0 <= i < outputs.len()
            &&& (#[trigger] outputs[i]).active
            &&& shown.get(id_of(outputs[i])) == Some(set)
        } {
        let i = choose|i: int|
            {
                &&& 0 <= i < outputs.len()
                &&& (#[trigger] outputs[i]).active
                &&& shown.get(id_of(outputs[i])) == Some(set)
            };
        outputs.lemma_filter_contains(f, i);
        let k = active.index_of(outputs[i]);
        assert(drives(active[k], monitors[k]));
    }
    if exists|i: int|
        0 <= i < monitors.len() && shown.get((#[trigger] monitors[i]).id) == Some(set) {
        let k = choose|k: int|
            0 <= k < monitors.len() && shown.get((#[trigger] monitors[k]).id) == Some(set);
        assert(drives(active[k], monitors[k]));
        outputs.lemma_filter_pred(f, k);
        assert(active.contains(active[k]));
        outputs.lemma_filter_contains_rev(f, active[k]);
        let i = outputs.index_of(active[k]);
        assert(outputs[i].active);
    }
}

proof fn lemma_forgets_empty_sets(d: Dialogue, sets: Seq<Seq<char>>)
    requires
        d.answered(),
        prune_sets_program()(d).1 == Ok::<Seq<Seq<char>>, Halt>(sets),
    ensures
        forgets_empty_sets(d, prune_sets_program()(d).0, sets),
{
    let e = prune_sets_program()(d).0;
    law_pruning_drops_what_nothing_is_left_in(d, sets);
    let (m, display) = choose|m: Dialogue, display: Display|
        {
            &&& #[trigger] looked(d, m, display)
            &&& reply(m, 0) matches Reply::Workspaces(workspaces)
            &&& sets_in(reply(m, 1)) matches Some(known)
            &&& iced_in(reply(m, 2)) matches Some(iced)
            &&& sets == known.filter(
                |set: Seq<char>|
                    {
                        ||| exists|i: int|
                            0 <= i < display.monitors.len() && display.shown.get(
                                (#[trigger] display.monitors[i]).id,
                            ) == Some(set)
                        ||| iced.contains(set)
                        ||| exists|i: int|
                            0 <= i < workspaces@.len() && belongs(
                                (#[trigger] workspaces@[i]).name@,
                                set,
                            )
                    },
            )
            &&& reply(m, 3) is Done
            &&& last_in(reply(m, 4)) matches Some(last)
            &&& reply(m, 5) is Done
            &&& went_on(
                m,
                e,
                seq![
                    Ask::Workspaces,
                    Ask::Read(File::Sets),
                    Ask::ListIced,
                    Ask::Write(File::Sets, list_text(sets)),
                    Ask::Read(File::Last),
                    Ask::Write(File::Last, object_text(only_keys(last, sets))),
                ],
            )
        };
    let known = sets_in(reply(m, 1))->0;
    let iced = iced_in(reply(m, 2))->0;
    let last = last_in(reply(m, 4))->0;
    assert(reply(m, 0) == reply(d, 2));
    assert(reply(m, 1) == reply(d, 3));
    assert(reply(m, 2) == reply(d, 4));
    assert(reply(m, 4) == reply(d, 6));
    if let Reply::Workspaces(workspaces) = reply(m, 0) {
        if let Reply::Outputs(outputs) = reply(d, 0) {
            let f = |set: Seq<char>|
                {
                    ||| exists|i: int|
                        0 <= i < display.monitors.len() && display.shown.get(
                            (#[trigger] display.monitors[i]).id,
                        ) == Some(set)
                    ||| iced.contains(set)
                    ||| exists|i: int|
                        0 <= i < workspaces@.len() && belongs(
                            (#[trigger] workspaces@[i]).name@,
                            set,
                        )
                };
            assert forall|set: Seq<char>| #[trigger] f(set) == not_empty(d)(set) by {
                lemma_shown_somewhere(outputs@, display.shown, set);
            }
            assert(f =~= not_empty(d));
            assert(sets == known.filter(f));
        }
    }
    let kept = only_keys(last, sets);
    assert forall|set: Seq<char>| #[trigger]
        kept.get(set) == if sets.contains(set) {
            last.get(set)
        } else {
            None
        } by {
        law_kept_entries_stay_as_they_are(last, sets, set);
    }
    let requests = seq![
        Ask::Outputs,
        Ask::Read(File::Assignments),
        Ask::Workspaces,
        Ask::Read(File::Sets),
        Ask::ListIced,
        Ask::Write(File::Sets, list_text(sets)),
        Ask::Read(File::Last),
        Ask::Write(File::Last, object_text(kept)),
    ];
    assert(e.asked == d.asked + requests);
}

/// The dialogue once the user has been asked to choose.
pub open spec fn offered(d: Dialogue, prompt: Seq<char>, options: Seq<Seq<char>>) -> Dialogue {
    once_asked(d, Ask::Select { prompt, options: joined(options, "\n"@) })
}

/// The menu of sets, on a monitor that is assigned one, offers exactly the
/// known sets that there is something in but for the one shown, in their
/// order; and what is chosen is what `show` does with that set.
pub proof fn law_menu_shows_the_set_that_is_chosen(d: Dialogue, current: Seq<char>)
    requires
        shows(d, current),
        obey_program(Intent::SetMenu)(d).1 is Ok,
    ensures
        exists|m: Dialogue, sets: Seq<Seq<char>>|
            {
                let n = offered(m, "Space set"@, sets.filter(besides(current)));
                &&& #[trigger] forgets_empty_sets(looked_at(d), m, sets)
                &&& reply(m, 0) matches Reply::Text(text)
                &&& if trimmed(text@).len() > 0 {
                    obey_program(Intent::SetMenu)(d) == obey_program(
                        Intent::Show { name: trimmed(text@) },
                    )(n)
                } else {
                    obey_program(Intent::SetMenu)(d).0 == n
                }
            },
{
    lemma_shows(d, current);
    let start = looked_at(d);
    let (m, r) = prune_sets_program()(start);
    let sets = r->Ok_0;
    lemma_prune_sets_steady();
    lemma_grows(prune_sets_program(), start);
    lemma_forgets_empty_sets(start, sets);
    assert(besides(current) =~= other_than(current));
    let n = select_program("Space set"@, sets.filter(besides(current)))(m).0;
    assert(n == offered(m, "Space set"@, sets.filter(besides(current))));
    assert(forgets_empty_sets(start, m, sets));
}

/// The menu of sets to deliver to offers exactly the known sets that there is
/// something in, in their order; the one that is chosen is stored to be
/// delivered to, and the deliver mode entered.
pub proof fn law_menu_stores_the_set_to_deliver_to(d: Dialogue)
    requires
        d.answered(),
        obey_program(Intent::MoveToSet)(d).1 is Ok,
    ensures
        exists|m: Dialogue, sets: Seq<Seq<char>>|
            {
                let e = obey_program(Intent::MoveToSet)(d).0;
                let n = offered(m, "Move to set"@, sets);
                &&& #[trigger] forgets_empty_sets(d, m, sets)
                &&& reply(m, 0) matches Reply::Text(text)
                &&& if trimmed(text@).len() > 0 {
                    &&& n.asked.is_prefix_of(e.asked)
                    &&& e.asked.len() >= n.asked.len() + 3
                    &&& e.asked[e.asked.len() - 2] == Ask::Write(File::Pending, trimmed(text@))
                    &&& e.asked[e.asked.len() - 1] == Ask::Run("mode deliver"@)
                } else {
                    e == n
                }
            },
{
    let e = obey_program(Intent::MoveToSet)(d).0;
    let (m, r) = prune_sets_program()(d);
    let sets = r->Ok_0;
    lemma_prune_sets_steady();
    lemma_grows(prune_sets_program(), d);
    lemma_forgets_empty_sets(d, sets);
    let (n, choice) = select_program("Move to set"@, sets)(m);
    assert(n == offered(m, "Move to set"@, sets));
    if let Reply::Text(text) = reply(m, 0) {
        if trimmed(text@).len() > 0 {
            let set = trimmed(text@);
            let q = touch_set_program(set)(n).0;
            lemma_touch_set_steady(set);
            lemma_grows(touch_set_program(set), n);
            assert(q.asked.len() > n.asked.len());
            assert(e.asked == q.asked.push(Ask::Write(File::Pending, set)).push(
                Ask::Run("mode deliver"@),
            ));
        }
    }
    assert(forgets_empty_sets(d, m, sets));
}

/// The menu of frozen sets offers all of them, and what is chosen is what
/// `thaw` does with that set where it can be thawed; where none is frozen, the
/// user is told so and nothing else is done.
pub proof fn law_menu_thaws_the_set_that_is_chosen(d: Dialogue, iced: Seq<Seq<char>>)
    requires
        d.answered(),
        iced_in(reply(d, 0)) == Some(iced),
        obey_program(Intent::IceMenu)(d).1 is Ok,
    ensures
        ({
            let m = once_asked(d, Ask::ListIced);
            let n = offered(m, "Thaw set"@, iced);
            let after = obey_program(Intent::IceMenu)(d);
            if iced.len() == 0 {
                after.0 == once_asked(m, Ask::Notify("No iced sets"@))
            } else {
                &&& reply(m, 0) matches Reply::Text(text)
                &&& if trimmed(text@).len() > 0 {
                    &&& n.asked.is_prefix_of(after.0.asked)
                    &&& thaw_set_program(trimmed(text@))(n).1 is Ok ==> after == obey_program(
                        Intent::Thaw { set: Some(trimmed(text@)) },
                    )(n)
                } else {
                    after.0 == n
                }
            }
        }),
{
    let (m, r) = list_iced_program()(d);
    if let Reply::Names(names) = reply(d, 0) {
        assert(stems(views(names@)) == iced);
    }
    assert(m == once_asked(d, Ask::ListIced));
    assert(r->Ok_0 == iced);
    if iced.len() > 0 {
        let (n, choice) = select_program("Thaw set"@, iced)(m);
        assert(n == offered(m, "Thaw set"@, iced));
        if let Some(set) = choice->Ok_0 {
            lemma_thaw_or_say_steady(set, not_thawed_notice(set));
            lemma_grows(thaw_or_say_program(set, not_thawed_notice(set)), n);
        }
    }
}

} // verus!
