//! What changing the set of a monitor comes to: the set is assigned to it and
//! shown there, and the pinned windows are carried along.

use crate::assignments::{assigned, planned, Planned};
use crate::change::{
    bring_program, carry_out_program, carry_pins_program, change_set_program, ensure_set_program,
    exchange_program, place_pin_program, place_pins_program, replace_program, resident,
    show_program, swap_program,
};
use crate::dialogue::{all_succeeded, keeps, run_program, steady, Ask, Dialogue, Program, Reply};
use crate::freeze::ice_set_program;
use crate::pins::{live_pins, Pin};
use crate::resume::{
    lemma_bring_steady, lemma_ensure_set_steady, lemma_exchange_steady, lemma_ice_set_steady,
    lemma_last_workspace_steady, lemma_load_steady, lemma_place_pin_steady, lemma_place_pins_steady,
    lemma_remember_workspace_steady, lemma_save_assignments_steady, lemma_show_steady,
    lemma_touch_set_steady,
};
use crate::screens::{focused_monitor, ids_of, load_program, monitor_by_id, Display, Screen};
use crate::search::lemma_first;
use crate::state::{
    last_workspace_program, pins_program, remember_workspace_program, save_assignments_program,
    save_pins_program, touch_set_program, tree_program,
};
use crate::sway::{carry_command, show_command};
use crate::tree::live_ids;
use crate::workspace::{visible_or_home_named, workspace_named};
use vstd::prelude::*;

verus! {

/// Whether a request to run commands was met in full.
pub open spec fn ran(d: Dialogue, i: int, command: Seq<char>) -> bool {
    &&& d.asked[i] == Ask::Run(command)
    &&& d.replies[i] matches Reply::Ran(outcomes) && all_succeeded(outcomes@)
}

/// Whether each pinned window was carried to its key in a set, at the requests
/// that `at` gives, the last of them first.
pub open spec fn carried(
    d: Dialogue,
    from: int,
    pins: Seq<Pin>,
    set: Seq<char>,
    at: Seq<int>,
) -> bool {
    &&& at.len() == pins.len()
    &&& forall|k: int|
        0 <= k < pins.len() ==> {
            &&& from <= #[trigger] at[k] < d.asked.len()
            &&& ran(d, at[k], carry_command(pins[k].con_id, workspace_named(pins[k].key, set)))
        }
    &&& forall|j: int, k: int| 0 <= j < k < pins.len() ==> #[trigger] at[k] < #[trigger] at[j]
}

/// An operation takes nothing back.
pub proof fn lemma_grows<A>(p: Program<A>, d: Dialogue)
    requires
        steady(p),
        d.answered(),
    ensures
        p(d).0.replies == d.replies,
        d.asked.is_prefix_of(p(d).0.asked),
        p(d).1 is Ok ==> p(d).0.answered(),
{
    assert(keeps(d, Reply::Done, p(d), p(d.with(Reply::Done))));
}

proof fn lemma_place_pins_carry(pins: Seq<Pin>, set: Seq<char>, d: Dialogue) -> (at: Seq<int>)
    requires
        d.answered(),
        place_pins_program(pins, set)(d).1 is Ok,
    ensures
        carried(place_pins_program(pins, set)(d).0, d.asked.len() as int, pins, set, at),
    decreases pins.len(),
{
    if pins.len() == 0 {
        seq![]
    } else {
        let front = pins.drop_last();
        let pin = pins.last();
        let workspace = workspace_named(pin.key, set);
        let (d1, r1) = tree_program()(d);
        let (d2, r2) = run_program(carry_command(pin.con_id, workspace))(d1);
        let (e, r) = place_pin_program(pin, set)(d);
        lemma_place_pin_steady(pin, set);
        lemma_grows(place_pin_program(pin, set), d);
        let g = place_pins_program(front, set)(e).0;
        lemma_place_pins_steady(front, set);
        lemma_grows(place_pins_program(front, set), e);
        let i = d.asked.len() as int + 1;
        assert(d2.asked[i] == Ask::Run(carry_command(pin.con_id, workspace)));
        if let Some(id) = resident(r1->Ok_0, pin, workspace) {
            assert(e.asked[i] == d2.asked[i]);
        }
        assert(g.asked[i] == e.asked[i]);
        let rest = lemma_place_pins_carry(front, set, e);
        let at = rest.push(i);
        assert(place_pins_program(pins, set)(d).0 == g);
        assert forall|k: int| 0 <= k < pins.len() implies {
            &&& d.asked.len() <= #[trigger] at[k] < g.asked.len()
            &&& ran(g, at[k], carry_command(pins[k].con_id, workspace_named(pins[k].key, set)))
        } by {
            if k < front.len() {
                assert(at[k] == rest[k]);
                assert(pins[k] == front[k]);
            }
        }
        assert forall|j: int, k: int| 0 <= j < k < pins.len() implies #[trigger] at[k]
            < #[trigger] at[j] by {
            assert(at[j] == rest[j]);
            if k < front.len() {
                assert(at[k] == rest[k]);
            }
        }
        at
    }
}

/// Every pinned window that is still open is carried to its key in the set,
/// the first pinned one last, so that it ends up in the top-left slot.
pub proof fn law_every_open_pinned_window_is_carried(set: Seq<char>, d: Dialogue)
    requires
        d.answered(),
        carry_pins_program(set)(d).1 is Ok,
    ensures
        ({
            let (d1, pins) = pins_program()(d);
            let (d2, tree) = tree_program()(d1);
            &&& pins is Ok
            &&& tree is Ok
            &&& exists|at: Seq<int>| #[trigger]
                carried(
                    carry_pins_program(set)(d).0,
                    d.asked.len() as int,
                    live_pins(pins->Ok_0, live_ids(tree->Ok_0)),
                    set,
                    at,
                )
        }),
{
    let (d1, pins) = pins_program()(d);
    let (d2, tree) = tree_program()(d1);
    let kept = live_pins(pins->Ok_0, live_ids(tree->Ok_0));
    let d3 = if kept.len() != pins->Ok_0.len() {
        save_pins_program(kept)(d2).0
    } else {
        d2
    };
    let at = lemma_place_pins_carry(kept, set, d3);
    assert(carried(carry_pins_program(set)(d).0, d.asked.len() as int, kept, set, at));
}

/// Whether an operation was carried out between two dialogues.
pub open spec fn carried_out<A>(p: Program<A>, d: Dialogue, e: Dialogue) -> bool {
    exists|f: Dialogue|
        {
            &&& f.replies == d.replies
            &&& d.asked.is_prefix_of(f.asked)
            &&& f.answered()
            &&& (#[trigger] p(f)).1 is Ok
            &&& p(f).0.asked.is_prefix_of(e.asked)
        }
}

/// Whether `shown` is the workspace that a monitor taking over a set goes to,
/// by the one it inherits and where the set is recorded to have been left.
pub open spec fn goes_to(
    d: Dialogue,
    e: Dialogue,
    inherited: Option<Seq<char>>,
    set: Seq<char>,
    shown: Seq<char>,
) -> bool {
    exists|f: Dialogue|
        {
            let (g, left) = #[trigger] last_workspace_program(set)(f);
            &&& f.replies == d.replies
            &&& d.asked.is_prefix_of(f.asked)
            &&& g.asked.is_prefix_of(e.asked)
            &&& left is Ok
            &&& shown == visible_or_home_named(inherited, left->Ok_0, set)
        }
}

/// Whether a set that a monitor took over was shown there.
pub open spec fn showed(
    d: Dialogue,
    e: Dialogue,
    monitor: Screen,
    inherited: Option<Seq<char>>,
    set: Seq<char>,
) -> bool {
    exists|shown: Seq<char>|
        goes_to(d, e, inherited, set, shown) && carried_out(
            #[trigger] show_program(monitor, shown),
            d,
            e,
        )
}

/// Whether the last thing done was to show a set on the monitor that took it
/// over.
pub open spec fn ends_showing(
    d: Dialogue,
    e: Dialogue,
    monitor: Screen,
    inherited: Option<Seq<char>>,
    set: Seq<char>,
) -> bool {
    exists|shown: Seq<char>|
        goes_to(d, e, inherited, set, shown) && ran(
            e,
            e.asked.len() - 1,
            #[trigger] show_command(monitor.name, shown),
        )
}

/// Whether a plan was carried out: nothing was done; or the two monitors
/// exchanged their sets, each set brought to its monitor and shown there; or
/// the old set was frozen and the new one assigned, brought and shown.
pub open spec fn settled(
    d: Dialogue,
    e: Dialogue,
    display: Display,
    here: Screen,
    set: Seq<char>,
    plan: Planned,
) -> bool {
    match plan {
        Planned::Unchanged => e == d,
        Planned::Swap { monitor, old } => match monitor_by_id(display.monitors, monitor) {
            Some(there) => {
                let shown = assigned(assigned(display.shown, here.id, set), monitor, old);
                &&& carried_out(save_assignments_program(shown), d, e)
                &&& carried_out(bring_program(set, here), d, e)
                &&& carried_out(bring_program(old, there), d, e)
                &&& showed(d, e, there, here.visible, old)
                &&& ends_showing(d, e, here, there.visible, set)
            },
            None => false,
        },
        Planned::Replace { old } => {
            let shown = assigned(display.shown, here.id, set);
            &&& carried_out(ice_set_program(old), d, e)
            &&& carried_out(save_assignments_program(shown), d, e)
            &&& carried_out(bring_program(set, here), d, e)
            &&& ends_showing(d, e, here, here.visible, set)
        },
    }
}

proof fn lemma_show_ran(monitor: Screen, workspace: Seq<char>, d: Dialogue)
    requires
        d.answered(),
        show_program(monitor, workspace)(d).1 is Ok,
    ensures
        ({
            let e = show_program(monitor, workspace)(d).0;
            ran(e, e.asked.len() - 1, show_command(monitor.name, workspace))
        }),
{
}

proof fn lemma_carried_out_before<A>(p: Program<A>, d: Dialogue, f: Dialogue, e: Dialogue)
    requires
        f.replies == d.replies,
        d.asked.is_prefix_of(f.asked),
        f.answered(),
        p(f).1 is Ok,
        p(f).0.asked.is_prefix_of(e.asked),
    ensures
        carried_out(p, d, e),
{
}

proof fn lemma_swap_settles(
    display: Display,
    here: Screen,
    there: Screen,
    set: Seq<char>,
    old: Seq<char>,
    d: Dialogue,
)
    requires
        d.answered(),
        monitor_by_id(display.monitors, there.id) == Some(there),
        swap_program(display, here, there.id, old, set)(d).1 is Ok,
    ensures
        settled(
            d,
            swap_program(display, here, there.id, old, set)(d).0,
            display,
            here,
            set,
            Planned::Swap { monitor: there.id, old },
        ),
{
    let e = swap_program(display, here, there.id, old, set)(d).0;
    let shown = assigned(assigned(display.shown, here.id, set), there.id, old);
    let p1 = save_assignments_program(shown);
    lemma_save_assignments_steady(shown);
    lemma_grows(p1, d);
    let d1 = p1(d).0;
    let p2 = remember_workspace_program(old, here.visible);
    lemma_remember_workspace_steady(old, here.visible);
    lemma_grows(p2, d1);
    let d2 = p2(d1).0;
    let p3 = remember_workspace_program(set, there.visible);
    lemma_remember_workspace_steady(set, there.visible);
    lemma_grows(p3, d2);
    let d3 = p3(d2).0;
    let p4 = last_workspace_program(old);
    lemma_last_workspace_steady(old);
    lemma_grows(p4, d3);
    let d4 = p4(d3).0;
    let p5 = last_workspace_program(set);
    lemma_last_workspace_steady(set);
    lemma_grows(p5, d4);
    let d5 = p5(d4).0;
    let leaving = p4(d3).1->Ok_0;
    let arriving = p5(d4).1->Ok_0;
    let p6 = exchange_program(here, there, old, set, leaving, arriving);
    lemma_exchange_steady(here, there, old, set, leaving, arriving);
    lemma_grows(p6, d5);
    assert(e == p6(d5).0);
    assert(d.asked.is_prefix_of(d3.asked) && d.asked.is_prefix_of(d4.asked));
    assert(d.asked.is_prefix_of(d5.asked));
    assert(d4.asked.is_prefix_of(e.asked) && d1.asked.is_prefix_of(e.asked));
    lemma_carried_out_before(p1, d, d, e);
    lemma_exchange_settles(here, there, old, set, leaving, arriving, d5);
    let to_there = visible_or_home_named(here.visible, leaving, old);
    let to_here = visible_or_home_named(there.visible, arriving, set);
    assert(goes_to(d, e, here.visible, old, to_there));
    assert(goes_to(d, e, there.visible, set, to_here));
    lemma_carried_out_since(bring_program(set, here), d, d5, e);
    lemma_carried_out_since(bring_program(old, there), d, d5, e);
    lemma_carried_out_since(show_program(there, to_there), d, d5, e);
    assert(showed(d, e, there, here.visible, old));
    assert(ends_showing(d, e, here, there.visible, set));
}

proof fn lemma_carried_out_since<A>(p: Program<A>, d: Dialogue, f: Dialogue, e: Dialogue)
    requires
        f.replies == d.replies,
        d.asked.is_prefix_of(f.asked),
        carried_out(p, f, e),
    ensures
        carried_out(p, d, e),
{
    let g = choose|g: Dialogue|
        {
            &&& g.replies == f.replies
            &&& f.asked.is_prefix_of(g.asked)
            &&& g.answered()
            &&& (#[trigger] p(g)).1 is Ok
            &&& p(g).0.asked.is_prefix_of(e.asked)
        };
    assert(p(g).1 is Ok);
}

proof fn lemma_exchange_settles(
    here: Screen,
    there: Screen,
    old: Seq<char>,
    set: Seq<char>,
    leaving: Option<Seq<char>>,
    arriving: Option<Seq<char>>,
    d: Dialogue,
)
    requires
        d.answered(),
        exchange_program(here, there, old, set, leaving, arriving)(d).1 is Ok,
    ensures
        ({
            let e = exchange_program(here, there, old, set, leaving, arriving)(d).0;
            let to_there = visible_or_home_named(here.visible, leaving, old);
            let to_here = visible_or_home_named(there.visible, arriving, set);
            &&& carried_out(bring_program(set, here), d, e)
            &&& carried_out(bring_program(old, there), d, e)
            &&& carried_out(show_program(there, to_there), d, e)
            &&& ran(e, e.asked.len() - 1, show_command(here.name, to_here))
        }),
{
    let e = exchange_program(here, there, old, set, leaving, arriving)(d).0;
    let to_there = visible_or_home_named(here.visible, leaving, old);
    let to_here = visible_or_home_named(there.visible, arriving, set);
    let p1 = bring_program(set, here);
    lemma_bring_steady(set, here);
    lemma_grows(p1, d);
    let d1 = p1(d).0;
    let p2 = bring_program(old, there);
    lemma_bring_steady(old, there);
    lemma_grows(p2, d1);
    let d2 = p2(d1).0;
    let p3 = show_program(there, to_there);
    lemma_show_steady(there, to_there);
    lemma_grows(p3, d2);
    let d3 = p3(d2).0;
    let p4 = show_program(here, to_here);
    lemma_show_steady(here, to_here);
    lemma_grows(p4, d3);
    lemma_show_ran(here, to_here, d3);
    assert(e == p4(d3).0);
    lemma_carried_out_before(p1, d, d, e);
    lemma_carried_out_before(p2, d, d1, e);
    lemma_carried_out_before(p3, d, d2, e);
}

proof fn lemma_replace_settles(
    display: Display,
    here: Screen,
    set: Seq<char>,
    old: Seq<char>,
    d: Dialogue,
)
    requires
        d.answered(),
        replace_program(display, here, old, set)(d).1 is Ok,
    ensures
        settled(
            d,
            replace_program(display, here, old, set)(d).0,
            display,
            here,
            set,
            Planned::Replace { old },
        ),
{
    let e = replace_program(display, here, old, set)(d).0;
    let shown = assigned(display.shown, here.id, set);
    let p1 = remember_workspace_program(old, here.visible);
    lemma_remember_workspace_steady(old, here.visible);
    lemma_grows(p1, d);
    let d1 = p1(d).0;
    let p2 = ice_set_program(old);
    lemma_ice_set_steady(old);
    lemma_grows(p2, d1);
    let d2 = p2(d1).0;
    let p3 = save_assignments_program(shown);
    lemma_save_assignments_steady(shown);
    lemma_grows(p3, d2);
    let d3 = p3(d2).0;
    let p4 = last_workspace_program(set);
    lemma_last_workspace_steady(set);
    lemma_grows(p4, d3);
    let d4 = p4(d3).0;
    let p5 = bring_program(set, here);
    lemma_bring_steady(set, here);
    lemma_grows(p5, d4);
    let d5 = p5(d4).0;
    let arriving = visible_or_home_named(here.visible, p4(d3).1->Ok_0, set);
    let p6 = show_program(here, arriving);
    lemma_show_steady(here, arriving);
    lemma_grows(p6, d5);
    lemma_show_ran(here, arriving, d5);
    assert(e == p6(d5).0);
    lemma_carried_out_before(p2, d, d1, e);
    lemma_carried_out_before(p3, d, d2, e);
    lemma_carried_out_before(p5, d, d4, e);
    assert(goes_to(d, e, here.visible, set, arriving));
}

proof fn lemma_carry_out_settles(
    display: Display,
    here: Screen,
    set: Seq<char>,
    plan: Planned,
    d: Dialogue,
)
    requires
        d.answered(),
        carry_out_program(display, here, set, plan)(d).1 is Ok,
    ensures
        settled(d, carry_out_program(display, here, set, plan)(d).0, display, here, set, plan),
{
    match plan {
        Planned::Unchanged => {},
        Planned::Swap { monitor, old } => {
            lemma_first(display.monitors, |m: Screen| m.id == monitor);
            let there = monitor_by_id(display.monitors, monitor)->0;
            assert(there.id == monitor);
            lemma_swap_settles(display, here, there, set, old, d);
        },
        Planned::Replace { old } => {
            lemma_replace_settles(display, here, set, old, d);
        },
    }
}

/// Picking a set for the focused monitor does what the plan for it says: where
/// another monitor shows the set, the two exchange their sets; where none
/// does, the old set is frozen and the new one takes its place; where the
/// monitor shows it already, nothing. Then the pinned windows are carried.
pub proof fn law_picking_a_set_carries_out_its_plan(set: Seq<char>, d: Dialogue)
    requires
        d.answered(),
        change_set_program(set)(d).1 is Ok,
    ensures
        ({
            let (d1, current) = ensure_set_program()(d);
            let (d2, loaded) = load_program()(d1);
            let display = loaded->Ok_0;
            let here = focused_monitor(display.monitors);
            let d3 = touch_set_program(set)(d2).0;
            let plan = planned(
                display.shown,
                here->0.id,
                current->Ok_0,
                set,
                ids_of(display.monitors),
            );
            let d4 = carry_out_program(display, here->0, set, plan)(d3).0;
            &&& current is Ok
            &&& loaded is Ok
            &&& here is Some
            &&& settled(d3, d4, display, here->0, set, plan)
            &&& carry_pins_program(set)(d4).1 is Ok
            &&& change_set_program(set)(d).0 == carry_pins_program(set)(d4).0
        }),
{
    let (d1, current) = ensure_set_program()(d);
    let (d2, loaded) = load_program()(d1);
    let display = loaded->Ok_0;
    let here = focused_monitor(display.monitors)->0;
    let d3 = touch_set_program(set)(d2).0;
    let plan = planned(display.shown, here.id, current->Ok_0, set, ids_of(display.monitors));
    lemma_ensure_set_steady();
    lemma_grows(ensure_set_program(), d);
    lemma_load_steady();
    lemma_grows(load_program(), d1);
    lemma_touch_set_steady(set);
    lemma_grows(touch_set_program(set), d2);
    lemma_carry_out_settles(display, here, set, plan, d3);
}

} // verus!
