//! Connected monitors and the sets they show.

use crate::assignments::{resolved, Assignments};
use crate::dialogue::{
    ask, bind, did, fault, fault_in, give, Ask, Failure, Fault, Halt, Output, Program, Reply,
    Request, Stop, Talk,
};
use crate::search::{first, lemma_first, lemma_first_at, lemma_first_none};
use crate::state::{assignments, assignments_program, list_sets, list_sets_program};
use crate::string_map::TextMap;
use crate::text::{same_text, view_of, views};
use crate::workspace::{monitor_id, monitor_identified};
use vstd::prelude::*;

verus! {

/// A connected monitor.
#[derive(Debug)]
pub struct Monitor {
    pub id: String,
    /// Connector name, e.g. DP-2; what sway commands take.
    pub name: String,
    pub focused: bool,
    pub visible: Option<String>,
}

/// A `Monitor` by its contents.
pub struct Screen {
    pub id: Seq<char>,
    pub name: Seq<char>,
    pub focused: bool,
    pub visible: Option<Seq<char>>,
}

impl View for Monitor {
    type V = Screen;

    open spec fn view(&self) -> Screen {
        Screen {
            id: self.id@,
            name: self.name@,
            focused: self.focused,
            visible: view_of(self.visible),
        }
    }
}

/// Connected monitors and the sets they show.
#[derive(Debug)]
pub struct Screens {
    pub monitors: Vec<Monitor>,
    pub assignments: Assignments,
}

/// A `Screens` by its contents.
pub struct Display {
    pub monitors: Seq<Screen>,
    pub shown: TextMap,
}

/// The contents of a list of monitors.
pub open spec fn screens_of(monitors: Seq<Monitor>) -> Seq<Screen> {
    monitors.map_values(|m: Monitor| m@)
}

impl View for Screens {
    type V = Display;

    open spec fn view(&self) -> Display {
        Display { monitors: screens_of(self.monitors@), shown: self.assignments@ }
    }
}

/// The monitor that an output drives.
pub open spec fn monitor_on(output: Output) -> Screen {
    Screen {
        id: monitor_identified(output.make@, output.model@, output.serial@),
        name: output.name@,
        focused: output.focused,
        visible: view_of(output.current_workspace),
    }
}

/// The monitors that the active outputs drive.
pub open spec fn connected_monitors(outputs: Seq<Output>) -> Seq<Screen>
    decreases outputs.len(),
{
    if outputs.len() == 0 {
        seq![]
    } else {
        let front = connected_monitors(outputs.drop_last());
        if outputs.last().active {
            front.push(monitor_on(outputs.last()))
        } else {
            front
        }
    }
}

/// The identifiers of monitors.
pub open spec fn ids_of(monitors: Seq<Screen>) -> Seq<Seq<char>> {
    monitors.map_values(|m: Screen| m.id)
}

/// The focused monitor.
pub open spec fn focused_monitor(monitors: Seq<Screen>) -> Option<Screen> {
    first(monitors, |m: Screen| m.focused)
}

/// The monitor of an identifier.
pub open spec fn monitor_by_id(monitors: Seq<Screen>, id: Seq<char>) -> Option<Screen> {
    first(monitors, |m: Screen| m.id == id)
}

/// The sets that the monitors show, in the order of the monitors.
pub open spec fn shown_sets(monitors: Seq<Screen>, shown: TextMap) -> Seq<Seq<char>>
    decreases monitors.len(),
{
    if monitors.len() == 0 {
        seq![]
    } else {
        let front = shown_sets(monitors.drop_last(), shown);
        match shown.get(monitors.last().id) {
            Some(set) => front.push(set),
            None => front,
        }
    }
}

/// Reads the connected monitors and the sets they show.
pub open spec fn load_program() -> Program<Display> {
    bind(
        ask(Ask::Outputs),
        |reply: Reply|
            match reply {
                Reply::Outputs(outputs) => bind(
                    assignments_program(),
                    |shown: TextMap|
                        give(Ok(Display { monitors: connected_monitors(outputs@), shown })),
                ),
                _ => give(Err(fault_in(reply))),
            },
    )
}

/// The focused monitor's set, without claiming one for a new monitor.
pub open spec fn focused_set_program(display: Display) -> Program<Seq<char>> {
    match focused_monitor(display.monitors) {
        Some(here) => bind(
            list_sets_program(),
            |known: Seq<Seq<char>>|
                give(Ok(resolved(display.shown, here.id, ids_of(display.monitors), known))),
        ),
        None => give(Err(Halt::Failed(Fault::NoFocusedOutput))),
    }
}

/// The set that the focused monitor shows, without claiming one for a new
/// monitor.
pub open spec fn current_set_program() -> Program<Seq<char>> {
    bind(load_program(), |display: Display| focused_set_program(display))
}

/// The monitors that the active outputs drive.
pub fn monitors_of(outputs: &Vec<Output>) -> (r: Vec<Monitor>)
    ensures
        screens_of(r@) == connected_monitors(outputs@),
{
    let mut monitors: Vec<Monitor> = Vec::new();
    let mut i: usize = 0;
    while i < outputs.len()
        invariant
            i <= outputs@.len(),
            screens_of(monitors@) == connected_monitors(outputs@.take(i as int)),
        decreases outputs.len() - i,
    {
        assert(outputs@.take(i + 1).drop_last() == outputs@.take(i as int));
        let output = &outputs[i];
        if output.active {
            let ghost before = screens_of(monitors@);
            let monitor = Monitor {
                id: monitor_id(
                    output.make.as_str(),
                    output.model.as_str(),
                    output.serial.as_str(),
                ),
                name: output.name.clone(),
                focused: output.focused,
                visible: output.current_workspace.clone(),
            };
            monitors.push(monitor);
            assert(screens_of(monitors@) == before.push(monitor@));
        }
        i += 1;
    }
    assert(outputs@.take(i as int) == outputs@);
    monitors
}

impl Screens {
    /// Reads the connected monitors and the sets they show.
    pub fn load(talk: &mut Talk) -> (r: Result<Screens, Stop>)
        ensures
            did(load_program(), old(talk)@, final(talk)@, r, |s: Screens| s@),
    {
        let reply = talk.ask(Request::Outputs)?;
        match reply {
            Reply::Outputs(outputs) => {
                let monitors = monitors_of(outputs);
                let assignments = assignments(talk)?;
                Ok(Screens { monitors, assignments })
            },
            _ => Err(fault(reply)),
        }
    }

    /// The identifiers of the connected monitors.
    pub fn ids(&self) -> (r: Vec<String>)
        ensures
            views(r@) == ids_of(self@.monitors),
    {
        let mut ids: Vec<String> = Vec::new();
        let mut i: usize = 0;
        while i < self.monitors.len()
            invariant
                i <= self.monitors@.len(),
                views(ids@) == ids_of(self@.monitors).take(i as int),
            decreases self.monitors.len() - i,
        {
            let ghost before = views(ids@);
            let id = self.monitors[i].id.clone();
            ids.push(id);
            assert(views(ids@) == before.push(id@));
            i += 1;
        }
        assert(ids_of(self@.monitors).take(i as int) == ids_of(self@.monitors));
        ids
    }

    /// The focused monitor.
    pub fn focused(&self) -> (r: Result<&Monitor, Stop>)
        ensures
            match r {
                Ok(m) => focused_monitor(self@.monitors) == Some(m@),
                Err(stop) => focused_monitor(self@.monitors) is None && stop@ == Halt::Failed(
                    Fault::NoFocusedOutput,
                ),
            },
    {
        let ghost f = |m: Screen| m.focused;
        let mut i: usize = 0;
        while i < self.monitors.len()
            invariant
                i <= self.monitors@.len(),
                f == (|m: Screen| m.focused),
                forall|j: int| 0 <= j < i ==> !f(#[trigger] self@.monitors[j]),
            decreases self.monitors.len() - i,
        {
            if self.monitors[i].focused {
                proof {
                    assert(f(self@.monitors[i as int]));
                    lemma_first_at(self@.monitors, f, i as int);
                }
                return Ok(&self.monitors[i]);
            }
            assert(!f(self@.monitors[i as int]));
            i += 1;
        }
        proof {
            lemma_first_none(self@.monitors, f);
        }
        Err(Stop::Failed(Failure::NoFocusedOutput))
    }

    /// The connected monitor of an identifier.
    pub fn by_id(&self, id: &str) -> (r: Result<&Monitor, Stop>)
        ensures
            match r {
                Ok(m) => monitor_by_id(self@.monitors, id@) == Some(m@),
                Err(stop) => monitor_by_id(self@.monitors, id@) is None && stop@ == Halt::Failed(
                    Fault::NotConnected(id@),
                ),
            },
    {
        let ghost f = |m: Screen| m.id == id@;
        let mut i: usize = 0;
        while i < self.monitors.len()
            invariant
                i <= self.monitors@.len(),
                f == (|m: Screen| m.id == id@),
                forall|j: int| 0 <= j < i ==> !f(#[trigger] self@.monitors[j]),
            decreases self.monitors.len() - i,
        {
            if same_text(self.monitors[i].id.as_str(), id) {
                proof {
                    assert(f(self@.monitors[i as int]));
                    lemma_first_at(self@.monitors, f, i as int);
                }
                return Ok(&self.monitors[i]);
            }
            assert(!f(self@.monitors[i as int]));
            i += 1;
        }
        proof {
            lemma_first_none(self@.monitors, f);
        }
        Err(Stop::Failed(Failure::NotConnected(id.to_owned())))
    }

    /// The focused monitor's set, without claiming one for a new monitor.
    pub fn focused_set(&self, talk: &mut Talk) -> (r: Result<String, Stop>)
        ensures
            did(focused_set_program(self@), old(talk)@, final(talk)@, r, |set: String| set@),
    {
        let here = self.focused()?;
        let known = list_sets(talk)?;
        let ids = self.ids();
        Ok(self.assignments.resolve(here.id.as_str(), &ids, &known))
    }

    /// The sets that the connected monitors show.
    pub fn shown(&self) -> (r: Vec<String>)
        ensures
            views(r@) == shown_sets(self@.monitors, self@.shown),
    {
        let ghost all = self@.monitors;
        let mut sets: Vec<String> = Vec::new();
        let mut i: usize = 0;
        while i < self.monitors.len()
            invariant
                i <= self.monitors@.len(),
                all == self@.monitors,
                views(sets@) == shown_sets(all.take(i as int), self@.shown),
            decreases self.monitors.len() - i,
        {
            assert(all.take(i + 1).drop_last() == all.take(i as int));
            let ghost before = views(sets@);
            if let Some(set) = self.assignments.get(self.monitors[i].id.as_str()) {
                let set = set.to_owned();
                sets.push(set);
                assert(views(sets@) == before.push(set@));
            }
            i += 1;
        }
        assert(all.take(i as int) == all);
        sets
    }
}

/// The set that the focused monitor shows.
pub fn current_set(talk: &mut Talk) -> (r: Result<String, Stop>)
    ensures
        did(current_set_program(), old(talk)@, final(talk)@, r, |set: String| set@),
{
    let screens = Screens::load(talk)?;
    screens.focused_set(talk)
}

/// A monitor is known by its make, model and serial number alone, so it keeps
/// its set on whichever connector it is plugged in.
pub proof fn law_monitor_keeps_its_set_on_another_connector(
    a: Output,
    b: Output,
    shown: TextMap,
)
    requires
        a.active,
        b.active,
        a.make@ == b.make@,
        a.model@ == b.model@,
        a.serial@ == b.serial@,
    ensures
        shown.get(connected_monitors(seq![a])[0].id) == shown.get(
            connected_monitors(seq![b])[0].id,
        ),
{
    assert(seq![a].drop_last() == Seq::<Output>::empty());
    assert(seq![b].drop_last() == Seq::<Output>::empty());
    reveal_with_fuel(connected_monitors, 2);
}

/// Whether an output is the one that has the focus: the first of the active
/// ones that does.
pub open spec fn has_the_focus(outputs: Seq<Output>, here: Output) -> bool {
    exists|i: int|
        {
            &&& 0 <= i < outputs.len()
            &&& #[trigger] outputs[i] == here
            &&& here.active
            &&& here.focused
            &&& forall|j: int|
                0 <= j < i ==> !((#[trigger] outputs[j]).active && outputs[j].focused)
        }
}

/// Whether a monitor is the one that an output drives, known by make, model
/// and serial number.
pub open spec fn drives(output: Output, monitor: Screen) -> bool {
    &&& monitor.id == output.make@ + seq![' '] + output.model@ + seq![' '] + output.serial@
    &&& monitor.name == output.name@
    &&& monitor.focused == output.focused
    &&& monitor.visible == match output.current_workspace {
        Some(workspace) => Some(workspace@),
        None => None,
    }
}

/// The connected monitors are those that the active outputs drive, in their
/// order.
pub proof fn law_monitors_are_those_of_the_active_outputs(outputs: Seq<Output>)
    ensures
        ({
            let active = outputs.filter(|o: Output| o.active);
            &&& connected_monitors(outputs).len() == active.len()
            &&& forall|i: int|
                0 <= i < active.len() ==> #[trigger] drives(
                    active[i],
                    connected_monitors(outputs)[i],
                )
        }),
    decreases outputs.len(),
{
    let f = |o: Output| o.active;
    reveal(Seq::filter);
    if outputs.len() > 0 {
        law_monitors_are_those_of_the_active_outputs(outputs.drop_last());
        let active = outputs.filter(f);
        let front = outputs.drop_last().filter(f);
        assert forall|i: int| 0 <= i < active.len() implies #[trigger] drives(
            active[i],
            connected_monitors(outputs)[i],
        ) by {
            if i < front.len() {
                assert(drives(front[i], connected_monitors(outputs.drop_last())[i]));
            }
        }
    }
}

/// The focused monitor is the one that the output with the focus drives.
pub proof fn law_focused_monitor_is_on_the_output_with_the_focus(outputs: Seq<Output>)
    ensures
        match focused_monitor(connected_monitors(outputs)) {
            Some(monitor) => exists|here: Output| #[trigger]
                has_the_focus(outputs, here) && drives(here, monitor),
            None => forall|i: int|
                0 <= i < outputs.len() ==> !((#[trigger] outputs[i]).active && outputs[i].focused),
        },
    decreases outputs.len(),
{
    if outputs.len() > 0 {
        let front = outputs.drop_last();
        let last = outputs.last();
        law_focused_monitor_is_on_the_output_with_the_focus(front);
        let monitors = connected_monitors(outputs);
        if last.active {
            assert(monitors.drop_last() == connected_monitors(front));
        }
        match focused_monitor(connected_monitors(front)) {
            Some(monitor) => {
                let here = choose|here: Output| #[trigger]
                    has_the_focus(front, here) && drives(here, monitor);
                let i = choose|i: int|
                    {
                        &&& 0 <= i < front.len()
                        &&& #[trigger] front[i] == here
                        &&& here.active
                        &&& here.focused
                        &&& forall|j: int|
                            0 <= j < i ==> !((#[trigger] front[j]).active && front[j].focused)
                    };
                assert(outputs[i] == here);
                assert forall|j: int| 0 <= j < i implies !((#[trigger] outputs[j]).active
                    && outputs[j].focused) by {
                    assert(front[j] == outputs[j]);
                }
                assert(has_the_focus(outputs, here));
            },
            None => {
                assert forall|j: int| 0 <= j < front.len() implies !((#[trigger] outputs[j]).active
                    && outputs[j].focused) by {
                    assert(front[j] == outputs[j]);
                }
                if last.active && last.focused {
                    assert(outputs[outputs.len() - 1] == last);
                    assert(has_the_focus(outputs, last));
                    assert(drives(last, monitor_on(last)));
                }
            },
        }
    }
}

/// A monitor is found by its identifier: the first that has it.
pub proof fn law_monitor_is_found_by_its_identifier(monitors: Seq<Screen>, id: Seq<char>)
    ensures
        ids_of(monitors).len() == monitors.len(),
        forall|i: int| 0 <= i < monitors.len() ==> #[trigger] ids_of(monitors)[i] == monitors[i].id,
        match monitor_by_id(monitors, id) {
            Some(found) => exists|i: int|
                {
                    &&& 0 <= i < monitors.len()
                    &&& #[trigger] monitors[i] == found
                    &&& found.id == id
                    &&& forall|j: int| 0 <= j < i ==> (#[trigger] monitors[j]).id != id
                },
            None => forall|i: int| 0 <= i < monitors.len() ==> (#[trigger] monitors[i]).id != id,
        },
{
    let f = |m: Screen| m.id == id;
    lemma_first(monitors, f);
    if let Some(found) = monitor_by_id(monitors, id) {
        let i = choose|i: int|
            0 <= i < monitors.len() && #[trigger] monitors[i] == found && f(found) && forall|j: int|
                0 <= j < i ==> !f(#[trigger] monitors[j]);
        assert forall|j: int| 0 <= j < i implies (#[trigger] monitors[j]).id != id by {
            assert(!f(monitors[j]));
        }
        assert(monitors[i] == found);
    } else {
        assert forall|i: int| 0 <= i < monitors.len() implies (#[trigger] monitors[i]).id != id by {
            assert(!f(monitors[i]));
        }
    }
}

} // verus!
