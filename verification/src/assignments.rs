//! Which set each monitor shows.
//!
//! Monitors are keyed by their "make model serial" identifier (the string
//! kanshi and sway's `output` command match on), so a monitor keeps its set
//! when it is plugged into a different connector. A set is shown on at most one
//! monitor at a time.

use crate::json::{object_entries, object_text};
use crate::search::{first, lemma_first, lemma_first_at, lemma_first_none};
use crate::string_map::{ascending, map_of, without_value, StringMap, TextMap};
use crate::text::{
    decimal, law_decimal_is_injective, lemma_decimal_not_empty, push_decimal, same_text,
    view_of_str, views,
};
use vstd::prelude::*;

verus! {

/// The set that each monitor shows.
#[derive(Debug)]
pub struct Assignments {
    shown: StringMap,
}

impl View for Assignments {
    type V = TextMap;

    closed spec fn view(&self) -> TextMap {
        self.shown@
    }
}

/// What showing a set on a monitor involves.
#[derive(Debug, PartialEq, Eq)]
pub enum Change {
    /// The monitor already shows the set.
    Unchanged,
    /// Another connected monitor shows the set; it takes `old` in exchange.
    Swap { monitor: String, old: String },
    /// No connected monitor shows the set; `old` is put away.
    Replace { old: String },
}

/// A `Change` by its contents.
pub enum Planned {
    Unchanged,
    Swap { monitor: Seq<char>, old: Seq<char> },
    Replace { old: Seq<char> },
}

impl View for Change {
    type V = Planned;

    open spec fn view(&self) -> Planned {
        match self {
            Change::Unchanged => Planned::Unchanged,
            Change::Swap { monitor, old } => Planned::Swap { monitor: monitor@, old: old@ },
            Change::Replace { old } => Planned::Replace { old: old@ },
        }
    }
}

/// Whether no set is shown on two monitors.
pub open spec fn exclusive(shown: TextMap) -> bool {
    forall|a: Seq<char>, b: Seq<char>|
        shown.contains_key(a) && shown.contains_key(b) && #[trigger] shown[a] == #[trigger] shown[b]
            ==> a == b
}

/// Whether `other` is a monitor besides `monitor` that shows `set`.
pub open spec fn holds(
    shown: TextMap,
    monitor: Seq<char>,
    set: Seq<char>,
    other: Seq<char>,
) -> bool {
    other != monitor && shown.get(other) == Some(set)
}

/// The first connected monitor besides `monitor` that shows `set`.
pub open spec fn held_by(
    shown: TextMap,
    monitor: Seq<char>,
    set: Seq<char>,
    connected: Seq<Seq<char>>,
) -> Option<Seq<char>> {
    first(connected, |other: Seq<char>| holds(shown, monitor, set, other))
}

/// Whether no connected monitor besides `monitor` shows `set`.
pub open spec fn free(
    shown: TextMap,
    monitor: Seq<char>,
    set: Seq<char>,
    connected: Seq<Seq<char>>,
) -> bool {
    held_by(shown, monitor, set, connected) is None
}

/// The names of sets to invent: `main`, `main2`, `main3`...
pub open spec fn invented(n: nat) -> Seq<char> {
    if n == 1 {
        "main"@
    } else {
        "main"@ + decimal(n)
    }
}

/// Whether `n` numbers the first invented name that is free.
pub open spec fn first_invented(
    shown: TextMap,
    monitor: Seq<char>,
    connected: Seq<Seq<char>>,
    n: nat,
) -> bool {
    &&& n >= 1
    &&& free(shown, monitor, invented(n), connected)
    &&& forall|k: nat| 1 <= k < n ==> !free(shown, monitor, #[trigger] invented(k), connected)
}

/// The set `monitor` shows. A monitor without one gets the first of `known`,
/// then of the invented names, that no other connected monitor shows.
pub open spec fn resolved(
    shown: TextMap,
    monitor: Seq<char>,
    connected: Seq<Seq<char>>,
    known: Seq<Seq<char>>,
) -> Seq<char> {
    if shown.contains_key(monitor) {
        shown[monitor]
    } else {
        match first(known, |set: Seq<char>| free(shown, monitor, set, connected)) {
            Some(set) => set,
            None => invented(choose|n: nat| first_invented(shown, monitor, connected, n)),
        }
    }
}

/// What showing `set` on `monitor`, which shows `current`, involves.
pub open spec fn planned(
    shown: TextMap,
    monitor: Seq<char>,
    current: Seq<char>,
    set: Seq<char>,
    connected: Seq<Seq<char>>,
) -> Planned {
    if current == set {
        Planned::Unchanged
    } else {
        match held_by(shown, monitor, set, connected) {
            Some(other) => Planned::Swap { monitor: other, old: current },
            None => Planned::Replace { old: current },
        }
    }
}

/// The assignments once `monitor` shows `set` and no other monitor does.
pub open spec fn assigned(shown: TextMap, monitor: Seq<char>, set: Seq<char>) -> TextMap {
    without_value(shown, set).insert(monitor, set)
}

impl Assignments {
    /// The set that a monitor shows.
    pub fn get(&self, monitor: &str) -> (r: Option<&str>)
        ensures
            view_of_str(r) == self@.get(monitor@),
    {
        self.shown.get(monitor)
    }

    /// The set `monitor` shows. A monitor without one gets the first of
    /// `known`, then of `main`, `main2`, `main3`..., not shown on another
    /// connected monitor.
    pub fn resolve(&self, monitor: &str, connected: &[String], known: &[String]) -> (r: String)
        ensures
            r@ == resolved(self@, monitor@, views(connected@), views(known@)),
    {
        if let Some(set) = self.get(monitor) {
            return set.to_owned();
        }
        let ghost is_free = |set: Seq<char>| free(self@, monitor@, set, views(connected@));
        let mut i: usize = 0;
        while i < known.len()
            invariant
                i <= known@.len(),
                is_free == (|set: Seq<char>| free(self@, monitor@, set, views(connected@))),
                !self@.contains_key(monitor@),
                forall|j: int| 0 <= j < i ==> !is_free(#[trigger] views(known@)[j]),
            decreases known.len() - i,
        {
            if self.holder(monitor, known[i].as_str(), connected).is_none() {
                proof {
                    assert(is_free(views(known@)[i as int]));
                    lemma_first_at(views(known@), is_free, i as int);
                }
                return known[i].clone();
            }
            assert(!is_free(views(known@)[i as int]));
            i += 1;
        }
        proof {
            lemma_first_none(views(known@), is_free);
        }
        self.invent(monitor, connected)
    }

    /// The first of `main`, `main2`, `main3`... that no connected monitor
    /// besides `monitor` shows.
    fn invent(&self, monitor: &str, connected: &[String]) -> (r: String)
        ensures
            r@ == invented(
                choose|n: nat| first_invented(self@, monitor@, views(connected@), n),
            ),
    {
        let ghost names = views(connected@);
        let count: usize = connected.len();
        let mut n: u128 = 1;
        loop
            invariant
                names == views(connected@),
                1 <= n <= connected@.len() + 1,
                count == connected@.len(),
                forall|k: nat| 1 <= k < n ==> !free(self@, monitor@, #[trigger] invented(k), names),
            decreases connected@.len() + 1 - n,
        {
            let mut name: String = "main".to_owned();
            if n != 1 {
                push_decimal(&mut name, n);
            }
            assert(name@ == invented(n as nat));
            if self.holder(monitor, name.as_str(), connected).is_none() {
                proof {
                    assert(first_invented(self@, monitor@, names, n as nat));
                    let m = choose|m: nat| first_invented(self@, monitor@, names, m);
                    lemma_first_invented_unique(self@, monitor@, names, n as nat, m);
                }
                return name;
            }
            proof {
                assert(!free(self@, monitor@, invented(n as nat), names));
                lemma_few_taken(self@, monitor@, names, n as nat);
            }
            n += 1;
        }
    }

    /// Plan showing `set` on `monitor`, which currently shows `current`.
    pub fn plan(&self, monitor: &str, current: &str, set: &str, connected: &[String]) -> (r: Change)
        ensures
            r@ == planned(self@, monitor@, current@, set@, views(connected@)),
    {
        if same_text(current, set) {
            return Change::Unchanged;
        }
        match self.holder(monitor, set, connected) {
            Some(other) => Change::Swap { monitor: other.to_owned(), old: current.to_owned() },
            None => Change::Replace { old: current.to_owned() },
        }
    }

    /// Show `set` on `monitor`, taking it off any other monitor.
    pub fn assign(&mut self, monitor: &str, set: &str)
        ensures
            final(self)@ == assigned(old(self)@, monitor@, set@),
    {
        self.shown.remove_value(set);
        self.shown.insert(monitor.to_owned(), set.to_owned());
    }

    /// The first connected monitor besides `monitor` that shows `set`.
    fn holder<'a>(&self, monitor: &str, set: &str, connected: &'a [String]) -> (r: Option<&'a str>)
        ensures
            view_of_str(r) == held_by(self@, monitor@, set@, views(connected@)),
    {
        let ghost f = |other: Seq<char>| holds(self@, monitor@, set@, other);
        let mut i: usize = 0;
        while i < connected.len()
            invariant
                i <= connected@.len(),
                f == (|other: Seq<char>| holds(self@, monitor@, set@, other)),
                forall|j: int| 0 <= j < i ==> !f(#[trigger] views(connected@)[j]),
            decreases connected.len() - i,
        {
            let other = connected[i].as_str();
            if !same_text(other, monitor) {
                if let Some(shown) = self.get(other) {
                    if same_text(shown, set) {
                        proof {
                            assert(f(views(connected@)[i as int]));
                            lemma_first_at(views(connected@), f, i as int);
                        }
                        return Some(other);
                    }
                }
            }
            assert(!f(views(connected@)[i as int]));
            i += 1;
        }
        proof {
            lemma_first_none(views(connected@), f);
        }
        None
    }

    /// The monitors and their sets, in the order of the monitors' identifiers.
    pub fn entries(&self) -> (r: &Vec<(String, String)>)
        ensures
            ascending(r@),
            map_of(r@) == self@,
    {
        self.shown.entries()
    }

    /// Reads assignments from the JSON object that holds them.
    pub fn from_json(text: &str) -> (r: Result<Assignments, serde_json::Error>)
        ensures
            match r {
                Ok(assignments) => object_entries(text@) == Some(assignments@),
                Err(_) => object_entries(text@) is None,
            },
    {
        match StringMap::from_json(text) {
            Ok(shown) => Ok(Assignments { shown }),
            Err(e) => Err(e),
        }
    }

    /// The JSON object that holds the assignments, from which `from_json`
    /// reads them back.
    pub fn to_json(&self) -> (r: String)
        ensures
            r@ == object_text(self@),
            object_entries(r@) == Some(self@),
    {
        self.shown.to_json()
    }
}

impl Clone for Assignments {
    fn clone(&self) -> (r: Self)
        ensures
            r@ == self@,
    {
        Assignments { shown: self.shown.clone() }
    }
}

impl Default for Assignments {
    fn default() -> (r: Self)
        ensures
            r@ == Map::<Seq<char>, Seq<char>>::empty(),
    {
        Assignments { shown: StringMap::new() }
    }
}

impl PartialEq for Assignments {
    fn eq(&self, other: &Self) -> (r: bool) {
        self.shown == other.shown
    }
}

impl vstd::std_specs::cmp::PartialEqSpecImpl for Assignments {
    open spec fn obeys_eq_spec() -> bool {
        true
    }

    open spec fn eq_spec(&self, other: &Self) -> bool {
        self@ == other@
    }
}

impl Eq for Assignments {

}

/// Different numbers give different invented names.
pub proof fn law_invented_names_differ(a: nat, b: nat)
    requires
        invented(a) == invented(b),
        a >= 1,
        b >= 1,
    ensures
        a == b,
{
    lemma_decimal_not_empty(a);
    lemma_decimal_not_empty(b);
    assert(("main"@ + decimal(a)).len() == "main"@.len() + decimal(a).len());
    assert(("main"@ + decimal(b)).len() == "main"@.len() + decimal(b).len());
    if a != 1 && b != 1 {
        assert(("main"@ + decimal(a)).skip("main"@.len() as int) == decimal(a));
        assert(("main"@ + decimal(b)).skip("main"@.len() as int) == decimal(b));
        law_decimal_is_injective(a, b);
    }
}

proof fn lemma_first_invented_unique(
    shown: TextMap,
    monitor: Seq<char>,
    connected: Seq<Seq<char>>,
    a: nat,
    b: nat,
)
    requires
        first_invented(shown, monitor, connected, a),
        first_invented(shown, monitor, connected, b),
    ensures
        a == b,
{
    if a < b {
        assert(!free(shown, monitor, invented(a), connected));
    } else if b < a {
        assert(!free(shown, monitor, invented(b), connected));
    }
}

/// Each taken name is shown on a connected monitor of its own, so no more
/// names are taken than there are connected monitors.
proof fn lemma_few_taken(shown: TextMap, monitor: Seq<char>, connected: Seq<Seq<char>>, n: nat)
    requires
        forall|k: nat| 1 <= k <= n ==> !free(shown, monitor, #[trigger] invented(k), connected),
    ensures
        n <= connected.len(),
{
    let at = |k: nat|
        choose|i: int|
            0 <= i < connected.len() && holds(shown, monitor, invented(k), #[trigger] connected[i]);
    let places = Seq::new(n, |i: int| at((i + 1) as nat));
    assert forall|k: nat| 1 <= k <= n implies 0 <= #[trigger] at(k) < connected.len() && holds(
        shown,
        monitor,
        invented(k),
        connected[at(k)],
    ) by {
        let f = |other: Seq<char>| holds(shown, monitor, invented(k), other);
        assert(!free(shown, monitor, invented(k), connected));
        lemma_first(connected, f);
        let i = choose|i: int|
            0 <= i < connected.len() && #[trigger] connected[i] == first(connected, f)->0 && f(
                first(connected, f)->0,
            );
        assert(holds(shown, monitor, invented(k), connected[i]));
    }
    assert(places.no_duplicates()) by {
        assert forall|i: int, j: int| 0 <= i < n && 0 <= j < n && i != j implies places[i]
            != places[j] by {
            let a = (i + 1) as nat;
            let b = (j + 1) as nat;
            assert(places[i] == at(a) && places[j] == at(b));
            if at(a) == at(b) {
                law_invented_names_differ(a, b);
            }
        }
    }
    places.unique_seq_to_set();
    let range = vstd::set_lib::set_int_range(0, connected.len() as int);
    vstd::set_lib::lemma_int_range(0, connected.len() as int);
    assert(places.to_set().subset_of(range)) by {
        assert forall|x: int| places.to_set().contains(x) implies range.contains(x) by {
            let i = choose|i: int| 0 <= i < places.len() && places[i] == x;
            assert(places[i] == at((i + 1) as nat));
        }
    }
    vstd::set_lib::lemma_len_subset(places.to_set(), range);
}

/// There is always an invented name that is free.
proof fn lemma_some_invented_free(
    shown: TextMap,
    monitor: Seq<char>,
    connected: Seq<Seq<char>>,
    n: nat,
)
    requires
        1 <= n <= connected.len() + 1,
        forall|k: nat| 1 <= k < n ==> !free(shown, monitor, #[trigger] invented(k), connected),
    ensures
        exists|m: nat| first_invented(shown, monitor, connected, m),
    decreases connected.len() + 1 - n,
{
    if free(shown, monitor, invented(n), connected) {
        assert(first_invented(shown, monitor, connected, n));
    } else {
        lemma_few_taken(shown, monitor, connected, n);
        lemma_some_invented_free(shown, monitor, connected, n + 1);
    }
}

/// A set is shown on at most one monitor: assigning keeps it so.
pub proof fn law_assign_keeps_sets_exclusive(shown: TextMap, monitor: Seq<char>, set: Seq<char>)
    requires
        exclusive(shown),
    ensures
        exclusive(assigned(shown, monitor, set)),
{
}

/// After an assignment the monitor shows the set and no other monitor does: one
/// that showed it shows none, and one that showed another set, or none, still
/// does.
pub proof fn law_assigned_set_is_shown_on_its_monitor_alone(
    shown: TextMap,
    monitor: Seq<char>,
    set: Seq<char>,
    other: Seq<char>,
)
    requires
        other != monitor,
    ensures
        assigned(shown, monitor, set).get(monitor) == Some(set),
        assigned(shown, monitor, set).get(other) == if shown.get(other) == Some(set) {
            None
        } else {
            shown.get(other)
        },
{
}

/// A monitor without a set is given one that no other connected monitor shows.
pub proof fn law_resolved_set_is_free(
    shown: TextMap,
    monitor: Seq<char>,
    connected: Seq<Seq<char>>,
    known: Seq<Seq<char>>,
)
    requires
        !shown.contains_key(monitor),
    ensures
        free(shown, monitor, resolved(shown, monitor, connected, known), connected),
{
    lemma_first(known, |set: Seq<char>| free(shown, monitor, set, connected));
    lemma_some_invented_free(shown, monitor, connected, 1);
}

/// A plan to swap names a connected monitor besides this one that shows the
/// set; a plan to replace means that no such monitor shows it.
pub proof fn law_plan_swaps_exactly_with_the_monitor_showing_the_set(
    shown: TextMap,
    monitor: Seq<char>,
    current: Seq<char>,
    set: Seq<char>,
    connected: Seq<Seq<char>>,
)
    requires
        current != set,
    ensures
        match planned(shown, monitor, current, set, connected) {
            Planned::Swap { monitor: other, old } => {
                &&& connected.contains(other)
                &&& holds(shown, monitor, set, other)
                &&& old == current
            },
            Planned::Replace { old } => {
                &&& old == current
                &&& forall|other: Seq<char>|
                    #[trigger] connected.contains(other) ==> !holds(shown, monitor, set, other)
            },
            Planned::Unchanged => false,
        },
{
    lemma_first(connected, |other: Seq<char>| holds(shown, monitor, set, other));
}

/// The two assignments of a swap exchange the sets of the two monitors and
/// leave every other monitor as it was.
pub proof fn law_swap_exchanges_the_two_sets(
    shown: TextMap,
    here: Seq<char>,
    there: Seq<char>,
    current: Seq<char>,
    set: Seq<char>,
)
    requires
        exclusive(shown),
        here != there,
        shown.get(here) == Some(current),
        shown.get(there) == Some(set),
    ensures
        assigned(assigned(shown, here, set), there, current) == shown.insert(here, set).insert(
            there,
            current,
        ),
{
    assert(assigned(assigned(shown, here, set), there, current) =~= shown.insert(here, set).insert(
        there,
        current,
    ));
}

/// Swapping back restores the assignments, and is what is then planned.
pub proof fn law_swapping_back_restores_the_assignments(
    shown: TextMap,
    here: Seq<char>,
    there: Seq<char>,
    current: Seq<char>,
    set: Seq<char>,
    connected: Seq<Seq<char>>,
)
    requires
        exclusive(shown),
        here != there,
        shown.get(here) == Some(current),
        shown.get(there) == Some(set),
        connected.contains(there),
    ensures
        ({
            let swapped = assigned(assigned(shown, here, set), there, current);
            &&& planned(swapped, here, set, current, connected) == Planned::Swap {
                monitor: there,
                old: set,
            }
            &&& assigned(assigned(swapped, here, current), there, set) == shown
        }),
{
    law_swap_exchanges_the_two_sets(shown, here, there, current, set);
    let swapped = assigned(assigned(shown, here, set), there, current);
    law_assign_keeps_sets_exclusive(shown, here, set);
    law_assign_keeps_sets_exclusive(assigned(shown, here, set), there, current);
    law_swap_exchanges_the_two_sets(swapped, here, there, set, current);
    assert(swapped.insert(here, current).insert(there, set) =~= shown);
    let f = |other: Seq<char>| holds(swapped, here, current, other);
    lemma_first(connected, f);
    let i = choose|i: int| 0 <= i < connected.len() && connected[i] == there;
    assert(f(connected[i]));
}

/// Whether a connected monitor besides `monitor` shows a set.
pub open spec fn taken(
    shown: TextMap,
    monitor: Seq<char>,
    connected: Seq<Seq<char>>,
    set: Seq<char>,
) -> bool {
    exists|i: int|
        {
            &&& 0 <= i < connected.len()
            &&& #[trigger] connected[i] != monitor
            &&& shown.get(connected[i]) == Some(set)
        }
}

proof fn lemma_taken(
    shown: TextMap,
    monitor: Seq<char>,
    connected: Seq<Seq<char>>,
    set: Seq<char>,
)
    ensures
        free(shown, monitor, set, connected) <==> !taken(shown, monitor, connected, set),
{
    let f = |other: Seq<char>| holds(shown, monitor, set, other);
    lemma_first(connected, f);
    if taken(shown, monitor, connected, set) {
        let i = choose|i: int|
            {
                &&& 0 <= i < connected.len()
                &&& #[trigger] connected[i] != monitor
                &&& shown.get(connected[i]) == Some(set)
            };
        assert(f(connected[i]));
    }
}

/// A monitor that is assigned a set shows that one, whatever is known and
/// whatever other monitors show.
pub proof fn law_assigned_monitor_shows_its_set(
    shown: TextMap,
    monitor: Seq<char>,
    connected: Seq<Seq<char>>,
    known: Seq<Seq<char>>,
    set: Seq<char>,
)
    requires
        shown.get(monitor) == Some(set),
    ensures
        resolved(shown, monitor, connected, known) == set,
{
}

/// A monitor that is assigned none is given the first known set that no other
/// connected monitor shows; where they show all of them, the first of `main`,
/// `main2`, `main3` and so on that they do not.
pub proof fn law_new_monitor_is_given_the_first_set_not_taken(
    shown: TextMap,
    monitor: Seq<char>,
    connected: Seq<Seq<char>>,
    known: Seq<Seq<char>>,
)
    requires
        shown.get(monitor) is None,
    ensures
        ({
            let set = resolved(shown, monitor, connected, known);
            &&& !taken(shown, monitor, connected, set)
            &&& {
                ||| exists|k: int|
                    {
                        &&& 0 <= k < known.len()
                        &&& #[trigger] known[k] == set
                        &&& forall|j: int|
                            0 <= j < k ==> taken(shown, monitor, connected, #[trigger] known[j])
                    }
                ||| {
                    &&& forall|j: int|
                        0 <= j < known.len() ==> taken(
                            shown,
                            monitor,
                            connected,
                            #[trigger] known[j],
                        )
                    &&& exists|n: nat|
                        {
                            &&& n >= 1
                            &&& set == if n == 1 {
                                "main"@
                            } else {
                                "main"@ + #[trigger] decimal(n)
                            }
                            &&& n > 1 ==> taken(shown, monitor, connected, "main"@)
                            &&& forall|k: nat|
                                2 <= k < n ==> taken(
                                    shown,
                                    monitor,
                                    connected,
                                    "main"@ + #[trigger] decimal(k),
                                )
                        }
                }
            }
        }),
{
    let set = resolved(shown, monitor, connected, known);
    let f = |set: Seq<char>| free(shown, monitor, set, connected);
    law_resolved_set_is_free(shown, monitor, connected, known);
    lemma_taken(shown, monitor, connected, set);
    lemma_first(known, f);
    match first(known, f) {
        Some(found) => {
            let k = choose|k: int|
                0 <= k < known.len() && #[trigger] known[k] == found && f(found) && forall|j: int|
                    0 <= j < k ==> !f(#[trigger] known[j]);
            assert forall|j: int| 0 <= j < k implies taken(
                shown,
                monitor,
                connected,
                #[trigger] known[j],
            ) by {
                assert(!f(known[j]));
                lemma_taken(shown, monitor, connected, known[j]);
            }
            assert(known[k] == set);
        },
        None => {
            assert forall|j: int| 0 <= j < known.len() implies taken(
                shown,
                monitor,
                connected,
                #[trigger] known[j],
            ) by {
                assert(!f(known[j]));
                lemma_taken(shown, monitor, connected, known[j]);
            }
            lemma_some_invented_free(shown, monitor, connected, 1);
            let n = choose|n: nat| first_invented(shown, monitor, connected, n);
            if n > 1 {
                assert(invented(1) == "main"@);
                lemma_taken(shown, monitor, connected, invented(1));
            }
            assert forall|k: nat| 2 <= k < n implies taken(
                shown,
                monitor,
                connected,
                "main"@ + #[trigger] decimal(k),
            ) by {
                assert(invented(k) == "main"@ + decimal(k));
                lemma_taken(shown, monitor, connected, invented(k));
            }
            assert(decimal(n).len() >= 0);
        },
    }
}

/// What picking a set for a monitor involves: nothing where the monitor shows
/// it; an exchange with the first other connected monitor that shows it; and
/// otherwise the old set is put away.
pub proof fn law_plan_follows_who_shows_the_set(
    shown: TextMap,
    monitor: Seq<char>,
    current: Seq<char>,
    set: Seq<char>,
    connected: Seq<Seq<char>>,
)
    ensures
        match planned(shown, monitor, current, set, connected) {
            Planned::Unchanged => current == set,
            Planned::Swap { monitor: other, old } => {
                &&& current != set
                &&& old == current
                &&& other != monitor
                &&& shown.get(other) == Some(set)
                &&& exists|i: int|
                    {
                        &&& 0 <= i < connected.len()
                        &&& #[trigger] connected[i] == other
                        &&& forall|j: int|
                            0 <= j < i && #[trigger] connected[j] != monitor ==> shown.get(
                                connected[j],
                            ) != Some(set)
                    }
            },
            Planned::Replace { old } => {
                &&& current != set
                &&& old == current
                &&& !taken(shown, monitor, connected, set)
            },
        },
{
    let f = |other: Seq<char>| holds(shown, monitor, set, other);
    lemma_first(connected, f);
    lemma_taken(shown, monitor, connected, set);
    if let Some(other) = first(connected, f) {
        let i = choose|i: int|
            0 <= i < connected.len() && #[trigger] connected[i] == other && f(other) && forall|
                j: int,
            |
                0 <= j < i ==> !f(#[trigger] connected[j]);
        assert forall|j: int|
            0 <= j < i && #[trigger] connected[j] != monitor implies shown.get(connected[j])
            != Some(set) by {
            assert(!f(connected[j]));
        }
        assert(connected[i] == other);
    }
}

} // verus!
