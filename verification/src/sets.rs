//! The list of known sets, most recently used first, and the files that
//! frozen sets are kept in.

use crate::search::{
    lemma_filter_all, lemma_filter_first, lemma_filter_no_duplicates, lemma_filter_start,
    lemma_filter_step,
};
use crate::text::{
    chars_of, contains_text, join, joined, line_len, lines, same_text, split_lines, text_of, trim,
    trimmed, views, without_return,
};
use crate::workspace::{belongs, workspace_belongs_to_set};
use vstd::prelude::*;
use vstd::string::StringExecFns;

verus! {

/// The sets known before any list is stored.
pub open spec fn default_names() -> Seq<Seq<char>> {
    seq!["main"@, "work"@, "scratch"@]
}

/// The sets that a stored list names: its lines that are not blank.
pub open spec fn listed(text: Seq<char>) -> Seq<Seq<char>> {
    lines(text).filter(|line: Seq<char>| trimmed(line).len() > 0)
}

/// The text that a list of sets is stored as: each name on a line of its own.
pub open spec fn list_text(sets: Seq<Seq<char>>) -> Seq<char> {
    joined(sets, "\n"@) + "\n"@
}

/// The test for names other than `name`.
pub open spec fn other_than(name: Seq<char>) -> spec_fn(Seq<char>) -> bool {
    |set: Seq<char>| set != name
}

/// The sets without one.
pub open spec fn without(sets: Seq<Seq<char>>, name: Seq<char>) -> Seq<Seq<char>> {
    sets.filter(other_than(name))
}

/// Whether `name` is the first of `sets`.
pub open spec fn leads(sets: Seq<Seq<char>>, name: Seq<char>) -> bool {
    sets.len() > 0 && sets[0] == name
}

/// The sets once `name` is the most recently used.
pub open spec fn touched(sets: Seq<Seq<char>>, name: Seq<char>) -> Seq<Seq<char>> {
    if leads(sets, name) {
        sets
    } else {
        seq![name] + without(sets, name)
    }
}

/// Whether one of the workspaces belongs to a set.
pub open spec fn has_workspace(workspaces: Seq<Seq<char>>, set: Seq<char>) -> bool {
    exists|i: int| 0 <= i < workspaces.len() && belongs(#[trigger] workspaces[i], set)
}

/// Whether there is something to go back to in a set.
pub open spec fn is_live(
    set: Seq<char>,
    workspaces: Seq<Seq<char>>,
    iced: Seq<Seq<char>>,
    shown: Seq<Seq<char>>,
) -> bool {
    shown.contains(set) || iced.contains(set) || has_workspace(workspaces, set)
}

/// The sets there is something to go back to.
pub open spec fn live_sets(
    sets: Seq<Seq<char>>,
    workspaces: Seq<Seq<char>>,
    iced: Seq<Seq<char>>,
    shown: Seq<Seq<char>>,
) -> Seq<Seq<char>> {
    sets.filter(|set: Seq<char>| is_live(set, workspaces, iced, shown))
}

/// The name of the file that a frozen set is kept in.
pub open spec fn ice_name(set: Seq<char>) -> Seq<char> {
    set + ".json"@
}

/// Where the last full stop of a name stands; -1 where it has none.
pub open spec fn last_stop(name: Seq<char>) -> int
    decreases name.len(),
{
    if name.len() == 0 {
        -1
    } else if name.last() == '.' {
        name.len() - 1
    } else {
        last_stop(name.drop_last())
    }
}

/// A file's name up to its last full stop; the whole name where it has none
/// or starts with its only one.
pub open spec fn stem(name: Seq<char>) -> Seq<char> {
    if last_stop(name) > 0 {
        name.take(last_stop(name))
    } else {
        name
    }
}

/// The stems of files' names.
pub open spec fn stems(names: Seq<Seq<char>>) -> Seq<Seq<char>> {
    names.map_values(|name: Seq<char>| stem(name))
}

/// The sets known before any list is stored.
pub fn default_sets() -> (r: Vec<String>)
    ensures
        views(r@) == default_names(),
{
    let mut sets: Vec<String> = Vec::new();
    sets.push("main".to_owned());
    sets.push("work".to_owned());
    sets.push("scratch".to_owned());
    assert(views(sets@) == default_names());
    sets
}

/// The sets that a stored list names.
pub fn parse_sets(text: &str) -> (r: Vec<String>)
    ensures
        views(r@) == listed(text@),
{
    let all = split_lines(text);
    let ghost f = |line: Seq<char>| trimmed(line).len() > 0;
    let mut sets: Vec<String> = Vec::new();
    let mut i: usize = 0;
    proof {
        lemma_filter_start(views(all@), f);
    }
    while i < all.len()
        invariant
            i <= all@.len(),
            f == (|line: Seq<char>| trimmed(line).len() > 0),
            views(sets@) == views(all@).take(i as int).filter(f),
        decreases all.len() - i,
    {
        proof {
            lemma_filter_step(views(all@), f, i as int);
        }
        let ghost before = views(sets@);
        let bare = trim(all[i].as_str());
        if !bare.as_str().is_empty() {
            sets.push(all[i].clone());
            assert(views(sets@) == before.push(all@[i as int]@));
        }
        i += 1;
    }
    assert(views(all@).take(i as int) == views(all@));
    sets
}

/// The text that a list of sets is stored as.
pub fn render_sets(sets: &[String]) -> (r: String)
    ensures
        r@ == list_text(views(sets@)),
{
    let mut text = join(sets, "\n");
    text.append("\n");
    text
}

/// The sets without one.
pub fn sets_without(sets: &[String], name: &str) -> (r: Vec<String>)
    ensures
        views(r@) == without(views(sets@), name@),
{
    let ghost f = other_than(name@);
    let mut rest: Vec<String> = Vec::new();
    let mut i: usize = 0;
    proof {
        lemma_filter_start(views(sets@), f);
    }
    while i < sets.len()
        invariant
            i <= sets@.len(),
            f == other_than(name@),
            views(rest@) == views(sets@).take(i as int).filter(f),
        decreases sets.len() - i,
    {
        proof {
            lemma_filter_step(views(sets@), f, i as int);
        }
        let ghost before = views(rest@);
        if !same_text(sets[i].as_str(), name) {
            rest.push(sets[i].clone());
            assert(views(rest@) == before.push(sets@[i as int]@));
        }
        i += 1;
    }
    assert(views(sets@).take(i as int) == views(sets@));
    rest
}

/// Whether `name` is the first of `sets`.
pub fn is_first(sets: &[String], name: &str) -> (r: bool)
    ensures
        r == leads(views(sets@), name@),
{
    sets.len() > 0 && same_text(sets[0].as_str(), name)
}

/// Puts a set first in the list, as the most recently used.
pub fn move_to_front(sets: &[String], name: &str) -> (r: Vec<String>)
    ensures
        views(r@) == seq![name@] + without(views(sets@), name@),
{
    let mut rest = sets_without(sets, name);
    let mut front: Vec<String> = Vec::new();
    front.push(name.to_owned());
    let ghost tail = rest@;
    front.append(&mut rest);
    assert(views(front@) == seq![name@] + views(tail));
    front
}

/// Keep the sets there is something to go back to: a live workspace, a
/// frozen snapshot, or a monitor showing them. Sway drops a workspace once
/// its last window leaves, so a set with none is gone.
pub fn retain_live(
    sets: Vec<String>,
    workspaces: &[String],
    iced: &[String],
    shown: &[String],
) -> (r: Vec<String>)
    ensures
        views(r@) == live_sets(views(sets@), views(workspaces@), views(iced@), views(shown@)),
{
    let ghost f = |set: Seq<char>|
        is_live(set, views(workspaces@), views(iced@), views(shown@));
    let mut kept: Vec<String> = Vec::new();
    let mut i: usize = 0;
    proof {
        lemma_filter_start(views(sets@), f);
    }
    while i < sets.len()
        invariant
            i <= sets@.len(),
            f == (|set: Seq<char>| is_live(set, views(workspaces@), views(iced@), views(shown@))),
            views(kept@) == views(sets@).take(i as int).filter(f),
        decreases sets.len() - i,
    {
        proof {
            lemma_filter_step(views(sets@), f, i as int);
        }
        let ghost before = views(kept@);
        let name = sets[i].as_str();
        if contains_text(shown, name) || contains_text(iced, name) || any_belongs(workspaces, name) {
            kept.push(sets[i].clone());
            assert(views(kept@) == before.push(sets@[i as int]@));
        }
        i += 1;
    }
    assert(views(sets@).take(i as int) == views(sets@));
    kept
}

/// Whether one of the workspaces belongs to a set.
fn any_belongs(workspaces: &[String], set: &str) -> (r: bool)
    ensures
        r == has_workspace(views(workspaces@), set@),
{
    let mut i: usize = 0;
    while i < workspaces.len()
        invariant
            i <= workspaces@.len(),
            forall|j: int| 0 <= j < i ==> !belongs(#[trigger] views(workspaces@)[j], set@),
        decreases workspaces.len() - i,
    {
        if workspace_belongs_to_set(workspaces[i].as_str(), set) {
            assert(belongs(views(workspaces@)[i as int], set@));
            return true;
        }
        i += 1;
    }
    false
}

/// The name of the file that a frozen set is kept in.
pub fn ice_file(set: &str) -> (r: String)
    ensures
        r@ == ice_name(set@),
{
    let mut name = set.to_owned();
    name.append(".json");
    name
}

/// A file's name without its extension.
pub fn file_stem(name: &str) -> (r: String)
    ensures
        r@ == stem(name@),
{
    let chars = chars_of(name);
    let mut n: usize = chars.len();
    assert(chars@.take(n as int) == chars@);
    while n > 0 && chars[n - 1] != '.'
        invariant
            n <= chars@.len(),
            last_stop(chars@) == last_stop(chars@.take(n as int)),
        decreases n,
    {
        assert(chars@.take(n as int).drop_last() == chars@.take(n - 1));
        n -= 1;
    }
    if n > 1 {
        assert(chars@.take(n as int).last() == '.');
        let s = text_of(&chars, 0, n - 1);
        assert(s@ == chars@.take(n - 1));
        s
    } else {
        if n == 1 {
            assert(chars@.take(1).last() == '.');
        }
        name.to_owned()
    }
}

/// The stems of files' names.
pub fn file_stems(names: &[String]) -> (r: Vec<String>)
    ensures
        views(r@) == stems(views(names@)),
{
    let mut out: Vec<String> = Vec::new();
    let mut i: usize = 0;
    while i < names.len()
        invariant
            i <= names@.len(),
            views(out@) == stems(views(names@)).take(i as int),
        decreases names.len() - i,
    {
        let one = file_stem(names[i].as_str());
        let ghost before = views(out@);
        out.push(one);
        assert(views(out@) == before.push(one@));
        i += 1;
    }
    assert(stems(views(names@)).take(i as int) == stems(views(names@)));
    out
}

/// A frozen set is listed under its own name.
pub proof fn law_frozen_set_is_listed_by_its_name(set: Seq<char>)
    requires
        set.len() > 0,
    ensures
        stem(ice_name(set)) == set,
{
    reveal_strlit(".json");
    let name = ice_name(set);
    assert(name == set + seq!['.', 'j', 's', 'o', 'n']);
    reveal_with_fuel(last_stop, 6);
    assert(name.drop_last().drop_last().drop_last().drop_last().last() == '.');
    assert(last_stop(name) == set.len());
    assert(name.take(set.len() as int) == set);
}

/// A set that is touched comes first, once, and the others keep their order.
pub proof fn law_touched_set_comes_first(sets: Seq<Seq<char>>, name: Seq<char>)
    ensures
        leads(touched(sets, name), name),
        without(touched(sets, name), name) == without(sets, name),
        !leads(sets, name) ==> !touched(sets, name).drop_first().contains(name),
{
    let f = other_than(name);
    if !leads(sets, name) {
        let rest = without(sets, name);
        Seq::filter_distributes_over_add(seq![name], rest, f);
        reveal_with_fuel(Seq::filter, 2);
        assert(seq![name].drop_last() == Seq::<Seq<char>>::empty());
        assert(seq![name].filter(f) == Seq::<Seq<char>>::empty());
        assert forall|i: int| 0 <= i < rest.len() implies f(#[trigger] rest[i]) by {
            sets.lemma_filter_pred(f, i);
        }
        lemma_filter_all(rest, f);
        assert(touched(sets, name).drop_first() == rest);
    }
}

/// Touching a set twice is touching it once.
pub proof fn law_touching_twice_is_touching_once(sets: Seq<Seq<char>>, name: Seq<char>)
    ensures
        touched(touched(sets, name), name) == touched(sets, name),
{
}

/// Pruning keeps exactly the known sets there is something to go back to, and
/// pruning twice is pruning once.
pub proof fn law_pruning_keeps_exactly_the_live_sets(
    sets: Seq<Seq<char>>,
    workspaces: Seq<Seq<char>>,
    iced: Seq<Seq<char>>,
    shown: Seq<Seq<char>>,
)
    ensures
        forall|set: Seq<char>| #[trigger]
            live_sets(sets, workspaces, iced, shown).contains(set) <==> sets.contains(set)
                && is_live(set, workspaces, iced, shown),
        live_sets(live_sets(sets, workspaces, iced, shown), workspaces, iced, shown) == live_sets(
            sets,
            workspaces,
            iced,
            shown,
        ),
{
    let f = |set: Seq<char>| is_live(set, workspaces, iced, shown);
    let kept = live_sets(sets, workspaces, iced, shown);
    assert forall|i: int| 0 <= i < kept.len() implies f(#[trigger] kept[i]) by {
        sets.lemma_filter_pred(f, i);
    }
    lemma_filter_all(kept, f);
    assert forall|set: Seq<char>| #[trigger] kept.contains(set) <==> sets.contains(set) && is_live(
        set,
        workspaces,
        iced,
        shown,
    ) by {
        if kept.contains(set) {
            sets.lemma_filter_contains_rev(f, set);
            let i = kept.index_of(set);
            assert(f(kept[i]));
        }
        if sets.contains(set) && f(set) {
            sets.lemma_filter_contains(f, sets.index_of(set));
        }
    }
}

/// The menu of sets does not offer the set shown, and offers the one left last
/// first: after going from one set to another, as long as there is something
/// left in the first.
pub proof fn law_menu_offers_the_set_left_last_first(
    sets: Seq<Seq<char>>,
    left: Seq<char>,
    current: Seq<char>,
    workspaces: Seq<Seq<char>>,
    iced: Seq<Seq<char>>,
    shown: Seq<Seq<char>>,
)
    requires
        leads(sets, left),
        left != current,
        is_live(left, workspaces, iced, shown),
    ensures
        ({
            let known = live_sets(touched(sets, current), workspaces, iced, shown);
            &&& leads(without(known, current), left)
            &&& !without(known, current).contains(current)
        }),
{
    let f = |set: Seq<char>| is_live(set, workspaces, iced, shown);
    let other = other_than(current);
    let rest = without(sets, current);
    lemma_filter_first(sets, other);
    lemma_filter_first(rest, f);
    lemma_filter_first(rest.filter(f), other);
    Seq::filter_distributes_over_add(seq![current], rest, f);
    let head = seq![current].filter(f);
    Seq::filter_distributes_over_add(head, rest.filter(f), other);
    reveal_with_fuel(Seq::filter, 2);
    assert(seq![current].drop_last() == Seq::<Seq<char>>::empty());
    assert(head.filter(other) == Seq::<Seq<char>>::empty()) by {
        if f(current) {
            assert(head == seq![current]);
        } else {
            assert(head == Seq::<Seq<char>>::empty());
        }
    }
    let known = live_sets(touched(sets, current), workspaces, iced, shown);
    let offered = without(known, current);
    assert(offered == rest.filter(f).filter(other));
    if offered.contains(current) {
        known.lemma_filter_pred(other, offered.index_of(current));
    }
}

/// Storing a list of sets and reading it gives the list back, unless a name
/// is blank, spans lines or ends in a carriage return.
pub proof fn law_stored_sets_read_back(sets: Seq<Seq<char>>)
    requires
        forall|i: int|
            0 <= i < sets.len() ==> trimmed(#[trigger] sets[i]).len() > 0 && !sets[i].contains('\n')
                && sets[i].last() != '\r',
    ensures
        listed(list_text(sets)) == sets,
{
    reveal_strlit("\n");
    let f = |line: Seq<char>| trimmed(line).len() > 0;
    if sets.len() == 0 {
        assert(list_text(sets) == seq!['\n']);
        assert(line_len(seq!['\n']) == 0);
        assert(seq!['\n'].take(0) == Seq::<char>::empty());
        assert(seq!['\n'].skip(1) == Seq::<char>::empty());
        assert(lines(Seq::<char>::empty()) == Seq::<Seq<char>>::empty());
        assert(lines(seq!['\n']) == seq![Seq::<char>::empty()]);
        reveal_with_fuel(Seq::filter, 2);
        assert(seq![Seq::<char>::empty()].drop_last() == Seq::<Seq<char>>::empty());
        assert(listed(list_text(sets)) == sets);
    } else {
        lemma_list_lines(sets);
        lemma_filter_all(sets, f);
    }
}

/// Names joined by line feeds, the first taken out.
proof fn lemma_joined_front(sets: Seq<Seq<char>>)
    requires
        sets.len() > 1,
    ensures
        joined(sets, "\n"@) == sets[0] + "\n"@ + joined(sets.drop_first(), "\n"@),
    decreases sets.len(),
{
    let rest = sets.drop_first();
    if sets.len() == 2 {
        assert(sets.drop_last().len() == 1);
        assert(joined(sets.drop_last(), "\n"@) == sets[0]);
        assert(joined(rest, "\n"@) == sets[1]);
    } else {
        lemma_joined_front(sets.drop_last());
        assert(sets.drop_last().drop_first() == rest.drop_last());
        assert(joined(rest, "\n"@) == joined(rest.drop_last(), "\n"@) + "\n"@ + rest.last());
        assert(joined(sets, "\n"@) == sets[0] + "\n"@ + joined(rest, "\n"@));
    }
}

proof fn lemma_line_front(line: Seq<char>, rest: Seq<char>)
    requires
        !line.contains('\n'),
    ensures
        lines(line + seq!['\n'] + rest) == seq![without_return(line)] + lines(rest),
{
    let all = line + seq!['\n'] + rest;
    lemma_line_len_front(line, rest);
    assert(all.take(line.len() as int) == line);
    assert(all.skip(line.len() as int + 1) == rest);
}

proof fn lemma_line_len_front(line: Seq<char>, rest: Seq<char>)
    requires
        !line.contains('\n'),
    ensures
        line_len(line + seq!['\n'] + rest) == line.len(),
    decreases line.len(),
{
    let all = line + seq!['\n'] + rest;
    if line.len() > 0 {
        assert(line.contains(line[0]));
        assert forall|i: int| 0 <= i < line.len() - 1 implies line.drop_first()[i] != '\n' by {
            assert(line.contains(line[i + 1]));
        }
        lemma_line_len_front(line.drop_first(), rest);
        assert(all.drop_first() == line.drop_first() + seq!['\n'] + rest);
    }
}

proof fn lemma_list_lines(sets: Seq<Seq<char>>)
    requires
        sets.len() > 0,
        forall|i: int|
            0 <= i < sets.len() ==> !(#[trigger] sets[i]).contains('\n') && sets[i].last() != '\r',
    ensures
        lines(list_text(sets)) == sets,
    decreases sets.len(),
{
    reveal_strlit("\n");
    assert("\n"@ == seq!['\n']);
    assert(without_return(sets[0]) == sets[0]);
    let rest = sets.drop_first();
    if sets.len() == 1 {
        assert(list_text(sets) == sets[0] + seq!['\n'] + Seq::<char>::empty());
        lemma_line_front(sets[0], seq![]);
        assert(lines(Seq::<char>::empty()) == Seq::<Seq<char>>::empty());
        assert(seq![sets[0]] + Seq::<Seq<char>>::empty() == sets);
    } else {
        lemma_joined_front(sets);
        assert(list_text(sets) == sets[0] + seq!['\n'] + list_text(rest));
        assert forall|i: int| 0 <= i < rest.len() implies !(#[trigger] rest[i]).contains('\n')
            && rest[i].last() != '\r' by {
            assert(rest[i] == sets[i + 1]);
        }
        lemma_list_lines(rest);
        lemma_line_front(sets[0], list_text(rest));
        assert(seq![sets[0]] + rest == sets);
    }
}

/// Each set has a file of its own.
pub broadcast proof fn lemma_ice_name_injective(a: Seq<char>, b: Seq<char>)
    requires
        #[trigger] ice_name(a) == #[trigger] ice_name(b),
    ensures
        a == b,
{
    let n = ".json"@.len();
    assert(ice_name(a).take(ice_name(a).len() - n) == a);
    assert(ice_name(b).take(ice_name(b).len() - n) == b);
}

/// The sets known at first differ.
pub proof fn lemma_default_names_differ()
    ensures
        default_names().no_duplicates(),
{
    reveal_strlit("main");
    reveal_strlit("work");
    reveal_strlit("scratch");
    assert("main"@[0] != "work"@[0]);
    assert("main"@[0] != "scratch"@[0]);
    assert("work"@[0] != "scratch"@[0]);
}

/// Touching a set leaves none listed twice.
pub broadcast proof fn lemma_touched_no_duplicates(sets: Seq<Seq<char>>, name: Seq<char>)
    requires
        sets.no_duplicates(),
    ensures
        (#[trigger] touched(sets, name)).no_duplicates(),
{
    let f = other_than(name);
    if !leads(sets, name) {
        let rest = without(sets, name);
        lemma_filter_no_duplicates(sets, f);
        assert forall|i: int| 0 <= i < rest.len() implies rest[i] != name by {
            sets.lemma_filter_pred(f, i);
        }
        let all = touched(sets, name);
        assert forall|i: int, j: int| 0 <= i < j < all.len() implies all[i] != all[j] by {
            assert(all[j] == rest[j - 1]);
            if i > 0 {
                assert(all[i] == rest[i - 1]);
            }
        }
    }
}

/// Dropping the sets nothing is left in leaves none listed twice.
pub broadcast proof fn lemma_live_sets_no_duplicates(
    sets: Seq<Seq<char>>,
    workspaces: Seq<Seq<char>>,
    iced: Seq<Seq<char>>,
    shown: Seq<Seq<char>>,
)
    requires
        sets.no_duplicates(),
    ensures
        (#[trigger] live_sets(sets, workspaces, iced, shown)).no_duplicates(),
{
    lemma_filter_no_duplicates(sets, |set: Seq<char>| is_live(set, workspaces, iced, shown));
}

/// A file is listed by its name up to the last full stop, if more comes before
/// that; else by its whole name.
pub proof fn law_file_is_listed_without_its_ending(front: Seq<char>, end: Seq<char>)
    requires
        !end.contains('.'),
    ensures
        stem(front + seq!['.'] + end) == if front.len() > 0 {
            front
        } else {
            seq!['.'] + end
        },
        stem(end) == end,
{
    lemma_last_stop(Seq::empty(), end);
    assert(Seq::<char>::empty() + end == end);
    lemma_last_stop(front + seq!['.'], end);
    assert((front + seq!['.']).last() == '.');
    let name = front + seq!['.'] + end;
    assert(name.take(front.len() as int) == front);
    if front.len() == 0 {
        assert(name == seq!['.'] + end);
    }
}

proof fn lemma_last_stop(front: Seq<char>, end: Seq<char>)
    requires
        !end.contains('.'),
    ensures
        last_stop(front + end) == last_stop(front),
    decreases end.len(),
{
    if end.len() == 0 {
        assert(front + end == front);
    } else {
        let less = end.drop_last();
        assert(end.contains(end.last()));
        if less.contains('.') {
            assert(end[less.index_of('.')] == '.');
        }
        lemma_last_stop(front, less);
        assert((front + end).drop_last() == front + less);
        assert((front + end).last() == end.last());
    }
}

} // verus!
