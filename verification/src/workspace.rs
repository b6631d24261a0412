//! Names of workspaces and monitors.
//!
//! A workspace is named `<key>(<set>)`. Membership is read from the end, so
//! `foo(bar)(main)` belongs to the set `main`.

use crate::string_map::TextMap;
use crate::text::{chars_of, to_upper, upper, view_of_str};
use vstd::prelude::*;
use vstd::string::StringExecFns;

verus! {

/// The workspace that the windows of frozen sets are parked on.
pub const PARKING_WORKSPACE: &'static str = "_";

/// What the names of a set's workspaces end in.
pub open spec fn set_suffix(set: Seq<char>) -> Seq<char> {
    seq!['('] + set + seq![')']
}

/// The name of the workspace of `set` that `key` reaches.
pub open spec fn workspace_named(key: char, set: Seq<char>) -> Seq<char> {
    seq![upper(key)] + set_suffix(set)
}

/// Whether `name` is made of `key` and the suffix of `set`.
pub open spec fn made_of(name: Seq<char>, key: Seq<char>, set: Seq<char>) -> bool {
    name == key + set_suffix(set)
}

/// Whether a workspace belongs to a set: something stands before the suffix.
pub open spec fn belongs(name: Seq<char>, set: Seq<char>) -> bool {
    exists|key: Seq<char>| key.len() > 0 && #[trigger] made_of(name, key, set)
}

/// The key that reaches a workspace of `set`: the single character before the
/// suffix.
pub open spec fn key_of(name: Seq<char>, set: Seq<char>) -> Option<char> {
    if name.len() > 0 && made_of(name, seq![name[0]], set) {
        Some(name[0])
    } else {
        None
    }
}

/// The workspace to show on a monitor taking over `set`.
pub open spec fn visible_or_home_named(
    inherited: Option<Seq<char>>,
    remembered: Option<Seq<char>>,
    set: Seq<char>,
) -> Seq<char> {
    if inherited is Some && belongs(inherited->0, set) {
        inherited->0
    } else if remembered is Some && belongs(remembered->0, set) {
        remembered->0
    } else {
        workspace_named('A', set)
    }
}

/// The identifier of a monitor.
pub open spec fn monitor_identified(
    make: Seq<char>,
    model: Seq<char>,
    serial: Seq<char>,
) -> Seq<char> {
    make + seq![' '] + model + seq![' '] + serial
}

/// The name of workspace `key` in `set`.
pub fn workspace_name(key: char, set: &str) -> (r: String)
    ensures
        r@ == workspace_named(key, set@),
{
    let mut name = String::new();
    name.push(to_upper(key));
    name.push('(');
    name.append(set);
    name.push(')');
    assert(name@ == workspace_named(key, set@));
    name
}

/// How many characters of a name stand before the suffix of `set`, where the
/// name ends in it.
fn key_len(name: &Vec<char>, set: &str) -> (r: Option<usize>)
    ensures
        match r {
            Some(n) => n <= name@.len() && made_of(name@, name@.take(n as int), set@),
            None => forall|key: Seq<char>| !#[trigger] made_of(name@, key, set@),
        },
{
    let mut suffix: Vec<char> = Vec::new();
    suffix.push('(');
    let mut middle = chars_of(set);
    suffix.append(&mut middle);
    suffix.push(')');
    assert(suffix@ == set_suffix(set@));
    if suffix.len() > name.len() {
        return None;
    }
    let len: usize = name.len();
    let n: usize = len - suffix.len();
    let mut i: usize = 0;
    while i < suffix.len()
        invariant
            i <= suffix@.len(),
            len == name@.len(),
            n + suffix@.len() == len,
            suffix@ == set_suffix(set@),
            forall|j: int| 0 <= j < i ==> #[trigger] suffix@[j] == name@[n + j],
        decreases suffix.len() - i,
    {
        if suffix[i] != name[n + i] {
            assert forall|key: Seq<char>| !#[trigger] made_of(name@, key, set@) by {
                if made_of(name@, key, set@) {
                    assert(key.len() == n);
                    assert((key + set_suffix(set@))[n + i] == suffix@[i as int]);
                }
            }
            return None;
        }
        i += 1;
    }
    assert(name@ == name@.take(n as int) + suffix@);
    Some(n)
}

/// The key a workspace of `set` is reached by, for the single-character
/// keys `switch` and `pin` take. A hand-made name like `foo(bar)(main)`
/// has no such key.
pub fn workspace_key(ws_name: &str, set: &str) -> (r: Option<char>)
    ensures
        r == key_of(ws_name@, set@),
{
    let name = chars_of(ws_name);
    match key_len(&name, set) {
        Some(n) => {
            if n == 1 {
                assert(name@.take(1) == seq![name@[0]]);
                Some(name[0])
            } else {
                proof {
                    if name@.len() > 0 && made_of(name@, seq![name@[0]], set@) {
                        assert((seq![name@[0]] + set_suffix(set@)).len() == (name@.take(n as int)
                            + set_suffix(set@)).len());
                    }
                }
                None
            }
        },
        None => None,
    }
}

/// Check if workspace name belongs to a set: matches pattern `*(<set>)`
pub fn workspace_belongs_to_set(ws_name: &str, set_name: &str) -> (r: bool)
    ensures
        r == belongs(ws_name@, set_name@),
{
    let name = chars_of(ws_name);
    match key_len(&name, set_name) {
        Some(n) => {
            proof {
                if n > 0 {
                    assert(name@.take(n as int).len() > 0);
                } else {
                    assert forall|key: Seq<char>| key.len() > 0 implies !#[trigger] made_of(
                        name@,
                        key,
                        set_name@,
                    ) by {
                        assert((key + set_suffix(set_name@)).len() > set_suffix(set_name@).len());
                        assert((name@.take(0) + set_suffix(set_name@)).len() == set_suffix(
                            set_name@,
                        ).len());
                    }
                }
            }
            n > 0
        },
        None => false,
    }
}

/// The workspace to show on a monitor taking over `set`: the one it
/// inherits, if that belongs to the set; otherwise where the set was last
/// left; otherwise the set's `A`.
pub fn visible_or_home(inherited: Option<&str>, remembered: Option<&str>, set: &str) -> (r: String)
    ensures
        r@ == visible_or_home_named(view_of_str(inherited), view_of_str(remembered), set@),
{
    if let Some(name) = inherited {
        if workspace_belongs_to_set(name, set) {
            return name.to_owned();
        }
    }
    if let Some(name) = remembered {
        if workspace_belongs_to_set(name, set) {
            return name.to_owned();
        }
    }
    workspace_name('A', set)
}

/// The identifier sway and kanshi match monitors on.
pub fn monitor_id(make: &str, model: &str, serial: &str) -> (r: String)
    ensures
        r@ == monitor_identified(make@, model@, serial@),
{
    let mut id = make.to_owned();
    id.push(' ');
    id.append(model);
    id.push(' ');
    id.append(serial);
    assert(id@ == monitor_identified(make@, model@, serial@));
    id
}

/// The workspace named for a key and a set belongs to the set, and is reached
/// by the key in upper case.
pub proof fn law_named_workspace_belongs_to_its_set(key: char, set: Seq<char>)
    ensures
        belongs(workspace_named(key, set), set),
        key_of(workspace_named(key, set), set) == Some(upper(key)),
{
    assert(made_of(workspace_named(key, set), seq![upper(key)], set));
}

/// A workspace that a key reaches belongs to the set.
pub proof fn law_keyed_workspace_belongs_to_its_set(name: Seq<char>, set: Seq<char>)
    requires
        key_of(name, set) is Some,
    ensures
        belongs(name, set),
{
    assert(made_of(name, seq![name[0]], set));
}

/// Membership is read from the end: whatever stands before the suffix of a
/// set, the workspace belongs to that set.
pub proof fn law_membership_reads_from_the_end(key: Seq<char>, set: Seq<char>)
    requires
        key.len() > 0,
    ensures
        belongs(key + set_suffix(set), set),
{
    assert(made_of(key + set_suffix(set), key, set));
}

/// A workspace belongs to at most one set whose name has no opening
/// parenthesis.
pub proof fn law_workspace_belongs_to_one_plain_set(name: Seq<char>, s: Seq<char>, t: Seq<char>)
    requires
        belongs(name, s),
        belongs(name, t),
        !s.contains('('),
        !t.contains('('),
    ensures
        s == t,
{
    let a = choose|key: Seq<char>| key.len() > 0 && #[trigger] made_of(name, key, s);
    let b = choose|key: Seq<char>| key.len() > 0 && #[trigger] made_of(name, key, t);
    lemma_no_longer(name, a, b, s, t);
    lemma_no_longer(name, b, a, t, s);
    assert(a.len() == b.len());
    assert((a + set_suffix(s)).len() == (b + set_suffix(t)).len());
    assert forall|i: int| 0 <= i < s.len() implies s[i] == t[i] by {
        assert((a + set_suffix(s))[a.len() + 1 + i] == s[i]);
        assert((b + set_suffix(t))[b.len() + 1 + i] == t[i]);
    }
    assert(s == t);
}

proof fn lemma_no_longer(
    name: Seq<char>,
    a: Seq<char>,
    b: Seq<char>,
    s: Seq<char>,
    t: Seq<char>,
)
    requires
        made_of(name, a, s),
        made_of(name, b, t),
        !t.contains('('),
    ensures
        a.len() <= b.len(),
{
    assert((a + set_suffix(s)).len() == a.len() + s.len() + 2);
    assert((b + set_suffix(t)).len() == b.len() + t.len() + 2);
    if b.len() < a.len() {
        assert((a + set_suffix(s))[a.len() as int] == '(');
        let i = a.len() - b.len() - 1;
        assert((b + set_suffix(t))[a.len() as int] == t[i]);
    }
}

/// The parking workspace belongs to no set.
pub proof fn law_parking_belongs_to_no_set(set: Seq<char>)
    ensures
        !belongs(PARKING_WORKSPACE@, set),
{
    reveal_strlit("_");
    assert forall|key: Seq<char>| key.len() > 0 implies !#[trigger] made_of(
        PARKING_WORKSPACE@,
        key,
        set,
    ) by {
        assert((key + set_suffix(set)).len() == key.len() + set.len() + 2);
    }
}

/// The workspace shown on a monitor taking over a set belongs to the set.
pub proof fn law_visible_or_home_belongs_to_the_set(
    inherited: Option<Seq<char>>,
    remembered: Option<Seq<char>>,
    set: Seq<char>,
)
    ensures
        belongs(visible_or_home_named(inherited, remembered, set), set),
{
    law_named_workspace_belongs_to_its_set('A', set);
}

/// A set reopens where it was left, unless the monitor that takes it over
/// already shows a workspace of it; a set that was never left reopens at its
/// `A`.
pub proof fn law_set_reopens_where_it_was_left(
    last: TextMap,
    set: Seq<char>,
    left: Seq<char>,
    inherited: Option<Seq<char>>,
)
    requires
        belongs(left, set),
        inherited is Some ==> !belongs(inherited->0, set),
    ensures
        visible_or_home_named(inherited, last.insert(set, left).get(set), set) == left,
        !last.contains_key(set) ==> visible_or_home_named(inherited, last.get(set), set)
            == workspace_named('A', set),
{
}

/// What a monitor taking over a set shows: the workspace that it inherits, if
/// that is one of the set; else the one where the set was left, if that is;
/// else its `A`.
pub proof fn law_set_opens_at_what_is_inherited_or_left(
    inherited: Option<Seq<char>>,
    left: Option<Seq<char>>,
    set: Seq<char>,
)
    ensures
        ({
            let shown = visible_or_home_named(inherited, left, set);
            let home = seq!['A', '('] + set + seq![')'];
            let kept = inherited is Some && belongs(inherited->0, set);
            let returned = left is Some && belongs(left->0, set);
            &&& kept ==> shown == inherited->0
            &&& !kept && returned ==> shown == left->0
            &&& !kept && !returned ==> shown == home
        }),
{
    assert(workspace_named('A', set) == seq!['A', '('] + set + seq![')']);
}

/// A key reaches a workspace of a set exactly where it is the one character
/// before the set in brackets.
pub proof fn law_key_is_the_one_character_before_the_set(
    name: Seq<char>,
    set: Seq<char>,
    key: char,
)
    ensures
        key_of(name, set) == Some(key) <==> name == seq![key, '('] + set + seq![')'],
{
    assert(seq![key] + set_suffix(set) == seq![key, '('] + set + seq![')']);
    if name == seq![key, '('] + set + seq![')'] {
        assert(name[0] == key);
    }
}

/// A workspace belongs to a set exactly where its name ends in the set in
/// brackets and more stands before.
pub proof fn law_membership_is_read_off_the_name(name: Seq<char>, set: Seq<char>)
    ensures
        belongs(name, set) <==> {
            &&& name.len() > set.len() + 2
            &&& name.skip(name.len() - set.len() - 2) == seq!['('] + set + seq![')']
        },
{
    let n = name.len() - set.len() - 2;
    if belongs(name, set) {
        let key = choose|key: Seq<char>| key.len() > 0 && #[trigger] made_of(name, key, set);
        assert(name.len() == key.len() + set.len() + 2);
        assert(name.skip(n) == set_suffix(set));
    }
    if name.len() > set.len() + 2 && name.skip(n) == seq!['('] + set + seq![')'] {
        assert(name == name.take(n) + name.skip(n));
        assert(made_of(name, name.take(n), set));
    }
}

} // verus!
