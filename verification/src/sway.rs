//! The commands given to sway and the notifications shown to the user.

use crate::text::{
    decimal, integer, law_integer_is_injective, lemma_integer_ends_in_digit,
    lemma_integer_has_no_bracket, push_decimal, push_integer, same_text,
};
use crate::workspace::PARKING_WORKSPACE;
use vstd::prelude::*;
use vstd::string::StringExecFns;

verus! {

/// What selects one window in a command.
pub open spec fn window_criterion(con_id: i64) -> Seq<char> {
    "[con_id="@ + integer(con_id as int) + "]"@
}

/// Moves a window to a workspace.
pub open spec fn move_command(con_id: i64, workspace: Seq<char>) -> Seq<char> {
    window_criterion(con_id) + " move to workspace \""@ + workspace + "\""@
}

/// Makes a window float.
pub open spec fn float_command(con_id: i64) -> Seq<char> {
    window_criterion(con_id) + " floating enable"@
}

/// Moves a pinned window to a workspace.
pub open spec fn carry_command(con_id: i64, workspace: Seq<char>) -> Seq<char> {
    window_criterion(con_id) + " move container to workspace \""@ + workspace + "\""@
}

/// Swaps two windows.
pub open spec fn swap_command(con_id: i64, other: i64) -> Seq<char> {
    window_criterion(con_id) + " swap container with con_id "@ + integer(other as int)
}

/// Shows a workspace and lays it out.
pub open spec fn lay_out_command(workspace: Seq<char>, layout: Seq<char>) -> Seq<char> {
    "workspace \""@ + workspace + "\", layout "@ + layout
}

/// Switches to a workspace.
pub open spec fn switch_command(workspace: Seq<char>) -> Seq<char> {
    "workspace \""@ + workspace + "\""@
}

/// Moves the focused window to a workspace.
pub open spec fn send_command(workspace: Seq<char>) -> Seq<char> {
    "move container to workspace \""@ + workspace + "\""@
}

/// Moves a workspace to an output.
pub open spec fn bring_command(workspace: Seq<char>, output: Seq<char>) -> Seq<char> {
    "workspace \""@ + workspace + "\"; move workspace to output \""@ + output + "\""@
}

/// Shows a workspace on an output.
pub open spec fn show_command(output: Seq<char>, workspace: Seq<char>) -> Seq<char> {
    "focus output \""@ + output + "\"; workspace \""@ + workspace + "\""@
}

/// Splits the focused container as a layout has it.
pub open spec fn split_command(layout: Seq<char>) -> Seq<char> {
    if layout == "splitv"@ {
        "splitv"@
    } else if layout == "tabbed"@ {
        "layout tabbed"@
    } else if layout == "stacking"@ {
        "layout stacking"@
    } else {
        "splith"@
    }
}

/// Enters the mode that waits for the key to deliver to.
pub open spec fn deliver_mode() -> Seq<char> {
    "mode deliver"@
}

/// Returns to the default mode.
pub open spec fn default_mode() -> Seq<char> {
    "mode default"@
}

/// What is said once a set is frozen.
pub open spec fn iced_notice(set: Seq<char>, windows: nat) -> Seq<char> {
    if windows == 0 {
        "Ice: No windows in set '"@ + set + "'"@
    } else {
        "Iced: "@ + set + " ("@ + decimal(windows) + " windows)"@
    }
}

/// What is said once a set is thawed.
pub open spec fn thawed_notice(set: Seq<char>, restored: nat, total: nat) -> Seq<char> {
    "Thawed: "@ + set + " ("@ + decimal(restored) + "/"@ + decimal(total) + " windows)"@
}

/// What is said when there is no frozen set to thaw.
pub open spec fn not_iced_notice(set: Seq<char>) -> Seq<char> {
    "No iced set: "@ + set
}

/// What is said when a frozen set cannot be thawed.
pub open spec fn not_thawed_notice(set: Seq<char>) -> Seq<char> {
    "Failed to thaw: "@ + set
}

/// What is said once windows are delivered.
pub open spec fn delivered_notice(windows: nat, workspace: Seq<char>, frozen: bool) -> Seq<char> {
    "Moved "@ + decimal(windows) + " windows to "@ + workspace + if frozen {
        " (iced)"@
    } else {
        ""@
    }
}

/// What is said once a window is pinned.
pub open spec fn pinned_notice(key: char) -> Seq<char> {
    "Pinned to "@ + seq![key]
}

/// What selects one window in a command.
fn criterion(con_id: i64) -> (r: String)
    ensures
        r@ == window_criterion(con_id),
{
    let mut s = "[con_id=".to_owned();
    push_integer(&mut s, con_id);
    s.append("]");
    s
}

/// Moves a window to a workspace.
pub fn move_to(con_id: i64, workspace: &str) -> (r: String)
    ensures
        r@ == move_command(con_id, workspace@),
{
    let mut s = criterion(con_id);
    s.append(" move to workspace \"");
    s.append(workspace);
    s.append("\"");
    s
}

/// Makes a window float.
pub fn float(con_id: i64) -> (r: String)
    ensures
        r@ == float_command(con_id),
{
    let mut s = criterion(con_id);
    s.append(" floating enable");
    s
}

/// Moves a pinned window to a workspace.
pub fn carry_to(con_id: i64, workspace: &str) -> (r: String)
    ensures
        r@ == carry_command(con_id, workspace@),
{
    let mut s = criterion(con_id);
    s.append(" move container to workspace \"");
    s.append(workspace);
    s.append("\"");
    s
}

/// Swaps two windows.
pub fn swap_with(con_id: i64, other: i64) -> (r: String)
    ensures
        r@ == swap_command(con_id, other),
{
    let mut s = criterion(con_id);
    s.append(" swap container with con_id ");
    push_integer(&mut s, other);
    s
}

/// Shows a workspace and lays it out.
pub fn lay_out(workspace: &str, layout: &str) -> (r: String)
    ensures
        r@ == lay_out_command(workspace@, layout@),
{
    let mut s = "workspace \"".to_owned();
    s.append(workspace);
    s.append("\", layout ");
    s.append(layout);
    s
}

/// Switches to a workspace.
pub fn switch_to(workspace: &str) -> (r: String)
    ensures
        r@ == switch_command(workspace@),
{
    let mut s = "workspace \"".to_owned();
    s.append(workspace);
    s.append("\"");
    s
}

/// Moves the focused window to a workspace.
pub fn send_to(workspace: &str) -> (r: String)
    ensures
        r@ == send_command(workspace@),
{
    let mut s = "move container to workspace \"".to_owned();
    s.append(workspace);
    s.append("\"");
    s
}

/// Moves a workspace to an output.
pub fn bring_to(workspace: &str, output: &str) -> (r: String)
    ensures
        r@ == bring_command(workspace@, output@),
{
    let mut s = "workspace \"".to_owned();
    s.append(workspace);
    s.append("\"; move workspace to output \"");
    s.append(output);
    s.append("\"");
    s
}

/// Shows a workspace on an output.
pub fn show_on(output: &str, workspace: &str) -> (r: String)
    ensures
        r@ == show_command(output@, workspace@),
{
    let mut s = "focus output \"".to_owned();
    s.append(output);
    s.append("\"; workspace \"");
    s.append(workspace);
    s.append("\"");
    s
}

/// Splits the focused container as a layout has it.
pub fn split(layout: &str) -> (r: String)
    ensures
        r@ == split_command(layout@),
{
    if same_text(layout, "splitv") {
        "splitv".to_owned()
    } else if same_text(layout, "tabbed") {
        "layout tabbed".to_owned()
    } else if same_text(layout, "stacking") {
        "layout stacking".to_owned()
    } else {
        "splith".to_owned()
    }
}

/// What is said once a set is frozen.
pub fn say_iced(set: &str, windows: usize) -> (r: String)
    ensures
        r@ == iced_notice(set@, windows as nat),
{
    if windows == 0 {
        let mut s = "Ice: No windows in set '".to_owned();
        s.append(set);
        s.append("'");
        s
    } else {
        let mut s = "Iced: ".to_owned();
        s.append(set);
        s.append(" (");
        push_decimal(&mut s, windows as u128);
        s.append(" windows)");
        s
    }
}

/// What is said once a set is thawed.
pub fn say_thawed(set: &str, restored: usize, total: usize) -> (r: String)
    ensures
        r@ == thawed_notice(set@, restored as nat, total as nat),
{
    let mut s = "Thawed: ".to_owned();
    s.append(set);
    s.append(" (");
    push_decimal(&mut s, restored as u128);
    s.append("/");
    push_decimal(&mut s, total as u128);
    s.append(" windows)");
    s
}

/// What is said when there is no frozen set to thaw.
pub fn say_not_iced(set: &str) -> (r: String)
    ensures
        r@ == not_iced_notice(set@),
{
    let mut s = "No iced set: ".to_owned();
    s.append(set);
    s
}

/// What is said when a frozen set cannot be thawed.
pub fn say_not_thawed(set: &str) -> (r: String)
    ensures
        r@ == not_thawed_notice(set@),
{
    let mut s = "Failed to thaw: ".to_owned();
    s.append(set);
    s
}

/// What is said once windows are delivered.
pub fn say_delivered(windows: usize, workspace: &str, frozen: bool) -> (r: String)
    ensures
        r@ == delivered_notice(windows as nat, workspace@, frozen),
{
    let mut s = "Moved ".to_owned();
    push_decimal(&mut s, windows as u128);
    s.append(" windows to ");
    s.append(workspace);
    if frozen {
        s.append(" (iced)");
    } else {
        s.append("");
    }
    s
}

/// What is said once a window is pinned.
pub fn say_pinned(key: char) -> (r: String)
    ensures
        r@ == pinned_notice(key),
{
    let mut s = "Pinned to ".to_owned();
    s.push(key);
    assert(s@ == pinned_notice(key));
    s
}

/// The commands for different windows or workspaces differ.
pub proof fn lemma_move_command_injective(a: i64, b: i64, v: Seq<char>, w: Seq<char>)
    requires
        move_command(a, v) == move_command(b, w),
    ensures
        a == b,
        v == w,
{
    let head = "[con_id="@;
    let x = integer(a as int);
    let y = integer(b as int);
    let middle = "]"@ + " move to workspace \""@;
    reveal_strlit("]");
    assert(move_command(a, v) == head + x + middle + v + "\""@);
    assert(move_command(b, w) == head + y + middle + w + "\""@);
    assert(move_command(a, v)[(head.len() + x.len()) as int] == ']');
    assert(move_command(b, w)[(head.len() + y.len()) as int] == ']');
    lemma_integer_has_no_bracket(a as int);
    lemma_integer_has_no_bracket(b as int);
    if x.len() < y.len() {
        assert(move_command(b, w)[(head.len() + x.len()) as int] == y[x.len() as int]);
    } else if y.len() < x.len() {
        assert(move_command(a, v)[(head.len() + y.len()) as int] == x[y.len() as int]);
    }
    let n = (head.len() + x.len()) as int;
    assert(x == move_command(a, v).subrange(head.len() as int, n));
    assert(y == move_command(b, w).subrange(head.len() as int, n));
    law_integer_is_injective(a as int, b as int);
    let from = n + middle.len();
    let to = move_command(a, v).len() - "\""@.len();
    assert(v == move_command(a, v).subrange(from, to));
    assert(w == move_command(b, w).subrange(from, to));
}

/// Whether a command moves a window to a workspace.
pub open spec fn moves_window(command: Seq<char>) -> bool {
    exists|id: i64, workspace: Seq<char>| command == #[trigger] move_command(id, workspace)
}

/// The other commands that restore windows move none to a workspace.
pub proof fn lemma_restoring_without_moving(id: i64, workspace: Seq<char>, layout: Seq<char>)
    ensures
        !moves_window(float_command(id)),
        !moves_window(split_command(layout)),
        !moves_window(lay_out_command(workspace, layout)),
{
    reveal_strlit("[con_id=");
    reveal_strlit("\"");
    reveal_strlit(" floating enable");
    reveal_strlit("splitv");
    reveal_strlit("layout tabbed");
    reveal_strlit("layout stacking");
    reveal_strlit("splith");
    reveal_strlit("workspace \"");
    assert forall|a: i64, w: Seq<char>| {
        let command = #[trigger] move_command(a, w);
        command.len() > 0 && command[0] == '[' && command.last() == '"'
    } by {
        assert(window_criterion(a)[0] == '[');
    }
    assert(float_command(id).last() == 'e');
    assert(split_command(layout)[0] != '[');
    assert(lay_out_command(workspace, layout)[0] == 'w');
}

/// Whether a command parks a window.
pub open spec fn parks(command: Seq<char>) -> bool {
    exists|id: i64| command == #[trigger] move_command(id, PARKING_WORKSPACE@)
}

/// Whether the name of a workspace ends in a bracket, as that of every
/// workspace of a set does.
pub open spec fn bracketed(workspace: Seq<char>) -> bool {
    workspace.len() > 0 && workspace.last() == ')'
}

/// What tells the commands that park windows from all others: they begin with
/// a bracket and the last character but one is an underscore.
proof fn lemma_parking_command(command: Seq<char>)
    requires
        parks(command),
    ensures
        command.len() > 2,
        command[0] == '[',
        command[command.len() - 2] == '_',
{
    reveal_strlit("[con_id=");
    reveal_strlit("_");
    reveal_strlit("\"");
    let id = choose|id: i64| command == #[trigger] move_command(id, PARKING_WORKSPACE@);
    let front = window_criterion(id) + " move to workspace \""@;
    assert(command == front + PARKING_WORKSPACE@ + "\""@);
    assert(window_criterion(id)[0] == '[');
    assert(command[front.len() as int] == '_');
}

/// Moving a window to a workspace whose name ends in a bracket does not park
/// it.
pub broadcast proof fn lemma_moving_is_not_parking(id: i64, workspace: Seq<char>)
    requires
        bracketed(workspace),
    ensures
        !parks(#[trigger] move_command(id, workspace)),
        !parks(carry_command(id, workspace)),
{
    reveal_strlit("\"");
    let a = window_criterion(id) + " move to workspace \""@;
    let b = window_criterion(id) + " move container to workspace \""@;
    assert(move_command(id, workspace) == a + workspace + "\""@);
    assert(carry_command(id, workspace) == b + workspace + "\""@);
    assert((a + workspace + "\""@)[a.len() + workspace.len() - 1] == ')');
    assert((b + workspace + "\""@)[b.len() + workspace.len() - 1] == ')');
    if parks(move_command(id, workspace)) {
        lemma_parking_command(move_command(id, workspace));
    }
    if parks(carry_command(id, workspace)) {
        lemma_parking_command(carry_command(id, workspace));
    }
}

/// Carrying a window to a workspace whose name ends in a bracket does not park
/// it.
pub broadcast proof fn lemma_carrying_is_not_parking(id: i64, workspace: Seq<char>)
    requires
        bracketed(workspace),
    ensures
        !parks(#[trigger] carry_command(id, workspace)),
{
    lemma_moving_is_not_parking(id, workspace);
}

/// Making a window float does not park it.
pub broadcast proof fn lemma_floating_is_not_parking(id: i64)
    ensures
        !parks(#[trigger] float_command(id)),
{
    reveal_strlit(" floating enable");
    let n = window_criterion(id).len() as int;
    assert(float_command(id)[n + 14] == 'l');
    if parks(float_command(id)) {
        lemma_parking_command(float_command(id));
    }
}

/// Swapping windows does not park one.
pub broadcast proof fn lemma_swapping_is_not_parking(id: i64, other: i64)
    ensures
        !parks(#[trigger] swap_command(id, other)),
{
    reveal_strlit("\"");
    lemma_integer_ends_in_digit(other as int);
    let command = swap_command(id, other);
    assert(command.last() == integer(other as int).last());
    if parks(command) {
        let w = choose|w: i64| command == #[trigger] move_command(w, PARKING_WORKSPACE@);
        assert(command.last() == '"');
    }
}

/// Switching to a workspace parks no window.
pub broadcast proof fn lemma_switch_is_not_parking(workspace: Seq<char>)
    ensures
        !parks(#[trigger] switch_command(workspace)),
{
    reveal_strlit("workspace \"");
    let command = switch_command(workspace);
    assert(command[0] != '[');
    if parks(command) {
        lemma_parking_command(command);
    }
}

/// Moving the focused window does not park it.
pub broadcast proof fn lemma_send_is_not_parking(workspace: Seq<char>)
    ensures
        !parks(#[trigger] send_command(workspace)),
{
    reveal_strlit("move container to workspace \"");
    let command = send_command(workspace);
    assert(command[0] != '[');
    if parks(command) {
        lemma_parking_command(command);
    }
}

/// Laying a workspace out parks no window.
pub broadcast proof fn lemma_lay_out_is_not_parking(workspace: Seq<char>, layout: Seq<char>)
    ensures
        !parks(#[trigger] lay_out_command(workspace, layout)),
{
    reveal_strlit("workspace \"");
    let command = lay_out_command(workspace, layout);
    assert(command[0] != '[');
    if parks(command) {
        lemma_parking_command(command);
    }
}

/// Moving a workspace to an output parks no window.
pub broadcast proof fn lemma_bring_is_not_parking(workspace: Seq<char>, output: Seq<char>)
    ensures
        !parks(#[trigger] bring_command(workspace, output)),
{
    reveal_strlit("workspace \"");
    let command = bring_command(workspace, output);
    assert(command[0] != '[');
    if parks(command) {
        lemma_parking_command(command);
    }
}

/// Showing a workspace on an output parks no window.
pub broadcast proof fn lemma_show_is_not_parking(output: Seq<char>, workspace: Seq<char>)
    ensures
        !parks(#[trigger] show_command(output, workspace)),
{
    reveal_strlit("focus output \"");
    let command = show_command(output, workspace);
    assert(command[0] != '[');
    if parks(command) {
        lemma_parking_command(command);
    }
}

/// Splitting a container parks no window.
pub broadcast proof fn lemma_split_is_not_parking(layout: Seq<char>)
    ensures
        !parks(#[trigger] split_command(layout)),
{
    reveal_strlit("splitv");
    reveal_strlit("layout tabbed");
    reveal_strlit("layout stacking");
    reveal_strlit("splith");
    let command = split_command(layout);
    assert(command[0] != '[');
    if parks(command) {
        lemma_parking_command(command);
    }
}

/// Changing the mode parks no window.
pub proof fn lemma_modes_are_not_parking()
    ensures
        !parks(deliver_mode()),
        !parks(default_mode()),
{
    reveal_strlit("mode deliver");
    reveal_strlit("mode default");
    if parks(deliver_mode()) {
        lemma_parking_command(deliver_mode());
    }
    if parks(default_mode()) {
        lemma_parking_command(default_mode());
    }
}

/// The commands that park no window.
pub broadcast group group_not_parking {
    lemma_moving_is_not_parking,
    lemma_carrying_is_not_parking,
    lemma_floating_is_not_parking,
    lemma_swapping_is_not_parking,
    lemma_switch_is_not_parking,
    lemma_send_is_not_parking,
    lemma_lay_out_is_not_parking,
    lemma_bring_is_not_parking,
    lemma_show_is_not_parking,
    lemma_split_is_not_parking,
}

} // verus!
