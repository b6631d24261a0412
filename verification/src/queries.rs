//! The commands that only look.

use crate::command::{current_program, print_all_program, print_iced_program};
use crate::dialogue::{group_requests_steady, Ask, Dialogue, Reply};
use crate::resume::{
    lemma_assignments_steady, lemma_current_set_steady, lemma_focused_set_steady,
    lemma_list_iced_steady, lemma_list_sets_steady, lemma_load_steady, lemma_print_all_steady,
};
use crate::screens::{current_set_program, focused_set_program, load_program, Display};
use crate::session::Course;
use crate::state::{assignments_program, list_iced_program, list_sets_program};
use crate::trace::{any, group_requests_heed, heeded, heeds, Rule};
use vstd::prelude::*;

verus! {

/// Whether a request changes nothing in sway nor in the state files.
pub open spec fn only_looks(request: Ask) -> bool {
    match request {
        Ask::Run(_) => false,
        Ask::Write(_, _) => false,
        Ask::Remove(_) => false,
        Ask::WritePins(_) => false,
        Ask::WriteIce(_, _) => false,
        Ask::RemoveIce(_) => false,
        _ => true,
    }
}

/// Whatever is replied, nothing is changed.
pub open spec fn looking() -> Rule {
    Rule {
        relied: |request: Ask, reply: Reply| true,
        promised: |d: Dialogue, request: Ask| only_looks(request),
    }
}

proof fn lemma_load_looks()
    ensures
        heeds(load_program(), looking(), any()),
{
    broadcast use {group_requests_steady, group_requests_heed};

    lemma_assignments_steady();
    assert(heeds(assignments_program(), looking(), any()));
}

broadcast proof fn lemma_focused_set_looks(display: Display)
    ensures
        #[trigger] heeds(focused_set_program(display), looking(), any()),
{
    broadcast use {group_requests_steady, group_requests_heed};

    lemma_list_sets_steady();
    assert(heeds(list_sets_program(), looking(), any()));
}

proof fn lemma_current_looks()
    ensures
        heeds(current_program(), looking(), any()),
{
    broadcast use {
        group_requests_steady,
        group_requests_heed,
        lemma_focused_set_steady,
        lemma_focused_set_looks,
    };

    lemma_load_steady();
    lemma_load_looks();
    lemma_current_set_steady();
    assert(heeds(current_set_program(), looking(), any()));
}

broadcast proof fn lemma_print_all_looks(lines: Seq<Seq<char>>)
    ensures
        #[trigger] heeds(print_all_program(lines), looking(), any()),
    decreases lines.len(),
{
    broadcast use {group_requests_steady, group_requests_heed, lemma_print_all_steady};

    if lines.len() > 0 {
        lemma_print_all_looks(lines.drop_last());
    }
}

proof fn lemma_print_iced_looks()
    ensures
        heeds(print_iced_program(), looking(), any()),
{
    broadcast use {
        group_requests_steady,
        group_requests_heed,
        lemma_print_all_steady,
        lemma_print_all_looks,
    };

    lemma_list_iced_steady();
    assert(heeds(list_iced_program(), looking(), any()));
}

/// Printing the focused monitor's set or the frozen sets changes nothing.
pub proof fn law_looking_changes_nothing(course: Course, i: int)
    requires
        course.intent is Current || course.intent is ListIced,
        0 <= i < course.so_far().0.asked.len(),
    ensures
        only_looks(course.so_far().0.asked[i]),
{
    let d = Dialogue { replies: course.replies, asked: seq![] };
    assert(d.answered());
    if course.intent is Current {
        lemma_current_looks();
        assert(heeded(d, current_program()(d), looking(), any()));
    } else {
        lemma_print_iced_looks();
        assert(heeded(d, print_iced_program()(d), looking(), any()));
    }
}

} // verus!
