//! A session carries out one command, a request at a time.

use crate::command::{obey, obey_program, Command, Intent};
use crate::dialogue::{keeps, Dialogue, Failure, Halt, Reply, Request, Stop, Talk};
use crate::resume::lemma_obey_steady;
use vstd::prelude::*;

verus! {

/// A command and the replies given so far to what it asked.
pub struct Session {
    command: Command,
    replies: Vec<Reply>,
}

/// A `Session` by its contents.
pub struct Course {
    pub intent: Intent,
    pub replies: Seq<Reply>,
}

impl View for Session {
    type V = Course;

    closed spec fn view(&self) -> Course {
        Course { intent: self.command@, replies: self.replies@ }
    }
}

/// What a session needs next.
#[derive(Debug)]
pub enum Next {
    /// This is to be done, and the session told the reply.
    Ask(Request),
    /// Nothing: the command has been carried out.
    Done,
    /// Nothing: the command failed.
    Failed(Failure),
}

impl Course {
    /// What has been asked, and what has come of it.
    pub open spec fn so_far(self) -> (Dialogue, Result<(), Halt>) {
        obey_program(self.intent)(Dialogue { replies: self.replies, asked: seq![] })
    }

    /// The session with one more reply.
    pub open spec fn with(self, reply: Reply) -> Course {
        Course { replies: self.replies.push(reply), ..self }
    }
}

impl Session {
    /// A session in which nothing has been asked.
    pub fn new(command: Command) -> (r: Session)
        ensures
            r@ == (Course { intent: command@, replies: seq![] }),
    {
        Session { command, replies: Vec::new() }
    }

    /// What is needed next: a request that has had no reply yet, or nothing
    /// where the command has been carried out or has failed.
    pub fn next(&self) -> (r: Next)
        ensures
            match r {
                Next::Ask(request) => {
                    &&& self@.so_far().1 == Err::<(), Halt>(Halt::Waiting)
                    &&& self@.so_far().0.asked.len() == self@.replies.len() + 1
                    &&& self@.so_far().0.asked.last() == request@
                },
                Next::Done => self@.so_far().1 == Ok::<(), Halt>(()),
                Next::Failed(e) => self@.so_far().1 == Err::<(), Halt>(Halt::Failed(e@)),
            },
    {
        let mut talk = Talk::new(&self.replies);
        let ghost start = talk@;
        let r = obey(&mut talk, &self.command);
        match r {
            Ok(()) => Next::Done,
            Err(Stop::Failed(e)) => Next::Failed(e),
            Err(Stop::Waiting) => {
                proof {
                    let p = obey_program(self.command@);
                    lemma_obey_steady(self.command@);
                    assert(keeps(start, Reply::Done, p(start), p(start.with(Reply::Done))));
                }
                match talk.last_request() {
                    Some(request) => Next::Ask(request),
                    None => Next::Done,
                }
            },
        }
    }

    /// Tells the session the reply to what it asked.
    pub fn answer(&mut self, reply: Reply)
        ensures
            final(self)@ == old(self)@.with(reply),
    {
        self.replies.push(reply);
    }
}

/// A session goes on from where it stopped: one more reply takes back nothing
/// that it has asked, and asks nothing more of a session that has come to its
/// end, nor changes what came of it.
pub proof fn law_session_goes_on_from_where_it_stopped(course: Course, reply: Reply)
    ensures
        match course.so_far().1 {
            Err(Halt::Waiting) => course.so_far().0.asked.is_prefix_of(
                course.with(reply).so_far().0.asked,
            ),
            _ => {
                &&& course.with(reply).so_far().0.asked == course.so_far().0.asked
                &&& course.with(reply).so_far().1 == course.so_far().1
            },
        },
{
    let p = obey_program(course.intent);
    let d = Dialogue { replies: course.replies, asked: seq![] };
    lemma_obey_steady(course.intent);
    assert(keeps(d, reply, p(d), p(d.with(reply))));
}

/// A session that waits has one reply for each request but the last.
pub proof fn law_waiting_session_has_one_request_unanswered(course: Course)
    ensures
        course.so_far().1 == Err::<(), Halt>(Halt::Waiting) ==> course.so_far().0.asked.len()
            == course.replies.len() + 1,
{
    let p = obey_program(course.intent);
    let d = Dialogue { replies: course.replies, asked: seq![] };
    lemma_obey_steady(course.intent);
    assert(keeps(d, Reply::Done, p(d), p(d.with(Reply::Done))));
}

} // verus!
