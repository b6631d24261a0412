//! The dialogue with the world outside: what is asked of sway, the state
//! files and the user, and what they reply.
//!
//! An operation never reaches outside itself. It asks for what it needs, and
//! when the reply is not there yet, it stops. Once the reply has been added
//! to those given before, the operation is run again from its start: it asks
//! for the same things in the same order, finds their replies, and goes on
//! from where it stopped.

use crate::pins::Pin;
use crate::snapshot::{shots, Snapshot, WorkspaceSnapshot};
use crate::text::views;
use crate::tree::Node;
use vstd::prelude::*;
use vstd::string::StringExecFns;

verus! {

/// A text file among the state files.
#[derive(Debug, Clone, Copy, PartialEq, Eq, Structural)]
pub enum File {
    /// The set shown on each monitor.
    Assignments,
    /// The known sets.
    Sets,
    /// The workspace each set was last left at.
    Last,
    /// The set that windows are to be delivered to.
    Pending,
}

/// An output as sway reports it.
#[derive(Debug)]
pub struct Output {
    pub make: String,
    pub model: String,
    pub serial: String,
    /// Connector name, e.g. DP-2; what sway commands take.
    pub name: String,
    pub active: bool,
    pub focused: bool,
    pub current_workspace: Option<String>,
}

/// A workspace as sway reports it.
#[derive(Debug)]
pub struct Workspace {
    pub name: String,
    pub output: String,
}

/// What is asked of the world outside.
#[derive(Debug)]
pub enum Request {
    /// The outputs: `Reply::Outputs`.
    Outputs,
    /// The workspaces: `Reply::Workspaces`.
    Workspaces,
    /// The tree of windows: `Reply::Tree`.
    Tree,
    /// To run a list of sway commands: `Reply::Ran`.
    Run(String),
    /// The contents of a file: `Reply::Text` or `Reply::Missing`.
    Read(File),
    /// To store a file: `Reply::Done`.
    Write(File, String),
    /// To remove a file, if there is one: `Reply::Done`.
    Remove(File),
    /// The stored pins: `Reply::Pins`.
    ReadPins,
    /// To store the pins: `Reply::Done`.
    WritePins(Vec<Pin>),
    /// The names of the files in the directory of frozen sets:
    /// `Reply::Names` or `Reply::Missing`.
    ListIced,
    /// The snapshots in a file of that directory: `Reply::Snapshots`.
    ReadIce(String),
    /// To store snapshots in a file of that directory: `Reply::Done`.
    WriteIce(String, Vec<WorkspaceSnapshot>),
    /// To remove a file of that directory, if there is one: `Reply::Done`.
    RemoveIce(String),
    /// To let the user choose one of the lines: `Reply::Text`.
    Select { prompt: String, options: String },
    /// To show the user a notification: any reply.
    Notify(String),
    /// To print a line: `Reply::Done`.
    Print(String),
}

/// What the world outside replies to a request.
#[derive(Debug)]
pub enum Reply {
    Outputs(Vec<Output>),
    Workspaces(Vec<Workspace>),
    Tree(Node),
    /// For each command whether it succeeded.
    Ran(Vec<bool>),
    Text(String),
    Pins(Vec<Pin>),
    Names(Vec<String>),
    Snapshots(Vec<WorkspaceSnapshot>),
    Done,
    /// There is nothing of that name.
    Missing,
    /// The request could not be met.
    Failed,
}

/// Why an operation fails.
#[derive(Debug)]
pub enum Failure {
    /// A request could not be met.
    Request,
    /// The reply is not one to the request.
    Unexpected,
    /// Sway refused a command.
    Refused(String),
    /// The stored assignments cannot be read.
    Corrupt(serde_json::Error),
    /// No output has the focus.
    NoFocusedOutput,
    /// The monitor of this identifier is not connected.
    NotConnected(String),
    /// No window has the focus, so none can be pinned.
    NoWindowToPin,
    /// No window has the focus, so none can be unpinned.
    NoWindowToUnpin,
    /// The focused workspace is not reached by a single-character key.
    NoKey,
}

/// Why an operation does not go on.
#[derive(Debug)]
pub enum Stop {
    /// The reply to the last request is not there yet.
    Waiting,
    Failed(Failure),
}

/// A `Request` by its contents.
pub enum Ask {
    Outputs,
    Workspaces,
    Tree,
    Run(Seq<char>),
    Read(File),
    Write(File, Seq<char>),
    Remove(File),
    ReadPins,
    WritePins(Seq<Pin>),
    ListIced,
    ReadIce(Seq<char>),
    WriteIce(Seq<char>, Seq<Snapshot>),
    RemoveIce(Seq<char>),
    Select { prompt: Seq<char>, options: Seq<char> },
    Notify(Seq<char>),
    Print(Seq<char>),
}

/// A `Failure` by its contents; the cause of a corrupt file aside.
pub enum Fault {
    Request,
    Unexpected,
    Refused(Seq<char>),
    Corrupt,
    NoFocusedOutput,
    NotConnected(Seq<char>),
    NoWindowToPin,
    NoWindowToUnpin,
    NoKey,
}

/// A `Stop` by its contents.
pub enum Halt {
    Waiting,
    Failed(Fault),
}

impl View for Request {
    type V = Ask;

    open spec fn view(&self) -> Ask {
        match self {
            Request::Outputs => Ask::Outputs,
            Request::Workspaces => Ask::Workspaces,
            Request::Tree => Ask::Tree,
            Request::Run(command) => Ask::Run(command@),
            Request::Read(file) => Ask::Read(*file),
            Request::Write(file, text) => Ask::Write(*file, text@),
            Request::Remove(file) => Ask::Remove(*file),
            Request::ReadPins => Ask::ReadPins,
            Request::WritePins(pins) => Ask::WritePins(pins@),
            Request::ListIced => Ask::ListIced,
            Request::ReadIce(name) => Ask::ReadIce(name@),
            Request::WriteIce(name, snapshots) => Ask::WriteIce(name@, shots(snapshots@)),
            Request::RemoveIce(name) => Ask::RemoveIce(name@),
            Request::Select { prompt, options } => Ask::Select {
                prompt: prompt@,
                options: options@,
            },
            Request::Notify(message) => Ask::Notify(message@),
            Request::Print(line) => Ask::Print(line@),
        }
    }
}

impl View for Failure {
    type V = Fault;

    open spec fn view(&self) -> Fault {
        match self {
            Failure::Request => Fault::Request,
            Failure::Unexpected => Fault::Unexpected,
            Failure::Refused(command) => Fault::Refused(command@),
            Failure::Corrupt(_) => Fault::Corrupt,
            Failure::NoFocusedOutput => Fault::NoFocusedOutput,
            Failure::NotConnected(id) => Fault::NotConnected(id@),
            Failure::NoWindowToPin => Fault::NoWindowToPin,
            Failure::NoWindowToUnpin => Fault::NoWindowToUnpin,
            Failure::NoKey => Fault::NoKey,
        }
    }
}

impl View for Stop {
    type V = Halt;

    open spec fn view(&self) -> Halt {
        match self {
            Stop::Waiting => Halt::Waiting,
            Stop::Failed(e) => Halt::Failed(e@),
        }
    }
}

/// The replies given so far, and what has been asked.
pub struct Dialogue {
    pub replies: Seq<Reply>,
    pub asked: Seq<Ask>,
}

impl Dialogue {
    /// The dialogue with one more reply.
    pub open spec fn with(self, reply: Reply) -> Dialogue {
        Dialogue { replies: self.replies.push(reply), ..self }
    }

    /// Whether everything asked has its reply.
    pub open spec fn answered(self) -> bool {
        self.asked.len() <= self.replies.len()
    }
}

/// What an operation does to the dialogue, and what comes of it.
pub type Program<A> = spec_fn(Dialogue) -> (Dialogue, Result<A, Halt>);

/// Does nothing, with a given result.
pub open spec fn give<A>(result: Result<A, Halt>) -> Program<A> {
    |d: Dialogue| (d, result)
}

/// Does one thing and, if it succeeds, another that depends on its result.
pub open spec fn bind<A, B>(p: Program<A>, f: spec_fn(A) -> Program<B>) -> Program<B> {
    |d: Dialogue|
        match p(d) {
            (e, Ok(a)) => f(a)(e),
            (e, Err(halt)) => (e, Err(halt)),
        }
}

/// Does something that may fail, and goes on without its result if it does.
pub open spec fn caught<A>(p: Program<A>) -> Program<Option<A>> {
    |d: Dialogue|
        match p(d) {
            (e, Ok(a)) => (e, Ok(Some(a))),
            (e, Err(Halt::Failed(_))) => (e, Ok(None)),
            (e, Err(Halt::Waiting)) => (e, Err(Halt::Waiting)),
        }
}

/// Asks for one thing and waits for its reply.
pub open spec fn ask(request: Ask) -> Program<Reply> {
    |d: Dialogue|
        {
            let e = Dialogue { asked: d.asked.push(request), ..d };
            if e.answered() {
                (e, Ok(e.replies[e.asked.len() - 1]))
            } else {
                (e, Err(Halt::Waiting))
            }
        }
}

/// The fault in a reply that the request does not allow for.
pub open spec fn fault_in(reply: Reply) -> Halt {
    match reply {
        Reply::Failed => Halt::Failed(Fault::Request),
        Reply::Missing => Halt::Failed(Fault::Request),
        _ => Halt::Failed(Fault::Unexpected),
    }
}

/// Asks for something to be done.
pub open spec fn perform(request: Ask) -> Program<()> {
    bind(
        ask(request),
        |reply: Reply|
            give(
                match reply {
                    Reply::Done => Ok(()),
                    _ => Err(fault_in(reply)),
                },
            ),
    )
}

/// Asks for something whose success does not matter.
pub open spec fn tell(request: Ask) -> Program<()> {
    bind(ask(request), |reply: Reply| give(Ok(())))
}

/// Whether every command succeeded.
pub open spec fn all_succeeded(outcomes: Seq<bool>) -> bool {
    forall|i: int| 0 <= i < outcomes.len() ==> #[trigger] outcomes[i]
}

/// Runs sway commands, failing if any of them fails.
pub open spec fn run_program(command: Seq<char>) -> Program<()> {
    bind(
        ask(Ask::Run(command)),
        |reply: Reply|
            give(
                match reply {
                    Reply::Ran(outcomes) => if all_succeeded(outcomes@) {
                        Ok(())
                    } else {
                        Err(Halt::Failed(Fault::Refused(command)))
                    },
                    _ => Err(fault_in(reply)),
                },
            ),
    )
}

/// Gives sway commands, failing if they do not reach it.
pub open spec fn order_program(command: Seq<char>) -> Program<()> {
    bind(
        ask(Ask::Run(command)),
        |reply: Reply|
            give(
                match reply {
                    Reply::Ran(_) => Ok(()),
                    _ => Err(fault_in(reply)),
                },
            ),
    )
}

/// Gives sway commands and tells whether they reached it.
pub open spec fn attempt_program(command: Seq<char>) -> Program<bool> {
    bind(ask(Ask::Run(command)), |reply: Reply| give(Ok(reply is Ran)))
}

/// Runs sway commands one after another, failing at the first that fails.
pub open spec fn run_all_program(commands: Seq<Seq<char>>) -> Program<()>
    decreases commands.len(),
{
    if commands.len() == 0 {
        give(Ok(()))
    } else {
        bind(run_all_program(commands.drop_last()), |u: ()| run_program(commands.last()))
    }
}

/// Whether the result of an operation is the one that its program has.
pub open spec fn same<T, U>(r: Result<T, Stop>, o: Result<U, Halt>, f: spec_fn(T) -> U) -> bool {
    match (r, o) {
        (Ok(a), Ok(b)) => f(a) == b,
        (Err(stop), Err(halt)) => stop@ == halt,
        _ => false,
    }
}

/// Whether an operation did what its program does: it left the dialogue as the
/// program does, with the result that the program has.
pub open spec fn did<T, U>(
    p: Program<U>,
    before: Dialogue,
    after: Dialogue,
    r: Result<T, Stop>,
    f: spec_fn(T) -> U,
) -> bool {
    &&& after == p(before).0
    &&& same(r, p(before).1, f)
}

/// What one more reply does to an operation: what it asked it still asks
/// first, and once it has come to an end, it does nothing else.
pub open spec fn keeps<A>(
    d: Dialogue,
    reply: Reply,
    now: (Dialogue, Result<A, Halt>),
    later: (Dialogue, Result<A, Halt>),
) -> bool {
    &&& now.0.replies == d.replies
    &&& d.asked.is_prefix_of(now.0.asked)
    &&& match now.1 {
        Err(Halt::Waiting) => {
            &&& now.0.asked.len() == d.replies.len() + 1
            &&& now.0.asked.is_prefix_of(later.0.asked)
        },
        _ => now.0.answered() && later == (now.0.with(reply), now.1),
    }
}

/// Whether an operation can be run again with one more reply and go on from
/// where it stopped.
pub open spec fn steady<A>(p: Program<A>) -> bool {
    forall|d: Dialogue, reply: Reply|
        #![trigger p(d.with(reply))]
        d.answered() ==> keeps(d, reply, p(d), p(d.with(reply)))
}

pub broadcast proof fn lemma_give_steady<A>(result: Result<A, Halt>)
    requires
        result != Err::<A, Halt>(Halt::Waiting),
    ensures
        #[trigger] steady(give(result)),
{
    assert forall|d: Dialogue, reply: Reply| d.answered() implies keeps(
        d,
        reply,
        give(result)(d),
        #[trigger] give(result)(d.with(reply)),
    ) by {}
}

pub broadcast proof fn lemma_ask_steady(request: Ask)
    ensures
        #[trigger] steady(ask(request)),
{
    let p = ask(request);
    assert forall|d: Dialogue, reply: Reply| d.answered() implies keeps(
        d,
        reply,
        p(d),
        #[trigger] p(d.with(reply)),
    ) by {
        let e = d.asked.push(request);
        assert(p(d).0.asked == e);
        assert(p(d.with(reply)).0.asked == e);
        assert(d.asked.is_prefix_of(e));
    }
}

pub broadcast proof fn lemma_bind_steady<A, B>(p: Program<A>, f: spec_fn(A) -> Program<B>)
    requires
        steady(p),
        forall|a: A| steady(#[trigger] f(a)),
    ensures
        #[trigger] steady(bind(p, f)),
{
    let q = bind(p, f);
    assert forall|d: Dialogue, reply: Reply| d.answered() implies keeps(
        d,
        reply,
        q(d),
        #[trigger] q(d.with(reply)),
    ) by {
        assert(keeps(d, reply, p(d), p(d.with(reply))));
        let (e, r) = p(d);
        match r {
            Ok(a) => {
                assert(steady(f(a)));
                assert(keeps(e, reply, f(a)(e), f(a)(e.with(reply))));
            },
            Err(Halt::Waiting) => {
                let (e2, r2) = p(d.with(reply));
                assert(keeps(d.with(reply), reply, p(d.with(reply)), p(d.with(reply).with(reply))));
                if let Ok(a) = r2 {
                    assert(steady(f(a)));
                    assert(keeps(e2, reply, f(a)(e2), f(a)(e2.with(reply))));
                }
            },
            Err(_) => {},
        }
    }
}

pub broadcast proof fn lemma_caught_steady<A>(p: Program<A>)
    requires
        steady(p),
    ensures
        #[trigger] steady(caught(p)),
{
    let q = caught(p);
    assert forall|d: Dialogue, reply: Reply| d.answered() implies keeps(
        d,
        reply,
        q(d),
        #[trigger] q(d.with(reply)),
    ) by {
        assert(keeps(d, reply, p(d), p(d.with(reply))));
    }
}

/// What is steady of programs made of steady ones.
pub broadcast group group_steady {
    lemma_caught_steady,
    lemma_give_steady,
    lemma_ask_steady,
    lemma_bind_steady,
}

pub broadcast proof fn lemma_perform_steady(request: Ask)
    ensures
        #[trigger] steady(perform(request)),
{
    broadcast use group_steady;

}

pub broadcast proof fn lemma_tell_steady(request: Ask)
    ensures
        #[trigger] steady(tell(request)),
{
    broadcast use group_steady;

}

pub broadcast proof fn lemma_run_steady(command: Seq<char>)
    ensures
        #[trigger] steady(run_program(command)),
{
    broadcast use group_steady;

}

pub broadcast proof fn lemma_order_steady(command: Seq<char>)
    ensures
        #[trigger] steady(order_program(command)),
{
    broadcast use group_steady;

}

pub broadcast proof fn lemma_attempt_steady(command: Seq<char>)
    ensures
        #[trigger] steady(attempt_program(command)),
{
    broadcast use group_steady;

}

pub broadcast proof fn lemma_run_all_steady(commands: Seq<Seq<char>>)
    ensures
        #[trigger] steady(run_all_program(commands)),
    decreases commands.len(),
{
    broadcast use {group_steady, lemma_run_steady};

    if commands.len() > 0 {
        lemma_run_all_steady(commands.drop_last());
    }
}

/// What is steady of asking and of running commands.
pub broadcast group group_requests_steady {
    group_steady,
    lemma_perform_steady,
    lemma_tell_steady,
    lemma_run_steady,
    lemma_order_steady,
    lemma_attempt_steady,
    lemma_run_all_steady,
}

/// The dialogue that an operation holds: the replies given so far and what it
/// has asked.
pub struct Talk<'a> {
    replies: &'a Vec<Reply>,
    asked: Vec<Request>,
}

/// What a list of requests asks.
pub open spec fn asks(requests: Seq<Request>) -> Seq<Ask> {
    requests.map_values(|r: Request| r@)
}

impl<'a> View for Talk<'a> {
    type V = Dialogue;

    closed spec fn view(&self) -> Dialogue {
        Dialogue { replies: self.replies@, asked: asks(self.asked@) }
    }
}

impl<'a> Talk<'a> {
    /// A dialogue in which nothing has been asked.
    pub fn new(replies: &'a Vec<Reply>) -> (r: Talk<'a>)
        ensures
            r@ == (Dialogue { replies: replies@, asked: seq![] }),
    {
        let r = Talk { replies, asked: Vec::new() };
        assert(r@.asked == Seq::<Ask>::empty());
        r
    }

    /// Asks for one thing and waits for its reply.
    pub fn ask(&mut self, request: Request) -> (r: Result<&'a Reply, Stop>)
        ensures
            did(ask(request@), old(self)@, final(self)@, r, |reply: &Reply| *reply),
    {
        let ghost before = self@;
        self.asked.push(request);
        assert(self@.asked == before.asked.push(request@));
        let n: usize = self.asked.len();
        if n <= self.replies.len() {
            Ok(&self.replies[n - 1])
        } else {
            Err(Stop::Waiting)
        }
    }

    /// Asks for something to be done.
    pub fn perform(&mut self, request: Request) -> (r: Result<(), Stop>)
        ensures
            did(perform(request@), old(self)@, final(self)@, r, |u: ()| u),
    {
        let reply = self.ask(request)?;
        match reply {
            Reply::Done => Ok(()),
            _ => Err(fault(reply)),
        }
    }

    /// Asks for something whose success does not matter.
    pub fn tell(&mut self, request: Request) -> (r: Result<(), Stop>)
        ensures
            did(tell(request@), old(self)@, final(self)@, r, |u: ()| u),
    {
        let _reply = self.ask(request)?;
        Ok(())
    }

    /// Run sway commands, failing if any of them fails.
    pub fn run(&mut self, command: String) -> (r: Result<(), Stop>)
        ensures
            did(run_program(command@), old(self)@, final(self)@, r, |u: ()| u),
    {
        let copy = command.clone();
        let reply = self.ask(Request::Run(command))?;
        match reply {
            Reply::Ran(outcomes) => {
                if every_one(outcomes) {
                    Ok(())
                } else {
                    Err(Stop::Failed(Failure::Refused(copy)))
                }
            },
            _ => Err(fault(reply)),
        }
    }

    /// Gives sway commands, failing if they do not reach it.
    pub fn order(&mut self, command: String) -> (r: Result<(), Stop>)
        ensures
            did(order_program(command@), old(self)@, final(self)@, r, |u: ()| u),
    {
        let reply = self.ask(Request::Run(command))?;
        match reply {
            Reply::Ran(_) => Ok(()),
            _ => Err(fault(reply)),
        }
    }

    /// Gives sway commands and tells whether they reached it.
    pub fn attempt(&mut self, command: String) -> (r: Result<bool, Stop>)
        ensures
            did(attempt_program(command@), old(self)@, final(self)@, r, |b: bool| b),
    {
        let reply = self.ask(Request::Run(command))?;
        match reply {
            Reply::Ran(_) => Ok(true),
            _ => Ok(false),
        }
    }

    /// Runs sway commands one after another, failing at the first that fails.
    pub fn run_all(&mut self, commands: &Vec<String>) -> (r: Result<(), Stop>)
        ensures
            did(run_all_program(views(commands@)), old(self)@, final(self)@, r, |u: ()| u),
    {
        let ghost start = self@;
        let ghost all = views(commands@);
        let mut i: usize = 0;
        while i < commands.len()
            invariant
                i <= commands@.len(),
                all == views(commands@),
                start == old(self)@,
                run_all_program(all.take(i as int))(start) == (self@, Ok::<(), Halt>(())),
            decreases commands.len() - i,
        {
            assert(all.take(i + 1).drop_last() == all.take(i as int));
            match self.run(commands[i].clone()) {
                Ok(()) => {},
                Err(stop) => {
                    proof {
                        lemma_run_all_stops(all, i + 1, start);
                    }
                    return Err(stop);
                },
            }
            i += 1;
        }
        assert(all.take(i as int) == all);
        Ok(())
    }

    /// How many things have been asked.
    pub fn count(&self) -> (r: usize)
        ensures
            r == self@.asked.len(),
    {
        self.asked.len()
    }

    /// The last thing asked, if anything was.
    pub fn last_request(self) -> (r: Option<Request>)
        ensures
            match r {
                Some(request) => self@.asked.len() > 0 && request@ == self@.asked.last(),
                None => self@.asked.len() == 0,
            },
    {
        let mut asked = self.asked;
        asked.pop()
    }
}

proof fn lemma_run_all_stops(commands: Seq<Seq<char>>, n: int, d: Dialogue)
    requires
        0 <= n <= commands.len(),
        run_all_program(commands.take(n))(d).1 is Err,
    ensures
        run_all_program(commands)(d) == run_all_program(commands.take(n))(d),
    decreases commands.len(),
{
    if n == commands.len() {
        assert(commands.take(n) == commands);
    } else {
        assert(commands.drop_last().take(n) == commands.take(n));
        lemma_run_all_stops(commands.drop_last(), n, d);
    }
}

/// Whether every command succeeded.
fn every_one(outcomes: &Vec<bool>) -> (r: bool)
    ensures
        r == all_succeeded(outcomes@),
{
    let mut i: usize = 0;
    while i < outcomes.len()
        invariant
            i <= outcomes@.len(),
            forall|j: int| 0 <= j < i ==> #[trigger] outcomes@[j],
        decreases outcomes.len() - i,
    {
        if !outcomes[i] {
            assert(!outcomes@[i as int]);
            return false;
        }
        i += 1;
    }
    true
}

/// The fault in a reply that the request does not allow for.
pub fn fault(reply: &Reply) -> (r: Stop)
    ensures
        r@ == fault_in(*reply),
{
    match reply {
        Reply::Failed => Stop::Failed(Failure::Request),
        Reply::Missing => Stop::Failed(Failure::Request),
        _ => Stop::Failed(Failure::Unexpected),
    }
}

/// The name of a state file.
pub open spec fn file_named(file: File) -> Seq<char> {
    match file {
        File::Assignments => "monitor_sets.json"@,
        File::Sets => "space_sets"@,
        File::Last => "last_workspace.json"@,
        File::Pending => "pending_move_target"@,
    }
}

/// The name of a state file.
pub fn file_name(file: File) -> (r: String)
    ensures
        r@ == file_named(file),
{
    match file {
        File::Assignments => "monitor_sets.json".to_owned(),
        File::Sets => "space_sets".to_owned(),
        File::Last => "last_workspace.json".to_owned(),
        File::Pending => "pending_move_target".to_owned(),
    }
}

/// What is said of a fault.
pub open spec fn fault_message(fault: Fault) -> Seq<char> {
    match fault {
        Fault::Request => "a request failed"@,
        Fault::Unexpected => "unexpected reply"@,
        Fault::Refused(command) => "sway command failed: "@ + command,
        Fault::Corrupt => "failed to parse "@ + file_named(File::Assignments),
        Fault::NoFocusedOutput => "no focused output"@,
        Fault::NotConnected(id) => "output "@ + id + " is not connected"@,
        Fault::NoWindowToPin => "no focused window to pin"@,
        Fault::NoWindowToUnpin => "no focused window to unpin"@,
        Fault::NoKey => "focused workspace has no single-character key"@,
    }
}

impl Failure {
    /// What is said of a failure.
    pub fn message(&self) -> (r: String)
        ensures
            r@ == fault_message(self@),
    {
        match self {
            Failure::Request => "a request failed".to_owned(),
            Failure::Unexpected => "unexpected reply".to_owned(),
            Failure::Refused(command) => {
                let mut s = "sway command failed: ".to_owned();
                s.append(command.as_str());
                s
            },
            Failure::Corrupt(_) => {
                let mut s = "failed to parse ".to_owned();
                s.append(file_name(File::Assignments).as_str());
                s
            },
            Failure::NoFocusedOutput => "no focused output".to_owned(),
            Failure::NotConnected(id) => {
                let mut s = "output ".to_owned();
                s.append(id.as_str());
                s.append(" is not connected");
                s
            },
            Failure::NoWindowToPin => "no focused window to pin".to_owned(),
            Failure::NoWindowToUnpin => "no focused window to unpin".to_owned(),
            Failure::NoKey => "focused workspace has no single-character key".to_owned(),
        }
    }
}

} // verus!
