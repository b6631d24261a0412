//! What an operation asks for, as long as what it is told can be relied on.

use crate::dialogue::{
    ask, attempt_program, bind, caught, give, group_requests_steady, keeps, order_program, perform,
    run_all_program, run_program, steady, tell, Ask, Dialogue, Halt, Program, Reply,
};
use vstd::prelude::*;

verus! {

/// What is relied on of the replies to requests, and what is promised of the
/// requests in turn, each after what was said before it.
pub struct Rule {
    pub relied: spec_fn(Ask, Reply) -> bool,
    pub promised: spec_fn(Dialogue, Ask) -> bool,
}

/// What was said before the request at `i`.
pub open spec fn before(d: Dialogue, i: int) -> Dialogue {
    Dialogue { asked: d.asked.take(i), ..d }
}

/// Whether the replies in a dialogue are as a rule relies on.
pub open spec fn reliable(d: Dialogue, rule: Rule) -> bool {
    forall|i: int|
        0 <= i < d.asked.len() && i < d.replies.len() ==> (rule.relied)(
            #[trigger] d.asked[i],
            d.replies[i],
        )
}

/// Whether everything asked from the `n`-th request on is as a rule promises.
pub open spec fn asks_as(d: Dialogue, n: nat, rule: Rule) -> bool {
    forall|i: int|
        n <= i < d.asked.len() ==> (rule.promised)(before(d, i), #[trigger] d.asked[i])
}

/// Whether an operation that leads from one dialogue to another heeds a rule:
/// if the replies are as the rule relies on, it asks only what the rule
/// promises, and its result is one of `post`.
pub open spec fn heeded<A>(
    d: Dialogue,
    after: (Dialogue, Result<A, Halt>),
    rule: Rule,
    post: spec_fn(A) -> bool,
) -> bool {
    reliable(after.0, rule) ==> {
        &&& asks_as(after.0, d.asked.len(), rule)
        &&& match after.1 {
            Ok(a) => post(a),
            Err(_) => true,
        }
    }
}

/// Whether an operation heeds a rule and has no other result than one of
/// `post`.
pub open spec fn heeds<A>(p: Program<A>, rule: Rule, post: spec_fn(A) -> bool) -> bool {
    forall|d: Dialogue| d.answered() ==> heeded(d, #[trigger] p(d), rule, post)
}

/// Whatever the result.
pub open spec fn any<A>() -> spec_fn(A) -> bool {
    |a: A| true
}

/// A fixed result asks for nothing.
pub broadcast proof fn lemma_give_heeds<A>(
    result: Result<A, Halt>,
    rule: Rule,
    post: spec_fn(A) -> bool,
)
    requires
        match result {
            Ok(a) => post(a),
            Err(_) => true,
        },
    ensures
        #[trigger] heeds(give(result), rule, post),
{
}

/// A request is answered by a reply that the rule relies on.
pub proof fn lemma_ask_heeds(request: Ask, rule: Rule, post: spec_fn(Reply) -> bool)
    requires
        forall|d: Dialogue| #[trigger] (rule.promised)(d, request),
        forall|reply: Reply| (rule.relied)(request, reply) ==> #[trigger] post(reply),
    ensures
        heeds(ask(request), rule, post),
{
    let p = ask(request);
    assert forall|d: Dialogue| d.answered() implies heeded(d, #[trigger] p(d), rule, post) by {
        let e = p(d).0;
        assert(e.asked == d.asked.push(request));
        assert(e.asked[d.asked.len() as int] == request);
    }
}

/// Two operations in a row heed a rule if each does; the second may go by what
/// is known of the result of the first.
pub broadcast proof fn lemma_bind_heeds<A, B>(
    p: Program<A>,
    f: spec_fn(A) -> Program<B>,
    rule: Rule,
    mid: spec_fn(A) -> bool,
    post: spec_fn(B) -> bool,
)
    requires
        #[trigger] heeds(p, rule, mid),
        steady(p),
        forall|a: A| steady(#[trigger] f(a)),
        forall|a: A| mid(a) ==> heeds(#[trigger] f(a), rule, post),
    ensures
        #[trigger] heeds(bind(p, f), rule, post),
{
    let q = bind(p, f);
    assert forall|d: Dialogue| d.answered() implies heeded(d, #[trigger] q(d), rule, post) by {
        assert(keeps(d, Reply::Done, p(d), p(d.with(Reply::Done))));
        assert(heeded(d, p(d), rule, mid));
        let (e, r) = p(d);
        if let Ok(a) = r {
            assert(steady(f(a)));
            assert(keeps(e, Reply::Done, f(a)(e), f(a)(e.with(Reply::Done))));
            let g = f(a)(e).0;
            if reliable(g, rule) {
                assert forall|i: int| 0 <= i < e.asked.len() && i < e.replies.len() implies (
                rule.relied)(#[trigger] e.asked[i], e.replies[i]) by {
                    assert(e.asked[i] == g.asked[i]);
                }
                assert(heeded(e, f(a)(e), rule, post));
                assert forall|i: int| d.asked.len() <= i < g.asked.len() implies (rule.promised)(
                    before(g, i),
                    #[trigger] g.asked[i],
                ) by {
                    if i < e.asked.len() {
                        assert(g.asked[i] == e.asked[i]);
                        assert(g.asked.take(i) == e.asked.take(i));
                    }
                }
            }
        }
    }
}

/// Two operations in a row heed a rule if each does.
pub broadcast proof fn lemma_bind_heeds_any<A, B>(
    p: Program<A>,
    f: spec_fn(A) -> Program<B>,
    rule: Rule,
    post: spec_fn(B) -> bool,
)
    requires
        heeds(p, rule, any()),
        steady(p),
        forall|a: A| steady(#[trigger] f(a)),
        forall|a: A| heeds(#[trigger] f(a), rule, post),
    ensures
        #[trigger] heeds(bind(p, f), rule, post),
{
    lemma_bind_heeds(p, f, rule, any(), post);
}

pub broadcast proof fn lemma_ask_heeds_any(request: Ask, rule: Rule)
    requires
        forall|d: Dialogue| #[trigger] (rule.promised)(d, request),
    ensures
        #[trigger] heeds(ask(request), rule, any()),
{
    lemma_ask_heeds(request, rule, any());
}

pub broadcast proof fn lemma_caught_heeds<A>(p: Program<A>, rule: Rule)
    requires
        heeds(p, rule, any()),
    ensures
        #[trigger] heeds(caught(p), rule, any()),
{
    let q = caught(p);
    assert forall|d: Dialogue| d.answered() implies heeded(d, #[trigger] q(d), rule, any()) by {
        assert(heeded(d, p(d), rule, any()));
    }
}

/// What heeds a rule of programs made of such.
pub broadcast group group_heeds {
    lemma_give_heeds,
    lemma_bind_heeds_any,
    lemma_ask_heeds_any,
    lemma_caught_heeds,
}

pub broadcast proof fn lemma_perform_heeds(request: Ask, rule: Rule)
    requires
        forall|d: Dialogue| #[trigger] (rule.promised)(d, request),
    ensures
        #[trigger] heeds(perform(request), rule, any()),
{
    broadcast use {group_heeds, group_requests_steady};

}

pub broadcast proof fn lemma_tell_heeds(request: Ask, rule: Rule)
    requires
        forall|d: Dialogue| #[trigger] (rule.promised)(d, request),
    ensures
        #[trigger] heeds(tell(request), rule, any()),
{
    broadcast use {group_heeds, group_requests_steady};

}

pub broadcast proof fn lemma_run_heeds(command: Seq<char>, rule: Rule)
    requires
        forall|d: Dialogue| #[trigger] (rule.promised)(d, Ask::Run(command)),
    ensures
        #[trigger] heeds(run_program(command), rule, any()),
{
    broadcast use {group_heeds, group_requests_steady};

}

pub broadcast proof fn lemma_order_heeds(command: Seq<char>, rule: Rule)
    requires
        forall|d: Dialogue| #[trigger] (rule.promised)(d, Ask::Run(command)),
    ensures
        #[trigger] heeds(order_program(command), rule, any()),
{
    broadcast use {group_heeds, group_requests_steady};

}

pub broadcast proof fn lemma_attempt_heeds(command: Seq<char>, rule: Rule)
    requires
        forall|d: Dialogue| #[trigger] (rule.promised)(d, Ask::Run(command)),
    ensures
        #[trigger] heeds(attempt_program(command), rule, any()),
{
    broadcast use {group_heeds, group_requests_steady};

}

pub broadcast proof fn lemma_run_all_heeds(commands: Seq<Seq<char>>, rule: Rule)
    requires
        forall|i: int, d: Dialogue|
            0 <= i < commands.len() ==> #[trigger] (rule.promised)(d, Ask::Run(commands[i])),
    ensures
        #[trigger] heeds(run_all_program(commands), rule, any()),
    decreases commands.len(),
{
    broadcast use {group_heeds, group_requests_steady, lemma_run_heeds};

    if commands.len() > 0 {
        lemma_run_all_heeds(commands.drop_last(), rule);
    }
}

/// What heeds a rule of asking and of running commands.
pub broadcast group group_requests_heed {
    group_heeds,
    lemma_perform_heeds,
    lemma_tell_heeds,
    lemma_run_heeds,
    lemma_order_heeds,
    lemma_attempt_heeds,
    lemma_run_all_heeds,
}

} // verus!
