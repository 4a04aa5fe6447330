//! The conversation with an SMT solver process, through `easy_smt`. The
//! library writes every command as SMT-LIB text and reads every answer back
//! as text; the three trusted calls below only start the solver, write a
//! line and read an answer. A session can only be made by `open_session`,
//! which always configures a solver, so every session talks to a running
//! solver process.
//!
//! Each session carries a record of the conversation for the contracts:
//! the lines written and the answers read, in order. It has no run-time
//! content; the contracts of `send_line` and `receive_line` say how each
//! call extends it.

use vstd::prelude::*;
use easy_smt::{Context, ContextBuilder};

verus! {

#[verifier::external_type_specification]
#[verifier::external_body]
pub struct ExContext(Context);

/// What a satisfiability check answered.
pub enum SmtResponse {
    Sat,
    Unsat,
    Unknown,
}

/// A running solver and the conversation held with it so far.
pub struct SmtSession {
    ctx: Context,
    log: Ghost<Seq<(bool, Seq<char>)>>,
}

impl SmtSession {
    /// The conversation so far, in order: `(true, text)` for a line written
    /// to the solver, `(false, text)` for an answer read from it.
    pub closed spec fn log(&self) -> Seq<(bool, Seq<char>)> {
        self.log@
    }
}

/// `ContextBuilder::new`, then `solver`, `solver_args` and `build`: starts
/// `program` with `args` as the solver process of a new session. `build`
/// itself sends two commands, which turn on the solver's `:print-success`
/// and `:produce-models` options, and reads their answers; `None` where the
/// process cannot be started or does not acknowledge those options. The
/// record of the new session is empty: it holds what is exchanged through
/// `send_line` and `receive_line` from then on.
#[verifier::external_body]
pub fn open_session(program: &str, args: &Vec<&str>) -> (session: Option<SmtSession>)
    ensures
        session matches Some(s) ==> s.log() == Seq::<(bool, Seq<char>)>::empty(),
{
    match ContextBuilder::new().solver(program).solver_args(args.iter().copied()).build() {
        Ok(ctx) => Some(SmtSession { ctx, log: Ghost(Seq::empty()) }),
        Err(_) => None,
    }
}

/// `Context::atom`, then `Context::raw_send`: writes `line`, as it is, as
/// one line to the solver; `false` where it cannot be written. The line is
/// recorded as written either way. `easy_smt` keeps each distinct line as an
/// atom of the session's arena, which holds up to 2^30 of them, far more
/// than one encoding sends.
#[verifier::external_body]
pub fn send_line(session: &mut SmtSession, line: &str) -> (written: bool)
    ensures
        final(session).log() == old(session).log().push((true, line@)),
{
    let cmd = session.ctx.atom(line);
    session.ctx.raw_send(cmd).is_ok()
}

/// `Context::raw_recv`, then `Context::display`: reads the solver's next
/// answer and gives its text (a term of this session's own context); `None`
/// where no answer can be read, and then nothing is recorded.
#[verifier::external_body]
pub fn receive_line(session: &mut SmtSession) -> (answer: Option<String>)
    ensures
        answer matches Some(text) ==> final(session).log() == old(session).log().push((false, text@)),
        answer is None ==> final(session).log() == old(session).log(),
{
    match session.ctx.raw_recv() {
        Ok(reply) => Some(session.ctx.display(reply).to_string()),
        Err(_) => None,
    }
}

/// The conversation of a session that has ended.
pub struct Transcript {
    log: Ghost<Seq<(bool, Seq<char>)>>,
}

impl Transcript {
    /// The lines exchanged, as `SmtSession::log` gives them.
    pub closed spec fn log(&self) -> Seq<(bool, Seq<char>)> {
        self.log@
    }

    /// The transcript of no conversation.
    pub fn empty() -> (t: Transcript)
        ensures
            t.log() == Seq::<(bool, Seq<char>)>::empty(),
    {
        Transcript { log: Ghost(Seq::empty()) }
    }
}

/// Ends a session, which stops its solver process, and keeps its
/// conversation.
pub fn close_session(session: SmtSession) -> (t: Transcript)
    ensures
        t.log() == session.log(),
{
    let SmtSession { ctx: _, log } = session;
    Transcript { log }
}

} // verus!
