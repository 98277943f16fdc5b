//! Listing: which sessions are shown, in which way, and how the program ends.

use vstd::prelude::*;

use crate::path;
use crate::pick::{self, Scope, ScopeView};
use crate::session::{self, Agent, Session};
use crate::table;

verus! {

/// How sessions are listed.
#[derive(Clone, Copy, Debug, PartialEq, Eq, Structural)]
pub enum Format {
    Json,
    Ndjson,
    Table,
}

/// What the program does with the sessions: list them, or let one be picked.
#[derive(Clone, Copy, Debug, PartialEq, Eq, Structural)]
pub enum Mode {
    List(Format),
    Pick,
}

/// What one provider gave: its agent's sessions, or what went wrong.
pub type Answer = (Agent, Result<Vec<Session>, String>);

/// Whether an agent's sessions are asked for, where some agents are named.
pub open spec fn wanted(named: Seq<Agent>, agent: Agent) -> bool {
    named.len() == 0 || named.contains(agent)
}

/// Whether an agent's sessions are asked for: all are where none is named.
pub fn is_wanted(agents: &Vec<Agent>, agent: Agent) -> (r: bool)
    ensures
        r <==> agents@.len() == 0 || agents@.contains(agent),
        r == wanted(agents@, agent),
{
    if agents.len() == 0 {
        return true;
    }
    let mut i: usize = 0;
    while i < agents.len()
        invariant
            i <= agents.len(),
            forall|j: int| 0 <= j < i ==> agents@[j] != agent,
        decreases agents.len() - i,
    {
        if agents[i] == agent {
            assert(agents@[i as int] == agent);
            return true;
        }
        i += 1;
    }
    false
}

/// The sessions that the providers gave, in order.
pub open spec fn gathered(answers: Seq<Answer>) -> Seq<Session>
    decreases answers.len(),
{
    if answers.len() == 0 {
        seq![]
    } else {
        match answers.last().1 {
            Ok(sessions) => gathered(answers.drop_last()) + sessions@,
            Err(_) => gathered(answers.drop_last()),
        }
    }
}

/// What went wrong with which agent, in order.
pub open spec fn failures(answers: Seq<Answer>) -> Seq<(Agent, String)>
    decreases answers.len(),
{
    if answers.len() == 0 {
        seq![]
    } else {
        match answers.last().1 {
            Ok(_) => failures(answers.drop_last()),
            Err(message) => failures(answers.drop_last()).push((answers.last().0, message)),
        }
    }
}

/// Takes together what the providers gave: their sessions, and what went wrong.
pub fn gather(answers: Vec<Answer>) -> (r: (Vec<Session>, Vec<(Agent, String)>))
    ensures
        r.0@ == gathered(answers@),
        r.1@ == failures(answers@),
{
    let ghost all = answers@;
    let mut sessions: Vec<Session> = Vec::new();
    let mut failed: Vec<(Agent, String)> = Vec::new();
    let mut rest = table::reverse(answers);
    assert(all.take(0) =~= seq![]);
    while rest.len() > 0
        invariant
            rest.len() <= all.len(),
            rest@ == all.reverse().take(rest.len() as int),
            sessions@ == gathered(all.take(all.len() - rest.len())),
            failed@ == failures(all.take(all.len() - rest.len())),
        decreases rest.len(),
    {
        let ghost left = rest@;
        let ghost done = all.len() - left.len();
        if let Some((agent, answer)) = rest.pop() {
            proof {
                assert(left.last() == all[done]);
                assert(all.take(done + 1).drop_last() =~= all.take(done));
                assert(all.take(done + 1).last() == all[done]);
                assert(rest@ =~= all.reverse().take(rest.len() as int));
            }
            match answer {
                Ok(found) => {
                    let mut found = found;
                    sessions.append(&mut found);
                },
                Err(message) => failed.push((agent, message)),
            }
        }
    }
    assert(all.take(all.len() as int) =~= all);
    (sessions, failed)
}

/// The first so many of `sessions`, all where there is no limit.
pub open spec fn limited(sessions: Seq<Session>, limit: Option<usize>) -> Seq<Session> {
    match limit {
        Some(n) => if n < sessions.len() {
            sessions.take(n as int)
        } else {
            sessions
        },
        None => sessions,
    }
}

/// Whether `listed` are the sessions of `given` last touched, as many as the
/// limit allows, last touched first.
pub open spec fn is_latest(given: Seq<Session>, limit: Option<usize>, listed: Seq<Session>) -> bool {
    exists|sorted: Seq<Session>| #[trigger]
        session::is_sorted_desc(given, sorted) && listed == limited(sorted, limit)
}

/// The sessions last touched, as many as the limit allows, last touched first.
pub fn latest(sessions: Vec<Session>, limit: Option<usize>) -> (r: Vec<Session>)
    ensures
        is_latest(sessions@, limit, r@),
{
    let mut out = sessions;
    session::sort_desc(&mut out);
    let ghost sorted = out@;
    if let Some(n) = limit {
        out.truncate(n);
        assert(out@ =~= limited(sorted, limit));
    }
    out
}

/// The sessions that worked in `base` or inside it, in order.
pub open spec fn kept_within(sessions: Seq<Session>, base: ScopeView) -> Seq<Session> {
    sessions.filter(|session: Session| pick::worked_in(session, base))
}

/// The sessions that worked in `base` or inside it, in order.
pub fn within(sessions: &Vec<Session>, base: &Scope) -> (r: Vec<Session>)
    ensures
        r@ == sessions@.filter(|session: Session| pick::worked_in(session, base@)),
        r@ == kept_within(sessions@, base@),
{
    let ghost keep = |session: Session| pick::worked_in(session, base@);
    let mut out: Vec<Session> = Vec::new();
    let mut i: usize = 0;
    proof {
        reveal(Seq::filter);
        assert(sessions@.take(0) =~= seq![]);
    }
    while i < sessions.len()
        invariant
            i <= sessions.len(),
            keep == (|session: Session| pick::worked_in(session, base@)),
            out@ == sessions@.take(i as int).filter(keep),
        decreases sessions.len() - i,
    {
        proof {
            reveal(Seq::filter);
            assert(sessions@.take(i + 1).drop_last() =~= sessions@.take(i as int));
            assert(sessions@.take(i + 1).last() == sessions@[i as int]);
        }
        if pick::in_scope(&sessions[i], base) {
            out.push(sessions[i].clone());
        }
        i += 1;
    }
    assert(sessions@.take(i as int) =~= sessions@);
    out
}

/// What to do, by the format asked for and whether the output is a terminal.
pub open spec fn mode_for(format: Option<Format>, terminal: bool) -> Mode {
    if format is None && terminal {
        Mode::Pick
    } else if format is None {
        Mode::List(Format::Json)
    } else {
        Mode::List(format->0)
    }
}

/// What to do: list in the format asked for; without one, let a session be
/// picked on a terminal, and list as JSON elsewhere.
pub fn mode(format: Option<Format>, terminal: bool) -> (r: Mode)
    ensures
        r == match format {
            Some(format) => Mode::List(format),
            None => if terminal {
                Mode::Pick
            } else {
                Mode::List(Format::Json)
            },
        },
        r == mode_for(format, terminal),
{
    match format {
        Some(format) => Mode::List(format),
        None => {
            if terminal {
                Mode::Pick
            } else {
                Mode::List(Format::Json)
            }
        },
    }
}

/// The first of two choices that is there.
pub open spec fn first_of<T>(first: Option<T>, second: Option<T>) -> Option<T> {
    if first is Some {
        first
    } else {
        second
    }
}

/// The directory that the picker starts from: the one given, else the current one.
pub fn start_dir<T>(given: Option<T>, current: Option<T>) -> (r: Option<T>)
    ensures
        r == if given is Some {
            given
        } else {
            current
        },
        r == first_of(given, current),
{
    match given {
        Some(dir) => Some(dir),
        None => current,
    }
}

/// The scope that a directory stands for, where it has been looked up or not.
pub open spec fn scope_from(dir: Option<Scope>, canonical: Option<Scope>) -> ScopeView {
    match dir {
        Some(dir) => first_of(canonical, Some(dir))->0@,
        None => (ScopeView { text: seq![], exact: true }),
    }
}

/// The scope that a directory stands for: its canonical path, else the
/// directory as it is; nothing where there is no directory.
pub fn scope_of(dir: Option<Scope>, canonical: Option<Scope>) -> (r: Scope)
    ensures
        r@ == match dir {
            Some(dir) => match canonical {
                Some(path) => path@,
                None => dir@,
            },
            None => (ScopeView { text: seq![], exact: true }),
        },
        r@ == scope_from(dir, canonical),
{
    match dir {
        Some(dir) => match canonical {
            Some(path) => path,
            None => dir,
        },
        None => Scope { text: String::new(), exact: true },
    }
}

/// How the program ends.
#[derive(Clone, Copy, Debug, PartialEq, Eq, Structural)]
pub enum Exit {
    Success,
    Failure,
    Code(u8),
}

/// How the program ends, where something may have gone wrong.
pub open spec fn ending(failed: bool) -> Exit {
    if failed {
        Exit::Failure
    } else {
        Exit::Success
    }
}

/// Whether an error only says that nobody reads the output any more.
pub open spec fn is_harmless(cause: Cause) -> bool {
    match cause {
        Cause::Io(kind) => kind == ErrorKind::BrokenPipe,
        Cause::Json(kind) => kind == Some(ErrorKind::BrokenPipe),
        Cause::Other => false,
    }
}

/// How the program ends after listing.
pub open spec fn listing_ending(error: Option<Cause>, failed: bool) -> Exit {
    ending(failed || error is Some && !is_harmless(error->0))
}

/// How the program ends after picking.
pub open spec fn picking_ending(picking: Picking, failed: bool) -> Exit {
    if picking == Picking::Cancelled {
        Exit::Code(130)
    } else {
        ending(failed || picking == Picking::Broke)
    }
}

/// How the program ends once it has done its work: badly where a provider failed.
pub fn exit(failed: bool) -> (r: Exit)
    ensures
        r == if failed {
            Exit::Failure
        } else {
            Exit::Success
        },
        r == ending(failed),
{
    if failed {
        Exit::Failure
    } else {
        Exit::Success
    }
}

/// What an error of the system is like, as far as endings differ by it.
#[derive(Clone, Copy, Debug, PartialEq, Eq, Structural)]
pub enum ErrorKind {
    BrokenPipe,
    Other,
}

/// What an error comes down to.
#[derive(Clone, Copy, Debug, PartialEq, Eq, Structural)]
pub enum Cause {
    /// Reading or writing failed.
    Io(ErrorKind),
    /// JSON could not be written, because writing failed in the given way if any.
    Json(Option<ErrorKind>),
    Other,
}

/// Whether an error only says that nobody reads the output any more.
pub fn is_broken_pipe(cause: Cause) -> (r: bool)
    ensures
        r <==> cause == Cause::Io(ErrorKind::BrokenPipe) || cause == Cause::Json(
            Some(ErrorKind::BrokenPipe),
        ),
        r == is_harmless(cause),
{
    match cause {
        Cause::Io(kind) => kind == ErrorKind::BrokenPipe,
        Cause::Json(Some(kind)) => kind == ErrorKind::BrokenPipe,
        Cause::Json(None) => false,
        Cause::Other => false,
    }
}

/// How the program ends after listing, where `error` is what went wrong with
/// that: an output that is closed early is as good as one that is read.
pub fn listing_exit(error: Option<Cause>, failed: bool) -> (r: Exit)
    ensures
        r == if error matches Some(cause) && cause != Cause::Io(ErrorKind::BrokenPipe) && cause
            != Cause::Json(Some(ErrorKind::BrokenPipe)) {
            Exit::Failure
        } else if failed {
            Exit::Failure
        } else {
            Exit::Success
        },
        r == listing_ending(error, failed),
{
    match error {
        Some(cause) => {
            if is_broken_pipe(cause) {
                exit(failed)
            } else {
                Exit::Failure
            }
        },
        None => exit(failed),
    }
}

/// How picking went.
#[derive(Clone, Copy, Debug, PartialEq, Eq, Structural)]
pub enum Picking {
    Picked,
    Cancelled,
    Broke,
}

/// How the program ends after picking.
pub fn picking_exit(picking: Picking, failed: bool) -> (r: Exit)
    ensures
        r == match picking {
            Picking::Picked => if failed {
                Exit::Failure
            } else {
                Exit::Success
            },
            Picking::Cancelled => Exit::Code(130),
            Picking::Broke => Exit::Failure,
        },
        r == picking_ending(picking, failed),
{
    match picking {
        Picking::Picked => exit(failed),
        Picking::Cancelled => Exit::Code(130),
        Picking::Broke => Exit::Failure,
    }
}

/// The limit is applied after sorting: no session that is left out was touched
/// later than one that is listed.
pub proof fn law_limit_keeps_the_latest(
    given: Seq<Session>,
    sorted: Seq<Session>,
    limit: Option<usize>,
    kept: int,
    dropped: int,
)
    requires
        session::is_sorted_desc(given, sorted),
        0 <= kept < limited(sorted, limit).len() <= dropped < sorted.len(),
    ensures
        limited(sorted, limit)[kept].updated_at@ >= sorted[dropped].updated_at@,
{
    session::law_sorted_by_last_touch(given, sorted, kept, dropped);
}

/// There are at most as many sessions as the limit allows, and as many as
/// there are where that is fewer.
pub proof fn law_limit_is_kept(given: Seq<Session>, limit: Option<usize>, listed: Seq<Session>)
    requires
        is_latest(given, limit, listed),
    ensures
        listed.len() == match limit {
            Some(n) => if n < given.len() {
                n as int
            } else {
                given.len() as int
            },
            None => given.len() as int,
        },
{
}

/// A provider that fails takes nothing away from what the others give.
pub proof fn law_failures_take_nothing_away(before: Seq<Answer>, failing: Answer, later: Seq<Answer>)
    requires
        failing.1 is Err,
    ensures
        gathered(before.push(failing) + later) == gathered(before + later),
        failures(before.push(failing) + later).len() == failures(before + later).len() + 1,
    decreases later.len(),
{
    if later.len() == 0 {
        assert(before.push(failing) + later =~= before.push(failing));
        assert(before.push(failing).drop_last() =~= before);
        assert(before + later =~= before);
    } else {
        law_failures_take_nothing_away(before, failing, later.drop_last());
        assert((before.push(failing) + later).drop_last() =~= before.push(failing) + later.drop_last());
        assert((before + later).drop_last() =~= before + later.drop_last());
        assert((before.push(failing) + later).last() == later.last());
        assert((before + later).last() == later.last());
    }
}

/// An agent that is named is wanted, and naming another takes none of those named
/// away. Where none is named all are wanted, and where one is, no other is.
pub proof fn law_naming_agents_asks_for_them(named: Seq<Agent>, other: Agent, agent: Agent)
    ensures
        wanted(seq![], agent),
        wanted(seq![other], agent) <==> agent == other,
        named.len() > 0 ==> (wanted(named.push(other), agent) <==> wanted(named, agent) || agent == other),
{
    let more = named.push(other);
    assert(more[named.len() as int] == other);
    if named.contains(agent) {
        let i = choose|i: int| 0 <= i < named.len() && named[i] == agent;
        assert(more[i] == agent);
    }
    if more.contains(agent) && agent != other {
        let i = choose|i: int| 0 <= i < more.len() && more[i] == agent;
        assert(named[i] == agent);
    }
    if agent == other {
        assert(seq![other][0] == agent);
    }
}

/// Answers are taken in turn: what the first of them give comes before what the
/// others give.
pub proof fn law_answers_are_taken_in_turn(first: Seq<Answer>, others: Seq<Answer>)
    ensures
        gathered(first + others) == gathered(first) + gathered(others),
        failures(first + others) == failures(first) + failures(others),
    decreases others.len(),
{
    if others.len() == 0 {
        assert(first + others =~= first);
        assert(gathered(first) + gathered(others) =~= gathered(first));
        assert(failures(first) + failures(others) =~= failures(first));
    } else {
        law_answers_are_taken_in_turn(first, others.drop_last());
        assert((first + others).drop_last() =~= first + others.drop_last());
        assert((first + others).last() == others.last());
        assert(gathered(first + others) =~= gathered(first) + gathered(others));
        assert(failures(first + others) =~= failures(first) + failures(others));
    }
}

/// An answer gives all its sessions in order and nothing went wrong, or it gives
/// none, and what went wrong with which agent is told.
pub proof fn law_each_answer_counts(answer: Answer)
    ensures
        answer.1 matches Ok(sessions) ==> gathered(seq![answer]) == sessions@ && failures(seq![answer]).len()
            == 0,
        answer.1 matches Err(message) ==> gathered(seq![answer]).len() == 0 && failures(seq![answer])
            == seq![(answer.0, message)],
{
    let one = seq![answer];
    let none = Seq::<Answer>::empty();
    assert(one.last() == answer);
    assert(one.drop_last() =~= none);
    assert(gathered(none) =~= seq![]);
    assert(failures(none) =~= seq![]);
    match answer.1 {
        Ok(sessions) => assert(gathered(one) =~= sessions@),
        Err(message) => assert(failures(one) =~= seq![(answer.0, message)]),
    }
}

/// A limit takes the first sessions, as many as it allows, and leaves the rest.
pub proof fn law_limit_takes_the_first(sessions: Seq<Session>, n: usize)
    ensures
        limited(sessions, None) == sessions,
        limited(sessions, Some(n)).is_prefix_of(sessions),
        limited(sessions, Some(n)).len() <= n,
        limited(sessions, Some(n)).len() == n || limited(sessions, Some(n)) == sessions,
{
}

/// What is listed, and what is left out for want of room, is what was given: the
/// latest is listed first, nothing that is left out was touched later than what
/// is listed, and nothing is left out where there is room.
pub proof fn law_listed_are_the_latest(
    given: Seq<Session>,
    limit: Option<usize>,
    listed: Seq<Session>,
) -> (left_out: Seq<Session>)
    requires
        is_latest(given, limit, listed),
    ensures
        (listed + left_out).to_multiset() == given.to_multiset(),
        forall|i: int, j: int|
            0 <= i <= j < listed.len() ==> #[trigger] listed[i].updated_at@
                >= #[trigger] listed[j].updated_at@,
        forall|i: int, j: int|
            0 <= i < listed.len() && 0 <= j < left_out.len() ==> #[trigger] listed[i].updated_at@
                >= #[trigger] left_out[j].updated_at@,
        limit is None ==> left_out.len() == 0,
        limit matches Some(n) ==> listed.len() <= n && (left_out.len() > 0 ==> listed.len() == n),
{
    let sorted = choose|sorted: Seq<Session>| #[trigger]
        session::is_sorted_desc(given, sorted) && listed == limited(sorted, limit);
    let left_out = sorted.skip(listed.len() as int);
    assert(listed + left_out =~= sorted);
    session::law_sorting_only_reorders(given, sorted);
    assert forall|i: int, j: int| 0 <= i <= j < listed.len() implies #[trigger] listed[i].updated_at@
        >= #[trigger] listed[j].updated_at@ by {
        session::law_sorted_by_last_touch(given, sorted, i, j);
    }
    assert forall|i: int, j: int| 0 <= i < listed.len() && 0 <= j < left_out.len() implies #[trigger] listed[i].updated_at@
        >= #[trigger] left_out[j].updated_at@ by {
        session::law_sorted_by_last_touch(given, sorted, i, listed.len() + j);
    }
    left_out
}

/// Of each list of sessions those stay, in order, whose directory is the given
/// one or lies inside it, whatever else is true of them.
pub proof fn law_those_within_stay(first: Seq<Session>, others: Seq<Session>, session: Session, base: ScopeView)
    ensures
        kept_within(first + others, base) == kept_within(first, base) + kept_within(others, base),
        kept_within(seq![], base).len() == 0,
        base.exact && (session.cwd matches Some(cwd) && path::is_within(cwd@, base.text)) ==> kept_within(
            seq![session],
            base,
        ) == seq![session],
        !(base.exact && (session.cwd matches Some(cwd) && path::is_within(cwd@, base.text)))
            ==> kept_within(seq![session], base).len() == 0,
{
    let keep = |session: Session| pick::worked_in(session, base);
    Seq::filter_distributes_over_add(first, others, keep);
    reveal(Seq::filter);
    let none = Seq::<Session>::empty();
    assert(none.filter(keep) =~= none);
    assert(seq![session].drop_last() =~= none);
    assert(seq![session].last() == session);
    if keep(session) {
        assert(seq![session].filter(keep) =~= seq![session]);
    }
}

/// Sessions are picked exactly where no format is asked for on a terminal, and
/// otherwise listed: in the format asked for, as JSON where none is.
pub proof fn law_a_terminal_picks_unless_asked_to_list(format: Option<Format>, terminal: bool)
    ensures
        mode_for(format, terminal) == Mode::Pick <==> format is None && terminal,
        format matches Some(f) ==> mode_for(format, terminal) == Mode::List(f),
        mode_for(format, terminal) matches Mode::List(f) ==> format == Some(f) || f == Format::Json,
{
}

/// The program ends well exactly where nothing went wrong. Nobody reading on is
/// nothing that went wrong, and cancelling has an ending of its own.
pub proof fn law_endings_tell_what_happened(error: Option<Cause>, picking: Picking, failed: bool)
    ensures
        ending(failed) == Exit::Success <==> !failed,
        ending(failed) == Exit::Failure <==> failed,
        listing_ending(error, failed) == Exit::Success <==> !failed && (error is None || error == Some(
            Cause::Io(ErrorKind::BrokenPipe),
        ) || error == Some(Cause::Json(Some(ErrorKind::BrokenPipe)))),
        listing_ending(error, failed) != Exit::Success ==> listing_ending(error, failed) == Exit::Failure,
        picking_ending(picking, failed) == Exit::Code(130) <==> picking == Picking::Cancelled,
        picking_ending(picking, failed) == Exit::Success <==> picking == Picking::Picked && !failed,
        picking_ending(picking, failed) == Exit::Failure <==> picking == Picking::Broke || (picking
            == Picking::Picked && failed),
{
}

/// A directory that is given goes before the current one, its canonical path before
/// the directory as it is, and no directory makes a scope that all lie within.
pub proof fn law_what_is_given_goes_first(dir: Scope, canonical: Option<Scope>, path: Seq<char>)
    ensures
        first_of(Some(dir), canonical) == Some(dir),
        first_of(None, canonical) == canonical,
        scope_from(Some(dir), None) == dir@,
        canonical matches Some(c) ==> scope_from(Some(dir), canonical) == c@,
        scope_from(None, canonical).exact,
        path::is_within(path, scope_from(None, canonical).text),
{
    path::law_the_empty_path_leads_nowhere();
}

} // verus!
