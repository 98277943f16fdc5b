//! Agents and the sessions they leave behind.

use vstd::prelude::*;

use crate::rank;
use crate::text;
use crate::time::Timestamp;

verus! {

/// A coding agent whose sessions are listed.
#[derive(Clone, Copy, Debug, PartialEq, Eq, Structural)]
pub enum Agent {
    ClaudeCode,
    Codex,
    Cursor,
    Pi,
}

/// The agents, in the order in which they are offered.
pub open spec fn variants() -> Seq<Agent> {
    seq![Agent::ClaudeCode, Agent::Codex, Agent::Cursor, Agent::Pi]
}

impl Agent {
    /// The agents, in the order in which they are offered.
    pub fn value_variants() -> (r: [Agent; 4])
        ensures
            r@ == variants(),
    {
        let all = [Agent::ClaudeCode, Agent::Codex, Agent::Cursor, Agent::Pi];
        assert(all@ =~= variants());
        all
    }
}

/// The names by which the agents are shown, in the order in which they are offered.
#[derive(Debug)]
pub struct Labels {
    pub names: [String; 4],
}

impl Labels {
    /// The name by which an agent is shown.
    pub open spec fn label(self, agent: Agent) -> Seq<char> {
        self.names@[variants().index_of(agent)]@
    }

    /// The name by which an agent is shown.
    pub fn name(&self, agent: Agent) -> (r: &str)
        ensures
            r@ == self.label(agent),
    {
        let place: usize = match agent {
            Agent::ClaudeCode => 0,
            Agent::Codex => 1,
            Agent::Cursor => 2,
            Agent::Pi => 3,
        };
        proof {
            lemma_variant_position(place as int);
        }
        self.names[place].as_str()
    }
}

/// Every variant stands where it is found.
pub proof fn lemma_variant_position(i: int)
    requires
        0 <= i < variants().len(),
    ensures
        variants().index_of(variants()[i]) == i,
{
    let agent = variants()[i];
    assert(variants().contains(agent));
    let found = variants().index_of(agent);
    assert(0 <= found < 4 && variants()[found] == agent);
}

/// A session that an agent kept a record of.
#[derive(Debug, PartialEq, Eq)]
pub struct Session {
    pub agent: Agent,
    pub id: String,
    pub title: Option<String>,
    /// The directory the session worked in.
    pub cwd: Option<String>,
    pub branch: Option<String>,
    pub created_at: Timestamp,
    pub updated_at: Timestamp,
    /// The file that records the session.
    pub path: Option<String>,
}

impl Clone for Session {
    fn clone(&self) -> (r: Session)
        ensures
            r == *self,
    {
        Session {
            agent: self.agent,
            id: self.id.clone(),
            title: text::copy_text(&self.title),
            cwd: text::copy_text(&self.cwd),
            branch: text::copy_text(&self.branch),
            created_at: self.created_at,
            updated_at: self.updated_at,
            path: text::copy_text(&self.path),
        }
    }
}

impl Session {
    /// The text that a query is matched against: title, directory, branch and
    /// agent, with a space between.
    pub open spec fn search_text(self, labels: Labels) -> Seq<char> {
        text::text_or_empty(self.title).push(' ') + text::text_or_empty(self.cwd).push(' ')
            + text::text_or_empty(self.branch).push(' ') + labels.label(self.agent)
    }

    /// The text that a query is matched against.
    pub fn haystack(&self, labels: &Labels) -> (r: String)
        ensures
            r@ == self.search_text(*labels),
    {
        let mut out = text::or_empty(&self.title);
        out.push(' ');
        out.append(text::or_empty(&self.cwd).as_str());
        out.push(' ');
        out.append(text::or_empty(&self.branch).as_str());
        out.push(' ');
        out.append(labels.name(self.agent));
        assert(out@ =~= self.search_text(*labels));
        out
    }
}

/// When each session was last touched, in nanoseconds from the Unix epoch.
pub open spec fn updates(sessions: Seq<Session>) -> Seq<int> {
    sessions.map_values(|session: Session| session.updated_at@)
}

/// The sessions at the positions `order`.
pub open spec fn in_order(sessions: Seq<Session>, order: Seq<usize>) -> Seq<Session> {
    Seq::new(order.len(), |i: int| sessions[order[i] as int])
}

/// Whether `after` holds the sessions of `before`, last touched first, and
/// those touched at one time in the order they stood in.
pub open spec fn is_sorted_desc(before: Seq<Session>, after: Seq<Session>) -> bool {
    exists|order: Seq<usize>| #[trigger]
        rank::is_ranking(updates(before), 0, before.len() as int, order) && after == in_order(before, order)
}

/// Sorts sessions by the time they were last touched, latest first. Sessions
/// touched at one time keep their order.
pub fn sort_desc(sessions: &mut Vec<Session>)
    ensures
        is_sorted_desc(old(sessions)@, final(sessions)@),
{
    let ghost before = sessions@;
    let mut keys: Vec<i128> = Vec::new();
    let mut i: usize = 0;
    while i < sessions.len()
        invariant
            i <= sessions.len(),
            sessions@ == before,
            keys.len() == i,
            forall|j: int| 0 <= j < i ==> keys@[j] == updates(before)[j],
        decreases sessions.len() - i,
    {
        keys.push(sessions[i].updated_at.as_nanosecond());
        i += 1;
    }
    let order = rank::rank(&keys);
    assert(rank::ints(keys@) =~= updates(before));
    let mut out: Vec<Session> = Vec::new();
    let mut k: usize = 0;
    while k < order.len()
        invariant
            k <= order.len(),
            sessions@ == before,
            rank::is_ranking(updates(before), 0, before.len() as int, order@),
            out.len() == k,
            forall|j: int| 0 <= j < k ==> out@[j] == before[order@[j] as int],
        decreases order.len() - k,
    {
        out.push(sessions[order[k]].clone());
        k += 1;
    }
    assert(out@ =~= in_order(before, order@));
    *sessions = out;
}

/// Sorting leaves one order of sessions only.
pub proof fn law_one_sorted_order(before: Seq<Session>, first: Seq<Session>, second: Seq<Session>)
    requires
        is_sorted_desc(before, first),
        is_sorted_desc(before, second),
    ensures
        first == second,
{
    let a = choose|order: Seq<usize>| #[trigger]
        rank::is_ranking(updates(before), 0, before.len() as int, order) && first == in_order(before, order);
    let b = choose|order: Seq<usize>| #[trigger]
        rank::is_ranking(updates(before), 0, before.len() as int, order) && second == in_order(before, order);
    rank::law_one_ranking(updates(before), a, b);
}

/// Of sorted sessions, none was touched before one that comes after it.
pub proof fn law_sorted_by_last_touch(before: Seq<Session>, after: Seq<Session>, i: int, j: int)
    requires
        is_sorted_desc(before, after),
        0 <= i <= j < after.len(),
    ensures
        after[i].updated_at@ >= after[j].updated_at@,
{
    let order = choose|order: Seq<usize>| #[trigger]
        rank::is_ranking(updates(before), 0, before.len() as int, order) && after == in_order(before, order);
    if i < j {
        assert(rank::ahead(updates(before), order[i] as int, order[j] as int));
    }
}

/// Sorting only reorders: no session is lost, added or doubled.
pub proof fn law_sorting_only_reorders(before: Seq<Session>, after: Seq<Session>)
    requires
        is_sorted_desc(before, after),
    ensures
        after.to_multiset() == before.to_multiset(),
{
    let order = choose|order: Seq<usize>| #[trigger]
        rank::is_ranking(updates(before), 0, before.len() as int, order) && after == in_order(before, order);
    let places = order.map_values(|place: usize| place as int);
    assert forall|i: int, j: int| 0 <= i < j < places.len() implies places[i] != places[j] by {
        assert(rank::ahead(updates(before), order[i] as int, order[j] as int));
    }
    lemma_reordered(before, places);
    assert(after =~= Seq::new(places.len(), |i: int| before[places[i]]));
}

proof fn lemma_reordered(items: Seq<Session>, places: Seq<int>)
    requires
        places.len() == items.len(),
        forall|i: int| 0 <= i < places.len() ==> 0 <= #[trigger] places[i] < items.len(),
        forall|i: int, j: int| 0 <= i < j < places.len() ==> #[trigger] places[i] != #[trigger] places[j],
    ensures
        Seq::new(places.len(), |i: int| items[places[i]]).to_multiset() == items.to_multiset(),
    decreases items.len(),
{
    broadcast use vstd::seq_lib::group_to_multiset_ensures;

    let moved = Seq::new(places.len(), |i: int| items[places[i]]);
    if items.len() == 0 {
        assert(moved =~= items);
    } else {
        let n = items.len() - 1;
        let place = places[n];
        let fewer = items.remove(place);
        let shifted = Seq::new(
            n as nat,
            |i: int| if places[i] > place {
                places[i] - 1
            } else {
                places[i]
            },
        );
        assert forall|i: int, j: int| 0 <= i < j < shifted.len() implies #[trigger] shifted[i]
            != #[trigger] shifted[j] by {
            assert(places[i] != places[j]);
            assert(places[i] != places[n]);
            assert(places[j] != places[n]);
        }
        assert forall|i: int| 0 <= i < shifted.len() implies 0 <= #[trigger] shifted[i] < fewer.len() by {
            assert(places[i] != places[n]);
        }
        lemma_reordered(fewer, shifted);
        let rest = Seq::new(shifted.len(), |i: int| fewer[shifted[i]]);
        assert(moved.drop_last() =~= rest) by {
            assert forall|i: int| 0 <= i < rest.len() implies moved[i] == rest[i] by {
                assert(places[i] != places[n]);
            }
        }
        assert(moved =~= rest.push(items[place]));
        assert(items.to_multiset() =~= fewer.to_multiset().insert(items[place]));
    }
}

/// There is a place among the variants for every agent, and one only.
pub proof fn law_every_agent_is_offered_once(agent: Agent)
    ensures
        variants().contains(agent),
        forall|i: int, j: int|
            0 <= i < j < variants().len() ==> #[trigger] variants()[i] != #[trigger] variants()[j],
{
    match agent {
        Agent::ClaudeCode => assert(variants()[0] == agent),
        Agent::Codex => assert(variants()[1] == agent),
        Agent::Cursor => assert(variants()[2] == agent),
        Agent::Pi => assert(variants()[3] == agent),
    }
}

/// The agent offered at a place is shown by the name at that place.
pub proof fn law_each_agent_goes_by_its_name(labels: Labels, i: int)
    requires
        0 <= i < 4,
    ensures
        variants().len() == 4,
        labels.label(variants()[i]) == labels.names@[i]@,
{
    lemma_variant_position(i);
}

/// What is searched of a session is its title, its directory, its branch and the
/// name of its agent, in this order and as they are, with one space between one
/// and the next. What is absent leaves only the spaces around it.
pub proof fn law_all_of_a_session_is_searched(
    session: Session,
    labels: Labels,
    title: Seq<char>,
    cwd: Seq<char>,
    branch: Seq<char>,
)
    requires
        session.title matches Some(s) ==> title == s@,
        session.title is None ==> title.len() == 0,
        session.cwd matches Some(s) ==> cwd == s@,
        session.cwd is None ==> cwd.len() == 0,
        session.branch matches Some(s) ==> branch == s@,
        session.branch is None ==> branch.len() == 0,
    ensures
        ({
            let text = session.search_text(labels);
            let name = labels.label(session.agent);
            let a = title.len() as int;
            let b = a + 1 + cwd.len();
            let c = b + 1 + branch.len();
            &&& text.len() == title.len() + cwd.len() + branch.len() + name.len() + 3
            &&& text.take(a) == title
            &&& text[a] == ' '
            &&& text.subrange(a + 1, b) == cwd
            &&& text[b] == ' '
            &&& text.subrange(b + 1, c) == branch
            &&& text[c] == ' '
            &&& text.skip(c + 1) == name
        }),
{
    let text = session.search_text(labels);
    let name = labels.label(session.agent);
    let a = title.len() as int;
    let b = a + 1 + cwd.len();
    let c = b + 1 + branch.len();
    assert(text::text_or_empty(session.title) =~= title);
    assert(text::text_or_empty(session.cwd) =~= cwd);
    assert(text::text_or_empty(session.branch) =~= branch);
    assert(text.take(a) =~= title);
    assert(text.subrange(a + 1, b) =~= cwd);
    assert(text.subrange(b + 1, c) =~= branch);
    assert(text.skip(c + 1) =~= name);
}

/// Whether `w` stands somewhere in `s`.
pub open spec fn stands_in(w: Seq<char>, s: Seq<char>) -> bool {
    exists|i: int| 0 <= i <= s.len() - w.len() && #[trigger] s.subrange(i, i + w.len()) == w
}

/// Whatever stands in the title, the directory, the branch or the name of the
/// agent of a session stands in what is searched of it.
pub proof fn law_every_word_of_a_session_is_searched(session: Session, labels: Labels, w: Seq<char>)
    ensures
        session.title matches Some(s) && stands_in(w, s@) ==> stands_in(w, session.search_text(labels)),
        session.cwd matches Some(s) && stands_in(w, s@) ==> stands_in(w, session.search_text(labels)),
        session.branch matches Some(s) && stands_in(w, s@) ==> stands_in(w, session.search_text(labels)),
        stands_in(w, labels.label(session.agent)) ==> stands_in(w, session.search_text(labels)),
{
    let text = session.search_text(labels);
    let name = labels.label(session.agent);
    let title = text::text_or_empty(session.title);
    let cwd = text::text_or_empty(session.cwd);
    let branch = text::text_or_empty(session.branch);
    law_all_of_a_session_is_searched(session, labels, title, cwd, branch);
    let a = title.len() as int;
    let b = a + 1 + cwd.len();
    let c = b + 1 + branch.len();
    assert(text.subrange(0, a) =~= text.take(a));
    assert(text.subrange(c + 1, text.len() as int) =~= text.skip(c + 1));
    if stands_in(w, title) {
        lemma_stands_in_more(w, text, 0, a);
    }
    if stands_in(w, cwd) {
        lemma_stands_in_more(w, text, a + 1, b);
    }
    if stands_in(w, branch) {
        lemma_stands_in_more(w, text, b + 1, c);
    }
    if stands_in(w, name) {
        lemma_stands_in_more(w, text, c + 1, text.len() as int);
    }
}

proof fn lemma_stands_in_more(w: Seq<char>, s: Seq<char>, from: int, to: int)
    requires
        0 <= from <= to <= s.len(),
        stands_in(w, s.subrange(from, to)),
    ensures
        stands_in(w, s),
{
    let part = s.subrange(from, to);
    let i = choose|i: int| 0 <= i <= part.len() - w.len() && #[trigger] part.subrange(i, i + w.len()) == w;
    assert(s.subrange(from + i, from + i + w.len()) =~= part.subrange(i, i + w.len()));
}

/// Sessions are sorted by when each of them was last touched.
pub proof fn law_touches_are_the_sessions_own(sessions: Seq<Session>)
    ensures
        updates(sessions).len() == sessions.len(),
        forall|i: int|
            0 <= i < sessions.len() ==> #[trigger] updates(sessions)[i] == sessions[i].updated_at@,
{
}

/// Sorting keeps the sessions touched at one time in the order they stood in.
pub proof fn law_sorting_keeps_ties_in_order(before: Seq<Session>, after: Seq<Session>, time: int)
    requires
        before.len() <= usize::MAX,
        is_sorted_desc(before, after),
    ensures
        after.filter(|session: Session| session.updated_at@ == time) == before.filter(
            |session: Session| session.updated_at@ == time,
        ),
{
    let keep = |session: Session| session.updated_at@ == time;
    let order = choose|order: Seq<usize>| #[trigger]
        rank::is_ranking(updates(before), 0, before.len() as int, order) && after == in_order(before, order);
    let touched = |place: usize| before[place as int].updated_at@ == time;
    let late = order.filter(touched);
    let all = Seq::new(before.len(), |i: int| i as usize);
    let early = all.filter(touched);
    assert forall|i: int, j: int| 0 <= i < j < order.len() && touched(#[trigger] order[i]) && touched(
        #[trigger] order[j],
    ) implies order[i] < order[j] by {
        assert(rank::ahead(updates(before), order[i] as int, order[j] as int));
        assert(updates(before)[order[i] as int] == time && updates(before)[order[j] as int] == time);
    }
    lemma_filtered_ascends(order, touched);
    lemma_filtered_ascends(all, touched);
    assert forall|place: usize| late.contains(place) <==> early.contains(place) by {
        if late.contains(place) {
            assert(order.contains(place));
            assert(all[place as int] == place);
            assert(all.contains(place));
        }
        if early.contains(place) {
            assert(all.contains(place));
            let i = choose|i: int| 0 <= i < all.len() && all[i] == place;
            assert(order.contains(place));
        }
    }
    lemma_one_ascending(late, early);
    lemma_filter_of_places(before, order, keep, touched);
    lemma_filter_of_places(before, all, keep, touched);
    assert(in_order(before, all) =~= before);
}

proof fn lemma_filtered_ascends(places: Seq<usize>, keep: spec_fn(usize) -> bool)
    requires
        forall|i: int, j: int|
            0 <= i < j < places.len() && keep(#[trigger] places[i]) && keep(#[trigger] places[j])
                ==> places[i] < places[j],
    ensures
        forall|i: int, j: int|
            0 <= i < j < places.filter(keep).len() ==> #[trigger] places.filter(keep)[i]
                < #[trigger] places.filter(keep)[j],
        forall|place: usize| #[trigger]
            places.filter(keep).contains(place) <==> places.contains(place) && keep(place),
    decreases places.len(),
{
    reveal(Seq::filter);
    let kept = places.filter(keep);
    if places.len() > 0 {
        let shorter = places.drop_last();
        let last = places.last();
        let earlier = shorter.filter(keep);
        assert(places[places.len() - 1] == last);
        assert forall|i: int, j: int|
            0 <= i < j < shorter.len() && keep(#[trigger] shorter[i]) && keep(#[trigger] shorter[j]) implies shorter[i]
            < shorter[j] by {
            assert(shorter[i] == places[i] && shorter[j] == places[j]);
        }
        lemma_filtered_ascends(shorter, keep);
        assert forall|place: usize| #[trigger] kept.contains(place) <==> places.contains(place) && keep(
            place,
        ) by {
            if kept.contains(place) {
                let i = choose|i: int| 0 <= i < kept.len() && kept[i] == place;
                if i < earlier.len() {
                    assert(earlier[i] == place);
                    assert(earlier.contains(place));
                    let k = choose|k: int| 0 <= k < shorter.len() && shorter[k] == place;
                    assert(places[k] == place);
                }
            }
            if places.contains(place) && keep(place) {
                let k = choose|k: int| 0 <= k < places.len() && places[k] == place;
                if k < shorter.len() {
                    assert(shorter[k] == place);
                    assert(earlier.contains(place));
                    let i = choose|i: int| 0 <= i < earlier.len() && earlier[i] == place;
                    assert(kept[i] == place);
                } else {
                    assert(kept[kept.len() - 1] == place);
                }
            }
        }
        assert forall|i: int, j: int| 0 <= i < j < kept.len() implies #[trigger] kept[i]
            < #[trigger] kept[j] by {
            assert(kept[i] == earlier[i]);
            if j < earlier.len() {
                assert(kept[j] == earlier[j]);
            } else {
                assert(earlier.contains(earlier[i]));
                let k = choose|k: int| 0 <= k < shorter.len() && shorter[k] == earlier[i];
                assert(places[k] == earlier[i]);
            }
        }
    } else {
        assert(kept =~= seq![]);
    }
}

/// Ascending positions are told by which they are.
proof fn lemma_one_ascending(a: Seq<usize>, b: Seq<usize>)
    requires
        forall|i: int, j: int| 0 <= i < j < a.len() ==> #[trigger] a[i] < #[trigger] a[j],
        forall|i: int, j: int| 0 <= i < j < b.len() ==> #[trigger] b[i] < #[trigger] b[j],
        forall|place: usize| a.contains(place) <==> b.contains(place),
    ensures
        a == b,
    decreases a.len(),
{
    if a.len() == 0 {
        if b.len() > 0 {
            assert(b.contains(b[0]));
            assert(a.contains(b[0]));
        }
        assert(a =~= b);
    } else {
        assert(a.contains(a[0]));
        assert(b.contains(a[0]));
        let x = a[a.len() - 1];
        let y = b[b.len() - 1];
        assert(a.contains(x) && b.contains(y));
        assert(b.contains(x) && a.contains(y));
        let p = choose|p: int| 0 <= p < b.len() && b[p] == x;
        let q = choose|q: int| 0 <= q < a.len() && a[q] == y;
        assert(x == y);
        let c = a.drop_last();
        let d = b.drop_last();
        assert forall|place: usize| c.contains(place) <==> d.contains(place) by {
            if c.contains(place) {
                let i = choose|i: int| 0 <= i < c.len() && c[i] == place;
                assert(a[i] == place);
                assert(a.contains(place));
                assert(b.contains(place));
                let k = choose|k: int| 0 <= k < b.len() && b[k] == place;
                assert(d[k] == place);
            }
            if d.contains(place) {
                let i = choose|i: int| 0 <= i < d.len() && d[i] == place;
                assert(b[i] == place);
                assert(b.contains(place));
                assert(a.contains(place));
                let k = choose|k: int| 0 <= k < a.len() && a[k] == place;
                assert(c[k] == place);
            }
        }
        lemma_one_ascending(c, d);
        assert(a =~= c.push(x));
        assert(b =~= d.push(y));
    }
}

proof fn lemma_filter_of_places(
    items: Seq<Session>,
    places: Seq<usize>,
    keep: spec_fn(Session) -> bool,
    touched: spec_fn(usize) -> bool,
)
    requires
        forall|place: usize| #[trigger] touched(place) == keep(items[place as int]),
    ensures
        in_order(items, places).filter(keep) == in_order(items, places.filter(touched)),
    decreases places.len(),
{
    reveal(Seq::filter);
    let moved = in_order(items, places);
    if places.len() > 0 {
        lemma_filter_of_places(items, places.drop_last(), keep, touched);
        assert(moved.drop_last() =~= in_order(items, places.drop_last()));
        assert(touched(places.last()) == keep(moved.last()));
        assert(moved.filter(keep) =~= in_order(items, places.filter(touched)));
    } else {
        assert(moved.filter(keep) =~= in_order(items, places.filter(touched)));
    }
}

} // verus!
