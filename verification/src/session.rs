//! The review session: a state machine over an ordered deck.
//!
//! A session walks the deck card by card.  Each card is shown prompt first;
//! `Reveal` flips it, a mark scores it and advances, `Back` steps backwards,
//! `Quit` ends the session.  A card's first score stands: marking a card
//! reached again through `Back` still advances, but changes no tally.
//! The whole transition relation is the spec function [`step`]; the
//! executable [`ReviewSession::apply`] is proved to implement it exactly.

use vstd::prelude::*;
use crate::deck::{CardView, Deck};

verus! {

/// Which side of the current card is displayed.
#[derive(Clone, Copy, Debug, PartialEq, Eq, Structural)]
pub enum Face {
    Prompt,
    Content,
}

/// One discrete input to the session, as the input boundary produces them.
#[derive(Clone, Copy, Debug, PartialEq, Eq, Structural)]
pub enum Action {
    Reveal,
    MarkCorrect,
    MarkIncorrect,
    Back,
    Quit,
}

/// Where the session stands: reviewing, out of cards, or quit for good.
#[derive(Clone, Copy, Debug, PartialEq, Eq, Structural)]
pub enum Phase {
    Active,
    Finished,
    Terminated,
}

/// Mathematical image of a session.  `cursor` and `face` are meaningful
/// while `phase` is `Active`; `scored` counts the cards whose score stands,
/// which are exactly the first `scored` cards of the deck.
#[verifier::ext_equal]
pub ghost struct SessionView {
    pub deck: Seq<CardView>,
    pub cursor: int,
    pub face: Face,
    pub correct: int,
    pub missed: Seq<Seq<char>>,
    pub scored: int,
    pub phase: Phase,
}

/// The views of a vector of strings, in order.
pub open spec fn string_views(v: Seq<String>) -> Seq<Seq<char>> {
    v.map_values(|t: String| t@)
}

/// No two cards of the deck share an id.
pub open spec fn distinct_ids(deck: Seq<CardView>) -> bool {
    forall|i: int, j: int| 0 <= i < j < deck.len() ==> deck[i].id != deck[j].id
}

/// The state a fresh session starts in: first card, prompt up, empty tally.
pub open spec fn init_view(deck: Seq<CardView>) -> SessionView {
    SessionView {
        deck,
        cursor: 0,
        face: Face::Prompt,
        correct: 0,
        missed: Seq::empty(),
        scored: 0,
        phase: Phase::Active,
    }
}

/// Record a mark for the current card.  Only a card not yet scored in this
/// pass changes the tally: the first score stands.
pub open spec fn record_score(s: SessionView, correct_mark: bool) -> SessionView {
    if s.cursor == s.scored {
        if correct_mark {
            SessionView { correct: s.correct + 1, scored: s.scored + 1, ..s }
        } else {
            let id = s.deck[s.cursor].id;
            SessionView {
                missed: if s.missed.contains(id) {
                    s.missed
                } else {
                    s.missed.push(id)
                },
                scored: s.scored + 1,
                ..s
            }
        }
    } else {
        s
    }
}

/// Move past the current card: to the next prompt, or to `Finished` when
/// the current card is the last.
pub open spec fn advance(s: SessionView) -> SessionView {
    if s.cursor + 1 == s.deck.len() {
        SessionView { phase: Phase::Finished, ..s }
    } else {
        SessionView { cursor: s.cursor + 1, face: Face::Prompt, ..s }
    }
}

/// The whole transition relation of the session.  An action that is not
/// valid in the current state leaves the state unchanged.
pub open spec fn step(s: SessionView, a: Action) -> SessionView {
    match s.phase {
        Phase::Terminated => s,
        Phase::Finished => match a {
            Action::Quit => SessionView { phase: Phase::Terminated, ..s },
            _ => s,
        },
        Phase::Active => match a {
            Action::Reveal => if s.face == Face::Prompt {
                SessionView { face: Face::Content, ..s }
            } else {
                s
            },
            Action::MarkCorrect => if s.face == Face::Content {
                advance(record_score(s, true))
            } else {
                s
            },
            Action::MarkIncorrect => if s.face == Face::Content {
                advance(record_score(s, false))
            } else {
                s
            },
            Action::Back => if s.face == Face::Content {
                SessionView { face: Face::Prompt, ..s }
            } else if s.cursor > 0 {
                SessionView { cursor: s.cursor - 1, face: Face::Content, ..s }
            } else {
                s
            },
            Action::Quit => SessionView { phase: Phase::Terminated, ..s },
        },
    }
}

/// Well-formedness of a session state, kept by every transition.
pub open spec fn wf(s: SessionView) -> bool {
    &&& s.deck.len() >= 1
    &&& 0 <= s.correct
    &&& 0 <= s.scored <= s.deck.len()
    &&& s.correct + s.missed.len() <= s.scored
    &&& (distinct_ids(s.deck) ==> s.correct + s.missed.len() == s.scored)
    &&& (forall|i: int, j: int| 0 <= i < j < s.missed.len() ==> s.missed[i] != s.missed[j])
    &&& (forall|i: int|
        0 <= i < s.missed.len() ==> exists|k: int|
            0 <= k < s.scored && s.deck[k].id == #[trigger] s.missed[i])
    &&& match s.phase {
        Phase::Active => 0 <= s.cursor <= s.scored && s.scored < s.deck.len(),
        Phase::Finished => s.scored == s.deck.len(),
        Phase::Terminated => true,
    }
}

/// Law: every transition keeps the session well-formed — in particular the
/// tally never accounts for more cards than have been scored, and a deck of
/// distinct ids is accounted exactly.
pub proof fn lemma_step_preserves_wf(s: SessionView, a: Action)
    requires
        wf(s),
    ensures
        wf(step(s, a)),
{
    let t = step(s, a);
    if s.phase == Phase::Active && s.face == Face::Content && (a == Action::MarkCorrect || a
        == Action::MarkIncorrect) {
        let u = record_score(s, a == Action::MarkCorrect);
        if s.cursor == s.scored {
            let id = s.deck[s.cursor].id;
            if a == Action::MarkIncorrect && s.missed.contains(id) {
                // Under distinct ids this cannot happen: the id of an
                // unscored card is not among the scored cards' ids.
                if distinct_ids(s.deck) {
                    let i = choose|i: int| 0 <= i < s.missed.len() && s.missed[i] == id;
                    assert(exists|k: int|
                        0 <= k < s.scored && s.deck[k].id == s.missed[i]);
                    let k = choose|k: int| 0 <= k < s.scored && s.deck[k].id == s.missed[i];
                    assert(s.deck[k].id == s.deck[s.cursor].id);
                    assert(false);
                }
            }
        }
        assert(t == advance(u));
        assert forall|i: int| 0 <= i < t.missed.len() implies exists|k: int|
            0 <= k < t.scored && t.deck[k].id == #[trigger] t.missed[i] by {
            if i < s.missed.len() {
                assert(t.missed[i] == s.missed[i]);
                assert(exists|k: int| 0 <= k < s.scored && s.deck[k].id == s.missed[i]);
                let k = choose|k: int| 0 <= k < s.scored && s.deck[k].id == s.missed[i];
                assert(0 <= k < t.scored && t.deck[k].id == t.missed[i]);
            } else {
                assert(t.missed[i] == s.deck[s.cursor].id);
                assert(0 <= s.cursor < t.scored && t.deck[s.cursor].id == t.missed[i]);
            }
        }
    }
}

/// Apply a sequence of actions in order.
pub open spec fn run_steps(s: SessionView, actions: Seq<Action>) -> SessionView
    decreases actions.len(),
{
    if actions.len() == 0 {
        s
    } else {
        run_steps(step(s, actions[0]), actions.skip(1))
    }
}

/// Whether an action is one of the two marks.
pub open spec fn is_mark(a: Action) -> bool {
    a == Action::MarkCorrect || a == Action::MarkIncorrect
}

/// The action sequence that reviews each remaining card once: a `Reveal`
/// before every mark.
pub open spec fn reveal_mark_pairs(marks: Seq<Action>) -> Seq<Action>
    decreases marks.len(),
{
    if marks.len() == 0 {
        Seq::empty()
    } else {
        seq![Action::Reveal, marks[0]] + reveal_mark_pairs(marks.skip(1))
    }
}

proof fn lemma_run_two_then(s: SessionView, a: Action, b: Action, rest: Seq<Action>)
    ensures
        run_steps(s, seq![a, b] + rest) == run_steps(step(step(s, a), b), rest),
{
    let u = seq![a, b] + rest;
    assert(u[0] == a);
    assert(u.skip(1) =~= seq![b] + rest);
    assert((seq![b] + rest)[0] == b);
    assert((seq![b] + rest).skip(1) =~= rest);
    assert(run_steps(s, u) == run_steps(step(s, a), u.skip(1)));
    assert(run_steps(step(s, a), seq![b] + rest) == run_steps(step(step(s, a), b), rest));
}

/// Law: from the prompt of the first unscored card, one `(Reveal, mark)`
/// pair per remaining card reaches `Finished` — so a fresh session over a
/// deck of `N` cards finishes after exactly `N` pairs.
pub proof fn lemma_pass_reaches_finished(s: SessionView, marks: Seq<Action>)
    requires
        wf(s),
        s.phase == Phase::Active,
        s.face == Face::Prompt,
        s.cursor == s.scored,
        marks.len() == s.deck.len() - s.cursor,
        forall|i: int| 0 <= i < marks.len() ==> is_mark(#[trigger] marks[i]),
    ensures
        run_steps(s, reveal_mark_pairs(marks)).phase == Phase::Finished,
    decreases marks.len(),
{
    let s1 = step(s, Action::Reveal);
    let s2 = step(s1, marks[0]);
    lemma_run_two_then(s, Action::Reveal, marks[0], reveal_mark_pairs(marks.skip(1)));
    lemma_step_preserves_wf(s, Action::Reveal);
    lemma_step_preserves_wf(s1, marks[0]);
    if s.cursor + 1 == s.deck.len() {
        assert(marks.skip(1).len() == 0);
        assert(reveal_mark_pairs(marks.skip(1)) =~= Seq::<Action>::empty());
        assert(s2.phase == Phase::Finished);
    } else {
        assert(s2.phase == Phase::Active && s2.face == Face::Prompt && s2.cursor == s.cursor + 1
            && s2.scored == s2.cursor && s2.deck == s.deck);
        assert(forall|i: int|
            0 <= i < marks.skip(1).len() ==> is_mark(#[trigger] marks.skip(1)[i]));
        lemma_pass_reaches_finished(s2, marks.skip(1));
    }
}

/// Law: a fresh session over a non-empty deck of `N` cards reaches
/// `Finished` after exactly `N` `(Reveal, mark)` pairs.
pub proof fn lemma_fresh_session_finishes(deck: Seq<CardView>, marks: Seq<Action>)
    requires
        deck.len() >= 1,
        marks.len() == deck.len(),
        forall|i: int| 0 <= i < marks.len() ==> is_mark(#[trigger] marks[i]),
    ensures
        run_steps(init_view(deck), reveal_mark_pairs(marks)).phase == Phase::Finished,
{
    lemma_pass_reaches_finished(init_view(deck), marks);
}

/// Law: once the deck is exhausted, the tally accounts for at most `N`
/// cards, and — as every card's first score stands and ids are unique in a
/// scanned deck — for exactly `N` when the ids are distinct.
pub proof fn lemma_finished_tally(s: SessionView)
    requires
        wf(s),
        s.phase == Phase::Finished,
    ensures
        s.correct + s.missed.len() <= s.deck.len(),
        distinct_ids(s.deck) ==> s.correct + s.missed.len() == s.deck.len(),
{
}

/// Law: `Reveal` is rejecting-idempotent.  The first `Reveal` from a prompt
/// turns the content up; a second one, with nothing in between, is a no-op.
pub proof fn lemma_reveal_rejecting_idempotent(s: SessionView)
    ensures
        step(step(s, Action::Reveal), Action::Reveal) == step(s, Action::Reveal),
        s.phase == Phase::Active && s.face == Face::Prompt ==> step(s, Action::Reveal).face
            == Face::Content && step(s, Action::Reveal).cursor == s.cursor,
{
}

/// Law: after a mark moves the session forward, `Back` then `Reveal`
/// restores the exact `(cursor, face)` pair shown before the forward step.
pub proof fn lemma_back_reveal_restores(s: SessionView, mark: Action)
    requires
        wf(s),
        s.phase == Phase::Active,
        s.face == Face::Content,
        is_mark(mark),
        step(s, mark).phase == Phase::Active,
    ensures
        step(step(step(s, mark), Action::Back), Action::Reveal).cursor == s.cursor,
        step(step(step(s, mark), Action::Back), Action::Reveal).face == s.face,
{
    lemma_step_preserves_wf(s, mark);
}

/// A session's running score: how many cards were marked correct, and the
/// ids marked incorrect, in first-marked order.
pub struct Tally {
    pub correct: usize,
    pub missed: Vec<String>,
}

/// The interactive review of one deck.
pub struct ReviewSession {
    deck: Deck,
    cursor: usize,
    face: Face,
    correct: usize,
    missed: Vec<String>,
    scored: usize,
    phase: Phase,
}

impl View for ReviewSession {
    type V = SessionView;

    closed spec fn view(&self) -> SessionView {
        SessionView {
            deck: self.deck@,
            cursor: self.cursor as int,
            face: self.face,
            correct: self.correct as int,
            missed: string_views(self.missed@),
            scored: self.scored as int,
            phase: self.phase,
        }
    }
}

fn contains_string(v: &Vec<String>, s: &String) -> (r: bool)
    ensures
        r == string_views(v@).contains(s@),
{
    let mut i: usize = 0;
    while i < v.len()
        invariant
            i <= v.len(),
            forall|k: int| 0 <= k < i ==> string_views(v@)[k] != s@,
        decreases v.len() - i,
    {
        if v[i].eq(s) {
            proof {
                assert(string_views(v@)[i as int] == s@);
            }
            return true;
        }
        i = i + 1;
    }
    false
}

fn clone_strings(v: &Vec<String>) -> (r: Vec<String>)
    ensures
        r@ == v@,
{
    let mut out: Vec<String> = Vec::new();
    let mut i: usize = 0;
    while i < v.len()
        invariant
            i <= v.len(),
            out@ =~= v@.take(i as int),
        decreases v.len() - i,
    {
        out.push(v[i].clone());
        proof {
            assert(out@ =~= v@.take(i as int + 1));
        }
        i = i + 1;
    }
    proof {
        assert(v@.take(v@.len() as int) =~= v@);
    }
    out
}

impl ReviewSession {
    /// Begin reviewing a non-empty deck: first card, prompt up, empty tally.
    pub fn new(deck: Deck) -> (s: ReviewSession)
        requires
            deck@.len() >= 1,
        ensures
            s@ == init_view(deck@),
            wf(s@),
    {
        let s = ReviewSession {
            deck,
            cursor: 0,
            face: Face::Prompt,
            correct: 0,
            missed: Vec::new(),
            scored: 0,
            phase: Phase::Active,
        };
        proof {
            assert(string_views(s.missed@) =~= Seq::<Seq<char>>::empty());
            assert(s@ =~= init_view(s.deck@));
        }
        s
    }

    /// Apply one action: exactly the transition [`step`] of the state
    /// machine.  An action invalid in the current state is a local no-op.
    pub fn apply(&mut self, action: Action)
        requires
            wf(old(self)@),
        ensures
            final(self)@ == step(old(self)@, action),
            wf(final(self)@),
    {
        match self.phase {
            Phase::Terminated => {},
            Phase::Finished => {
                match action {
                    Action::Quit => {
                        self.phase = Phase::Terminated;
                    },
                    _ => {},
                }
            },
            Phase::Active => {
                match action {
                    Action::Reveal => {
                        if self.face == Face::Prompt {
                            self.face = Face::Content;
                        }
                    },
                    Action::MarkCorrect => {
                        if self.face == Face::Content {
                            let n = self.deck.len();
                            if self.cursor == self.scored {
                                self.correct = self.correct + 1;
                                self.scored = self.scored + 1;
                            }
                            if self.cursor + 1 == n {
                                self.phase = Phase::Finished;
                            } else {
                                self.cursor = self.cursor + 1;
                                self.face = Face::Prompt;
                            }
                        }
                    },
                    Action::MarkIncorrect => {
                        if self.face == Face::Content {
                            let n = self.deck.len();
                            if self.cursor == self.scored {
                                let id = self.deck.cards[self.cursor].id.clone();
                                let ghost before = self.missed@;
                                if !contains_string(&self.missed, &id) {
                                    self.missed.push(id);
                                    proof {
                                        assert(string_views(self.missed@) =~= string_views(
                                            before,
                                        ).push(old(self)@.deck[old(self)@.cursor].id));
                                    }
                                }
                                self.scored = self.scored + 1;
                            }
                            if self.cursor + 1 == n {
                                self.phase = Phase::Finished;
                            } else {
                                self.cursor = self.cursor + 1;
                                self.face = Face::Prompt;
                            }
                        }
                    },
                    Action::Back => {
                        if self.face == Face::Content {
                            self.face = Face::Prompt;
                        } else if self.cursor > 0 {
                            self.cursor = self.cursor - 1;
                            self.face = Face::Content;
                        }
                    },
                    Action::Quit => {
                        self.phase = Phase::Terminated;
                    },
                }
            },
        }
        proof {
            assert(self@ =~= step(old(self)@, action));
            lemma_step_preserves_wf(old(self)@, action);
        }
    }

    /// The deck under review.
    pub fn deck(&self) -> (d: &Deck)
        ensures
            d@ == self@.deck,
    {
        &self.deck
    }

    /// Which phase the session is in.
    pub fn phase(&self) -> (p: Phase)
        ensures
            p == self@.phase,
    {
        self.phase
    }

    /// The current card index; meaningful while the session is `Active`.
    pub fn cursor(&self) -> (c: usize)
        ensures
            c == self@.cursor,
    {
        self.cursor
    }

    /// The face currently shown; meaningful while the session is `Active`.
    pub fn face(&self) -> (f: Face)
        ensures
            f == self@.face,
    {
        self.face
    }

    /// The running score so far: correct count and missed ids, in
    /// first-marked order.
    pub fn tally(&self) -> (t: Tally)
        ensures
            t.correct == self@.correct,
            string_views(t.missed@) == self@.missed,
    {
        Tally { correct: self.correct, missed: clone_strings(&self.missed) }
    }
}

} // verus!
