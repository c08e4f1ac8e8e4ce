//! Read-only projection of a session for the renderer.
//!
//! The projection is a pure function of the session state, recomputed per
//! draw request.  It hands the renderer plain values; turning the progress
//! pair into display text is the renderer's business.

use vstd::prelude::*;
use crate::session::{Face, Phase, ReviewSession, string_views, wf};

verus! {

/// What the renderer draws: the current card, or the closing summary.
pub enum ViewModel {
    /// An active session: the shown text is the prompt (the card id) while
    /// the prompt face is up, else the card's content.  `position` counts
    /// from 1; progress reads `position/total`.
    Active {
        card_id: String,
        displayed_text: String,
        position: usize,
        total: usize,
        running_score: usize,
    },
    /// An exhausted deck: the final score and the missed ids in
    /// first-marked order.
    Finished { score: usize, missed: Vec<String> },
}

/// Project a session for display: the current card while active, the
/// summary when finished, nothing once terminated.
pub fn view_model(session: &ReviewSession) -> (r: Option<ViewModel>)
    requires
        wf(session@),
    ensures
        match r {
            Some(vm) => match vm {
                ViewModel::Active { card_id, displayed_text, position, total, running_score } => {
                    &&& session@.phase == Phase::Active
                    &&& card_id@ == session@.deck[session@.cursor].id
                    &&& displayed_text@ == if session@.face == Face::Prompt {
                        session@.deck[session@.cursor].id
                    } else {
                        session@.deck[session@.cursor].content
                    }
                    &&& position == session@.cursor + 1
                    &&& total == session@.deck.len()
                    &&& running_score == session@.correct
                },
                ViewModel::Finished { score, missed } => {
                    &&& session@.phase == Phase::Finished
                    &&& score == session@.correct
                    &&& string_views(missed@) == session@.missed
                },
            },
            None => session@.phase == Phase::Terminated,
        },
{
    match session.phase() {
        Phase::Active => {
            let n = session.deck().len();
            let c = session.cursor();
            let card = &session.deck().cards[c];
            let displayed_text = if session.face() == Face::Prompt {
                card.id.clone()
            } else {
                card.content.clone()
            };
            Some(
                ViewModel::Active {
                    card_id: card.id.clone(),
                    displayed_text,
                    position: c + 1,
                    total: n,
                    running_score: session.tally().correct,
                },
            )
        },
        Phase::Finished => {
            let t = session.tally();
            Some(ViewModel::Finished { score: t.correct, missed: t.missed })
        },
        Phase::Terminated => None,
    }
}

/// The share of `num1` in `num2`, in whole percent steps of `num2`; `0`
/// whenever `num2` is not positive.
pub fn calc_percentage(num1: &i32, num2: &i32) -> (r: i32)
    requires
        *num1 >= 0,
        *num1 <= 21_474_836,
    ensures
        r == if *num2 <= 0 {
            0int
        } else {
            (*num1 as int / *num2 as int) * 100
        },
{
    if *num2 <= 0 {
        return 0;
    }
    let q = *num1 / *num2;
    proof {
        assert(*num1 as int / *num2 as int <= *num1 as int) by (nonlinear_arith)
            requires
                *num1 >= 0,
                *num2 >= 1,
        ;
    }
    q * 100
}

} // verus!
