//! The interactive session's state machine: a pure transition from state
//! and input event to new state and action, kept apart from the loop that
//! reads events and draws frames.

use vstd::prelude::*;

use crate::db::{Db, Error, search_post, str_pairs_view};

verus! {

/// An input event, reduced to what the transition decides on: quitting,
/// scrolling, an edit that left the given text in the input line, or
/// anything else.
pub enum SessionEvent {
    Quit,
    ScrollUp,
    ScrollDown,
    Edited(String),
    Other,
}

/// What the loop must do after a transition: leave, re-run the committed
/// query at the current offset, run the scroll-down measurement (a query
/// at the current offset whose fresh count decides whether the window
/// advances), or only draw the frame again.
#[derive(PartialEq, Eq, Structural)]
pub enum SessionAction {
    Exit,
    Query,
    Scroll,
    Redraw,
}

/// The session state: the input line's text, the last text that triggered
/// a search, the current window of results, and the window's offset.
pub struct App {
    pub input: String,
    pub prev: String,
    pub results: Vec<(String, String)>,
    pub offset: usize,
}

/// Number of rows the results list can use, given the terminal's row
/// count: one header row and three input-box rows are reserved, and at
/// least one result row is always kept.
pub fn get_list_height(rows: u16) -> (r: usize)
    ensures
        r == if rows >= 5 { rows - 4 } else { 1int },
        r >= 1,
{
    if rows >= 5 {
        (rows - 4) as usize
    } else {
        1
    }
}

/// Columns the input box has for text: its width less the two border
/// columns and one column for the cursor, at zero for the narrowest boxes.
pub fn input_box_inner_width(width: u16) -> (r: u16)
    ensures
        r == if width >= 3 { width - 3 } else { 0int },
{
    if width >= 3 {
        width - 3
    } else {
        0
    }
}

/// Column of the edit cursor inside the input box: just past the box's
/// horizontal scroll, one column in from the border, so the cursor always
/// stays inside the box.
pub fn cursor_column(visual_cursor: usize, scroll: usize) -> (r: usize)
    requires
        visual_cursor < usize::MAX,
    ensures
        r == if visual_cursor >= scroll {
            visual_cursor - scroll + 1
        } else {
            1int
        },
{
    if visual_cursor >= scroll {
        visual_cursor - scroll + 1
    } else {
        1
    }
}

/// One row of the results list: the displayed headword, a colon and a
/// space, then the translation.
pub fn result_row(head: &str, translation: &str) -> (r: String)
    ensures
        r@ == head@ + seq![':', ' '] + translation@,
{
    let mut r = head.to_owned();
    r.append(": ");
    r.append(translation);
    proof {
        reveal_strlit(": ");
        assert(": "@ =~= seq![':', ' ']);
        assert(r@ =~= head@ + seq![':', ' '] + translation@);
    }
    r
}

/// The state after one transition. A scroll-down leaves the state alone:
/// whether the window advances is decided by the count that the measuring
/// query returns, not by the cached window.
pub open spec fn step_state(s: App, e: SessionEvent, viewport: int) -> App {
    match e {
        SessionEvent::Quit => s,
        SessionEvent::ScrollUp => {
            if s.offset > 0 {
                App { offset: (s.offset - 1) as usize, ..s }
            } else {
                s
            }
        },
        SessionEvent::ScrollDown => s,
        SessionEvent::Edited(t) => {
            if t@.len() > 0 && t@ != s.prev@ {
                App { input: t, prev: t, offset: 0, ..s }
            } else {
                App { input: t, ..s }
            }
        },
        SessionEvent::Other => s,
    }
}

/// The action owed after one transition.
pub open spec fn step_action(s: App, e: SessionEvent, viewport: int) -> SessionAction {
    match e {
        SessionEvent::Quit => SessionAction::Exit,
        SessionEvent::ScrollUp => {
            if s.offset > 0 {
                SessionAction::Query
            } else {
                SessionAction::Redraw
            }
        },
        SessionEvent::ScrollDown => SessionAction::Scroll,
        SessionEvent::Edited(t) => {
            if t@.len() > 0 && t@ != s.prev@ {
                SessionAction::Query
            } else {
                SessionAction::Redraw
            }
        },
        SessionEvent::Other => SessionAction::Redraw,
    }
}

/// The window offset after a scroll-down whose measuring query returned
/// `fresh_len` results against a viewport of `viewport` rows: the window
/// advances exactly when the fresh count fills the viewport.
pub open spec fn offset_after_scroll_down(offset: usize, fresh_len: int, viewport: int) -> usize {
    if fresh_len >= viewport {
        (offset + 1) as usize
    } else {
        offset
    }
}

impl App {
    /// A fresh session: empty input, nothing committed, no results, offset
    /// at the top.
    pub fn new() -> (r: App)
        ensures
            r.input@.len() == 0,
            r.prev@.len() == 0,
            r.results@.len() == 0,
            r.offset == 0,
    {
        App { input: String::new(), prev: String::new(), results: Vec::new(), offset: 0 }
    }

    /// One transition of the session: quit ends the loop; scroll-up moves
    /// the window up when it is not at the top and asks for a re-run;
    /// scroll-down asks for the measuring query (`scroll_down`); an edit
    /// that leaves non-empty text differing from the committed query
    /// commits it, resets the window to the top and asks for a re-run;
    /// anything else only redraws.
    pub fn step(&mut self, e: SessionEvent, viewport: usize) -> (a: SessionAction)
        ensures
            *final(self) == step_state(*old(self), e, viewport as int),
            a == step_action(*old(self), e, viewport as int),
    {
        match e {
            SessionEvent::Quit => SessionAction::Exit,
            SessionEvent::ScrollUp => {
                if self.offset > 0 {
                    self.offset = self.offset - 1;
                    SessionAction::Query
                } else {
                    SessionAction::Redraw
                }
            },
            SessionEvent::ScrollDown => SessionAction::Scroll,
            SessionEvent::Edited(t) => {
                let changed = t.as_str().unicode_len() > 0 && !equal_str(&t, &self.prev);
                self.input = t.clone();
                if changed {
                    self.prev = t;
                    self.offset = 0;
                    SessionAction::Query
                } else {
                    SessionAction::Redraw
                }
            },
            SessionEvent::Other => SessionAction::Redraw,
        }
    }

    /// Replaces the result window with a fresh result list; nothing else
    /// changes.
    pub fn apply_results(&mut self, results: Vec<(String, String)>)
        ensures
            final(self).results == results,
            final(self).input == old(self).input,
            final(self).prev == old(self).prev,
            final(self).offset == old(self).offset,
    {
        self.results = results;
    }

    /// Re-runs the committed query at the current offset, with the
    /// viewport height as the limit, and replaces the result window with
    /// what came back; on failure the state is unchanged.
    pub fn update_results(&mut self, db: &Db, viewport: usize) -> (r: Result<(), Error>)
        requires
            viewport >= 1,
            old(self).offset + viewport <= usize::MAX,
        ensures
            r is Ok ==> {
                &&& search_post(
                    db@,
                    old(self).prev@,
                    viewport as int,
                    old(self).offset as int,
                    str_pairs_view(final(self).results@),
                )
                &&& final(self).input == old(self).input
                &&& final(self).prev == old(self).prev
                &&& final(self).offset == old(self).offset
            },
            r is Err ==> *final(self) == *old(self),
    {
        match db.search(self.prev.as_str(), viewport, self.offset) {
            Ok(results) => {
                self.results = results;
                Ok(())
            },
            Err(e) => Err(e),
        }
    }

    /// Scroll-down: issues the committed query at the current offset, and
    /// only when the count it returns fills the viewport — the heuristic
    /// signal that more results likely exist, since no total count is
    /// available — advances the window by one row and re-runs. Either way
    /// the window ends up holding the fresh results of the committed query
    /// at the final offset; on failure the input and the committed query
    /// are untouched and the offset moved at most one row down.
    pub fn scroll_down(&mut self, db: &Db, viewport: usize) -> (r: Result<(), Error>)
        requires
            viewport >= 1,
            old(self).offset + viewport < usize::MAX,
        ensures
            r is Ok ==> exists|mid: Seq<(Seq<char>, Seq<char>)>|
                {
                    &&& #[trigger] search_post(
                        db@,
                        old(self).prev@,
                        viewport as int,
                        old(self).offset as int,
                        mid,
                    )
                    &&& final(self).offset == offset_after_scroll_down(
                        old(self).offset,
                        mid.len() as int,
                        viewport as int,
                    )
                    &&& search_post(
                        db@,
                        old(self).prev@,
                        viewport as int,
                        final(self).offset as int,
                        str_pairs_view(final(self).results@),
                    )
                },
            r is Ok ==> final(self).input == old(self).input && final(self).prev == old(
                self,
            ).prev,
            r is Err ==> final(self).input == old(self).input && final(self).prev == old(self).prev
                && (final(self).offset == old(self).offset || final(self).offset == old(self).offset
                + 1),
    {
        match self.update_results(db, viewport) {
            Ok(()) => (),
            Err(e) => {
                return Err(e);
            },
        }
        let ghost mid = str_pairs_view(self.results@);
        if self.results.len() >= viewport {
            self.offset = self.offset + 1;
            match self.update_results(db, viewport) {
                Ok(()) => (),
                Err(e) => {
                    return Err(e);
                },
            }
        }
        proof {
            assert(search_post(
                db@,
                old(self).prev@,
                viewport as int,
                old(self).offset as int,
                mid,
            ));
        }
        Ok(())
    }
}

/// Whether two strings hold the same text.
fn equal_str(a: &String, b: &String) -> (r: bool)
    ensures
        r == (a@ == b@),
{
    String::eq(a, b)
}

/// Law: a scroll-down followed immediately by a scroll-up brings the
/// window offset back to its prior value when the underlying data has not
/// changed — the measuring query then fills the viewport and the offset
/// goes one row down and one row up, or the session stood at the top and
/// neither scroll moves it. A short measurement below the top is left out:
/// there scroll-down holds still and scroll-up moves the window above its
/// prior place.
pub proof fn lemma_scroll_round_trip(s0: App, s1: App, viewport: int, fresh_len: int)
    requires
        s0.offset < usize::MAX,
        fresh_len >= viewport || s0.offset == 0,
        s1.offset == offset_after_scroll_down(s0.offset, fresh_len, viewport),
    ensures
        step_state(s1, SessionEvent::ScrollUp, viewport).offset == s0.offset,
{
}

/// Law: the scroll round trip, judged from the cached window. When the
/// current window holds the committed query's result at the current offset
/// and the store has not changed, the scroll-down measurement returns that
/// same window, so a scroll-down followed immediately by a scroll-up
/// returns the offset to its prior value whenever the cached window was
/// full or the session stood at the top.
pub proof fn lemma_scroll_round_trip_cached(
    m: Map<Seq<u8>, Seq<u8>>,
    s0: App,
    s1: App,
    viewport: int,
    mid: Seq<(Seq<char>, Seq<char>)>,
)
    requires
        s0.offset < usize::MAX,
        search_post(m, s0.prev@, viewport, s0.offset as int, str_pairs_view(s0.results@)),
        search_post(m, s0.prev@, viewport, s0.offset as int, mid),
        s1.offset == offset_after_scroll_down(s0.offset, mid.len() as int, viewport),
        s0.results@.len() >= viewport || s0.offset == 0,
    ensures
        step_state(s1, SessionEvent::ScrollUp, viewport).offset == s0.offset,
{
    crate::laws::lemma_search_post_unique(
        m,
        s0.prev@,
        viewport,
        s0.offset as int,
        str_pairs_view(s0.results@),
        mid,
    );
    assert(mid.len() == s0.results@.len());
    lemma_scroll_round_trip(s0, s1, viewport, mid.len() as int);
}

} // verus!
