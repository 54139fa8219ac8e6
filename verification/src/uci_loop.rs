//! The UCI loop's own decisions: which lines wait for a running search (and in what order
//! they are handled afterwards), and whether the engine leaves once a search answers.
use vstd::prelude::*;
use crate::text::tokens;
use crate::uci::{UciAction, action_for, perft_depth, perft_depth_of, uci_action};

verus! {

/// The UCI loop's state between events: whether a search runs, whether the engine leaves
/// once it answers, and the lines kept until then, oldest first.
pub struct UciLoop {
    searching: bool,
    quitting: bool,
    deferred: Vec<String>,
}

impl UciLoop {
    /// A search is running.
    pub closed spec fn is_searching(&self) -> bool {
        self.searching
    }

    /// The engine leaves once the running search answers.
    pub closed spec fn is_quitting(&self) -> bool {
        self.quitting
    }

    /// The lines waiting for the running search to answer, oldest first.
    pub closed spec fn pending(&self) -> Seq<Seq<char>> {
        self.deferred@.map_values(|s: String| s@)
    }

    /// Idle, staying, with nothing waiting.
    pub fn new() -> (r: UciLoop)
        ensures
            !r.is_searching(),
            !r.is_quitting(),
            r.pending() == Seq::<Seq<char>>::empty(),
    {
        let r = UciLoop { searching: false, quitting: false, deferred: Vec::new() };
        proof {
            assert(r.pending() =~= Seq::<Seq<char>>::empty());
        }
        r
    }

    /// Whether a search is running.
    pub fn searching(&self) -> (r: bool)
        ensures
            r == self.is_searching(),
    {
        self.searching
    }

    /// Takes in a command line and says what to do with it (see `action_for`): a line that
    /// must wait goes to the back of the queue; `quit` during a search makes the engine leave
    /// once the search answers; a `go` that is not a perft count starts a search.
    pub fn accept_line(&mut self, line: String) -> (r: UciAction)
        ensures
            r == action_for(line@, old(self).is_searching()),
            final(self).pending() == if r == UciAction::Defer {
                old(self).pending().push(line@)
            } else {
                old(self).pending()
            },
            final(self).is_quitting() == (old(self).is_quitting() || (r == UciAction::Quit
                && old(self).is_searching())),
            final(self).is_searching() == (old(self).is_searching() || (r == UciAction::Go
                && perft_depth_of(tokens(line@)) is None)),
    {
        let action = uci_action(line.as_str(), self.searching);
        match action {
            UciAction::Defer => {
                let ghost before = self.deferred@;
                self.deferred.push(line);
                proof {
                    assert(self.deferred@.map_values(|s: String| s@) =~= before.map_values(
                        |s: String| s@,
                    ).push(line@));
                }
            },
            UciAction::Quit => {
                if self.searching {
                    self.quitting = true;
                }
            },
            UciAction::Go => {
                if perft_depth(line.as_str()).is_none() {
                    self.searching = true;
                }
            },
            _ => {},
        }
        action
    }

    /// The next line to handle while no search runs: the oldest waiting line, which leaves
    /// the queue; nothing during a search or when no line waits.
    pub fn take_deferred(&mut self) -> (r: Option<String>)
        ensures
            final(self).is_searching() == old(self).is_searching(),
            final(self).is_quitting() == old(self).is_quitting(),
            old(self).is_searching() || old(self).pending().len() == 0 ==> r is None
                && final(self).pending() == old(self).pending(),
            !old(self).is_searching() && old(self).pending().len() > 0 ==> (r matches Some(l) && l@
                == old(self).pending()[0] && final(self).pending() == old(self).pending().drop_first()),
    {
        if self.searching || self.deferred.len() == 0 {
            return None;
        }
        let ghost before = self.deferred@;
        let line = self.deferred.remove(0);
        proof {
            assert(self.deferred@.map_values(|s: String| s@) =~= before.map_values(
                |s: String| s@,
            ).drop_first());
        }
        Some(line)
    }

    /// The running search answered: whether to report its result, which is not done when
    /// the engine is leaving (the loop then ends).
    pub fn finish_search(&mut self) -> (r: bool)
        ensures
            r == !old(self).is_quitting(),
            !final(self).is_searching(),
            final(self).is_quitting() == old(self).is_quitting(),
            final(self).pending() == old(self).pending(),
    {
        self.searching = false;
        !self.quitting
    }

    /// The input closed: a running search is to be cancelled (the answer is `true`) and the
    /// engine leaves once it answers; with no search running the loop ends (`false`).
    pub fn input_closed(&mut self) -> (r: bool)
        ensures
            r == old(self).is_searching(),
            final(self).is_searching() == old(self).is_searching(),
            final(self).is_quitting() == (old(self).is_quitting() || old(self).is_searching()),
            final(self).pending() == old(self).pending(),
    {
        if self.searching {
            self.quitting = true;
        }
        self.searching
    }
}

} // verus!
