//! Progress bookkeeping for long reduce runs: how many blocks and files are done, when a
//! progress line is due (redrawn in place on a terminal, otherwise at every 10% milestone), and
//! the text of that line. `Progress::silent()` (total 0) never asks for a line.
use vstd::prelude::*;
use crate::llm::{decimal, decimal_chars, decimal_chars_u64};
use crate::text::{push_all, string_of};

verus! {

/// Counts for the progress line.
#[derive(Debug, Clone)]
pub struct Progress {
    total: usize,
    files: usize,
    done: usize,
    files_done: usize,
    tty: bool,
    /// The last 10% milestone printed (non-tty).
    last_milestone: usize,
}

/// What the display should do after a count changed.
#[derive(Debug, Clone, Copy, PartialEq, Eq, Structural)]
pub enum Redraw {
    /// Nothing to show.
    Nothing,
    /// Redraw the line in place with `(done, pct)`.
    InPlace(usize, usize),
    /// Print a milestone line with `(done, pct)`.
    Milestone(usize, usize),
}

/// `n` spaces.
pub open spec fn blanks(n: nat) -> Seq<char> {
    Seq::new(n, |i: int| ' ')
}

/// Two digits, zero-padded (`{:02}`).
pub open spec fn two_digits(n: nat) -> Seq<char> {
    if n < 10 {
        seq!['0'] + decimal(n)
    } else {
        decimal(n)
    }
}

/// `5s`, `2m05s`, `1h01m`.
pub open spec fn spec_fmt_duration(s: nat) -> Seq<char> {
    if s < 60 {
        decimal(s) + seq!['s']
    } else if s < 3600 {
        decimal(s / 60) + seq!['m'] + two_digits(s % 60) + seq!['s']
    } else {
        decimal(s / 3600) + seq!['h'] + two_digits(s % 3600 / 60) + seq!['m']
    }
}

fn two_digits_exec(n: u64) -> (r: Vec<char>)
    requires
        n < 100,
    ensures
        r@ == two_digits(n as nat),
{
    if n < 10 {
        let mut v: Vec<char> = Vec::new();
        v.push('0');
        push_all(&mut v, &decimal_chars_u64(n));
        v
    } else {
        decimal_chars_u64(n)
    }
}

/// A whole number of seconds as `5s`, `2m05s` or `1h01m`.
pub fn fmt_duration(secs: u64) -> (r: String)
    ensures
        r@ == spec_fmt_duration(secs as nat),
{
    let mut v: Vec<char> = Vec::new();
    if secs < 60 {
        push_all(&mut v, &decimal_chars_u64(secs));
        v.push('s');
    } else if secs < 3600 {
        push_all(&mut v, &decimal_chars_u64(secs / 60));
        v.push('m');
        push_all(&mut v, &two_digits_exec(secs % 60));
        v.push('s');
    } else {
        push_all(&mut v, &decimal_chars_u64(secs / 3600));
        v.push('h');
        push_all(&mut v, &two_digits_exec(secs % 3600 / 60));
        v.push('m');
    }
    string_of(&v)
}

/// What a redraw shows, and the milestone it leaves behind: nothing for a silent run; on a
/// terminal the line in place; otherwise a line when the percentage (of blocks done, capped at
/// the total) reaches a new tenth.
pub open spec fn redraw_of(total: nat, done: nat, tty: bool, milestone: nat) -> (Redraw, nat) {
    let d = if done < total {
        done
    } else {
        total
    };
    if total == 0 {
        (Redraw::Nothing, milestone)
    } else {
        let p = d * 100 / total;
        if tty {
            (Redraw::InPlace(d as usize, p as usize), milestone)
        } else if p / 10 > milestone {
            (Redraw::Milestone(d as usize, p as usize), p / 10)
        } else {
            (Redraw::Nothing, milestone)
        }
    }
}

/// A counting call on the display: one block done (`tick`) or one file done (`file_done`).
#[derive(Debug, Clone, Copy, PartialEq, Eq, Structural)]
pub enum ProgressEvent {
    /// One block done.
    Tick,
    /// One file done.
    FileDone,
}

/// What one counting call does to `(done, files_done, milestone)` of a display of `total` blocks,
/// and what it asks to show.
pub open spec fn step_of(total: nat, tty: bool, state: (nat, nat, nat), ev: ProgressEvent) -> (
    (nat, nat, nat),
    Redraw,
) {
    match ev {
        ProgressEvent::Tick => {
            let d = if state.0 < usize::MAX {
                state.0 + 1
            } else {
                state.0
            };
            let (r, m) = redraw_of(total, d, tty, state.2);
            ((d, state.1, m), r)
        },
        ProgressEvent::FileDone => {
            let f = if state.1 < usize::MAX {
                state.1 + 1
            } else {
                state.1
            };
            let (r, m) = redraw_of(total, state.0, tty, state.2);
            ((state.0, f, m), r)
        },
    }
}

/// What a display answers to a sequence of counting calls, in order.
pub open spec fn answers(total: nat, tty: bool, state: (nat, nat, nat), evs: Seq<ProgressEvent>) -> Seq<
    Redraw,
>
    decreases evs.len(),
{
    if evs.len() == 0 {
        seq![]
    } else {
        let (next, r) = step_of(total, tty, state, evs[0]);
        seq![r] + answers(total, tty, next, evs.drop_first())
    }
}

proof fn lemma_silent_answers(tty: bool, state: (nat, nat, nat), evs: Seq<ProgressEvent>)
    ensures
        answers(0, tty, state, evs).len() == evs.len(),
        forall|i: int|
            0 <= i < evs.len() ==> #[trigger] answers(0, tty, state, evs)[i] == Redraw::Nothing,
    decreases evs.len(),
{
    if evs.len() > 0 {
        let (next, r) = step_of(0, tty, state, evs[0]);
        lemma_silent_answers(tty, next, evs.drop_first());
        assert forall|i: int| 0 <= i < evs.len() implies #[trigger] answers(0, tty, state, evs)[i]
            == Redraw::Nothing by {
            if i > 0 {
                assert(answers(0, tty, state, evs)[i] == answers(0, tty, next, evs.drop_first())[i
                    - 1]);
            }
        }
    }
}

/// A display with no blocks to count (such as `Progress::silent()`) never asks to show anything:
/// whatever sequence of ticks and finished files it gets, every answer is `Nothing`, and at the
/// end there is no line to clear.
pub proof fn law_silent_progress_never_draws(p: Progress, evs: Seq<ProgressEvent>)
    requires
        p.total_spec() == 0,
    ensures
        answers(p.total_spec(), p.tty_spec(), p.state_spec(), evs).len() == evs.len(),
        forall|i: int|
            0 <= i < evs.len() ==> #[trigger] answers(
                p.total_spec(),
                p.tty_spec(),
                p.state_spec(),
                evs,
            )[i] == Redraw::Nothing,
        !(p.tty_spec() && p.total_spec() > 0),
{
    lemma_silent_answers(p.tty_spec(), p.state_spec(), evs);
}

/// Nanoseconds in a second.
pub const NANOS_PER_SEC: u128 = 1_000_000_000;

/// The largest `Duration`, in nanoseconds.
pub open spec fn max_duration_nanos() -> int {
    (u64::MAX as int) * 1_000_000_000 + 999_999_999
}

impl Progress {
    pub closed spec fn total_spec(&self) -> nat {
        self.total as nat
    }

    pub closed spec fn files_spec(&self) -> nat {
        self.files as nat
    }

    pub closed spec fn done_spec(&self) -> nat {
        self.done as nat
    }

    pub closed spec fn files_done_spec(&self) -> nat {
        self.files_done as nat
    }

    pub closed spec fn tty_spec(&self) -> bool {
        self.tty
    }

    pub closed spec fn milestone_spec(&self) -> nat {
        self.last_milestone as nat
    }

    /// The counts a call changes: blocks done, files done, and the last milestone.
    pub open spec fn state_spec(&self) -> (nat, nat, nat) {
        (self.done_spec(), self.files_done_spec(), self.milestone_spec())
    }

    /// A run of `total` blocks over `files` files; `tty` when the line can be redrawn in place.
    pub fn new(total: usize, files: usize, tty: bool) -> (r: Progress)
        ensures
            r.total_spec() == total,
            r.files_spec() == files,
            r.done_spec() == 0,
            r.files_done_spec() == 0,
            r.tty_spec() == tty,
            r.milestone_spec() == 0,
    {
        Progress { total, files, done: 0, files_done: 0, tty, last_milestone: 0 }
    }

    /// No blocks to count: never asks for a line.
    pub fn silent() -> (r: Progress)
        ensures
            r.total_spec() == 0,
            r.files_spec() == 0,
            r.done_spec() == 0,
            r.files_done_spec() == 0,
            !r.tty_spec(),
            r.milestone_spec() == 0,
    {
        Self::new(0, 0, false)
    }

    /// What a redraw shows, and the milestone it leaves behind.
    pub open spec fn spec_redraw(&self) -> (Redraw, nat) {
        redraw_of(self.total_spec(), self.done_spec(), self.tty_spec(), self.milestone_spec())
    }

    fn redraw(&mut self) -> (r: Redraw)
        ensures
            final(self).total_spec() == old(self).total_spec(),
            final(self).files_spec() == old(self).files_spec(),
            final(self).done_spec() == old(self).done_spec(),
            final(self).files_done_spec() == old(self).files_done_spec(),
            final(self).tty_spec() == old(self).tty_spec(),
            (r, final(self).milestone_spec()) == old(self).spec_redraw(),
    {
        if self.total == 0 {
            return Redraw::Nothing;
        }
        let done = if self.done < self.total {
            self.done
        } else {
            self.total
        };
        let pct = ((done as u128) * 100 / (self.total as u128)) as usize;
        assert((done as int) * 100 / (self.total as int) <= 100) by (nonlinear_arith)
            requires
                done <= self.total,
                self.total > 0,
        ;
        if self.tty {
            Redraw::InPlace(done, pct)
        } else if pct / 10 > self.last_milestone {
            self.last_milestone = pct / 10;
            Redraw::Milestone(done, pct)
        } else {
            Redraw::Nothing
        }
    }

    /// One LLM call finished; says what to show.
    pub fn tick(&mut self) -> (r: Redraw)
        ensures
            final(self).done_spec() == if old(self).done_spec() < usize::MAX {
                old(self).done_spec() + 1
            } else {
                old(self).done_spec()
            },
            final(self).total_spec() == old(self).total_spec(),
            final(self).files_spec() == old(self).files_spec(),
            final(self).files_done_spec() == old(self).files_done_spec(),
            final(self).tty_spec() == old(self).tty_spec(),
            (r, final(self).milestone_spec()) == redraw_of(
                old(self).total_spec(),
                final(self).done_spec(),
                old(self).tty_spec(),
                old(self).milestone_spec(),
            ),
            (final(self).state_spec(), r) == step_of(
                old(self).total_spec(),
                old(self).tty_spec(),
                old(self).state_spec(),
                ProgressEvent::Tick,
            ),
    {
        if self.done < usize::MAX {
            self.done = self.done + 1;
        }
        self.redraw()
    }

    /// One file finished; says what to show.
    pub fn file_done(&mut self) -> (r: Redraw)
        ensures
            final(self).files_done_spec() == if old(self).files_done_spec() < usize::MAX {
                old(self).files_done_spec() + 1
            } else {
                old(self).files_done_spec()
            },
            final(self).total_spec() == old(self).total_spec(),
            final(self).files_spec() == old(self).files_spec(),
            final(self).done_spec() == old(self).done_spec(),
            final(self).tty_spec() == old(self).tty_spec(),
            (r, final(self).milestone_spec()) == old(self).spec_redraw(),
            (final(self).state_spec(), r) == step_of(
                old(self).total_spec(),
                old(self).tty_spec(),
                old(self).state_spec(),
                ProgressEvent::FileDone,
            ),
    {
        if self.files_done < usize::MAX {
            self.files_done = self.files_done + 1;
        }
        self.redraw()
    }

    /// At the end of the run: whether a progress line is on screen and must be cleared.
    pub fn finish(&self) -> (r: bool)
        ensures
            r == (self.tty_spec() && self.total_spec() > 0),
    {
        self.tty && self.total > 0
    }

    /// Seconds left, from the time taken so far: `elapsed / done * (total - done)`.
    pub open spec fn eta_secs(&self, done: nat, elapsed_nanos: nat) -> nat {
        (elapsed_nanos / done) * ((self.total_spec() - done) as nat) / 1_000_000_000
    }

    /// `" 25%  50/200 blocks, 3/10 files, ~1m05s left"`: the time left only while some but not
    /// all blocks are done.
    pub open spec fn spec_line(&self, done: nat, pct: nat, elapsed_nanos: nat) -> Seq<char> {
        let p = decimal(pct);
        let pad = if p.len() < 3 {
            blanks((3 - p.len()) as nat)
        } else {
            seq![]
        };
        let head = pad + p + seq!['%', ' ', ' '] + decimal(done) + seq!['/'] + decimal(
            self.total_spec(),
        ) + seq![' ', 'b', 'l', 'o', 'c', 'k', 's', ',', ' '] + decimal(self.files_done_spec())
            + seq!['/'] + decimal(self.files_spec()) + seq![' ', 'f', 'i', 'l', 'e', 's'];
        if 0 < done < self.total_spec() {
            head + seq![',', ' ', '~'] + spec_fmt_duration(self.eta_secs(done, elapsed_nanos))
                + seq![' ', 'l', 'e', 'f', 't']
        } else {
            head
        }
    }

    /// The progress line for `done` blocks at `pct` percent after `elapsed_nanos`. The time
    /// left is computed as whole-nanosecond `Duration` arithmetic, so the counts must fit `u32`
    /// and the estimate a `Duration`.
    pub fn line(&self, done: usize, pct: usize, elapsed_nanos: u128) -> (r: String)
        requires
            elapsed_nanos <= max_duration_nanos(),
            0 < done < self.total_spec() ==> {
                &&& done <= u32::MAX
                &&& self.total_spec() - done <= u32::MAX
                &&& ((elapsed_nanos as nat) / (done as nat)) * ((self.total_spec() - done) as nat)
                    <= max_duration_nanos()
            },
        ensures
            r@ == self.spec_line(done as nat, pct as nat, elapsed_nanos as nat),
    {
        let mut v: Vec<char> = Vec::new();
        let p = decimal_chars(pct);
        let mut k: usize = p.len();
        assert(v@ =~= blanks(0));
        while k < 3
            invariant
                p.len() <= k,
                k <= 3 || k == p.len(),
                v@ == blanks((k - p@.len()) as nat),
            decreases 3 - k,
        {
            v.push(' ');
            k += 1;
            assert(v@ =~= blanks((k - p@.len()) as nat));
        }
        push_all(&mut v, &p);
        v.push('%');
        v.push(' ');
        v.push(' ');
        push_all(&mut v, &decimal_chars(done));
        v.push('/');
        push_all(&mut v, &decimal_chars(self.total));
        let blocks = [' ', 'b', 'l', 'o', 'c', 'k', 's', ',', ' '];
        push_all(&mut v, &blocks);
        push_all(&mut v, &decimal_chars(self.files_done));
        v.push('/');
        push_all(&mut v, &decimal_chars(self.files));
        let files = [' ', 'f', 'i', 'l', 'e', 's'];
        push_all(&mut v, &files);
        let ghost head = v@;
        if 0 < done && done < self.total {
            let per = elapsed_nanos / (done as u128);
            let eta = per * ((self.total - done) as u128);
            let secs = (eta / NANOS_PER_SEC) as u64;
            assert(eta / 1_000_000_000 <= u64::MAX) by (nonlinear_arith)
                requires
                    eta <= (u64::MAX as int) * 1_000_000_000 + 999_999_999,
            ;
            v.push(',');
            v.push(' ');
            v.push('~');
            push_all(&mut v, &chars_of_string(fmt_duration(secs)));
            let left = [' ', 'l', 'e', 'f', 't'];
            push_all(&mut v, &left);
        }
        string_of(&v)
    }
}

fn chars_of_string(s: String) -> (r: Vec<char>)
    ensures
        r@ == s@,
{
    crate::text::chars_of(s.as_str())
}

} // verus!
