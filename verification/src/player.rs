//! The virtual keyer: timed playback planning for an encoded message.
//!
//! An [`Executor`] holds an encoded message and a unit duration derived from
//! a speed in words per minute. [`Executor::plan`] lays the entire
//! transmission out as a sequence of [`Action`]s — signal transitions for the
//! sink and pauses measured in timing units — following the standard ratios:
//! one unit on for a dit, three for a dah, one unit between the symbols of a
//! character, three in total between characters, seven in total between
//! words. The caller's loop performs the plan: it hands each transition to
//! its sink and sleeps each pause for the configured unit duration.

use vstd::prelude::*;
use vstd::string::StrSliceExecFns;

use crate::MorseError;
use crate::text::lemma_split_sp_append;
use crate::text::lemma_split_sp_no_space;
use crate::text::split_sp;
use crate::text::split_spaces;

verus! {

/// The state of the virtual keyer at an instant.
#[derive(Debug, PartialEq, Eq, Structural, Clone, Copy)]
pub enum State {
    Down,
    Up,
}

/// One step of a transmission: a signal transition handed to the sink, or a
/// pause of the given number of timing units.
#[derive(Debug, PartialEq, Eq, Structural, Clone, Copy)]
pub enum Action {
    Signal(State),
    Pause(u64),
}

/// Whether `c` is a signal-bearing symbol: a dit, or one of the dah glyphs.
pub open spec fn is_symbol(c: char) -> bool {
    c == '.' || c == '-' || c == '_'
}

/// How many units the signal stays down for symbol `c`.
pub open spec fn on_units(c: char) -> u64 {
    if c == '.' {
        1u64
    } else {
        3u64
    }
}

/// The actions for one character of a token, and the new "pause pending"
/// flag: a symbol first pays any pending one-unit pause, then goes Down for
/// its on-duration and Up again, leaving a pause pending; a word separator is
/// a seven-unit pause with nothing pending afterwards; any other character is
/// skipped.
pub open spec fn char_step(c: char, pending: bool) -> (Seq<Action>, bool) {
    if is_symbol(c) {
        (
            (if pending {
                seq![Action::Pause(1u64)]
            } else {
                Seq::<Action>::empty()
            }) + seq![
                Action::Signal(State::Down),
                Action::Pause(on_units(c)),
                Action::Signal(State::Up),
            ],
            true,
        )
    } else if c == '/' {
        (seq![Action::Pause(7u64)], false)
    } else {
        (Seq::<Action>::empty(), pending)
    }
}

/// The actions for a whole token, threading the pending flag left to right.
pub open spec fn token_steps(tok: Seq<char>, pending: bool) -> (Seq<Action>, bool)
    decreases tok.len(),
{
    if tok.len() == 0 {
        (Seq::<Action>::empty(), pending)
    } else {
        let head = char_step(tok[0], pending);
        let rest = token_steps(tok.drop_first(), head.1);
        (head.0 + rest.0, rest.1)
    }
}

/// Whether a token is exactly the word separator.
pub open spec fn is_sep(tok: Seq<char>) -> bool {
    tok == seq!['/']
}

/// The actions for a token list: an ordinary token that follows another
/// ordinary token is preceded by the two-unit character boundary pause
/// (which, together with the pending one-unit pause, totals the three-unit
/// letter gap); a separator token suppresses that boundary on both sides.
pub open spec fn plan_tokens(toks: Seq<Seq<char>>, pending: bool, prev_signal: bool) -> Seq<Action>
    decreases toks.len(),
{
    if toks.len() == 0 {
        Seq::<Action>::empty()
    } else {
        let gap: Seq<Action> = if prev_signal && !is_sep(toks[0]) {
            seq![Action::Pause(2u64)]
        } else {
            Seq::<Action>::empty()
        };
        let step = token_steps(toks[0], pending);
        gap + step.0 + plan_tokens(toks.drop_first(), step.1, !is_sep(toks[0]))
    }
}

/// The full plan for a message: its space-separated tokens, laid out with no
/// pause pending and no preceding character.
pub open spec fn plan_spec(msg: Seq<char>) -> Seq<Action> {
    plan_tokens(split_sp(msg), false, false)
}

/// The virtual Morse keyer: the message and the timing of one transmission.
///
/// Playback is the caller's loop over [`Executor::plan`]: the sink receives
/// each `Signal` synchronously, and each `Pause` is slept for its number of
/// units of [`Executor::unit_nanos`] nanoseconds.
pub struct Executor {
    message: String,
    unit_nanos: u64,
}

impl Executor {
    /// The message to be played, as a character sequence.
    pub closed spec fn msg(&self) -> Seq<char> {
        self.message@
    }

    /// The configured duration of one timing unit, in nanoseconds.
    pub closed spec fn unit(&self) -> u64 {
        self.unit_nanos
    }

    /// Duration of one timing unit in nanoseconds for the given speed, per
    /// the standard word-timing convention of fifty units per word:
    /// 1.2 / wpm seconds, rounded down to whole nanoseconds.
    pub fn wpm_to_unit(wpm: u32) -> (r: u64)
        requires
            wpm >= 1,
        ensures
            r == 1_200_000_000u64 / (wpm as u64),
    {
        1_200_000_000u64 / (wpm as u64)
    }

    /// A keyer with an empty message, at a default speed of twenty words per
    /// minute.
    pub fn new() -> (e: Executor)
        ensures
            e.msg() == Seq::<char>::empty(),
            e.unit() == 60_000_000u64,
    {
        Executor { message: String::new(), unit_nanos: Executor::wpm_to_unit(20) }
    }

    /// Replaces the message; the speed is kept.
    pub fn with_message(self, message: String) -> (e: Executor)
        ensures
            e.msg() == message@,
            e.unit() == self.unit(),
    {
        Executor { message, unit_nanos: self.unit_nanos }
    }

    /// Sets the speed in words per minute. A speed of zero is rejected, never
    /// clamped; the message is kept.
    pub fn with_wpm(self, wpm: u32) -> (r: Result<Executor, MorseError>)
        ensures
            wpm == 0 ==> r == Err::<Executor, MorseError>(MorseError::InvalidWpm),
            wpm >= 1 ==> r is Ok && r->Ok_0.msg() == self.msg() && r->Ok_0.unit()
                == 1_200_000_000u64 / (wpm as u64),
    {
        if wpm == 0 {
            Err(MorseError::InvalidWpm)
        } else {
            Ok(Executor { message: self.message, unit_nanos: Executor::wpm_to_unit(wpm) })
        }
    }

    /// The configured unit duration in nanoseconds.
    pub fn unit_nanos(&self) -> (r: u64)
        ensures
            r == self.unit(),
    {
        self.unit_nanos
    }

    /// Whether this token is exactly the word separator.
    fn sep_token(tok: &String) -> (r: bool)
        ensures
            r == is_sep(tok@),
    {
        let s = tok.as_str();
        if s.unicode_len() == 1 {
            let r = s.get_char(0) == '/';
            proof {
                if tok@[0] == '/' {
                    assert(tok@ =~= seq!['/']);
                } else {
                    assert(tok@ != seq!['/']);
                }
            }
            r
        } else {
            proof {
                assert(seq!['/'].len() == 1);
            }
            false
        }
    }

    /// The full timed transmission for the configured message: every signal
    /// transition the sink must receive and every pause, in order, with
    /// pauses counted in timing units.
    pub fn plan(&self) -> (acts: Vec<Action>)
        ensures
            acts@ == plan_spec(self.msg()),
    {
        let tokens = split_spaces(self.message.as_str());
        let ghost dv = tokens.deep_view();
        let n = tokens.len();
        let mut acts: Vec<Action> = Vec::new();
        let mut pending = false;
        let mut prev_signal = false;
        let mut k: usize = 0;
        proof {
            assert(dv.len() == n);
            assert(dv.skip(0) =~~= dv);
            assert(acts@ + plan_tokens(dv, false, false) =~= plan_tokens(dv, false, false));
        }
        while k < n
            invariant
                n == tokens.len(),
                0 <= k <= n,
                dv == tokens.deep_view(),
                dv.len() == n,
                dv == split_sp(self.msg()),
                plan_spec(self.msg()) == acts@ + plan_tokens(
                    dv.skip(k as int),
                    pending,
                    prev_signal,
                ),
            decreases n - k,
        {
            proof {
                assert(dv.skip(k as int).drop_first() =~~= dv.skip(k + 1));
                assert(dv.skip(k as int)[0] == dv[k as int]);
                assert(dv[k as int] == tokens@[k as int]@);
            }
            let ghost acts0 = acts@;
            let ghost pending0 = pending;
            let ghost prev0 = prev_signal;
            let tok = &tokens[k];
            let sep = Executor::sep_token(tok);
            let ghost gap: Seq<Action> = if prev0 && !is_sep(dv[k as int]) {
                seq![Action::Pause(2u64)]
            } else {
                Seq::<Action>::empty()
            };
            if prev_signal && !sep {
                acts.push(Action::Pause(2));
            }
            proof {
                assert(acts@ =~= acts0 + gap);
            }
            let ts = tok.as_str();
            let m = ts.unicode_len();
            let mut j: usize = 0;
            proof {
                assert(ts@.skip(0) =~= ts@);
            }
            while j < m
                invariant
                    m == ts@.len(),
                    ts@ == dv[k as int],
                    0 <= j <= m,
                    acts@ + token_steps(ts@.skip(j as int), pending).0 == acts0 + gap
                        + token_steps(ts@, pending0).0,
                    token_steps(ts@.skip(j as int), pending).1 == token_steps(ts@, pending0).1,
                decreases m - j,
            {
                let ghost before = acts@;
                let ghost pend_in = pending;
                proof {
                    assert(ts@.skip(j as int).drop_first() =~= ts@.skip(j + 1));
                    assert(ts@.skip(j as int)[0] == ts@[j as int]);
                }
                let c = ts.get_char(j);
                if c == '.' {
                    if pending {
                        acts.push(Action::Pause(1));
                    }
                    acts.push(Action::Signal(State::Down));
                    acts.push(Action::Pause(1));
                    acts.push(Action::Signal(State::Up));
                    pending = true;
                } else if c == '-' || c == '_' {
                    if pending {
                        acts.push(Action::Pause(1));
                    }
                    acts.push(Action::Signal(State::Down));
                    acts.push(Action::Pause(3));
                    acts.push(Action::Signal(State::Up));
                    pending = true;
                } else if c == '/' {
                    acts.push(Action::Pause(7));
                    pending = false;
                }
                proof {
                    assert(acts@ =~= before + char_step(ts@[j as int], pend_in).0);
                    assert(pending == char_step(ts@[j as int], pend_in).1);
                }
                j = j + 1;
            }
            proof {
                assert(ts@.skip(m as int) =~= Seq::<char>::empty());
                assert(acts@ =~= acts0 + gap + token_steps(ts@, pending0).0);
                assert(pending == token_steps(ts@, pending0).1);
                assert(plan_tokens(dv.skip(k as int), pending0, prev0) == gap + token_steps(
                    dv[k as int],
                    pending0,
                ).0 + plan_tokens(dv.skip(k + 1), pending, !is_sep(dv[k as int])));
                assert(acts0 + (gap + token_steps(ts@, pending0).0) =~= acts@);
                assert(acts0 + plan_tokens(dv.skip(k as int), pending0, prev0) =~= acts@
                    + plan_tokens(dv.skip(k + 1), pending, !is_sep(dv[k as int])));
            }
            prev_signal = !sep;
            k = k + 1;
        }
        proof {
            assert(dv.skip(n as int) =~~= Seq::<Seq<char>>::empty());
            assert(acts@ + plan_tokens(Seq::<Seq<char>>::empty(), pending, prev_signal)
                =~= acts@);
        }
        acts
    }
}

/// The signal transitions of a plan, in order, with the pauses dropped.
pub open spec fn signals_of(acts: Seq<Action>) -> Seq<State>
    decreases acts.len(),
{
    if acts.len() == 0 {
        Seq::<State>::empty()
    } else {
        signals_of(acts.drop_last()) + (match acts.last() {
            Action::Signal(s) => seq![s],
            Action::Pause(_) => Seq::<State>::empty(),
        })
    }
}

/// The total paused time of a plan, in units.
pub open spec fn pause_units(acts: Seq<Action>) -> int
    decreases acts.len(),
{
    if acts.len() == 0 {
        0
    } else {
        pause_units(acts.drop_last()) + (match acts.last() {
            Action::Pause(u) => u as int,
            Action::Signal(_) => 0,
        })
    }
}

/// `n` Down/Up pairs in strict alternation.
pub open spec fn down_ups(n: nat) -> Seq<State>
    decreases n,
{
    if n == 0 {
        Seq::<State>::empty()
    } else {
        down_ups((n - 1) as nat) + seq![State::Down, State::Up]
    }
}

/// How many dit/dah symbols a character sequence holds.
pub open spec fn symbol_count(s: Seq<char>) -> nat
    decreases s.len(),
{
    if s.len() == 0 {
        0
    } else {
        symbol_count(s.drop_last()) + (if is_symbol(s.last()) {
            1nat
        } else {
            0nat
        })
    }
}

/// The symbols of a whole token list.
pub open spec fn sum_symbol_counts(toks: Seq<Seq<char>>) -> nat
    decreases toks.len(),
{
    if toks.len() == 0 {
        0
    } else {
        sum_symbol_counts(toks.drop_last()) + symbol_count(toks.last())
    }
}

/// A non-empty token consisting only of dit/dah symbols.
pub open spec fn symbol_token(tok: Seq<char>) -> bool {
    tok.len() > 0 && forall|k: int| 0 <= k < tok.len() ==> is_symbol(tok[k])
}

proof fn lemma_signals_concat(a: Seq<Action>, b: Seq<Action>)
    ensures
        signals_of(a + b) == signals_of(a) + signals_of(b),
    decreases b.len(),
{
    if b.len() == 0 {
        assert(a + b =~= a);
        assert(signals_of(a) + signals_of(b) =~= signals_of(a));
    } else {
        lemma_signals_concat(a, b.drop_last());
        assert((a + b).drop_last() =~= a + b.drop_last());
        assert((a + b).last() == b.last());
        assert(signals_of(a + b) =~= signals_of(a) + signals_of(b));
    }
}

proof fn lemma_pause_units_concat(a: Seq<Action>, b: Seq<Action>)
    ensures
        pause_units(a + b) == pause_units(a) + pause_units(b),
    decreases b.len(),
{
    if b.len() == 0 {
        assert(a + b =~= a);
    } else {
        lemma_pause_units_concat(a, b.drop_last());
        assert((a + b).drop_last() =~= a + b.drop_last());
        assert((a + b).last() == b.last());
    }
}

proof fn lemma_down_ups_concat(m: nat, n: nat)
    ensures
        down_ups(m + n) == down_ups(m) + down_ups(n),
    decreases n,
{
    if n == 0 {
        assert(down_ups(m) + down_ups(0) =~= down_ups(m));
    } else {
        lemma_down_ups_concat(m, (n - 1) as nat);
        assert((m + n - 1) as nat == m + ((n - 1) as nat));
        assert(down_ups(m) + down_ups(n) =~= (down_ups(m) + down_ups((n - 1) as nat)) + seq![
            State::Down,
            State::Up,
        ]);
    }
}

proof fn lemma_down_ups_len(n: nat)
    ensures
        down_ups(n).len() == 2 * n,
    decreases n,
{
    if n > 0 {
        lemma_down_ups_len((n - 1) as nat);
    }
}

proof fn lemma_symbol_count_first(s: Seq<char>)
    requires
        s.len() > 0,
    ensures
        symbol_count(s) == (if is_symbol(s[0]) {
            1nat
        } else {
            0nat
        }) + symbol_count(s.drop_first()),
    decreases s.len(),
{
    if s.len() == 1 {
        assert(s.drop_first() =~= Seq::<char>::empty());
        assert(s.drop_last() =~= Seq::<char>::empty());
        assert(s.last() == s[0]);
    } else {
        lemma_symbol_count_first(s.drop_last());
        assert(s.drop_last().drop_first() =~= s.drop_first().drop_last());
        assert(s.drop_last()[0] == s[0]);
        assert(s.drop_first().last() == s.last());
    }
}

proof fn lemma_sum_symbol_counts_first(toks: Seq<Seq<char>>)
    requires
        toks.len() > 0,
    ensures
        sum_symbol_counts(toks) == symbol_count(toks[0]) + sum_symbol_counts(toks.drop_first()),
    decreases toks.len(),
{
    if toks.len() == 1 {
        assert(toks.drop_first() =~~= Seq::<Seq<char>>::empty());
        assert(toks.drop_last() =~~= Seq::<Seq<char>>::empty());
        assert(toks.last() == toks[0]);
    } else {
        lemma_sum_symbol_counts_first(toks.drop_last());
        assert(toks.drop_last().drop_first() =~~= toks.drop_first().drop_last());
        assert(toks.drop_last()[0] == toks[0]);
        assert(toks.drop_first().last() == toks.last());
    }
}

proof fn lemma_signals_small(u: u64)
    ensures
        signals_of(Seq::<Action>::empty()) == Seq::<State>::empty(),
        signals_of(seq![Action::Pause(u)]) == Seq::<State>::empty(),
        down_ups(0) == Seq::<State>::empty(),
        down_ups(1) == seq![State::Down, State::Up],
{
    assert(signals_of(Seq::<Action>::empty()) =~= Seq::<State>::empty());
    assert(seq![Action::Pause(u)].drop_last() =~= Seq::<Action>::empty());
    assert(seq![Action::Pause(u)].last() == Action::Pause(u));
    assert(signals_of(seq![Action::Pause(u)]) =~= Seq::<State>::empty());
    assert(down_ups(0nat) =~= Seq::<State>::empty());
    assert(down_ups(1) =~= down_ups(0) + seq![State::Down, State::Up]);
    assert(down_ups(1) =~= seq![State::Down, State::Up]);
}

proof fn lemma_char_step_signals(c: char, pending: bool)
    ensures
        signals_of(char_step(c, pending).0) == down_ups(
            if is_symbol(c) {
                1nat
            } else {
                0nat
            },
        ),
{
    lemma_signals_small(0u64);
    if is_symbol(c) {
        let core = seq![
            Action::Signal(State::Down),
            Action::Pause(on_units(c)),
            Action::Signal(State::Up),
        ];
        let s2 = seq![Action::Signal(State::Down), Action::Pause(on_units(c))];
        let s1 = seq![Action::Signal(State::Down)];
        assert(s1.drop_last() =~= Seq::<Action>::empty());
        assert(s1.last() == Action::Signal(State::Down));
        assert(signals_of(s1) =~= seq![State::Down]);
        assert(s2.drop_last() =~= s1);
        assert(s2.last() == Action::Pause(on_units(c)));
        assert(signals_of(s2) =~= seq![State::Down]);
        assert(core.drop_last() =~= s2);
        assert(core.last() == Action::Signal(State::Up));
        assert(signals_of(core) =~= seq![State::Down, State::Up]);
        if pending {
            lemma_signals_small(1u64);
            lemma_signals_concat(seq![Action::Pause(1u64)], core);
            assert(signals_of(char_step(c, pending).0) =~= seq![State::Down, State::Up]);
        } else {
            assert(char_step(c, pending).0 =~= core);
        }
    } else if c == '/' {
        lemma_signals_small(7u64);
    }
}

proof fn lemma_token_steps_signals(tok: Seq<char>, pending: bool)
    ensures
        signals_of(token_steps(tok, pending).0) == down_ups(symbol_count(tok)),
    decreases tok.len(),
{
    lemma_signals_small(0u64);
    if tok.len() > 0 {
        let head = char_step(tok[0], pending);
        let rest = token_steps(tok.drop_first(), head.1);
        lemma_token_steps_signals(tok.drop_first(), head.1);
        lemma_signals_concat(head.0, rest.0);
        lemma_char_step_signals(tok[0], pending);
        lemma_symbol_count_first(tok);
        lemma_down_ups_concat(
            if is_symbol(tok[0]) {
                1nat
            } else {
                0nat
            },
            symbol_count(tok.drop_first()),
        );
    }
}

proof fn lemma_plan_tokens_signals(toks: Seq<Seq<char>>, pending: bool, prev_signal: bool)
    ensures
        signals_of(plan_tokens(toks, pending, prev_signal)) == down_ups(sum_symbol_counts(toks)),
    decreases toks.len(),
{
    lemma_signals_small(2u64);
    if toks.len() > 0 {
        let gap: Seq<Action> = if prev_signal && !is_sep(toks[0]) {
            seq![Action::Pause(2u64)]
        } else {
            Seq::<Action>::empty()
        };
        let step = token_steps(toks[0], pending);
        let tail = plan_tokens(toks.drop_first(), step.1, !is_sep(toks[0]));
        lemma_plan_tokens_signals(toks.drop_first(), step.1, !is_sep(toks[0]));
        lemma_token_steps_signals(toks[0], pending);
        lemma_signals_concat(gap, step.0);
        lemma_signals_concat(gap + step.0, tail);
        assert(signals_of(gap) =~= Seq::<State>::empty());
        lemma_sum_symbol_counts_first(toks);
        lemma_down_ups_concat(symbol_count(toks[0]), sum_symbol_counts(toks.drop_first()));
        assert(plan_tokens(toks, pending, prev_signal) == gap + step.0 + tail);
        assert(signals_of(plan_tokens(toks, pending, prev_signal)) == signals_of(gap)
            + signals_of(step.0) + signals_of(tail));
        assert(down_ups(sum_symbol_counts(toks)) == down_ups(symbol_count(toks[0])) + down_ups(
            sum_symbol_counts(toks.drop_first()),
        ));
        assert(signals_of(plan_tokens(toks, pending, prev_signal)) =~= down_ups(
            sum_symbol_counts(toks),
        ));
    }
}

proof fn lemma_split_symbol_count(s: Seq<char>)
    ensures
        sum_symbol_counts(split_sp(s)) == symbol_count(s),
    decreases s.len(),
{
    assert(sum_symbol_counts(Seq::<Seq<char>>::empty()) == 0);
    assert(symbol_count(Seq::<char>::empty()) == 0);
    if s.len() == 0 {
        assert(seq![Seq::<char>::empty()].drop_last() =~~= Seq::<Seq<char>>::empty());
        assert(seq![Seq::<char>::empty()].last() =~= Seq::<char>::empty());
        assert(sum_symbol_counts(seq![Seq::<char>::empty()]) == 0);
    } else {
        lemma_split_symbol_count(s.drop_last());
        let rest = split_sp(s.drop_last());
        crate::text::lemma_split_sp_len(s.drop_last());
        if s.last() == ' ' {
            assert(rest.push(Seq::<char>::empty()).drop_last() =~~= rest);
            assert(rest.push(Seq::<char>::empty()).last() =~= Seq::<char>::empty());
            assert(!is_symbol(' '));
            assert(sum_symbol_counts(rest.push(Seq::<char>::empty())) == sum_symbol_counts(rest));
        } else {
            let updated = rest.update(rest.len() - 1, rest.last().push(s.last()));
            assert(updated.len() == rest.len());
            assert(updated.drop_last() =~~= rest.drop_last());
            assert(updated.last() == rest.last().push(s.last()));
            assert(rest.last().push(s.last()).drop_last() =~= rest.last());
            assert(rest.last().push(s.last()).last() == s.last());
            assert(symbol_count(rest.last().push(s.last())) == symbol_count(rest.last()) + (
            if is_symbol(s.last()) {
                1nat
            } else {
                0nat
            }));
            assert(sum_symbol_counts(rest) == sum_symbol_counts(rest.drop_last()) + symbol_count(
                rest.last(),
            ));
            assert(sum_symbol_counts(updated) == sum_symbol_counts(rest.drop_last())
                + symbol_count(updated.last()));
        }
    }
}

/// Callback discipline: over any message, the plan's signal transitions are
/// exactly alternating Down, Up pairs, one pair — two sink invocations — per
/// dit or dah symbol; spaces, word separators, and unmapped characters
/// contribute none.
pub proof fn lemma_plan_signals(msg: Seq<char>)
    ensures
        signals_of(plan_spec(msg)) == down_ups(symbol_count(msg)),
        signals_of(plan_spec(msg)).len() == 2 * symbol_count(msg),
{
    lemma_plan_tokens_signals(split_sp(msg), false, false);
    lemma_split_symbol_count(msg);
    lemma_down_ups_len(symbol_count(msg));
}

proof fn lemma_plan_single_token(tok: Seq<char>)
    requires
        forall|k: int| 0 <= k < tok.len() ==> tok[k] != ' ',
    ensures
        plan_spec(tok) == token_steps(tok, false).0,
{
    lemma_split_sp_no_space(tok);
    assert(seq![tok][0] == tok);
    assert(seq![tok].drop_first() =~~= Seq::<Seq<char>>::empty());
    assert(plan_tokens(Seq::<Seq<char>>::empty(), token_steps(tok, false).1, !is_sep(tok))
        =~= Seq::<Action>::empty());
    assert(plan_tokens(seq![tok], false, false) =~= token_steps(tok, false).0);
}

/// After a non-empty token ending in a symbol, a pause is pending.
proof fn lemma_token_steps_pending(tok: Seq<char>, pending: bool)
    requires
        tok.len() > 0,
        is_symbol(tok.last()),
    ensures
        token_steps(tok, pending).1 == true,
    decreases tok.len(),
{
    if tok.len() == 1 {
        assert(tok[0] == tok.last());
        assert(tok.drop_first() =~= Seq::<char>::empty());
        assert(char_step(tok[0], pending).1 == true);
        assert(token_steps(Seq::<char>::empty(), true).1 == true);
    } else {
        assert(tok.drop_first().last() == tok.last());
        lemma_token_steps_pending(tok.drop_first(), char_step(tok[0], pending).1);
    }
}

/// Starting a symbol token with a pause pending prepends exactly the deferred
/// one-unit pause.
proof fn lemma_token_steps_pending_prefix(tok: Seq<char>)
    requires
        tok.len() > 0,
        is_symbol(tok[0]),
    ensures
        token_steps(tok, true).0 == seq![Action::Pause(1u64)] + token_steps(tok, false).0,
{
    assert(char_step(tok[0], true).1 == true && char_step(tok[0], false).1 == true);
    assert(char_step(tok[0], true).0 =~= seq![Action::Pause(1u64)] + char_step(tok[0], false).0);
    assert(token_steps(tok, true).0 == char_step(tok[0], true).0 + token_steps(
        tok.drop_first(),
        true,
    ).0);
    assert(token_steps(tok, false).0 == char_step(tok[0], false).0 + token_steps(
        tok.drop_first(),
        true,
    ).0);
    assert(token_steps(tok, true).0 =~= seq![Action::Pause(1u64)] + token_steps(tok, false).0);
}

proof fn lemma_token_steps_snoc(tok: Seq<char>, c: char, pending: bool)
    ensures
        token_steps(tok.push(c), pending).0 == token_steps(tok, pending).0 + char_step(
            c,
            token_steps(tok, pending).1,
        ).0,
        token_steps(tok.push(c), pending).1 == char_step(c, token_steps(tok, pending).1).1,
    decreases tok.len(),
{
    if tok.len() == 0 {
        assert(tok.push(c)[0] == c);
        assert(tok.push(c).drop_first() =~= Seq::<char>::empty());
        assert(token_steps(Seq::<char>::empty(), char_step(c, pending).1).0
            =~= Seq::<Action>::empty());
        assert(token_steps(tok, pending).0 =~= Seq::<Action>::empty());
        assert(token_steps(tok, pending).1 == pending);
        assert(token_steps(tok.push(c), pending).0 =~= token_steps(tok, pending).0 + char_step(
            c,
            token_steps(tok, pending).1,
        ).0);
    } else {
        assert(tok.push(c)[0] == tok[0]);
        assert(tok.push(c).drop_first() =~= tok.drop_first().push(c));
        let h1 = char_step(tok[0], pending).1;
        lemma_token_steps_snoc(tok.drop_first(), c, h1);
        assert(token_steps(tok.push(c), pending).0 == char_step(tok[0], pending).0 + token_steps(
            tok.drop_first().push(c),
            h1,
        ).0);
        assert(token_steps(tok, pending).0 == char_step(tok[0], pending).0 + token_steps(
            tok.drop_first(),
            h1,
        ).0);
        assert(token_steps(tok.push(c), pending).0 =~= token_steps(tok, pending).0 + char_step(
            c,
            token_steps(tok, pending).1,
        ).0);
    }
}

proof fn lemma_pause_units_pair(u: u64, v: u64)
    ensures
        pause_units(Seq::<Action>::empty()) == 0,
        pause_units(seq![Action::Pause(u)]) == u as int,
        pause_units(seq![Action::Pause(u), Action::Pause(v)]) == u as int + v as int,
{
    assert(pause_units(Seq::<Action>::empty()) == 0);
    assert(seq![Action::Pause(u)].drop_last() =~= Seq::<Action>::empty());
    assert(seq![Action::Pause(u)].last() == Action::Pause(u));
    assert(pause_units(seq![Action::Pause(u)]) == u as int);
    assert(seq![Action::Pause(u), Action::Pause(v)].drop_last() =~= seq![Action::Pause(u)]);
    assert(seq![Action::Pause(u), Action::Pause(v)].last() == Action::Pause(v));
}

proof fn lemma_pause_units_core(c: char)
    ensures
        pause_units(
            seq![
                Action::Signal(State::Down),
                Action::Pause(on_units(c)),
                Action::Signal(State::Up),
            ],
        ) == on_units(c) as int,
        pause_units(
            seq![
                Action::Pause(1u64),
                Action::Signal(State::Down),
                Action::Pause(on_units(c)),
                Action::Signal(State::Up),
            ],
        ) == 1 + on_units(c) as int,
{
    let core = seq![
        Action::Signal(State::Down),
        Action::Pause(on_units(c)),
        Action::Signal(State::Up),
    ];
    let s2 = seq![Action::Signal(State::Down), Action::Pause(on_units(c))];
    let s1 = seq![Action::Signal(State::Down)];
    assert(pause_units(Seq::<Action>::empty()) == 0);
    assert(s1.drop_last() =~= Seq::<Action>::empty());
    assert(s1.last() == Action::Signal(State::Down));
    assert(pause_units(s1) == 0);
    assert(s2.drop_last() =~= s1);
    assert(s2.last() == Action::Pause(on_units(c)));
    assert(pause_units(s2) == on_units(c) as int);
    assert(core.drop_last() =~= s2);
    assert(core.last() == Action::Signal(State::Up));
    assert(pause_units(core) == on_units(c) as int);
    lemma_pause_units_concat(seq![Action::Pause(1u64)], core);
    assert(seq![Action::Pause(1u64)].drop_last() =~= Seq::<Action>::empty());
    assert(pause_units(seq![Action::Pause(1u64)]) == 1);
    assert(seq![Action::Pause(1u64)] + core =~= seq![
        Action::Pause(1u64),
        Action::Signal(State::Down),
        Action::Pause(on_units(c)),
        Action::Signal(State::Up),
    ]);
}

/// A dit holds the signal down for one unit, a dah for three: the plan for a
/// single-symbol message is Down, a pause of the symbol's on-duration, Up,
/// and its total paused time is exactly that on-duration.
pub proof fn lemma_single_symbol_plan(c: char)
    requires
        is_symbol(c),
    ensures
        plan_spec(seq![c]) == seq![
            Action::Signal(State::Down),
            Action::Pause(on_units(c)),
            Action::Signal(State::Up),
        ],
        pause_units(plan_spec(seq![c])) == on_units(c) as int,
{
    lemma_plan_single_token(seq![c]);
    assert(seq![c][0] == c);
    assert(seq![c].drop_first() =~= Seq::<char>::empty());
    let core = seq![
        Action::Signal(State::Down),
        Action::Pause(on_units(c)),
        Action::Signal(State::Up),
    ];
    assert(char_step(c, false).0 =~= core);
    assert(token_steps(Seq::<char>::empty(), true).0 =~= Seq::<Action>::empty());
    assert(token_steps(seq![c], false).0 =~= core);
    lemma_pause_units_core(c);
}

/// Within one character, the pause between consecutive symbols is exactly one
/// unit: extending a symbol token by one more symbol appends the deferred
/// one-unit pause, then Down, the new symbol's on-duration, and Up.
pub proof fn lemma_intra_character_gap(tok: Seq<char>, c: char)
    requires
        symbol_token(tok),
        is_symbol(c),
    ensures
        plan_spec(tok.push(c)) == plan_spec(tok) + seq![
            Action::Pause(1u64),
            Action::Signal(State::Down),
            Action::Pause(on_units(c)),
            Action::Signal(State::Up),
        ],
{
    assert(forall|k: int| 0 <= k < tok.len() ==> tok[k] != ' ');
    assert(forall|k: int| 0 <= k < tok.push(c).len() ==> tok.push(c)[k] != ' ');
    lemma_plan_single_token(tok);
    lemma_plan_single_token(tok.push(c));
    lemma_token_steps_snoc(tok, c, false);
    lemma_token_steps_pending(tok, false);
    assert(char_step(c, true).0 =~= seq![
        Action::Pause(1u64),
        Action::Signal(State::Down),
        Action::Pause(on_units(c)),
        Action::Signal(State::Up),
    ]);
}

/// Between two characters the pause totals exactly three units, never four:
/// the two-unit boundary pause followed by the deferred one-unit pause.
pub proof fn lemma_inter_character_gap(t1: Seq<char>, t2: Seq<char>)
    requires
        symbol_token(t1),
        symbol_token(t2),
    ensures
        plan_spec(t1 + seq![' '] + t2) == plan_spec(t1) + seq![
            Action::Pause(2u64),
            Action::Pause(1u64),
        ] + plan_spec(t2),
        pause_units(plan_spec(t1 + seq![' '] + t2)) == pause_units(plan_spec(t1)) + 3
            + pause_units(plan_spec(t2)),
{
    assert(forall|k: int| 0 <= k < t1.len() ==> t1[k] != ' ');
    assert(forall|k: int| 0 <= k < t2.len() ==> t2[k] != ' ');
    lemma_split_sp_append(t1, t2);
    lemma_split_sp_no_space(t1);
    lemma_split_sp_no_space(t2);
    let toks = seq![t1] + seq![t2];
    assert(split_sp(t1 + seq![' '] + t2) == toks);
    assert(!is_sep(t1)) by {
        if t1 == seq!['/'] {
            assert(is_symbol(t1[0]));
        }
    }
    assert(!is_sep(t2)) by {
        if t2 == seq!['/'] {
            assert(is_symbol(t2[0]));
        }
    }
    assert(toks[0] == t1);
    assert(toks.drop_first() =~~= seq![t2]);
    assert(seq![t2][0] == t2);
    assert(seq![t2].drop_first() =~~= Seq::<Seq<char>>::empty());
    lemma_token_steps_pending(t1, false);
    lemma_token_steps_pending_prefix(t2);
    lemma_plan_single_token(t1);
    lemma_plan_single_token(t2);
    assert(plan_tokens(seq![t2], true, true) =~= seq![Action::Pause(2u64)] + token_steps(
        t2,
        true,
    ).0);
    assert(plan_tokens(toks, false, false) =~= token_steps(t1, false).0 + plan_tokens(
        seq![t2],
        true,
        true,
    ));
    assert(plan_spec(t1 + seq![' '] + t2) =~= plan_spec(t1) + seq![
        Action::Pause(2u64),
        Action::Pause(1u64),
    ] + plan_spec(t2));
    lemma_pause_units_concat(plan_spec(t1) + seq![Action::Pause(2u64), Action::Pause(1u64)],
        plan_spec(t2));
    lemma_pause_units_concat(plan_spec(t1), seq![Action::Pause(2u64), Action::Pause(1u64)]);
    lemma_pause_units_pair(2u64, 1u64);
}

/// Across a word separator the pause totals exactly seven units, and the
/// separator itself emits no signal transitions.
pub proof fn lemma_inter_word_gap(t1: Seq<char>, t2: Seq<char>)
    requires
        symbol_token(t1),
        symbol_token(t2),
    ensures
        plan_spec(t1 + seq![' ', '/', ' '] + t2) == plan_spec(t1) + seq![Action::Pause(7u64)]
            + plan_spec(t2),
        pause_units(plan_spec(t1 + seq![' ', '/', ' '] + t2)) == pause_units(plan_spec(t1)) + 7
            + pause_units(plan_spec(t2)),
{
    assert(forall|k: int| 0 <= k < t1.len() ==> t1[k] != ' ');
    assert(forall|k: int| 0 <= k < t2.len() ==> t2[k] != ' ');
    let sep = seq!['/'];
    assert(t1 + seq![' ', '/', ' '] + t2 =~= t1 + seq![' '] + (sep + seq![' '] + t2));
    lemma_split_sp_append(t1, sep + seq![' '] + t2);
    lemma_split_sp_append(sep, t2);
    lemma_split_sp_no_space(t1);
    lemma_split_sp_no_space(sep);
    lemma_split_sp_no_space(t2);
    let toks = seq![t1] + (seq![sep] + seq![t2]);
    assert(split_sp(t1 + seq![' ', '/', ' '] + t2) == toks);
    assert(!is_sep(t1)) by {
        if t1 == seq!['/'] {
            assert(is_symbol(t1[0]));
        }
    }
    assert(is_sep(sep));
    assert(toks[0] == t1);
    assert(toks.drop_first() =~~= seq![sep] + seq![t2]);
    assert((seq![sep] + seq![t2])[0] == sep);
    assert((seq![sep] + seq![t2]).drop_first() =~~= seq![t2]);
    assert(seq![t2][0] == t2);
    assert(seq![t2].drop_first() =~~= Seq::<Seq<char>>::empty());
    lemma_token_steps_pending(t1, false);
    lemma_plan_single_token(t1);
    lemma_plan_single_token(t2);
    assert(sep[0] == '/');
    assert(sep.drop_first() =~= Seq::<char>::empty());
    assert(char_step('/', true).0 =~= seq![Action::Pause(7u64)]);
    assert(token_steps(Seq::<char>::empty(), false).0 =~= Seq::<Action>::empty());
    assert(token_steps(Seq::<char>::empty(), false).1 == false);
    assert(token_steps(sep, true).0 =~= seq![Action::Pause(7u64)]);
    assert(token_steps(sep, true).1 == false);
    assert(plan_tokens(seq![t2], false, false) =~= token_steps(t2, false).0);
    assert(plan_tokens(seq![sep] + seq![t2], true, true) =~= seq![Action::Pause(7u64)]
        + token_steps(t2, false).0);
    assert(plan_tokens(toks, false, false) =~= token_steps(t1, false).0 + plan_tokens(
        seq![sep] + seq![t2],
        true,
        true,
    ));
    assert(plan_spec(t1 + seq![' ', '/', ' '] + t2) =~= plan_spec(t1) + seq![Action::Pause(7u64)]
        + plan_spec(t2));
    lemma_pause_units_concat(plan_spec(t1) + seq![Action::Pause(7u64)], plan_spec(t2));
    lemma_pause_units_concat(plan_spec(t1), seq![Action::Pause(7u64)]);
    lemma_pause_units_pair(7u64, 0u64);
}

} // verus!
