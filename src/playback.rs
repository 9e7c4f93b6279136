//! What playing a sheet does, as a list of key presses, releases and waits.

use vstd::prelude::*;

use crate::durations::TokenDurations;
use crate::sheet::{tokens_view, Key, Sheet, Token, TokenView};

verus! {

/// Which of the durations a wait lasts.
#[derive(Clone, Copy, Debug, PartialEq, Eq, Structural)]
pub enum Delay {
    ShortPause,
    Pause,
    /// A run of blank lines; it lasts the `long_pause` share, by choice of
    /// playback, as the allocator gives blank lines no duration of their own.
    LongPause,
    Single,
    ManyFast,
}

/// One step of playback.
#[derive(Clone, Copy, Debug, PartialEq, Eq, Structural)]
pub enum Action {
    Press(Key),
    Release(Key),
    Wait(Delay),
}

/// Each key pressed, held for an arpeggio key's time and released, in turn.
pub open spec fn arpeggio_actions(ks: Seq<Key>) -> Seq<Action>
    decreases ks.len(),
{
    if ks.len() == 0 {
        Seq::empty()
    } else {
        arpeggio_actions(ks.drop_last()) + seq![
            Action::Press(ks.last()),
            Action::Wait(Delay::ManyFast),
            Action::Release(ks.last()),
        ]
    }
}

/// The steps that play one token.
pub open spec fn actions_of(t: TokenView) -> Seq<Action> {
    match t {
        TokenView::ShortPause => seq![Action::Wait(Delay::ShortPause)],
        TokenView::Pause => seq![Action::Wait(Delay::Pause)],
        TokenView::LongPause => seq![Action::Wait(Delay::LongPause)],
        TokenView::Single(k) => seq![
            Action::Press(k),
            Action::Wait(Delay::Single),
            Action::Release(k),
        ],
        TokenView::Many(ks) => ks.map_values(|k: Key| Action::Press(k)) + seq![
            Action::Wait(Delay::Single),
        ] + ks.map_values(|k: Key| Action::Release(k)),
        TokenView::ManyFast(ks) => arpeggio_actions(ks),
    }
}

/// The steps that play a sequence of tokens, one token after another.
pub open spec fn sheet_actions(ts: Seq<TokenView>) -> Seq<Action>
    decreases ts.len(),
{
    if ts.len() == 0 {
        Seq::empty()
    } else {
        sheet_actions(ts.drop_last()) + actions_of(ts.last())
    }
}

/// Appends to `out` a press of each key of `ks`, or a release of each.
fn push_all(out: &mut Vec<Action>, ks: &Vec<Key>, press: bool)
    ensures
        final(out)@ == old(out)@ + if press {
            ks@.map_values(|k: Key| Action::Press(k))
        } else {
            ks@.map_values(|k: Key| Action::Release(k))
        },
{
    let ghost start = out@;
    let mut i: usize = 0;
    while i < ks.len()
        invariant
            i <= ks.len(),
            out@ == start + if press {
                ks@.take(i as int).map_values(|k: Key| Action::Press(k))
            } else {
                ks@.take(i as int).map_values(|k: Key| Action::Release(k))
            },
        decreases ks.len() - i,
    {
        let k = ks[i];
        if press {
            out.push(Action::Press(k));
        } else {
            out.push(Action::Release(k));
        }
        i = i + 1;
        assert(out@ =~= start + if press {
            ks@.take(i as int).map_values(|k: Key| Action::Press(k))
        } else {
            ks@.take(i as int).map_values(|k: Key| Action::Release(k))
        });
    }
    assert(ks@.take(ks.len() as int) == ks@);
}

/// Appends to `out` the steps that play `t`.
fn push_token_actions(out: &mut Vec<Action>, t: &Token)
    ensures
        final(out)@ == old(out)@ + actions_of(t@),
{
    let ghost start = out@;
    match t {
        Token::ShortPause => out.push(Action::Wait(Delay::ShortPause)),
        Token::Pause => out.push(Action::Wait(Delay::Pause)),
        Token::LongPause => out.push(Action::Wait(Delay::LongPause)),
        Token::Single(k) => {
            out.push(Action::Press(*k));
            out.push(Action::Wait(Delay::Single));
            out.push(Action::Release(*k));
        },
        Token::Many(ks) => {
            push_all(out, ks, true);
            out.push(Action::Wait(Delay::Single));
            push_all(out, ks, false);
        },
        Token::ManyFast(ks) => {
            let mut i: usize = 0;
            while i < ks.len()
                invariant
                    i <= ks.len(),
                    out@ == start + arpeggio_actions(ks@.take(i as int)),
                decreases ks.len() - i,
            {
                let k = ks[i];
                assert(ks@.take(i + 1).drop_last() == ks@.take(i as int));
                out.push(Action::Press(k));
                out.push(Action::Wait(Delay::ManyFast));
                out.push(Action::Release(k));
                i = i + 1;
            }
            assert(ks@.take(ks.len() as int) == ks@);
        },
    }
    assert(out@ =~= start + actions_of(t@));
}

/// The steps that play `t`.
pub fn token_actions(t: &Token) -> (r: Vec<Action>)
    ensures
        r@ == actions_of(t@),
{
    let mut r: Vec<Action> = Vec::new();
    push_token_actions(&mut r, t);
    assert(r@ =~= actions_of(t@));
    r
}

/// The steps that play `sheet`, token by token in order.
pub fn playback_actions(sheet: &Sheet) -> (r: Vec<Action>)
    ensures
        r@ == sheet_actions(tokens_view(sheet.tokens@)),
{
    let ghost ts = tokens_view(sheet.tokens@);
    let mut r: Vec<Action> = Vec::new();
    let mut i: usize = 0;
    while i < sheet.tokens.len()
        invariant
            i <= sheet.tokens.len(),
            ts == tokens_view(sheet.tokens@),
            r@ == sheet_actions(ts.take(i as int)),
        decreases sheet.tokens.len() - i,
    {
        assert(ts.take(i + 1).drop_last() == ts.take(i as int));
        assert(ts.take(i + 1).last() == sheet.tokens@[i as int]@);
        push_token_actions(&mut r, &sheet.tokens[i]);
        i = i + 1;
    }
    assert(ts.take(ts.len() as int) == ts);
    r
}

/// How long a wait of kind `delay` lasts, in microseconds.
pub fn delay_micros(d: &TokenDurations, delay: Delay) -> (r: u64)
    ensures
        r == match delay {
            Delay::ShortPause => d.short_pause,
            Delay::Pause => d.pause,
            Delay::LongPause => d.long_pause,
            Delay::Single => d.single,
            Delay::ManyFast => d.many_fast,
        },
{
    match delay {
        Delay::ShortPause => d.short_pause,
        Delay::Pause => d.pause,
        Delay::LongPause => d.long_pause,
        Delay::Single => d.single,
        Delay::ManyFast => d.many_fast,
    }
}

} // verus!
