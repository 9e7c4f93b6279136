//! Parsing of key-press sheets and the timing of their playback.
//!
//! A sheet is text: define lines (`#length 1:30`) and lines of keys, groups
//! (`[AB]`, `[A B]`) and pauses (`|`, a space, a blank line). [`parse_sheet`]
//! turns it into a [`Sheet`]; [`calculate_token_durations`] splits the time
//! that each token gets on average between the kinds of token; and
//! [`playback_actions`] lists the presses, releases and waits that play it.
//!
//! Times are whole microseconds and proportions whole millionths, so that
//! every rule here is exact integer arithmetic.

pub mod durations;
pub mod playback;
pub mod sheet;

pub use playback::{delay_micros, playback_actions, token_actions, Action, Delay};
pub use sheet::{average_token_time, parse_sheet, Header, Key, ParseError, Sheet, Token};
pub use durations::{
    calculate_token_durations, DistributionError, PauseDistribution, TokenDurations, UNIT,
};


