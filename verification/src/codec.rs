//! The byte format of the persisted leaderboard blob: a JSON array of
//! records, each `{"name":..,"score":..,"duration":..,"mode":..,
//! "gameMode":..,"time":..}`. Legacy records may omit `duration` and
//! `gameMode`; reading supplies their defaults.
//!
//! The encoder emits the fields in the fixed order above with no
//! whitespace; the reader tolerates whitespace between tokens and the two
//! optional fields being absent, and rejects anything else. A rejected
//! blob degrades to an empty leaderboard at the caller.

use vstd::prelude::*;
use crate::highscore::{EntryV, HighscoreEntry, views, DEFAULT_DURATION};
use crate::utils::dec_digits;

verus! {

pub open spec fn key_txt_name() -> Seq<u8> {
    seq![110u8, 97u8, 109u8, 101u8]
}

pub open spec fn key_txt_score() -> Seq<u8> {
    seq![115u8, 99u8, 111u8, 114u8, 101u8]
}

pub open spec fn key_txt_duration() -> Seq<u8> {
    seq![100u8, 117u8, 114u8, 97u8, 116u8, 105u8, 111u8, 110u8]
}

pub open spec fn key_txt_mode() -> Seq<u8> {
    seq![109u8, 111u8, 100u8, 101u8]
}

pub open spec fn key_txt_game_mode() -> Seq<u8> {
    seq![103u8, 97u8, 109u8, 101u8, 77u8, 111u8, 100u8, 101u8]
}

pub open spec fn key_txt_time() -> Seq<u8> {
    seq![116u8, 105u8, 109u8, 101u8]
}

/// The game-mode label supplied for legacy records that lack one:
/// `Fast Snake`.
pub open spec fn default_game_mode() -> Seq<u8> {
    seq![70u8, 97u8, 115u8, 116u8, 32u8, 83u8, 110u8, 97u8, 107u8, 101u8]
}

/// Builds the default game-mode label as bytes.
pub fn default_game_mode_bytes() -> (r: Vec<u8>)
    ensures
        r@ == default_game_mode(),
{
    let mut r: Vec<u8> = Vec::new();
    r.push(70);
    r.push(97);
    r.push(115);
    r.push(116);
    r.push(32);
    r.push(83);
    r.push(110);
    r.push(97);
    r.push(107);
    r.push(101);
    proof {
        assert(r@ =~= default_game_mode());
    }
    r
}

// ---------------------------------------------------------------------
// Encoding
// ---------------------------------------------------------------------

/// Lower-case hexadecimal digit for a nibble.
pub open spec fn hex_digit(n: u8) -> u8 {
    if n < 10 {
        (48 + n) as u8
    } else {
        (87 + n) as u8
    }
}

/// How one byte of string content is written: quote and backslash get a
/// backslash escape, control bytes a `\u00XX` escape, all else stands as
/// itself.
pub open spec fn esc_byte(b: u8) -> Seq<u8> {
    if b == 34 {
        seq![92u8, 34u8]
    } else if b == 92 {
        seq![92u8, 92u8]
    } else if b < 32 {
        seq![92u8, 117u8, 48u8, 48u8, hex_digit(b / 16), hex_digit(b % 16)]
    } else {
        seq![b]
    }
}

pub open spec fn esc_bytes(s: Seq<u8>) -> Seq<u8>
    decreases s.len(),
{
    if s.len() == 0 {
        Seq::empty()
    } else {
        esc_byte(s[0]) + esc_bytes(s.drop_first())
    }
}

/// A string value as written: quoted and escaped.
pub open spec fn quoted(s: Seq<u8>) -> Seq<u8> {
    seq![34u8] + esc_bytes(s) + seq![34u8]
}

/// A key as written: quoted (keys need no escapes) and followed by the
/// colon.
pub open spec fn key_enc(k: Seq<u8>) -> Seq<u8> {
    seq![34u8] + k + seq![34u8, 58u8]
}

/// One record as written: all six fields, in a fixed order, with no
/// whitespace.
pub open spec fn encode_entry(e: EntryV) -> Seq<u8> {
    seq![123u8] + key_enc(key_txt_name()) + quoted(e.name) + seq![44u8] + key_enc(key_txt_score())
        + dec_digits(e.score as nat) + seq![44u8] + key_enc(key_txt_duration()) + dec_digits(
        e.duration as nat,
    ) + seq![44u8] + key_enc(key_txt_mode()) + quoted(e.mode) + seq![44u8] + key_enc(
        key_txt_game_mode(),
    ) + quoted(e.game_mode) + seq![44u8] + key_enc(key_txt_time()) + quoted(e.time) + seq![125u8]
}

pub open spec fn encode_rest_from(s: Seq<EntryV>, i: int) -> Seq<u8>
    decreases s.len() - i,
{
    if i < 0 || i >= s.len() {
        Seq::empty()
    } else {
        seq![44u8] + encode_entry(s[i]) + encode_rest_from(s, i + 1)
    }
}

/// The whole blob as written: the records in their stored order, inside
/// one array.
pub open spec fn encode_list(s: Seq<EntryV>) -> Seq<u8> {
    seq![91u8] + (if s.len() == 0 {
        Seq::<u8>::empty()
    } else {
        encode_entry(s[0]) + encode_rest_from(s, 1)
    }) + seq![93u8]
}

// ---------------------------------------------------------------------
// Decoding
// ---------------------------------------------------------------------

pub open spec fn is_ws(b: u8) -> bool {
    b == 32 || b == 9 || b == 10 || b == 13
}

pub open spec fn is_digit(b: u8) -> bool {
    48 <= b <= 57
}

pub open spec fn is_hex(b: u8) -> bool {
    is_digit(b) || (97 <= b <= 102) || (65 <= b <= 70)
}

/// The nibble a hexadecimal digit denotes.
pub open spec fn hex_nibble(b: u8) -> int {
    if is_digit(b) {
        b - 48
    } else if 97 <= b <= 102 {
        b - 87
    } else {
        b - 55
    }
}

pub open spec fn at_byte(s: Seq<u8>, i: int, b: u8) -> bool {
    0 <= i < s.len() && s[i] == b
}

/// First position at or after `i` that holds no whitespace.
pub open spec fn skip_ws(s: Seq<u8>, i: int) -> int
    decreases s.len() - i,
{
    if 0 <= i < s.len() && is_ws(s[i]) {
        skip_ws(s, i + 1)
    } else {
        i
    }
}

/// Parses string content after an opening quote up to and over the
/// closing quote.
pub open spec fn parse_string_body(s: Seq<u8>, i: int) -> Option<(Seq<u8>, int)>
    decreases s.len() - i,
{
    if i < 0 || i >= s.len() {
        Option::None
    } else if s[i] == 34 {
        Option::Some((Seq::empty(), i + 1))
    } else if s[i] == 92 {
        if i + 1 >= s.len() {
            Option::None
        } else {
            let c = s[i + 1];
            if c == 34 || c == 92 || c == 47 {
                match parse_string_body(s, i + 2) {
                    Option::Some((t, j)) => Option::Some((seq![c] + t, j)),
                    Option::None => Option::None,
                }
            } else if c == 98 || c == 102 || c == 110 || c == 114 || c == 116 {
                let u: u8 = if c == 98 {
                    8
                } else if c == 102 {
                    12
                } else if c == 110 {
                    10
                } else if c == 114 {
                    13
                } else {
                    9
                };
                match parse_string_body(s, i + 2) {
                    Option::Some((t, j)) => Option::Some((seq![u] + t, j)),
                    Option::None => Option::None,
                }
            } else if c == 117 {
                if i + 6 > s.len() {
                    Option::None
                } else if is_hex(s[i + 2]) && is_hex(s[i + 3]) && is_hex(s[i + 4]) && is_hex(
                    s[i + 5],
                ) {
                    let v = hex_nibble(s[i + 2]) * 4096 + hex_nibble(s[i + 3]) * 256 + hex_nibble(
                        s[i + 4],
                    ) * 16 + hex_nibble(s[i + 5]);
                    if v < 128 {
                        match parse_string_body(s, i + 6) {
                            Option::Some((t, j)) => Option::Some((seq![v as u8] + t, j)),
                            Option::None => Option::None,
                        }
                    } else {
                        Option::None
                    }
                } else {
                    Option::None
                }
            } else {
                Option::None
            }
        }
    } else {
        match parse_string_body(s, i + 1) {
            Option::Some((t, j)) => Option::Some((seq![s[i]] + t, j)),
            Option::None => Option::None,
        }
    }
}

/// Accumulates a run of decimal digits.
pub open spec fn parse_digits(s: Seq<u8>, i: int, acc: nat) -> (nat, int)
    decreases s.len() - i,
{
    if 0 <= i < s.len() && is_digit(s[i]) {
        parse_digits(s, i + 1, (acc * 10 + (s[i] - 48)) as nat)
    } else {
        (acc, i)
    }
}

/// Parses a non-negative decimal number (at least one digit).
pub open spec fn parse_number(s: Seq<u8>, i: int) -> Option<(nat, int)> {
    if 0 <= i < s.len() && is_digit(s[i]) {
        Option::Some(parse_digits(s, i + 1, (s[i] - 48) as nat))
    } else {
        Option::None
    }
}

/// Parses a quoted string value.
pub open spec fn parse_quoted(s: Seq<u8>, i: int) -> Option<(Seq<u8>, int)> {
    if at_byte(s, i, 34) {
        parse_string_body(s, i + 1)
    } else {
        Option::None
    }
}

/// Parses a quoted key and its colon; yields the key text and the
/// position of the value.
pub open spec fn parse_key(s: Seq<u8>, i: int) -> Option<(Seq<u8>, int)> {
    match parse_quoted(s, i) {
        Option::Some((k, j)) => {
            let j2 = skip_ws(s, j);
            if at_byte(s, j2, 58) {
                Option::Some((k, skip_ws(s, j2 + 1)))
            } else {
                Option::None
            }
        },
        Option::None => Option::None,
    }
}

/// Consumes a comma between fields or records, with whitespace around it.
pub open spec fn expect_comma(s: Seq<u8>, i: int) -> Option<int> {
    let j = skip_ws(s, i);
    if at_byte(s, j, 44) {
        Option::Some(skip_ws(s, j + 1))
    } else {
        Option::None
    }
}

pub open spec fn parse_time_value(
    s: Seq<u8>,
    i: int,
    name: Seq<u8>,
    score: u64,
    duration: u32,
    mode: Seq<u8>,
    game_mode: Seq<u8>,
) -> Option<(EntryV, int)> {
    match parse_quoted(s, i) {
        Option::Some((time, j)) => {
            let j2 = skip_ws(s, j);
            if at_byte(s, j2, 125) {
                Option::Some((EntryV { name, score, duration, mode, game_mode, time }, j2 + 1))
            } else {
                Option::None
            }
        },
        Option::None => Option::None,
    }
}

pub open spec fn parse_game_mode_value(
    s: Seq<u8>,
    i: int,
    name: Seq<u8>,
    score: u64,
    duration: u32,
    mode: Seq<u8>,
) -> Option<(EntryV, int)> {
    match parse_quoted(s, i) {
        Option::Some((gm, j)) => match expect_comma(s, j) {
            Option::Some(j2) => match parse_key(s, j2) {
                Option::Some((k, v)) => if k == key_txt_time() {
                    parse_time_value(s, v, name, score, duration, mode, gm)
                } else {
                    Option::None
                },
                Option::None => Option::None,
            },
            Option::None => Option::None,
        },
        Option::None => Option::None,
    }
}

pub open spec fn parse_mode_value(s: Seq<u8>, i: int, name: Seq<u8>, score: u64, duration: u32) -> Option<
    (EntryV, int),
> {
    match parse_quoted(s, i) {
        Option::Some((mode, j)) => match expect_comma(s, j) {
            Option::Some(j2) => match parse_key(s, j2) {
                Option::Some((k, v)) => if k == key_txt_game_mode() {
                    parse_game_mode_value(s, v, name, score, duration, mode)
                } else if k == key_txt_time() {
                    parse_time_value(s, v, name, score, duration, mode, default_game_mode())
                } else {
                    Option::None
                },
                Option::None => Option::None,
            },
            Option::None => Option::None,
        },
        Option::None => Option::None,
    }
}

pub open spec fn parse_after_duration(s: Seq<u8>, i: int, name: Seq<u8>, score: u64) -> Option<
    (EntryV, int),
> {
    match parse_number(s, i) {
        Option::Some((d, j)) => if d <= u32::MAX {
            match expect_comma(s, j) {
                Option::Some(j2) => match parse_key(s, j2) {
                    Option::Some((k, v)) => if k == key_txt_mode() {
                        parse_mode_value(s, v, name, score, d as u32)
                    } else {
                        Option::None
                    },
                    Option::None => Option::None,
                },
                Option::None => Option::None,
            }
        } else {
            Option::None
        },
        Option::None => Option::None,
    }
}

pub open spec fn parse_after_score(s: Seq<u8>, i: int, name: Seq<u8>) -> Option<(EntryV, int)> {
    match parse_number(s, i) {
        Option::Some((n, j)) => if n <= u64::MAX {
            match expect_comma(s, j) {
                Option::Some(j2) => match parse_key(s, j2) {
                    Option::Some((k, v)) => if k == key_txt_duration() {
                        parse_after_duration(s, v, name, n as u64)
                    } else if k == key_txt_mode() {
                        parse_mode_value(s, v, name, n as u64, DEFAULT_DURATION)
                    } else {
                        Option::None
                    },
                    Option::None => Option::None,
                },
                Option::None => Option::None,
            }
        } else {
            Option::None
        },
        Option::None => Option::None,
    }
}

/// Parses one record.
pub open spec fn parse_entry(s: Seq<u8>, i: int) -> Option<(EntryV, int)> {
    let i0 = skip_ws(s, i);
    if at_byte(s, i0, 123) {
        match parse_key(s, skip_ws(s, i0 + 1)) {
            Option::Some((k, v)) => if k == key_txt_name() {
                match parse_quoted(s, v) {
                    Option::Some((name, j)) => match expect_comma(s, j) {
                        Option::Some(j2) => match parse_key(s, j2) {
                            Option::Some((k2, v2)) => if k2 == key_txt_score() {
                                parse_after_score(s, v2, name)
                            } else {
                                Option::None
                            },
                            Option::None => Option::None,
                        },
                        Option::None => Option::None,
                    },
                    Option::None => Option::None,
                }
            } else {
                Option::None
            },
            Option::None => Option::None,
        }
    } else {
        Option::None
    }
}

proof fn lemma_skip_ws_bounds(s: Seq<u8>, i: int)
    requires
        0 <= i <= s.len(),
    ensures
        i <= skip_ws(s, i) <= s.len(),
    decreases s.len() - i,
{
    if i < s.len() && is_ws(s[i]) {
        lemma_skip_ws_bounds(s, i + 1);
    }
}

proof fn lemma_parse_string_body_bounds(s: Seq<u8>, i: int)
    requires
        0 <= i,
    ensures
        match parse_string_body(s, i) {
            Option::Some((t, j)) => i < j <= s.len(),
            Option::None => true,
        },
    decreases s.len() - i,
{
    if i < s.len() {
        if s[i] == 34 {
        } else if s[i] == 92 {
            if i + 1 < s.len() {
                lemma_parse_string_body_bounds(s, i + 2);
                if i + 6 <= s.len() {
                    lemma_parse_string_body_bounds(s, i + 6);
                }
            }
        } else {
            lemma_parse_string_body_bounds(s, i + 1);
        }
    }
}

proof fn lemma_parse_digits_bounds(s: Seq<u8>, i: int, acc: nat)
    requires
        0 <= i <= s.len(),
    ensures
        i <= parse_digits(s, i, acc).1 <= s.len(),
    decreases s.len() - i,
{
    if i < s.len() && is_digit(s[i]) {
        lemma_parse_digits_bounds(s, i + 1, (acc * 10 + (s[i] - 48)) as nat);
    }
}

proof fn lemma_parse_number_bounds(s: Seq<u8>, i: int)
    ensures
        match parse_number(s, i) {
            Option::Some((n, j)) => i < j <= s.len(),
            Option::None => true,
        },
{
    if 0 <= i < s.len() && is_digit(s[i]) {
        lemma_parse_digits_bounds(s, i + 1, (s[i] - 48) as nat);
    }
}

proof fn lemma_parse_quoted_bounds(s: Seq<u8>, i: int)
    ensures
        match parse_quoted(s, i) {
            Option::Some((t, j)) => i < j <= s.len(),
            Option::None => true,
        },
{
    if at_byte(s, i, 34) {
        lemma_parse_string_body_bounds(s, i + 1);
    }
}

proof fn lemma_parse_key_bounds(s: Seq<u8>, i: int)
    ensures
        match parse_key(s, i) {
            Option::Some((k, v)) => i < v <= s.len(),
            Option::None => true,
        },
{
    lemma_parse_quoted_bounds(s, i);
    match parse_quoted(s, i) {
        Option::Some((k, j)) => {
            lemma_skip_ws_bounds(s, j);
            let j2 = skip_ws(s, j);
            if at_byte(s, j2, 58) {
                lemma_skip_ws_bounds(s, j2 + 1);
            }
        },
        Option::None => {},
    }
}

proof fn lemma_expect_comma_bounds(s: Seq<u8>, i: int)
    requires
        0 <= i <= s.len(),
    ensures
        match expect_comma(s, i) {
            Option::Some(j) => i < j <= s.len(),
            Option::None => true,
        },
{
    lemma_skip_ws_bounds(s, i);
    let j = skip_ws(s, i);
    if at_byte(s, j, 44) {
        lemma_skip_ws_bounds(s, j + 1);
    }
}

proof fn lemma_parse_time_value_bounds(
    s: Seq<u8>,
    i: int,
    name: Seq<u8>,
    score: u64,
    duration: u32,
    mode: Seq<u8>,
    game_mode: Seq<u8>,
)
    ensures
        match parse_time_value(s, i, name, score, duration, mode, game_mode) {
            Option::Some((e, j)) => i < j <= s.len(),
            Option::None => true,
        },
{
    lemma_parse_quoted_bounds(s, i);
    match parse_quoted(s, i) {
        Option::Some((t, j)) => {
            lemma_skip_ws_bounds(s, j);
        },
        Option::None => {},
    }
}

proof fn lemma_parse_game_mode_value_bounds(
    s: Seq<u8>,
    i: int,
    name: Seq<u8>,
    score: u64,
    duration: u32,
    mode: Seq<u8>,
)
    ensures
        match parse_game_mode_value(s, i, name, score, duration, mode) {
            Option::Some((e, j)) => i < j <= s.len(),
            Option::None => true,
        },
{
    lemma_parse_quoted_bounds(s, i);
    match parse_quoted(s, i) {
        Option::Some((gm, j)) => {
            lemma_expect_comma_bounds(s, j);
            match expect_comma(s, j) {
                Option::Some(j2) => {
                    lemma_parse_key_bounds(s, j2);
                    match parse_key(s, j2) {
                        Option::Some((k, v)) => {
                            lemma_parse_time_value_bounds(s, v, name, score, duration, mode, gm);
                        },
                        Option::None => {},
                    }
                },
                Option::None => {},
            }
        },
        Option::None => {},
    }
}

proof fn lemma_parse_mode_value_bounds(s: Seq<u8>, i: int, name: Seq<u8>, score: u64, duration: u32)
    ensures
        match parse_mode_value(s, i, name, score, duration) {
            Option::Some((e, j)) => i < j <= s.len(),
            Option::None => true,
        },
{
    lemma_parse_quoted_bounds(s, i);
    match parse_quoted(s, i) {
        Option::Some((mode, j)) => {
            lemma_expect_comma_bounds(s, j);
            match expect_comma(s, j) {
                Option::Some(j2) => {
                    lemma_parse_key_bounds(s, j2);
                    match parse_key(s, j2) {
                        Option::Some((k, v)) => {
                            lemma_parse_game_mode_value_bounds(s, v, name, score, duration, mode);
                            lemma_parse_time_value_bounds(
                                s,
                                v,
                                name,
                                score,
                                duration,
                                mode,
                                default_game_mode(),
                            );
                        },
                        Option::None => {},
                    }
                },
                Option::None => {},
            }
        },
        Option::None => {},
    }
}

proof fn lemma_parse_after_duration_bounds(s: Seq<u8>, i: int, name: Seq<u8>, score: u64)
    ensures
        match parse_after_duration(s, i, name, score) {
            Option::Some((e, j)) => i < j <= s.len(),
            Option::None => true,
        },
{
    lemma_parse_number_bounds(s, i);
    match parse_number(s, i) {
        Option::Some((d, j)) => if d <= u32::MAX {
            lemma_expect_comma_bounds(s, j);
            match expect_comma(s, j) {
                Option::Some(j2) => {
                    lemma_parse_key_bounds(s, j2);
                    match parse_key(s, j2) {
                        Option::Some((k, v)) => {
                            lemma_parse_mode_value_bounds(s, v, name, score, d as u32);
                        },
                        Option::None => {},
                    }
                },
                Option::None => {},
            }
        },
        Option::None => {},
    }
}

proof fn lemma_parse_after_score_bounds(s: Seq<u8>, i: int, name: Seq<u8>)
    ensures
        match parse_after_score(s, i, name) {
            Option::Some((e, j)) => i < j <= s.len(),
            Option::None => true,
        },
{
    lemma_parse_number_bounds(s, i);
    match parse_number(s, i) {
        Option::Some((n, j)) => if n <= u64::MAX {
            lemma_expect_comma_bounds(s, j);
            match expect_comma(s, j) {
                Option::Some(j2) => {
                    lemma_parse_key_bounds(s, j2);
                    match parse_key(s, j2) {
                        Option::Some((k, v)) => {
                            lemma_parse_after_duration_bounds(s, v, name, n as u64);
                            lemma_parse_mode_value_bounds(s, v, name, n as u64, DEFAULT_DURATION);
                        },
                        Option::None => {},
                    }
                },
                Option::None => {},
            }
        },
        Option::None => {},
    }
}

proof fn lemma_parse_entry_bounds(s: Seq<u8>, i: int)
    requires
        0 <= i <= s.len(),
    ensures
        match parse_entry(s, i) {
            Option::Some((e, j)) => i < j <= s.len(),
            Option::None => true,
        },
{
    lemma_skip_ws_bounds(s, i);
    let i0 = skip_ws(s, i);
    if at_byte(s, i0, 123) {
        lemma_skip_ws_bounds(s, i0 + 1);
        lemma_parse_key_bounds(s, skip_ws(s, i0 + 1));
        match parse_key(s, skip_ws(s, i0 + 1)) {
            Option::Some((k, v)) => {
                lemma_parse_quoted_bounds(s, v);
                match parse_quoted(s, v) {
                    Option::Some((name, j)) => {
                        lemma_expect_comma_bounds(s, j);
                        match expect_comma(s, j) {
                            Option::Some(j2) => {
                                lemma_parse_key_bounds(s, j2);
                                match parse_key(s, j2) {
                                    Option::Some((k2, v2)) => {
                                        lemma_parse_after_score_bounds(s, v2, name);
                                    },
                                    Option::None => {},
                                }
                            },
                            Option::None => {},
                        }
                    },
                    Option::None => {},
                }
            },
            Option::None => {},
        }
    }
}

/// Parses the records of a non-empty array, after the opening bracket,
/// up to and over the closing bracket and any trailing whitespace.
pub open spec fn parse_entries_rest(s: Seq<u8>, i: int, acc: Seq<EntryV>) -> Option<Seq<EntryV>>
    decreases s.len() - i,
    when 0 <= i <= s.len()
    via parse_entries_rest_dec
{
    match parse_entry(s, i) {
        Option::Some((e, j)) => {
            let j2 = skip_ws(s, j);
            if at_byte(s, j2, 44) {
                parse_entries_rest(s, j2 + 1, acc.push(e))
            } else if at_byte(s, j2, 93) {
                if skip_ws(s, j2 + 1) == s.len() {
                    Option::Some(acc.push(e))
                } else {
                    Option::None
                }
            } else {
                Option::None
            }
        },
        Option::None => Option::None,
    }
}

#[via_fn]
proof fn parse_entries_rest_dec(s: Seq<u8>, i: int, acc: Seq<EntryV>) {
    lemma_parse_entry_bounds(s, i);
    match parse_entry(s, i) {
        Option::Some((e, j)) => {
            lemma_skip_ws_bounds(s, j);
        },
        Option::None => {},
    }
}

// ---------------------------------------------------------------------
// The written format reads back: supporting lemmas
// ---------------------------------------------------------------------

/// A byte sequence that needs no escaping is written as itself.
pub open spec fn raw_safe(t: Seq<u8>) -> bool {
    forall|j: int| 0 <= j < t.len() ==> 32 <= #[trigger] t[j] && t[j] != 34 && t[j] != 92
}

proof fn lemma_esc_raw(t: Seq<u8>)
    requires
        raw_safe(t),
    ensures
        esc_bytes(t) == t,
    decreases t.len(),
{
    if t.len() > 0 {
        assert(32 <= t[0] && t[0] != 34 && t[0] != 92);
        assert(forall|j: int|
            0 <= j < t.drop_first().len() ==> t.drop_first()[j] == t[j + 1]);
        lemma_esc_raw(t.drop_first());
        assert(esc_bytes(t) =~= t);
    } else {
        assert(esc_bytes(t) =~= t);
    }
}

pub open spec fn pow10(n: nat) -> nat
    decreases n,
{
    if n == 0 {
        1
    } else {
        10 * pow10((n - 1) as nat)
    }
}

proof fn lemma_dec_digits_shape(n: nat)
    ensures
        dec_digits(n).len() >= 1,
        forall|j: int| 0 <= j < dec_digits(n).len() ==> is_digit(#[trigger] dec_digits(n)[j]),
    decreases n,
{
    if n >= 10 {
        lemma_dec_digits_shape(n / 10);
    }
}

/// The numeric value of a big-endian digit run, read from the front.
pub open spec fn digits_val(ds: Seq<u8>) -> nat
    decreases ds.len(),
{
    if ds.len() == 0 {
        0
    } else {
        ((ds[0] - 48) * pow10((ds.len() - 1) as nat) + digits_val(ds.drop_first())) as nat
    }
}

proof fn lemma_digits_val_snoc(ds: Seq<u8>, d: u8)
    requires
        forall|j: int| 0 <= j < ds.len() ==> is_digit(#[trigger] ds[j]),
        is_digit(d),
    ensures
        digits_val(ds.push(d)) == digits_val(ds) * 10 + (d - 48),
    decreases ds.len(),
{
    if ds.len() == 0 {
        assert(ds.push(d).drop_first() =~= Seq::<u8>::empty());
        assert(ds.push(d).len() == 1);
        assert(ds.push(d)[0] == d);
        assert(digits_val(ds.push(d).drop_first()) == 0);
        assert(pow10((ds.push(d).len() - 1) as nat) == 1);
        assert(digits_val(ds.push(d)) == ((d - 48) * pow10(0) + 0) as nat);
        assert(digits_val(ds.push(d)) == digits_val(ds) * 10 + (d - 48));
    } else {
        assert(ds.push(d).drop_first() =~= ds.drop_first().push(d));
        assert(forall|j: int|
            0 <= j < ds.drop_first().len() ==> ds.drop_first()[j] == ds[j + 1]);
        lemma_digits_val_snoc(ds.drop_first(), d);
        let a: int = ds[0] - 48;
        let l: nat = (ds.len() - 1) as nat;
        assert(a >= 0);
        assert(pow10(l + 1) == 10 * pow10(l));
        assert(a * pow10(l + 1) == (a * pow10(l)) * 10) by (nonlinear_arith)
            requires
                pow10(l + 1) == 10 * pow10(l),
        ;
        assert(a * pow10(l) >= 0) by (nonlinear_arith)
            requires
                a >= 0,
        ;
        assert(a * pow10(l + 1) >= 0) by (nonlinear_arith)
            requires
                a >= 0,
        ;
        assert(ds.push(d)[0] == ds[0]);
        assert(ds.push(d).len() - 1 == l + 1);
        assert(digits_val(ds.push(d)) == a * pow10(l + 1) + digits_val(ds.drop_first().push(d)));
        assert(digits_val(ds) == a * pow10(l) + digits_val(ds.drop_first()));
        assert(digits_val(ds.drop_first().push(d)) == digits_val(ds.drop_first()) * 10 + (d - 48));
        assert(digits_val(ds.push(d)) == (a * pow10(l)) * 10 + digits_val(ds.drop_first()) * 10 + (
        d - 48));
        assert(digits_val(ds.push(d)) == digits_val(ds) * 10 + (d - 48));
    }
}

proof fn lemma_dec_digits_val(n: nat)
    ensures
        digits_val(dec_digits(n)) == n,
    decreases n,
{
    if n < 10 {
        assert(dec_digits(n).drop_first() =~= Seq::<u8>::empty());
        assert(dec_digits(n).len() == 1);
        assert(dec_digits(n)[0] == (48 + n) as u8);
        assert(digits_val(dec_digits(n).drop_first()) == 0);
        assert(pow10(0) == 1);
        assert((48 + n) as u8 - 48 == n);
        assert(digits_val(dec_digits(n)) == (((48 + n) as u8 - 48) * pow10(0) + 0) as nat);
        assert(n * 1 == n) by (nonlinear_arith);
        assert(digits_val(dec_digits(n)) == n);
    } else {
        lemma_dec_digits_val(n / 10);
        lemma_dec_digits_shape(n / 10);
        assert(is_digit((48 + n % 10) as u8));
        lemma_digits_val_snoc(dec_digits(n / 10), (48 + n % 10) as u8);
        assert(dec_digits(n) == dec_digits(n / 10).push((48 + n % 10) as u8));
        assert(digits_val(dec_digits(n)) == digits_val(dec_digits(n / 10)) * 10 + ((48 + n % 10)
            as u8 - 48));
        assert(digits_val(dec_digits(n)) == (n / 10) * 10 + n % 10);
    }
}

proof fn lemma_parse_digits_run(s: Seq<u8>, i: int, j: int, acc: nat)
    requires
        0 <= i <= j <= s.len(),
        forall|k: int| i <= k < j ==> is_digit(#[trigger] s[k]),
        j == s.len() || !is_digit(s[j]),
    ensures
        parse_digits(s, i, acc) == (
            (acc * pow10((j - i) as nat) + digits_val(s.subrange(i, j))) as nat,
            j,
        ),
    decreases j - i,
{
    if i == j {
        assert(s.subrange(i, j).len() == 0);
        assert(acc * pow10(0) == acc) by (nonlinear_arith);
    } else {
        assert(is_digit(s[i]));
        let d: int = s[i] - 48;
        lemma_parse_digits_run(s, i + 1, j, (acc * 10 + d) as nat);
        let l: nat = (j - i - 1) as nat;
        assert(s.subrange(i + 1, j) =~= s.subrange(i, j).drop_first());
        assert(digits_val(s.subrange(i, j)) == d * pow10(l) + digits_val(s.subrange(i + 1, j)));
        assert(pow10(l + 1) == 10 * pow10(l));
        assert((acc * 10 + d) * pow10(l) == acc * pow10(l + 1) + d * pow10(l)) by (nonlinear_arith)
            requires
                pow10(l + 1) == 10 * pow10(l),
        ;
    }
}

proof fn lemma_parse_number_at(s: Seq<u8>, i: int, n: nat)
    requires
        0 <= i,
        i + dec_digits(n).len() <= s.len(),
        s.subrange(i, i + dec_digits(n).len()) == dec_digits(n),
        i + dec_digits(n).len() == s.len() || !is_digit(s[i + dec_digits(n).len()]),
    ensures
        parse_number(s, i) == Option::Some((n, i + dec_digits(n).len())),
{
    let ds = dec_digits(n);
    let l = ds.len() as int;
    lemma_dec_digits_shape(n);
    assert forall|m: int| 0 <= m < l implies s[i + m] == ds[m] by {
        assert(s.subrange(i, i + l)[m] == s[i + m]);
    }
    assert(is_digit(s[i])) by {
        assert(s[i + 0] == ds[0]);
        assert(is_digit(ds[0]));
    }
    assert forall|k: int| i + 1 <= k < i + l implies is_digit(#[trigger] s[k]) by {
        assert(s[i + (k - i)] == ds[k - i]);
        assert(is_digit(ds[k - i]));
    }
    lemma_parse_digits_run(s, i + 1, i + l, (s[i] - 48) as nat);
    assert(s.subrange(i + 1, i + l) =~= dec_digits(n).drop_first());
    lemma_dec_digits_val(n);
    let d: int = s[i] - 48;
    let l1: nat = (l - 1) as nat;
    assert(digits_val(dec_digits(n)) == d * pow10(l1) + digits_val(dec_digits(n).drop_first()));
    assert(d * pow10(l1) == d * pow10(l1)) by (nonlinear_arith);
}

proof fn lemma_parse_string_at(s: Seq<u8>, i: int, t: Seq<u8>)
    requires
        0 <= i,
        i + esc_bytes(t).len() + 1 <= s.len(),
        s.subrange(i, i + esc_bytes(t).len() + 1) == esc_bytes(t) + seq![34u8],
    ensures
        parse_string_body(s, i) == Option::Some((t, i + esc_bytes(t).len() + 1)),
    decreases t.len(),
{
    let full = esc_bytes(t) + seq![34u8];
    let el = esc_bytes(t).len() as int;
    assert forall|m: int| 0 <= m < el + 1 implies s[i + m] == full[m] by {
        assert(s.subrange(i, i + el + 1)[m] == s[i + m]);
    }
    if t.len() == 0 {
        assert(s[i + 0] == full[0]);
        assert(s[i] == 34);
    } else {
        let c = t[0];
        let t2 = t.drop_first();
        let e0 = esc_byte(c);
        let k = e0.len() as int;
        assert(esc_bytes(t) == e0 + esc_bytes(t2));
        assert forall|m: int| 0 <= m < k implies s[i + m] == e0[m] by {
            assert(s[i + m] == full[m]);
            assert(full[m] == esc_bytes(t)[m]);
            assert(esc_bytes(t)[m] == e0[m]);
        }
        let e2l = esc_bytes(t2).len() as int;
        assert(s.subrange(i + k, i + k + e2l + 1) =~= esc_bytes(t2) + seq![34u8]) by {
            assert forall|m: int|
                0 <= m < e2l + 1 implies #[trigger] s.subrange(i + k, i + k + e2l + 1)[m] == (
            esc_bytes(t2) + seq![34u8])[m] by {
                assert(s.subrange(i + k, i + k + e2l + 1)[m] == s[i + (k + m)]);
                assert(s[i + (k + m)] == full[k + m]);
                if m < e2l {
                    assert(full[k + m] == esc_bytes(t)[k + m]);
                    assert(esc_bytes(t)[k + m] == esc_bytes(t2)[m]);
                } else {
                    assert(full[k + m] == 34);
                }
            }
        }
        lemma_parse_string_at(s, i + k, t2);
        if c == 34 {
            assert(s[i + 0] == e0[0] && s[i + 1] == e0[1]);
            assert(s[i] == 92 && s[i + 1] == 34);
            assert(seq![c] + t2 =~= t);
        } else if c == 92 {
            assert(s[i + 0] == e0[0] && s[i + 1] == e0[1]);
            assert(s[i] == 92 && s[i + 1] == 92);
            assert(seq![c] + t2 =~= t);
        } else if c < 32 {
            assert(s[i + 0] == e0[0] && s[i + 1] == e0[1] && s[i + 2] == e0[2] && s[i + 3] == e0[3]
                && s[i + 4] == e0[4] && s[i + 5] == e0[5]);
            assert(s[i] == 92 && s[i + 1] == 117 && s[i + 2] == 48 && s[i + 3] == 48);
            let hi = hex_digit(c / 16);
            let lo = hex_digit(c % 16);
            assert(s[i + 4] == hi && s[i + 5] == lo);
            assert(is_hex(48) && hex_nibble(48) == 0);
            assert(is_hex(hi) && hex_nibble(hi) == c / 16);
            assert(is_hex(lo) && hex_nibble(lo) == c % 16);
            let v = hex_nibble(s[i + 2]) * 4096 + hex_nibble(s[i + 3]) * 256 + hex_nibble(s[i + 4])
                * 16 + hex_nibble(s[i + 5]);
            assert(v == (c / 16) * 16 + c % 16);
            assert(v == c);
            assert(seq![c] + t2 =~= t);
        } else {
            assert(s[i + 0] == e0[0]);
            assert(s[i] == c);
            assert(seq![s[i]] + t2 =~= t);
        }
    }
}

proof fn lemma_parse_key_at(s: Seq<u8>, i: int, k: Seq<u8>)
    requires
        0 <= i,
        raw_safe(k),
        i + k.len() + 4 <= s.len(),
        s.subrange(i, i + k.len() + 3) == key_enc(k),
        !is_ws(s[i + k.len() + 3]),
    ensures
        parse_key(s, i) == Option::Some((k, i + k.len() + 3)),
{
    let kl = k.len() as int;
    let ke = key_enc(k);
    assert forall|m: int| 0 <= m < kl + 3 implies s[i + m] == ke[m] by {
        assert(s.subrange(i, i + kl + 3)[m] == s[i + m]);
    }
    assert(s[i + 0] == ke[0]);
    assert(s[i] == 34);
    lemma_esc_raw(k);
    assert(s.subrange(i + 1, i + kl + 2) =~= esc_bytes(k) + seq![34u8]) by {
        assert forall|m: int|
            0 <= m < kl + 1 implies #[trigger] s.subrange(i + 1, i + kl + 2)[m] == (esc_bytes(k)
            + seq![34u8])[m] by {
            assert(s.subrange(i + 1, i + kl + 2)[m] == s[i + (1 + m)]);
            assert(s[i + (1 + m)] == ke[1 + m]);
            if m < kl {
                assert(ke[1 + m] == k[m]);
            } else {
                assert(ke[1 + m] == 34);
            }
        }
    }
    lemma_parse_string_at(s, i + 1, k);
    assert(s[i + (kl + 2)] == ke[kl + 2]);
    assert(s[i + kl + 2] == 58);
    assert(skip_ws(s, i + kl + 2) == i + kl + 2);
    assert(skip_ws(s, i + kl + 3) == i + kl + 3);
}

proof fn lemma_keys_raw()
    ensures
        raw_safe(key_txt_name()),
        raw_safe(key_txt_score()),
        raw_safe(key_txt_duration()),
        raw_safe(key_txt_mode()),
        raw_safe(key_txt_game_mode()),
        raw_safe(key_txt_time()),
{
    assert forall|j: int|
        0 <= j < key_txt_name().len() implies 32 <= #[trigger] key_txt_name()[j]
        && key_txt_name()[j] != 34 && key_txt_name()[j] != 92 by {
        if j == 0 {
        } else if j == 1 {
        } else if j == 2 {
        } else {
            assert(j == 3);
        }
    }
    assert forall|j: int|
        0 <= j < key_txt_score().len() implies 32 <= #[trigger] key_txt_score()[j]
        && key_txt_score()[j] != 34 && key_txt_score()[j] != 92 by {
        if j == 0 {
        } else if j == 1 {
        } else if j == 2 {
        } else if j == 3 {
        } else {
            assert(j == 4);
        }
    }
    assert forall|j: int|
        0 <= j < key_txt_duration().len() implies 32 <= #[trigger] key_txt_duration()[j]
        && key_txt_duration()[j] != 34 && key_txt_duration()[j] != 92 by {
        if j == 0 {
        } else if j == 1 {
        } else if j == 2 {
        } else if j == 3 {
        } else if j == 4 {
        } else if j == 5 {
        } else if j == 6 {
        } else {
            assert(j == 7);
        }
    }
    assert forall|j: int|
        0 <= j < key_txt_mode().len() implies 32 <= #[trigger] key_txt_mode()[j]
        && key_txt_mode()[j] != 34 && key_txt_mode()[j] != 92 by {
        if j == 0 {
        } else if j == 1 {
        } else if j == 2 {
        } else {
            assert(j == 3);
        }
    }
    assert forall|j: int|
        0 <= j < key_txt_game_mode().len() implies 32 <= #[trigger] key_txt_game_mode()[j]
        && key_txt_game_mode()[j] != 34 && key_txt_game_mode()[j] != 92 by {
        if j == 0 {
        } else if j == 1 {
        } else if j == 2 {
        } else if j == 3 {
        } else if j == 4 {
        } else if j == 5 {
        } else if j == 6 {
        } else {
            assert(j == 7);
        }
    }
    assert forall|j: int|
        0 <= j < key_txt_time().len() implies 32 <= #[trigger] key_txt_time()[j]
        && key_txt_time()[j] != 34 && key_txt_time()[j] != 92 by {
        if j == 0 {
        } else if j == 1 {
        } else if j == 2 {
        } else {
            assert(j == 3);
        }
    }
}

/// The tail of an encoded record from the `time` value on.
pub open spec fn enc_time_part(e: EntryV) -> Seq<u8> {
    quoted(e.time) + seq![125u8]
}

/// The tail of an encoded record from the `gameMode` value on.
pub open spec fn enc_gm_part(e: EntryV) -> Seq<u8> {
    quoted(e.game_mode) + seq![44u8] + key_enc(key_txt_time()) + enc_time_part(e)
}

/// The tail of an encoded record from the `mode` value on.
pub open spec fn enc_mode_part(e: EntryV) -> Seq<u8> {
    quoted(e.mode) + seq![44u8] + key_enc(key_txt_game_mode()) + enc_gm_part(e)
}

/// The tail of an encoded record from the `duration` value on.
pub open spec fn enc_dur_part(e: EntryV) -> Seq<u8> {
    dec_digits(e.duration as nat) + seq![44u8] + key_enc(key_txt_mode()) + enc_mode_part(e)
}

/// The tail of an encoded record from the `score` value on.
pub open spec fn enc_score_part(e: EntryV) -> Seq<u8> {
    dec_digits(e.score as nat) + seq![44u8] + key_enc(key_txt_duration()) + enc_dur_part(e)
}

proof fn lemma_enc_entry_split(e: EntryV)
    ensures
        encode_entry(e) == seq![123u8] + key_enc(key_txt_name()) + quoted(e.name) + seq![44u8]
            + key_enc(key_txt_score()) + enc_score_part(e),
{
    assert(encode_entry(e) =~= seq![123u8] + key_enc(key_txt_name()) + quoted(e.name) + seq![44u8]
        + key_enc(key_txt_score()) + enc_score_part(e));
}

#[verifier::rlimit(100)]
#[verifier::spinoff_prover]
proof fn lemma_time_at(s: Seq<u8>, i: int, e: EntryV)
    requires
        0 <= i,
        i + enc_time_part(e).len() <= s.len(),
        s.subrange(i, i + enc_time_part(e).len()) == enc_time_part(e),
    ensures
        parse_time_value(s, i, e.name, e.score, e.duration, e.mode, e.game_mode) == Option::Some(
            (e, i + enc_time_part(e).len()),
        ),
{
    let part = enc_time_part(e);
    let pl = part.len() as int;
    let et = esc_bytes(e.time).len() as int;
    assert forall|m: int| 0 <= m < pl implies s[i + m] == part[m] by {
        assert(s.subrange(i, i + pl)[m] == s[i + m]);
    }
    assert(s[i + 0] == part[0] && part[0] == 34);
    assert(s.subrange(i + 1, i + 1 + et + 1) =~= esc_bytes(e.time) + seq![34u8]) by {
        assert forall|m: int|
            0 <= m < et + 1 implies #[trigger] s.subrange(i + 1, i + 1 + et + 1)[m] == (esc_bytes(
            e.time,
        ) + seq![34u8])[m] by {
            assert(s.subrange(i + 1, i + 1 + et + 1)[m] == s[i + (1 + m)]);
            assert(s[i + (1 + m)] == part[1 + m]);
            assert(part[1 + m] == quoted(e.time)[1 + m]);
        }
    }
    lemma_parse_string_at(s, i + 1, e.time);
    assert(parse_quoted(s, i) == Option::Some((e.time, i + et + 2)));
    assert(s[i + (et + 2)] == part[et + 2] && part[et + 2] == 125);
    assert(skip_ws(s, i + et + 2) == i + et + 2);
    let built = EntryV {
        name: e.name,
        score: e.score,
        duration: e.duration,
        mode: e.mode,
        game_mode: e.game_mode,
        time: e.time,
    };
    assert(built == e);
}

#[verifier::rlimit(100)]
#[verifier::spinoff_prover]
proof fn lemma_gm_at(s: Seq<u8>, i: int, e: EntryV)
    requires
        0 <= i,
        i + enc_gm_part(e).len() <= s.len(),
        s.subrange(i, i + enc_gm_part(e).len()) == enc_gm_part(e),
    ensures
        parse_game_mode_value(s, i, e.name, e.score, e.duration, e.mode) == Option::Some(
            (e, i + enc_gm_part(e).len()),
        ),
{
    let part = enc_gm_part(e);
    let pl = part.len() as int;
    let eg = esc_bytes(e.game_mode).len() as int;
    lemma_keys_raw();
    assert forall|m: int| 0 <= m < pl implies s[i + m] == part[m] by {
        assert(s.subrange(i, i + pl)[m] == s[i + m]);
    }
    assert(s[i + 0] == part[0] && part[0] == 34);
    assert(s.subrange(i + 1, i + 1 + eg + 1) =~= esc_bytes(e.game_mode) + seq![34u8]) by {
        assert forall|m: int|
            0 <= m < eg + 1 implies #[trigger] s.subrange(i + 1, i + 1 + eg + 1)[m] == (esc_bytes(
            e.game_mode,
        ) + seq![34u8])[m] by {
            assert(s.subrange(i + 1, i + 1 + eg + 1)[m] == s[i + (1 + m)]);
            assert(s[i + (1 + m)] == part[1 + m]);
            assert(part[1 + m] == quoted(e.game_mode)[1 + m]);
        }
    }
    lemma_parse_string_at(s, i + 1, e.game_mode);
    let j = i + eg + 2;
    assert(parse_quoted(s, i) == Option::Some((e.game_mode, j)));
    assert(s[i + (eg + 2)] == part[eg + 2] && part[eg + 2] == 44);
    assert(s[i + (eg + 3)] == part[eg + 3] && part[eg + 3] == 34);
    assert(skip_ws(s, j) == j);
    assert(skip_ws(s, j + 1) == j + 1);
    assert(expect_comma(s, j) == Option::Some(j + 1));
    let o = eg + 3;
    assert(s.subrange(i + o, i + o + 7) =~= key_enc(key_txt_time())) by {
        assert forall|m: int|
            0 <= m < 7 implies #[trigger] s.subrange(i + o, i + o + 7)[m] == key_enc(
            key_txt_time(),
        )[m] by {
            assert(s.subrange(i + o, i + o + 7)[m] == s[i + (o + m)]);
            assert(s[i + (o + m)] == part[o + m]);
            assert(part[o + m] == key_enc(key_txt_time())[m]);
        }
    }
    assert(s[i + (o + 7)] == part[o + 7] && part[o + 7] == 34);
    assert(!is_ws(s[i + o + 7]));
    lemma_parse_key_at(s, i + o, key_txt_time());
    assert(s.subrange(i + o + 7, i + o + 7 + enc_time_part(e).len()) =~= enc_time_part(e)) by {
        assert forall|m: int|
            0 <= m < enc_time_part(e).len() implies #[trigger] s.subrange(
                i + o + 7,
                i + o + 7 + enc_time_part(e).len(),
            )[m] == enc_time_part(e)[m] by {
            assert(s.subrange(i + o + 7, i + o + 7 + enc_time_part(e).len())[m] == s[i + (o + 7
                + m)]);
            assert(s[i + (o + 7 + m)] == part[o + 7 + m]);
            assert(part[o + 7 + m] == enc_time_part(e)[m]);
        }
    }
    lemma_time_at(s, i + o + 7, e);
}

#[verifier::rlimit(100)]
#[verifier::spinoff_prover]
proof fn lemma_mode_at(s: Seq<u8>, i: int, e: EntryV)
    requires
        0 <= i,
        i + enc_mode_part(e).len() <= s.len(),
        s.subrange(i, i + enc_mode_part(e).len()) == enc_mode_part(e),
    ensures
        parse_mode_value(s, i, e.name, e.score, e.duration) == Option::Some(
            (e, i + enc_mode_part(e).len()),
        ),
{
    let part = enc_mode_part(e);
    let pl = part.len() as int;
    let em = esc_bytes(e.mode).len() as int;
    lemma_keys_raw();
    assert forall|m: int| 0 <= m < pl implies s[i + m] == part[m] by {
        assert(s.subrange(i, i + pl)[m] == s[i + m]);
    }
    assert(s[i + 0] == part[0] && part[0] == 34);
    assert(s.subrange(i + 1, i + 1 + em + 1) =~= esc_bytes(e.mode) + seq![34u8]) by {
        assert forall|m: int|
            0 <= m < em + 1 implies #[trigger] s.subrange(i + 1, i + 1 + em + 1)[m] == (esc_bytes(
            e.mode,
        ) + seq![34u8])[m] by {
            assert(s.subrange(i + 1, i + 1 + em + 1)[m] == s[i + (1 + m)]);
            assert(s[i + (1 + m)] == part[1 + m]);
            assert(part[1 + m] == quoted(e.mode)[1 + m]);
        }
    }
    lemma_parse_string_at(s, i + 1, e.mode);
    let j = i + em + 2;
    assert(parse_quoted(s, i) == Option::Some((e.mode, j)));
    assert(s[i + (em + 2)] == part[em + 2] && part[em + 2] == 44);
    assert(s[i + (em + 3)] == part[em + 3] && part[em + 3] == 34);
    assert(skip_ws(s, j) == j);
    assert(skip_ws(s, j + 1) == j + 1);
    assert(expect_comma(s, j) == Option::Some(j + 1));
    let o = em + 3;
    assert(s.subrange(i + o, i + o + 11) =~= key_enc(key_txt_game_mode())) by {
        assert forall|m: int|
            0 <= m < 11 implies #[trigger] s.subrange(i + o, i + o + 11)[m] == key_enc(
            key_txt_game_mode(),
        )[m] by {
            assert(s.subrange(i + o, i + o + 11)[m] == s[i + (o + m)]);
            assert(s[i + (o + m)] == part[o + m]);
            assert(part[o + m] == key_enc(key_txt_game_mode())[m]);
        }
    }
    assert(s[i + (o + 11)] == part[o + 11] && part[o + 11] == 34);
    assert(!is_ws(s[i + o + 11]));
    lemma_parse_key_at(s, i + o, key_txt_game_mode());
    assert(s.subrange(i + o + 11, i + o + 11 + enc_gm_part(e).len()) =~= enc_gm_part(e)) by {
        assert forall|m: int|
            0 <= m < enc_gm_part(e).len() implies #[trigger] s.subrange(
                i + o + 11,
                i + o + 11 + enc_gm_part(e).len(),
            )[m] == enc_gm_part(e)[m] by {
            assert(s.subrange(i + o + 11, i + o + 11 + enc_gm_part(e).len())[m] == s[i + (o + 11
                + m)]);
            assert(s[i + (o + 11 + m)] == part[o + 11 + m]);
            assert(part[o + 11 + m] == enc_gm_part(e)[m]);
        }
    }
    lemma_gm_at(s, i + o + 11, e);
}

#[verifier::rlimit(100)]
#[verifier::spinoff_prover]
proof fn lemma_dur_at(s: Seq<u8>, i: int, e: EntryV)
    requires
        0 <= i,
        i + enc_dur_part(e).len() <= s.len(),
        s.subrange(i, i + enc_dur_part(e).len()) == enc_dur_part(e),
    ensures
        parse_after_duration(s, i, e.name, e.score) == Option::Some(
            (e, i + enc_dur_part(e).len()),
        ),
{
    let part = enc_dur_part(e);
    let pl = part.len() as int;
    let ld = dec_digits(e.duration as nat).len() as int;
    lemma_keys_raw();
    lemma_dec_digits_shape(e.duration as nat);
    assert forall|m: int| 0 <= m < pl implies s[i + m] == part[m] by {
        assert(s.subrange(i, i + pl)[m] == s[i + m]);
    }
    assert(s.subrange(i, i + ld) =~= dec_digits(e.duration as nat)) by {
        assert forall|m: int|
            0 <= m < ld implies #[trigger] s.subrange(i, i + ld)[m] == dec_digits(
            e.duration as nat,
        )[m] by {
            assert(s.subrange(i, i + ld)[m] == s[i + m]);
            assert(s[i + m] == part[m]);
            assert(part[m] == dec_digits(e.duration as nat)[m]);
        }
    }
    assert(s[i + ld] == part[ld] && part[ld] == 44);
    lemma_parse_number_at(s, i, e.duration as nat);
    let j = i + ld;
    assert(s[i + (ld + 1)] == part[ld + 1] && part[ld + 1] == 34);
    assert(skip_ws(s, j) == j);
    assert(skip_ws(s, j + 1) == j + 1);
    assert(expect_comma(s, j) == Option::Some(j + 1));
    let o = ld + 1;
    assert(s.subrange(i + o, i + o + 7) =~= key_enc(key_txt_mode())) by {
        assert forall|m: int|
            0 <= m < 7 implies #[trigger] s.subrange(i + o, i + o + 7)[m] == key_enc(
            key_txt_mode(),
        )[m] by {
            assert(s.subrange(i + o, i + o + 7)[m] == s[i + (o + m)]);
            assert(s[i + (o + m)] == part[o + m]);
            assert(part[o + m] == key_enc(key_txt_mode())[m]);
        }
    }
    assert(s[i + (o + 7)] == part[o + 7] && part[o + 7] == 34);
    assert(!is_ws(s[i + o + 7]));
    lemma_parse_key_at(s, i + o, key_txt_mode());
    assert(s.subrange(i + o + 7, i + o + 7 + enc_mode_part(e).len()) =~= enc_mode_part(e)) by {
        assert forall|m: int|
            0 <= m < enc_mode_part(e).len() implies #[trigger] s.subrange(
                i + o + 7,
                i + o + 7 + enc_mode_part(e).len(),
            )[m] == enc_mode_part(e)[m] by {
            assert(s.subrange(i + o + 7, i + o + 7 + enc_mode_part(e).len())[m] == s[i + (o + 7
                + m)]);
            assert(s[i + (o + 7 + m)] == part[o + 7 + m]);
            assert(part[o + 7 + m] == enc_mode_part(e)[m]);
        }
    }
    lemma_mode_at(s, i + o + 7, e);
    assert(key_txt_mode() != key_txt_game_mode()) by {
        assert(key_txt_mode().len() == 4 && key_txt_game_mode().len() == 8);
    }
}

#[verifier::rlimit(100)]
#[verifier::spinoff_prover]
proof fn lemma_score_at(s: Seq<u8>, i: int, e: EntryV)
    requires
        0 <= i,
        i + enc_score_part(e).len() <= s.len(),
        s.subrange(i, i + enc_score_part(e).len()) == enc_score_part(e),
    ensures
        parse_after_score(s, i, e.name) == Option::Some((e, i + enc_score_part(e).len())),
{
    let part = enc_score_part(e);
    let pl = part.len() as int;
    let ls = dec_digits(e.score as nat).len() as int;
    lemma_keys_raw();
    lemma_dec_digits_shape(e.score as nat);
    assert forall|m: int| 0 <= m < pl implies s[i + m] == part[m] by {
        assert(s.subrange(i, i + pl)[m] == s[i + m]);
    }
    assert(s.subrange(i, i + ls) =~= dec_digits(e.score as nat)) by {
        assert forall|m: int|
            0 <= m < ls implies #[trigger] s.subrange(i, i + ls)[m] == dec_digits(
            e.score as nat,
        )[m] by {
            assert(s.subrange(i, i + ls)[m] == s[i + m]);
            assert(s[i + m] == part[m]);
            assert(part[m] == dec_digits(e.score as nat)[m]);
        }
    }
    assert(s[i + ls] == part[ls] && part[ls] == 44);
    lemma_parse_number_at(s, i, e.score as nat);
    let j = i + ls;
    assert(s[i + (ls + 1)] == part[ls + 1] && part[ls + 1] == 34);
    assert(skip_ws(s, j) == j);
    assert(skip_ws(s, j + 1) == j + 1);
    assert(expect_comma(s, j) == Option::Some(j + 1));
    let o = ls + 1;
    assert(s.subrange(i + o, i + o + 11) =~= key_enc(key_txt_duration())) by {
        assert forall|m: int|
            0 <= m < 11 implies #[trigger] s.subrange(i + o, i + o + 11)[m] == key_enc(
            key_txt_duration(),
        )[m] by {
            assert(s.subrange(i + o, i + o + 11)[m] == s[i + (o + m)]);
            assert(s[i + (o + m)] == part[o + m]);
            assert(part[o + m] == key_enc(key_txt_duration())[m]);
        }
    }
    assert(s[i + (o + 11)] == part[o + 11] && part[o + 11] == dec_digits(e.duration as nat)[0]) by {
        lemma_dec_digits_shape(e.duration as nat);
    }
    assert(!is_ws(s[i + o + 11])) by {
        lemma_dec_digits_shape(e.duration as nat);
        assert(is_digit(dec_digits(e.duration as nat)[0]));
    }
    lemma_parse_key_at(s, i + o, key_txt_duration());
    assert(s.subrange(i + o + 11, i + o + 11 + enc_dur_part(e).len()) =~= enc_dur_part(e)) by {
        assert forall|m: int|
            0 <= m < enc_dur_part(e).len() implies #[trigger] s.subrange(
                i + o + 11,
                i + o + 11 + enc_dur_part(e).len(),
            )[m] == enc_dur_part(e)[m] by {
            assert(s.subrange(i + o + 11, i + o + 11 + enc_dur_part(e).len())[m] == s[i + (o + 11
                + m)]);
            assert(s[i + (o + 11 + m)] == part[o + 11 + m]);
            assert(part[o + 11 + m] == enc_dur_part(e)[m]);
        }
    }
    lemma_dur_at(s, i + o + 11, e);
}

#[verifier::rlimit(100)]
#[verifier::spinoff_prover]
proof fn lemma_parse_entry_at(s: Seq<u8>, i: int, e: EntryV)
    requires
        0 <= i,
        i + encode_entry(e).len() < s.len(),
        s.subrange(i, i + encode_entry(e).len()) == encode_entry(e),
    ensures
        parse_entry(s, i) == Option::Some((e, i + encode_entry(e).len())),
{
    let ee = encode_entry(e);
    let el = ee.len() as int;
    lemma_keys_raw();
    lemma_enc_entry_split(e);
    let en = esc_bytes(e.name).len() as int;
    assert forall|m: int| 0 <= m < el implies s[i + m] == ee[m] by {
        assert(s.subrange(i, i + el)[m] == s[i + m]);
    }
    assert(s[i + 0] == ee[0] && ee[0] == 123);
    assert(skip_ws(s, i) == i);
    assert(s[i + 1] == ee[1] && ee[1] == 34);
    assert(skip_ws(s, i + 1) == i + 1);
    assert(s.subrange(i + 1, i + 1 + 7) =~= key_enc(key_txt_name())) by {
        assert forall|m: int|
            0 <= m < 7 implies #[trigger] s.subrange(i + 1, i + 8)[m] == key_enc(
            key_txt_name(),
        )[m] by {
            assert(s.subrange(i + 1, i + 8)[m] == s[i + (1 + m)]);
            assert(s[i + (1 + m)] == ee[1 + m]);
            assert(ee[1 + m] == key_enc(key_txt_name())[m]);
        }
    }
    assert(s[i + 8] == ee[8] && ee[8] == 34);
    assert(!is_ws(s[i + 8]));
    lemma_parse_key_at(s, i + 1, key_txt_name());
    assert(s.subrange(i + 9, i + 9 + en + 1) =~= esc_bytes(e.name) + seq![34u8]) by {
        assert forall|m: int|
            0 <= m < en + 1 implies #[trigger] s.subrange(i + 9, i + 9 + en + 1)[m] == (esc_bytes(
            e.name,
        ) + seq![34u8])[m] by {
            assert(s.subrange(i + 9, i + 9 + en + 1)[m] == s[i + (9 + m)]);
            assert(s[i + (9 + m)] == ee[9 + m]);
            assert(ee[9 + m] == quoted(e.name)[1 + m]);
        }
    }
    lemma_parse_string_at(s, i + 9, e.name);
    let o3 = en + 10;
    assert(parse_quoted(s, i + 8) == Option::Some((e.name, i + o3)));
    assert(s[i + o3] == ee[o3] && ee[o3] == 44);
    assert(s[i + (o3 + 1)] == ee[o3 + 1] && ee[o3 + 1] == 34);
    assert(skip_ws(s, i + o3) == i + o3);
    assert(skip_ws(s, i + o3 + 1) == i + o3 + 1);
    assert(expect_comma(s, i + o3) == Option::Some(i + o3 + 1));
    let o4 = en + 11;
    assert(s.subrange(i + o4, i + o4 + 8) =~= key_enc(key_txt_score())) by {
        assert forall|m: int|
            0 <= m < 8 implies #[trigger] s.subrange(i + o4, i + o4 + 8)[m] == key_enc(
            key_txt_score(),
        )[m] by {
            assert(s.subrange(i + o4, i + o4 + 8)[m] == s[i + (o4 + m)]);
            assert(s[i + (o4 + m)] == ee[o4 + m]);
            assert(ee[o4 + m] == key_enc(key_txt_score())[m]);
        }
    }
    let o5 = en + 19;
    assert(s[i + o5] == ee[o5] && ee[o5] == dec_digits(e.score as nat)[0]) by {
        lemma_dec_digits_shape(e.score as nat);
    }
    assert(!is_ws(s[i + o5])) by {
        lemma_dec_digits_shape(e.score as nat);
        assert(is_digit(dec_digits(e.score as nat)[0]));
    }
    lemma_parse_key_at(s, i + o4, key_txt_score());
    assert(s.subrange(i + o5, i + o5 + enc_score_part(e).len()) =~= enc_score_part(e)) by {
        assert forall|m: int|
            0 <= m < enc_score_part(e).len() implies #[trigger] s.subrange(
                i + o5,
                i + o5 + enc_score_part(e).len(),
            )[m] == enc_score_part(e)[m] by {
            assert(s.subrange(i + o5, i + o5 + enc_score_part(e).len())[m] == s[i + (o5 + m)]);
            assert(s[i + (o5 + m)] == ee[o5 + m]);
            assert(ee[o5 + m] == enc_score_part(e)[m]);
        }
    }
    lemma_score_at(s, i + o5, e);
}

proof fn lemma_encode_rest_shift(s: Seq<EntryV>, i: int)
    requires
        1 <= i,
        1 <= s.len(),
    ensures
        encode_rest_from(s, i) == encode_rest_from(s.drop_first(), i - 1),
    decreases s.len() - i,
{
    if i < s.len() {
        lemma_encode_rest_shift(s, i + 1);
        assert(s.drop_first()[i - 1] == s[i]);
    } else {
        assert(encode_rest_from(s, i) == Seq::<u8>::empty());
        assert(i - 1 >= s.drop_first().len());
        assert(encode_rest_from(s.drop_first(), i - 1) == Seq::<u8>::empty());
    }
}

#[verifier::rlimit(100)]
proof fn lemma_parse_entries_suffix(s: Seq<u8>, i: int, suffix: Seq<EntryV>, acc: Seq<EntryV>)
    requires
        0 <= i <= s.len(),
        suffix.len() >= 1,
        s.subrange(i, s.len() as int) == encode_entry(suffix[0]) + encode_rest_from(suffix, 1)
            + seq![93u8],
    ensures
        parse_entries_rest(s, i, acc) == Option::Some(acc + suffix),
    decreases suffix.len(),
{
    let e0 = suffix[0];
    let ee = encode_entry(e0);
    let el = ee.len() as int;
    let tail = s.subrange(i, s.len() as int);
    assert(tail.len() == s.len() - i);
    assert forall|m: int| 0 <= m < s.len() - i implies s[i + m] == tail[m] by {
        assert(s.subrange(i, s.len() as int)[m] == s[i + m]);
    }
    assert(s.subrange(i, i + el) =~= ee) by {
        assert forall|m: int|
            0 <= m < el implies #[trigger] s.subrange(i, i + el)[m] == ee[m] by {
            assert(s.subrange(i, i + el)[m] == s[i + m]);
            assert(s[i + m] == tail[m]);
            assert(tail[m] == ee[m]);
        }
    }
    lemma_parse_entry_at(s, i, e0);
    let j = i + el;
    if suffix.len() == 1 {
        assert(encode_rest_from(suffix, 1) == Seq::<u8>::empty());
        assert(s[i + el] == tail[el] && tail[el] == 93);
        assert(j + 1 == s.len());
        assert(skip_ws(s, j) == j);
        assert(skip_ws(s, j + 1) == j + 1);
        assert(acc.push(e0) =~= acc + suffix);
    } else {
        let suffix2 = suffix.drop_first();
        assert(encode_rest_from(suffix, 1) == seq![44u8] + encode_entry(suffix[1])
            + encode_rest_from(suffix, 2));
        assert(s[i + el] == tail[el] && tail[el] == 44);
        assert(skip_ws(s, j) == j);
        assert(s.subrange(j + 1, s.len() as int) =~= encode_entry(suffix2[0]) + encode_rest_from(
            suffix2,
            1,
        ) + seq![93u8]) by {
            lemma_encode_rest_shift(suffix, 2);
            assert(suffix2[0] == suffix[1]);
            assert(encode_rest_from(suffix2, 1) == encode_rest_from(suffix, 2));
            assert forall|m: int|
                0 <= m < s.len() - (j + 1) implies #[trigger] s.subrange(j + 1, s.len() as int)[m]
                == (encode_entry(suffix2[0]) + encode_rest_from(suffix2, 1) + seq![93u8])[m] by {
                assert(s.subrange(j + 1, s.len() as int)[m] == s[i + (el + 1 + m)]);
                assert(s[i + (el + 1 + m)] == tail[el + 1 + m]);
                assert(tail[el + 1 + m] == (encode_rest_from(suffix, 1) + seq![93u8])[1 + m]);
                assert((encode_rest_from(suffix, 1) + seq![93u8])[1 + m] == (encode_entry(
                    suffix2[0],
                ) + encode_rest_from(suffix2, 1) + seq![93u8])[m]);
            }
        }
        lemma_parse_entries_suffix(s, j + 1, suffix2, acc.push(e0));
        assert(acc.push(e0) + suffix2 =~= acc + suffix);
    }
}

/// What the encoder writes, the reader reads back unchanged: decoding an
/// encoded leaderboard yields exactly the records that were written.
pub proof fn lemma_encode_decode_round_trip(es: Seq<EntryV>)
    ensures
        decode_spec(encode_list(es)) == Option::Some(es),
{
    let s = encode_list(es);
    if es.len() == 0 {
        assert(s =~= seq![91u8, 93u8]);
        assert(s[0] == 91 && s[1] == 93);
        assert(skip_ws(s, 0) == 0);
        assert(skip_ws(s, 1) == 1);
        assert(skip_ws(s, 2) == 2);
        assert(decode_spec(s) == Option::Some(Seq::<EntryV>::empty()));
        assert(Seq::<EntryV>::empty() =~= es);
    } else {
        let body = encode_entry(es[0]) + encode_rest_from(es, 1);
        assert(s == seq![91u8] + body + seq![93u8]);
        assert(s[0] == 91);
        assert(skip_ws(s, 0) == 0);
        assert(s[1] == body[0]);
        assert(encode_entry(es[0])[0] == 123);
        assert(s[1] == 123);
        assert(skip_ws(s, 1) == 1);
        assert(!at_byte(s, skip_ws(s, 1), 93));
        assert(s.subrange(1, s.len() as int) =~= encode_entry(es[0]) + encode_rest_from(es, 1)
            + seq![93u8]) by {
            assert forall|m: int|
                0 <= m < s.len() - 1 implies #[trigger] s.subrange(1, s.len() as int)[m] == (body
                + seq![93u8])[m] by {
                assert(s.subrange(1, s.len() as int)[m] == s[1 + m]);
            }
        }
        lemma_parse_entries_suffix(s, 1, es, Seq::<EntryV>::empty());
        assert(Seq::<EntryV>::empty() + es =~= es);
    }
}

// ---------------------------------------------------------------------
// Executable encoder
// ---------------------------------------------------------------------

fn push_escaped(out: &mut Vec<u8>, b: &Vec<u8>, i: usize)
    requires
        i <= b@.len(),
    ensures
        final(out)@ == old(out)@ + esc_bytes(b@.skip(i as int)),
    decreases b@.len() - i,
{
    if i < b.len() {
        let ghost base = out@;
        let c = b[i];
        if c == 34 {
            out.push(92);
            out.push(34);
        } else if c == 92 {
            out.push(92);
            out.push(92);
        } else if c < 32 {
            out.push(92);
            out.push(117);
            out.push(48);
            out.push(48);
            let hi = c / 16;
            let lo = c % 16;
            out.push(if hi < 10 { 48 + hi } else { 87 + hi });
            out.push(if lo < 10 { 48 + lo } else { 87 + lo });
        } else {
            out.push(c);
        }
        proof {
            assert(out@ =~= base + esc_byte(b@[i as int]));
        }
        push_escaped(out, b, i + 1);
        proof {
            assert(b@.skip(i as int).drop_first() =~= b@.skip(i + 1));
            assert(final(out)@ =~= base + esc_bytes(b@.skip(i as int)));
        }
    } else {
        proof {
            assert(b@.skip(i as int).len() == 0);
            assert(final(out)@ =~= old(out)@ + esc_bytes(b@.skip(i as int)));
        }
    }
}

fn push_quoted(out: &mut Vec<u8>, b: &Vec<u8>)
    ensures
        final(out)@ == old(out)@ + quoted(b@),
{
    let ghost base = out@;
    out.push(34);
    push_escaped(out, b, 0);
    out.push(34);
    proof {
        assert(b@.skip(0) =~= b@);
        assert(final(out)@ =~= base + quoted(b@));
    }
}

fn push_key(out: &mut Vec<u8>, k: &Vec<u8>)
    ensures
        final(out)@ == old(out)@ + key_enc(k@),
{
    let ghost base = out@;
    out.push(34);
    let mut i: usize = 0;
    while i < k.len()
        invariant
            0 <= i <= k@.len(),
            out@ == base + seq![34u8] + k@.take(i as int),
        decreases k@.len() - i,
    {
        out.push(k[i]);
        proof {
            assert((base + seq![34u8] + k@.take(i as int)).push(k@[i as int]) =~= base
                + seq![34u8] + k@.take(i + 1));
        }
        i += 1;
    }
    out.push(34);
    out.push(58);
    proof {
        assert(k@.take(k@.len() as int) =~= k@);
        assert(final(out)@ =~= base + key_enc(k@));
    }
}

fn key_name_bytes() -> (r: Vec<u8>)
    ensures
        r@ == key_txt_name(),
{
    let mut r: Vec<u8> = Vec::new();
    r.push(110);
    r.push(97);
    r.push(109);
    r.push(101);
    proof {
        assert(r@ =~= key_txt_name());
    }
    r
}

fn key_score_bytes() -> (r: Vec<u8>)
    ensures
        r@ == key_txt_score(),
{
    let mut r: Vec<u8> = Vec::new();
    r.push(115);
    r.push(99);
    r.push(111);
    r.push(114);
    r.push(101);
    proof {
        assert(r@ =~= key_txt_score());
    }
    r
}

fn key_duration_bytes() -> (r: Vec<u8>)
    ensures
        r@ == key_txt_duration(),
{
    let mut r: Vec<u8> = Vec::new();
    r.push(100);
    r.push(117);
    r.push(114);
    r.push(97);
    r.push(116);
    r.push(105);
    r.push(111);
    r.push(110);
    proof {
        assert(r@ =~= key_txt_duration());
    }
    r
}

fn key_mode_bytes() -> (r: Vec<u8>)
    ensures
        r@ == key_txt_mode(),
{
    let mut r: Vec<u8> = Vec::new();
    r.push(109);
    r.push(111);
    r.push(100);
    r.push(101);
    proof {
        assert(r@ =~= key_txt_mode());
    }
    r
}

fn key_game_mode_bytes() -> (r: Vec<u8>)
    ensures
        r@ == key_txt_game_mode(),
{
    let mut r: Vec<u8> = Vec::new();
    r.push(103);
    r.push(97);
    r.push(109);
    r.push(101);
    r.push(77);
    r.push(111);
    r.push(100);
    r.push(101);
    proof {
        assert(r@ =~= key_txt_game_mode());
    }
    r
}

fn key_time_bytes() -> (r: Vec<u8>)
    ensures
        r@ == key_txt_time(),
{
    let mut r: Vec<u8> = Vec::new();
    r.push(116);
    r.push(105);
    r.push(109);
    r.push(101);
    proof {
        assert(r@ =~= key_txt_time());
    }
    r
}

fn push_entry(out: &mut Vec<u8>, e: &HighscoreEntry)
    ensures
        final(out)@ == old(out)@ + encode_entry(e@),
{
    let ghost base = out@;
    out.push(123);
    proof {
        assert(out@ =~= base + seq![123u8]);
    }
    let kn = key_name_bytes();
    push_key(out, &kn);
    push_quoted(out, &e.name);
    out.push(44);
    proof {
        assert(out@ =~= base + seq![123u8] + key_enc(key_txt_name()) + quoted(e.name@) + seq![
            44u8,
        ]);
    }
    let ks = key_score_bytes();
    push_key(out, &ks);
    crate::utils::push_dec_u64(out, e.score);
    out.push(44);
    proof {
        assert(out@ =~= base + seq![123u8] + key_enc(key_txt_name()) + quoted(e.name@) + seq![44u8]
            + key_enc(key_txt_score()) + dec_digits(e.score as nat) + seq![44u8]);
    }
    let kd = key_duration_bytes();
    push_key(out, &kd);
    crate::utils::push_dec_u64(out, e.duration as u64);
    out.push(44);
    proof {
        assert(out@ =~= base + seq![123u8] + key_enc(key_txt_name()) + quoted(e.name@) + seq![44u8]
            + key_enc(key_txt_score()) + dec_digits(e.score as nat) + seq![44u8] + key_enc(
            key_txt_duration(),
        ) + dec_digits(e.duration as nat) + seq![44u8]);
    }
    let km = key_mode_bytes();
    push_key(out, &km);
    push_quoted(out, &e.mode);
    out.push(44);
    let kg = key_game_mode_bytes();
    push_key(out, &kg);
    push_quoted(out, &e.game_mode);
    out.push(44);
    let kt = key_time_bytes();
    push_key(out, &kt);
    push_quoted(out, &e.time);
    out.push(125);
    proof {
        assert(final(out)@ =~= base + encode_entry(e@));
    }
}

fn push_items_rest(out: &mut Vec<u8>, v: &Vec<HighscoreEntry>, i: usize)
    ensures
        final(out)@ == old(out)@ + encode_rest_from(views(v@), i as int),
    decreases v@.len() - i,
{
    if i < v.len() {
        let ghost base = out@;
        out.push(44);
        push_entry(out, &v[i]);
        push_items_rest(out, v, i + 1);
        proof {
            assert(views(v@)[i as int] == v@[i as int]@);
            assert(final(out)@ =~= base + encode_rest_from(views(v@), i as int));
        }
    } else {
        proof {
            assert(final(out)@ =~= old(out)@ + encode_rest_from(views(v@), i as int));
        }
    }
}

/// Renders a leaderboard as the persisted blob.
pub fn encode_highscores(entries: &Vec<HighscoreEntry>) -> (r: Vec<u8>)
    ensures
        r@ == encode_list(views(entries@)),
{
    let mut out: Vec<u8> = Vec::new();
    out.push(91);
    if entries.len() > 0 {
        push_entry(&mut out, &entries[0]);
        proof {
            assert(views(entries@)[0] == entries@[0]@);
        }
        push_items_rest(&mut out, entries, 1);
    }
    out.push(93);
    proof {
        assert(out@ =~= encode_list(views(entries@)));
    }
    out
}

/// The whole blob: an array of records, whitespace tolerated between
/// tokens, nothing after the closing bracket.
pub open spec fn decode_spec(s: Seq<u8>) -> Option<Seq<EntryV>> {
    let i = skip_ws(s, 0);
    if at_byte(s, i, 91) {
        let j = skip_ws(s, i + 1);
        if at_byte(s, j, 93) {
            if skip_ws(s, j + 1) == s.len() {
                Option::Some(Seq::empty())
            } else {
                Option::None
            }
        } else {
            parse_entries_rest(s, i + 1, Seq::empty())
        }
    } else {
        Option::None
    }
}

// ---------------------------------------------------------------------
// Executable decoder
// ---------------------------------------------------------------------

fn skip_ws_exec(s: &Vec<u8>, i: usize) -> (r: usize)
    requires
        i <= s@.len(),
    ensures
        r == skip_ws(s@, i as int),
        i <= r <= s@.len(),
    decreases s@.len() - i,
{
    if i < s.len() {
        let b = s[i];
        if b == 32 || b == 9 || b == 10 || b == 13 {
            return skip_ws_exec(s, i + 1);
        }
    }
    i
}

fn parse_string_body_exec(s: &Vec<u8>, i: usize) -> (r: Option<(Vec<u8>, usize)>)
    requires
        i <= s@.len(),
    ensures
        match r {
            Option::Some((t, j)) => parse_string_body(s@, i as int) == Option::Some(
                (t@, j as int),
            ) && j <= s@.len(),
            Option::None => parse_string_body(s@, i as int) is None,
        },
    decreases s@.len() - i,
{
    if i >= s.len() {
        return None;
    }
    let b = s[i];
    if b == 34 {
        return Some((Vec::new(), i + 1));
    }
    if b != 92 {
        match parse_string_body_exec(s, i + 1) {
            Some((t, j)) => {
                let mut t = t;
                t.insert(0, b);
                proof {
                    assert(t@ =~= seq![s@[i as int]] + t@.drop_first());
                }
                return Some((t, j));
            },
            None => {
                return None;
            },
        }
    }
    if i + 1 >= s.len() {
        return None;
    }
    let c = s[i + 1];
    if c == 34 || c == 92 || c == 47 {
        match parse_string_body_exec(s, i + 2) {
            Some((t, j)) => {
                let mut t = t;
                t.insert(0, c);
                proof {
                    assert(t@ =~= seq![c] + t@.drop_first());
                }
                return Some((t, j));
            },
            None => {
                return None;
            },
        }
    }
    if c == 98 || c == 102 || c == 110 || c == 114 || c == 116 {
        let u: u8 = if c == 98 {
            8
        } else if c == 102 {
            12
        } else if c == 110 {
            10
        } else if c == 114 {
            13
        } else {
            9
        };
        match parse_string_body_exec(s, i + 2) {
            Some((t, j)) => {
                let mut t = t;
                t.insert(0, u);
                proof {
                    assert(t@ =~= seq![u] + t@.drop_first());
                }
                return Some((t, j));
            },
            None => {
                return None;
            },
        }
    }
    if c != 117 {
        return None;
    }
    if s.len() < 6 || i > s.len() - 6 {
        return None;
    }
    let h1 = s[i + 2];
    let h2 = s[i + 3];
    let h3 = s[i + 4];
    let h4 = s[i + 5];
    if !(hex_ok(h1) && hex_ok(h2) && hex_ok(h3) && hex_ok(h4)) {
        return None;
    }
    let v: u32 = (nibble(h1) as u32) * 4096 + (nibble(h2) as u32) * 256 + (nibble(h3) as u32) * 16
        + (nibble(h4) as u32);
    if v >= 128 {
        return None;
    }
    match parse_string_body_exec(s, i + 6) {
        Some((t, j)) => {
            let mut t = t;
            t.insert(0, v as u8);
            proof {
                assert(t@ =~= seq![(v as u8)] + t@.drop_first());
            }
            Some((t, j))
        },
        None => None,
    }
}

fn hex_ok(b: u8) -> (r: bool)
    ensures
        r == is_hex(b),
{
    (48 <= b && b <= 57) || (97 <= b && b <= 102) || (65 <= b && b <= 70)
}

fn nibble(b: u8) -> (r: u8)
    requires
        is_hex(b),
    ensures
        r == hex_nibble(b),
{
    if 48 <= b && b <= 57 {
        b - 48
    } else if 97 <= b && b <= 102 {
        b - 87
    } else {
        b - 55
    }
}

proof fn lemma_parse_digits_ge(s: Seq<u8>, i: int, acc: nat)
    ensures
        parse_digits(s, i, acc).0 >= acc,
    decreases s.len() - i,
{
    if 0 <= i < s.len() && is_digit(s[i]) {
        lemma_parse_digits_ge(s, i + 1, (acc * 10 + (s[i] - 48)) as nat);
    }
}

fn parse_digits_exec(s: &Vec<u8>, i: usize, acc: u64) -> (r: Option<(u64, usize)>)
    requires
        i <= s@.len(),
    ensures
        match r {
            Option::Some((n, j)) => parse_digits(s@, i as int, acc as nat) == (
                n as nat,
                j as int,
            ) && j <= s@.len(),
            Option::None => parse_digits(s@, i as int, acc as nat).0 > u64::MAX,
        },
    decreases s@.len() - i,
{
    if i < s.len() {
        let b = s[i];
        if 48 <= b && b <= 57 {
            let d = (b - 48) as u64;
            if acc > (u64::MAX - d) / 10 {
                proof {
                    lemma_parse_digits_ge(s@, i + 1, (acc * 10 + (s@[i as int] - 48)) as nat);
                }
                return None;
            }
            return parse_digits_exec(s, i + 1, acc * 10 + d);
        }
    }
    Some((acc, i))
}

fn parse_number_exec(s: &Vec<u8>, i: usize) -> (r: Option<(u64, usize)>)
    requires
        i <= s@.len(),
    ensures
        match r {
            Option::Some((n, j)) => parse_number(s@, i as int) == Option::Some((n as nat, j as int))
                && j <= s@.len(),
            Option::None => match parse_number(s@, i as int) {
                Option::Some((n, j)) => n > u64::MAX,
                Option::None => true,
            },
        },
{
    if i < s.len() {
        let b = s[i];
        if 48 <= b && b <= 57 {
            return parse_digits_exec(s, i + 1, (b - 48) as u64);
        }
    }
    None
}

fn parse_quoted_exec(s: &Vec<u8>, i: usize) -> (r: Option<(Vec<u8>, usize)>)
    requires
        i <= s@.len(),
    ensures
        match r {
            Option::Some((t, j)) => parse_quoted(s@, i as int) == Option::Some((t@, j as int)) && j
                <= s@.len(),
            Option::None => parse_quoted(s@, i as int) is None,
        },
{
    if i < s.len() && s[i] == 34 {
        parse_string_body_exec(s, i + 1)
    } else {
        None
    }
}

fn parse_key_exec(s: &Vec<u8>, i: usize) -> (r: Option<(Vec<u8>, usize)>)
    requires
        i <= s@.len(),
    ensures
        match r {
            Option::Some((k, v)) => parse_key(s@, i as int) == Option::Some((k@, v as int)) && v
                <= s@.len(),
            Option::None => parse_key(s@, i as int) is None,
        },
{
    match parse_quoted_exec(s, i) {
        Some((k, j)) => {
            let j2 = skip_ws_exec(s, j);
            if j2 < s.len() && s[j2] == 58 {
                Some((k, skip_ws_exec(s, j2 + 1)))
            } else {
                None
            }
        },
        None => None,
    }
}

fn expect_comma_exec(s: &Vec<u8>, i: usize) -> (r: Option<usize>)
    requires
        i <= s@.len(),
    ensures
        match r {
            Option::Some(j) => expect_comma(s@, i as int) == Option::Some(j as int) && j
                <= s@.len(),
            Option::None => expect_comma(s@, i as int) is None,
        },
{
    let j = skip_ws_exec(s, i);
    if j < s.len() && s[j] == 44 {
        Some(skip_ws_exec(s, j + 1))
    } else {
        None
    }
}

fn key_eq(k: &Vec<u8>, lit: &Vec<u8>) -> (r: bool)
    ensures
        r == (k@ == lit@),
{
    if k.len() != lit.len() {
        proof {
            if k@ == lit@ {
                assert(k@.len() == lit@.len());
            }
        }
        return false;
    }
    let mut i: usize = 0;
    while i < k.len()
        invariant
            0 <= i <= k@.len(),
            k@.len() == lit@.len(),
            forall|j: int| 0 <= j < i ==> k@[j] == lit@[j],
        decreases k@.len() - i,
    {
        if k[i] != lit[i] {
            proof {
                if k@ == lit@ {
                    assert(k@[i as int] == lit@[i as int]);
                }
            }
            return false;
        }
        i += 1;
    }
    proof {
        assert(k@ =~= lit@);
    }
    true
}

fn parse_time_value_exec(
    s: &Vec<u8>,
    i: usize,
    name: Vec<u8>,
    score: u64,
    duration: u32,
    mode: Vec<u8>,
    game_mode: Vec<u8>,
) -> (r: Option<(HighscoreEntry, usize)>)
    requires
        i <= s@.len(),
    ensures
        match r {
            Option::Some((e, j)) => parse_time_value(
                s@,
                i as int,
                name@,
                score,
                duration,
                mode@,
                game_mode@,
            ) == Option::Some((e@, j as int)) && j <= s@.len(),
            Option::None => parse_time_value(
                s@,
                i as int,
                name@,
                score,
                duration,
                mode@,
                game_mode@,
            ) is None,
        },
{
    match parse_quoted_exec(s, i) {
        Some((time, j)) => {
            let j2 = skip_ws_exec(s, j);
            if j2 < s.len() && s[j2] == 125 {
                let e = HighscoreEntry { name, score, duration, mode, game_mode, time };
                Some((e, j2 + 1))
            } else {
                None
            }
        },
        None => None,
    }
}

fn parse_game_mode_value_exec(
    s: &Vec<u8>,
    i: usize,
    name: Vec<u8>,
    score: u64,
    duration: u32,
    mode: Vec<u8>,
) -> (r: Option<(HighscoreEntry, usize)>)
    requires
        i <= s@.len(),
    ensures
        match r {
            Option::Some((e, j)) => parse_game_mode_value(
                s@,
                i as int,
                name@,
                score,
                duration,
                mode@,
            ) == Option::Some((e@, j as int)) && j <= s@.len(),
            Option::None => parse_game_mode_value(s@, i as int, name@, score, duration, mode@)
                is None,
        },
{
    match parse_quoted_exec(s, i) {
        Some((gm, j)) => match expect_comma_exec(s, j) {
            Some(j2) => match parse_key_exec(s, j2) {
                Some((k, v)) => {
                    let kt = key_time_bytes();
                    if key_eq(&k, &kt) {
                        parse_time_value_exec(s, v, name, score, duration, mode, gm)
                    } else {
                        None
                    }
                },
                None => None,
            },
            None => None,
        },
        None => None,
    }
}

fn parse_mode_value_exec(s: &Vec<u8>, i: usize, name: Vec<u8>, score: u64, duration: u32) -> (r:
    Option<(HighscoreEntry, usize)>)
    requires
        i <= s@.len(),
    ensures
        match r {
            Option::Some((e, j)) => parse_mode_value(s@, i as int, name@, score, duration)
                == Option::Some((e@, j as int)) && j <= s@.len(),
            Option::None => parse_mode_value(s@, i as int, name@, score, duration) is None,
        },
{
    match parse_quoted_exec(s, i) {
        Some((mode, j)) => match expect_comma_exec(s, j) {
            Some(j2) => match parse_key_exec(s, j2) {
                Some((k, v)) => {
                    let kg = key_game_mode_bytes();
                    let kt = key_time_bytes();
                    if key_eq(&k, &kg) {
                        parse_game_mode_value_exec(s, v, name, score, duration, mode)
                    } else if key_eq(&k, &kt) {
                        let gm = default_game_mode_bytes();
                        parse_time_value_exec(s, v, name, score, duration, mode, gm)
                    } else {
                        None
                    }
                },
                None => None,
            },
            None => None,
        },
        None => None,
    }
}

fn parse_after_duration_exec(s: &Vec<u8>, i: usize, name: Vec<u8>, score: u64) -> (r: Option<
    (HighscoreEntry, usize),
>)
    requires
        i <= s@.len(),
    ensures
        match r {
            Option::Some((e, j)) => parse_after_duration(s@, i as int, name@, score)
                == Option::Some((e@, j as int)) && j <= s@.len(),
            Option::None => parse_after_duration(s@, i as int, name@, score) is None,
        },
{
    match parse_number_exec(s, i) {
        Some((d, j)) => {
            if d > 0xffffffffu64 {
                return None;
            }
            match expect_comma_exec(s, j) {
                Some(j2) => match parse_key_exec(s, j2) {
                    Some((k, v)) => {
                        let km = key_mode_bytes();
                        if key_eq(&k, &km) {
                            parse_mode_value_exec(s, v, name, score, d as u32)
                        } else {
                            None
                        }
                    },
                    None => None,
                },
                None => None,
            }
        },
        None => None,
    }
}

fn parse_after_score_exec(s: &Vec<u8>, i: usize, name: Vec<u8>) -> (r: Option<
    (HighscoreEntry, usize),
>)
    requires
        i <= s@.len(),
    ensures
        match r {
            Option::Some((e, j)) => parse_after_score(s@, i as int, name@) == Option::Some(
                (e@, j as int),
            ) && j <= s@.len(),
            Option::None => parse_after_score(s@, i as int, name@) is None,
        },
{
    match parse_number_exec(s, i) {
        Some((n, j)) => {
            match expect_comma_exec(s, j) {
                Some(j2) => match parse_key_exec(s, j2) {
                    Some((k, v)) => {
                        let kd = key_duration_bytes();
                        let km = key_mode_bytes();
                        if key_eq(&k, &kd) {
                            parse_after_duration_exec(s, v, name, n)
                        } else if key_eq(&k, &km) {
                            parse_mode_value_exec(s, v, name, n, DEFAULT_DURATION)
                        } else {
                            None
                        }
                    },
                    None => None,
                },
                None => None,
            }
        },
        None => None,
    }
}

fn parse_entry_exec(s: &Vec<u8>, i: usize) -> (r: Option<(HighscoreEntry, usize)>)
    requires
        i <= s@.len(),
    ensures
        match r {
            Option::Some((e, j)) => parse_entry(s@, i as int) == Option::Some((e@, j as int)) && j
                <= s@.len(),
            Option::None => parse_entry(s@, i as int) is None,
        },
{
    let i0 = skip_ws_exec(s, i);
    if i0 < s.len() && s[i0] == 123 {
        let i1 = skip_ws_exec(s, i0 + 1);
        match parse_key_exec(s, i1) {
            Some((k, v)) => {
                let kn = key_name_bytes();
                if key_eq(&k, &kn) {
                    match parse_quoted_exec(s, v) {
                        Some((name, j)) => match expect_comma_exec(s, j) {
                            Some(j2) => match parse_key_exec(s, j2) {
                                Some((k2, v2)) => {
                                    let ks = key_score_bytes();
                                    if key_eq(&k2, &ks) {
                                        parse_after_score_exec(s, v2, name)
                                    } else {
                                        None
                                    }
                                },
                                None => None,
                            },
                            None => None,
                        },
                        None => None,
                    }
                } else {
                    None
                }
            },
            None => None,
        }
    } else {
        None
    }
}

fn parse_entries_rest_exec(s: &Vec<u8>, i: usize, acc: Vec<HighscoreEntry>) -> (r: Option<
    Vec<HighscoreEntry>,
>)
    requires
        i <= s@.len(),
    ensures
        match r {
            Option::Some(v) => parse_entries_rest(s@, i as int, views(acc@)) == Option::Some(
                views(v@),
            ),
            Option::None => parse_entries_rest(s@, i as int, views(acc@)) is None,
        },
    decreases s@.len() - i,
{
    match parse_entry_exec(s, i) {
        Some((e, j)) => {
            let j2 = skip_ws_exec(s, j);
            if j2 < s.len() && s[j2] == 44 {
                let mut acc = acc;
                let ghost acc0 = acc@;
                acc.push(e);
                proof {
                    assert(views(acc@) =~= views(acc0).push(e@));
                    lemma_parse_entry_bounds(s@, i as int);
                    lemma_skip_ws_bounds(s@, j as int);
                }
                parse_entries_rest_exec(s, j2 + 1, acc)
            } else if j2 < s.len() && s[j2] == 93 {
                if skip_ws_exec(s, j2 + 1) == s.len() {
                    let mut acc = acc;
                    let ghost acc0 = acc@;
                    acc.push(e);
                    proof {
                        assert(views(acc@) =~= views(acc0).push(e@));
                    }
                    Some(acc)
                } else {
                    None
                }
            } else {
                None
            }
        },
        None => None,
    }
}

/// Reads a persisted blob back into a leaderboard. Anything that is not
/// in the written format is rejected; the caller treats a rejected blob
/// as an empty leaderboard.
pub fn decode_highscores(blob: &Vec<u8>) -> (r: Option<Vec<HighscoreEntry>>)
    ensures
        match r {
            Option::Some(v) => decode_spec(blob@) == Option::Some(views(v@)),
            Option::None => decode_spec(blob@) is None,
        },
{
    let i = skip_ws_exec(blob, 0);
    if i < blob.len() && blob[i] == 91 {
        let j = skip_ws_exec(blob, i + 1);
        if j < blob.len() && blob[j] == 93 {
            if skip_ws_exec(blob, j + 1) == blob.len() {
                let empty: Vec<HighscoreEntry> = Vec::new();
                proof {
                    assert(views(Seq::<HighscoreEntry>::empty()) =~= Seq::<EntryV>::empty());
                }
                Some(empty)
            } else {
                None
            }
        } else {
            let empty: Vec<HighscoreEntry> = Vec::new();
            proof {
                assert(views(Seq::<HighscoreEntry>::empty()) =~= Seq::<EntryV>::empty());
            }
            parse_entries_rest_exec(blob, i + 1, empty)
        }
    } else {
        None
    }
}

} // verus!
