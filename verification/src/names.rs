//! Player and game names as the server accepts them, and labels cut to fit
//! the client's panels.
use vstd::prelude::*;

verus! {

/// Longest player name the server keeps, in characters.
pub const MAX_PLAYER_NAME_CHARS: usize = 18;

/// Longest game name the server keeps, in characters.
pub const MAX_GAME_NAME_CHARS: usize = 32;

/// The Unicode `White_Space` property, which `char::is_whitespace` and
/// `str::trim` go by.
pub open spec fn is_white_space(c: char) -> bool {
    let u = c as u32;
    (0x09 <= u <= 0x0d) || u == 0x20 || u == 0x85 || u == 0xa0 || u == 0x1680 || (0x2000 <= u
        <= 0x200a) || u == 0x2028 || u == 0x2029 || u == 0x202f || u == 0x205f || u == 0x3000
}

pub open spec fn trim_start_of(s: Seq<char>) -> Seq<char>
    decreases s.len(),
{
    if s.len() > 0 && is_white_space(s[0]) {
        trim_start_of(s.drop_first())
    } else {
        s
    }
}

pub open spec fn trim_end_of(s: Seq<char>) -> Seq<char>
    decreases s.len(),
{
    if s.len() > 0 && is_white_space(s.last()) {
        trim_end_of(s.drop_last())
    } else {
        s
    }
}

/// `s` without leading and trailing white space.
pub open spec fn trimmed(s: Seq<char>) -> Seq<char> {
    trim_end_of(trim_start_of(s))
}

/// The decimal digits of `n`, most significant first.
pub open spec fn decimal(n: nat) -> Seq<char>
    decreases n,
{
    if n < 10 {
        seq![digit_char(n)]
    } else {
        decimal(n / 10).push(digit_char(n % 10))
    }
}

pub open spec fn digit_char(d: nat) -> char {
    if d == 0 {
        '0'
    } else if d == 1 {
        '1'
    } else if d == 2 {
        '2'
    } else if d == 3 {
        '3'
    } else if d == 4 {
        '4'
    } else if d == 5 {
        '5'
    } else if d == 6 {
        '6'
    } else if d == 7 {
        '7'
    } else if d == 8 {
        '8'
    } else {
        '9'
    }
}

/// `str::trim`: the string slice without its leading and trailing white
/// space, as the Unicode `White_Space` property defines it.
#[verifier::external_body]
fn trim_str(s: &str) -> (t: &str)
    ensures
        t@ == trimmed(s@),
{
    s.trim()
}

/// `String::push`: appends one character.
#[verifier::external_body]
pub(crate) fn push_char(s: &mut String, c: char)
    ensures
        final(s)@ == old(s)@.push(c),
{
    s.push(c)
}

/// The decimal digit `d`, for `d` below ten.
fn digit(d: u64) -> (c: char)
    requires
        d < 10,
    ensures
        c == digit_char(d as nat),
{
    match d {
        0 => '0',
        1 => '1',
        2 => '2',
        3 => '3',
        4 => '4',
        5 => '5',
        6 => '6',
        7 => '7',
        8 => '8',
        _ => '9',
    }
}

/// `n` written in decimal, as `Display` writes integers.
pub(crate) fn decimal_text(n: u64) -> (text: String)
    ensures
        text@ == decimal(n as nat),
    decreases n,
{
    if n < 10 {
        let mut text = String::new();
        push_char(&mut text, digit(n));
        text
    } else {
        let mut text = decimal_text(n / 10);
        push_char(&mut text, digit(n % 10));
        text
    }
}

/// The first `max_chars` characters of `s`.
fn take_chars(s: &str, max_chars: usize) -> (taken: String)
    ensures
        taken@ == s@.take(if s@.len() < max_chars { s@.len() as int } else { max_chars as int }),
{
    let mut taken = String::new();
    let mut count: usize = 0;
    for c in it: s.chars()
        invariant
            it.seq() == s@,
            count as int == if it.index() < max_chars { it.index() as int } else { max_chars as int },
            count <= max_chars,
            taken@ == s@.take(count as int),
    {
        if count < max_chars {
            proof {
                assert(s@.take(count + 1) =~= s@.take(count as int).push(c));
            }
            push_char(&mut taken, c);
            count = count + 1;
        }
    }
    taken
}

/// The name a player is listed under: `name` trimmed and cut to
/// [`MAX_PLAYER_NAME_CHARS`] characters, or "Player" when nothing is left.
pub fn clean_name(name: String) -> (cleaned: String)
    ensures
        cleaned@ == (if trimmed(name@).len() == 0 {
            "Player"@
        } else {
            trimmed(name@).take(
                if trimmed(name@).len() < MAX_PLAYER_NAME_CHARS {
                    trimmed(name@).len() as int
                } else {
                    MAX_PLAYER_NAME_CHARS as int
                },
            )
        }),
{
    let cleaned = take_chars(trim_str(name.as_str()), MAX_PLAYER_NAME_CHARS);
    if cleaned.as_str().is_empty() {
        String::from_str("Player")
    } else {
        cleaned
    }
}

/// The name a game is listed under: `name` trimmed and cut to
/// [`MAX_GAME_NAME_CHARS`] characters, or "Game <id>" when nothing is left.
pub fn clean_game_name(name: String, game_id: u32) -> (cleaned: String)
    ensures
        cleaned@ == (if trimmed(name@).len() == 0 {
            "Game "@ + decimal(game_id as nat)
        } else {
            trimmed(name@).take(
                if trimmed(name@).len() < MAX_GAME_NAME_CHARS {
                    trimmed(name@).len() as int
                } else {
                    MAX_GAME_NAME_CHARS as int
                },
            )
        }),
{
    let cleaned = take_chars(trim_str(name.as_str()), MAX_GAME_NAME_CHARS);
    if cleaned.as_str().is_empty() {
        let mut label = String::from_str("Game ");
        label.append(decimal_text(game_id as u64).as_str());
        label
    } else {
        cleaned
    }
}

/// Whether `s` has at most `max_chars` characters.
fn fits_chars(s: &str, max_chars: usize) -> (fits: bool)
    ensures
        fits == (s@.len() <= max_chars),
{
    let mut n: usize = 0;
    let mut over = false;
    for c in it: s.chars()
        invariant
            it.seq() == s@,
            n as int == if it.index() < max_chars { it.index() as int } else { max_chars as int },
            over == (it.index() > max_chars),
    {
        if n < max_chars {
            n = n + 1;
        } else {
            over = true;
        }
    }
    !over
}

/// `value` cut to fit `max_chars` characters: unchanged when it fits,
/// otherwise its first `max_chars - 3` characters (none when `max_chars` is
/// below 3) followed by "...".
pub fn truncate_text(value: &str, max_chars: usize) -> (text: String)
    ensures
        text@ == (if value@.len() <= max_chars {
            value@
        } else {
            value@.take(if max_chars >= 3 { max_chars - 3 } else { 0 }) + "..."@
        }),
{
    if fits_chars(value, max_chars) {
        return String::from_str(value);
    }
    let keep = max_chars.saturating_sub(3);
    let mut out = take_chars(value, keep);
    out.append("...");
    out
}

} // verus!
