//! Session configuration: who controls each mark, who plays first,
//! and how many rounds to play, parsed from command-line style
//! arguments; also the parser for interactively entered positions.

use crate::grid::{Grid, Position};
use crate::mark::Mark;
use vstd::prelude::*;
use vstd::string::StrSliceExecFns;

verus! {

/// Who controls a mark.
#[derive(Debug, PartialEq, Eq, Structural, Clone, Copy)]
pub enum Player {
    Human,
    Computer,
}

/// Number of `Human` entries in `s` at index `from` or later.
pub open spec fn count_humans_from(s: Seq<Player>, from: int) -> nat
    decreases s.len() - from,
{
    if from < 0 || from >= s.len() {
        0
    } else {
        (if s[from] is Human {
            1nat
        } else {
            0nat
        }) + count_humans_from(s, from + 1)
    }
}

/// Number of `Human` entries in `s`.
pub open spec fn count_humans_spec(s: Seq<Player>) -> nat {
    count_humans_from(s, 0)
}

impl Player {
    /// Counts how many of `players` are human.
    pub fn count_humans(players: &[Self]) -> (r: u32)
        requires
            players@.len() <= u32::MAX,
        ensures
            r == count_humans_spec(players@),
    {
        let mut sum: u32 = 0;
        let mut i: usize = 0;
        while i < players.len()
            invariant
                i <= players@.len() <= u32::MAX,
                sum <= i,
                sum + count_humans_from(players@, i as int) == count_humans_spec(players@),
            decreases players@.len() - i,
        {
            if matches!(players[i], Player::Human) {
                sum += 1;
            }
            i += 1;
        }
        sum
    }
}

/// Configuration of a session.
#[derive(Debug, PartialEq, Eq, Structural, Clone, Copy)]
pub struct Config {
    /// Who controls `X`.
    pub x: Player,
    /// Who controls `O`.
    pub o: Player,
    /// The mark that moves first.
    pub first: Mark,
    /// Rounds to play when both players are computers.
    pub rounds: u8,
}

/// `c` lowered to its ASCII lowercase code point.
pub open spec fn lower_char_int(c: char) -> int {
    if 65 <= c as int <= 90 {
        c as int + 32
    } else {
        c as int
    }
}

/// `a` and `b` are the same text up to ASCII case.
pub open spec fn eq_ignore_case(a: Seq<char>, b: Seq<char>) -> bool {
    a.len() == b.len() && forall|i: int|
        0 <= i < a.len() ==> lower_char_int(a[i]) == lower_char_int(b[i])
}

fn lower_u32(c: char) -> (r: u32)
    ensures
        r as int == lower_char_int(c),
{
    let x = c as u32;
    if 65 <= x && x <= 90 {
        x + 32
    } else {
        x
    }
}

fn eq_ignore_ascii_case(a: &str, b: &str) -> (r: bool)
    ensures
        r == eq_ignore_case(a@, b@),
{
    let n = a.unicode_len();
    if n != b.unicode_len() {
        return false;
    }
    let mut i: usize = 0;
    while i < n
        invariant
            i <= n,
            n == a@.len() && n == b@.len(),
            forall|j: int| 0 <= j < i ==> lower_char_int(a@[j]) == lower_char_int(b@[j]),
        decreases n - i,
    {
        if lower_u32(a.get_char(i)) != lower_u32(b.get_char(i)) {
            return false;
        }
        i += 1;
    }
    true
}

fn str_equal(a: &str, b: &str) -> (r: bool)
    ensures
        r == (a@ == b@),
{
    let n = a.unicode_len();
    if n != b.unicode_len() {
        return false;
    }
    let mut i: usize = 0;
    while i < n
        invariant
            i <= n,
            n == a@.len() && n == b@.len(),
            forall|j: int| 0 <= j < i ==> a@[j] == b@[j],
        decreases n - i,
    {
        if a.get_char(i) != b.get_char(i) {
            return false;
        }
        i += 1;
    }
    proof {
        assert(a@ =~= b@);
    }
    true
}

/// The player a word names: `h` or `human`, `c` or `computer`, in any
/// ASCII case.
pub open spec fn player_of(s: Seq<char>) -> Option<Player> {
    if eq_ignore_case(s, "h"@) || eq_ignore_case(s, "human"@) {
        Some(Player::Human)
    } else if eq_ignore_case(s, "c"@) || eq_ignore_case(s, "computer"@) {
        Some(Player::Computer)
    } else {
        None
    }
}

/// The mark a word names: `x` or `o`, in any ASCII case.
pub open spec fn mark_of(s: Seq<char>) -> Option<Mark> {
    if eq_ignore_case(s, "x"@) {
        Some(Mark::X)
    } else if eq_ignore_case(s, "o"@) {
        Some(Mark::O)
    } else {
        None
    }
}

fn parse_player(src: &str) -> (r: Result<Player, &'static str>)
    ensures
        match player_of(src@) {
            Some(p) => r == Ok::<Player, &'static str>(p),
            None => r is Err,
        },
{
    if eq_ignore_ascii_case(src, "h") || eq_ignore_ascii_case(src, "human") {
        Ok(Player::Human)
    } else if eq_ignore_ascii_case(src, "c") || eq_ignore_ascii_case(src, "computer") {
        Ok(Player::Computer)
    } else {
        Err("expected human|computer")
    }
}

fn parse_mark(src: &str) -> (r: Result<Mark, &'static str>)
    ensures
        match mark_of(src@) {
            Some(m) => r == Ok::<Mark, &'static str>(m),
            None => r is Err,
        },
{
    if eq_ignore_ascii_case(src, "x") {
        Ok(Mark::X)
    } else if eq_ignore_ascii_case(src, "o") {
        Ok(Mark::O)
    } else {
        Err("expected x|o")
    }
}

/// `c` is an ASCII decimal digit.
pub open spec fn is_digit(c: char) -> bool {
    48 <= c as int <= 57
}

/// Value of the digit `c`.
pub open spec fn digit_of(c: char) -> int {
    c as int - 48
}

/// Every character of `s` in `[from, to)` is a digit.
pub open spec fn all_digits(s: Seq<char>, from: int, to: int) -> bool {
    forall|k: int| from <= k < to ==> is_digit(#[trigger] s[k])
}

/// Value of the digits of `s` in `[from, to)` appended to `acc`.
pub open spec fn digits_value(s: Seq<char>, from: int, to: int, acc: int) -> int
    decreases to - from,
{
    if from >= to {
        acc
    } else {
        digits_value(s, from + 1, to, acc * 10 + digit_of(s[from]))
    }
}

/// Appending digits never shrinks a non-negative value.
proof fn lemma_digits_value_grows(s: Seq<char>, from: int, to: int, acc: int)
    requires
        0 <= acc,
        all_digits(s, from, to),
        0 <= from,
        to <= s.len(),
    ensures
        digits_value(s, from, to, acc) >= acc,
    decreases to - from,
{
    if from < to {
        assert(is_digit(s[from]));
        lemma_digits_value_grows(s, from + 1, to, acc * 10 + digit_of(s[from]));
    }
}

/// Whether one more digit overflows `max`, tested the way the parser
/// can: against `max / 10` and `max % 10`.
proof fn lemma_next_digit_overflows(acc: int, d: int, max: int)
    requires
        0 <= acc,
        0 <= d <= 9,
        10 <= max,
    ensures
        (acc * 10 + d > max) <==> (acc > max / 10 || (acc == max / 10 && d > max % 10)),
{
    vstd::arithmetic::div_mod::lemma_fundamental_div_mod(max, 10);
    assert(max == 10 * (max / 10) + max % 10);
    assert(0 <= max % 10 < 10) by {
        vstd::arithmetic::div_mod::lemma_mod_division_less_than_divisor(max, 10);
    }
    let q = max / 10;
    if acc > q {
        assert(acc * 10 >= (q + 1) * 10) by (nonlinear_arith)
            requires
                acc >= q + 1,
        ;
    }
    if acc < q {
        assert(acc * 10 <= (q - 1) * 10) by (nonlinear_arith)
            requires
                acc <= q - 1,
        ;
    }
}

/// The number the digits of `s` in `[from, to)` denote, unless it
/// exceeds `usize::MAX`.
pub open spec fn number_of(s: Seq<char>, from: int, to: int) -> Option<usize> {
    if digits_value(s, from, to, 0) <= usize::MAX {
        Some(digits_value(s, from, to, 0) as usize)
    } else {
        None
    }
}

fn parse_number(s: &str, from: usize, to: usize) -> (r: Option<usize>)
    requires
        from <= to <= s@.len(),
        all_digits(s@, from as int, to as int),
    ensures
        r == number_of(s@, from as int, to as int),
{
    let mut acc: usize = 0;
    let mut k: usize = from;
    while k < to
        invariant
            from <= k <= to <= s@.len(),
            all_digits(s@, from as int, to as int),
            digits_value(s@, k as int, to as int, acc as int) == digits_value(
                s@,
                from as int,
                to as int,
                0,
            ),
        decreases to - k,
    {
        let c = s.get_char(k);
        proof {
            assert(is_digit(s@[k as int]));
        }
        let d = (c as u32 - 48) as usize;
        if acc > usize::MAX / 10 || (acc == usize::MAX / 10 && d > usize::MAX % 10) {
            proof {
                lemma_next_digit_overflows(acc as int, d as int, usize::MAX as int);
                lemma_digits_value_grows(s@, k + 1, to as int, acc as int * 10 + d);
            }
            return None;
        }
        proof {
            lemma_next_digit_overflows(acc as int, d as int, usize::MAX as int);
        }
        acc = acc * 10 + d;
        k += 1;
    }
    Some(acc)
}

/// `c` is ASCII whitespace: space, tab, line feed, form feed, or
/// carriage return.
pub open spec fn is_ws(c: char) -> bool {
    c as int == 32 || c as int == 9 || c as int == 10 || c as int == 12 || c as int == 13
}

/// First index at `i` or later whose character is not whitespace, or
/// the end of `s`.
pub open spec fn skip_ws(s: Seq<char>, i: int) -> int
    decreases s.len() - i,
{
    if 0 <= i < s.len() && is_ws(s[i]) {
        skip_ws(s, i + 1)
    } else {
        i
    }
}

/// First index at `i` or later whose character is not a digit, or the
/// end of `s`.
pub open spec fn num_end(s: Seq<char>, i: int) -> int
    decreases s.len() - i,
{
    if 0 <= i < s.len() && is_digit(s[i]) {
        num_end(s, i + 1)
    } else {
        i
    }
}

proof fn lemma_skip_ws_bounds(s: Seq<char>, i: int)
    requires
        0 <= i <= s.len(),
    ensures
        i <= skip_ws(s, i) <= s.len(),
    decreases s.len() - i,
{
    if i < s.len() && is_ws(s[i]) {
        lemma_skip_ws_bounds(s, i + 1);
    }
}

proof fn lemma_num_end_bounds(s: Seq<char>, i: int)
    requires
        0 <= i <= s.len(),
    ensures
        i <= num_end(s, i) <= s.len(),
        all_digits(s, i, num_end(s, i)),
    decreases s.len() - i,
{
    if i < s.len() && is_digit(s[i]) {
        lemma_num_end_bounds(s, i + 1);
    }
}

fn is_ws_exec(c: char) -> (r: bool)
    ensures
        r == is_ws(c),
{
    let x = c as u32;
    x == 32 || x == 9 || x == 10 || x == 12 || x == 13
}

fn is_digit_exec(c: char) -> (r: bool)
    ensures
        r == is_digit(c),
{
    let x = c as u32;
    48 <= x && x <= 57
}

fn skip_ws_exec(s: &str, i: usize) -> (j: usize)
    requires
        i <= s@.len(),
    ensures
        j == skip_ws(s@, i as int),
        i <= j <= s@.len(),
{
    let n = s.unicode_len();
    let mut j: usize = i;
    while j < n && is_ws_exec(s.get_char(j))
        invariant
            i <= j <= n,
            n == s@.len(),
            skip_ws(s@, j as int) == skip_ws(s@, i as int),
        decreases n - j,
    {
        j += 1;
    }
    proof {
        lemma_skip_ws_bounds(s@, i as int);
    }
    j
}

fn num_end_exec(s: &str, i: usize) -> (j: usize)
    requires
        i <= s@.len(),
    ensures
        j == num_end(s@, i as int),
        i <= j <= s@.len(),
{
    let n = s.unicode_len();
    let mut j: usize = i;
    while j < n && is_digit_exec(s.get_char(j))
        invariant
            i <= j <= n,
            n == s@.len(),
            num_end(s@, j as int) == num_end(s@, i as int),
        decreases n - j,
    {
        j += 1;
    }
    proof {
        lemma_num_end_bounds(s@, i as int);
    }
    j
}

/// The position a line of interactive input denotes: two
/// whitespace-separated one-based row and column numbers written in
/// digits, handed on zero-based.
pub open spec fn parse_position_spec(s: Seq<char>) -> Option<Position> {
    let n = s.len() as int;
    let i0 = skip_ws(s, 0);
    let e0 = num_end(s, i0);
    if e0 == i0 {
        None
    } else if e0 < n && !is_ws(s[e0]) {
        None
    } else {
        let i1 = skip_ws(s, e0);
        let e1 = num_end(s, i1);
        if e1 == i1 {
            None
        } else if e1 < n && !is_ws(s[e1]) {
            None
        } else if skip_ws(s, e1) != n {
            None
        } else {
            match (number_of(s, i0, e0), number_of(s, i1, e1)) {
                (Some(r), Some(c)) => if r > 0 && c > 0 {
                    Some((((r - 1) as usize, (c - 1) as usize)))
                } else {
                    None
                },
                _ => None,
            }
        }
    }
}

/// Parses a position from a line of interactive input.
pub fn parse_position(s: &str) -> (r: Option<Position>)
    ensures
        r == parse_position_spec(s@),
{
    let n = s.unicode_len();
    let i0 = skip_ws_exec(s, 0);
    let e0 = num_end_exec(s, i0);
    if e0 == i0 {
        return None;
    }
    if e0 < n && !is_ws_exec(s.get_char(e0)) {
        return None;
    }
    let i1 = skip_ws_exec(s, e0);
    let e1 = num_end_exec(s, i1);
    if e1 == i1 {
        return None;
    }
    if e1 < n && !is_ws_exec(s.get_char(e1)) {
        return None;
    }
    if skip_ws_exec(s, e1) != n {
        return None;
    }
    proof {
        lemma_num_end_bounds(s@, i0 as int);
        lemma_num_end_bounds(s@, i1 as int);
    }
    let rv = parse_number(s, i0, e0);
    let cv = parse_number(s, i1, e1);
    match (rv, cv) {
        (Some(r0), Some(c0)) => if r0 > 0 && c0 > 0 {
            Some((r0 - 1, c0 - 1))
        } else {
            None
        },
        _ => None,
    }
}

/// The round count a word denotes: a number written in digits that
/// fits in a `u8`.
pub open spec fn rounds_of(s: Seq<char>) -> Option<u8> {
    if s.len() == 0 || !all_digits(s, 0, s.len() as int) {
        None
    } else if digits_value(s, 0, s.len() as int, 0) <= 255 {
        Some(digits_value(s, 0, s.len() as int, 0) as u8)
    } else {
        None
    }
}

fn parse_rounds(src: &str) -> (r: Option<u8>)
    ensures
        r == rounds_of(src@),
{
    let n = src.unicode_len();
    if n == 0 {
        return None;
    }
    let mut i: usize = 0;
    while i < n
        invariant
            i <= n,
            n == src@.len(),
            all_digits(src@, 0, i as int),
        decreases n - i,
    {
        if !is_digit_exec(src.get_char(i)) {
            return None;
        }
        i += 1;
    }
    proof {
        assert(usize::MAX >= 255);
        lemma_digits_value_grows(src@, 0, n as int, 0);
    }
    match parse_number(src, 0, n) {
        Some(v) => if v <= 255 {
            Some(v as u8)
        } else {
            None
        },
        None => None,
    }
}

/// The configuration a session starts from when no flag changes it:
/// a human controls `X`, the computer controls `O`, `X` moves first,
/// and a computer-vs-computer match runs 25 rounds.
pub open spec fn default_config() -> Config {
    Config { x: Player::Human, o: Player::Computer, first: Mark::X, rounds: 25 }
}

/// Reading of the arguments from index `from` on, folded onto `acc`:
/// a flag naming a field, then its value, repeatedly.
pub open spec fn parse_args_from(args: Seq<Seq<char>>, from: int, acc: Config) -> Option<Config>
    decreases args.len() - from,
{
    if from < 0 || from >= args.len() {
        Some(acc)
    } else if from + 1 >= args.len() {
        None
    } else {
        let flag = args[from];
        let val = args[from + 1];
        if flag == "-x"@ {
            match player_of(val) {
                Some(p) => parse_args_from(
                    args,
                    from + 2,
                    Config { x: p, o: acc.o, first: acc.first, rounds: acc.rounds },
                ),
                None => None,
            }
        } else if flag == "-o"@ {
            match player_of(val) {
                Some(p) => parse_args_from(
                    args,
                    from + 2,
                    Config { x: acc.x, o: p, first: acc.first, rounds: acc.rounds },
                ),
                None => None,
            }
        } else if flag == "-f"@ || flag == "--first"@ {
            match mark_of(val) {
                Some(m) => parse_args_from(
                    args,
                    from + 2,
                    Config { x: acc.x, o: acc.o, first: m, rounds: acc.rounds },
                ),
                None => None,
            }
        } else if flag == "-r"@ || flag == "--rounds"@ {
            match rounds_of(val) {
                Some(k) => parse_args_from(
                    args,
                    from + 2,
                    Config { x: acc.x, o: acc.o, first: acc.first, rounds: k },
                ),
                None => None,
            }
        } else {
            None
        }
    }
}

/// What `Config::parse_args` accepts: the program name, then pairs of
/// a flag and its value in any order, later pairs overriding earlier
/// ones and missing flags keeping their defaults.
pub open spec fn parse_args_spec(args: Seq<Seq<char>>) -> Option<Config> {
    if args.len() == 0 {
        None
    } else {
        parse_args_from(args, 1, default_config())
    }
}

impl Config {
    /// Parses command-line arguments: `-x` and `-o` name who controls
    /// a mark (`human`/`h` or `computer`/`c`, any case), `-f` or
    /// `--first` names the mark that moves first (`x` or `o`, any
    /// case), and `-r` or `--rounds` a round count.  The first
    /// argument is the program name.
    pub fn parse_args(args: &Vec<String>) -> (r: Option<Config>)
        ensures
            r == parse_args_spec(args.deep_view()),
    {
        let ghost dv = args.deep_view();
        if args.len() == 0 {
            return None;
        }
        let mut cfg = Config { x: Player::Human, o: Player::Computer, first: Mark::X, rounds: 25 };
        let mut i: usize = 1;
        while i < args.len()
            invariant
                1 <= i,
                dv == args.deep_view(),
                dv.len() == args@.len(),
                parse_args_from(dv, i as int, cfg) == parse_args_spec(dv),
            decreases args@.len() - i,
        {
            if i + 1 >= args.len() {
                return None;
            }
            let flag = &args[i];
            let val = &args[i + 1];
            proof {
                assert(dv[i as int] == args@[i as int]@);
                assert(dv[i + 1] == args@[i + 1]@);
            }
            if str_equal(flag.as_str(), "-x") {
                match parse_player(val.as_str()) {
                    Ok(p) => {
                        cfg.x = p;
                    },
                    Err(_) => {
                        return None;
                    },
                }
            } else if str_equal(flag.as_str(), "-o") {
                match parse_player(val.as_str()) {
                    Ok(p) => {
                        cfg.o = p;
                    },
                    Err(_) => {
                        return None;
                    },
                }
            } else if str_equal(flag.as_str(), "-f") || str_equal(flag.as_str(), "--first") {
                match parse_mark(val.as_str()) {
                    Ok(m) => {
                        cfg.first = m;
                    },
                    Err(_) => {
                        return None;
                    },
                }
            } else if str_equal(flag.as_str(), "-r") || str_equal(flag.as_str(), "--rounds") {
                match parse_rounds(val.as_str()) {
                    Some(k) => {
                        cfg.rounds = k;
                    },
                    None => {
                        return None;
                    },
                }
            } else {
                return None;
            }
            i += 2;
        }
        Some(cfg)
    }
}

/// The first unmarked position of a grid that has one, used by the
/// interactive prompt as an example move.
pub fn first_unmarked_position(grid: &Grid) -> (p: Position)
    requires
        grid.empties().len() > 0,
    ensures
        p == grid.empties()[0],
{
    let mut it = grid.unmarked_positions();
    it.next().unwrap()
}

} // verus!
