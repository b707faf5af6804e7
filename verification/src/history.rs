use vstd::prelude::*;
use vstd::string::StrSliceExecFns;
use regex::Regex;
use crate::error::LottoError;

verus! {

/// Which line of each group of lines holds a draw, and how many numbers a
/// draw has.
#[derive(Clone, Copy, Debug)]
pub struct LineLayout {
    /// How many lines one historical draw takes.
    pub group: usize,
    /// The line of the group that holds the numbers, counted from 1.
    pub position: usize,
    /// How many numbers such a line must hold.
    pub numbers: usize,
}

/// The draws of a history, and all their numbers in one list.
#[derive(Debug)]
pub struct History {
    /// One list of numbers for each historical draw, in file order.
    pub draws: Vec<Vec<u32>>,
    /// The numbers of all draws, in file order.
    pub observations: Vec<u32>,
}

pub open spec fn is_digit(c: char) -> bool {
    '0' <= c && c <= '9'
}

pub open spec fn all_digits(s: Seq<char>) -> bool {
    forall|i: int| 0 <= i < s.len() ==> is_digit(#[trigger] s[i])
}

/// How many digits `s` starts with.
pub open spec fn digit_prefix_len(s: Seq<char>) -> nat
    decreases s.len(),
{
    if s.len() > 0 && is_digit(s[0]) {
        1 + digit_prefix_len(s.drop_first())
    } else {
        0
    }
}

/// The maximal runs of decimal digits in `s`, from left to right.
pub open spec fn digit_runs(s: Seq<char>) -> Seq<Seq<char>>
    decreases s.len(),
{
    let n = digit_prefix_len(s);
    if s.len() == 0 {
        Seq::empty()
    } else if 1 <= n <= s.len() {
        seq![s.take(n as int)] + digit_runs(s.skip(n as int))
    } else {
        digit_runs(s.drop_first())
    }
}

/// The value of a digit, 0 for any other character.
pub open spec fn digit_value(c: char) -> nat {
    if is_digit(c) {
        (c as u32 - '0' as u32) as nat
    } else {
        0
    }
}

/// The number that the digits of `s` write in base ten.
pub open spec fn decimal_value(s: Seq<char>) -> nat
    decreases s.len(),
{
    if s.len() == 0 {
        0
    } else {
        decimal_value(s.drop_last()) * 10 + digit_value(s.last())
    }
}

/// The number that `s` writes, if `s` is a run of digits whose value fits
/// in 32 bits.
pub open spec fn number_of(s: Seq<char>) -> Option<u32> {
    if s.len() > 0 && all_digits(s) && decimal_value(s) <= u32::MAX {
        Some(decimal_value(s) as u32)
    } else {
        None
    }
}

/// The numbers of a data line, if it holds `expected` of them and each fits
/// in 32 bits.
pub open spec fn line_numbers(s: Seq<char>, expected: nat) -> Option<Seq<u32>> {
    let runs = digit_runs(s);
    if runs.len() == expected && forall|i: int| 0 <= i < runs.len() ==> number_of(#[trigger] runs[i]) is Some {
        Some(Seq::new(runs.len(), |i: int| number_of(runs[i])->0))
    } else {
        None
    }
}

pub open spec fn valid_layout(layout: LineLayout) -> bool {
    1 <= layout.position <= layout.group
}

/// Whether the line at `index`, counted from 0, holds a draw.
pub open spec fn is_data_line(index: int, layout: LineLayout) -> bool {
    (index + 1) % (layout.group as int) == layout.position % layout.group
}

/// The draws that the lines hold, or `None` where a data line is malformed.
pub open spec fn parsed_draws(lines: Seq<Seq<char>>, layout: LineLayout) -> Option<Seq<Seq<u32>>>
    decreases lines.len(),
{
    if lines.len() == 0 {
        Some(Seq::empty())
    } else {
        match parsed_draws(lines.drop_last(), layout) {
            None => None,
            Some(ds) => if is_data_line(lines.len() - 1, layout) {
                match line_numbers(lines.last(), layout.numbers as nat) {
                    Some(d) => Some(ds.push(d)),
                    None => None,
                }
            } else {
                Some(ds)
            },
        }
    }
}

/// All numbers of the draws in one list.
pub open spec fn flattened(ds: Seq<Seq<u32>>) -> Seq<u32>
    decreases ds.len(),
{
    if ds.len() == 0 {
        Seq::empty()
    } else {
        flattened(ds.drop_last()) + ds.last()
    }
}

pub open spec fn texts(lines: Seq<String>) -> Seq<Seq<char>> {
    Seq::new(lines.len(), |i: int| lines[i]@)
}

pub open spec fn rows(ds: Seq<Vec<u32>>) -> Seq<Seq<u32>> {
    Seq::new(ds.len(), |i: int| ds[i]@)
}

/// `Regex::find_iter` with the pattern `[0-9]+`: the matches are the
/// maximal runs of ASCII digits of the line, from left to right.
#[verifier::external_body]
fn find_digit_runs(line: &str) -> (r: Vec<String>)
    ensures
        texts(r@) == digit_runs(line@),
{
    let pattern = Regex::new(r"[0-9]+").unwrap();
    pattern.find_iter(line).map(|m| m.as_str().to_string()).collect()
}

/// A prefix of a text writes no larger a number than the text.
proof fn lemma_decimal_grows(s: Seq<char>, m: int)
    requires
        0 <= m <= s.len(),
    ensures
        decimal_value(s.take(m)) <= decimal_value(s),
    decreases s.len(),
{
    if m < s.len() {
        assert(s.drop_last().take(m) =~= s.take(m));
        lemma_decimal_grows(s.drop_last(), m);
    } else {
        assert(s.take(m) =~= s);
    }
}

/// Reads a run of digits as a number.
pub fn parse_number(s: &str) -> (r: Option<u32>)
    ensures
        r == number_of(s@),
{
    let n: usize = s.unicode_len();
    if n == 0 {
        return None;
    }
    let mut acc: u64 = 0;
    let mut i: usize = 0;
    while i < n
        invariant
            0 <= i <= n,
            n == s@.len(),
            all_digits(s@.take(i as int)),
            acc == decimal_value(s@.take(i as int)),
            acc <= u32::MAX,
        decreases n - i,
    {
        let c: char = s.get_char(i);
        proof {
            assert(s@.take(i + 1).drop_last() =~= s@.take(i as int));
            assert(s@.take(i + 1).last() == c);
        }
        if c < '0' || c > '9' {
            assert(!is_digit(s@[i as int]));
            return None;
        }
        let d: u64 = (c as u32 - '0' as u32) as u64;
        let next: u64 = acc * 10 + d;
        if next > 0xffff_ffff {
            proof {
                lemma_decimal_grows(s@, i + 1);
            }
            return None;
        }
        proof {
            assert forall|j: int| 0 <= j < i + 1 implies is_digit(#[trigger] s@.take(i + 1)[j]) by {
                if j < i {
                    assert(s@.take(i as int)[j] == s@[j]);
                }
            }
        }
        acc = next;
        i = i + 1;
    }
    proof {
        assert(s@.take(n as int) =~= s@);
    }
    Some(acc as u32)
}

/// The numbers of one data line; `MalformedLine` where it does not hold
/// `expected` runs of digits or one of them does not fit in 32 bits.
pub fn parse_line(line: &str, expected: usize) -> (r: Result<Vec<u32>, LottoError>)
    ensures
        match r {
            Ok(v) => line_numbers(line@, expected as nat) == Some(v@),
            Err(e) => e == LottoError::MalformedLine && line_numbers(line@, expected as nat) is None,
        },
{
    let runs = find_digit_runs(line);
    let r = numbers_of_runs(&runs, expected);
    proof {
        let found = digit_runs(line@);
        assert(found.len() == runs@.len());
        assert forall|i: int| 0 <= i < found.len() implies #[trigger] found[i] == runs@[i]@ by {
            assert(texts(runs@)[i] == runs@[i]@);
        }
        if r is Ok {
            assert(Seq::new(found.len(), |i: int| number_of(found[i])->0) =~= r->Ok_0@);
        } else if runs@.len() == expected {
            let i = choose|i: int| 0 <= i < runs@.len() && number_of(#[trigger] runs@[i]@) is None;
            assert(number_of(found[i]) is None);
        }
    }
    r
}

/// The numbers that the runs of digits of one line write.
pub fn numbers_of_runs(runs: &Vec<String>, expected: usize) -> (r: Result<Vec<u32>, LottoError>)
    ensures
        match r {
            Ok(v) => {
                &&& runs@.len() == expected
                &&& v@.len() == expected
                &&& forall|i: int| 0 <= i < runs@.len() ==> number_of(#[trigger] runs@[i]@) == Some(v@[i])
            },
            Err(e) => {
                &&& e == LottoError::MalformedLine
                &&& runs@.len() != expected || exists|i: int| 0 <= i < runs@.len() && number_of(#[trigger] runs@[i]@) is None
            },
        },
{
    if runs.len() != expected {
        return Err(LottoError::MalformedLine);
    }
    let mut out: Vec<u32> = Vec::new();
    let mut i: usize = 0;
    while i < runs.len()
        invariant
            0 <= i <= runs@.len(),
            out@.len() == i,
            forall|j: int| 0 <= j < i ==> number_of(#[trigger] runs@[j]@) == Some(out@[j]),
        decreases runs@.len() - i,
    {
        match parse_number(runs[i].as_str()) {
            Some(x) => {
                out.push(x);
            },
            None => {
                return Err(LottoError::MalformedLine);
            },
        }
        i = i + 1;
    }
    Ok(out)
}

/// Reads the draws out of the lines of a history. Every line that the
/// layout marks as a data line must hold the expected count of numbers: the
/// first that does not fails the whole history.
pub fn parse_history(lines: &Vec<String>, layout: &LineLayout) -> (r: Result<History, LottoError>)
    ensures
        match r {
            Ok(h) => {
                &&& valid_layout(*layout)
                &&& parsed_draws(texts(lines@), *layout) == Some(rows(h.draws@))
                &&& h.observations@ == flattened(rows(h.draws@))
            },
            Err(e) => if !valid_layout(*layout) {
                e == LottoError::InvalidRange
            } else {
                e == LottoError::MalformedLine && parsed_draws(texts(lines@), *layout) is None
            },
        },
{
    if layout.position < 1 || layout.position > layout.group {
        return Err(LottoError::InvalidRange);
    }
    let target: usize = layout.position % layout.group;
    let mut draws: Vec<Vec<u32>> = Vec::new();
    let mut observations: Vec<u32> = Vec::new();
    let mut phase: usize = 1 % layout.group;
    let mut i: usize = 0;
    while i < lines.len()
        invariant
            0 <= i <= lines@.len(),
            valid_layout(*layout),
            target == layout.position % layout.group,
            phase == (i + 1) % (layout.group as int),
            parsed_draws(texts(lines@).take(i as int), *layout) == Some(rows(draws@)),
            observations@ == flattened(rows(draws@)),
        decreases lines@.len() - i,
    {
        proof {
            assert(texts(lines@).take(i + 1).drop_last() =~= texts(lines@).take(i as int));
            assert(texts(lines@).take(i + 1).last() == lines@[i as int]@);
            lemma_next_phase(i as int + 1, layout.group as int);
        }
        if phase == target {
            let ghost before = rows(draws@);
            let numbers = match parse_line(lines[i].as_str(), layout.numbers) {
                Ok(numbers) => numbers,
                Err(e) => {
                    proof {
                        lemma_malformed_stays(texts(lines@), i + 1, *layout);
                    }
                    return Err(e);
                },
            };
            let mut j: usize = 0;
            while j < numbers.len()
                invariant
                    0 <= j <= numbers@.len(),
                    observations@ == flattened(before) + numbers@.take(j as int),
                decreases numbers@.len() - j,
            {
                proof {
                    assert(numbers@.take(j + 1) =~= numbers@.take(j as int).push(numbers@[j as int]));
                    assert((flattened(before) + numbers@.take(j as int)).push(numbers@[j as int]) =~= flattened(before)
                        + numbers@.take(j + 1));
                }
                observations.push(numbers[j]);
                j = j + 1;
            }
            proof {
                assert(numbers@.take(numbers@.len() as int) =~= numbers@);
                assert(rows(draws@.push(numbers)) =~= before.push(numbers@));
                assert(before.push(numbers@).drop_last() =~= before);
            }
            draws.push(numbers);
        }
        phase = if phase + 1 == layout.group {
            0
        } else {
            phase + 1
        };
        i = i + 1;
    }
    proof {
        assert(texts(lines@).take(i as int) =~= texts(lines@));
    }
    Ok(History { draws, observations })
}

/// The position within the group moves on by one, and back to 0 at the end.
proof fn lemma_next_phase(k: int, g: int)
    requires
        k >= 0,
        g >= 1,
    ensures
        (k + 1) % g == if k % g + 1 == g {
            0
        } else {
            k % g + 1
        },
        0 <= k % g < g,
{
    vstd::arithmetic::div_mod::lemma_fundamental_div_mod(k, g);
    vstd::arithmetic::div_mod::lemma_mod_bound(k, g);
    let q = k / g;
    assert(g * q == q * g && (q + 1) * g == q * g + g) by (nonlinear_arith);
    if k % g + 1 == g {
        vstd::arithmetic::div_mod::lemma_fundamental_div_mod_converse(k + 1, g, k / g + 1, 0);
    } else {
        vstd::arithmetic::div_mod::lemma_fundamental_div_mod_converse(k + 1, g, k / g, k % g + 1);
    }
}

/// Once a prefix of the lines is malformed, so is the whole.
proof fn lemma_malformed_stays(lines: Seq<Seq<char>>, m: int, layout: LineLayout)
    requires
        0 <= m <= lines.len(),
        parsed_draws(lines.take(m), layout) is None,
    ensures
        parsed_draws(lines, layout) is None,
    decreases lines.len(),
{
    if m < lines.len() {
        assert(lines.drop_last().take(m) =~= lines.take(m));
        lemma_malformed_stays(lines.drop_last(), m, layout);
    } else {
        assert(lines.take(m) =~= lines);
    }
}

} // verus!
