//! The names of the engine's files: `<id>.log` for a segment, and the
//! snapshot beside the log's root.

use vstd::prelude::*;
use vstd::string::*;

verus! {

/// The character of the decimal digit `d`.
pub open spec fn digit_char(d: int) -> char {
    if d == 0 {
        '0'
    } else if d == 1 {
        '1'
    } else if d == 2 {
        '2'
    } else if d == 3 {
        '3'
    } else if d == 4 {
        '4'
    } else if d == 5 {
        '5'
    } else if d == 6 {
        '6'
    } else if d == 7 {
        '7'
    } else if d == 8 {
        '8'
    } else {
        '9'
    }
}

/// Whether `c` is a decimal digit.
pub open spec fn is_digit(c: char) -> bool {
    c == '0' || c == '1' || c == '2' || c == '3' || c == '4' || c == '5' || c == '6' || c == '7'
        || c == '8' || c == '9'
}

/// The value of the decimal digit `c`.
pub open spec fn digit_value(c: char) -> int {
    if c == '0' {
        0
    } else if c == '1' {
        1
    } else if c == '2' {
        2
    } else if c == '3' {
        3
    } else if c == '4' {
        4
    } else if c == '5' {
        5
    } else if c == '6' {
        6
    } else if c == '7' {
        7
    } else if c == '8' {
        8
    } else {
        9
    }
}

/// The decimal numeral of `n`, without leading zeros.
pub open spec fn decimal(n: nat) -> Seq<char>
    decreases n,
{
    if n < 10 {
        seq![digit_char(n as int)]
    } else {
        decimal(n / 10).push(digit_char((n % 10) as int))
    }
}

/// Whether every character of `s` is a decimal digit.
pub open spec fn all_digits(s: Seq<char>) -> bool {
    forall|i: int| 0 <= i < s.len() ==> is_digit(#[trigger] s[i])
}

/// The number that the decimal numeral `s` spells.
pub open spec fn decimal_value(s: Seq<char>) -> nat
    decreases s.len(),
{
    if s.len() == 0 {
        0
    } else {
        (decimal_value(s.drop_last()) * 10 + digit_value(s.last())) as nat
    }
}

/// The four characters that end a segment's name.
pub open spec fn log_suffix() -> Seq<char> {
    seq!['.', 'l', 'o', 'g']
}

/// The name of the file of segment `id`.
pub open spec fn segment_name(id: u64) -> Seq<char> {
    decimal(id as nat) + log_suffix()
}

/// The segment that a file name stands for: the name is a decimal numeral
/// that fits 64 bits, followed by `.log`.
pub open spec fn segment_id_of(name: Seq<char>) -> Option<u64> {
    let digits = name.take(name.len() - 4);
    if name.len() > 4 && name.skip(name.len() - 4) == log_suffix() && all_digits(digits)
        && decimal_value(digits) <= u64::MAX {
        Some(decimal_value(digits) as u64)
    } else {
        None
    }
}

/// A numeral spells the number that it is the numeral of.
pub proof fn lemma_decimal_round_trip(n: nat)
    ensures
        decimal(n).len() > 0,
        all_digits(decimal(n)),
        decimal_value(decimal(n)) == n,
    decreases n,
{
    if n < 10 {
        assert(decimal(n).drop_last() =~= Seq::<char>::empty());
        assert(decimal_value(decimal(n).drop_last()) == 0);
    } else {
        lemma_decimal_round_trip(n / 10);
        assert(decimal(n).drop_last() =~= decimal(n / 10));
    }
}

/// The name of a segment's file names that segment.
pub proof fn lemma_segment_name_round_trip(id: u64)
    ensures
        segment_id_of(segment_name(id)) == Some(id),
{
    let name = segment_name(id);
    lemma_decimal_round_trip(id as nat);
    assert(name.take(name.len() - 4) =~= decimal(id as nat));
    assert(name.skip(name.len() - 4) =~= log_suffix());
}

/// A numeral's value is at least that of each of its prefixes.
pub proof fn lemma_decimal_value_monotone(s: Seq<char>, n: int)
    requires
        0 <= n <= s.len(),
    ensures
        decimal_value(s.take(n)) <= decimal_value(s),
    decreases s.len() - n,
{
    if n == s.len() {
        assert(s.take(n) =~= s);
    } else {
        lemma_decimal_value_monotone(s, n + 1);
        assert(s.take(n + 1).drop_last() =~= s.take(n));
    }
}

fn digit_of(c: char) -> (d: Option<u8>)
    ensures
        match d {
            Some(v) => is_digit(c) && v == digit_value(c),
            None => !is_digit(c),
        },
{
    if c == '0' {
        Some(0)
    } else if c == '1' {
        Some(1)
    } else if c == '2' {
        Some(2)
    } else if c == '3' {
        Some(3)
    } else if c == '4' {
        Some(4)
    } else if c == '5' {
        Some(5)
    } else if c == '6' {
        Some(6)
    } else if c == '7' {
        Some(7)
    } else if c == '8' {
        Some(8)
    } else if c == '9' {
        Some(9)
    } else {
        None
    }
}

fn digit_text(d: u8) -> (text: &'static str)
    requires
        d < 10,
    ensures
        text@ == seq![digit_char(d as int)],
{
    proof {
        reveal_strlit("0");
        reveal_strlit("1");
        reveal_strlit("2");
        reveal_strlit("3");
        reveal_strlit("4");
        reveal_strlit("5");
        reveal_strlit("6");
        reveal_strlit("7");
        reveal_strlit("8");
        reveal_strlit("9");
    }
    let text = if d == 0 {
        "0"
    } else if d == 1 {
        "1"
    } else if d == 2 {
        "2"
    } else if d == 3 {
        "3"
    } else if d == 4 {
        "4"
    } else if d == 5 {
        "5"
    } else if d == 6 {
        "6"
    } else if d == 7 {
        "7"
    } else if d == 8 {
        "8"
    } else {
        "9"
    };
    assert(text@ =~= seq![digit_char(d as int)]);
    text
}

/// The segment that the file name `name` stands for, if it is a segment's name.
pub fn parse_segment_name(name: &str) -> (id: Option<u64>)
    ensures
        id == segment_id_of(name@),
{
    let len = name.unicode_len();
    if len <= 4 {
        return None;
    }
    let stem = len - 4;
    let ghost digits = name@.take(stem as int);
    if name.get_char(stem) != '.' || name.get_char(stem + 1) != 'l' || name.get_char(stem + 2)
        != 'o' || name.get_char(stem + 3) != 'g' {
        assert(name@.skip(stem as int)[0] == name@[stem as int]);
        assert(name@.skip(stem as int)[1] == name@[stem + 1]);
        assert(name@.skip(stem as int)[2] == name@[stem + 2]);
        assert(name@.skip(stem as int)[3] == name@[stem + 3]);
        return None;
    }
    assert(name@.skip(stem as int) =~= log_suffix());
    let mut value: u64 = 0;
    let mut i: usize = 0;
    while i < stem
        invariant
            i <= stem,
            stem + 4 == name@.len(),
            digits == name@.take(stem as int),
            all_digits(digits.take(i as int)),
            value == decimal_value(digits.take(i as int)),
        decreases stem - i,
    {
        let c = name.get_char(i);
        assert(digits.take(i + 1).drop_last() =~= digits.take(i as int));
        assert(digits.take(i + 1).last() == c);
        match digit_of(c) {
            None => {
                assert(!is_digit(digits[i as int]));
                return None;
            },
            Some(d) => {
                if value > (u64::MAX - d as u64) / 10 {
                    proof {
                        lemma_decimal_value_monotone(digits, i + 1);
                    }
                    return None;
                }
                value = value * 10 + d as u64;
            },
        }
        i += 1;
    }
    assert(digits.take(stem as int) =~= digits);
    Some(value)
}

/// The name of the file of segment `id`: the decimal numeral of `id`,
/// followed by `.log`.
pub fn segment_file_name(id: u64) -> (name: String)
    ensures
        name@ == segment_name(id),
{
    let mut low: Vec<u8> = Vec::new();
    let mut rest: u64 = id;
    while rest >= 10
        invariant
            forall|j: int| 0 <= j < low.len() ==> (#[trigger] low[j]) < 10,
            decimal(id as nat) == decimal(rest as nat) + Seq::new(
                low.len() as nat,
                |j: int| digit_char(low[low.len() - 1 - j] as int),
            ),
        decreases rest,
    {
        let ghost before = Seq::new(
            low.len() as nat,
            |j: int| digit_char(low[low.len() - 1 - j] as int),
        );
        let ghost low_before = low@;
        low.push((rest % 10) as u8);
        assert(Seq::new(low.len() as nat, |j: int| digit_char(low[low.len() - 1 - j] as int))
            =~= seq![digit_char((rest % 10) as int)] + before);
        assert(decimal(rest as nat) + before =~= decimal((rest / 10) as nat) + (seq![
            digit_char((rest % 10) as int),
        ] + before));
        rest = rest / 10;
    }
    let mut name = String::from_str(digit_text(rest as u8));
    let mut k: usize = low.len();
    while k > 0
        invariant
            k <= low.len(),
            forall|j: int| 0 <= j < low.len() ==> (#[trigger] low[j]) < 10,
            name@ == decimal(rest as nat) + Seq::new(
                (low.len() - k) as nat,
                |j: int| digit_char(low[low.len() - 1 - j] as int),
            ),
        decreases k,
    {
        let ghost before = name@;
        k -= 1;
        name.append(digit_text(low[k]));
        assert(name@ =~= decimal(rest as nat) + Seq::new(
            (low.len() - k) as nat,
            |j: int| digit_char(low[low.len() - 1 - j] as int),
        ));
    }
    proof {
        reveal_strlit(".log");
    }
    name.append(".log");
    assert(".log"@ =~= log_suffix());
    name
}

/// The path of the snapshot that belongs to the log at `wal_path`.
pub fn snapshot_path(wal_path: &str) -> (path: String)
    ensures
        path@ == wal_path@ + ".snapshot"@,
{
    String::from_str(wal_path).concat(".snapshot")
}

/// The path of the file in which a snapshot is written before it takes the
/// place of the one at `final_path`.
pub fn snapshot_tmp_path(final_path: &str) -> (path: String)
    ensures
        path@ == final_path@ + ".tmp"@,
{
    String::from_str(final_path).concat(".tmp")
}

} // verus!
