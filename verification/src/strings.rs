//! Verified text helpers: decimal rendering of integers and joining of
//! string sequences, used to build error messages.

use vstd::prelude::*;
use vstd::string::StringExecFns;

verus! {

/// The character for a single decimal digit.
pub open spec fn digit_char(d: int) -> char {
    if d == 0 { '0' }
    else if d == 1 { '1' }
    else if d == 2 { '2' }
    else if d == 3 { '3' }
    else if d == 4 { '4' }
    else if d == 5 { '5' }
    else if d == 6 { '6' }
    else if d == 7 { '7' }
    else if d == 8 { '8' }
    else { '9' }
}

/// Decimal representation of a non-negative integer, most significant digit
/// first, with no leading zeros (except for zero itself).
pub open spec fn dec_digits(n: int) -> Seq<char>
    decreases n,
{
    if n < 10 {
        seq![digit_char(n)]
    } else {
        dec_digits(n / 10).push(digit_char(n % 10))
    }
}

/// Decimal representation of a possibly negative integer.
pub open spec fn dec_int(n: int) -> Seq<char> {
    if n < 0 {
        seq!['-'] + dec_digits(-n)
    } else {
        dec_digits(n)
    }
}

fn digit_str(d: u64) -> (r: &'static str)
    requires
        d < 10,
    ensures
        r@ =~= seq![digit_char(d as int)],
{
    proof {
        reveal_strlit("0");
        reveal_strlit("1");
        reveal_strlit("2");
        reveal_strlit("3");
        reveal_strlit("4");
        reveal_strlit("5");
        reveal_strlit("6");
        reveal_strlit("7");
        reveal_strlit("8");
        reveal_strlit("9");
    }
    match d {
        0 => "0",
        1 => "1",
        2 => "2",
        3 => "3",
        4 => "4",
        5 => "5",
        6 => "6",
        7 => "7",
        8 => "8",
        _ => "9",
    }
}

/// Render a `u64` in decimal.
pub fn u64_string(n: u64) -> (s: String)
    ensures
        s@ == dec_digits(n as int),
    decreases n,
{
    if n < 10 {
        String::from_str(digit_str(n))
    } else {
        let mut s = u64_string(n / 10);
        let d = digit_str(n % 10);
        s.append(d);
        proof {
            assert(s@ =~= dec_digits(n as int));
        }
        s
    }
}

/// Render a `usize` in decimal.
pub fn usize_string(n: usize) -> (s: String)
    ensures
        s@ == dec_digits(n as int),
{
    u64_string(n as u64)
}

/// Render an `i64` in decimal, with a leading minus sign when negative.
pub fn i64_string(n: i64) -> (s: String)
    ensures
        s@ == dec_int(n as int),
{
    if n >= 0 {
        u64_string(n as u64)
    } else {
        proof {
            reveal_strlit("-");
        }
        let mut s = String::from_str("-");
        let magnitude: u64 = (-(n as i128)) as u64;
        let rest = u64_string(magnitude);
        s.append(rest.as_str());
        proof {
            assert(s@ =~= dec_int(n as int));
        }
        s
    }
}

/// The elements of `parts` concatenated with `sep` between consecutive ones.
pub open spec fn join_with(parts: Seq<Seq<char>>, sep: Seq<char>) -> Seq<char>
    decreases parts.len(),
{
    if parts.len() == 0 {
        Seq::empty()
    } else if parts.len() == 1 {
        parts[0]
    } else {
        parts[0] + sep + join_with(parts.drop_first(), sep)
    }
}

pub proof fn lemma_join_push(parts: Seq<Seq<char>>, sep: Seq<char>, last: Seq<char>)
    ensures
        parts.len() == 0 ==> join_with(parts.push(last), sep) == last,
        parts.len() > 0 ==> join_with(parts.push(last), sep) == join_with(parts, sep) + sep
            + last,
    decreases parts.len(),
{
    if parts.len() == 0 {
        assert(join_with(parts.push(last), sep) =~= last);
    } else if parts.len() == 1 {
        let p2 = parts.push(last);
        assert(p2.drop_first() =~= seq![last]);
        assert(join_with(seq![last], sep) == last);
        assert(join_with(p2, sep) == p2[0] + sep + join_with(p2.drop_first(), sep));
        assert(p2[0] == parts[0]);
        assert(join_with(parts, sep) == parts[0]);
    } else {
        lemma_join_push(parts.drop_first(), sep, last);
        assert(parts.push(last).drop_first() =~= parts.drop_first().push(last));
        assert(join_with(parts.push(last), sep) =~= join_with(parts, sep) + sep + last);
    }
}

/// Join the strings of `names` with `", "` between consecutive ones.
pub fn join_comma(names: &Vec<String>) -> (s: String)
    ensures
        s@ == join_with(names.deep_view(), ", "@),
{
    let mut s = String::new();
    let mut i: usize = 0;
    while i < names.len()
        invariant
            i <= names.len(),
            s@ == join_with(names.deep_view().take(i as int), ", "@),
        decreases names.len() - i,
    {
        if i > 0 {
            s.append(", ");
        }
        s.append(names[i].as_str());
        proof {
            let parts = names.deep_view();
            assert(parts.take(i as int + 1) =~= parts.take(i as int).push(parts[i as int]));
            lemma_join_push(parts.take(i as int), ", "@, parts[i as int]);
        }
        i = i + 1;
    }
    proof {
        assert(names.deep_view().take(names.len() as int) =~= names.deep_view());
    }
    s
}

} // verus!
