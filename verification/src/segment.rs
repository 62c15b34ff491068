//! Segment naming and discovery.
//!
//! A segment file is named by its id printed as a zero-padded eight-digit
//! decimal, with the `.log` extension: `00000001.log`, `00000002.log`, …
//! Ids are allocated contiguously from 1, so on open the highest resident
//! segment is found by walking upward from 1 while the next name exists;
//! if numbering has a gap, the lower contiguous end is authoritative.

use vstd::prelude::*;
use vstd::string::StringExecFns;

verus! {

/// The decimal digit character for `d`.
pub open spec fn digit_char(d: int) -> char {
    if d == 0 {
        '0'
    } else if d == 1 {
        '1'
    } else if d == 2 {
        '2'
    } else if d == 3 {
        '3'
    } else if d == 4 {
        '4'
    } else if d == 5 {
        '5'
    } else if d == 6 {
        '6'
    } else if d == 7 {
        '7'
    } else if d == 8 {
        '8'
    } else {
        '9'
    }
}

/// The decimal digits of `n`, most significant first, without padding.
pub open spec fn dec_digits(n: int) -> Seq<char>
    recommends
        n >= 0,
    decreases n,
{
    if n < 10 {
        seq![digit_char(n)]
    } else {
        dec_digits(n / 10).push(digit_char(n % 10))
    }
}

/// How many `'0'` characters pad the decimal form of `n` to eight digits.
pub open spec fn pad_len(n: int) -> int {
    if n < 10 {
        7
    } else if n < 100 {
        6
    } else if n < 1000 {
        5
    } else if n < 10000 {
        4
    } else if n < 100000 {
        3
    } else if n < 1000000 {
        2
    } else if n < 10000000 {
        1
    } else {
        0
    }
}

/// The file name of segment `seg`: its id as a zero-padded eight-digit
/// decimal, then `.log`.
pub open spec fn seg_name(seg: int) -> Seq<char> {
    Seq::new(pad_len(seg) as nat, |i: int| '0') + dec_digits(seg) + seq!['.', 'l', 'o', 'g']
}

/// Append the single digit `d` to `s`.
fn push_digit(s: &mut String, d: u64)
    requires
        d < 10,
    ensures
        final(s)@ == old(s)@.push(digit_char(d as int)),
{
    proof {
        reveal_strlit("0");
        reveal_strlit("1");
        reveal_strlit("2");
        reveal_strlit("3");
        reveal_strlit("4");
        reveal_strlit("5");
        reveal_strlit("6");
        reveal_strlit("7");
        reveal_strlit("8");
        reveal_strlit("9");
    }
    let c: &str = if d == 0 {
        "0"
    } else if d == 1 {
        "1"
    } else if d == 2 {
        "2"
    } else if d == 3 {
        "3"
    } else if d == 4 {
        "4"
    } else if d == 5 {
        "5"
    } else if d == 6 {
        "6"
    } else if d == 7 {
        "7"
    } else if d == 8 {
        "8"
    } else {
        "9"
    };
    proof {
        assert(c@ =~= seq![digit_char(d as int)]);
    }
    s.append(c);
    proof {
        assert(old(s)@ + c@ =~= old(s)@.push(digit_char(d as int)));
    }
}

/// Append the decimal digits of `n` to `s`, most significant first.
fn push_decimal(s: &mut String, n: u64)
    ensures
        final(s)@ == old(s)@ + dec_digits(n as int),
    decreases n,
{
    if n < 10 {
        push_digit(s, n);
        proof {
            assert(old(s)@.push(digit_char(n as int)) =~= old(s)@ + dec_digits(n as int));
        }
    } else {
        push_decimal(s, n / 10);
        push_digit(s, n % 10);
        proof {
            assert((old(s)@ + dec_digits(n as int / 10)).push(digit_char(n as int % 10)) =~= old(
                s,
            )@ + dec_digits(n as int));
        }
    }
}

/// The file name of segment `seg`.
pub fn segment_file_name(seg: u64) -> (r: String)
    ensures
        r@ == seg_name(seg as int),
{
    let mut s = String::new();
    let zeros: u64 = if seg < 10 {
        7
    } else if seg < 100 {
        6
    } else if seg < 1000 {
        5
    } else if seg < 10000 {
        4
    } else if seg < 100000 {
        3
    } else if seg < 1000000 {
        2
    } else if seg < 10000000 {
        1
    } else {
        0
    };
    let mut k: u64 = 0;
    proof {
        assert(s@ =~= Seq::new(0, |i: int| '0'));
    }
    while k < zeros
        invariant
            k <= zeros,
            zeros == pad_len(seg as int),
            s@ == Seq::new(k as nat, |i: int| '0'),
        decreases zeros - k,
    {
        push_digit(&mut s, 0);
        proof {
            assert(s@ =~= Seq::new((k + 1) as nat, |i: int| '0'));
        }
        k = k + 1;
    }
    push_decimal(&mut s, seg);
    proof {
        reveal_strlit(".log");
        assert(".log"@ =~= seq!['.', 'l', 'o', 'g']);
    }
    s.append(".log");
    proof {
        assert(s@ =~= seg_name(seg as int));
    }
    s
}

/// The path of segment `seg` inside `dir`: `dir`, a slash, the file name.
pub fn segment_path(dir: &str, seg: u64) -> (r: String)
    ensures
        r@ == dir@ + seq!['/'] + seg_name(seg as int),
{
    let mut p = String::from_str(dir);
    proof {
        reveal_strlit("/");
        assert("/"@ =~= seq!['/']);
    }
    p.append("/");
    let name = segment_file_name(seg);
    p.append(name.as_str());
    proof {
        assert(p@ =~= dir@ + seq!['/'] + seg_name(seg as int));
    }
    p
}

/// Relies on `std::path::Path::exists`: whether the path names something
/// that exists on disk.  The result depends on the state of the file
/// system, so nothing is assumed of it.
#[verifier::external_body]
fn path_exists(p: &str) -> bool {
    std::path::Path::new(p).exists()
}

/// Find the id of the active (highest contiguous) segment of `dir`:
/// starting from 1, walk upward while the file named for the next id
/// exists.  In a fresh directory this is 1, naming the segment that open
/// will then create.
pub fn find_latest_segment(dir: &str) -> (r: u64)
    ensures
        r >= 1,
{
    let mut seg: u64 = 1;
    while seg < u64::MAX
        invariant
            seg >= 1,
        decreases u64::MAX - seg,
    {
        let next = segment_path(dir, seg + 1);
        if path_exists(next.as_str()) {
            seg = seg + 1;
        } else {
            break ;
        }
    }
    seg
}

} // verus!
