//! Verified string helpers: decimal rendering of token ids, uppercase hex
//! rendering of fingerprints, and extraction of an asset's name from its
//! storage path.

use vstd::prelude::*;

verus! {

/// The decimal digit character for a value below ten.
pub open spec fn dec_digit_char(d: nat) -> char {
    if d == 0 {
        '0'
    } else if d == 1 {
        '1'
    } else if d == 2 {
        '2'
    } else if d == 3 {
        '3'
    } else if d == 4 {
        '4'
    } else if d == 5 {
        '5'
    } else if d == 6 {
        '6'
    } else if d == 7 {
        '7'
    } else if d == 8 {
        '8'
    } else {
        '9'
    }
}

/// The decimal representation of `n`, most significant digit first, with no
/// leading zeros (`0` itself is rendered as `"0"`).
pub open spec fn dec_chars_of(n: nat) -> Seq<char>
    decreases n,
{
    if n < 10 {
        seq![dec_digit_char(n)]
    } else {
        dec_chars_of(n / 10).push(dec_digit_char(n % 10))
    }
}

fn dec_digit_str(d: u64) -> (r: &'static str)
    requires
        d < 10,
    ensures
        r@ == seq![dec_digit_char(d as nat)],
{
    proof {
        reveal_strlit("0");
        reveal_strlit("1");
        reveal_strlit("2");
        reveal_strlit("3");
        reveal_strlit("4");
        reveal_strlit("5");
        reveal_strlit("6");
        reveal_strlit("7");
        reveal_strlit("8");
        reveal_strlit("9");
    }
    let r: &'static str = match d {
        0 => "0",
        1 => "1",
        2 => "2",
        3 => "3",
        4 => "4",
        5 => "5",
        6 => "6",
        7 => "7",
        8 => "8",
        _ => "9",
    };
    proof {
        assert(r@ =~= seq![dec_digit_char(d as nat)]);
    }
    r
}

/// Renders `n` in decimal.
pub fn u64_to_string(n: u64) -> (s: String)
    ensures
        s@ == dec_chars_of(n as nat),
    decreases n,
{
    if n < 10 {
        String::from_str(dec_digit_str(n))
    } else {
        let mut s = u64_to_string(n / 10);
        s.append(dec_digit_str(n % 10));
        proof {
            assert(s@ =~= dec_chars_of(n as nat));
        }
        s
    }
}

/// The uppercase hexadecimal digit character for a value below sixteen.
pub open spec fn hex_digit_char(d: nat) -> char {
    if d < 10 {
        dec_digit_char(d)
    } else if d == 10 {
        'A'
    } else if d == 11 {
        'B'
    } else if d == 12 {
        'C'
    } else if d == 13 {
        'D'
    } else if d == 14 {
        'E'
    } else {
        'F'
    }
}

/// The two uppercase hexadecimal digits of one byte.
pub open spec fn hex_pair_chars(b: u8) -> Seq<char> {
    seq![hex_digit_char(b as nat / 16), hex_digit_char(b as nat % 16)]
}

/// The uppercase hexadecimal rendering of a byte string, two digits per
/// byte, in byte order.
pub open spec fn hex_chars_of(bytes: Seq<u8>) -> Seq<char>
    decreases bytes.len(),
{
    if bytes.len() == 0 {
        Seq::empty()
    } else {
        hex_chars_of(bytes.drop_last()) + hex_pair_chars(bytes.last())
    }
}

pub(crate) fn hex_digit_str(d: u8) -> (r: &'static str)
    requires
        d < 16,
    ensures
        r@ == seq![hex_digit_char(d as nat)],
{
    if d < 10 {
        dec_digit_str(d as u64)
    } else {
        proof {
            reveal_strlit("A");
            reveal_strlit("B");
            reveal_strlit("C");
            reveal_strlit("D");
            reveal_strlit("E");
            reveal_strlit("F");
        }
        let r: &'static str = match d {
            10 => "A",
            11 => "B",
            12 => "C",
            13 => "D",
            14 => "E",
            _ => "F",
        };
        proof {
            assert(r@ =~= seq![hex_digit_char(d as nat)]);
        }
        r
    }
}

/// Renders a byte string in uppercase hexadecimal.
pub fn hex_upper(bytes: &Vec<u8>) -> (s: String)
    ensures
        s@ == hex_chars_of(bytes@),
{
    let mut s = String::new();
    let mut i: usize = 0;
    while i < bytes.len()
        invariant
            i <= bytes@.len(),
            s@ == hex_chars_of(bytes@.take(i as int)),
        decreases bytes@.len() - i,
    {
        let b = bytes[i];
        s.append(hex_digit_str(b / 16));
        s.append(hex_digit_str(b % 16));
        proof {
            assert(bytes@.take(i + 1 as int).drop_last() =~= bytes@.take(i as int));
            assert(s@ =~= hex_chars_of(bytes@.take(i + 1 as int)));
        }
        i = i + 1;
    }
    proof {
        assert(bytes@.take(i as int) =~= bytes@);
    }
    s
}

/// The position of the last occurrence of `c` in `s`, or `-1` if `s` does
/// not contain `c`.
pub open spec fn last_index_of(s: Seq<char>, c: char) -> int
    decreases s.len(),
{
    if s.len() == 0 {
        -1
    } else if s.last() == c {
        s.len() - 1
    } else {
        last_index_of(s.drop_last(), c)
    }
}

/// The asset name carried by a storage path: the part of the last path
/// component before its extension. A single leading dot does not start an
/// extension, so a component without a later dot is returned whole.
pub open spec fn asset_name_of(path: Seq<char>) -> Seq<char> {
    let name = path.subrange(last_index_of(path, '/') + 1, path.len() as int);
    let d = last_index_of(name, '.');
    if d >= 1 {
        name.take(d)
    } else {
        name
    }
}

/// Finds asset's name for given path.
pub fn path_to_asset_name(path: &str) -> (r: String)
    requires
        path@.len() > 0,
        path@.last() != '/',
    ensures
        r@ == asset_name_of(path@),
{
    let n = path.unicode_len();
    let mut start: usize = 0;
    let mut i: usize = 0;
    while i < n
        invariant
            i <= n,
            n == path@.len(),
            start <= i,
            start as int == last_index_of(path@.take(i as int), '/') + 1,
        decreases n - i,
    {
        let c = path.get_char(i);
        proof {
            assert(path@.take(i + 1 as int).drop_last() =~= path@.take(i as int));
            assert(path@.take(i + 1 as int).last() == path@[i as int]);
        }
        if c == '/' {
            start = i + 1;
        }
        i = i + 1;
    }
    proof {
        assert(path@.take(n as int) =~= path@);
    }
    let ghost name = path@.subrange(start as int, n as int);
    let mut dot: usize = start;
    let mut j: usize = start;
    while j < n
        invariant
            start <= j <= n,
            n == path@.len(),
            start <= dot,
            dot <= j || dot == start,
            name == path@.subrange(start as int, n as int),
            (dot > start) <==> last_index_of(name.take(j - start), '.') >= 1,
            dot > start ==> dot < n && dot - start == last_index_of(name.take(j - start), '.'),
        decreases n - j,
    {
        let c = path.get_char(j);
        proof {
            assert(name.take(j - start + 1).drop_last() =~= name.take(j - start));
            assert(name.take(j - start + 1).last() == path@[j as int]);
        }
        if c == '.' && j > start {
            dot = j;
        }
        j = j + 1;
    }
    proof {
        assert(name.take(n - start) =~= name);
    }
    if dot > start {
        let r = path.substring_char(start, dot);
        proof {
            assert(r@ =~= asset_name_of(path@));
        }
        String::from_str(r)
    } else {
        let r = path.substring_char(start, n);
        proof {
            assert(r@ =~= asset_name_of(path@));
        }
        String::from_str(r)
    }
}

} // verus!
