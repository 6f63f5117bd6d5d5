//! `0x`-prefixed hex text of byte strings.

use vstd::prelude::*;
use vstd::string::*;

verus! {

/// The lowercase hex digit of a value below 16.
pub open spec fn hex_digit(n: nat) -> char {
    if n < 10 {
        ((n + 48) as u8) as char
    } else {
        ((n + 87) as u8) as char
    }
}

/// The value of a hex digit, of either case.
pub open spec fn digit_value(c: char) -> Option<nat> {
    if '0' <= c && c <= '9' {
        Some((c as nat - 48) as nat)
    } else if 'a' <= c && c <= 'f' {
        Some((c as nat - 87) as nat)
    } else if 'A' <= c && c <= 'F' {
        Some((c as nat - 55) as nat)
    } else {
        None
    }
}

/// Two lowercase hex digits per byte.
pub open spec fn hex_chars(b: Seq<u8>) -> Seq<char>
    decreases b.len(),
{
    if b.len() == 0 {
        Seq::empty()
    } else {
        seq![hex_digit(b[0] as nat / 16), hex_digit(b[0] as nat % 16)] + hex_chars(b.drop_first())
    }
}

/// `0x` followed by the hex digits of the bytes.
pub open spec fn hex_string(b: Seq<u8>) -> Seq<char> {
    seq!['0', 'x'] + hex_chars(b)
}

/// The bytes that a sequence of hex digit pairs stands for.
pub open spec fn parse_hex_chars(s: Seq<char>) -> Option<Seq<u8>>
    decreases s.len(),
{
    if s.len() == 0 {
        Some(Seq::empty())
    } else if s.len() == 1 {
        None
    } else {
        match (digit_value(s[0]), digit_value(s[1])) {
            (Some(h), Some(l)) => match parse_hex_chars(s.subrange(2, s.len() as int)) {
                Some(rest) => Some(seq![(h * 16 + l) as u8] + rest),
                None => None,
            },
            _ => None,
        }
    }
}

/// The bytes of a `0x`-prefixed hex string.
pub open spec fn parse_hex(s: Seq<char>) -> Option<Seq<u8>> {
    if s.len() >= 2 && s[0] == '0' && s[1] == 'x' {
        parse_hex_chars(s.subrange(2, s.len() as int))
    } else {
        None
    }
}

proof fn lemma_digit_round_trip(n: nat)
    requires
        n < 16,
    ensures
        digit_value(hex_digit(n)) == Some(n),
{
}

pub proof fn lemma_hex_round_trip(b: Seq<u8>)
    ensures
        parse_hex(hex_string(b)) == Some(b),
{
    lemma_hex_chars_round_trip(b);
    assert(hex_string(b).subrange(2, hex_string(b).len() as int) =~= hex_chars(b));
}

proof fn lemma_hex_chars_len(b: Seq<u8>)
    ensures
        hex_chars(b).len() == 2 * b.len(),
    decreases b.len(),
{
    if b.len() > 0 {
        lemma_hex_chars_len(b.drop_first());
    }
}

proof fn lemma_hex_chars_round_trip(b: Seq<u8>)
    ensures
        parse_hex_chars(hex_chars(b)) == Some(b),
    decreases b.len(),
{
    if b.len() > 0 {
        let s = hex_chars(b);
        lemma_hex_chars_len(b);
        lemma_hex_chars_round_trip(b.drop_first());
        lemma_digit_round_trip(b[0] as nat / 16);
        lemma_digit_round_trip(b[0] as nat % 16);
        assert(s.subrange(2, s.len() as int) =~= hex_chars(b.drop_first()));
        assert(s[0] == hex_digit(b[0] as nat / 16));
        assert(s[1] == hex_digit(b[0] as nat % 16));
        assert(((b[0] as nat / 16) * 16 + b[0] as nat % 16) as u8 == b[0]);
        assert(seq![b[0]] + b.drop_first() =~= b);
    }
}

fn digit_str(n: u8) -> (r: &'static str)
    requires
        n < 16,
    ensures
        r@ == seq![hex_digit(n as nat)],
{
    proof {
        reveal_strlit("0");
        reveal_strlit("1");
        reveal_strlit("2");
        reveal_strlit("3");
        reveal_strlit("4");
        reveal_strlit("5");
        reveal_strlit("6");
        reveal_strlit("7");
        reveal_strlit("8");
        reveal_strlit("9");
        reveal_strlit("a");
        reveal_strlit("b");
        reveal_strlit("c");
        reveal_strlit("d");
        reveal_strlit("e");
        reveal_strlit("f");
    }
    let r = match n {
        0 => "0",
        1 => "1",
        2 => "2",
        3 => "3",
        4 => "4",
        5 => "5",
        6 => "6",
        7 => "7",
        8 => "8",
        9 => "9",
        10 => "a",
        11 => "b",
        12 => "c",
        13 => "d",
        14 => "e",
        _ => "f",
    };
    assert(r@ =~= seq![hex_digit(n as nat)]);
    r
}

/// The `0x`-prefixed lowercase hex text of a byte string.
pub fn to_hex_string(b: &Vec<u8>) -> (r: String)
    ensures
        r@ == hex_string(b@),
{
    proof {
        reveal_strlit("0x");
    }
    let mut s = String::from_str("0x");
    let mut i: usize = 0;
    assert(b@.subrange(0, 0) =~= Seq::<u8>::empty());
    assert(s@ =~= seq!['0', 'x'] + hex_chars(b@.subrange(0, 0)));
    while i < b.len()
        invariant
            i <= b@.len(),
            s@ == seq!['0', 'x'] + hex_chars(b@.subrange(0, i as int)),
        decreases b@.len() - i,
    {
        let x = b[i];
        s.append(digit_str(x / 16));
        s.append(digit_str(x % 16));
        proof {
            lemma_hex_chars_push(b@.subrange(0, i as int), x);
            assert(b@.subrange(0, i + 1) =~= b@.subrange(0, i as int).push(x));
        }
        i = i + 1;
    }
    assert(b@.subrange(0, b@.len() as int) =~= b@);
    s
}

proof fn lemma_hex_chars_push(b: Seq<u8>, x: u8)
    ensures
        hex_chars(b.push(x)) == hex_chars(b) + seq![hex_digit(x as nat / 16), hex_digit(x as nat % 16)],
    decreases b.len(),
{
    if b.len() == 0 {
        assert(b.push(x).drop_first() =~= Seq::<u8>::empty());
        assert(hex_chars(b.push(x).drop_first()) == Seq::<char>::empty());
        assert(b.push(x)[0] == x);
        assert(hex_chars(b.push(x)) =~= seq![hex_digit(x as nat / 16), hex_digit(x as nat % 16)]);
    } else {
        assert(b.push(x).drop_first() =~= b.drop_first().push(x));
        lemma_hex_chars_push(b.drop_first(), x);
        assert(hex_chars(b.push(x)) =~= hex_chars(b) + seq![hex_digit(x as nat / 16), hex_digit(x as nat % 16)]);
    }
}

fn char_digit(c: char) -> (r: Option<u8>)
    ensures
        match digit_value(c) {
            Some(v) => r == Some(v as u8),
            None => r is None,
        },
{
    if '0' <= c && c <= '9' {
        Some((c as u32 - 48) as u8)
    } else if 'a' <= c && c <= 'f' {
        Some((c as u32 - 87) as u8)
    } else if 'A' <= c && c <= 'F' {
        Some((c as u32 - 55) as u8)
    } else {
        None
    }
}

/// The bytes of a `0x`-prefixed hex string; None where the prefix is
/// missing, a digit is not a hex digit, or the digits are odd in number.
pub fn from_hex_string(s: &str) -> (r: Option<Vec<u8>>)
    ensures
        match parse_hex(s@) {
            Some(b) => r matches Some(v) && v@ == b,
            None => r is None,
        },
{
    let n = s.unicode_len();
    if n < 2 || s.get_char(0) != '0' || s.get_char(1) != 'x' {
        return None;
    }
    let ghost t = s@.subrange(2, n as int);
    let mut out: Vec<u8> = Vec::new();
    let mut i: usize = 2;
    proof {
        assert(t.subrange(0, t.len() as int) =~= t);
        assert(out@ + Seq::<u8>::empty() =~= out@);
    }
    while i < n
        invariant
            2 <= i <= n,
            n == s@.len(),
            t == s@.subrange(2, n as int),
            (i - 2) % 2 == 0,
            parse_hex_chars(t) == match parse_hex_chars(s@.subrange(i as int, n as int)) {
                Some(rest) => Some(out@ + rest),
                None => None,
            },
        decreases n - i,
    {
        let ghost u = s@.subrange(i as int, n as int);
        if i + 1 >= n {
            assert(u.len() == 1);
            return None;
        }
        let h = match char_digit(s.get_char(i)) {
            Some(h) => h,
            None => {
                return None;
            },
        };
        let l = match char_digit(s.get_char(i + 1)) {
            Some(l) => l,
            None => {
                return None;
            },
        };
        proof {
            assert(u.subrange(2, u.len() as int) =~= s@.subrange(i + 2, n as int));
            match parse_hex_chars(s@.subrange(i + 2, n as int)) {
                Some(rest) => {
                    assert(out@ + (seq![(h * 16 + l) as u8] + rest) =~= out@.push((h * 16 + l) as u8) + rest);
                },
                None => {},
            }
        }
        out.push(h * 16 + l);
        i = i + 2;
    }
    proof {
        assert(s@.subrange(n as int, n as int) =~= Seq::<char>::empty());
        assert(out@ + Seq::<u8>::empty() =~= out@);
    }
    Some(out)
}

} // verus!
