use vstd::prelude::*;

verus! {

use vstd::string::StrSliceExecFns;
use vstd::string::StringExecFns;

/// Lower-case hex character for one nibble.
pub open spec fn hex_char(n: u8) -> char {
    if n == 0 {
        '0'
    } else if n == 1 {
        '1'
    } else if n == 2 {
        '2'
    } else if n == 3 {
        '3'
    } else if n == 4 {
        '4'
    } else if n == 5 {
        '5'
    } else if n == 6 {
        '6'
    } else if n == 7 {
        '7'
    } else if n == 8 {
        '8'
    } else if n == 9 {
        '9'
    } else if n == 10 {
        'a'
    } else if n == 11 {
        'b'
    } else if n == 12 {
        'c'
    } else if n == 13 {
        'd'
    } else if n == 14 {
        'e'
    } else {
        'f'
    }
}

/// Nibble value of a lower-case hex character; 16 marks a character
/// that is not a lower-case hex digit.
pub open spec fn hex_val(c: char) -> u8 {
    if c == '0' {
        0
    } else if c == '1' {
        1
    } else if c == '2' {
        2
    } else if c == '3' {
        3
    } else if c == '4' {
        4
    } else if c == '5' {
        5
    } else if c == '6' {
        6
    } else if c == '7' {
        7
    } else if c == '8' {
        8
    } else if c == '9' {
        9
    } else if c == 'a' {
        10
    } else if c == 'b' {
        11
    } else if c == 'c' {
        12
    } else if c == 'd' {
        13
    } else if c == 'e' {
        14
    } else if c == 'f' {
        15
    } else {
        16
    }
}

pub open spec fn is_lower_hex_char(c: char) -> bool {
    hex_val(c) < 16
}

pub open spec fn is_lower_hex_seq(s: Seq<char>) -> bool {
    forall|i: int| 0 <= i < s.len() ==> is_lower_hex_char(#[trigger] s[i])
}

/// Lower-case hex rendering of a byte sequence, two characters per byte.
pub open spec fn hex_of(b: Seq<u8>) -> Seq<char> {
    Seq::new(
        2 * b.len(),
        |i: int|
            if i % 2 == 0 {
                hex_char(b[i / 2] / 16)
            } else {
                hex_char(b[i / 2] % 16)
            },
    )
}

pub proof fn lemma_hex_char_val(n: u8)
    requires
        n < 16,
    ensures
        hex_val(hex_char(n)) == n,
{
}

pub proof fn lemma_hex_of_is_lower(b: Seq<u8>)
    ensures
        is_lower_hex_seq(hex_of(b)),
        hex_of(b).len() == 2 * b.len(),
{
    assert forall|i: int| 0 <= i < hex_of(b).len() implies is_lower_hex_char(#[trigger] hex_of(b)[i]) by {
        let x = b[i / 2];
        assert(x / 16 < 16 && x % 16 < 16);
    }
}

/// Two byte sequences with the same hex rendering are equal.
pub proof fn lemma_hex_of_injective(a: Seq<u8>, b: Seq<u8>)
    requires
        hex_of(a) == hex_of(b),
    ensures
        a == b,
{
    assert(hex_of(a).len() == 2 * a.len());
    assert(hex_of(b).len() == 2 * b.len());
    assert(hex_of(a).len() == hex_of(b).len());
    assert(a.len() == b.len());
    assert forall|i: int| 0 <= i < a.len() implies a[i] == b[i] by {
        assert((2 * i) / 2 == i && (2 * i + 1) / 2 == i);
        assert((2 * i) % 2 == 0 && (2 * i + 1) % 2 == 1);
        assert(hex_of(a)[2 * i] == hex_char(a[i] / 16));
        assert(hex_of(b)[2 * i] == hex_char(b[i] / 16));
        assert(hex_of(a)[2 * i + 1] == hex_char(a[i] % 16));
        assert(hex_of(b)[2 * i + 1] == hex_char(b[i] % 16));
        assert(hex_of(a)[2 * i] == hex_of(b)[2 * i]);
        assert(hex_of(a)[2 * i + 1] == hex_of(b)[2 * i + 1]);
        lemma_hex_char_val(a[i] / 16);
        lemma_hex_char_val(a[i] % 16);
        lemma_hex_char_val(b[i] / 16);
        lemma_hex_char_val(b[i] % 16);
        assert(hex_char(a[i] / 16) == hex_char(b[i] / 16));
        assert(hex_char(a[i] % 16) == hex_char(b[i] % 16));
        assert(a[i] / 16 == b[i] / 16 && a[i] % 16 == b[i] % 16);
        assert(a[i] == 16 * (a[i] / 16) + a[i] % 16);
        assert(b[i] == 16 * (b[i] / 16) + b[i] % 16);
    }
    assert(a =~= b);
}

fn push_hex_digit(s: &mut String, n: u8)
    requires
        n < 16,
    ensures
        final(s)@ == old(s)@.push(hex_char(n)),
{
    if n == 0 {
        proof { reveal_strlit("0"); }
        s.append("0");
    } else if n == 1 {
        proof { reveal_strlit("1"); }
        s.append("1");
    } else if n == 2 {
        proof { reveal_strlit("2"); }
        s.append("2");
    } else if n == 3 {
        proof { reveal_strlit("3"); }
        s.append("3");
    } else if n == 4 {
        proof { reveal_strlit("4"); }
        s.append("4");
    } else if n == 5 {
        proof { reveal_strlit("5"); }
        s.append("5");
    } else if n == 6 {
        proof { reveal_strlit("6"); }
        s.append("6");
    } else if n == 7 {
        proof { reveal_strlit("7"); }
        s.append("7");
    } else if n == 8 {
        proof { reveal_strlit("8"); }
        s.append("8");
    } else if n == 9 {
        proof { reveal_strlit("9"); }
        s.append("9");
    } else if n == 10 {
        proof { reveal_strlit("a"); }
        s.append("a");
    } else if n == 11 {
        proof { reveal_strlit("b"); }
        s.append("b");
    } else if n == 12 {
        proof { reveal_strlit("c"); }
        s.append("c");
    } else if n == 13 {
        proof { reveal_strlit("d"); }
        s.append("d");
    } else if n == 14 {
        proof { reveal_strlit("e"); }
        s.append("e");
    } else {
        proof { reveal_strlit("f"); }
        s.append("f");
    }
    assert(s@ =~= old(s)@.push(hex_char(n)));
}

/// Lower-case hex encoding of a byte vector.
pub fn hex_encode(bytes: &Vec<u8>) -> (r: String)
    ensures
        r@ == hex_of(bytes@),
{
    let mut s = String::new();
    let mut i: usize = 0;
    while i < bytes.len()
        invariant
            i <= bytes.len(),
            s@ == hex_of(bytes@.take(i as int)),
        decreases bytes.len() - i,
    {
        let b = bytes[i];
        push_hex_digit(&mut s, b / 16);
        push_hex_digit(&mut s, b % 16);
        proof {
            let t0 = bytes@.take(i as int);
            let t1 = bytes@.take(i + 1);
            assert(hex_of(t1) =~= hex_of(t0).push(hex_char(b / 16)).push(hex_char(b % 16))) by {
                assert forall|j: int| 0 <= j < hex_of(t1).len() implies
                    hex_of(t1)[j] == hex_of(t0).push(hex_char(b / 16)).push(hex_char(b % 16))[j] by {
                    if j < 2 * i {
                        assert(t1[j / 2] == t0[j / 2]);
                    } else {
                        assert(j / 2 == i as int);
                        assert(t1[i as int] == b);
                    }
                }
            }
        }
        i = i + 1;
    }
    proof {
        assert(bytes@.take(bytes@.len() as int) =~= bytes@);
    }
    s
}

/// Executable form of `hex_char`.
pub fn hex_char_exec(n: u8) -> (r: char)
    requires
        n < 16,
    ensures
        r == hex_char(n),
{
    if n == 0 {
        '0'
    } else if n == 1 {
        '1'
    } else if n == 2 {
        '2'
    } else if n == 3 {
        '3'
    } else if n == 4 {
        '4'
    } else if n == 5 {
        '5'
    } else if n == 6 {
        '6'
    } else if n == 7 {
        '7'
    } else if n == 8 {
        '8'
    } else if n == 9 {
        '9'
    } else if n == 10 {
        'a'
    } else if n == 11 {
        'b'
    } else if n == 12 {
        'c'
    } else if n == 13 {
        'd'
    } else if n == 14 {
        'e'
    } else {
        'f'
    }
}

pub fn hex_val_exec(c: char) -> (r: u8)
    ensures
        r == hex_val(c),
{
    if c == '0' {
        0
    } else if c == '1' {
        1
    } else if c == '2' {
        2
    } else if c == '3' {
        3
    } else if c == '4' {
        4
    } else if c == '5' {
        5
    } else if c == '6' {
        6
    } else if c == '7' {
        7
    } else if c == '8' {
        8
    } else if c == '9' {
        9
    } else if c == 'a' {
        10
    } else if c == 'b' {
        11
    } else if c == 'c' {
        12
    } else if c == 'd' {
        13
    } else if c == 'e' {
        14
    } else if c == 'f' {
        15
    } else {
        16
    }
}

/// Decode a lower-case hex string; `None` when the length is odd or a
/// character is not a lower-case hex digit.
pub fn hex_decode(s: &str) -> (r: Option<Vec<u8>>)
    ensures
        r is Some <==> (s@.len() % 2 == 0 && is_lower_hex_seq(s@)),
        r matches Some(v) ==> hex_of(v@) == s@,
{
    let n = s.unicode_len();
    if n % 2 != 0 {
        return None;
    }
    let mut v: Vec<u8> = Vec::new();
    let mut i: usize = 0;
    while i < n / 2
        invariant
            s@.len() == n,
            n % 2 == 0,
            i <= n / 2,
            v@.len() == i,
            hex_of(v@) == s@.take(2 * i),
            forall|j: int| 0 <= j < 2 * i ==> is_lower_hex_char(#[trigger] s@[j]),
        decreases n / 2 - i,
    {
        let c1 = s.get_char(2 * i);
        let c2 = s.get_char(2 * i + 1);
        let hi = hex_val_exec(c1);
        let lo = hex_val_exec(c2);
        if hi == 16 || lo == 16 {
            return None;
        }
        let b = hi * 16 + lo;
        v.push(b);
        proof {
            assert(b / 16 == hi && b % 16 == lo);
            let prev = v@.drop_last();
            let t0 = s@.take(2 * i);
            let t1 = s@.take(2 * (i + 1));
            assert(hex_of(prev) == t0);
            assert(hex_of(v@) =~= t1) by {
                assert forall|j: int| 0 <= j < hex_of(v@).len() implies hex_of(v@)[j] == t1[j] by {
                    if j < 2 * i {
                        assert(v@[j / 2] == prev[j / 2]);
                        assert(hex_of(v@)[j] == hex_of(prev)[j]);
                        assert(t1[j] == t0[j]);
                    } else {
                        assert(j / 2 == i as int);
                        assert(v@[i as int] == b);
                    }
                }
            }
        }
        i = i + 1;
    }
    proof {
        assert(s@.take(2 * ((n / 2) as int)) =~= s@);
    }
    Some(v)
}

} // verus!
