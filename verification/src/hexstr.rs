//! Lowercase hexadecimal rendering of byte strings, used for storage
//! addresses, nonces and payload digests.

use vstd::prelude::*;

verus! {

/// The sixteen lowercase hexadecimal digits, indexed by value.
pub open spec fn spec_hex_digits() -> Seq<char> {
    seq!['0', '1', '2', '3', '4', '5', '6', '7', '8', '9', 'a', 'b', 'c', 'd', 'e', 'f']
}

/// The two-digit lowercase hexadecimal form of one byte, most significant
/// digit first.
pub open spec fn spec_hex_byte(b: u8) -> Seq<char> {
    seq![spec_hex_digits()[(b >> 4) as int], spec_hex_digits()[(b & 0x0f) as int]]
}

/// The lowercase hexadecimal form of a byte sequence: two digits per byte.
pub open spec fn spec_hex(data: Seq<u8>) -> Seq<char>
    decreases data.len(),
{
    if data.len() == 0 {
        Seq::empty()
    } else {
        spec_hex_byte(data.first()) + spec_hex(data.drop_first())
    }
}

fn hex_digit_char(n: u8) -> (c: char)
    requires
        n < 16,
    ensures
        c == spec_hex_digits()[n as int],
{
    match n {
        0 => '0',
        1 => '1',
        2 => '2',
        3 => '3',
        4 => '4',
        5 => '5',
        6 => '6',
        7 => '7',
        8 => '8',
        9 => '9',
        10 => 'a',
        11 => 'b',
        12 => 'c',
        13 => 'd',
        14 => 'e',
        _ => 'f',
    }
}

/// Relies on String::push: appends one character at the end of the string.
#[verifier::external_body]
fn string_push(s: &mut String, c: char)
    ensures
        final(s)@ == old(s)@.push(c),
{
    s.push(c);
}

/// Renders a byte string as lowercase hexadecimal, two digits per byte.
pub fn to_hex_string(bytes: &Vec<u8>) -> (r: String)
    ensures
        r@ == spec_hex(bytes@),
{
    let mut r = String::new();
    let n = bytes.len();
    let mut i: usize = 0;
    proof {
        assert(bytes@.skip(0) =~= bytes@);
    }
    while i < n
        invariant
            n == bytes@.len(),
            i <= n,
            spec_hex(bytes@) =~= r@ + spec_hex(bytes@.skip(i as int)),
        decreases n - i,
    {
        let b = bytes[i];
        assert((b >> 4) < 16 && (b & 0x0f) < 16) by (bit_vector);
        string_push(&mut r, hex_digit_char(b >> 4));
        string_push(&mut r, hex_digit_char(b & 0x0f));
        proof {
            assert(bytes@.skip(i as int).drop_first() =~= bytes@.skip(i + 1));
            assert(bytes@.skip(i as int).first() == bytes@[i as int]);
        }
        i = i + 1;
    }
    proof {
        assert(bytes@.skip(n as int) =~= Seq::<u8>::empty());
    }
    r
}

/// A hexadecimal rendering has two characters per byte.
pub proof fn lemma_spec_hex_len(data: Seq<u8>)
    ensures
        spec_hex(data).len() == 2 * data.len(),
    decreases data.len(),
{
    if data.len() > 0 {
        lemma_spec_hex_len(data.drop_first());
    }
}

proof fn lemma_hex_digit_val(x: u8)
    requires
        x < 16,
    ensures
        spec_hex_char_val(spec_hex_digits()[x as int]) == x,
{
}

/// Every hexadecimal rendering is a well-formed hexadecimal string: even
/// length, every character a lowercase digit.
pub proof fn lemma_spec_hex_is_hex_str(b: Seq<u8>)
    ensures
        spec_is_hex_str(spec_hex(b)),
    decreases b.len(),
{
    lemma_spec_hex_len(b);
    if b.len() == 0 {
    } else {
        lemma_spec_hex_is_hex_str(b.drop_first());
        lemma_spec_hex_len(b.drop_first());
        let x = b.first();
        assert((x >> 4) < 16 && (x & 0x0f) < 16) by (bit_vector);
        lemma_hex_digit_val(x >> 4);
        lemma_hex_digit_val(x & 0x0f);
        assert forall|i: int| 0 <= i < spec_hex(b).len() implies spec_hex_char_val(
            spec_hex(b)[i],
        ) >= 0 by {
            if i == 0 {
                assert(spec_hex(b)[0] == spec_hex_byte(x)[0]);
            } else if i == 1 {
                assert(spec_hex(b)[1] == spec_hex_byte(x)[1]);
            } else {
                assert(spec_hex(b)[i] == spec_hex(b.drop_first())[i - 2]);
            }
        }
    }
}

proof fn lemma_hex_digit_injective(x: u8, y: u8)
    requires
        x < 16,
        y < 16,
        spec_hex_digits()[x as int] == spec_hex_digits()[y as int],
    ensures
        x == y,
{
}

/// Hexadecimal rendering is injective: distinct byte strings render to
/// distinct strings.
pub proof fn lemma_spec_hex_injective(a: Seq<u8>, b: Seq<u8>)
    requires
        spec_hex(a) == spec_hex(b),
    ensures
        a == b,
    decreases a.len(),
{
    lemma_spec_hex_len(a);
    lemma_spec_hex_len(b);
    if a.len() == 0 {
        assert(a =~= b);
    } else {
        let ha = spec_hex_byte(a.first());
        let hb = spec_hex_byte(b.first());
        assert(spec_hex(a)[0] == ha[0] && spec_hex(a)[1] == ha[1]);
        assert(spec_hex(b)[0] == hb[0] && spec_hex(b)[1] == hb[1]);
        let xa = a.first();
        let xb = b.first();
        assert((xa >> 4) < 16 && (xa & 0x0f) < 16 && (xb >> 4) < 16 && (xb & 0x0f) < 16)
            by (bit_vector);
        lemma_hex_digit_injective(xa >> 4, xb >> 4);
        lemma_hex_digit_injective(xa & 0x0f, xb & 0x0f);
        assert(xa >> 4 == xb >> 4 && xa & 0x0f == xb & 0x0f ==> xa == xb) by (bit_vector);
        assert forall|t: int| 0 <= t < spec_hex(a.drop_first()).len() implies spec_hex(
            a.drop_first(),
        )[t] == spec_hex(b.drop_first())[t] by {
            assert(spec_hex(a)[t + 2] == spec_hex(a.drop_first())[t]);
            assert(spec_hex(b)[t + 2] == spec_hex(b.drop_first())[t]);
        }
        assert(spec_hex(a.drop_first()) =~= spec_hex(b.drop_first()));
        lemma_spec_hex_injective(a.drop_first(), b.drop_first());
        assert(a.first() == b.first());
        assert forall|t: int| 0 <= t < a.len() implies a[t] == b[t] by {
            if t == 0 {
                assert(a[0] == a.first() && b[0] == b.first());
            } else {
                assert(a.drop_first()[t - 1] == a[t]);
                assert(b.drop_first()[t - 1] == b[t]);
            }
        }
        assert(a =~= b);
    }
}

/// The numeric value of one lowercase hexadecimal digit, or -1 if the
/// character is not one.
pub open spec fn spec_hex_char_val(c: char) -> int {
    if c == '0' {
        0
    } else if c == '1' {
        1
    } else if c == '2' {
        2
    } else if c == '3' {
        3
    } else if c == '4' {
        4
    } else if c == '5' {
        5
    } else if c == '6' {
        6
    } else if c == '7' {
        7
    } else if c == '8' {
        8
    } else if c == '9' {
        9
    } else if c == 'a' {
        10
    } else if c == 'b' {
        11
    } else if c == 'c' {
        12
    } else if c == 'd' {
        13
    } else if c == 'e' {
        14
    } else if c == 'f' {
        15
    } else {
        -1
    }
}

/// A string is a well-formed lowercase hexadecimal rendering exactly when its
/// length is even and every character is a lowercase hexadecimal digit.
pub open spec fn spec_is_hex_str(s: Seq<char>) -> bool {
    s.len() % 2 == 0 && (forall|i: int| 0 <= i < s.len() ==> spec_hex_char_val(s[i]) >= 0)
}

fn hex_char_val(c: char) -> (r: Option<u8>)
    ensures
        match r {
            Some(v) => spec_hex_char_val(c) == v && v < 16,
            None => spec_hex_char_val(c) == -1,
        },
{
    match c {
        '0' => Some(0),
        '1' => Some(1),
        '2' => Some(2),
        '3' => Some(3),
        '4' => Some(4),
        '5' => Some(5),
        '6' => Some(6),
        '7' => Some(7),
        '8' => Some(8),
        '9' => Some(9),
        'a' => Some(10),
        'b' => Some(11),
        'c' => Some(12),
        'd' => Some(13),
        'e' => Some(14),
        'f' => Some(15),
        _ => None,
    }
}

proof fn lemma_hex_digit_inverse(c: char)
    requires
        spec_hex_char_val(c) >= 0,
    ensures
        0 <= spec_hex_char_val(c) < 16,
        spec_hex_digits()[spec_hex_char_val(c)] == c,
{
}

proof fn lemma_spec_hex_push(b: Seq<u8>, x: u8)
    ensures
        spec_hex(b.push(x)) == spec_hex(b) + spec_hex_byte(x),
    decreases b.len(),
{
    if b.len() == 0 {
        assert(b.push(x).first() == x);
        assert(b.push(x).drop_first() =~= Seq::<u8>::empty());
        assert(spec_hex(Seq::<u8>::empty()) =~= Seq::<char>::empty());
        assert(spec_hex(b.push(x)) =~= spec_hex(b) + spec_hex_byte(x));
    } else {
        assert(b.push(x).first() == b.first());
        assert(b.push(x).drop_first() =~= b.drop_first().push(x));
        lemma_spec_hex_push(b.drop_first(), x);
        assert(spec_hex(b.push(x)) =~= spec_hex(b) + spec_hex_byte(x));
    }
}

/// Parses a lowercase hexadecimal string back into the byte string it
/// renders; returns `None` exactly when the string is not such a rendering.
pub fn from_hex(s: &str) -> (r: Option<Vec<u8>>)
    ensures
        r matches Some(b) ==> spec_hex(b@) == s@,
        r is None <==> !spec_is_hex_str(s@),
{
    let n = s.unicode_len();
    if n % 2 != 0 {
        return None;
    }
    let mut b: Vec<u8> = Vec::new();
    let mut i: usize = 0;
    proof {
        assert(s@.take(0) =~= Seq::<char>::empty());
    }
    while i < n
        invariant
            i % 2 == 0,
            i <= n,
            n == s@.len(),
            n % 2 == 0,
            spec_hex(b@) =~= s@.take(i as int),
            forall|j: int| 0 <= j < i ==> spec_hex_char_val(s@[j]) >= 0,
        decreases n - i,
    {
        let c_hi = s.get_char(i);
        let c_lo = s.get_char(i + 1);
        let hi = match hex_char_val(c_hi) {
            Some(v) => v,
            None => {
                return None;
            },
        };
        let lo = match hex_char_val(c_lo) {
            Some(v) => v,
            None => {
                return None;
            },
        };
        let byte = hi * 16 + lo;
        proof {
            assert(hi < 16 && lo < 16 ==> (((hi * 16 + lo) as u8) >> 4) == hi && (((hi * 16
                + lo) as u8) & 0x0f) == lo) by (bit_vector);
            lemma_hex_digit_inverse(c_hi);
            lemma_hex_digit_inverse(c_lo);
            lemma_spec_hex_push(b@, byte);
            assert(spec_hex_byte(byte) =~= seq![c_hi, c_lo]);
            assert(s@.take(i as int) + seq![c_hi, c_lo] =~= s@.take(i + 2));
        }
        b.push(byte);
        i = i + 2;
    }
    proof {
        assert(s@.take(n as int) =~= s@);
    }
    Some(b)
}

} // verus!
