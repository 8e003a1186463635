//! Bytes as text in the standard base64 alphabet.

use base64::Engine;
use vstd::prelude::*;

verus! {

/// The character for six bits.
pub open spec fn sextet(n: int) -> char {
    if n < 26 {
        ((65 + n) as u32) as char
    } else if n < 52 {
        ((71 + n) as u32) as char
    } else if n < 62 {
        ((n - 4) as u32) as char
    } else if n == 62 {
        '+'
    } else {
        '/'
    }
}

/// The text of at most three bytes: four characters, with `=` for those that
/// no byte reaches.
pub open spec fn quad(b: Seq<u8>) -> Seq<char> {
    let x = b[0] as int;
    let y = if b.len() > 1 {
        b[1] as int
    } else {
        0
    };
    let z = if b.len() > 2 {
        b[2] as int
    } else {
        0
    };
    seq![
        sextet(x / 4),
        sextet((x % 4) * 16 + y / 16),
        if b.len() > 1 {
            sextet((y % 16) * 4 + z / 64)
        } else {
            '='
        },
        if b.len() > 2 {
            sextet(z % 64)
        } else {
            '='
        },
    ]
}

/// The base64 text of bytes: three by three.
pub open spec fn base64_of(bytes: Seq<u8>) -> Seq<char>
    decreases bytes.len(),
{
    if bytes.len() == 0 {
        Seq::empty()
    } else if bytes.len() <= 3 {
        quad(bytes)
    } else {
        quad(bytes.take(3)) + base64_of(bytes.skip(3))
    }
}

/// The bytes whose base64 text `s` is, where there are any.
pub open spec fn decoded(s: Seq<char>) -> Option<Seq<u8>> {
    if exists|b: Seq<u8>| base64_of(b) == s {
        Some(choose|b: Seq<u8>| base64_of(b) == s)
    } else {
        None
    }
}

proof fn sextet_injective(m: int, n: int)
    requires
        0 <= m < 64,
        0 <= n < 64,
        sextet(m) == sextet(n),
    ensures
        m == n,
{
}

proof fn sextet_is_no_padding(n: int)
    requires
        0 <= n < 64,
    ensures
        sextet(n) != '=',
{
}

proof fn quad_injective(a: Seq<u8>, b: Seq<u8>)
    requires
        1 <= a.len() <= 3,
        1 <= b.len() <= 3,
        quad(a) == quad(b),
    ensures
        a == b,
{
    let p = quad(a);
    let q = quad(b);
    assert(p[0] == q[0] && p[1] == q[1] && p[2] == q[2] && p[3] == q[3]);
    let x = a[0] as int;
    let u = b[0] as int;
    let y = if a.len() > 1 {
        a[1] as int
    } else {
        0
    };
    let v = if b.len() > 1 {
        b[1] as int
    } else {
        0
    };
    let z = if a.len() > 2 {
        a[2] as int
    } else {
        0
    };
    let w = if b.len() > 2 {
        b[2] as int
    } else {
        0
    };
    sextet_is_no_padding((y % 16) * 4 + z / 64);
    sextet_is_no_padding((v % 16) * 4 + w / 64);
    sextet_is_no_padding(z % 64);
    sextet_is_no_padding(w % 64);
    assert(a.len() == b.len());
    sextet_injective(x / 4, u / 4);
    sextet_injective((x % 4) * 16 + y / 16, (u % 4) * 16 + v / 16);
    assert(x == u);
    assert(y / 16 == v / 16);
    if a.len() > 1 {
        sextet_injective((y % 16) * 4 + z / 64, (v % 16) * 4 + w / 64);
        assert(y == v);
    }
    if a.len() > 2 {
        sextet_injective(z % 64, w % 64);
        assert(z == w);
    }
    assert(a =~= b);
}

proof fn base64_len(bytes: Seq<u8>)
    ensures
        base64_of(bytes).len() == 4 * ((bytes.len() + 2) / 3),
    decreases bytes.len(),
{
    if bytes.len() > 3 {
        base64_len(bytes.skip(3));
    }
}

/// Different bytes have different texts.
pub proof fn base64_is_injective(a: Seq<u8>, b: Seq<u8>)
    requires
        base64_of(a) == base64_of(b),
    ensures
        a == b,
    decreases a.len(),
{
    base64_len(a);
    base64_len(b);
    if a.len() == 0 {
        assert(a =~= b);
    } else {
        let s = base64_of(a);
        let head_a = if a.len() <= 3 {
            a
        } else {
            a.take(3)
        };
        let head_b = if b.len() <= 3 {
            b
        } else {
            b.take(3)
        };
        assert(s.take(4) =~= quad(head_a));
        assert(s.take(4) =~= quad(head_b));
        quad_injective(head_a, head_b);
        if a.len() > 3 {
            assert(s.skip(4) =~= base64_of(a.skip(3)));
            assert(b.len() > 3);
            assert(s.skip(4) =~= base64_of(b.skip(3)));
            base64_is_injective(a.skip(3), b.skip(3));
            assert(a =~= a.take(3) + a.skip(3));
            assert(b =~= b.take(3) + b.skip(3));
        } else {
            assert(b.len() <= 3);
        }
    }
}

/// Decoding gives back what was encoded.
pub proof fn decoding_undoes_encoding(bytes: Seq<u8>)
    ensures
        decoded(base64_of(bytes)) == Some(bytes),
{
    let s = base64_of(bytes);
    assert(exists|b: Seq<u8>| base64_of(b) == s);
    let b = choose|b: Seq<u8>| base64_of(b) == s;
    base64_is_injective(b, bytes);
}

/// `base64::engine::general_purpose::STANDARD.decode`: the engine of the
/// standard alphabet, which asks for canonical padding and no stray bits, so
/// that it accepts exactly the texts of bytes, and returns those bytes.
#[verifier::external_body]
fn standard_decode(s: &str) -> (r: Option<Vec<u8>>)
    ensures
        match r {
            Some(bytes) => base64_of(bytes@) == s@,
            None => forall|b: Seq<u8>| #[trigger] base64_of(b) != s@,
        },
{
    base64::engine::general_purpose::STANDARD.decode(s).ok()
}

/// `base64::engine::general_purpose::STANDARD.encode`: the text of the bytes in
/// the standard alphabet, padded.
#[verifier::external_body]
fn standard_encode(bytes: &[u8]) -> (r: String)
    ensures
        r@ == base64_of(bytes@),
{
    base64::engine::general_purpose::STANDARD.encode(bytes)
}

pub open spec fn opt_bytes(r: Option<Vec<u8>>) -> Option<Seq<u8>> {
    match r {
        Some(bytes) => Some(bytes@),
        None => None,
    }
}

pub fn decode(s: &str) -> (r: Option<Vec<u8>>)
    ensures
        opt_bytes(r) == decoded(s@),
{
    let r = standard_decode(s);
    proof {
        if r is Some {
            decoding_undoes_encoding((r->0)@);
        }
    }
    r
}

pub fn encode(bytes: &[u8]) -> (r: String)
    ensures
        r@ == base64_of(bytes@),
{
    standard_encode(bytes)
}

/// The text of bytes has four characters for every three bytes begun, all of them
/// ASCII.
pub proof fn base64_is_plain(bytes: Seq<u8>)
    ensures
        base64_of(bytes).len() == (bytes.len() + 2) / 3 * 4,
        forall|i: int|
            0 <= i < base64_of(bytes).len() ==> (#[trigger] base64_of(bytes)[i]) as u32 <= 0x7f,
    decreases bytes.len(),
{
    if bytes.len() > 3 {
        let rest = bytes.skip(3);
        base64_is_plain(rest);
        quad_is_plain(bytes.take(3));
        let s = base64_of(bytes);
        assert forall|i: int| 0 <= i < s.len() implies (#[trigger] s[i]) as u32 <= 0x7f by {
            if i < 4 {
                assert(s[i] == quad(bytes.take(3))[i]);
            } else {
                assert(s[i] == base64_of(rest)[i - 4]);
            }
        }
    } else if bytes.len() > 0 {
        quad_is_plain(bytes);
    }
}

proof fn quad_is_plain(b: Seq<u8>)
    requires
        b.len() > 0,
    ensures
        quad(b).len() == 4,
        forall|i: int| 0 <= i < 4 ==> (#[trigger] quad(b)[i]) as u32 <= 0x7f,
{
    let x = b[0] as int;
    let y = if b.len() > 1 {
        b[1] as int
    } else {
        0
    };
    let z = if b.len() > 2 {
        b[2] as int
    } else {
        0
    };
    sextet_is_plain(x / 4);
    sextet_is_plain((x % 4) * 16 + y / 16);
    sextet_is_plain((y % 16) * 4 + z / 64);
    sextet_is_plain(z % 64);
}

proof fn sextet_is_plain(n: int)
    requires
        0 <= n < 64,
    ensures
        sextet(n) as u32 <= 0x7f,
{
    if n < 26 {
        assert(((65 + n) as u32) as char as u32 == 65 + n);
    } else if n < 52 {
        assert(((71 + n) as u32) as char as u32 == 71 + n);
    } else if n < 62 {
        assert(((n - 4) as u32) as char as u32 == n - 4);
    }
}

/// Three bytes and what follows them are written one behind the other.
pub proof fn base64_goes_three_by_three(a: Seq<u8>, b: Seq<u8>)
    requires
        a.len() % 3 == 0,
    ensures
        base64_of(a + b) == base64_of(a) + base64_of(b),
    decreases a.len(),
{
    if a.len() == 0 {
        assert(a + b =~= b);
        assert(base64_of(a) + base64_of(b) =~= base64_of(b));
    } else if a.len() == 3 {
        assert((a + b).take(3) =~= a);
        assert((a + b).skip(3) =~= b);
        if b.len() == 0 {
            assert(a + b =~= a);
            assert(base64_of(a) + base64_of(b) =~= base64_of(a));
        }
    } else {
        let rest = a.skip(3);
        base64_goes_three_by_three(rest, b);
        assert((a + b).take(3) =~= a.take(3));
        assert((a + b).skip(3) =~= rest + b);
        assert(base64_of(a + b) =~= base64_of(a) + base64_of(b));
    }
}

/// The characters of base64 are the capital letters, the small letters, the
/// digits, plus and slash, in this order.
pub proof fn six_bits_have_their_character(n: int)
    requires
        0 <= n < 64,
    ensures
        n < 26 ==> sextet(n) as u32 == 'A' as u32 + n,
        26 <= n < 52 ==> sextet(n) as u32 == 'a' as u32 + (n - 26),
        52 <= n < 62 ==> sextet(n) as u32 == '0' as u32 + (n - 52),
        n == 62 ==> sextet(n) == '+',
        n == 63 ==> sextet(n) == '/',
{
    if n < 26 {
        assert(((65 + n) as u32) as char as u32 == 65 + n);
    } else if n < 52 {
        assert(((71 + n) as u32) as char as u32 == 71 + n);
    } else if n < 62 {
        assert(((n - 4) as u32) as char as u32 == n - 4);
    }
}

} // verus!
