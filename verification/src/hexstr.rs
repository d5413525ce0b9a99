//! Decoding of the hex-encoded mapping keys named in a configuration.

use vstd::prelude::*;

use crate::errors::DigestError;

verus! {

pub open spec fn is_hex_digit(c: char) -> bool {
    ('0' <= c && c <= '9') || ('a' <= c && c <= 'f') || ('A' <= c && c <= 'F')
}

/// The numeric value of a hex digit character; non-digits clamp to 0.
pub open spec fn hex_val(c: char) -> nat {
    if '0' <= c && c <= '9' {
        (c as int - 48) as nat
    } else if 'a' <= c && c <= 'f' {
        (c as int - 87) as nat
    } else if 'A' <= c && c <= 'F' {
        (c as int - 55) as nat
    } else {
        0
    }
}

/// A configured key with any leading `0x` marker removed.
pub open spec fn strip_0x(s: Seq<char>) -> Seq<char> {
    if s.len() >= 2 && s[0] == '0' && s[1] == 'x' {
        s.subrange(2, s.len() as int)
    } else {
        s
    }
}

/// An even-length, all-hex-digit character sequence.
pub open spec fn is_hex_seq(s: Seq<char>) -> bool {
    s.len() % 2 == 0 && forall|i: int| 0 <= i < s.len() ==> is_hex_digit(#[trigger] s[i])
}

/// The bytes a hex digit sequence encodes, two digits to a byte.
pub open spec fn hex_bytes(s: Seq<char>) -> Seq<u8> {
    Seq::new(s.len() / 2, |i: int| (hex_val(s[2 * i]) * 16 + hex_val(s[2 * i + 1])) as u8)
}

/// Maps a hex digit character to its value; `None` on anything else.
fn hex_digit(c: char) -> (r: Option<u8>)
    ensures
        r is Some <==> is_hex_digit(c),
        r is Some ==> r.unwrap() == hex_val(c) && r.unwrap() < 16,
{
    let cv = c as u32;
    if 48 <= cv && cv <= 57 {
        Some((cv - 48) as u8)
    } else if 97 <= cv && cv <= 102 {
        Some((cv - 87) as u8)
    } else if 65 <= cv && cv <= 70 {
        Some((cv - 55) as u8)
    } else {
        None
    }
}

/// Decodes a configured hex key (with or without a `0x` marker) into bytes.
///
/// Succeeds exactly when, after the marker, the string has even length and
/// only hex digits; anything else is a `ConfigError` (a malformed
/// configuration value).
pub fn hex_decode(s: &str) -> (r: Result<Vec<u8>, DigestError>)
    ensures
        match r {
            Ok(b) => is_hex_seq(strip_0x(s@)) && b@ == hex_bytes(strip_0x(s@)),
            Err(e) => e == DigestError::ConfigError && !is_hex_seq(strip_0x(s@)),
        },
{
    let n = s.unicode_len();
    let start: usize = if n >= 2 && s.get_char(0) == '0' && s.get_char(1) == 'x' {
        2
    } else {
        0
    };
    let ghost st = strip_0x(s@);
    proof {
        if start == 2 {
            assert(st =~= s@.subrange(2, n as int));
        }
        assert(forall|i: int| 0 <= i < st.len() ==> st[i] == s@[i + start]);
    }
    if (n - start) % 2 != 0 {
        return Err(DigestError::ConfigError);
    }
    let half = (n - start) / 2;
    let mut out: Vec<u8> = Vec::new();
    let mut k: usize = 0;
    while k < half
        invariant
            k <= half,
            n == s@.len(),
            start == 0 || start == 2,
            start <= n,
            st == strip_0x(s@),
            st.len() == n - start,
            half == st.len() / 2,
            st.len() % 2 == 0,
            forall|i: int| 0 <= i < st.len() ==> st[i] == s@[i + start],
            out@.len() == k,
            forall|i: int| 0 <= i < 2 * k ==> is_hex_digit(#[trigger] st[i]),
            forall|i: int| 0 <= i < k ==> out@[i] == (hex_val(st[2 * i]) * 16 + hex_val(
                st[2 * i + 1],
            )) as u8,
        decreases half - k,
    {
        let c1 = s.get_char(start + 2 * k);
        let c2 = s.get_char(start + 2 * k + 1);
        let v1 = match hex_digit(c1) {
            Some(v) => v,
            None => {
                proof {
                    assert(st[2 * (k as int)] == s@[2 * (k as int) + start]);
                    assert(!is_hex_digit(st[2 * (k as int)]));
                }
                return Err(DigestError::ConfigError);
            },
        };
        let v2 = match hex_digit(c2) {
            Some(v) => v,
            None => {
                proof {
                    assert(st[2 * (k as int) + 1] == s@[2 * (k as int) + 1 + start]);
                    assert(!is_hex_digit(st[2 * (k as int) + 1]));
                }
                return Err(DigestError::ConfigError);
            },
        };
        out.push(v1 * 16 + v2);
        k += 1;
    }
    proof {
        assert(out@ =~= hex_bytes(st));
    }
    Ok(out)
}

} // verus!
