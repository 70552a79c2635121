//! A 16-byte identifier codec: `encode` renders the bytes as lowercase hex
//! in five dash-separated groups of 8, 4, 4, 4 and 12 digits, and `decode`
//! parses that shape back, accepting either case of hex digit.

use vstd::prelude::*;

use crate::text::push_char;

verus! {

/// The width of an identifier, in bytes.
pub const BYTES: usize = 16;

/// Whether `c` is an ASCII hex digit, of either case.
pub open spec fn is_hex_digit(c: char) -> bool {
    (48 <= c as u32 && c as u32 <= 57) || (97 <= c as u32 && c as u32 <= 102) || (65 <= c as u32
        && c as u32 <= 70)
}

/// The value of the hex digit `c`.
pub open spec fn hex_val(c: char) -> u8
    recommends
        is_hex_digit(c),
{
    if 48 <= c as u32 && c as u32 <= 57 {
        (c as u32 - 48) as u8
    } else if 97 <= c as u32 && c as u32 <= 102 {
        (c as u32 - 87) as u8
    } else {
        (c as u32 - 55) as u8
    }
}

/// The lowercase hex digit for a value below sixteen.
pub open spec fn hex_char(n: u8) -> char
    recommends
        n < 16,
{
    if n < 10 {
        ((n + 48) as u8) as char
    } else {
        ((n + 87) as u8) as char
    }
}

/// The hex rendering of the bytes of `id` at positions `[i, j)`, two
/// lowercase digits per byte, high nibble first.
pub open spec fn hex_of_bytes(id: Seq<u8>, i: int, j: int) -> Seq<char>
    recommends
        0 <= i <= j <= id.len(),
    decreases j - i,
{
    if i >= j {
        Seq::empty()
    } else {
        hex_of_bytes(id, i, j - 1) + seq![hex_char(id[j - 1] / 16), hex_char(id[j - 1] % 16)]
    }
}

/// The full rendering of a 16-byte identifier: five dash-separated groups
/// of 4, 2, 2, 2 and 6 bytes.
pub open spec fn encoded(id: Seq<u8>) -> Seq<char>
    recommends
        id.len() == BYTES,
{
    hex_of_bytes(id, 0, 4) + seq!['-'] + hex_of_bytes(id, 4, 6) + seq!['-'] + hex_of_bytes(id, 6, 8)
        + seq!['-'] + hex_of_bytes(id, 8, 10) + seq!['-'] + hex_of_bytes(id, 10, 16)
}

/// Where the two digits of byte `k` sit in the rendered string, accounting
/// for the dashes before them.
pub open spec fn byte_pos(k: int) -> int {
    if k < 4 {
        2 * k
    } else if k < 6 {
        2 * k + 1
    } else if k < 8 {
        2 * k + 2
    } else if k < 10 {
        2 * k + 3
    } else {
        2 * k + 4
    }
}

/// Whether `s` has the shape `decode` accepts: 36 characters, dashes at
/// positions 8, 13, 18 and 23, and hex digits of either case everywhere
/// else.
pub open spec fn valid_encoding(s: Seq<char>) -> bool {
    &&& s.len() == 36
    &&& s[8] == '-'
    &&& s[13] == '-'
    &&& s[18] == '-'
    &&& s[23] == '-'
    &&& forall|k: int|
        0 <= k < 16 ==> is_hex_digit(#[trigger] s[byte_pos(k)]) && is_hex_digit(s[byte_pos(k) + 1])
}

/// The byte that the two digits of group `k` in `s` stand for.
pub open spec fn decoded_byte(s: Seq<char>, k: int) -> u8
    recommends
        valid_encoding(s),
        0 <= k < 16,
{
    (hex_val(s[byte_pos(k)]) * 16 + hex_val(s[byte_pos(k) + 1])) as u8
}

/// The length of a hex rendering: two digits per byte.
proof fn lemma_hex_len(id: Seq<u8>, i: int, j: int)
    requires
        0 <= i <= j <= id.len(),
    ensures
        hex_of_bytes(id, i, j).len() == 2 * (j - i),
    decreases j - i,
{
    if i < j {
        lemma_hex_len(id, i, j - 1);
    }
}

/// Where each byte's two digits sit in a hex rendering.
proof fn lemma_hex_index(id: Seq<u8>, i: int, j: int, t: int)
    requires
        0 <= i <= t < j <= id.len(),
    ensures
        hex_of_bytes(id, i, j)[2 * (t - i)] == hex_char(id[t] / 16),
        hex_of_bytes(id, i, j)[2 * (t - i) + 1] == hex_char(id[t] % 16),
    decreases j - t,
{
    lemma_hex_len(id, i, j - 1);
    if t < j - 1 {
        lemma_hex_index(id, i, j - 1, t);
    }
}

/// A hex digit reads back as the value it was written from.
proof fn lemma_hex_char_val(v: u8)
    requires
        v < 16,
    ensures
        is_hex_digit(hex_char(v)),
        hex_val(hex_char(v)) == v,
{
}

/// Round trip: the rendering of any 16 bytes is a valid encoding, and
/// decoding it yields the bytes it was rendered from.
pub proof fn lemma_decode_inverts_encode(id: Seq<u8>)
    requires
        id.len() == BYTES,
    ensures
        valid_encoding(encoded(id)),
        forall|k: int| 0 <= k < 16 ==> #[trigger] decoded_byte(encoded(id), k) == id[k],
{
    let e = encoded(id);
    lemma_hex_len(id, 0, 4);
    lemma_hex_len(id, 4, 6);
    lemma_hex_len(id, 6, 8);
    lemma_hex_len(id, 8, 10);
    lemma_hex_len(id, 10, 16);
    assert(e.len() == 36);
    assert(e[8] == '-');
    assert(e[13] == '-');
    assert(e[18] == '-');
    assert(e[23] == '-');
    assert forall|k: int|
        0 <= k < 16 implies is_hex_digit(#[trigger] e[byte_pos(k)]) && is_hex_digit(
        e[byte_pos(k) + 1],
    ) && decoded_byte(e, k) == id[k] by {
        if k < 4 {
            lemma_hex_index(id, 0, 4, k);
            assert(e[byte_pos(k)] == hex_of_bytes(id, 0, 4)[2 * k]);
            assert(e[byte_pos(k) + 1] == hex_of_bytes(id, 0, 4)[2 * k + 1]);
        } else if k < 6 {
            lemma_hex_index(id, 4, 6, k);
            assert(e[byte_pos(k)] == hex_of_bytes(id, 4, 6)[2 * (k - 4)]);
            assert(e[byte_pos(k) + 1] == hex_of_bytes(id, 4, 6)[2 * (k - 4) + 1]);
        } else if k < 8 {
            lemma_hex_index(id, 6, 8, k);
            assert(e[byte_pos(k)] == hex_of_bytes(id, 6, 8)[2 * (k - 6)]);
            assert(e[byte_pos(k) + 1] == hex_of_bytes(id, 6, 8)[2 * (k - 6) + 1]);
        } else if k < 10 {
            lemma_hex_index(id, 8, 10, k);
            assert(e[byte_pos(k)] == hex_of_bytes(id, 8, 10)[2 * (k - 8)]);
            assert(e[byte_pos(k) + 1] == hex_of_bytes(id, 8, 10)[2 * (k - 8) + 1]);
        } else {
            lemma_hex_index(id, 10, 16, k);
            assert(e[byte_pos(k)] == hex_of_bytes(id, 10, 16)[2 * (k - 10)]);
            assert(e[byte_pos(k) + 1] == hex_of_bytes(id, 10, 16)[2 * (k - 10) + 1]);
        }
        lemma_hex_char_val(id[k] / 16);
        lemma_hex_char_val(id[k] % 16);
    }
}

/// Appends the lowercase hex digit for `n` to `s`.
fn push_hex_digit(s: &mut String, n: u8)
    requires
        n < 16,
    ensures
        final (s)@ == old(s)@ + seq![hex_char(n)],
{
    let c: char = if n < 10 {
        (n + 48) as char
    } else {
        (n + 87) as char
    };
    push_char(s, c);
    proof {
        assert(final (s)@ =~= old(s)@ + seq![hex_char(n)]);
    }
}

/// Appends the hex rendering of the bytes of `id` at positions
/// `[start, end)` to `s`.
fn push_hex_range(s: &mut String, id: &[u8; BYTES], start: usize, end: usize)
    requires
        start <= end <= BYTES,
    ensures
        final (s)@ == old(s)@ + hex_of_bytes(id@, start as int, end as int),
{
    let mut i: usize = start;
    while i < end
        invariant
            start <= i <= end <= BYTES,
            s@ == old(s)@ + hex_of_bytes(id@, start as int, i as int),
        decreases end - i,
    {
        let b = id[i];
        push_hex_digit(s, b / 16);
        push_hex_digit(s, b % 16);
        proof {
            assert(s@ =~= old(s)@ + hex_of_bytes(id@, start as int, i as int + 1));
        }
        i = i + 1;
    }
}

/// Renders 16 bytes as lowercase hex in five dash-separated groups.
pub fn encode(id: &[u8; BYTES]) -> (s: String)
    ensures
        s@ == encoded(id@),
{
    let mut s = String::new();
    push_hex_range(&mut s, id, 0, 4);
    push_char(&mut s, '-');
    push_hex_range(&mut s, id, 4, 6);
    push_char(&mut s, '-');
    push_hex_range(&mut s, id, 6, 8);
    push_char(&mut s, '-');
    push_hex_range(&mut s, id, 8, 10);
    push_char(&mut s, '-');
    push_hex_range(&mut s, id, 10, 16);
    proof {
        assert(s@ =~= encoded(id@));
    }
    s
}

/// The value of a hex digit of either case, or `None` for any other
/// character.
fn hex_value(c: char) -> (v: Option<u8>)
    ensures
        v is Some <==> is_hex_digit(c),
        v matches Some(x) ==> x == hex_val(c) && x < 16,
{
    let u = c as u32;
    if 48 <= u && u <= 57 {
        Some((u - 48) as u8)
    } else if 97 <= u && u <= 102 {
        Some((u - 87) as u8)
    } else if 65 <= u && u <= 70 {
        Some((u - 55) as u8)
    } else {
        None
    }
}

/// Turns a dash-separated hex rendering back into its 16 bytes. Succeeds
/// exactly on strings of the shape `encode` emits, with either case of hex
/// digit accepted; each byte is read high nibble first.
pub fn decode(s: &str) -> (r: Option<[u8; BYTES]>)
    ensures
        r is Some <==> valid_encoding(s@),
        r matches Some(id) ==> forall|k: int| 0 <= k < 16 ==> #[trigger] id@[k] == decoded_byte(
            s@,
            k,
        ),
{
    let n = s.unicode_len();
    if n != 36 {
        return None;
    }
    if s.get_char(8) != '-' || s.get_char(13) != '-' || s.get_char(18) != '-' || s.get_char(23)
        != '-' {
        return None;
    }
    let mut result: [u8; BYTES] = [0u8; BYTES];
    let mut k: usize = 0;
    while k < 16
        invariant
            k <= 16,
            s@.len() == 36,
            forall|m: int|
                0 <= m < k ==> is_hex_digit(#[trigger] s@[byte_pos(m)]) && is_hex_digit(
                    s@[byte_pos(m) + 1],
                ),
            forall|m: int| 0 <= m < k ==> #[trigger] result@[m] == decoded_byte(s@, m),
        decreases 16 - k,
    {
        let p: usize = if k < 4 {
            2 * k
        } else if k < 6 {
            2 * k + 1
        } else if k < 8 {
            2 * k + 2
        } else if k < 10 {
            2 * k + 3
        } else {
            2 * k + 4
        };
        proof {
            assert(p as int == byte_pos(k as int));
        }
        let chi = s.get_char(p);
        let clo = s.get_char(p + 1);
        proof {
            assert(chi == s@[byte_pos(k as int)]);
            assert(clo == s@[byte_pos(k as int) + 1]);
        }
        let hi = match hex_value(chi) {
            Some(x) => x,
            None => {
                return None;
            },
        };
        let lo = match hex_value(clo) {
            Some(x) => x,
            None => {
                return None;
            },
        };
        result[k] = hi * 16 + lo;
        proof {
            assert forall|m: int| 0 <= m < k + 1 implies is_hex_digit(
                #[trigger] s@[byte_pos(m)],
            ) && is_hex_digit(s@[byte_pos(m) + 1]) by {
                if m == k {
                    assert(s@[byte_pos(m)] == chi);
                    assert(s@[byte_pos(m) + 1] == clo);
                }
            }
            assert forall|m: int| 0 <= m < k + 1 implies #[trigger] result@[m] == decoded_byte(
                s@,
                m,
            ) by {
                if m == k {
                    assert(s@[byte_pos(m)] == chi);
                    assert(s@[byte_pos(m) + 1] == clo);
                }
            }
        }
        k = k + 1;
    }
    Some(result)
}

} // verus!
