//! The hyphenated lowercase text form of a 128-bit UUID value
//! (`xxxxxxxx-xxxx-xxxx-xxxx-xxxxxxxxxxxx`).

use vstd::prelude::*;
use vstd::arithmetic::div_mod::lemma_div_denominator;
use crate::text::{hex_char, hex_digit, string_from_chars};

verus! {

/// 16 to the power `k`.
pub open spec fn pow16(k: nat) -> nat
    decreases k,
{
    if k == 0 {
        1
    } else {
        16 * pow16((k - 1) as nat)
    }
}

/// The `j`-th hexadecimal digit of `id`, counting from the least
/// significant.
pub open spec fn nibble(id: u128, j: nat) -> nat {
    (id as nat / pow16(j)) % 16
}

/// True at the positions of the four hyphens.
pub open spec fn is_hyphen_pos(i: int) -> bool {
    i == 8 || i == 13 || i == 18 || i == 23
}

/// The digit index (from the most significant) shown at text position `i`.
pub open spec fn digit_index(i: int) -> int {
    if i < 8 {
        i
    } else if i < 13 {
        i - 1
    } else if i < 18 {
        i - 2
    } else if i < 23 {
        i - 3
    } else {
        i - 4
    }
}

/// The 36-character hyphenated lowercase form of `id`.
pub open spec fn uuid_text(id: u128) -> Seq<char> {
    Seq::new(
        36,
        |i: int|
            if is_hyphen_pos(i) {
                '-'
            } else {
                hex_digit(nibble(id, (31 - digit_index(i)) as nat))
            },
    )
}

proof fn lemma_pow16_pos(k: nat)
    ensures
        pow16(k) > 0,
    decreases k,
{
    if k > 0 {
        lemma_pow16_pos((k - 1) as nat);
    }
}

/// The 32 hexadecimal digits of `id`, most significant first.
fn hex_digits(id: u128) -> (r: Vec<char>)
    ensures
        r@.len() == 32,
        forall|k: int| 0 <= k < 32 ==> r@[k] == hex_digit(nibble(id, (31 - k) as nat)),
{
    let mut r: Vec<char> = vec!['0'; 32];
    let mut v: u128 = id;
    let mut j: usize = 0;
    assert(pow16(0) == 1);
    assert(id as nat / 1 == id as nat);
    while j < 32
        invariant
            j <= 32,
            r@.len() == 32,
            v as nat == id as nat / pow16(j as nat),
            forall|k: int| 31 - j < k < 32 ==> r@[k] == hex_digit(nibble(id, (31 - k) as nat)),
        decreases 32 - j,
    {
        let d = (v % 16) as u8;
        r.set(31 - j, hex_char(d));
        proof {
            lemma_pow16_pos(j as nat);
            lemma_div_denominator(id as int, pow16(j as nat) as int, 16);
            assert(pow16((j + 1) as nat) == pow16(j as nat) * 16);
        }
        v = v / 16;
        j = j + 1;
    }
    r
}

/// Renders `id` in the hyphenated lowercase form.
pub fn uuid_string(id: u128) -> (r: String)
    ensures
        r@ == uuid_text(id),
{
    let d = hex_digits(id);
    let mut out: Vec<char> = Vec::new();
    let mut i: usize = 0;
    let mut k: usize = 0;
    while i < 36
        invariant
            i <= 36,
            d@.len() == 32,
            forall|m: int| 0 <= m < 32 ==> d@[m] == hex_digit(nibble(id, (31 - m) as nat)),
            k as int == if i <= 8 {
                i as int
            } else if i <= 13 {
                i - 1
            } else if i <= 18 {
                i - 2
            } else if i <= 23 {
                i - 3
            } else {
                i - 4
            },
            out@ == uuid_text(id).take(i as int),
        decreases 36 - i,
    {
        if i == 8 || i == 13 || i == 18 || i == 23 {
            out.push('-');
        } else {
            out.push(d[k]);
            k = k + 1;
        }
        assert(out@ =~= uuid_text(id).take(i + 1));
        i = i + 1;
    }
    assert(uuid_text(id).take(36) =~= uuid_text(id));
    string_from_chars(out.as_slice())
}

} // verus!
