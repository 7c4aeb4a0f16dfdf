//! Texts: looking for a phrase in a message, and reading an amount.

use vstd::prelude::*;

verus! {

/// `needle` stands in `hay` at position `i`.
pub open spec fn occurs_at(needle: Seq<u8>, hay: Seq<u8>, i: int) -> bool {
    &&& 0 <= i
    &&& i + needle.len() <= hay.len()
    &&& forall|j: int| 0 <= j < needle.len() ==> hay[i + j] == needle[j]
}

/// `needle` stands somewhere in `hay`.
pub open spec fn occurs(needle: Seq<u8>, hay: Seq<u8>) -> bool {
    exists|i: int| occurs_at(needle, hay, i)
}

/// Whether the bytes of `needle` stand somewhere in `hay`, one after the
/// other.
pub fn contains_bytes(hay: &[u8], needle: &[u8]) -> (found: bool)
    ensures
        found == occurs(needle@, hay@),
{
    if needle.len() > hay.len() {
        assert forall|i: int| !occurs_at(needle@, hay@, i) by {}
        return false;
    }
    let hay_len: usize = hay.len();
    let last: usize = hay_len - needle.len();
    let mut i: usize = 0;
    while i <= last
        invariant
            i <= last + 1,
            hay_len == hay@.len(),
            last == hay@.len() - needle@.len(),
            forall|k: int| 0 <= k < i ==> !occurs_at(needle@, hay@, k),
        decreases last + 1 - i,
    {
        let mut j: usize = 0;
        while j < needle.len() && hay[i + j] == needle[j]
            invariant
                j <= needle@.len(),
                i <= last,
                hay_len == hay@.len(),
                last == hay@.len() - needle@.len(),
                forall|k: int| 0 <= k < j ==> hay@[i + k] == needle@[k],
            decreases needle@.len() - j,
        {
            j += 1;
        }
        if j == needle.len() {
            assert(occurs_at(needle@, hay@, i as int));
            return true;
        }
        i += 1;
    }
    assert forall|k: int| !occurs_at(needle@, hay@, k) by {}
    false
}

/// Whether `text` holds `phrase`.
pub open spec fn mentions_phrase(text: Seq<char>, phrase: Seq<char>) -> bool {
    occurs(vstd::utf8::encode_utf8(phrase), vstd::utf8::encode_utf8(text))
}

/// Whether `text` holds `phrase`. The two are compared as they are written
/// in UTF-8.
pub fn mentions(text: &str, phrase: &str) -> (found: bool)
    ensures
        found == mentions_phrase(text@, phrase@),
{
    contains_bytes(text.as_bytes(), phrase.as_bytes())
}

/// The number that a run of decimal digits writes, if they are all digits.
pub open spec fn digits_value(text: Seq<u8>) -> Option<nat>
    decreases text.len(),
{
    if text.len() == 0 {
        Some(0)
    } else if !(0x30 <= text.last() <= 0x39) {
        None
    } else {
        match digits_value(text.drop_last()) {
            None => None,
            Some(head) => Some((head * 10 + (text.last() - 0x30)) as nat),
        }
    }
}

/// The amount that `text` writes: decimal digits, at least one, with or
/// without a plus sign before them, that make a number of at most 128
/// bits.
pub open spec fn amount_value(text: Seq<u8>) -> Option<u128> {
    let digits = if text.len() > 0 && text[0] == 0x2b {
        text.skip(1)
    } else {
        text
    };
    if digits.len() == 0 {
        None
    } else {
        match digits_value(digits) {
            Some(value) if value <= u128::MAX => Some(value as u128),
            _ => None,
        }
    }
}

/// Reads an amount from its text.
pub fn parse_amount(text: &[u8]) -> (r: Option<u128>)
    ensures
        r == amount_value(text@),
{
    let start: usize = if text.len() > 0 && text[0] == 0x2b {
        1
    } else {
        0
    };
    let ghost digits = text@.skip(start as int);
    if text.len() - start == 0 {
        return None;
    }
    let mut value: u128 = 0;
    let mut i: usize = start;
    proof {
        assert(digits.take(0) =~= Seq::<u8>::empty());
        if start == 0 {
            assert(digits =~= text@);
        }
    }
    while i < text.len()
        invariant
            start <= i <= text@.len(),
            digits == text@.skip(start as int),
            digits.len() > 0,
            amount_value(text@) == (match digits_value(digits) {
                Some(value) if value <= u128::MAX => Some(value as u128),
                _ => None,
            }),
            digits_value(digits.take(i - start)) == Some(value as nat),
        decreases text@.len() - i,
    {
        let c: u8 = text[i];
        proof {
            assert(digits.take(i - start + 1).drop_last() =~= digits.take(i - start));
            assert(digits.take(i - start + 1).last() == c);
        }
        if !(0x30 <= c && c <= 0x39) {
            proof {
                lemma_digits_prefix(digits, i - start + 1);
            }
            return None;
        }
        let digit: u128 = (c - 0x30) as u128;
        if value > (u128::MAX - digit) / 10 {
            proof {
                lemma_digits_grow(digits, i - start + 1);
            }
            return None;
        }
        value = value * 10 + digit;
        i += 1;
    }
    proof {
        assert(digits.take(digits.len() as int) =~= digits);
    }
    Some(value)
}

/// If the first `n` bytes are not all digits, neither is the whole.
proof fn lemma_digits_prefix(text: Seq<u8>, n: int)
    requires
        0 <= n <= text.len(),
        digits_value(text.take(n)) is None,
    ensures
        digits_value(text) is None,
    decreases text.len() - n,
{
    if n < text.len() {
        assert(text.take(n + 1).drop_last() =~= text.take(n));
        lemma_digits_prefix(text, n + 1);
    } else {
        assert(text.take(n) =~= text);
    }
}

/// The whole is worth no less than its first `n` digits.
proof fn lemma_digits_grow(text: Seq<u8>, n: int)
    requires
        0 <= n <= text.len(),
    ensures
        match (digits_value(text.take(n)), digits_value(text)) {
            (Some(head), Some(all)) => head <= all,
            _ => true,
        },
    decreases text.len() - n,
{
    if n < text.len() {
        assert(text.take(n + 1).drop_last() =~= text.take(n));
        lemma_digits_grow(text, n + 1);
        if digits_value(text.take(n + 1)) is None {
            lemma_digits_prefix(text, n + 1);
        }
    } else {
        assert(text.take(n) =~= text);
    }
}

} // verus!
