//! Byte-level tokens of the canonical JSON wire format: decimal numbers,
//! quoted strings over a restricted alphabet, hex-encoded DIDs, and fixed
//! literals. Every writer has a reader, and each reader accepts exactly the
//! writer's output.

use vstd::prelude::*;
use vstd::string::*;
use crate::did::Did;

verus! {

/// An ASCII decimal digit.
pub open spec fn is_digit(b: u8) -> bool {
    48 <= b <= 57
}

/// The decimal digits of `n`, most significant first.
pub open spec fn dec_u64(n: int) -> Seq<u8>
    decreases n,
{
    if n < 10 {
        seq![(48 + n) as u8]
    } else {
        dec_u64(n / 10).push((48 + n % 10) as u8)
    }
}

/// Whether every byte of `s` is a decimal digit.
pub open spec fn all_digits(s: Seq<u8>) -> bool {
    forall|i: int| 0 <= i < s.len() ==> is_digit(#[trigger] s[i])
}

/// The number a digit string denotes.
pub open spec fn val_digits(s: Seq<u8>) -> int
    decreases s.len(),
{
    if s.len() == 0 {
        0
    } else {
        val_digits(s.drop_last()) * 10 + (s.last() - 48)
    }
}

pub proof fn lemma_dec_u64_props(n: int)
    requires
        0 <= n,
    ensures
        dec_u64(n).len() >= 1,
        all_digits(dec_u64(n)),
        n >= 1 ==> dec_u64(n)[0] != 48,
        n >= 10 ==> dec_u64(n).len() >= 2,
        val_digits(dec_u64(n)) == n,
    decreases n,
{
    if n >= 10 {
        lemma_dec_u64_props(n / 10);
        assert(dec_u64(n) == dec_u64(n / 10).push((48 + n % 10) as u8));
        assert(dec_u64(n).drop_last() =~= dec_u64(n / 10));
    } else {
        assert(dec_u64(n).drop_last() =~= Seq::<u8>::empty());
        assert(val_digits(Seq::<u8>::empty()) == 0);
    }
}

proof fn lemma_val_digits_nonneg(s: Seq<u8>)
    requires
        all_digits(s),
    ensures
        val_digits(s) >= 0,
    decreases s.len(),
{
    if s.len() > 0 {
        assert(all_digits(s.drop_last())) by {
            assert(forall|i: int| 0 <= i < s.len() - 1 ==> s.drop_last()[i] == #[trigger] s[i]);
        }
        lemma_val_digits_nonneg(s.drop_last());
    }
}

proof fn lemma_val_digits_pos(s: Seq<u8>)
    requires
        all_digits(s),
        s.len() >= 1,
        s[0] != 48,
    ensures
        val_digits(s) >= 1,
    decreases s.len(),
{
    if s.len() == 1 {
        assert(s.drop_last() =~= Seq::<u8>::empty());
        assert(val_digits(Seq::<u8>::empty()) == 0);
    } else {
        assert(all_digits(s.drop_last()) && s.drop_last()[0] == s[0]) by {
            assert(forall|i: int| 0 <= i < s.len() - 1 ==> s.drop_last()[i] == #[trigger] s[i]);
        }
        lemma_val_digits_pos(s.drop_last());
        lemma_val_digits_nonneg(s);
    }
}

/// A nonempty digit string without a leading zero is the decimal encoding
/// of its own value.
proof fn lemma_dec_unique(s: Seq<u8>)
    requires
        all_digits(s),
        s.len() >= 1,
        s.len() > 1 ==> s[0] != 48,
    ensures
        dec_u64(val_digits(s)) == s,
    decreases s.len(),
{
    lemma_val_digits_nonneg(s);
    if s.len() == 1 {
        assert(s.drop_last() =~= Seq::<u8>::empty());
        assert(val_digits(Seq::<u8>::empty()) == 0);
        assert(val_digits(s) == s[0] - 48 < 10);
        assert(dec_u64(val_digits(s)) =~= s);
    } else {
        let dl = s.drop_last();
        assert(all_digits(dl) && dl[0] == s[0]) by {
            assert(forall|i: int| 0 <= i < s.len() - 1 ==> dl[i] == #[trigger] s[i]);
        }
        lemma_val_digits_pos(dl);
        let v = val_digits(s);
        assert(v == val_digits(dl) * 10 + (s.last() - 48));
        assert(v / 10 == val_digits(dl) && v % 10 == s.last() - 48) by {
            assert(0 <= s.last() - 48 < 10);
        }
        assert(v >= 10);
        lemma_dec_unique(dl);
        assert(dec_u64(v) == dec_u64(val_digits(dl)).push((48 + v % 10) as u8));
        assert(dec_u64(v) =~= s);
    }
}

/// The value of a prefix of a digit string never exceeds the whole value.
proof fn lemma_val_prefix_le(s: Seq<u8>, k: int)
    requires
        all_digits(s),
        0 <= k <= s.len(),
    ensures
        val_digits(s.take(k)) <= val_digits(s),
    decreases s.len() - k,
{
    if k == s.len() {
        assert(s.take(k) =~= s);
    } else {
        assert(s.take(k + 1).drop_last() =~= s.take(k));
        assert(s.take(k + 1).last() == s[k]);
        assert(all_digits(s.take(k))) by {
            assert(forall|i: int| 0 <= i < k ==> s.take(k)[i] == #[trigger] s[i]);
        }
        lemma_val_digits_nonneg(s.take(k));
        assert(val_digits(s.take(k)) <= val_digits(s.take(k + 1)));
        lemma_val_prefix_le(s, k + 1);
    }
}

/// Append the decimal digits of `n`.
pub fn push_u64(out: &mut Vec<u8>, n: u64)
    ensures
        final(out)@ == old(out)@ + dec_u64(n as int),
    decreases n,
{
    if n >= 10 {
        push_u64(out, n / 10);
        out.push(48 + (n % 10) as u8);
        proof {
            assert(final(out)@ =~= old(out)@ + dec_u64(n as int));
        }
    } else {
        out.push(48 + n as u8);
        proof {
            assert(final(out)@ =~= old(out)@ + dec_u64(n as int));
        }
    }
}

/// Read the decimal digits of a number, greedily: accepts exactly the
/// canonical encoding of a `u64` when a non-digit (or the end) follows it.
pub fn parse_u64(v: &Vec<u8>, pos: usize) -> (r: Option<(u64, usize)>)
    ensures
        (match r {
            Some((n, np)) => pos <= np <= v@.len() && v@.subrange(pos as int, np as int) == dec_u64(
                n as int,
            ),
            None => true,
        }),
        forall|n: u64|
            #![trigger dec_u64(n as int)]
            (pos + dec_u64(n as int).len() <= v@.len() && v@.subrange(
                pos as int,
                pos + dec_u64(n as int).len(),
            ) == dec_u64(n as int) && (pos + dec_u64(n as int).len() == v@.len() || !is_digit(
                v@[pos + dec_u64(n as int).len()],
            ))) ==> r == Some((n, (pos + dec_u64(n as int).len()) as usize)),
{
    if pos >= v.len() {
        proof {
            u64_head_contradiction(v@, pos as int);
        }
        return None;
    }
    let b0 = v[pos];
    if !(48 <= b0 && b0 <= 57) {
        proof {
            u64_head_contradiction(v@, pos as int);
        }
        return None;
    }
    if b0 == 48 {
        proof {
            assert(v@.subrange(pos as int, pos + 1) =~= dec_u64(0));
            assert forall|n: u64|
                (pos + dec_u64(n as int).len() <= v@.len() && v@.subrange(
                    pos as int,
                    pos + dec_u64(n as int).len(),
                ) == dec_u64(n as int) && (pos + dec_u64(n as int).len() == v@.len() || !is_digit(
                    v@[pos + dec_u64(n as int).len()],
                ))) implies Some((0u64, (pos + 1) as usize)) == Some((
                n,
                (pos + dec_u64(n as int).len()) as usize,
            )) by {
                lemma_dec_u64_props(n as int);
                if n >= 1 {
                    assert(v@[pos as int] == dec_u64(n as int)[0]);
                }
            }
        }
        return Some((0, pos + 1));
    }
    let mut acc: u64 = (b0 - 48) as u64;
    let mut i: usize = pos + 1;
    proof {
        assert(v@.subrange(pos as int, pos + 1) =~= seq![b0]);
        assert(val_digits(seq![b0]) == b0 - 48) by {
            assert(seq![b0].drop_last() =~= Seq::<u8>::empty());
            assert(val_digits(Seq::<u8>::empty()) == 0);
        }
    }
    while i < v.len() && 48 <= v[i] && v[i] <= 57
        invariant
            pos < i <= v@.len(),
            all_digits(v@.subrange(pos as int, i as int)),
            v@.subrange(pos as int, i as int)[0] != 48,
            acc as int == val_digits(v@.subrange(pos as int, i as int)),
        decreases v@.len() - i,
    {
        let ghost prefix = v@.subrange(pos as int, i as int);
        let d = (v[i] - 48) as u64;
        let ghost next = v@.subrange(pos as int, i + 1);
        proof {
            assert(next.drop_last() =~= prefix);
            assert(next.last() == v@[i as int]);
            lemma_val_digits_nonneg(next);
        }
        let m = match acc.checked_mul(10) {
            Some(m) => m,
            None => {
                proof {
                    overflow_contradiction(v@, pos as int, i as int, acc as int, d as int);
                }
                return None;
            },
        };
        let a2 = match m.checked_add(d) {
            Some(a2) => a2,
            None => {
                proof {
                    overflow_contradiction(v@, pos as int, i as int, acc as int, d as int);
                }
                return None;
            },
        };
        acc = a2;
        i = i + 1;
    }
    proof {
        let s = v@.subrange(pos as int, i as int);
        lemma_dec_unique(s);
        assert(dec_u64(acc as int) == s);
        lemma_dec_u64_props(acc as int);
        assert forall|n: u64|
            (pos + dec_u64(n as int).len() <= v@.len() && v@.subrange(
                pos as int,
                pos + dec_u64(n as int).len(),
            ) == dec_u64(n as int) && (pos + dec_u64(n as int).len() == v@.len() || !is_digit(
                v@[pos + dec_u64(n as int).len()],
            ))) implies Some((acc, i)) == Some((n, (pos + dec_u64(n as int).len()) as usize)) by {
            lemma_dec_u64_props(n as int);
            let d = dec_u64(n as int);
            let endn = pos + d.len();
            // The scan cannot have stopped before the end of `d`.
            if i < endn {
                assert(is_digit(d[i - pos]));
                assert(v@[i as int] == d[i - pos]);
            }
            // Nor can it have run past the non-digit that follows `d`.
            if i > endn {
                assert(v@[endn as int] == s[endn - pos]);
                assert(is_digit(s[endn - pos]));
            }
            assert(i == endn);
            assert(s =~= d);
            assert(acc as int == n as int) by {
                lemma_dec_u64_props(n as int);
            }
        }
    }
    Some((acc, i))
}

/// The input at `pos` does not start with a digit, so no number matches.
proof fn u64_head_contradiction(v: Seq<u8>, pos: int)
    requires
        0 <= pos,
        pos >= v.len() || !is_digit(v[pos]),
    ensures
        forall|n: u64|
            #![trigger dec_u64(n as int)]
            !(pos + dec_u64(n as int).len() <= v.len() && v.subrange(
                pos,
                pos + dec_u64(n as int).len(),
            ) == dec_u64(n as int) && (pos + dec_u64(n as int).len() == v.len() || !is_digit(
                v[pos + dec_u64(n as int).len()],
            ))),
{
    assert forall|n: u64|
        (pos + dec_u64(n as int).len() <= v.len() && v.subrange(pos, pos + dec_u64(n as int).len())
            == dec_u64(n as int) && (pos + dec_u64(n as int).len() == v.len() || !is_digit(
            v[pos + dec_u64(n as int).len()],
        ))) implies false by {
        lemma_dec_u64_props(n as int);
        assert(v[pos] == dec_u64(n as int)[0]);
        assert(is_digit(dec_u64(n as int)[0]));
    }
}

/// A digit about to be consumed would not overflow if the input were the
/// canonical encoding of some `u64` followed by a non-digit.
proof fn overflow_contradiction(v: Seq<u8>, pos: int, i: int, acc: int, d: int)
    requires
        0 <= pos < i <= v.len(),
        i < v.len(),
        is_digit(v[i]),
        d == v[i] - 48,
        all_digits(v.subrange(pos, i)),
        v.subrange(pos, i)[0] != 48,
        acc == val_digits(v.subrange(pos, i)),
        acc * 10 + d > u64::MAX,
    ensures
        forall|n: u64|
            #![trigger dec_u64(n as int)]
            !(pos + dec_u64(n as int).len() <= v.len() && v.subrange(
                pos,
                pos + dec_u64(n as int).len(),
            ) == dec_u64(n as int) && (pos + dec_u64(n as int).len() == v.len() || !is_digit(
                v[pos + dec_u64(n as int).len()],
            ))),
{
    assert forall|n: u64|
        (pos + dec_u64(n as int).len() <= v.len() && v.subrange(pos, pos + dec_u64(n as int).len())
            == dec_u64(n as int) && (pos + dec_u64(n as int).len() == v.len() || !is_digit(
            v[pos + dec_u64(n as int).len()],
        ))) implies false by {
        lemma_dec_u64_props(n as int);
        let dn = dec_u64(n as int);
        let endn = pos + dn.len();
        // Every byte from `pos` to `i` inclusive is a digit, so the region of
        // `dn` reaches past `i`.
        if endn <= i {
            if endn == v.len() {
            } else {
                assert(v[endn] == v.subrange(pos, i)[endn - pos]);
                assert(is_digit(v[endn]));
            }
        }
        assert(endn > i);
        // The consumed digits plus the pending one are a prefix of `dn`,
        // whose value cannot exceed `n`.
        let upto = v.subrange(pos, i + 1);
        assert(upto.drop_last() =~= v.subrange(pos, i));
        assert(upto.last() == v[i]);
        assert(val_digits(upto) == acc * 10 + d);
        assert(upto =~= dn.take(i + 1 - pos)) by {
            assert(forall|j: int| 0 <= j < i + 1 - pos ==> upto[j] == #[trigger] dn[j]);
        }
        lemma_val_prefix_le(dn, i + 1 - pos);
        assert(val_digits(dn) == n);
        assert(acc * 10 + d <= n);
    }
}

/// The bytes between the quotes of an encoded string: printable ASCII with
/// neither quote nor backslash, so no escaping is ever needed.
pub open spec fn json_safe(s: Seq<u8>) -> bool {
    forall|i: int| 0 <= i < s.len() ==> 32 <= #[trigger] s[i] <= 126 && s[i] != 34 && s[i] != 92
}

/// A quoted string on the wire.
pub open spec fn json_string(s: Seq<u8>) -> Seq<u8> {
    seq![34u8] + s + seq![34u8]
}

/// Append `content` as a quoted string.
pub fn push_json_string(out: &mut Vec<u8>, content: &Vec<u8>)
    ensures
        final(out)@ == old(out)@ + json_string(content@),
{
    out.push(34);
    append_bytes(out, content);
    out.push(34);
    proof {
        assert(final(out)@ =~= old(out)@ + json_string(content@));
    }
}

/// Read a quoted string over the safe alphabet: accepts exactly
/// `json_string(s)` for safe `s`.
pub fn parse_json_string(v: &Vec<u8>, pos: usize) -> (r: Option<(Vec<u8>, usize)>)
    ensures
        (match r {
            Some((s, np)) => pos <= np <= v@.len() && v@.subrange(pos as int, np as int)
                == json_string(s@) && json_safe(s@),
            None => true,
        }),
        forall|s: Seq<u8>|
            #![trigger json_string(s)]
            (json_safe(s) && pos + s.len() + 2 <= v@.len() && v@.subrange(
                pos as int,
                pos + s.len() + 2,
            ) == json_string(s)) ==> (match r {
                Some((rs, np)) => rs@ == s && np == pos + s.len() + 2,
                None => false,
            }),
{
    if pos >= v.len() || v[pos] != 34 {
        proof {
            assert forall|s: Seq<u8>|
                (json_safe(s) && pos + s.len() + 2 <= v@.len() && v@.subrange(
                    pos as int,
                    pos + s.len() + 2,
                ) == json_string(s)) implies false by {
                assert(v@[pos as int] == json_string(s)[0]);
            }
        }
        return None;
    }
    let mut content: Vec<u8> = Vec::new();
    let mut i: usize = pos + 1;
    loop
        invariant
            pos < i <= v@.len(),
            pos < usize::MAX,
            v@[pos as int] == 34,
            content@ == v@.subrange(pos + 1, i as int),
            json_safe(content@),
            forall|j: int| pos < j < i ==> v@[j] != 34,
        decreases v@.len() - i,
    {
        if i >= v.len() {
            proof {
                string_absent_contradiction(v@, pos as int, i as int);
            }
            return None;
        }
        let b = v[i];
        if b == 34 {
            proof {
                assert(v@.subrange(pos as int, i + 1) =~= json_string(content@));
                assert forall|s: Seq<u8>|
                    (json_safe(s) && pos + s.len() + 2 <= v@.len() && v@.subrange(
                        pos as int,
                        pos + s.len() + 2,
                    ) == json_string(s)) implies content@ == s && i + 1 == pos + s.len() + 2 by {
                    let close = pos + s.len() + 1;
                    assert(v@[close] == json_string(s)[s.len() as int + 1]);
                    assert(v@[close] == 34);
                    if i < close {
                        assert(v@[i as int] == json_string(s)[i - pos]);
                        assert(32 <= s[i - pos - 1] <= 126 && s[i - pos - 1] != 34);
                    }
                    if i > close {
                        assert(pos < close < i);
                    }
                    assert(i == close);
                    assert forall|j: int| 0 <= j < s.len() implies content@[j] == s[j] by {
                        assert(v@.subrange(pos as int, pos + s.len() + 2)[j + 1] == json_string(
                            s,
                        )[j + 1]);
                        assert(json_string(s)[j + 1] == s[j]);
                    }
                    assert(content@ =~= s);
                }
            }
            let np = i + 1;
            return Some((content, np));
        }
        if b < 32 || b > 126 || b == 92 {
            proof {
                string_bad_byte_contradiction(v@, pos as int, i as int);
            }
            return None;
        }
        content.push(b);
        proof {
            assert(content@ =~= v@.subrange(pos + 1, i + 1));
        }
        i = i + 1;
    }
}

/// No closing quote was found before the end of the input, so the input at
/// `pos` is not a well-formed quoted string.
proof fn string_absent_contradiction(v: Seq<u8>, pos: int, i: int)
    requires
        0 <= pos < i,
        i >= v.len(),
        forall|j: int| pos < j < i ==> v[j] != 34,
    ensures
        forall|s: Seq<u8>|
            #![trigger json_string(s)]
            !(json_safe(s) && pos + s.len() + 2 <= v.len() && v.subrange(pos, pos + s.len() + 2)
                == json_string(s)),
{
    assert forall|s: Seq<u8>|
        (json_safe(s) && pos + s.len() + 2 <= v.len() && v.subrange(pos, pos + s.len() + 2)
            == json_string(s)) implies false by {
        let close = pos + s.len() + 1;
        assert(v[close] == json_string(s)[s.len() as int + 1]);
        assert(pos < close < i);
    }
}

/// An unprintable byte, a backslash, or a stray quote cannot occur inside a
/// well-formed quoted string over the safe alphabet.
proof fn string_bad_byte_contradiction(v: Seq<u8>, pos: int, i: int)
    requires
        0 <= pos < i < v.len(),
        forall|j: int| pos < j < i ==> v[j] != 34,
        v[i] != 34,
        v[i] < 32 || v[i] > 126 || v[i] == 92,
    ensures
        forall|s: Seq<u8>|
            #![trigger json_string(s)]
            !(json_safe(s) && pos + s.len() + 2 <= v.len() && v.subrange(pos, pos + s.len() + 2)
                == json_string(s)),
{
    assert forall|s: Seq<u8>|
        (json_safe(s) && pos + s.len() + 2 <= v.len() && v.subrange(pos, pos + s.len() + 2)
            == json_string(s)) implies false by {
        let close = pos + s.len() + 1;
        assert(v[close] == json_string(s)[s.len() as int + 1]);
        assert(v[close] == 34);
        assert(i < close);
        assert(v[i] == json_string(s)[i - pos]);
        assert(32 <= s[i - pos - 1] <= 126 && s[i - pos - 1] != 92);
    }
}

/// The lowercase hex digit for a value below sixteen.
pub open spec fn hex_digit(n: u8) -> u8 {
    if n < 10 {
        (48 + n) as u8
    } else {
        (87 + n) as u8
    }
}

/// The value of a lowercase hex digit byte, if it is one.
pub open spec fn hex_val(b: u8) -> Option<int> {
    if 48 <= b <= 57 {
        Some(b - 48)
    } else if 97 <= b <= 102 {
        Some(b - 87)
    } else {
        None
    }
}

/// The forty hex characters of a twenty-byte address.
pub open spec fn hex_chars(bytes: Seq<u8>) -> Seq<u8> {
    Seq::new(
        2 * bytes.len(),
        |i: int|
            if i % 2 == 0 {
                hex_digit(bytes[i / 2] / 16)
            } else {
                hex_digit(bytes[i / 2] % 16)
            },
    )
}

/// A DID on the wire: a quoted, 0x-prefixed, lowercase hex address.
pub open spec fn did_json(d: Did) -> Seq<u8> {
    seq![34u8, 48u8, 120u8] + hex_chars(d.bytes()) + seq![34u8]
}

/// Two addresses with the same wire form are the same address.
pub proof fn lemma_did_json_injective(d1: Did, d2: Did)
    requires
        did_json(d1) == did_json(d2),
    ensures
        d1 == d2,
{
    assert forall|m: int| 0 <= m < 40 implies hex_chars(d1.bytes())[m] == hex_chars(
        d2.bytes(),
    )[m] by {
        assert(did_json(d1)[3 + m] == hex_chars(d1.bytes())[m]);
        assert(did_json(d2)[3 + m] == hex_chars(d2.bytes())[m]);
        assert(did_json(d1)[3 + m] == did_json(d2)[3 + m]);
    }
    assert forall|j: int| 0 <= j < 20 implies d1.bytes()[j] == d2.bytes()[j] by {
        assert(hex_chars(d1.bytes())[2 * j] == hex_chars(d2.bytes())[2 * j]);
        assert(hex_chars(d1.bytes())[2 * j + 1] == hex_chars(d2.bytes())[2 * j + 1]);
        let b1 = d1.bytes()[j];
        let b2 = d2.bytes()[j];
        assert(hex_digit(b1 / 16) == hex_digit(b2 / 16) && hex_digit(b1 % 16) == hex_digit(
            b2 % 16,
        )) by {
            assert((2 * j) % 2 == 0 && (2 * j + 1) % 2 == 1 && (2 * j) / 2 == j && (2 * j + 1) / 2
                == j);
        }
        assert(b1 / 16 == b2 / 16 && b1 % 16 == b2 % 16);
    }
    assert(d1.bytes() =~= d2.bytes());
    assert(d1.0 =~= d2.0);
}

/// Append a DID in its wire form.
pub fn push_did(out: &mut Vec<u8>, d: &Did)
    ensures
        final(out)@ == old(out)@ + did_json(*d),
{
    out.push(34);
    out.push(48);
    out.push(120);
    let mut j: usize = 0;
    while j < 20
        invariant
            j <= 20,
            out@ == old(out)@ + seq![34u8, 48u8, 120u8] + hex_chars(d.bytes()).take(2 * j),
        decreases 20 - j,
    {
        let b = d.0[j];
        let hi = b / 16;
        let lo = b % 16;
        out.push(if hi < 10 { 48 + hi } else { 87 + hi });
        out.push(if lo < 10 { 48 + lo } else { 87 + lo });
        proof {
            assert((2 * j as int) % 2 == 0 && (2 * j as int) / 2 == j as int && (2 * j as int + 1)
                % 2 == 1 && (2 * j as int + 1) / 2 == j as int);
            assert(out@ =~= old(out)@ + seq![34u8, 48u8, 120u8] + hex_chars(d.bytes()).take(
                2 * (j + 1),
            ));
        }
        j = j + 1;
    }
    out.push(34);
    proof {
        assert(hex_chars(d.bytes()).take(40) =~= hex_chars(d.bytes()));
        assert(final(out)@ =~= old(out)@ + did_json(*d));
    }
}

/// Read a DID in its wire form: accepts exactly `did_json(d)`.
pub fn parse_did(v: &Vec<u8>, pos: usize) -> (r: Option<(Did, usize)>)
    ensures
        (match r {
            Some((d, np)) => np == pos + 44 && np <= v@.len() && v@.subrange(pos as int, np as int)
                == did_json(d),
            None => true,
        }),
        forall|d: Did|
            #![trigger did_json(d)]
            (pos + 44 <= v@.len() && v@.subrange(pos as int, pos + 44) == did_json(d)) ==> r
                == Some((d, (pos + 44) as usize)),
{
    let n = v.len();
    if n < 44 || pos > n - 44 {
        return None;
    }
    if v[pos] != 34 || v[pos + 1] != 48 || v[pos + 2] != 120 || v[pos + 43] != 34 {
        proof {
            assert forall|d: Did|
                (pos + 44 <= v@.len() && v@.subrange(pos as int, pos + 44) == did_json(d)) implies
                false by {
                assert(v@[pos as int] == did_json(d)[0]);
                assert(v@[pos + 1] == did_json(d)[1]);
                assert(v@[pos + 2] == did_json(d)[2]);
                assert(v@[pos + 43] == did_json(d)[43]);
            }
        }
        return None;
    }
    let mut arr: [u8; 20] = [0u8; 20];
    let mut j: usize = 0;
    while j < 20
        invariant
            j <= 20,
            n == v@.len(),
            pos + 44 <= n,
            v@[pos as int] == 34 && v@[pos + 1] == 48 && v@[pos + 2] == 120 && v@[pos + 43] == 34,
            forall|k: int|
                0 <= k < j ==> v@[pos + 3 + 2 * k] == hex_digit(#[trigger] arr@[k] / 16) && v@[pos
                    + 4 + 2 * k] == hex_digit(arr@[k] % 16),
        decreases 20 - j,
    {
        let chi = v[pos + 3 + 2 * j];
        let clo = v[pos + 4 + 2 * j];
        let hi: u8 = if 48 <= chi && chi <= 57 {
            chi - 48
        } else if 97 <= chi && chi <= 102 {
            chi - 87
        } else {
            proof {
                did_bad_hex_contradiction(v@, pos as int, pos + 3 + 2 * j);
            }
            return None;
        };
        let lo: u8 = if 48 <= clo && clo <= 57 {
            clo - 48
        } else if 97 <= clo && clo <= 102 {
            clo - 87
        } else {
            proof {
                did_bad_hex_contradiction(v@, pos as int, pos + 4 + 2 * j);
            }
            return None;
        };
        let bv: u8 = hi * 16 + lo;
        arr[j] = bv;
        proof {
            assert(hex_digit(bv / 16) == chi && hex_digit(bv % 16) == clo) by {
                assert(bv / 16 == hi && bv % 16 == lo);
            }
        }
        j = j + 1;
    }
    let d = Did(arr);
    proof {
        assert(v@.subrange(pos as int, pos + 44) =~= did_json(d)) by {
            assert forall|m: int| 0 <= m < 40 implies v@[pos + 3 + m] == hex_chars(d.bytes())[m] by {
                let k = m / 2;
                if m % 2 == 0 {
                    assert(m == 2 * k);
                    assert(v@[pos + 3 + 2 * k] == hex_digit(arr@[k] / 16));
                } else {
                    assert(m == 2 * k + 1);
                    assert(v@[pos + 4 + 2 * k] == hex_digit(arr@[k] % 16));
                }
            }
        }
        assert forall|d2: Did| (pos + 44 <= v@.len() && v@.subrange(pos as int, pos + 44)
            == did_json(d2)) implies Some((d, (pos + 44) as usize)) == Some::<(Did, usize)>(
            (d2, (pos + 44) as usize),
        ) by {
            lemma_did_json_injective(d, d2);
        }
    }
    Some((d, pos + 44))
}

/// A byte where a hex digit belongs is not one, so no DID matches here.
proof fn did_bad_hex_contradiction(v: Seq<u8>, pos: int, at: int)
    requires
        0 <= pos,
        pos + 3 <= at < pos + 43,
        at < v.len(),
        hex_val(v[at]) is None,
    ensures
        forall|d: Did|
            #![trigger did_json(d)]
            !(pos + 44 <= v.len() && v.subrange(pos, pos + 44) == did_json(d)),
{
    assert forall|d: Did| (pos + 44 <= v.len() && v.subrange(pos, pos + 44) == did_json(d)) implies
        false by {
        assert(v[at] == did_json(d)[at - pos]);
        let m = at - pos - 3;
        assert(did_json(d)[m + 3] == hex_chars(d.bytes())[m]);
        let hc = hex_chars(d.bytes())[m];
        assert(hc == hex_digit(d.bytes()[m / 2] / 16) || hc == hex_digit(d.bytes()[m / 2] % 16));
        assert(0 <= d.bytes()[m / 2] / 16 < 16 && 0 <= d.bytes()[m / 2] % 16 < 16);
        assert(hex_val(hc) is Some);
    }
}

/// Append every byte of `src`.
pub fn append_bytes(out: &mut Vec<u8>, src: &Vec<u8>)
    ensures
        final(out)@ == old(out)@ + src@,
{
    let mut i: usize = 0;
    while i < src.len()
        invariant
            i <= src@.len(),
            out@ == old(out)@ + src@.take(i as int),
        decreases src@.len() - i,
    {
        out.push(src[i]);
        proof {
            assert(out@ =~= old(out)@ + src@.take(i + 1));
        }
        i = i + 1;
    }
    proof {
        assert(final(out)@ =~= old(out)@ + src@);
    }
}

/// Whether the input at `pos` begins with the bytes of `lit`.
pub open spec fn lit_at(v: Seq<u8>, pos: int, lit: &str) -> bool {
    pos + lit.spec_bytes().len() <= v.len() && v.subrange(pos, pos + lit.spec_bytes().len())
        == lit.spec_bytes()
}

/// Append the bytes of a fixed ASCII literal.
pub fn push_lit(out: &mut Vec<u8>, lit: &str)
    ensures
        final(out)@ == old(out)@ + lit.spec_bytes(),
{
    let lb = lit.as_bytes_vec();
    append_bytes(out, &lb);
}

/// Match a fixed literal: reports exactly whether the input at `pos` starts
/// with it, and on success steps over it.
pub fn take_lit(v: &Vec<u8>, pos: usize, lit: &str) -> (r: Option<usize>)
    ensures
        (match r {
            Some(np) => np == pos + lit.spec_bytes().len() && lit_at(v@, pos as int, lit),
            None => !lit_at(v@, pos as int, lit),
        }),
{
    let lb = lit.as_bytes_vec();
    let vn = v.len();
    if pos > vn || lb.len() > vn - pos {
        return None;
    }
    let mut k: usize = 0;
    while k < lb.len()
        invariant
            k <= lb@.len(),
            lb@ == lit.spec_bytes(),
            vn == v@.len(),
            pos + lb@.len() <= vn,
            forall|m: int| 0 <= m < k ==> v@[pos + m] == #[trigger] lb@[m],
        decreases lb@.len() - k,
    {
        if v[pos + k] != lb[k] {
            proof {
                assert(!lit_at(v@, pos as int, lit)) by {
                    if lit_at(v@, pos as int, lit) {
                        assert(v@.subrange(pos as int, pos + lb@.len())[k as int] == lb@[k as int]);
                    }
                }
            }
            return None;
        }
        k = k + 1;
    }
    proof {
        assert(v@.subrange(pos as int, pos + lb@.len()) =~= lb@);
    }
    Some(pos + lb.len())
}

/// Concatenation of sequences associates.
pub proof fn seq_assoc<T>(a: Seq<T>, b: Seq<T>, c: Seq<T>)
    ensures
        (a + b) + c == a + (b + c),
{
    assert((a + b) + c =~= a + (b + c));
}

/// The empty sequence is a left unit of concatenation.
pub proof fn seq_empty_left<T>(a: Seq<T>, e: Seq<T>)
    requires
        e.len() == 0,
    ensures
        e + a == a,
{
    assert(e + a =~= a);
}

/// Splitting a known region: when the input between `p` and `q` is `a`
/// followed by `b`, the input carries `a` at `p` and `b` right after it.
pub proof fn lemma_split_at(v: Seq<u8>, p: int, q: int, a: Seq<u8>, b: Seq<u8>)
    requires
        0 <= p <= q <= v.len(),
        v.subrange(p, q) == a + b,
    ensures
        p + a.len() + b.len() == q,
        v.subrange(p, p + a.len()) == a,
        v.subrange(p + a.len(), q) == b,
{
    let whole = v.subrange(p, q);
    assert(whole.len() == a.len() + b.len());
    assert forall|j: int| 0 <= j < a.len() implies v.subrange(p, p + a.len() as int)[j] == a[j] by {
        assert(whole[j] == (a + b)[j]);
    }
    assert(v.subrange(p, p + a.len() as int) =~= a);
    assert forall|j: int| 0 <= j < b.len() implies v.subrange(p + a.len() as int, q)[j] == b[j] by {
        assert(whole[a.len() + j] == (a + b)[a.len() + j]);
    }
    assert(v.subrange(p + a.len() as int, q) =~= b);
}

/// A region of the input is the two regions it is cut into, joined.
pub proof fn lemma_subrange_stitch(v: Seq<u8>, a: int, b: int, c: int)
    requires
        0 <= a <= b <= c <= v.len(),
    ensures
        v.subrange(a, c) == v.subrange(a, b) + v.subrange(b, c),
{
    assert(v.subrange(a, c) =~= v.subrange(a, b) + v.subrange(b, c));
}

/// Whether a byte vector holds exactly the bytes of an ASCII literal.
pub fn bytes_eq_lit(v: &Vec<u8>, lit: &str) -> (r: bool)
    ensures
        r == (v@ == lit.spec_bytes()),
{
    let lb = lit.as_bytes_vec();
    if v.len() != lb.len() {
        return false;
    }
    let mut k: usize = 0;
    while k < lb.len()
        invariant
            k <= lb@.len(),
            lb@ == lit.spec_bytes(),
            v@.len() == lb@.len(),
            forall|m: int| 0 <= m < k ==> v@[m] == #[trigger] lb@[m],
        decreases lb@.len() - k,
    {
        if v[k] != lb[k] {
            return false;
        }
        k = k + 1;
    }
    proof {
        assert(v@ =~= lb@);
    }
    true
}

} // verus!
