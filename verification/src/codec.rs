//! The self-describing wire encoding of action envelope payloads.
//!
//! Every payload travels as plain bytes in the shared buffer: the type
//! name, field counts and variant tags are carried inline, so neither side
//! needs the other's compile-time type definitions. Integers are
//! little-endian, strings are a character count followed by one 32-bit
//! code point per character, and lists are a 64-bit count followed by the
//! elements in order.
//!
//! Every decoder is proved sound (whatever it accepts is the exact
//! encoding of what it returns) and complete (whenever the input starts
//! with the encoding of a well-formed value, that value is returned), so
//! the encode/decode round trip is a theorem, not a convention.

use vstd::prelude::*;

use crate::ecs::{component_model, field_models, lemma_field_models_index, Component, ComponentModel, Entity};
use crate::log::LogMessage;
use crate::query::{
    filter_model, filter_models, item_model, item_models, query_model, Filter, FilterModel, Query,
    QueryFetch, QueryFetchItem, QueryFetchItemModel, QueryModel,
};

verus! {

// ---------------------------------------------------------------------------
// Byte-sequence prefixes
// ---------------------------------------------------------------------------
/// `p` is an initial segment of `s`.
pub open spec fn is_prefix(p: Seq<u8>, s: Seq<u8>) -> bool {
    p.len() <= s.len() && p == s.subrange(0, p.len() as int)
}

/// A concatenation is a prefix exactly when the first part is a prefix and
/// the second part is a prefix of what remains.
pub proof fn lemma_prefix_split(a: Seq<u8>, b: Seq<u8>, s: Seq<u8>)
    ensures
        is_prefix(a + b, s) <==> is_prefix(a, s) && is_prefix(b, s.skip(a.len() as int)),
{
    if is_prefix(a + b, s) {
        assert(a =~= s.subrange(0, a.len() as int));
        assert forall|k: int| 0 <= k < b.len() implies b[k] == s.skip(a.len() as int)[k] by {
            assert((a + b)[a.len() + k] == b[k]);
            assert(s.subrange(0, (a + b).len() as int)[a.len() + k] == s[a.len() + k]);
        }
        assert(b =~= s.skip(a.len() as int).subrange(0, b.len() as int));
    }
    if is_prefix(a, s) && is_prefix(b, s.skip(a.len() as int)) {
        assert(a + b =~= s.subrange(0, (a + b).len() as int));
    }
}

/// Skipping in two steps is skipping once.
pub proof fn lemma_skip_skip(s: Seq<u8>, i: int, j: int)
    requires
        0 <= i <= j <= s.len(),
    ensures
        s.skip(i).skip(j - i) == s.skip(j),
{
    assert(s.skip(i).skip(j - i) =~= s.skip(j));
}

// ---------------------------------------------------------------------------
// Little-endian integers
// ---------------------------------------------------------------------------
/// 256 to the `k`-th power.
pub open spec fn pow256(k: nat) -> nat
    decreases k,
{
    if k == 0 {
        1
    } else {
        256 * pow256((k - 1) as nat)
    }
}

/// The `k` low-order base-256 digits of `n`, least significant first.
pub open spec fn le_bytes(n: nat, k: nat) -> Seq<u8>
    decreases k,
{
    if k == 0 {
        Seq::empty()
    } else {
        seq![(n % 256) as u8] + le_bytes(n / 256, (k - 1) as nat)
    }
}

/// The natural number a little-endian digit sequence denotes.
pub open spec fn from_le(bs: Seq<u8>) -> nat
    decreases bs.len(),
{
    if bs.len() == 0 {
        0
    } else {
        (bs[0] + 256 * from_le(bs.drop_first())) as nat
    }
}

/// The 8-byte little-endian encoding of a 64-bit integer.
pub open spec fn u64_le(n: u64) -> Seq<u8> {
    le_bytes(n as nat, 8)
}

/// The 4-byte little-endian encoding of a 32-bit integer.
pub open spec fn u32_le(n: u32) -> Seq<u8> {
    le_bytes(n as nat, 4)
}

pub proof fn lemma_le_bytes_len(n: nat, k: nat)
    ensures
        le_bytes(n, k).len() == k,
    decreases k,
{
    if k > 0 {
        lemma_le_bytes_len(n / 256, (k - 1) as nat);
    }
}

/// Denotation inverts digit extraction: the `k` digits of `n < 256^k`
/// denote `n` itself.
pub proof fn lemma_from_le_of_le_bytes(n: nat, k: nat)
    requires
        n < pow256(k),
    ensures
        from_le(le_bytes(n, k)) == n,
    decreases k,
{
    if k > 0 {
        let head: u8 = (n % 256) as u8;
        let tail = le_bytes(n / 256, (k - 1) as nat);
        vstd::arithmetic::div_mod::lemma_multiply_divide_lt(
            n as int,
            256,
            pow256((k - 1) as nat) as int,
        );
        lemma_from_le_of_le_bytes(n / 256, (k - 1) as nat);
        assert((seq![head] + tail).drop_first() =~= tail);
        assert(from_le(seq![head] + tail) == head + 256 * from_le(tail));
        vstd::arithmetic::div_mod::lemma_fundamental_div_mod(n as int, 256);
    }
}

/// Digit extraction inverts denotation: any byte sequence is the digit
/// sequence of the number it denotes.
pub proof fn lemma_le_bytes_of_from_le(bs: Seq<u8>)
    ensures
        le_bytes(from_le(bs), bs.len()) == bs,
    decreases bs.len(),
{
    if bs.len() > 0 {
        let n = from_le(bs);
        let tail_n = from_le(bs.drop_first());
        assert(n == bs[0] + 256 * tail_n);
        vstd::arithmetic::div_mod::lemma_fundamental_div_mod_converse(
            n as int,
            256,
            tail_n as int,
            bs[0] as int,
        );
        lemma_le_bytes_of_from_le(bs.drop_first());
        assert(le_bytes(n, bs.len()) =~= bs);
    }
}

/// The denotation of `k` digits is below 256^k.
pub proof fn lemma_from_le_bound(bs: Seq<u8>)
    ensures
        from_le(bs) < pow256(bs.len()),
    decreases bs.len(),
{
    if bs.len() > 0 {
        lemma_from_le_bound(bs.drop_first());
    }
}

/// Little-endian encoding is injective at a fixed width.
pub proof fn lemma_le_bytes_inj(a: nat, b: nat, k: nat)
    requires
        a < pow256(k),
        b < pow256(k),
        le_bytes(a, k) == le_bytes(b, k),
    ensures
        a == b,
{
    lemma_from_le_of_le_bytes(a, k);
    lemma_from_le_of_le_bytes(b, k);
}

pub proof fn lemma_pow256_64()
    ensures
        pow256(8) == 0x1_0000_0000_0000_0000,
        pow256(4) == 0x1_0000_0000,
{
    reveal_with_fuel(pow256, 9);
}

// ---------------------------------------------------------------------------
// Executable little-endian writers and readers
// ---------------------------------------------------------------------------
/// Appends the little-endian digits of `n`, lowest `width` digits.
fn push_le(buf: &mut Vec<u8>, n: u64, width: usize)
    requires
        width <= 8,
    ensures
        final(buf)@ == old(buf)@ + le_bytes(n as nat, width as nat),
{
    let mut rest: u64 = n;
    let mut k: usize = 0;
    proof {
        assert(buf@ =~= buf@ + le_bytes(rest as nat, 0));
    }
    while k < width
        invariant
            k <= width,
            buf@ + le_bytes(rest as nat, (width - k) as nat) == old(buf)@ + le_bytes(
                n as nat,
                width as nat,
            ),
        decreases width - k,
    {
        let ghost pre = buf@;
        let ghost pre_rest = rest as nat;
        buf.push((rest % 256) as u8);
        rest = rest / 256;
        k = k + 1;
        proof {
            assert(le_bytes(pre_rest, (width - k + 1) as nat) == seq![(pre_rest % 256) as u8]
                + le_bytes(pre_rest / 256, (width - k) as nat));
            assert(buf@ + le_bytes(rest as nat, (width - k) as nat) =~= pre + le_bytes(
                pre_rest,
                (width - k + 1) as nat,
            ));
        }
    }
    proof {
        assert(buf@ =~= buf@ + le_bytes(rest as nat, 0));
    }
}

/// Appends the 8-byte encoding of `n`.
pub fn push_u64(buf: &mut Vec<u8>, n: u64)
    ensures
        final(buf)@ == old(buf)@ + u64_le(n),
{
    push_le(buf, n, 8);
}

/// Appends the 4-byte encoding of `n`.
pub fn push_u32(buf: &mut Vec<u8>, n: u32)
    ensures
        final(buf)@ == old(buf)@ + u32_le(n),
{
    push_le(buf, n as u64, 4);
    proof {
        assert(le_bytes(n as nat, 4) == u32_le(n));
    }
}

/// Reads `width` little-endian digits at `i` and returns their value,
/// or `None` when fewer than `width` bytes remain.
fn read_le(bytes: &Vec<u8>, i: usize, width: usize) -> (r: Option<u64>)
    requires
        i <= bytes@.len(),
        width <= 8,
    ensures
        match r {
            Some(n) => {
                &&& i + width <= bytes@.len()
                &&& le_bytes(n as nat, width as nat) == bytes@.subrange(
                    i as int,
                    i + width as int,
                )
                &&& (n as nat) < pow256(width as nat)
            },
            None => i + width > bytes@.len(),
        },
{
    if width > bytes.len() - i {
        return None;
    }
    let ghost digits = bytes@.subrange(i as int, i + width as int);
    let mut acc: u64 = 0;
    let mut t: usize = 0;
    proof {
        lemma_pow256_64();
        assert(digits.skip(width as int) =~= Seq::<u8>::empty());
    }
    while t < width
        invariant
            t <= width <= 8,
            i + width <= bytes@.len(),
            digits == bytes@.subrange(i as int, i + width as int),
            acc as nat == from_le(digits.skip((width - t) as int)),
            (acc as nat) < pow256(t as nat),
            pow256(8) == 0x1_0000_0000_0000_0000,
        decreases width - t,
    {
        let ghost pre = acc as nat;
        let _buffer_len = bytes.len();
        let b = bytes[i + (width - 1 - t)];
        proof {
            let rest = digits.skip((width - t) as int);
            let more = digits.skip((width - t - 1) as int);
            assert(more.drop_first() =~= rest);
            assert(more[0] == digits[(width - t - 1) as int]);
            assert(digits[(width - t - 1) as int] == bytes@[i + width - 1 - t]);
            assert(from_le(more) == more[0] + 256 * pre);
            assert(pow256((t + 1) as nat) == 256 * pow256(t as nat));
            assert(256 * pre + b <= 256 * (pow256(t as nat) - 1) + 255) by (nonlinear_arith)
                requires
                    pre < pow256(t as nat),
                    b <= 255,
            ;
            assert(256 * pow256(t as nat) <= pow256(8)) by {
                lemma_pow256_mono((t + 1) as nat, 8);
            }
        }
        acc = acc * 256 + (b as u64);
        t = t + 1;
    }
    proof {
        assert(digits.skip(0) =~= digits);
        lemma_le_bytes_of_from_le(digits);
        lemma_from_le_bound(digits);
    }
    Some(acc)
}

/// 256^j <= 256^k when j <= k.
pub proof fn lemma_pow256_mono(j: nat, k: nat)
    requires
        j <= k,
    ensures
        pow256(j) <= pow256(k),
        pow256(j) >= 1,
    decreases k,
{
    if k > 0 {
        if j == k {
            lemma_pow256_mono((j - 1) as nat, (k - 1) as nat);
        } else {
            lemma_pow256_mono(j, (k - 1) as nat);
        }
    }
}

/// Extends a prefix by the bytes that follow it.
pub proof fn lemma_prefix_extend(s: Seq<u8>, i: int, p: Seq<u8>, q: Seq<u8>)
    requires
        0 <= i,
        i + p.len() + q.len() <= s.len(),
        is_prefix(p, s.skip(i)),
        s.subrange(i + p.len(), i + p.len() + q.len()) == q,
    ensures
        is_prefix(p + q, s.skip(i)),
{
    assert forall|k: int| 0 <= k < p.len() + q.len() implies (p + q)[k] == s.skip(i)[k] by {
        if k < p.len() {
            assert(p[k] == s.skip(i).subrange(0, p.len() as int)[k]);
        } else {
            assert(q[k - p.len()] == s.subrange(i + p.len(), i + p.len() + q.len())[k - p.len()]);
        }
    }
    assert(p + q =~= s.skip(i).subrange(0, (p.len() + q.len()) as int));
}

/// A prefix of `s` at `i` shows as the subrange of `s` it occupies.
pub proof fn lemma_prefix_subrange(s: Seq<u8>, i: int, p: Seq<u8>)
    requires
        0 <= i <= s.len(),
        is_prefix(p, s.skip(i)),
    ensures
        s.subrange(i, i + p.len()) == p,
{
    assert forall|k: int| 0 <= k < p.len() implies s.subrange(i, i + p.len())[k] == p[k] by {
        assert(p[k] == s.skip(i).subrange(0, p.len() as int)[k]);
    }
    assert(s.subrange(i, i + p.len()) =~= p);
}

/// Reads an 8-byte integer at `i`.
pub fn read_u64(bytes: &Vec<u8>, i: usize) -> (r: Option<u64>)
    requires
        i <= bytes@.len(),
    ensures
        match r {
            Some(n) => i + 8 <= bytes@.len() && u64_le(n) == bytes@.subrange(i as int, i + 8),
            None => i + 8 > bytes@.len(),
        },
{
    proof {
        lemma_pow256_64();
    }
    read_le(bytes, i, 8)
}

/// Reads a 4-byte integer at `i`.
pub fn read_u32(bytes: &Vec<u8>, i: usize) -> (r: Option<u32>)
    requires
        i <= bytes@.len(),
    ensures
        match r {
            Some(n) => i + 4 <= bytes@.len() && u32_le(n) == bytes@.subrange(i as int, i + 4),
            None => i + 4 > bytes@.len(),
        },
{
    proof {
        lemma_pow256_64();
    }
    match read_le(bytes, i, 4) {
        Some(n) => Some(n as u32),
        None => None,
    }
}

// ---------------------------------------------------------------------------
// Strings
// ---------------------------------------------------------------------------
/// A 32-bit value that is a valid Unicode scalar value, i.e. a `char`.
pub open spec fn is_scalar_value(v: u32) -> bool {
    v < 0xD800 || (0xE000 <= v <= 0x10FFFF)
}

/// Relies on char::from_u32: it returns the character with the given code
/// point, and `None` exactly when the value is no Unicode scalar value.
pub assume_specification[ char::from_u32 ](v: u32) -> (r: Option<char>)
    ensures
        r is Some <==> is_scalar_value(v),
        r matches Some(c) ==> c as u32 == v,
;

/// Relies on str's PartialEq: two string slices are equal exactly when
/// their character sequences are equal.
#[verifier::external_body]
pub(crate) fn str_eq(a: &str, b: &str) -> (r: bool)
    ensures
        r == (a@ == b@),
{
    a == b
}

/// Relies on String::push: it appends the given character to the end.
#[verifier::external_body]
pub(crate) fn string_push_char(s: &mut String, c: char)
    ensures
        final(s)@ == old(s)@.push(c),
{
    s.push(c)
}

/// The character data of a string: one 32-bit code point per character.
pub open spec fn enc_chars(s: Seq<char>) -> Seq<u8>
    decreases s.len(),
{
    if s.len() == 0 {
        Seq::empty()
    } else {
        u32_le(s[0] as u32) + enc_chars(s.drop_first())
    }
}

/// The encoding of a string: its character count, then its characters.
pub open spec fn enc_str(s: Seq<char>) -> Seq<u8> {
    u64_le(s.len() as u64) + enc_chars(s)
}

/// A string the wire format can carry: its length fits the count field.
pub open spec fn str_wf(s: Seq<char>) -> bool {
    s.len() <= u64::MAX
}

/// Character data is four bytes per character, the `k`-th character's
/// code point standing at offset `4 * k`.
pub proof fn lemma_enc_chars_index(s: Seq<char>)
    ensures
        enc_chars(s).len() == 4 * s.len(),
        forall|k: int|
            0 <= k < s.len() ==> enc_chars(s).subrange(4 * k, 4 * k + 4) == u32_le(
                #[trigger] s[k] as u32,
            ),
    decreases s.len(),
{
    lemma_le_bytes_len(0, 4);
    if s.len() > 0 {
        lemma_enc_chars_index(s.drop_first());
        let head = u32_le(s[0] as u32);
        let tail = enc_chars(s.drop_first());
        lemma_le_bytes_len(s[0] as u32 as nat, 4);
        assert forall|k: int| 0 <= k < s.len() implies enc_chars(s).subrange(4 * k, 4 * k + 4)
            == u32_le(#[trigger] s[k] as u32) by {
            if k == 0 {
                assert(enc_chars(s).subrange(0, 4) =~= head);
            } else {
                lemma_le_bytes_len(s.drop_first()[k - 1] as u32 as nat, 4);
                assert(enc_chars(s).subrange(4 * k, 4 * k + 4) =~= tail.subrange(
                    4 * (k - 1),
                    4 * (k - 1) + 4,
                ));
                assert(s.drop_first()[k - 1] == s[k]);
            }
        }
    }
}

/// Appending a character appends its code point.
pub proof fn lemma_enc_chars_push(s: Seq<char>, c: char)
    ensures
        enc_chars(s.push(c)) == enc_chars(s) + u32_le(c as u32),
    decreases s.len(),
{
    if s.len() == 0 {
        lemma_le_bytes_len(c as u32 as nat, 4);
        assert(s.push(c)[0] == c);
        assert(s.push(c).drop_first() =~= Seq::<char>::empty());
        assert(enc_chars(s.push(c)) == u32_le(s.push(c)[0] as u32) + enc_chars(
            s.push(c).drop_first(),
        ));
        assert(enc_chars(s.push(c)) =~= u32_le(c as u32));
        assert(enc_chars(s) + u32_le(c as u32) =~= u32_le(c as u32));
    } else {
        assert(s.push(c).drop_first() =~= s.drop_first().push(c));
        lemma_enc_chars_push(s.drop_first(), c);
        assert(s.push(c)[0] == s[0]);
        assert(enc_chars(s.push(c)) == u32_le(s[0] as u32) + (enc_chars(s.drop_first()) + u32_le(
            c as u32,
        )));
        assert(u32_le(s[0] as u32) + (enc_chars(s.drop_first()) + u32_le(c as u32)) =~= (u32_le(
            s[0] as u32,
        ) + enc_chars(s.drop_first())) + u32_le(c as u32));
    }
}

/// Appends the encoding of a string.
pub fn push_str(buf: &mut Vec<u8>, s: &str)
    ensures
        final(buf)@ == old(buf)@ + enc_str(s@),
        str_wf(s@),
{
    let n = s.unicode_len();
    push_u64(buf, n as u64);
    let mut k: usize = 0;
    proof {
        assert(s@.subrange(0, 0) =~= Seq::<char>::empty());
        assert(buf@ =~= old(buf)@ + u64_le(n as u64) + enc_chars(s@.subrange(0, 0)));
    }
    while k < n
        invariant
            k <= n,
            n == s@.len(),
            buf@ == old(buf)@ + u64_le(n as u64) + enc_chars(s@.subrange(0, k as int)),
        decreases n - k,
    {
        let c = s.get_char(k);
        push_u32(buf, c as u32);
        proof {
            assert(s@.subrange(0, k + 1) =~= s@.subrange(0, k as int).push(s@[k as int]));
            lemma_enc_chars_push(s@.subrange(0, k as int), s@[k as int]);
        }
        k = k + 1;
    }
    proof {
        assert(s@.subrange(0, n as int) =~= s@);
        assert(old(buf)@ + u64_le(n as u64) + enc_chars(s@) =~= old(buf)@ + enc_str(s@));
    }
}

/// Reads a string at `i`: its character count, then that many code
/// points, each of which must be a valid scalar value.
pub fn read_str(bytes: &Vec<u8>, i: usize) -> (r: Option<(String, usize)>)
    requires
        i <= bytes@.len(),
    ensures
        r matches Some(p) ==> {
            &&& i + enc_str(p.0@).len() == p.1 <= bytes@.len()
            &&& is_prefix(enc_str(p.0@), bytes@.skip(i as int))
            &&& str_wf(p.0@)
        },
        forall|m: Seq<char>|
            str_wf(m) && #[trigger] is_prefix(enc_str(m), bytes@.skip(i as int)) ==> (r matches Some(
                p,
            ) && p.0@ == m && p.1 == i + enc_str(m).len()),
{
    proof {
        lemma_pow256_64();
        lemma_le_bytes_len(0, 8);
    }
    let _buffer_len = bytes.len();
    let count = match read_u64(bytes, i) {
        Some(c) => c,
        None => {
            proof {
                assert forall|m: Seq<char>|
                    str_wf(m) && #[trigger] is_prefix(
                        enc_str(m),
                        bytes@.skip(i as int),
                    ) implies false by {
                    lemma_le_bytes_len(m.len() as u64 as nat, 8);
                }
            }
            return None;
        },
    };
    let mut s = String::new();
    let mut j: usize = i + 8;
    let mut k: u64 = 0;
    proof {
        lemma_le_bytes_len(count as nat, 8);
        assert(s@ =~= Seq::<char>::empty());
        assert(u64_le(count) + enc_chars(s@) =~= u64_le(count));
        lemma_prefix_subrange_rev(bytes@, i as int, u64_le(count));
        assert forall|m: Seq<char>|
            str_wf(m) && #[trigger] is_prefix(enc_str(m), bytes@.skip(i as int)) implies m.len()
            == count && m.subrange(0, 0) == s@ by {
            lemma_str_head(bytes@, i as int, m, count);
            assert(m.subrange(0, 0) =~= Seq::<char>::empty());
        }
    }
    while k < count
        invariant
            bytes@.len() <= usize::MAX,
            i + 8 <= j <= bytes@.len(),
            j == i + 8 + 4 * k,
            k == s@.len(),
            k <= count,
            bytes@.subrange(i as int, i + 8) == u64_le(count),
            is_prefix(u64_le(count) + enc_chars(s@), bytes@.skip(i as int)),
            forall|m: Seq<char>|
                str_wf(m) && #[trigger] is_prefix(enc_str(m), bytes@.skip(i as int)) ==> m.len()
                    == count && m.subrange(0, k as int) == s@,
        decreases count - k,
    {
        proof {
            lemma_enc_chars_index(s@);
            lemma_le_bytes_len(count as nat, 8);
        }
        let code = match read_u32(bytes, j) {
            Some(c) => c,
            None => {
                proof {
                    assert forall|m: Seq<char>|
                        str_wf(m) && #[trigger] is_prefix(
                            enc_str(m),
                            bytes@.skip(i as int),
                        ) implies false by {
                        lemma_char_at(bytes@, i as int, m, k as int, j as int, count);
                    }
                }
                return None;
            },
        };
        let c = match char::from_u32(code) {
            Some(c) => c,
            None => {
                proof {
                    assert forall|m: Seq<char>|
                        str_wf(m) && #[trigger] is_prefix(
                            enc_str(m),
                            bytes@.skip(i as int),
                        ) implies false by {
                        lemma_char_at(bytes@, i as int, m, k as int, j as int, count);
                        lemma_pow256_64();
                        lemma_le_bytes_len(code as nat, 4);
                        lemma_le_bytes_len(m[k as int] as u32 as nat, 4);
                        lemma_le_bytes_inj(m[k as int] as u32 as nat, code as nat, 4);
                        vstd::utf8::char_is_scalar(m[k as int]);
                        assert(is_scalar_value(m[k as int] as u32));
                    }
                }
                return None;
            },
        };
        proof {
            let pre = s@;
            lemma_enc_chars_push(pre, c);
            lemma_le_bytes_len(code as nat, 4);
            lemma_prefix_extend(bytes@, i as int, u64_le(count) + enc_chars(pre), u32_le(code));
            assert((u64_le(count) + enc_chars(pre)) + u32_le(code) =~= u64_le(count) + enc_chars(
                pre.push(c),
            ));
            assert forall|m: Seq<char>|
                str_wf(m) && #[trigger] is_prefix(
                    enc_str(m),
                    bytes@.skip(i as int),
                ) implies m.subrange(0, k as int + 1) == pre.push(c) by {
                lemma_char_at(bytes@, i as int, m, k as int, j as int, count);
                lemma_pow256_64();
                lemma_le_bytes_len(m[k as int] as u32 as nat, 4);
                lemma_le_bytes_inj(m[k as int] as u32 as nat, code as nat, 4);
                assert(m[k as int] as u32 == c as u32);
                vstd::utf8::char_u32_cast(m[k as int], code);
                vstd::utf8::char_u32_cast(c, code);
                assert(m[k as int] == c);
                assert(m.subrange(0, k as int + 1) =~= m.subrange(0, k as int).push(m[k as int]));
            }
        }
        string_push_char(&mut s, c);
        j = j + 4;
        k = k + 1;
    }
    proof {
        lemma_enc_chars_index(s@);
        lemma_le_bytes_len(count as nat, 8);
        assert(u64_le(s@.len() as u64) == u64_le(count));
        assert(enc_str(s@) =~= u64_le(count) + enc_chars(s@));
        assert forall|m: Seq<char>|
            str_wf(m) && #[trigger] is_prefix(enc_str(m), bytes@.skip(i as int)) implies m == s@
            && i + enc_str(m).len() == j by {
            assert(m.subrange(0, m.len() as int) =~= m);
            lemma_enc_chars_index(m);
        }
    }
    Some((s, j))
}

/// An encoded string starting at `i` agrees with the count stored there,
/// and its character data follows the count.
proof fn lemma_str_head(s: Seq<u8>, i: int, m: Seq<char>, count: u64)
    requires
        0 <= i,
        i + 8 <= s.len(),
        str_wf(m),
        is_prefix(enc_str(m), s.skip(i)),
        s.subrange(i, i + 8) == u64_le(count),
    ensures
        m.len() == count,
        is_prefix(enc_chars(m), s.skip(i + 8)),
{
    lemma_le_bytes_len(m.len() as u64 as nat, 8);
    lemma_le_bytes_len(count as nat, 8);
    lemma_prefix_split(u64_le(m.len() as u64), enc_chars(m), s.skip(i));
    lemma_prefix_subrange(s, i, u64_le(m.len() as u64));
    lemma_pow256_64();
    lemma_le_bytes_inj(m.len() as u64 as nat, count as nat, 8);
    lemma_skip_skip(s, i, i + 8);
}

/// Inside a string encoding that starts at `i`, the `k`-th character's
/// code point occupies the four bytes at `i + 8 + 4 * k`.
proof fn lemma_char_at(s: Seq<u8>, i: int, m: Seq<char>, k: int, j: int, count: u64)
    requires
        0 <= i,
        i + 8 <= s.len(),
        str_wf(m),
        is_prefix(enc_str(m), s.skip(i)),
        s.subrange(i, i + 8) == u64_le(count),
        0 <= k < count,
        j == i + 8 + 4 * k,
    ensures
        m.len() == count,
        j + 4 <= s.len(),
        s.subrange(j, j + 4) == u32_le(m[k] as u32),
{
    lemma_str_head(s, i, m, count);
    lemma_enc_chars_index(m);
    let chars = enc_chars(m);
    assert(chars.subrange(4 * k, 4 * k + 4) == u32_le(m[k] as u32));
    lemma_le_bytes_len(m[k] as u32 as nat, 4);
    assert(4 * k + 4 <= 4 * (count as int));
    assert(chars.len() == 4 * m.len());
    assert(chars.len() <= s.skip(i + 8).len());
    assert(j + 4 <= s.len());
    assert(s.subrange(j, j + 4) =~= chars.subrange(4 * k, 4 * k + 4)) by {
        assert(chars == s.skip(i + 8).subrange(0, chars.len() as int));
        assert forall|t: int| 0 <= t < 4 implies #[trigger] s.subrange(j, j + 4)[t]
            == chars.subrange(4 * k, 4 * k + 4)[t] by {
            assert(chars[4 * k + t] == s.skip(i + 8).subrange(0, chars.len() as int)[4 * k + t]);
            assert(s.skip(i + 8)[4 * k + t] == s[i + 8 + 4 * k + t]);
            assert(s.subrange(j, j + 4)[t] == s[j + t]);
            assert(chars.subrange(4 * k, 4 * k + 4)[t] == chars[4 * k + t]);
        }
    }
}

/// A subrange equality turned into a prefix of the remainder.
pub proof fn lemma_prefix_subrange_rev(s: Seq<u8>, i: int, p: Seq<u8>)
    requires
        0 <= i,
        i + p.len() <= s.len(),
        s.subrange(i, i + p.len()) == p,
    ensures
        is_prefix(p, s.skip(i)),
{
    assert(p =~= s.skip(i).subrange(0, p.len() as int));
}

// ---------------------------------------------------------------------------
// Component value trees
// ---------------------------------------------------------------------------
/// A component tree the wire format can carry: every list and string
/// length fits its count field.
pub open spec fn component_wf(c: ComponentModel) -> bool
    decreases c,
{
    match c {
        ComponentModel::Unsupported => true,
        ComponentModel::FieldMap(fs) => fs.len() <= u64::MAX && fields_wf(fs),
        ComponentModel::TaggedVariant(name, payload) => str_wf(name) && component_wf(*payload),
    }
}

/// Well-formedness of a field list: every name and value is well-formed.
pub open spec fn fields_wf(fs: Seq<(Seq<char>, ComponentModel)>) -> bool
    decreases fs,
{
    if fs.len() == 0 {
        true
    } else {
        str_wf(fs[0].0) && component_wf(fs[0].1) && fields_wf(fs.drop_first())
    }
}

/// The encoding of a component tree: a variant tag, then the variant's
/// data. A field map carries its field count, a tagged variant its name.
pub open spec fn enc_component(c: ComponentModel) -> Seq<u8>
    decreases c,
{
    match c {
        ComponentModel::Unsupported => seq![0u8],
        ComponentModel::FieldMap(fs) => seq![1u8] + u64_le(fs.len() as u64) + enc_fields(fs),
        ComponentModel::TaggedVariant(name, payload) => seq![2u8] + enc_str(name) + enc_component(
            *payload,
        ),
    }
}

/// The encoding of a field list: each name, then its value, in order.
pub open spec fn enc_fields(fs: Seq<(Seq<char>, ComponentModel)>) -> Seq<u8>
    decreases fs,
{
    if fs.len() == 0 {
        Seq::empty()
    } else {
        enc_str(fs[0].0) + enc_component(fs[0].1) + enc_fields(fs.drop_first())
    }
}

/// The first byte of a component encoding names its variant.
pub proof fn lemma_enc_component_head(m: ComponentModel)
    ensures
        enc_component(m).len() >= 1,
        m is Unsupported ==> enc_component(m) == seq![0u8],
        m is FieldMap ==> enc_component(m)[0] == 1,
        m is TaggedVariant ==> enc_component(m)[0] == 2,
{
    match m {
        ComponentModel::Unsupported => {},
        ComponentModel::FieldMap(fs) => {
            assert(enc_component(m)[0] == (seq![1u8] + u64_le(fs.len() as u64))[0]);
        },
        ComponentModel::TaggedVariant(name, payload) => {
            assert(enc_component(m)[0] == (seq![2u8] + enc_str(name))[0]);
        },
    }
}

/// Encoding distributes over field-list concatenation, as does
/// well-formedness.
pub proof fn lemma_enc_fields_concat(a: Seq<(Seq<char>, ComponentModel)>, b: Seq<(Seq<char>, ComponentModel)>)
    ensures
        enc_fields(a + b) == enc_fields(a) + enc_fields(b),
        fields_wf(a + b) <==> fields_wf(a) && fields_wf(b),
    decreases a,
{
    if a.len() == 0 {
        assert(a + b =~= b);
        assert(enc_fields(a) + enc_fields(b) =~= enc_fields(b));
    } else {
        assert((a + b)[0] == a[0]);
        assert((a + b).drop_first() =~= a.drop_first() + b);
        lemma_enc_fields_concat(a.drop_first(), b);
        assert(enc_fields(a + b) == enc_str(a[0].0) + enc_component(a[0].1) + (enc_fields(
            a.drop_first(),
        ) + enc_fields(b)));
        assert(enc_str(a[0].0) + enc_component(a[0].1) + (enc_fields(a.drop_first()) + enc_fields(
            b,
        )) =~= (enc_str(a[0].0) + enc_component(a[0].1) + enc_fields(a.drop_first())) + enc_fields(
            b,
        ));
    }
}

/// Appends the encoding of a component tree.
#[verifier::loop_isolation(false)]
pub fn encode_component_into(buf: &mut Vec<u8>, c: &Component)
    ensures
        final(buf)@ == old(buf)@ + enc_component(component_model(*c)),
        component_wf(component_model(*c)),
    decreases *c,
{
    match c {
        Component::Unsupported => {
            buf.push(0);
            proof {
                assert(buf@ =~= old(buf)@ + enc_component(component_model(*c)));
            }
        },
        Component::FieldMap(fields) => {
            let ghost models = field_models(fields@);
            proof {
                lemma_field_models_index(fields@);
            }
            buf.push(1);
            push_u64(buf, fields.len() as u64);
            let ghost header = buf@;
            let mut idx: usize = 0;
            proof {
                assert(models.take(0) =~= Seq::empty());
                assert(buf@ =~= header + enc_fields(models.take(0)));
            }
            while idx < fields.len()
                invariant
                    idx <= fields.len(),
                    models == field_models(fields@),
                    models.len() == fields@.len(),
                    forall|t: int|
                        0 <= t < fields@.len() ==> #[trigger] models[t] == (
                            fields@[t].0@,
                            component_model(fields@[t].1),
                        ),
                    header == old(buf)@ + seq![1u8] + u64_le(fields@.len() as u64),
                    buf@ == header + enc_fields(models.take(idx as int)),
                    fields_wf(models.take(idx as int)),
                decreases fields@.len() - idx,
            {
                let ghost done = models.take(idx as int);
                proof {
                    assert(decreases_to!(*c => fields@[idx as int].1)) by {
                        assert(decreases_to!(*c => c->FieldMap_0));
                        assert(c->FieldMap_0 == *fields);
                        assert(decreases_to!(*fields => fields@));
                        assert(decreases_to!(fields@ => fields@[idx as int]));
                        assert(decreases_to!(fields@[idx as int] => fields@[idx as int].1));
                    }
                }
                push_str(buf, fields[idx].0.as_str());
                encode_component_into(buf, &fields[idx].1);
                proof {
                    let one = seq![models[idx as int]];
                    assert(enc_fields(one) == enc_str(one[0].0) + enc_component(one[0].1)
                        + enc_fields(one.drop_first()));
                    assert(one.drop_first() =~= Seq::empty());
                    assert(enc_str(one[0].0) + enc_component(one[0].1) + enc_fields(
                        Seq::empty(),
                    ) =~= enc_str(one[0].0) + enc_component(one[0].1));
                    assert(one[0] == models[idx as int]);
                    assert(str_wf(one[0].0));
                    assert(component_wf(one[0].1));
                    assert(fields_wf(one.drop_first()));
                    assert(fields_wf(one));
                    lemma_enc_fields_concat(done, one);
                    assert(done + one =~= models.take(idx + 1));
                    assert(buf@ =~= header + enc_fields(models.take(idx + 1)));
                }
                idx = idx + 1;
            }
            proof {
                assert(models.take(fields@.len() as int) =~= models);
                assert(old(buf)@ + seq![1u8] + u64_le(fields@.len() as u64) + enc_fields(models)
                    =~= old(buf)@ + enc_component(component_model(*c)));
            }
        },
        Component::TaggedVariant(name, payload) => {
            buf.push(2);
            push_str(buf, name.as_str());
            proof {
                assert(decreases_to!(*c => **payload)) by {
                    assert(decreases_to!(*c => c->TaggedVariant_1));
                }
            }
            encode_component_into(buf, &**payload);
            proof {
                assert(old(buf)@ + seq![2u8] + enc_str(name@) + enc_component(
                    component_model(**payload),
                ) =~= old(buf)@ + enc_component(component_model(*c)));
            }
        },
    }
}

/// Reads a component tree at `i`: a variant tag, then the variant data.
pub fn read_component(bytes: &Vec<u8>, i: usize) -> (r: Option<(Component, usize)>)
    requires
        i <= bytes@.len(),
    ensures
        r matches Some(p) ==> {
            &&& i + enc_component(component_model(p.0)).len() == p.1 <= bytes@.len()
            &&& is_prefix(enc_component(component_model(p.0)), bytes@.skip(i as int))
            &&& component_wf(component_model(p.0))
        },
        forall|m: ComponentModel|
            component_wf(m) && #[trigger] is_prefix(enc_component(m), bytes@.skip(i as int)) ==> (
            r matches Some(p) && component_model(p.0) == m && p.1 == i + enc_component(m).len()),
    decreases bytes@.len() - i,
{
    if i >= bytes.len() {
        proof {
            assert forall|m: ComponentModel|
                component_wf(m) && #[trigger] is_prefix(
                    enc_component(m),
                    bytes@.skip(i as int),
                ) implies false by {
                lemma_enc_component_head(m);
            }
        }
        return None;
    }
    let tag = bytes[i];
    if tag == 0 {
        proof {
            assert forall|m: ComponentModel|
                component_wf(m) && #[trigger] is_prefix(
                    enc_component(m),
                    bytes@.skip(i as int),
                ) implies m == ComponentModel::Unsupported && i + enc_component(m).len() == i
                + 1 by {
                lemma_enc_component_head(m);
                assert(enc_component(m)[0] == bytes@.skip(i as int)[0]);
            }
            assert(enc_component(component_model(Component::Unsupported)) =~= seq![0u8]);
            assert(is_prefix(seq![0u8], bytes@.skip(i as int))) by {
                assert(seq![0u8] =~= bytes@.skip(i as int).subrange(0, 1));
            }
        }
        Some((Component::Unsupported, i + 1))
    } else if tag == 1 {
        let count = match read_u64(bytes, i + 1) {
            Some(c) => c,
            None => {
                proof {
                    assert forall|m: ComponentModel|
                        component_wf(m) && #[trigger] is_prefix(
                            enc_component(m),
                            bytes@.skip(i as int),
                        ) implies false by {
                        lemma_fieldmap_split(bytes@, i as int, m);
                    }
                }
                return None;
            },
        };
        let (fields, j) = match read_field_list(bytes, i + 9, count) {
            Some(p) => p,
            None => {
                proof {
                    assert forall|m: ComponentModel|
                        component_wf(m) && #[trigger] is_prefix(
                            enc_component(m),
                            bytes@.skip(i as int),
                        ) implies false by {
                        lemma_fieldmap_split(bytes@, i as int, m);
                        let fs = m->FieldMap_0;
                        lemma_le_bytes_len(fs.len() as u64 as nat, 8);
                        lemma_le_bytes_len(count as nat, 8);
                        lemma_pow256_64();
                        lemma_le_bytes_inj(fs.len() as u64 as nat, count as nat, 8);
                    }
                }
                return None;
            },
        };
        proof {
            lemma_le_bytes_len(count as nat, 8);
            let vm = component_model(Component::FieldMap(fields));
            assert(vm == ComponentModel::FieldMap(field_models(fields@)));
            let fenc = enc_fields(field_models(fields@));
            assert(is_prefix(seq![1u8], bytes@.skip(i as int))) by {
                assert(seq![1u8] =~= bytes@.skip(i as int).subrange(0, 1));
            }
            assert(bytes@.subrange(i + 1, i + 1 + 8) == u64_le(count));
            lemma_prefix_extend(bytes@, i as int, seq![1u8], u64_le(count));
            assert(bytes@.subrange(i + 9, i + 9 + fenc.len() as int) == fenc) by {
                lemma_prefix_subrange(bytes@, i + 9, fenc);
            }
            assert((seq![1u8] + u64_le(count)).len() == 9);
            lemma_prefix_extend(bytes@, i as int, seq![1u8] + u64_le(count), fenc);
            assert(field_models(fields@).len() == fields@.len()) by {
                lemma_field_models_index(fields@);
            }
            assert(u64_le(fields@.len() as u64) == u64_le(count));
            assert((seq![1u8] + u64_le(count)) + fenc =~= enc_component(vm));
            assert forall|m: ComponentModel|
                component_wf(m) && #[trigger] is_prefix(
                    enc_component(m),
                    bytes@.skip(i as int),
                ) implies m == vm && i + enc_component(m).len() == j by {
                lemma_fieldmap_split(bytes@, i as int, m);
                let fs = m->FieldMap_0;
                lemma_le_bytes_len(fs.len() as u64 as nat, 8);
                lemma_pow256_64();
                lemma_le_bytes_inj(fs.len() as u64 as nat, count as nat, 8);
                assert(fs.len() == count);
                assert(field_models(fields@) == fs && j == i + 9 + enc_fields(fs).len());
                assert(enc_component(m) == seq![1u8] + u64_le(count) + enc_fields(fs));
            }
        }
        Some((Component::FieldMap(fields), j))
    } else if tag == 2 {
        let (name, j1) = match read_str(bytes, i + 1) {
            Some(p) => p,
            None => {
                proof {
                    assert forall|m: ComponentModel|
                        component_wf(m) && #[trigger] is_prefix(
                            enc_component(m),
                            bytes@.skip(i as int),
                        ) implies false by {
                        lemma_tagged_split(bytes@, i as int, m);
                    }
                }
                return None;
            },
        };
        let (payload, j2) = match read_component(bytes, j1) {
            Some(p) => p,
            None => {
                proof {
                    assert forall|m: ComponentModel|
                        component_wf(m) && #[trigger] is_prefix(
                            enc_component(m),
                            bytes@.skip(i as int),
                        ) implies false by {
                        lemma_tagged_split(bytes@, i as int, m);
                        let nm = m->TaggedVariant_0;
                        assert(name@ == nm && j1 == i + 1 + enc_str(nm).len());
                    }
                }
                return None;
            },
        };
        proof {
            let vm = component_model(Component::TaggedVariant(name, Box::new(payload)));
            assert(vm == ComponentModel::TaggedVariant(name@, Box::new(component_model(payload))));
            let penc = enc_component(component_model(payload));
            assert(is_prefix(seq![2u8], bytes@.skip(i as int))) by {
                assert(seq![2u8] =~= bytes@.skip(i as int).subrange(0, 1));
            }
            assert(bytes@.subrange(i + 1, i + 1 + enc_str(name@).len() as int) == enc_str(name@))
                by {
                lemma_prefix_subrange(bytes@, i + 1, enc_str(name@));
            }
            lemma_prefix_extend(bytes@, i as int, seq![2u8], enc_str(name@));
            assert(bytes@.subrange(j1 as int, j1 + penc.len() as int) == penc) by {
                lemma_prefix_subrange(bytes@, j1 as int, penc);
            }
            assert((seq![2u8] + enc_str(name@)).len() == 1 + enc_str(name@).len());
            lemma_prefix_extend(bytes@, i as int, seq![2u8] + enc_str(name@), penc);
            assert((seq![2u8] + enc_str(name@)) + penc =~= enc_component(vm));
            assert forall|m: ComponentModel|
                component_wf(m) && #[trigger] is_prefix(
                    enc_component(m),
                    bytes@.skip(i as int),
                ) implies m == vm && i + enc_component(m).len() == j2 by {
                lemma_tagged_split(bytes@, i as int, m);
                let nm = m->TaggedVariant_0;
                let pl = m->TaggedVariant_1;
                assert(name@ == nm && j1 == i + 1 + enc_str(nm).len());
                assert(component_model(payload) == *pl && j2 == j1 + enc_component(*pl).len());
                assert(enc_component(m) == seq![2u8] + enc_str(nm) + enc_component(*pl));
            }
        }
        Some((Component::TaggedVariant(name, Box::new(payload)), j2))
    } else {
        proof {
            assert forall|m: ComponentModel|
                component_wf(m) && #[trigger] is_prefix(
                    enc_component(m),
                    bytes@.skip(i as int),
                ) implies false by {
                lemma_enc_component_head(m);
                assert(enc_component(m)[0] == bytes@.skip(i as int)[0]);
            }
        }
        None
    }
}

/// A field-map encoding at `i` splits into its tag byte, its count and
/// its field data.
proof fn lemma_fieldmap_split(s: Seq<u8>, i: int, m: ComponentModel)
    requires
        0 <= i < s.len(),
        component_wf(m),
        is_prefix(enc_component(m), s.skip(i)),
        s[i] == 1,
    ensures
        m is FieldMap,
        fields_wf(m->FieldMap_0),
        m->FieldMap_0.len() <= u64::MAX,
        i + 9 <= s.len(),
        is_prefix(u64_le(m->FieldMap_0.len() as u64), s.skip(i + 1)),
        s.subrange(i + 1, i + 9) == u64_le(m->FieldMap_0.len() as u64),
        is_prefix(enc_fields(m->FieldMap_0), s.skip(i + 9)),
        enc_component(m).len() == 9 + enc_fields(m->FieldMap_0).len(),
{
    lemma_enc_component_head(m);
    assert(enc_component(m)[0] == s.skip(i)[0]);
    let fs = m->FieldMap_0;
    let n_enc = u64_le(fs.len() as u64);
    lemma_le_bytes_len(fs.len() as u64 as nat, 8);
    lemma_prefix_split(seq![1u8] + n_enc, enc_fields(fs), s.skip(i));
    lemma_prefix_split(seq![1u8], n_enc, s.skip(i));
    lemma_skip_skip(s, i, i + 1);
    lemma_skip_skip(s, i, i + 9);
    assert(s.skip(i).skip(1) == s.skip(i + 1));
    assert(s.skip(i + 1).skip(8) == s.skip(i + 9)) by {
        lemma_skip_skip(s, i + 1, i + 9);
    }
    lemma_prefix_subrange(s, i + 1, n_enc);
}

/// A tagged-variant encoding at `i` splits into its tag byte, its name
/// and its payload.
proof fn lemma_tagged_split(s: Seq<u8>, i: int, m: ComponentModel)
    requires
        0 <= i < s.len(),
        component_wf(m),
        is_prefix(enc_component(m), s.skip(i)),
        s[i] == 2,
    ensures
        m is TaggedVariant,
        str_wf(m->TaggedVariant_0),
        component_wf(*m->TaggedVariant_1),
        is_prefix(enc_str(m->TaggedVariant_0), s.skip(i + 1)),
        i + 1 + enc_str(m->TaggedVariant_0).len() <= s.len(),
        is_prefix(
            enc_component(*m->TaggedVariant_1),
            s.skip(i + 1 + enc_str(m->TaggedVariant_0).len() as int),
        ),
        enc_component(m).len() == 1 + enc_str(m->TaggedVariant_0).len() + enc_component(
            *m->TaggedVariant_1,
        ).len(),
{
    lemma_enc_component_head(m);
    assert(enc_component(m)[0] == s.skip(i)[0]);
    let nm = m->TaggedVariant_0;
    let pl = m->TaggedVariant_1;
    lemma_prefix_split(seq![2u8] + enc_str(nm), enc_component(*pl), s.skip(i));
    lemma_prefix_split(seq![2u8], enc_str(nm), s.skip(i));
    lemma_skip_skip(s, i, i + 1);
    assert(s.skip(i).skip(1) == s.skip(i + 1));
    lemma_skip_skip(s, i, i + 1 + enc_str(nm).len() as int);
    assert(s.skip(i).skip(1 + enc_str(nm).len() as int) == s.skip(
        i + 1 + enc_str(nm).len() as int,
    ));
}

/// Reads `count` name/value fields starting at `i`.
pub fn read_field_list(bytes: &Vec<u8>, i: usize, count: u64) -> (r: Option<
    (Vec<(String, Component)>, usize),
>)
    requires
        i <= bytes@.len(),
    ensures
        r matches Some(p) ==> {
            &&& p.0@.len() == count
            &&& i + enc_fields(field_models(p.0@)).len() == p.1 <= bytes@.len()
            &&& is_prefix(enc_fields(field_models(p.0@)), bytes@.skip(i as int))
            &&& fields_wf(field_models(p.0@))
        },
        forall|m: Seq<(Seq<char>, ComponentModel)>|
            m.len() == count && fields_wf(m) && #[trigger] is_prefix(
                enc_fields(m),
                bytes@.skip(i as int),
            ) ==> (r matches Some(p) && field_models(p.0@) == m && p.1 == i + enc_fields(m).len()),
    decreases bytes@.len() - i, count,
{
    if count == 0 {
        proof {
            assert(field_models(Seq::<(String, Component)>::empty()) =~= Seq::<(
                Seq<char>,
                ComponentModel,
            )>::empty());
            assert forall|m: Seq<(Seq<char>, ComponentModel)>|
                m.len() == count && fields_wf(m) && #[trigger] is_prefix(
                    enc_fields(m),
                    bytes@.skip(i as int),
                ) implies m == field_models(Seq::<(String, Component)>::empty()) && i + enc_fields(
                m,
            ).len() == i by {
                assert(m =~= Seq::<(Seq<char>, ComponentModel)>::empty());
            }
        }
        let v: Vec<(String, Component)> = Vec::new();
        proof {
            assert(v@ =~= Seq::<(String, Component)>::empty());
            assert(is_prefix(enc_fields(field_models(v@)), bytes@.skip(i as int))) by {
                assert(Seq::<u8>::empty() =~= bytes@.skip(i as int).subrange(0, 0));
            }
        }
        return Some((v, i));
    }
    let (name, j1) = match read_str(bytes, i) {
        Some(p) => p,
        None => {
            proof {
                assert forall|m: Seq<(Seq<char>, ComponentModel)>|
                    m.len() == count && fields_wf(m) && #[trigger] is_prefix(
                        enc_fields(m),
                        bytes@.skip(i as int),
                    ) implies false by {
                    lemma_field_list_split(bytes@, i as int, m);
                }
            }
            return None;
        },
    };
    let (value, j2) = match read_component(bytes, j1) {
        Some(p) => p,
        None => {
            proof {
                assert forall|m: Seq<(Seq<char>, ComponentModel)>|
                    m.len() == count && fields_wf(m) && #[trigger] is_prefix(
                        enc_fields(m),
                        bytes@.skip(i as int),
                    ) implies false by {
                    lemma_field_list_split(bytes@, i as int, m);
                    assert(name@ == m[0].0 && j1 == i + enc_str(m[0].0).len());
                }
            }
            return None;
        },
    };
    let (rest, j3) = match read_field_list(bytes, j2, count - 1) {
        Some(p) => p,
        None => {
            proof {
                assert forall|m: Seq<(Seq<char>, ComponentModel)>|
                    m.len() == count && fields_wf(m) && #[trigger] is_prefix(
                        enc_fields(m),
                        bytes@.skip(i as int),
                    ) implies false by {
                    lemma_field_list_split(bytes@, i as int, m);
                    assert(name@ == m[0].0 && j1 == i + enc_str(m[0].0).len());
                    assert(component_model(value) == m[0].1 && j2 == j1 + enc_component(
                        m[0].1,
                    ).len());
                    assert(m.drop_first().len() == count - 1);
                }
            }
            return None;
        },
    };
    let mut v = rest;
    v.insert(0, (name, value));
    proof {
        let head = seq![(name@, component_model(value))];
        let vm = field_models(v@);
        assert(v@ =~= seq![(name, value)] + rest@);
        assert(vm =~= head + field_models(rest@)) by {
            lemma_field_models_index(v@);
            lemma_field_models_index(rest@);
            assert forall|t: int| 0 <= t < vm.len() implies vm[t] == (head + field_models(
                rest@,
            ))[t] by {
                if t > 0 {
                    assert(v@[t] == rest@[t - 1]);
                }
            }
        }
        lemma_enc_fields_concat(head, field_models(rest@));
        assert(enc_fields(head) =~= enc_str(name@) + enc_component(component_model(value))) by {
            assert(head.drop_first() =~= Seq::<(Seq<char>, ComponentModel)>::empty());
            assert(enc_str(head[0].0) + enc_component(head[0].1) + enc_fields(Seq::empty())
                =~= enc_str(name@) + enc_component(component_model(value)));
        }
        let venc = enc_component(component_model(value));
        let renc = enc_fields(field_models(rest@));
        assert(bytes@.subrange(j1 as int, j1 + venc.len() as int) == venc) by {
            lemma_prefix_subrange(bytes@, j1 as int, venc);
        }
        lemma_prefix_extend(bytes@, i as int, enc_str(name@), venc);
        assert(bytes@.subrange(j2 as int, j2 + renc.len() as int) == renc) by {
            lemma_prefix_subrange(bytes@, j2 as int, renc);
        }
        assert((enc_str(name@) + venc).len() == enc_str(name@).len() + venc.len());
        lemma_prefix_extend(bytes@, i as int, enc_str(name@) + venc, renc);
        assert((enc_str(name@) + venc) + renc =~= enc_fields(vm));
        assert(head[0] == (name@, component_model(value)));
        assert(str_wf(head[0].0));
        assert(component_wf(head[0].1));
        assert(head.drop_first() =~= Seq::<(Seq<char>, ComponentModel)>::empty());
        assert(fields_wf(head.drop_first()));
        assert(fields_wf(head));
        assert(fields_wf(vm));
        assert(v@.len() == count);
        assert(is_prefix(enc_fields(vm), bytes@.skip(i as int)));
        assert(i + enc_fields(vm).len() == j3);
        assert forall|m: Seq<(Seq<char>, ComponentModel)>|
            m.len() == count && fields_wf(m) && #[trigger] is_prefix(
                enc_fields(m),
                bytes@.skip(i as int),
            ) implies m == vm && i + enc_fields(m).len() == j3 by {
            lemma_field_list_split(bytes@, i as int, m);
            assert(name@ == m[0].0 && j1 == i + enc_str(m[0].0).len());
            assert(component_model(value) == m[0].1 && j2 == j1 + enc_component(m[0].1).len());
            assert(m.drop_first().len() == count - 1);
            assert(field_models(rest@) == m.drop_first() && j3 == j2 + enc_fields(
                m.drop_first(),
            ).len());
            assert(m =~= seq![m[0]] + m.drop_first());
            assert(vm =~= head + field_models(rest@));
            assert(m == vm) by {
                assert(seq![m[0]] + m.drop_first() =~= head + field_models(rest@));
            }
            assert(enc_fields(m) == enc_str(m[0].0) + enc_component(m[0].1) + enc_fields(
                m.drop_first(),
            ));
        }
    }
    Some((v, j3))
}

/// A nonempty field-list encoding at `i` splits into its first name, its
/// first value and the remaining fields.
proof fn lemma_field_list_split(s: Seq<u8>, i: int, m: Seq<(Seq<char>, ComponentModel)>)
    requires
        0 <= i <= s.len(),
        m.len() > 0,
        fields_wf(m),
        is_prefix(enc_fields(m), s.skip(i)),
    ensures
        str_wf(m[0].0),
        component_wf(m[0].1),
        fields_wf(m.drop_first()),
        is_prefix(enc_str(m[0].0), s.skip(i)),
        i + enc_str(m[0].0).len() <= s.len(),
        is_prefix(enc_component(m[0].1), s.skip(i + enc_str(m[0].0).len() as int)),
        i + enc_str(m[0].0).len() + enc_component(m[0].1).len() <= s.len(),
        is_prefix(
            enc_fields(m.drop_first()),
            s.skip(i + enc_str(m[0].0).len() + enc_component(m[0].1).len() as int),
        ),
        enc_fields(m).len() == enc_str(m[0].0).len() + enc_component(m[0].1).len() + enc_fields(
            m.drop_first(),
        ).len(),
{
    lemma_prefix_split(enc_str(m[0].0) + enc_component(m[0].1), enc_fields(m.drop_first()), s.skip(i));
    lemma_prefix_split(enc_str(m[0].0), enc_component(m[0].1), s.skip(i));
    let l0 = enc_str(m[0].0).len() as int;
    let l1 = enc_component(m[0].1).len() as int;
    lemma_skip_skip(s, i, i + l0);
    assert(s.skip(i).skip(l0) == s.skip(i + l0));
    lemma_skip_skip(s, i, i + l0 + l1);
    assert(s.skip(i).skip(l0 + l1) == s.skip(i + l0 + l1));
}

// ---------------------------------------------------------------------------
// Entities and filters
// ---------------------------------------------------------------------------
/// The encoding of an entity identity: its id, then its generation.
pub open spec fn enc_entity(e: Entity) -> Seq<u8> {
    u32_le(e.id) + u32_le(e.generation)
}

/// Appends the encoding of an entity identity.
pub fn push_entity(buf: &mut Vec<u8>, e: &Entity)
    ensures
        final(buf)@ == old(buf)@ + enc_entity(*e),
{
    push_u32(buf, e.id);
    push_u32(buf, e.generation);
    proof {
        assert(buf@ =~= old(buf)@ + enc_entity(*e));
    }
}

/// Reads an entity identity at `i`; fails exactly when fewer than eight
/// bytes remain.
pub fn read_entity(bytes: &Vec<u8>, i: usize) -> (r: Option<(Entity, usize)>)
    requires
        i <= bytes@.len(),
    ensures
        match r {
            Some(p) => {
                &&& p.1 == i + 8 <= bytes@.len()
                &&& bytes@.subrange(i as int, i + 8) == enc_entity(p.0)
                &&& forall|e: Entity|
                    #[trigger] is_prefix(enc_entity(e), bytes@.skip(i as int)) ==> e == p.0
            },
            None => i + 8 > bytes@.len(),
        },
{
    proof {
        lemma_pow256_64();
    }
    let _buffer_len = bytes.len();
    let id = match read_u32(bytes, i) {
        Some(v) => v,
        None => {
            return None;
        },
    };
    let generation = match read_u32(bytes, i + 4) {
        Some(v) => v,
        None => {
            return None;
        },
    };
    let e = Entity { id, generation };
    proof {
        lemma_le_bytes_len(id as nat, 4);
        lemma_le_bytes_len(generation as nat, 4);
        assert(bytes@.subrange(i as int, i + 8) =~= u32_le(id) + u32_le(generation)) by {
            assert forall|t: int| 0 <= t < 8 implies #[trigger] bytes@.subrange(i as int, i + 8)[t]
                == (u32_le(id) + u32_le(generation))[t] by {
                if t < 4 {
                    assert(bytes@.subrange(i as int, i + 4)[t] == bytes@[i + t]);
                } else {
                    assert(bytes@.subrange(i + 4, i + 8)[t - 4] == bytes@[i + t]);
                }
            }
        }
        assert forall|e2: Entity|
            #[trigger] is_prefix(enc_entity(e2), bytes@.skip(i as int)) implies e2 == e by {
            lemma_le_bytes_len(e2.id as nat, 4);
            lemma_le_bytes_len(e2.generation as nat, 4);
            lemma_prefix_subrange(bytes@, i as int, enc_entity(e2));
            let both = enc_entity(e2);
            assert(u32_le(e2.id) =~= both.subrange(0, 4));
            assert(u32_le(e2.generation) =~= both.subrange(4, 8));
            assert(u32_le(e2.id) =~= bytes@.subrange(i as int, i + 4)) by {
                assert forall|t: int| 0 <= t < 4 implies #[trigger] u32_le(e2.id)[t]
                    == bytes@.subrange(i as int, i + 4)[t] by {
                    assert(both[t] == bytes@.subrange(i as int, i + 8)[t]);
                }
            }
            assert(u32_le(e2.generation) =~= bytes@.subrange(i + 4, i + 8)) by {
                assert forall|t: int| 0 <= t < 4 implies #[trigger] u32_le(e2.generation)[t]
                    == bytes@.subrange(i + 4, i + 8)[t] by {
                    assert(both[4 + t] == bytes@.subrange(i as int, i + 8)[4 + t]);
                }
            }
            lemma_le_bytes_inj(e2.id as nat, id as nat, 4);
            lemma_le_bytes_inj(e2.generation as nat, generation as nat, 4);
        }
    }
    Some((e, i + 8))
}

/// The tag byte of a filter clause.
pub open spec fn filter_tag(f: FilterModel) -> u8 {
    match f {
        FilterModel::With(_) => 0,
        FilterModel::Without(_) => 1,
        FilterModel::Changed(_) => 2,
    }
}

/// The component name a filter clause carries.
pub open spec fn filter_name(f: FilterModel) -> Seq<char> {
    match f {
        FilterModel::With(name) => name,
        FilterModel::Without(name) => name,
        FilterModel::Changed(name) => name,
    }
}

/// The encoding of a filter clause: its tag, then its component name.
pub open spec fn enc_filter(f: FilterModel) -> Seq<u8> {
    seq![filter_tag(f)] + enc_str(filter_name(f))
}

/// A filter clause the wire format can carry.
pub open spec fn filter_wf(f: FilterModel) -> bool {
    str_wf(filter_name(f))
}

/// Appends the encoding of a filter clause.
pub fn push_filter(buf: &mut Vec<u8>, f: &Filter)
    ensures
        final(buf)@ == old(buf)@ + enc_filter(filter_model(*f)),
        filter_wf(filter_model(*f)),
{
    match f {
        Filter::With(name) => {
            buf.push(0);
            push_str(buf, name.as_str());
        },
        Filter::Without(name) => {
            buf.push(1);
            push_str(buf, name.as_str());
        },
        Filter::Changed(name) => {
            buf.push(2);
            push_str(buf, name.as_str());
        },
    }
    proof {
        assert(buf@ =~= old(buf)@ + enc_filter(filter_model(*f)));
    }
}

/// A filter encoding at `i` splits into its tag byte and its name.
proof fn lemma_filter_split(s: Seq<u8>, i: int, m: FilterModel)
    requires
        0 <= i <= s.len(),
        filter_wf(m),
        is_prefix(enc_filter(m), s.skip(i)),
    ensures
        i < s.len(),
        s[i] == filter_tag(m),
        is_prefix(enc_str(filter_name(m)), s.skip(i + 1)),
        i + 1 + enc_str(filter_name(m)).len() <= s.len(),
        enc_filter(m).len() == 1 + enc_str(filter_name(m)).len(),
{
    lemma_prefix_split(seq![filter_tag(m)], enc_str(filter_name(m)), s.skip(i));
    assert(seq![filter_tag(m)][0] == s.skip(i).subrange(0, 1)[0]);
    lemma_skip_skip(s, i, i + 1);
    assert(s.skip(i).skip(1) == s.skip(i + 1));
}

/// Reads a filter clause at `i`: a tag byte, then a component name.
pub fn read_filter(bytes: &Vec<u8>, i: usize) -> (r: Option<(Filter, usize)>)
    requires
        i <= bytes@.len(),
    ensures
        r matches Some(p) ==> {
            &&& i + enc_filter(filter_model(p.0)).len() == p.1 <= bytes@.len()
            &&& is_prefix(enc_filter(filter_model(p.0)), bytes@.skip(i as int))
            &&& filter_wf(filter_model(p.0))
        },
        forall|m: FilterModel|
            filter_wf(m) && #[trigger] is_prefix(enc_filter(m), bytes@.skip(i as int)) ==> (
            r matches Some(p) && filter_model(p.0) == m && p.1 == i + enc_filter(m).len()),
{
    if i >= bytes.len() {
        proof {
            assert forall|m: FilterModel|
                filter_wf(m) && #[trigger] is_prefix(
                    enc_filter(m),
                    bytes@.skip(i as int),
                ) implies false by {
                assert(enc_filter(m).len() >= 1);
            }
        }
        return None;
    }
    let tag = bytes[i];
    if tag > 2 {
        proof {
            assert forall|m: FilterModel|
                filter_wf(m) && #[trigger] is_prefix(
                    enc_filter(m),
                    bytes@.skip(i as int),
                ) implies false by {
                lemma_filter_split(bytes@, i as int, m);
            }
        }
        return None;
    }
    let (name, j) = match read_str(bytes, i + 1) {
        Some(p) => p,
        None => {
            proof {
                assert forall|m: FilterModel|
                    filter_wf(m) && #[trigger] is_prefix(
                        enc_filter(m),
                        bytes@.skip(i as int),
                    ) implies false by {
                    lemma_filter_split(bytes@, i as int, m);
                }
            }
            return None;
        },
    };
    let f = if tag == 0 {
        Filter::With(name)
    } else if tag == 1 {
        Filter::Without(name)
    } else {
        Filter::Changed(name)
    };
    proof {
        let fm = filter_model(f);
        assert(filter_tag(fm) == tag && filter_name(fm) == name@);
        assert(is_prefix(seq![tag], bytes@.skip(i as int))) by {
            assert(seq![tag] =~= bytes@.skip(i as int).subrange(0, 1));
        }
        assert(bytes@.subrange(i + 1, i + 1 + enc_str(name@).len() as int) == enc_str(name@)) by {
            lemma_prefix_subrange(bytes@, i + 1, enc_str(name@));
        }
        lemma_prefix_extend(bytes@, i as int, seq![tag], enc_str(name@));
        assert(seq![tag] + enc_str(name@) =~= enc_filter(fm));
        assert forall|m: FilterModel|
            filter_wf(m) && #[trigger] is_prefix(
                enc_filter(m),
                bytes@.skip(i as int),
            ) implies m == fm && i + enc_filter(m).len() == j by {
            lemma_filter_split(bytes@, i as int, m);
            assert(filter_tag(m) == tag);
            assert(name@ == filter_name(m) && j == i + 1 + enc_str(filter_name(m)).len());
        }
    }
    Some((f, j))
}

// ---------------------------------------------------------------------------
// Lists of names and filters
// ---------------------------------------------------------------------------
/// The encoding of a list of names, in order.
pub open spec fn enc_str_seq(ss: Seq<Seq<char>>) -> Seq<u8>
    decreases ss.len(),
{
    if ss.len() == 0 {
        Seq::empty()
    } else {
        enc_str(ss[0]) + enc_str_seq(ss.drop_first())
    }
}

/// Well-formedness of a list of names.
pub open spec fn strs_wf(ss: Seq<Seq<char>>) -> bool
    decreases ss.len(),
{
    if ss.len() == 0 {
        true
    } else {
        str_wf(ss[0]) && strs_wf(ss.drop_first())
    }
}

/// The encoding of a list of filter clauses, in order.
pub open spec fn enc_filter_seq(fs: Seq<FilterModel>) -> Seq<u8>
    decreases fs.len(),
{
    if fs.len() == 0 {
        Seq::empty()
    } else {
        enc_filter(fs[0]) + enc_filter_seq(fs.drop_first())
    }
}

/// Well-formedness of a list of filter clauses.
pub open spec fn filters_wf(fs: Seq<FilterModel>) -> bool
    decreases fs.len(),
{
    if fs.len() == 0 {
        true
    } else {
        filter_wf(fs[0]) && filters_wf(fs.drop_first())
    }
}

/// Encoding distributes over name-list concatenation.
pub proof fn lemma_enc_str_seq_concat(a: Seq<Seq<char>>, b: Seq<Seq<char>>)
    ensures
        enc_str_seq(a + b) == enc_str_seq(a) + enc_str_seq(b),
        strs_wf(a + b) <==> strs_wf(a) && strs_wf(b),
    decreases a.len(),
{
    if a.len() == 0 {
        assert(a + b =~= b);
        assert(enc_str_seq(a) + enc_str_seq(b) =~= enc_str_seq(b));
    } else {
        assert((a + b)[0] == a[0]);
        assert((a + b).drop_first() =~= a.drop_first() + b);
        lemma_enc_str_seq_concat(a.drop_first(), b);
        assert(enc_str(a[0]) + (enc_str_seq(a.drop_first()) + enc_str_seq(b)) =~= (enc_str(a[0])
            + enc_str_seq(a.drop_first())) + enc_str_seq(b));
    }
}

/// Encoding distributes over filter-list concatenation.
pub proof fn lemma_enc_filter_seq_concat(a: Seq<FilterModel>, b: Seq<FilterModel>)
    ensures
        enc_filter_seq(a + b) == enc_filter_seq(a) + enc_filter_seq(b),
        filters_wf(a + b) <==> filters_wf(a) && filters_wf(b),
    decreases a.len(),
{
    if a.len() == 0 {
        assert(a + b =~= b);
        assert(enc_filter_seq(a) + enc_filter_seq(b) =~= enc_filter_seq(b));
    } else {
        assert((a + b)[0] == a[0]);
        assert((a + b).drop_first() =~= a.drop_first() + b);
        lemma_enc_filter_seq_concat(a.drop_first(), b);
        assert(enc_filter(a[0]) + (enc_filter_seq(a.drop_first()) + enc_filter_seq(b)) =~= (
        enc_filter(a[0]) + enc_filter_seq(a.drop_first())) + enc_filter_seq(b));
    }
}

/// A nonempty name-list encoding at `i` splits into its first name and
/// the remaining names.
proof fn lemma_str_list_split(s: Seq<u8>, i: int, m: Seq<Seq<char>>)
    requires
        0 <= i <= s.len(),
        m.len() > 0,
        strs_wf(m),
        is_prefix(enc_str_seq(m), s.skip(i)),
    ensures
        str_wf(m[0]),
        strs_wf(m.drop_first()),
        is_prefix(enc_str(m[0]), s.skip(i)),
        i + enc_str(m[0]).len() <= s.len(),
        is_prefix(enc_str_seq(m.drop_first()), s.skip(i + enc_str(m[0]).len() as int)),
        enc_str_seq(m).len() == enc_str(m[0]).len() + enc_str_seq(m.drop_first()).len(),
{
    lemma_prefix_split(enc_str(m[0]), enc_str_seq(m.drop_first()), s.skip(i));
    lemma_skip_skip(s, i, i + enc_str(m[0]).len() as int);
    assert(s.skip(i).skip(enc_str(m[0]).len() as int) == s.skip(i + enc_str(m[0]).len() as int));
}

/// A nonempty filter-list encoding at `i` splits into its first clause
/// and the remaining clauses.
proof fn lemma_filter_list_split(s: Seq<u8>, i: int, m: Seq<FilterModel>)
    requires
        0 <= i <= s.len(),
        m.len() > 0,
        filters_wf(m),
        is_prefix(enc_filter_seq(m), s.skip(i)),
    ensures
        filter_wf(m[0]),
        filters_wf(m.drop_first()),
        is_prefix(enc_filter(m[0]), s.skip(i)),
        i + enc_filter(m[0]).len() <= s.len(),
        is_prefix(enc_filter_seq(m.drop_first()), s.skip(i + enc_filter(m[0]).len() as int)),
        enc_filter_seq(m).len() == enc_filter(m[0]).len() + enc_filter_seq(m.drop_first()).len(),
{
    lemma_prefix_split(enc_filter(m[0]), enc_filter_seq(m.drop_first()), s.skip(i));
    lemma_skip_skip(s, i, i + enc_filter(m[0]).len() as int);
    assert(s.skip(i).skip(enc_filter(m[0]).len() as int) == s.skip(
        i + enc_filter(m[0]).len() as int,
    ));
}

/// Reads `count` names starting at `i`.
pub fn read_str_list(bytes: &Vec<u8>, i: usize, count: u64) -> (r: Option<(Vec<String>, usize)>)
    requires
        i <= bytes@.len(),
    ensures
        r matches Some(p) ==> {
            &&& p.0@.len() == count
            &&& i + enc_str_seq(p.0@.map_values(|s: String| s@)).len() == p.1 <= bytes@.len()
            &&& is_prefix(enc_str_seq(p.0@.map_values(|s: String| s@)), bytes@.skip(i as int))
            &&& strs_wf(p.0@.map_values(|s: String| s@))
        },
        forall|m: Seq<Seq<char>>|
            m.len() == count && strs_wf(m) && #[trigger] is_prefix(
                enc_str_seq(m),
                bytes@.skip(i as int),
            ) ==> (r matches Some(p) && p.0@.map_values(|s: String| s@) == m && p.1 == i
                + enc_str_seq(m).len()),
    decreases bytes@.len() - i, count,
{
    if count == 0 {
        let v: Vec<String> = Vec::new();
        proof {
            assert(v@.map_values(|s: String| s@) =~= Seq::<Seq<char>>::empty());
            assert(is_prefix(enc_str_seq(v@.map_values(|s: String| s@)), bytes@.skip(i as int)))
                by {
                assert(Seq::<u8>::empty() =~= bytes@.skip(i as int).subrange(0, 0));
            }
            assert forall|m: Seq<Seq<char>>|
                m.len() == count && strs_wf(m) && #[trigger] is_prefix(
                    enc_str_seq(m),
                    bytes@.skip(i as int),
                ) implies m == v@.map_values(|s: String| s@) && i + enc_str_seq(m).len() == i by {
                assert(m =~= Seq::<Seq<char>>::empty());
            }
        }
        return Some((v, i));
    }
    let (name, j1) = match read_str(bytes, i) {
        Some(p) => p,
        None => {
            proof {
                assert forall|m: Seq<Seq<char>>|
                    m.len() == count && strs_wf(m) && #[trigger] is_prefix(
                        enc_str_seq(m),
                        bytes@.skip(i as int),
                    ) implies false by {
                    lemma_str_list_split(bytes@, i as int, m);
                }
            }
            return None;
        },
    };
    let (rest, j2) = match read_str_list(bytes, j1, count - 1) {
        Some(p) => p,
        None => {
            proof {
                assert forall|m: Seq<Seq<char>>|
                    m.len() == count && strs_wf(m) && #[trigger] is_prefix(
                        enc_str_seq(m),
                        bytes@.skip(i as int),
                    ) implies false by {
                    lemma_str_list_split(bytes@, i as int, m);
                    assert(name@ == m[0] && j1 == i + enc_str(m[0]).len());
                    assert(m.drop_first().len() == count - 1);
                }
            }
            return None;
        },
    };
    let mut v = rest;
    v.insert(0, name);
    proof {
        let vm = v@.map_values(|s: String| s@);
        let rm = rest@.map_values(|s: String| s@);
        assert(v@ =~= seq![name] + rest@);
        assert(vm =~= seq![name@] + rm);
        lemma_enc_str_seq_concat(seq![name@], rm);
        assert(enc_str_seq(seq![name@]) =~= enc_str(name@)) by {
            assert(seq![name@].drop_first() =~= Seq::<Seq<char>>::empty());
            assert(enc_str_seq(Seq::<Seq<char>>::empty()) == Seq::<u8>::empty());
        }
        assert(bytes@.subrange(j1 as int, j1 + enc_str_seq(rm).len() as int) == enc_str_seq(rm))
            by {
            lemma_prefix_subrange(bytes@, j1 as int, enc_str_seq(rm));
        }
        lemma_prefix_extend(bytes@, i as int, enc_str(name@), enc_str_seq(rm));
        assert(enc_str(name@) + enc_str_seq(rm) =~= enc_str_seq(vm));
        assert(strs_wf(vm)) by {
            assert(seq![name@].drop_first() =~= Seq::<Seq<char>>::empty());
            assert(strs_wf(Seq::<Seq<char>>::empty()));
            assert(strs_wf(seq![name@]));
        }
        assert forall|m: Seq<Seq<char>>|
            m.len() == count && strs_wf(m) && #[trigger] is_prefix(
                enc_str_seq(m),
                bytes@.skip(i as int),
            ) implies m == vm && i + enc_str_seq(m).len() == j2 by {
            lemma_str_list_split(bytes@, i as int, m);
            assert(name@ == m[0] && j1 == i + enc_str(m[0]).len());
            assert(m.drop_first().len() == count - 1);
            assert(rm == m.drop_first() && j2 == j1 + enc_str_seq(m.drop_first()).len());
            assert(m =~= seq![m[0]] + m.drop_first());
            assert(m == vm) by {
                assert(seq![m[0]] + m.drop_first() =~= seq![name@] + rm);
            }
        }
    }
    Some((v, j2))
}

/// Reads `count` filter clauses starting at `i`.
pub fn read_filter_list(bytes: &Vec<u8>, i: usize, count: u64) -> (r: Option<(Vec<Filter>, usize)>)
    requires
        i <= bytes@.len(),
    ensures
        r matches Some(p) ==> {
            &&& p.0@.len() == count
            &&& i + enc_filter_seq(filter_models(p.0@)).len() == p.1 <= bytes@.len()
            &&& is_prefix(enc_filter_seq(filter_models(p.0@)), bytes@.skip(i as int))
            &&& filters_wf(filter_models(p.0@))
        },
        forall|m: Seq<FilterModel>|
            m.len() == count && filters_wf(m) && #[trigger] is_prefix(
                enc_filter_seq(m),
                bytes@.skip(i as int),
            ) ==> (r matches Some(p) && filter_models(p.0@) == m && p.1 == i + enc_filter_seq(
                m,
            ).len()),
    decreases bytes@.len() - i, count,
{
    if count == 0 {
        let v: Vec<Filter> = Vec::new();
        proof {
            assert(filter_models(v@) =~= Seq::<FilterModel>::empty());
            assert(is_prefix(enc_filter_seq(filter_models(v@)), bytes@.skip(i as int))) by {
                assert(Seq::<u8>::empty() =~= bytes@.skip(i as int).subrange(0, 0));
            }
            assert forall|m: Seq<FilterModel>|
                m.len() == count && filters_wf(m) && #[trigger] is_prefix(
                    enc_filter_seq(m),
                    bytes@.skip(i as int),
                ) implies m == filter_models(v@) && i + enc_filter_seq(m).len() == i by {
                assert(m =~= Seq::<FilterModel>::empty());
            }
        }
        return Some((v, i));
    }
    let (f, j1) = match read_filter(bytes, i) {
        Some(p) => p,
        None => {
            proof {
                assert forall|m: Seq<FilterModel>|
                    m.len() == count && filters_wf(m) && #[trigger] is_prefix(
                        enc_filter_seq(m),
                        bytes@.skip(i as int),
                    ) implies false by {
                    lemma_filter_list_split(bytes@, i as int, m);
                }
            }
            return None;
        },
    };
    let (rest, j2) = match read_filter_list(bytes, j1, count - 1) {
        Some(p) => p,
        None => {
            proof {
                assert forall|m: Seq<FilterModel>|
                    m.len() == count && filters_wf(m) && #[trigger] is_prefix(
                        enc_filter_seq(m),
                        bytes@.skip(i as int),
                    ) implies false by {
                    lemma_filter_list_split(bytes@, i as int, m);
                    assert(filter_model(f) == m[0] && j1 == i + enc_filter(m[0]).len());
                    assert(m.drop_first().len() == count - 1);
                }
            }
            return None;
        },
    };
    let mut v = rest;
    v.insert(0, f);
    proof {
        let vm = filter_models(v@);
        let rm = filter_models(rest@);
        assert(v@ =~= seq![f] + rest@);
        assert(vm =~= seq![filter_model(f)] + rm);
        lemma_enc_filter_seq_concat(seq![filter_model(f)], rm);
        assert(enc_filter_seq(seq![filter_model(f)]) =~= enc_filter(filter_model(f))) by {
            assert(seq![filter_model(f)].drop_first() =~= Seq::<FilterModel>::empty());
            assert(enc_filter_seq(Seq::<FilterModel>::empty()) == Seq::<u8>::empty());
        }
        assert(bytes@.subrange(j1 as int, j1 + enc_filter_seq(rm).len() as int) == enc_filter_seq(
            rm,
        )) by {
            lemma_prefix_subrange(bytes@, j1 as int, enc_filter_seq(rm));
        }
        lemma_prefix_extend(bytes@, i as int, enc_filter(filter_model(f)), enc_filter_seq(rm));
        assert(enc_filter(filter_model(f)) + enc_filter_seq(rm) =~= enc_filter_seq(vm));
        assert(filters_wf(vm)) by {
            assert(seq![filter_model(f)].drop_first() =~= Seq::<FilterModel>::empty());
            assert(filters_wf(Seq::<FilterModel>::empty()));
            assert(filters_wf(seq![filter_model(f)]));
        }
        assert forall|m: Seq<FilterModel>|
            m.len() == count && filters_wf(m) && #[trigger] is_prefix(
                enc_filter_seq(m),
                bytes@.skip(i as int),
            ) implies m == vm && i + enc_filter_seq(m).len() == j2 by {
            lemma_filter_list_split(bytes@, i as int, m);
            assert(filter_model(f) == m[0] && j1 == i + enc_filter(m[0]).len());
            assert(m.drop_first().len() == count - 1);
            assert(rm == m.drop_first() && j2 == j1 + enc_filter_seq(m.drop_first()).len());
            assert(m =~= seq![m[0]] + m.drop_first());
            assert(m == vm) by {
                assert(seq![m[0]] + m.drop_first() =~= seq![filter_model(f)] + rm);
            }
        }
    }
    Some((v, j2))
}

// ---------------------------------------------------------------------------
// Component lists and fetch items
// ---------------------------------------------------------------------------
/// The encoding of a list of component values, in order.
pub open spec fn enc_comp_seq(cs: Seq<ComponentModel>) -> Seq<u8>
    decreases cs.len(),
{
    if cs.len() == 0 {
        Seq::empty()
    } else {
        enc_component(cs[0]) + enc_comp_seq(cs.drop_first())
    }
}

/// Well-formedness of a list of component values.
pub open spec fn comps_wf(cs: Seq<ComponentModel>) -> bool
    decreases cs.len(),
{
    if cs.len() == 0 {
        true
    } else {
        component_wf(cs[0]) && comps_wf(cs.drop_first())
    }
}

/// Encoding distributes over component-list concatenation.
pub proof fn lemma_enc_comp_seq_concat(a: Seq<ComponentModel>, b: Seq<ComponentModel>)
    ensures
        enc_comp_seq(a + b) == enc_comp_seq(a) + enc_comp_seq(b),
        comps_wf(a + b) <==> comps_wf(a) && comps_wf(b),
    decreases a.len(),
{
    if a.len() == 0 {
        assert(a + b =~= b);
        assert(enc_comp_seq(a) + enc_comp_seq(b) =~= enc_comp_seq(b));
    } else {
        assert((a + b)[0] == a[0]);
        assert((a + b).drop_first() =~= a.drop_first() + b);
        lemma_enc_comp_seq_concat(a.drop_first(), b);
        assert(enc_component(a[0]) + (enc_comp_seq(a.drop_first()) + enc_comp_seq(b)) =~= (
        enc_component(a[0]) + enc_comp_seq(a.drop_first())) + enc_comp_seq(b));
    }
}

/// A nonempty component-list encoding at `i` splits into its first value
/// and the remaining values.
proof fn lemma_comp_list_split(s: Seq<u8>, i: int, m: Seq<ComponentModel>)
    requires
        0 <= i <= s.len(),
        m.len() > 0,
        comps_wf(m),
        is_prefix(enc_comp_seq(m), s.skip(i)),
    ensures
        component_wf(m[0]),
        comps_wf(m.drop_first()),
        is_prefix(enc_component(m[0]), s.skip(i)),
        i + enc_component(m[0]).len() <= s.len(),
        is_prefix(enc_comp_seq(m.drop_first()), s.skip(i + enc_component(m[0]).len() as int)),
        enc_comp_seq(m).len() == enc_component(m[0]).len() + enc_comp_seq(m.drop_first()).len(),
{
    lemma_prefix_split(enc_component(m[0]), enc_comp_seq(m.drop_first()), s.skip(i));
    lemma_skip_skip(s, i, i + enc_component(m[0]).len() as int);
    assert(s.skip(i).skip(enc_component(m[0]).len() as int) == s.skip(
        i + enc_component(m[0]).len() as int,
    ));
}

/// Reads `count` component values starting at `i`.
pub fn read_component_list(bytes: &Vec<u8>, i: usize, count: u64) -> (r: Option<
    (Vec<Component>, usize),
>)
    requires
        i <= bytes@.len(),
    ensures
        r matches Some(p) ==> {
            &&& p.0@.len() == count
            &&& i + enc_comp_seq(p.0@.map_values(|c: Component| component_model(c))).len() == p.1
                <= bytes@.len()
            &&& is_prefix(
                enc_comp_seq(p.0@.map_values(|c: Component| component_model(c))),
                bytes@.skip(i as int),
            )
            &&& comps_wf(p.0@.map_values(|c: Component| component_model(c)))
        },
        forall|m: Seq<ComponentModel>|
            m.len() == count && comps_wf(m) && #[trigger] is_prefix(
                enc_comp_seq(m),
                bytes@.skip(i as int),
            ) ==> (r matches Some(p) && p.0@.map_values(|c: Component| component_model(c)) == m
                && p.1 == i + enc_comp_seq(m).len()),
    decreases bytes@.len() - i, count,
{
    if count == 0 {
        let v: Vec<Component> = Vec::new();
        proof {
            assert(v@.map_values(|c: Component| component_model(c)) =~= Seq::<
                ComponentModel,
            >::empty());
            assert(is_prefix(
                enc_comp_seq(v@.map_values(|c: Component| component_model(c))),
                bytes@.skip(i as int),
            )) by {
                assert(Seq::<u8>::empty() =~= bytes@.skip(i as int).subrange(0, 0));
            }
            assert forall|m: Seq<ComponentModel>|
                m.len() == count && comps_wf(m) && #[trigger] is_prefix(
                    enc_comp_seq(m),
                    bytes@.skip(i as int),
                ) implies m == v@.map_values(|c: Component| component_model(c)) && i + enc_comp_seq(
                m,
            ).len() == i by {
                assert(m =~= Seq::<ComponentModel>::empty());
            }
        }
        return Some((v, i));
    }
    let (c, j1) = match read_component(bytes, i) {
        Some(p) => p,
        None => {
            proof {
                assert forall|m: Seq<ComponentModel>|
                    m.len() == count && comps_wf(m) && #[trigger] is_prefix(
                        enc_comp_seq(m),
                        bytes@.skip(i as int),
                    ) implies false by {
                    lemma_comp_list_split(bytes@, i as int, m);
                }
            }
            return None;
        },
    };
    let (rest, j2) = match read_component_list(bytes, j1, count - 1) {
        Some(p) => p,
        None => {
            proof {
                assert forall|m: Seq<ComponentModel>|
                    m.len() == count && comps_wf(m) && #[trigger] is_prefix(
                        enc_comp_seq(m),
                        bytes@.skip(i as int),
                    ) implies false by {
                    lemma_comp_list_split(bytes@, i as int, m);
                    assert(component_model(c) == m[0] && j1 == i + enc_component(m[0]).len());
                    assert(m.drop_first().len() == count - 1);
                }
            }
            return None;
        },
    };
    let mut v = rest;
    v.insert(0, c);
    proof {
        let vm = v@.map_values(|c2: Component| component_model(c2));
        let rm = rest@.map_values(|c2: Component| component_model(c2));
        assert(v@ =~= seq![c] + rest@);
        assert(vm =~= seq![component_model(c)] + rm);
        lemma_enc_comp_seq_concat(seq![component_model(c)], rm);
        assert(enc_comp_seq(seq![component_model(c)]) =~= enc_component(component_model(c))) by {
            assert(seq![component_model(c)].drop_first() =~= Seq::<ComponentModel>::empty());
            assert(enc_comp_seq(Seq::<ComponentModel>::empty()) == Seq::<u8>::empty());
        }
        assert(bytes@.subrange(j1 as int, j1 + enc_comp_seq(rm).len() as int) == enc_comp_seq(rm))
            by {
            lemma_prefix_subrange(bytes@, j1 as int, enc_comp_seq(rm));
        }
        lemma_prefix_extend(bytes@, i as int, enc_component(component_model(c)), enc_comp_seq(rm));
        assert(enc_component(component_model(c)) + enc_comp_seq(rm) =~= enc_comp_seq(vm));
        assert(comps_wf(vm)) by {
            assert(seq![component_model(c)].drop_first() =~= Seq::<ComponentModel>::empty());
            assert(comps_wf(Seq::<ComponentModel>::empty()));
            assert(comps_wf(seq![component_model(c)]));
        }
        assert forall|m: Seq<ComponentModel>|
            m.len() == count && comps_wf(m) && #[trigger] is_prefix(
                enc_comp_seq(m),
                bytes@.skip(i as int),
            ) implies m == vm && i + enc_comp_seq(m).len() == j2 by {
            lemma_comp_list_split(bytes@, i as int, m);
            assert(component_model(c) == m[0] && j1 == i + enc_component(m[0]).len());
            assert(m.drop_first().len() == count - 1);
            assert(rm == m.drop_first() && j2 == j1 + enc_comp_seq(m.drop_first()).len());
            assert(m =~= seq![m[0]] + m.drop_first());
            assert(m == vm) by {
                assert(seq![m[0]] + m.drop_first() =~= seq![component_model(c)] + rm);
            }
        }
    }
    Some((v, j2))
}

/// The encoding of one fetch item: the entity, then its component count
/// and component values.
pub open spec fn enc_item(m: QueryFetchItemModel) -> Seq<u8> {
    enc_entity(m.entity) + u64_le(m.components.len() as u64) + enc_comp_seq(m.components)
}

/// A fetch item the wire format can carry.
pub open spec fn item_wf(m: QueryFetchItemModel) -> bool {
    m.components.len() <= u64::MAX && comps_wf(m.components)
}

/// Appends the encoding of one fetch item.
#[verifier::loop_isolation(false)]
pub fn push_item(buf: &mut Vec<u8>, item: &QueryFetchItem)
    ensures
        final(buf)@ == old(buf)@ + enc_item(item_model(*item)),
        item_wf(item_model(*item)),
{
    push_entity(buf, &item.entity);
    push_u64(buf, item.components.len() as u64);
    let ghost models = item.components@.map_values(|c: Component| component_model(c));
    let ghost header = buf@;
    let mut idx: usize = 0;
    proof {
        assert(models.take(0) =~= Seq::<ComponentModel>::empty());
        assert(buf@ =~= header + enc_comp_seq(models.take(0)));
    }
    while idx < item.components.len()
        invariant
            idx <= item.components.len(),
            buf@ == header + enc_comp_seq(models.take(idx as int)),
            comps_wf(models.take(idx as int)),
        decreases item.components@.len() - idx,
    {
        let ghost done = models.take(idx as int);
        encode_component_into(buf, &item.components[idx]);
        proof {
            let one = seq![models[idx as int]];
            assert(one[0] == component_model(item.components@[idx as int]));
            assert(one.drop_first() =~= Seq::<ComponentModel>::empty());
            assert(enc_comp_seq(Seq::<ComponentModel>::empty()) == Seq::<u8>::empty());
            assert(enc_comp_seq(one) =~= enc_component(one[0]));
            assert(comps_wf(Seq::<ComponentModel>::empty()));
            assert(comps_wf(one));
            lemma_enc_comp_seq_concat(done, one);
            assert(done + one =~= models.take(idx + 1));
            assert(buf@ =~= header + enc_comp_seq(models.take(idx + 1)));
        }
        idx = idx + 1;
    }
    proof {
        assert(models.take(item.components@.len() as int) =~= models);
        assert(header + enc_comp_seq(models) =~= old(buf)@ + enc_item(item_model(*item)));
    }
}

/// A fetch-item encoding at `i` splits into its entity, its component
/// count and its component values.
proof fn lemma_item_split(s: Seq<u8>, i: int, m: QueryFetchItemModel, count: u64)
    requires
        0 <= i,
        i + 16 <= s.len(),
        item_wf(m),
        is_prefix(enc_item(m), s.skip(i)),
        s.subrange(i + 8, i + 16) == u64_le(count),
    ensures
        is_prefix(enc_entity(m.entity), s.skip(i)),
        m.components.len() == count,
        is_prefix(enc_comp_seq(m.components), s.skip(i + 16)),
        enc_item(m).len() == 16 + enc_comp_seq(m.components).len(),
{
    lemma_le_bytes_len(m.entity.id as nat, 4);
    lemma_le_bytes_len(m.entity.generation as nat, 4);
    lemma_le_bytes_len(m.components.len() as u64 as nat, 8);
    lemma_le_bytes_len(count as nat, 8);
    lemma_prefix_split(
        enc_entity(m.entity) + u64_le(m.components.len() as u64),
        enc_comp_seq(m.components),
        s.skip(i),
    );
    lemma_prefix_split(enc_entity(m.entity), u64_le(m.components.len() as u64), s.skip(i));
    lemma_skip_skip(s, i, i + 8);
    assert(s.skip(i).skip(8) == s.skip(i + 8));
    lemma_skip_skip(s, i, i + 16);
    assert(s.skip(i).skip(16) == s.skip(i + 16));
    assert(s.skip(i + 8).subrange(0, 8) =~= s.subrange(i + 8, i + 16));
    lemma_pow256_64();
    lemma_le_bytes_inj(m.components.len() as u64 as nat, count as nat, 8);
}

/// Reads one fetch item at `i`.
pub fn read_item(bytes: &Vec<u8>, i: usize) -> (r: Option<(QueryFetchItem, usize)>)
    requires
        i <= bytes@.len(),
    ensures
        r matches Some(p) ==> {
            &&& i + enc_item(item_model(p.0)).len() == p.1 <= bytes@.len()
            &&& is_prefix(enc_item(item_model(p.0)), bytes@.skip(i as int))
            &&& item_wf(item_model(p.0))
        },
        forall|m: QueryFetchItemModel|
            item_wf(m) && #[trigger] is_prefix(enc_item(m), bytes@.skip(i as int)) ==> (
            r matches Some(p) && item_model(p.0) == m && p.1 == i + enc_item(m).len()),
{
    let _buffer_len = bytes.len();
    let (entity, j0) = match read_entity(bytes, i) {
        Some(p) => p,
        None => {
            proof {
                assert forall|m: QueryFetchItemModel|
                    item_wf(m) && #[trigger] is_prefix(
                        enc_item(m),
                        bytes@.skip(i as int),
                    ) implies false by {
                    lemma_item_prefix_parts(bytes@, i as int, m);
                }
            }
            return None;
        },
    };
    let count = match read_u64(bytes, i + 8) {
        Some(c) => c,
        None => {
            proof {
                assert forall|m: QueryFetchItemModel|
                    item_wf(m) && #[trigger] is_prefix(
                        enc_item(m),
                        bytes@.skip(i as int),
                    ) implies false by {
                    lemma_item_prefix_parts(bytes@, i as int, m);
                }
            }
            return None;
        },
    };
    let (comps, j) = match read_component_list(bytes, i + 16, count) {
        Some(p) => p,
        None => {
            proof {
                assert forall|m: QueryFetchItemModel|
                    item_wf(m) && #[trigger] is_prefix(
                        enc_item(m),
                        bytes@.skip(i as int),
                    ) implies false by {
                    lemma_item_split(bytes@, i as int, m, count);
                }
            }
            return None;
        },
    };
    let item = QueryFetchItem { entity, components: comps };
    proof {
        let vm = item_model(item);
        let cm = comps@.map_values(|c: Component| component_model(c));
        assert(vm.entity == entity && vm.components == cm);
        lemma_le_bytes_len(entity.id as nat, 4);
        lemma_le_bytes_len(entity.generation as nat, 4);
        lemma_le_bytes_len(count as nat, 8);
        assert(is_prefix(enc_entity(entity), bytes@.skip(i as int))) by {
            assert(enc_entity(entity) =~= bytes@.skip(i as int).subrange(0, 8));
        }
        assert(bytes@.subrange(i + 8, i + 8 + 8) == u64_le(count));
        lemma_prefix_extend(bytes@, i as int, enc_entity(entity), u64_le(count));
        assert(bytes@.subrange(i + 16, i + 16 + enc_comp_seq(cm).len() as int) == enc_comp_seq(cm))
            by {
            lemma_prefix_subrange(bytes@, i + 16, enc_comp_seq(cm));
        }
        assert((enc_entity(entity) + u64_le(count)).len() == 16);
        lemma_prefix_extend(bytes@, i as int, enc_entity(entity) + u64_le(count), enc_comp_seq(cm));
        assert(u64_le(cm.len() as u64) == u64_le(count));
        assert((enc_entity(entity) + u64_le(count)) + enc_comp_seq(cm) =~= enc_item(vm));
        assert forall|m: QueryFetchItemModel|
            item_wf(m) && #[trigger] is_prefix(enc_item(m), bytes@.skip(i as int)) implies m == vm
            && i + enc_item(m).len() == j by {
            lemma_item_split(bytes@, i as int, m, count);
            assert(m.entity == entity);
            assert(cm == m.components && j == i + 16 + enc_comp_seq(m.components).len());
        }
    }
    Some((item, j))
}

/// An item encoding is at least 16 bytes: entity and count come first.
proof fn lemma_item_prefix_parts(s: Seq<u8>, i: int, m: QueryFetchItemModel)
    requires
        0 <= i <= s.len(),
        is_prefix(enc_item(m), s.skip(i)),
    ensures
        i + 16 <= s.len(),
        is_prefix(enc_entity(m.entity), s.skip(i)),
{
    lemma_le_bytes_len(m.entity.id as nat, 4);
    lemma_le_bytes_len(m.entity.generation as nat, 4);
    lemma_le_bytes_len(m.components.len() as u64 as nat, 8);
    lemma_prefix_split(
        enc_entity(m.entity) + u64_le(m.components.len() as u64),
        enc_comp_seq(m.components),
        s.skip(i),
    );
    lemma_prefix_split(enc_entity(m.entity), u64_le(m.components.len() as u64), s.skip(i));
}

// ---------------------------------------------------------------------------
// Item lists, query results, queries and log messages
// ---------------------------------------------------------------------------
/// The encoding of a list of fetch items, in order.
pub open spec fn enc_item_seq(its: Seq<QueryFetchItemModel>) -> Seq<u8>
    decreases its.len(),
{
    if its.len() == 0 {
        Seq::empty()
    } else {
        enc_item(its[0]) + enc_item_seq(its.drop_first())
    }
}

/// Well-formedness of a list of fetch items.
pub open spec fn items_wf(its: Seq<QueryFetchItemModel>) -> bool
    decreases its.len(),
{
    if its.len() == 0 {
        true
    } else {
        item_wf(its[0]) && items_wf(its.drop_first())
    }
}

/// Encoding distributes over item-list concatenation.
pub proof fn lemma_enc_item_seq_concat(a: Seq<QueryFetchItemModel>, b: Seq<QueryFetchItemModel>)
    ensures
        enc_item_seq(a + b) == enc_item_seq(a) + enc_item_seq(b),
        items_wf(a + b) <==> items_wf(a) && items_wf(b),
    decreases a.len(),
{
    if a.len() == 0 {
        assert(a + b =~= b);
        assert(enc_item_seq(a) + enc_item_seq(b) =~= enc_item_seq(b));
    } else {
        assert((a + b)[0] == a[0]);
        assert((a + b).drop_first() =~= a.drop_first() + b);
        lemma_enc_item_seq_concat(a.drop_first(), b);
        assert(enc_item(a[0]) + (enc_item_seq(a.drop_first()) + enc_item_seq(b)) =~= (enc_item(
            a[0],
        ) + enc_item_seq(a.drop_first())) + enc_item_seq(b));
    }
}

/// A nonempty item-list encoding at `i` splits into its first item and
/// the remaining items.
proof fn lemma_item_list_split(s: Seq<u8>, i: int, m: Seq<QueryFetchItemModel>)
    requires
        0 <= i <= s.len(),
        m.len() > 0,
        items_wf(m),
        is_prefix(enc_item_seq(m), s.skip(i)),
    ensures
        item_wf(m[0]),
        items_wf(m.drop_first()),
        is_prefix(enc_item(m[0]), s.skip(i)),
        i + enc_item(m[0]).len() <= s.len(),
        is_prefix(enc_item_seq(m.drop_first()), s.skip(i + enc_item(m[0]).len() as int)),
        enc_item_seq(m).len() == enc_item(m[0]).len() + enc_item_seq(m.drop_first()).len(),
{
    lemma_prefix_split(enc_item(m[0]), enc_item_seq(m.drop_first()), s.skip(i));
    lemma_skip_skip(s, i, i + enc_item(m[0]).len() as int);
    assert(s.skip(i).skip(enc_item(m[0]).len() as int) == s.skip(i + enc_item(m[0]).len() as int));
}

/// Reads `count` fetch items starting at `i`.
pub fn read_item_list(bytes: &Vec<u8>, i: usize, count: u64) -> (r: Option<
    (Vec<QueryFetchItem>, usize),
>)
    requires
        i <= bytes@.len(),
    ensures
        r matches Some(p) ==> {
            &&& p.0@.len() == count
            &&& i + enc_item_seq(item_models(p.0@)).len() == p.1 <= bytes@.len()
            &&& is_prefix(enc_item_seq(item_models(p.0@)), bytes@.skip(i as int))
            &&& items_wf(item_models(p.0@))
        },
        forall|m: Seq<QueryFetchItemModel>|
            m.len() == count && items_wf(m) && #[trigger] is_prefix(
                enc_item_seq(m),
                bytes@.skip(i as int),
            ) ==> (r matches Some(p) && item_models(p.0@) == m && p.1 == i + enc_item_seq(m).len()),
    decreases bytes@.len() - i, count,
{
    if count == 0 {
        let v: Vec<QueryFetchItem> = Vec::new();
        proof {
            assert(item_models(v@) =~= Seq::<QueryFetchItemModel>::empty());
            assert(is_prefix(enc_item_seq(item_models(v@)), bytes@.skip(i as int))) by {
                assert(Seq::<u8>::empty() =~= bytes@.skip(i as int).subrange(0, 0));
            }
            assert forall|m: Seq<QueryFetchItemModel>|
                m.len() == count && items_wf(m) && #[trigger] is_prefix(
                    enc_item_seq(m),
                    bytes@.skip(i as int),
                ) implies m == item_models(v@) && i + enc_item_seq(m).len() == i by {
                assert(m =~= Seq::<QueryFetchItemModel>::empty());
            }
        }
        return Some((v, i));
    }
    let (item, j1) = match read_item(bytes, i) {
        Some(p) => p,
        None => {
            proof {
                assert forall|m: Seq<QueryFetchItemModel>|
                    m.len() == count && items_wf(m) && #[trigger] is_prefix(
                        enc_item_seq(m),
                        bytes@.skip(i as int),
                    ) implies false by {
                    lemma_item_list_split(bytes@, i as int, m);
                }
            }
            return None;
        },
    };
    let (rest, j2) = match read_item_list(bytes, j1, count - 1) {
        Some(p) => p,
        None => {
            proof {
                assert forall|m: Seq<QueryFetchItemModel>|
                    m.len() == count && items_wf(m) && #[trigger] is_prefix(
                        enc_item_seq(m),
                        bytes@.skip(i as int),
                    ) implies false by {
                    lemma_item_list_split(bytes@, i as int, m);
                    assert(item_model(item) == m[0] && j1 == i + enc_item(m[0]).len());
                    assert(m.drop_first().len() == count - 1);
                }
            }
            return None;
        },
    };
    let mut v = rest;
    v.insert(0, item);
    proof {
        let vm = item_models(v@);
        let rm = item_models(rest@);
        assert(v@ =~= seq![item] + rest@);
        assert(vm =~= seq![item_model(item)] + rm);
        lemma_enc_item_seq_concat(seq![item_model(item)], rm);
        assert(enc_item_seq(seq![item_model(item)]) =~= enc_item(item_model(item))) by {
            assert(seq![item_model(item)].drop_first() =~= Seq::<QueryFetchItemModel>::empty());
            assert(enc_item_seq(Seq::<QueryFetchItemModel>::empty()) == Seq::<u8>::empty());
        }
        assert(bytes@.subrange(j1 as int, j1 + enc_item_seq(rm).len() as int) == enc_item_seq(rm))
            by {
            lemma_prefix_subrange(bytes@, j1 as int, enc_item_seq(rm));
        }
        lemma_prefix_extend(bytes@, i as int, enc_item(item_model(item)), enc_item_seq(rm));
        assert(enc_item(item_model(item)) + enc_item_seq(rm) =~= enc_item_seq(vm));
        assert(items_wf(vm)) by {
            assert(seq![item_model(item)].drop_first() =~= Seq::<QueryFetchItemModel>::empty());
            assert(items_wf(Seq::<QueryFetchItemModel>::empty()));
            assert(items_wf(seq![item_model(item)]));
        }
        assert forall|m: Seq<QueryFetchItemModel>|
            m.len() == count && items_wf(m) && #[trigger] is_prefix(
                enc_item_seq(m),
                bytes@.skip(i as int),
            ) implies m == vm && i + enc_item_seq(m).len() == j2 by {
            lemma_item_list_split(bytes@, i as int, m);
            assert(item_model(item) == m[0] && j1 == i + enc_item(m[0]).len());
            assert(m.drop_first().len() == count - 1);
            assert(rm == m.drop_first() && j2 == j1 + enc_item_seq(m.drop_first()).len());
            assert(m =~= seq![m[0]] + m.drop_first());
            assert(m == vm) by {
                assert(seq![m[0]] + m.drop_first() =~= seq![item_model(item)] + rm);
            }
        }
    }
    Some((v, j2))
}

/// The encoding of a query result: its item count, then its items.
pub open spec fn enc_fetch(its: Seq<QueryFetchItemModel>) -> Seq<u8> {
    u64_le(its.len() as u64) + enc_item_seq(its)
}

/// A query result the wire format can carry.
pub open spec fn fetch_wf(its: Seq<QueryFetchItemModel>) -> bool {
    its.len() <= u64::MAX && items_wf(its)
}

/// Appends the encoding of a query result.
#[verifier::loop_isolation(false)]
pub fn push_fetch(buf: &mut Vec<u8>, fetch: &QueryFetch)
    ensures
        final(buf)@ == old(buf)@ + enc_fetch(fetch.model()),
        fetch_wf(fetch.model()),
{
    push_u64(buf, fetch.items.len() as u64);
    let ghost models = item_models(fetch.items@);
    let ghost header = buf@;
    let mut idx: usize = 0;
    proof {
        assert(models.take(0) =~= Seq::<QueryFetchItemModel>::empty());
        assert(buf@ =~= header + enc_item_seq(models.take(0)));
    }
    while idx < fetch.items.len()
        invariant
            idx <= fetch.items.len(),
            buf@ == header + enc_item_seq(models.take(idx as int)),
            items_wf(models.take(idx as int)),
        decreases fetch.items@.len() - idx,
    {
        let ghost done = models.take(idx as int);
        push_item(buf, &fetch.items[idx]);
        proof {
            let one = seq![models[idx as int]];
            assert(one[0] == item_model(fetch.items@[idx as int]));
            assert(one.drop_first() =~= Seq::<QueryFetchItemModel>::empty());
            assert(enc_item_seq(Seq::<QueryFetchItemModel>::empty()) == Seq::<u8>::empty());
            assert(enc_item_seq(one) =~= enc_item(one[0]));
            assert(items_wf(Seq::<QueryFetchItemModel>::empty()));
            assert(items_wf(one));
            lemma_enc_item_seq_concat(done, one);
            assert(done + one =~= models.take(idx + 1));
            assert(buf@ =~= header + enc_item_seq(models.take(idx + 1)));
        }
        idx = idx + 1;
    }
    proof {
        assert(models.take(fetch.items@.len() as int) =~= models);
        assert(header + enc_item_seq(models) =~= old(buf)@ + enc_fetch(fetch.model()));
    }
}

/// Reads a query result at `i`: an item count, then that many items.
pub fn read_fetch(bytes: &Vec<u8>, i: usize) -> (r: Option<(QueryFetch, usize)>)
    requires
        i <= bytes@.len(),
    ensures
        r matches Some(p) ==> {
            &&& i + enc_fetch(p.0.model()).len() == p.1 <= bytes@.len()
            &&& is_prefix(enc_fetch(p.0.model()), bytes@.skip(i as int))
            &&& fetch_wf(p.0.model())
        },
        forall|m: Seq<QueryFetchItemModel>|
            fetch_wf(m) && #[trigger] is_prefix(enc_fetch(m), bytes@.skip(i as int)) ==> (
            r matches Some(p) && p.0.model() == m && p.1 == i + enc_fetch(m).len()),
{
    proof {
        lemma_pow256_64();
    }
    let _buffer_len = bytes.len();
    let count = match read_u64(bytes, i) {
        Some(c) => c,
        None => {
            proof {
                assert forall|m: Seq<QueryFetchItemModel>|
                    fetch_wf(m) && #[trigger] is_prefix(
                        enc_fetch(m),
                        bytes@.skip(i as int),
                    ) implies false by {
                    lemma_le_bytes_len(m.len() as u64 as nat, 8);
                    lemma_prefix_split(u64_le(m.len() as u64), enc_item_seq(m), bytes@.skip(i as int));
                }
            }
            return None;
        },
    };
    let (items, j) = match read_item_list(bytes, i + 8, count) {
        Some(p) => p,
        None => {
            proof {
                assert forall|m: Seq<QueryFetchItemModel>|
                    fetch_wf(m) && #[trigger] is_prefix(
                        enc_fetch(m),
                        bytes@.skip(i as int),
                    ) implies false by {
                    lemma_fetch_split(bytes@, i as int, m, count);
                }
            }
            return None;
        },
    };
    let fetch = QueryFetch { items };
    proof {
        let vm = fetch.model();
        lemma_le_bytes_len(count as nat, 8);
        assert(vm == item_models(items@));
        assert(is_prefix(u64_le(count), bytes@.skip(i as int))) by {
            lemma_prefix_subrange_rev(bytes@, i as int, u64_le(count));
        }
        assert(bytes@.subrange(i + 8, i + 8 + enc_item_seq(vm).len() as int) == enc_item_seq(vm))
            by {
            lemma_prefix_subrange(bytes@, i + 8, enc_item_seq(vm));
        }
        lemma_prefix_extend(bytes@, i as int, u64_le(count), enc_item_seq(vm));
        assert(u64_le(vm.len() as u64) == u64_le(count));
        assert(u64_le(count) + enc_item_seq(vm) =~= enc_fetch(vm));
        assert forall|m: Seq<QueryFetchItemModel>|
            fetch_wf(m) && #[trigger] is_prefix(enc_fetch(m), bytes@.skip(i as int)) implies m
            == vm && i + enc_fetch(m).len() == j by {
            lemma_fetch_split(bytes@, i as int, m, count);
            assert(item_models(items@) == m && j == i + 8 + enc_item_seq(m).len());
        }
    }
    Some((fetch, j))
}

/// A query-result encoding at `i` splits into its count and its items.
proof fn lemma_fetch_split(s: Seq<u8>, i: int, m: Seq<QueryFetchItemModel>, count: u64)
    requires
        0 <= i,
        i + 8 <= s.len(),
        fetch_wf(m),
        is_prefix(enc_fetch(m), s.skip(i)),
        s.subrange(i, i + 8) == u64_le(count),
    ensures
        m.len() == count,
        items_wf(m),
        is_prefix(enc_item_seq(m), s.skip(i + 8)),
        enc_fetch(m).len() == 8 + enc_item_seq(m).len(),
{
    lemma_le_bytes_len(m.len() as u64 as nat, 8);
    lemma_le_bytes_len(count as nat, 8);
    lemma_prefix_split(u64_le(m.len() as u64), enc_item_seq(m), s.skip(i));
    lemma_prefix_subrange(s, i, u64_le(m.len() as u64));
    lemma_pow256_64();
    lemma_le_bytes_inj(m.len() as u64 as nat, count as nat, 8);
    lemma_skip_skip(s, i, i + 8);
    assert(s.skip(i).skip(8) == s.skip(i + 8));
}

/// The encoding of a query: its selected-name count and names, then its
/// filter count and filter clauses.
pub open spec fn enc_query(m: QueryModel) -> Seq<u8> {
    u64_le(m.components.len() as u64) + enc_str_seq(m.components) + u64_le(
        m.filters.len() as u64,
    ) + enc_filter_seq(m.filters)
}

/// A query the wire format can carry.
pub open spec fn query_wf(m: QueryModel) -> bool {
    m.components.len() <= u64::MAX && strs_wf(m.components) && m.filters.len() <= u64::MAX
        && filters_wf(m.filters)
}

/// Appends the encoding of a query.
#[verifier::loop_isolation(false)]
pub fn push_query(buf: &mut Vec<u8>, query: &Query)
    ensures
        final(buf)@ == old(buf)@ + enc_query(query_model(*query)),
        query_wf(query_model(*query)),
{
    push_u64(buf, query.components.len() as u64);
    let ghost names = query.components@.map_values(|s2: String| s2@);
    let ghost header1 = buf@;
    let mut idx: usize = 0;
    proof {
        assert(names.take(0) =~= Seq::<Seq<char>>::empty());
        assert(buf@ =~= header1 + enc_str_seq(names.take(0)));
    }
    while idx < query.components.len()
        invariant
            idx <= query.components.len(),
            buf@ == header1 + enc_str_seq(names.take(idx as int)),
            strs_wf(names.take(idx as int)),
        decreases query.components@.len() - idx,
    {
        let ghost done = names.take(idx as int);
        push_str(buf, query.components[idx].as_str());
        proof {
            let one = seq![names[idx as int]];
            assert(one[0] == query.components@[idx as int]@);
            assert(one.drop_first() =~= Seq::<Seq<char>>::empty());
            assert(enc_str_seq(Seq::<Seq<char>>::empty()) == Seq::<u8>::empty());
            assert(enc_str_seq(one) =~= enc_str(one[0]));
            assert(strs_wf(Seq::<Seq<char>>::empty()));
            assert(strs_wf(one));
            lemma_enc_str_seq_concat(done, one);
            assert(done + one =~= names.take(idx + 1));
            assert(buf@ =~= header1 + enc_str_seq(names.take(idx + 1)));
        }
        idx = idx + 1;
    }
    proof {
        assert(names.take(query.components@.len() as int) =~= names);
    }
    push_u64(buf, query.filters.len() as u64);
    let ghost filters = filter_models(query.filters@);
    let ghost header2 = buf@;
    let mut fdx: usize = 0;
    proof {
        assert(filters.take(0) =~= Seq::<FilterModel>::empty());
        assert(buf@ =~= header2 + enc_filter_seq(filters.take(0)));
    }
    while fdx < query.filters.len()
        invariant
            fdx <= query.filters.len(),
            buf@ == header2 + enc_filter_seq(filters.take(fdx as int)),
            filters_wf(filters.take(fdx as int)),
        decreases query.filters@.len() - fdx,
    {
        let ghost done = filters.take(fdx as int);
        push_filter(buf, &query.filters[fdx]);
        proof {
            let one = seq![filters[fdx as int]];
            assert(one[0] == filter_model(query.filters@[fdx as int]));
            assert(one.drop_first() =~= Seq::<FilterModel>::empty());
            assert(enc_filter_seq(Seq::<FilterModel>::empty()) == Seq::<u8>::empty());
            assert(enc_filter_seq(one) =~= enc_filter(one[0]));
            assert(filters_wf(Seq::<FilterModel>::empty()));
            assert(filters_wf(one));
            lemma_enc_filter_seq_concat(done, one);
            assert(done + one =~= filters.take(fdx + 1));
            assert(buf@ =~= header2 + enc_filter_seq(filters.take(fdx + 1)));
        }
        fdx = fdx + 1;
    }
    proof {
        assert(filters.take(query.filters@.len() as int) =~= filters);
        let qm = query_model(*query);
        assert(qm.components == names && qm.filters == filters);
        assert(header2 + enc_filter_seq(filters) =~= old(buf)@ + enc_query(qm));
    }
}

/// Reads a query at `i`.
pub fn read_query(bytes: &Vec<u8>, i: usize) -> (r: Option<(Query, usize)>)
    requires
        i <= bytes@.len(),
    ensures
        r matches Some(p) ==> {
            &&& i + enc_query(query_model(p.0)).len() == p.1 <= bytes@.len()
            &&& is_prefix(enc_query(query_model(p.0)), bytes@.skip(i as int))
            &&& query_wf(query_model(p.0))
        },
        forall|m: QueryModel|
            query_wf(m) && #[trigger] is_prefix(enc_query(m), bytes@.skip(i as int)) ==> (
            r matches Some(p) && query_model(p.0) == m && p.1 == i + enc_query(m).len()),
{
    proof {
        lemma_pow256_64();
    }
    let _buffer_len = bytes.len();
    let ncomp = match read_u64(bytes, i) {
        Some(c) => c,
        None => {
            proof {
                assert forall|m: QueryModel|
                    query_wf(m) && #[trigger] is_prefix(
                        enc_query(m),
                        bytes@.skip(i as int),
                    ) implies false by {
                    lemma_query_first_parts(bytes@, i as int, m);
                }
            }
            return None;
        },
    };
    let (components, j1) = match read_str_list(bytes, i + 8, ncomp) {
        Some(p) => p,
        None => {
            proof {
                assert forall|m: QueryModel|
                    query_wf(m) && #[trigger] is_prefix(
                        enc_query(m),
                        bytes@.skip(i as int),
                    ) implies false by {
                    lemma_query_split(bytes@, i as int, m, ncomp);
                }
            }
            return None;
        },
    };
    let ghost names = components@.map_values(|s2: String| s2@);
    let nfilt = match read_u64(bytes, j1) {
        Some(c) => c,
        None => {
            proof {
                assert forall|m: QueryModel|
                    query_wf(m) && #[trigger] is_prefix(
                        enc_query(m),
                        bytes@.skip(i as int),
                    ) implies false by {
                    lemma_query_split(bytes@, i as int, m, ncomp);
                    assert(names == m.components && j1 == i + 8 + enc_str_seq(m.components).len());
                    lemma_le_bytes_len(m.filters.len() as u64 as nat, 8);
                }
            }
            return None;
        },
    };
    let (filters, j2) = match read_filter_list(bytes, j1 + 8, nfilt) {
        Some(p) => p,
        None => {
            proof {
                assert forall|m: QueryModel|
                    query_wf(m) && #[trigger] is_prefix(
                        enc_query(m),
                        bytes@.skip(i as int),
                    ) implies false by {
                    lemma_query_split(bytes@, i as int, m, ncomp);
                    assert(names == m.components && j1 == i + 8 + enc_str_seq(m.components).len());
                    lemma_le_bytes_len(m.filters.len() as u64 as nat, 8);
                    lemma_le_bytes_len(nfilt as nat, 8);
                    lemma_prefix_subrange(bytes@, j1 as int, u64_le(m.filters.len() as u64));
                    lemma_le_bytes_inj(m.filters.len() as u64 as nat, nfilt as nat, 8);
                }
            }
            return None;
        },
    };
    let q = Query { components, filters };
    proof {
        let qm = query_model(q);
        let fm = filter_models(filters@);
        assert(qm.components == names && qm.filters == fm);
        lemma_le_bytes_len(ncomp as nat, 8);
        lemma_le_bytes_len(nfilt as nat, 8);
        assert(is_prefix(u64_le(ncomp), bytes@.skip(i as int))) by {
            lemma_prefix_subrange_rev(bytes@, i as int, u64_le(ncomp));
        }
        assert(bytes@.subrange(i + 8, i + 8 + enc_str_seq(names).len() as int) == enc_str_seq(
            names,
        )) by {
            lemma_prefix_subrange(bytes@, i + 8, enc_str_seq(names));
        }
        lemma_prefix_extend(bytes@, i as int, u64_le(ncomp), enc_str_seq(names));
        assert(bytes@.subrange(j1 as int, j1 + 8) == u64_le(nfilt));
        assert((u64_le(ncomp) + enc_str_seq(names)).len() == 8 + enc_str_seq(names).len());
        lemma_prefix_extend(bytes@, i as int, u64_le(ncomp) + enc_str_seq(names), u64_le(nfilt));
        assert(bytes@.subrange(j1 + 8, j1 + 8 + enc_filter_seq(fm).len() as int) == enc_filter_seq(
            fm,
        )) by {
            lemma_prefix_subrange(bytes@, j1 + 8, enc_filter_seq(fm));
        }
        assert(((u64_le(ncomp) + enc_str_seq(names)) + u64_le(nfilt)).len() == 16 + enc_str_seq(
            names,
        ).len());
        lemma_prefix_extend(
            bytes@,
            i as int,
            (u64_le(ncomp) + enc_str_seq(names)) + u64_le(nfilt),
            enc_filter_seq(fm),
        );
        assert(u64_le(names.len() as u64) == u64_le(ncomp));
        assert(u64_le(fm.len() as u64) == u64_le(nfilt));
        assert(((u64_le(ncomp) + enc_str_seq(names)) + u64_le(nfilt)) + enc_filter_seq(fm)
            =~= enc_query(qm));
        assert forall|m: QueryModel|
            query_wf(m) && #[trigger] is_prefix(enc_query(m), bytes@.skip(i as int)) implies m
            == qm && i + enc_query(m).len() == j2 by {
            lemma_query_split(bytes@, i as int, m, ncomp);
            assert(names == m.components && j1 == i + 8 + enc_str_seq(m.components).len());
            lemma_le_bytes_len(m.filters.len() as u64 as nat, 8);
            lemma_prefix_subrange(bytes@, j1 as int, u64_le(m.filters.len() as u64));
            lemma_le_bytes_inj(m.filters.len() as u64 as nat, nfilt as nat, 8);
            assert(m.filters.len() == nfilt);
            assert(fm == m.filters && j2 == j1 + 8 + enc_filter_seq(m.filters).len());
        }
    }
    Some((q, j2))
}

/// A query encoding is at least 8 bytes: the name count comes first.
proof fn lemma_query_first_parts(s: Seq<u8>, i: int, m: QueryModel)
    requires
        0 <= i <= s.len(),
        query_wf(m),
        is_prefix(enc_query(m), s.skip(i)),
    ensures
        i + 8 <= s.len(),
        is_prefix(u64_le(m.components.len() as u64), s.skip(i)),
{
    lemma_le_bytes_len(m.components.len() as u64 as nat, 8);
    lemma_prefix_split(
        (u64_le(m.components.len() as u64) + enc_str_seq(m.components)) + u64_le(
            m.filters.len() as u64,
        ),
        enc_filter_seq(m.filters),
        s.skip(i),
    );
    lemma_prefix_split(
        u64_le(m.components.len() as u64) + enc_str_seq(m.components),
        u64_le(m.filters.len() as u64),
        s.skip(i),
    );
    lemma_prefix_split(u64_le(m.components.len() as u64), enc_str_seq(m.components), s.skip(i));
}

/// A query encoding at `i` splits into its name count, its names, its
/// filter count and its filter clauses.
proof fn lemma_query_split(s: Seq<u8>, i: int, m: QueryModel, ncomp: u64)
    requires
        0 <= i,
        i + 8 <= s.len(),
        query_wf(m),
        is_prefix(enc_query(m), s.skip(i)),
        s.subrange(i, i + 8) == u64_le(ncomp),
    ensures
        m.components.len() == ncomp,
        is_prefix(enc_str_seq(m.components), s.skip(i + 8)),
        i + 8 + enc_str_seq(m.components).len() + 8 <= s.len(),
        is_prefix(
            u64_le(m.filters.len() as u64),
            s.skip(i + 8 + enc_str_seq(m.components).len() as int),
        ),
        is_prefix(
            enc_filter_seq(m.filters),
            s.skip(i + 8 + enc_str_seq(m.components).len() + 8),
        ),
        enc_query(m).len() == 16 + enc_str_seq(m.components).len() + enc_filter_seq(
            m.filters,
        ).len(),
{
    lemma_query_first_parts(s, i, m);
    lemma_le_bytes_len(m.components.len() as u64 as nat, 8);
    lemma_le_bytes_len(m.filters.len() as u64 as nat, 8);
    lemma_le_bytes_len(ncomp as nat, 8);
    lemma_prefix_split(
        (u64_le(m.components.len() as u64) + enc_str_seq(m.components)) + u64_le(
            m.filters.len() as u64,
        ),
        enc_filter_seq(m.filters),
        s.skip(i),
    );
    lemma_prefix_split(
        u64_le(m.components.len() as u64) + enc_str_seq(m.components),
        u64_le(m.filters.len() as u64),
        s.skip(i),
    );
    lemma_prefix_split(u64_le(m.components.len() as u64), enc_str_seq(m.components), s.skip(i));
    lemma_prefix_subrange(s, i, u64_le(m.components.len() as u64));
    lemma_pow256_64();
    lemma_le_bytes_inj(m.components.len() as u64 as nat, ncomp as nat, 8);
    let l0 = enc_str_seq(m.components).len() as int;
    lemma_skip_skip(s, i, i + 8);
    assert(s.skip(i).skip(8) == s.skip(i + 8));
    lemma_skip_skip(s, i, i + 8 + l0);
    assert(s.skip(i).skip(8 + l0) == s.skip(i + 8 + l0));
    lemma_skip_skip(s, i, i + 8 + l0 + 8);
    assert(s.skip(i).skip(8 + l0 + 8) == s.skip(i + 8 + l0 + 8));
}

/// The encoding of a log message: its level byte, then its message text.
pub open spec fn enc_log(level: u8, message: Seq<char>) -> Seq<u8> {
    seq![level] + enc_str(message)
}

/// A log message the wire format can carry.
pub open spec fn log_wf(message: Seq<char>) -> bool {
    str_wf(message)
}

/// Appends the encoding of a log message.
pub fn push_log(buf: &mut Vec<u8>, msg: &LogMessage)
    ensures
        final(buf)@ == old(buf)@ + enc_log(msg.level, msg.message@),
        log_wf(msg.message@),
{
    buf.push(msg.level);
    push_str(buf, msg.message.as_str());
    proof {
        assert(buf@ =~= old(buf)@ + enc_log(msg.level, msg.message@));
    }
}

/// Reads a log message at `i`: a level byte, then the message text.
pub fn read_log(bytes: &Vec<u8>, i: usize) -> (r: Option<(LogMessage, usize)>)
    requires
        i <= bytes@.len(),
    ensures
        r matches Some(p) ==> {
            &&& i + enc_log(p.0.level, p.0.message@).len() == p.1 <= bytes@.len()
            &&& is_prefix(enc_log(p.0.level, p.0.message@), bytes@.skip(i as int))
            &&& log_wf(p.0.message@)
        },
        forall|level: u8, message: Seq<char>|
            log_wf(message) && #[trigger] is_prefix(
                enc_log(level, message),
                bytes@.skip(i as int),
            ) ==> (r matches Some(p) && p.0.level == level && p.0.message@ == message && p.1 == i
                + enc_log(level, message).len()),
{
    if i >= bytes.len() {
        proof {
            assert forall|level: u8, message: Seq<char>|
                log_wf(message) && #[trigger] is_prefix(
                    enc_log(level, message),
                    bytes@.skip(i as int),
                ) implies false by {
                assert(enc_log(level, message).len() >= 1);
            }
        }
        return None;
    }
    let level = bytes[i];
    let (message, j) = match read_str(bytes, i + 1) {
        Some(p) => p,
        None => {
            proof {
                assert forall|lv: u8, message: Seq<char>|
                    log_wf(message) && #[trigger] is_prefix(
                        enc_log(lv, message),
                        bytes@.skip(i as int),
                    ) implies false by {
                    lemma_log_split(bytes@, i as int, lv, message);
                }
            }
            return None;
        },
    };
    let msg = LogMessage { level, message };
    proof {
        assert(is_prefix(seq![level], bytes@.skip(i as int))) by {
            assert(seq![level] =~= bytes@.skip(i as int).subrange(0, 1));
        }
        assert(bytes@.subrange(i + 1, i + 1 + enc_str(msg.message@).len() as int) == enc_str(
            msg.message@,
        )) by {
            lemma_prefix_subrange(bytes@, i + 1, enc_str(msg.message@));
        }
        lemma_prefix_extend(bytes@, i as int, seq![level], enc_str(msg.message@));
        assert(seq![level] + enc_str(msg.message@) =~= enc_log(msg.level, msg.message@));
        assert forall|lv: u8, message2: Seq<char>|
            log_wf(message2) && #[trigger] is_prefix(
                enc_log(lv, message2),
                bytes@.skip(i as int),
            ) implies lv == level && message2 == msg.message@ && i + enc_log(lv, message2).len()
            == j by {
            lemma_log_split(bytes@, i as int, lv, message2);
            assert(msg.message@ == message2 && j == i + 1 + enc_str(message2).len());
        }
    }
    Some((msg, j))
}

/// A log-message encoding at `i` splits into its level byte and its text.
proof fn lemma_log_split(s: Seq<u8>, i: int, level: u8, message: Seq<char>)
    requires
        0 <= i <= s.len(),
        log_wf(message),
        is_prefix(enc_log(level, message), s.skip(i)),
    ensures
        i < s.len(),
        s[i] == level,
        is_prefix(enc_str(message), s.skip(i + 1)),
        i + 1 + enc_str(message).len() <= s.len(),
        enc_log(level, message).len() == 1 + enc_str(message).len(),
{
    lemma_prefix_split(seq![level], enc_str(message), s.skip(i));
    assert(seq![level][0] == s.skip(i).subrange(0, 1)[0]);
    lemma_skip_skip(s, i, i + 1);
    assert(s.skip(i).skip(1) == s.skip(i + 1));
}

// ---------------------------------------------------------------------------
// Injectivity of the encodings
// ---------------------------------------------------------------------------
/// Within a prefix, subranges agree with the whole sequence.
pub proof fn lemma_prefix_align(p: Seq<u8>, s: Seq<u8>, i: int, j: int)
    requires
        is_prefix(p, s),
        0 <= i <= j <= p.len(),
    ensures
        p.subrange(i, j) == s.subrange(i, j),
{
    assert forall|k: int| 0 <= k < j - i implies p.subrange(i, j)[k] == s.subrange(i, j)[k] by {
        assert(p[i + k] == s.subrange(0, p.len() as int)[i + k]);
    }
    assert(p.subrange(i, j) =~= s.subrange(i, j));
}

/// Two string encodings starting at the same place encode the same
/// string.
pub proof fn lemma_enc_str_inj(a: Seq<char>, b: Seq<char>, s: Seq<u8>)
    requires
        str_wf(a),
        str_wf(b),
        is_prefix(enc_str(a), s),
        is_prefix(enc_str(b), s),
    ensures
        a == b,
{
    let count = a.len() as u64;
    lemma_le_bytes_len(count as nat, 8);
    lemma_enc_chars_index(a);
    lemma_enc_chars_index(b);
    assert(s.skip(0) =~= s);
    assert(s.subrange(0, 8) == u64_le(count)) by {
        assert(enc_str(a).subrange(0, 8) =~= u64_le(count));
        lemma_prefix_align(enc_str(a), s, 0, 8);
    }
    lemma_str_head(s, 0, a, count);
    lemma_str_head(s, 0, b, count);
    assert forall|k: int| 0 <= k < a.len() implies a[k] == b[k] by {
        lemma_char_at(s, 0, a, k, 8 + 4 * k, count);
        lemma_char_at(s, 0, b, k, 8 + 4 * k, count);
        lemma_pow256_64();
        lemma_le_bytes_len(a[k] as u32 as nat, 4);
        lemma_le_bytes_len(b[k] as u32 as nat, 4);
        lemma_le_bytes_inj(a[k] as u32 as nat, b[k] as u32 as nat, 4);
        vstd::utf8::char_u32_cast(a[k], a[k] as u32);
        vstd::utf8::char_u32_cast(b[k], a[k] as u32);
    }
    assert(a =~= b);
}

/// Two component encodings starting at the same place encode the same
/// tree.
proof fn lemma_enc_component_inj(a: ComponentModel, b: ComponentModel, s: Seq<u8>)
    requires
        component_wf(a),
        component_wf(b),
        is_prefix(enc_component(a), s),
        is_prefix(enc_component(b), s),
    ensures
        a == b,
    decreases a,
{
    lemma_enc_component_head(a);
    lemma_enc_component_head(b);
    assert(s.skip(0) =~= s);
    assert(enc_component(a)[0] == s[0] && enc_component(b)[0] == s[0]) by {
        lemma_prefix_align(enc_component(a), s, 0, 1);
        lemma_prefix_align(enc_component(b), s, 0, 1);
        assert(enc_component(a).subrange(0, 1)[0] == enc_component(a)[0]);
        assert(enc_component(b).subrange(0, 1)[0] == enc_component(b)[0]);
        assert(s.subrange(0, 1)[0] == s[0]);
    }
    match a {
        ComponentModel::Unsupported => {
            assert(b is Unsupported);
        },
        ComponentModel::FieldMap(fa) => {
            assert(s[0] == 1);
            assert(b is FieldMap);
            let fb = b->FieldMap_0;
            let count = fa.len() as u64;
            lemma_le_bytes_len(count as nat, 8);
            assert(s.subrange(1, 9) == u64_le(count)) by {
                assert(enc_component(a).subrange(1, 9) =~= u64_le(count));
                lemma_prefix_align(enc_component(a), s, 1, 9);
            }
            lemma_fieldmap_split(s, 0, a);
            lemma_fieldmap_split(s, 0, b);
            lemma_pow256_64();
            lemma_le_bytes_len(fb.len() as u64 as nat, 8);
            lemma_le_bytes_inj(fa.len() as u64 as nat, fb.len() as u64 as nat, 8);
            assert(decreases_to!(a => fa));
            lemma_enc_fields_inj(fa, fb, s.skip(9));
        },
        ComponentModel::TaggedVariant(na, pa) => {
            assert(s[0] == 2);
            assert(b is TaggedVariant);
            let nb = b->TaggedVariant_0;
            let pb = b->TaggedVariant_1;
            lemma_tagged_split(s, 0, a);
            lemma_tagged_split(s, 0, b);
            lemma_enc_str_inj(na, nb, s.skip(1));
            lemma_enc_component_inj(*pa, *pb, s.skip(1 + enc_str(na).len() as int));
        },
    }
}

/// Two field-list encodings of the same length starting at the same
/// place encode the same fields.
proof fn lemma_enc_fields_inj(
    fa: Seq<(Seq<char>, ComponentModel)>,
    fb: Seq<(Seq<char>, ComponentModel)>,
    s: Seq<u8>,
)
    requires
        fa.len() == fb.len(),
        fields_wf(fa),
        fields_wf(fb),
        is_prefix(enc_fields(fa), s),
        is_prefix(enc_fields(fb), s),
    ensures
        fa == fb,
    decreases fa,
{
    if fa.len() == 0 {
        assert(fa =~= fb);
    } else {
        assert(s.skip(0) =~= s);
        lemma_field_list_split(s, 0, fa);
        lemma_field_list_split(s, 0, fb);
        lemma_enc_str_inj(fa[0].0, fb[0].0, s);
        assert(decreases_to!(fa => fa[0].1)) by {
            assert(decreases_to!(fa => fa[0]));
        }
        lemma_enc_component_inj(fa[0].1, fb[0].1, s.skip(enc_str(fa[0].0).len() as int));
        assert(fa[0] == fb[0]);
        lemma_enc_fields_inj(
            fa.drop_first(),
            fb.drop_first(),
            s.skip(enc_str(fa[0].0).len() + enc_component(fa[0].1).len() as int),
        );
        assert(fa =~= seq![fa[0]] + fa.drop_first());
        assert(fb =~= seq![fb[0]] + fb.drop_first());
    }
}

/// Two name-list encodings of the same length starting at the same place
/// encode the same names.
proof fn lemma_enc_str_seq_inj(a: Seq<Seq<char>>, b: Seq<Seq<char>>, s: Seq<u8>)
    requires
        a.len() == b.len(),
        strs_wf(a),
        strs_wf(b),
        is_prefix(enc_str_seq(a), s),
        is_prefix(enc_str_seq(b), s),
    ensures
        a == b,
    decreases a.len(),
{
    if a.len() == 0 {
        assert(a =~= b);
    } else {
        assert(s.skip(0) =~= s);
        lemma_str_list_split(s, 0, a);
        lemma_str_list_split(s, 0, b);
        lemma_enc_str_inj(a[0], b[0], s);
        lemma_enc_str_seq_inj(a.drop_first(), b.drop_first(), s.skip(enc_str(a[0]).len() as int));
        assert(a =~= seq![a[0]] + a.drop_first());
        assert(b =~= seq![b[0]] + b.drop_first());
    }
}

/// Two filter encodings starting at the same place encode the same
/// clause.
proof fn lemma_enc_filter_inj(a: FilterModel, b: FilterModel, s: Seq<u8>)
    requires
        filter_wf(a),
        filter_wf(b),
        is_prefix(enc_filter(a), s),
        is_prefix(enc_filter(b), s),
    ensures
        a == b,
{
    assert(s.skip(0) =~= s);
    lemma_filter_split(s, 0, a);
    lemma_filter_split(s, 0, b);
    lemma_enc_str_inj(filter_name(a), filter_name(b), s.skip(1));
}

/// Two filter-list encodings of the same length starting at the same
/// place encode the same clauses.
proof fn lemma_enc_filter_seq_inj(a: Seq<FilterModel>, b: Seq<FilterModel>, s: Seq<u8>)
    requires
        a.len() == b.len(),
        filters_wf(a),
        filters_wf(b),
        is_prefix(enc_filter_seq(a), s),
        is_prefix(enc_filter_seq(b), s),
    ensures
        a == b,
    decreases a.len(),
{
    if a.len() == 0 {
        assert(a =~= b);
    } else {
        assert(s.skip(0) =~= s);
        lemma_filter_list_split(s, 0, a);
        lemma_filter_list_split(s, 0, b);
        lemma_enc_filter_inj(a[0], b[0], s);
        lemma_enc_filter_seq_inj(
            a.drop_first(),
            b.drop_first(),
            s.skip(enc_filter(a[0]).len() as int),
        );
        assert(a =~= seq![a[0]] + a.drop_first());
        assert(b =~= seq![b[0]] + b.drop_first());
    }
}

/// Two item encodings starting at the same place encode the same row.
proof fn lemma_enc_item_inj(a: QueryFetchItemModel, b: QueryFetchItemModel, s: Seq<u8>)
    requires
        item_wf(a),
        item_wf(b),
        is_prefix(enc_item(a), s),
        is_prefix(enc_item(b), s),
    ensures
        a == b,
{
    assert(s.skip(0) =~= s);
    lemma_item_prefix_parts(s, 0, a);
    lemma_item_prefix_parts(s, 0, b);
    let count = a.components.len() as u64;
    lemma_le_bytes_len(count as nat, 8);
    lemma_le_bytes_len(a.entity.id as nat, 4);
    lemma_le_bytes_len(a.entity.generation as nat, 4);
    lemma_le_bytes_len(b.entity.id as nat, 4);
    lemma_le_bytes_len(b.entity.generation as nat, 4);
    assert(s.subrange(8, 16) == u64_le(count)) by {
        assert(enc_item(a).subrange(8, 16) =~= u64_le(count));
        lemma_prefix_align(enc_item(a), s, 8, 16);
    }
    lemma_item_split(s, 0, a, count);
    lemma_item_split(s, 0, b, count);
    assert(a.entity == b.entity) by {
        lemma_prefix_align(enc_entity(a.entity), s, 0, 4);
        lemma_prefix_align(enc_entity(a.entity), s, 4, 8);
        lemma_prefix_align(enc_entity(b.entity), s, 0, 4);
        lemma_prefix_align(enc_entity(b.entity), s, 4, 8);
        assert(enc_entity(a.entity).subrange(0, 4) =~= u32_le(a.entity.id));
        assert(enc_entity(a.entity).subrange(4, 8) =~= u32_le(a.entity.generation));
        assert(enc_entity(b.entity).subrange(0, 4) =~= u32_le(b.entity.id));
        assert(enc_entity(b.entity).subrange(4, 8) =~= u32_le(b.entity.generation));
        lemma_pow256_64();
        lemma_le_bytes_inj(a.entity.id as nat, b.entity.id as nat, 4);
        lemma_le_bytes_inj(a.entity.generation as nat, b.entity.generation as nat, 4);
    }
    lemma_enc_comp_seq_inj(a.components, b.components, s.skip(16));
}

/// Two component-list encodings of the same length starting at the same
/// place encode the same values.
proof fn lemma_enc_comp_seq_inj(a: Seq<ComponentModel>, b: Seq<ComponentModel>, s: Seq<u8>)
    requires
        a.len() == b.len(),
        comps_wf(a),
        comps_wf(b),
        is_prefix(enc_comp_seq(a), s),
        is_prefix(enc_comp_seq(b), s),
    ensures
        a == b,
    decreases a.len(),
{
    if a.len() == 0 {
        assert(a =~= b);
    } else {
        assert(s.skip(0) =~= s);
        lemma_comp_list_split(s, 0, a);
        lemma_comp_list_split(s, 0, b);
        lemma_enc_component_inj(a[0], b[0], s);
        lemma_enc_comp_seq_inj(
            a.drop_first(),
            b.drop_first(),
            s.skip(enc_component(a[0]).len() as int),
        );
        assert(a =~= seq![a[0]] + a.drop_first());
        assert(b =~= seq![b[0]] + b.drop_first());
    }
}

/// Two item-list encodings of the same length starting at the same place
/// encode the same rows.
proof fn lemma_enc_item_seq_inj(
    a: Seq<QueryFetchItemModel>,
    b: Seq<QueryFetchItemModel>,
    s: Seq<u8>,
)
    requires
        a.len() == b.len(),
        items_wf(a),
        items_wf(b),
        is_prefix(enc_item_seq(a), s),
        is_prefix(enc_item_seq(b), s),
    ensures
        a == b,
    decreases a.len(),
{
    if a.len() == 0 {
        assert(a =~= b);
    } else {
        assert(s.skip(0) =~= s);
        lemma_item_list_split(s, 0, a);
        lemma_item_list_split(s, 0, b);
        lemma_enc_item_inj(a[0], b[0], s);
        lemma_enc_item_seq_inj(a.drop_first(), b.drop_first(), s.skip(enc_item(a[0]).len() as int));
        assert(a =~= seq![a[0]] + a.drop_first());
        assert(b =~= seq![b[0]] + b.drop_first());
    }
}

/// Two query encodings starting at the same place encode the same query.
pub proof fn lemma_enc_query_inj(a: QueryModel, b: QueryModel, s: Seq<u8>)
    requires
        query_wf(a),
        query_wf(b),
        is_prefix(enc_query(a), s),
        is_prefix(enc_query(b), s),
    ensures
        a == b,
{
    assert(s.skip(0) =~= s);
    let count = a.components.len() as u64;
    lemma_le_bytes_len(count as nat, 8);
    lemma_query_first_parts(s, 0, a);
    lemma_query_first_parts(s, 0, b);
    assert(s.subrange(0, 8) == u64_le(count)) by {
        assert(enc_query(a).subrange(0, 8) =~= u64_le(count));
        lemma_prefix_align(enc_query(a), s, 0, 8);
    }
    lemma_query_split(s, 0, a, count);
    lemma_query_split(s, 0, b, count);
    lemma_enc_str_seq_inj(a.components, b.components, s.skip(8));
    let mid = 8 + enc_str_seq(a.components).len() as int;
    lemma_le_bytes_len(a.filters.len() as u64 as nat, 8);
    lemma_le_bytes_len(b.filters.len() as u64 as nat, 8);
    assert(a.filters.len() == b.filters.len()) by {
        lemma_prefix_subrange(s, mid, u64_le(a.filters.len() as u64));
        lemma_prefix_subrange(s, mid, u64_le(b.filters.len() as u64));
        lemma_pow256_64();
        lemma_le_bytes_inj(a.filters.len() as u64 as nat, b.filters.len() as u64 as nat, 8);
    }
    lemma_enc_filter_seq_inj(a.filters, b.filters, s.skip(mid + 8));
    assert(a =~= b);
}

/// Two query-result encodings starting at the same place encode the same
/// rows.
pub proof fn lemma_enc_fetch_inj(
    a: Seq<QueryFetchItemModel>,
    b: Seq<QueryFetchItemModel>,
    s: Seq<u8>,
)
    requires
        fetch_wf(a),
        fetch_wf(b),
        is_prefix(enc_fetch(a), s),
        is_prefix(enc_fetch(b), s),
    ensures
        a == b,
{
    assert(s.skip(0) =~= s);
    let count = a.len() as u64;
    lemma_le_bytes_len(count as nat, 8);
    assert(s.subrange(0, 8) == u64_le(count)) by {
        assert(enc_fetch(a).subrange(0, 8) =~= u64_le(count));
        lemma_prefix_align(enc_fetch(a), s, 0, 8);
    }
    lemma_fetch_split(s, 0, a, count);
    lemma_fetch_split(s, 0, b, count);
    lemma_enc_item_seq_inj(a, b, s.skip(8));
}

/// Two log-message encodings starting at the same place encode the same
/// level and text.
pub proof fn lemma_enc_log_inj(
    la: u8,
    ma: Seq<char>,
    lb: u8,
    mb: Seq<char>,
    s: Seq<u8>,
)
    requires
        log_wf(ma),
        log_wf(mb),
        is_prefix(enc_log(la, ma), s),
        is_prefix(enc_log(lb, mb), s),
    ensures
        la == lb,
        ma == mb,
{
    assert(s.skip(0) =~= s);
    lemma_log_split(s, 0, la, ma);
    lemma_log_split(s, 0, lb, mb);
    lemma_enc_str_inj(ma, mb, s.skip(1));
}

} // verus!
