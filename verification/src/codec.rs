//! Tag-set codec.
//!
//! A post's tag ids are stored in a single column as the UTF-8 bytes of
//! `X{t1}X X{t2}X ...` (no separators between tokens): every decimal id is
//! flanked on both sides by the delimiter `X`.  Flanking each token twice
//! means that "does this column hold tag `t`" can be answered by a plain
//! substring search for `X{t}X`, with no risk of one id matching inside
//! another (tag `1` never matches the token of tag `12` or `21`).
//!
//! Decoding is deliberately lenient: bytes that are not valid UTF-8 decode
//! to the empty tag list, and split segments that do not parse as a signed
//! 32-bit integer (in particular the empty segments between adjacent
//! delimiters) are discarded.
//!
//! Decoding splits on the delimiter byte.  For the valid UTF-8 the decoder
//! admits this is the same as splitting the text on the character `X`:
//! every byte of a multi-byte character is at least `0x80`, so the
//! delimiter byte occurs only as that character, and a segment holding a
//! byte outside ASCII cannot parse as an integer anyway.

use vstd::prelude::*;
use vstd::utf8::*;

verus! {

/// The delimiter byte that flanks every encoded tag id: `X`.
pub const DELIM: u8 = 88;

/// True for the ASCII bytes `0` through `9`.
pub open spec fn is_digit(b: u8) -> bool {
    48 <= b <= 57
}

/// Decimal digits of `n`, most significant first, as ASCII bytes.
pub open spec fn digits_of(n: nat) -> Seq<u8>
    decreases n,
{
    if n < 10 {
        seq![(48 + n) as u8]
    } else {
        digits_of(n / 10).push((48 + n % 10) as u8)
    }
}

/// Signed decimal representation of `t` as ASCII bytes.
pub open spec fn decimal_of(t: int) -> Seq<u8> {
    if t < 0 {
        seq![45u8] + digits_of((-t) as nat)
    } else {
        digits_of(t as nat)
    }
}

/// The stored token for tag `t`: its decimal form flanked by delimiters.
pub open spec fn token_of(t: int) -> Seq<u8> {
    seq![DELIM] + decimal_of(t) + seq![DELIM]
}

/// The encoded column for a tag list: the tokens, concatenated in order.
pub open spec fn encode_spec(tags: Seq<i32>) -> Seq<u8>
    decreases tags.len(),
{
    if tags.len() == 0 {
        Seq::empty()
    } else {
        token_of(tags[0] as int) + encode_spec(tags.skip(1))
    }
}

/// Split on the delimiter, keeping empty segments, as `str::split` does.
pub open spec fn split_delim(s: Seq<u8>) -> Seq<Seq<u8>>
    decreases s.len(),
{
    if s.len() == 0 {
        seq![Seq::<u8>::empty()]
    } else if s[0] == DELIM {
        seq![Seq::<u8>::empty()] + split_delim(s.skip(1))
    } else {
        let r = split_delim(s.skip(1));
        seq![seq![s[0]] + r[0]] + r.skip(1)
    }
}

/// True when no byte of `s` is the delimiter.
pub open spec fn delim_free(s: Seq<u8>) -> bool {
    forall|i: int| 0 <= i < s.len() ==> s[i] != DELIM
}

/// Value of a digit string, most significant digit first.
pub open spec fn digits_val(s: Seq<u8>) -> int
    decreases s.len(),
{
    if s.len() == 0 {
        0
    } else {
        digits_val(s.drop_last()) * 10 + (s.last() - 48)
    }
}

/// True when every byte of `s` is an ASCII digit.
pub open spec fn all_digits(s: Seq<u8>) -> bool {
    forall|i: int| 0 <= i < s.len() ==> is_digit(s[i])
}

/// The digits of a segment, after any single leading `+` or `-`.
pub open spec fn seg_body(s: Seq<u8>) -> Seq<u8> {
    if s.len() > 0 && (s[0] == 43 || s[0] == 45) {
        s.skip(1)
    } else {
        s
    }
}

/// -1 for a segment with a leading `-`, else 1.
pub open spec fn seg_sign(s: Seq<u8>) -> int {
    if s.len() > 0 && s[0] == 45 {
        -1
    } else {
        1
    }
}

/// The integer a segment denotes, meaningful when `parses_as_i32` holds.
pub open spec fn seg_value(s: Seq<u8>) -> int {
    seg_sign(s) * digits_val(seg_body(s))
}

/// True when the segment is what `i32` accepts: an optional sign, then one
/// or more digits, with the value in range.
pub open spec fn parses_as_i32(s: Seq<u8>) -> bool {
    &&& seg_body(s).len() > 0
    &&& all_digits(seg_body(s))
    &&& i32::MIN <= seg_value(s) <= i32::MAX
}

/// The tag ids of the parsable segments, in order.
pub open spec fn collect_tags(segs: Seq<Seq<u8>>) -> Seq<i32>
    decreases segs.len(),
{
    if segs.len() == 0 {
        Seq::empty()
    } else {
        (if parses_as_i32(segs[0]) {
            seq![seg_value(segs[0]) as i32]
        } else {
            Seq::<i32>::empty()
        }) + collect_tags(segs.skip(1))
    }
}

/// What decoding a stored column yields: nothing for invalid UTF-8, else
/// the parsable segments of the delimiter split.
pub open spec fn decode_spec(blob: Seq<u8>) -> Seq<i32> {
    if valid_utf8(blob) {
        collect_tags(split_delim(blob))
    } else {
        Seq::empty()
    }
}

/// One sequence occurs inside another as a contiguous run.
pub open spec fn contains_seq<T>(hay: Seq<T>, needle: Seq<T>) -> bool {
    exists|i: int|
        0 <= i && i + needle.len() <= hay.len() && #[trigger] hay.subrange(i, i + needle.len())
            == needle
}

proof fn lemma_encode_snoc(tags: Seq<i32>, t: i32)
    ensures
        encode_spec(tags.push(t)) == encode_spec(tags) + token_of(t as int),
    decreases tags.len(),
{
    if tags.len() == 0 {
        reveal_with_fuel(encode_spec, 2);
        assert(tags.push(t).skip(1) =~= Seq::<i32>::empty());
        assert(tags.push(t)[0] == t);
        assert(encode_spec(tags.push(t)) =~= encode_spec(tags) + token_of(t as int));
    } else {
        assert(tags.push(t)[0] == tags[0]);
        assert(tags.push(t).skip(1) =~= tags.skip(1).push(t));
        lemma_encode_snoc(tags.skip(1), t);
        assert(encode_spec(tags.push(t)) == token_of(tags[0] as int) + (encode_spec(tags.skip(1))
            + token_of(t as int)));
        assert(encode_spec(tags.push(t)) =~= encode_spec(tags) + token_of(t as int));
    }
}

/// Append the decimal form of `t` to `out`.
fn push_decimal(out: &mut Vec<u8>, t: i32)
    ensures
        final(out)@ == old(out)@ + decimal_of(t as int),
{
    let ghost start = out@;
    let mut m: u64;
    if t < 0 {
        out.push(45);
        m = (-(t as i64)) as u64;
    } else {
        m = t as u64;
    }
    let ghost m0 = m as nat;
    let mut rev: Vec<u8> = Vec::new();
    while m >= 10
        invariant
            digits_of(m0) =~= digits_of(m as nat) + rev@.reverse(),
        decreases m,
    {
        let d: u8 = (48 + (m % 10)) as u8;
        proof {
            assert(digits_of((m / 10) as nat).push((48 + (m as nat) % 10) as u8) == digits_of(
                m as nat,
            ));
            assert(rev@.push(d).reverse() =~= seq![d] + rev@.reverse());
            assert(digits_of((m / 10) as nat) + rev@.push(d).reverse() =~= digits_of(m as nat)
                + rev@.reverse());
        }
        rev.push(d);
        m = m / 10;
    }
    let d: u8 = (48 + m) as u8;
    proof {
        assert(digits_of(m as nat) =~= seq![d]);
        assert(rev@.push(d).reverse() =~= seq![d] + rev@.reverse());
        assert(digits_of(m0) =~= rev@.push(d).reverse());
    }
    rev.push(d);
    let n = rev.len();
    let mut i: usize = 0;
    while i < n
        invariant
            n == rev@.len(),
            0 <= i <= n,
            out@ =~= start + (if t < 0 {
                seq![45u8]
            } else {
                Seq::<u8>::empty()
            }) + rev@.reverse().take(i as int),
        decreases n - i,
    {
        let b = rev[n - 1 - i];
        proof {
            assert(rev@.reverse()[i as int] == rev@[n - 1 - i]);
            assert(rev@.reverse().take(i + 1) =~= rev@.reverse().take(i as int).push(b));
        }
        out.push(b);
        i += 1;
    }
    proof {
        assert(rev@.reverse().take(n as int) =~= rev@.reverse());
        assert(out@ =~= start + decimal_of(t as int));
    }
}

proof fn lemma_digits_val_nonneg(s: Seq<u8>)
    requires
        all_digits(s),
    ensures
        digits_val(s) >= 0,
    decreases s.len(),
{
    if s.len() > 0 {
        assert(all_digits(s.drop_last()));
        lemma_digits_val_nonneg(s.drop_last());
    }
}

proof fn lemma_digits_val_take(s: Seq<u8>, k: int)
    requires
        all_digits(s),
        0 <= k <= s.len(),
    ensures
        digits_val(s.take(k)) <= digits_val(s),
    decreases s.len() - k,
{
    if k < s.len() {
        lemma_digits_val_take(s, k + 1);
        assert(s.take(k + 1).drop_last() =~= s.take(k));
        assert(all_digits(s.take(k + 1)));
        assert(all_digits(s.take(k)));
        lemma_digits_val_nonneg(s.take(k));
        assert(digits_val(s.take(k + 1)) == digits_val(s.take(k)) * 10 + (s[k] - 48));
    } else {
        assert(s.take(k) =~= s);
    }
}

/// Parse `v[start..end]` the way `i32` does: an optional sign, then one or
/// more decimal digits, rejecting values out of range.
fn parse_seg(v: &Vec<u8>, start: usize, end: usize) -> (r: Option<i32>)
    requires
        start <= end <= v@.len(),
    ensures
        ({
            let s = v@.subrange(start as int, end as int);
            match r {
                Some(x) => parses_as_i32(s) && x as int == seg_value(s),
                None => !parses_as_i32(s),
            }
        }),
{
    let ghost s = v@.subrange(start as int, end as int);
    let mut j = start;
    let mut neg = false;
    if j < end && (v[j] == 43 || v[j] == 45) {
        neg = v[j] == 45;
        j += 1;
        proof {
            assert(s[0] == v@[start as int]);
            assert(seg_body(s) =~= v@.subrange(start + 1, end as int));
        }
    } else {
        proof {
            assert(seg_body(s) =~= s);
        }
    }
    let body_start = j;
    let ghost body = seg_body(s);
    if j == end {
        proof {
            assert(body.len() == 0);
        }
        return None;
    }
    let mut acc: u64 = 0;
    while j < end
        invariant
            start <= body_start <= j <= end <= v@.len(),
            body == seg_body(s),
            s == v@.subrange(start as int, end as int),
            body =~= v@.subrange(body_start as int, end as int),
            acc as int == digits_val(v@.subrange(body_start as int, j as int)),
            all_digits(v@.subrange(body_start as int, j as int)),
            acc <= 0x8000_0000,
        decreases end - j,
    {
        let b = v[j];
        let ghost pre = v@.subrange(body_start as int, j as int);
        if b < 48 || b > 57 {
            proof {
                assert(body[j - body_start] == v@[j as int]);
                assert(!all_digits(body));
            }
            return None;
        }
        proof {
            assert(v@.subrange(body_start as int, j + 1) =~= pre.push(b));
            assert(pre.push(b).drop_last() =~= pre);
            assert(digits_val(pre.push(b)) == digits_val(pre) * 10 + (b - 48));
        }
        acc = acc * 10 + ((b - 48) as u64);
        j += 1;
        if acc > 0x8000_0000 {
            proof {
                let done = v@.subrange(body_start as int, j as int);
                assert(done =~= body.take(j - body_start));
                if all_digits(body) {
                    lemma_digits_val_take(body, j - body_start);
                    assert(digits_val(body) >= acc as int);
                    assert(seg_value(s) > i32::MAX || seg_value(s) < i32::MIN);
                }
            }
            return None;
        }
    }
    proof {
        assert(v@.subrange(body_start as int, j as int) =~= body);
        assert(digits_val(body) == acc as int);
        lemma_digits_val_nonneg(body);
    }
    if neg {
        proof {
            assert(seg_sign(s) == -1);
            assert(seg_value(s) == -(acc as int));
        }
        Some((-(acc as i64)) as i32)
    } else {
        if acc > 0x7fff_ffff {
            proof {
                assert(seg_sign(s) == 1);
                assert(seg_value(s) > i32::MAX);
            }
            return None;
        }
        proof {
            assert(seg_sign(s) == 1);
        }
        Some(acc as i32)
    }
}

proof fn lemma_split_free(a: Seq<u8>)
    requires
        delim_free(a),
    ensures
        split_delim(a) == seq![a],
    decreases a.len(),
{
    if a.len() == 0 {
        assert(a =~= Seq::<u8>::empty());
        assert(split_delim(a) =~= seq![a]);
    } else {
        assert(a[0] != DELIM);
        assert(delim_free(a.skip(1)));
        lemma_split_free(a.skip(1));
        assert(seq![a[0]] + a.skip(1) =~= a);
        assert(seq![a.skip(1)].skip(1) =~= Seq::<Seq<u8>>::empty());
        assert(split_delim(a) =~= seq![a]);
    }
}

proof fn lemma_split_first(a: Seq<u8>, b: Seq<u8>)
    requires
        delim_free(a),
    ensures
        split_delim(a + seq![DELIM] + b) == seq![a] + split_delim(b),
    decreases a.len(),
{
    let s = a + seq![DELIM] + b;
    if a.len() == 0 {
        assert(s[0] == DELIM);
        assert(s.skip(1) =~= b);
        assert(a =~= Seq::<u8>::empty());
        assert(split_delim(s) == seq![Seq::<u8>::empty()] + split_delim(b));
        assert(split_delim(s) =~= seq![a] + split_delim(b));
    } else {
        assert(s[0] == a[0]);
        assert(s[0] != DELIM);
        assert(s.skip(1) =~= a.skip(1) + seq![DELIM] + b);
        assert(delim_free(a.skip(1)));
        lemma_split_first(a.skip(1), b);
        let r = split_delim(s.skip(1));
        assert(r == seq![a.skip(1)] + split_delim(b));
        assert(r[0] == a.skip(1));
        assert(seq![s[0]] + a.skip(1) =~= a);
        assert(r.skip(1) =~= split_delim(b));
        assert(split_delim(s) =~= seq![a] + split_delim(b));
    }
}

proof fn lemma_collect_cons(x: Seq<u8>, segs: Seq<Seq<u8>>)
    ensures
        collect_tags(seq![x] + segs) == (if parses_as_i32(x) {
            seq![seg_value(x) as i32]
        } else {
            Seq::<i32>::empty()
        }) + collect_tags(segs),
{
    assert((seq![x] + segs)[0] == x);
    assert((seq![x] + segs).skip(1) =~= segs);
}

/// Decode a stored column back into its tag list.
pub fn u8_to_tags(bytes: Vec<u8>) -> (r: Vec<i32>)
    ensures
        r@ == decode_spec(bytes@),
{
    if !is_valid_utf8(&bytes) {
        let r: Vec<i32> = Vec::new();
        return r;
    }
    let mut res: Vec<i32> = Vec::new();
    let mut seg_start: usize = 0;
    let mut i: usize = 0;
    proof {
        assert(bytes@.skip(0) =~= bytes@);
        assert(res@ + collect_tags(split_delim(bytes@)) =~= collect_tags(split_delim(bytes@)));
    }
    while i < bytes.len()
        invariant
            0 <= seg_start <= i <= bytes@.len(),
            valid_utf8(bytes@),
            delim_free(bytes@.subrange(seg_start as int, i as int)),
            collect_tags(split_delim(bytes@)) == res@ + collect_tags(
                split_delim(bytes@.skip(seg_start as int)),
            ),
        decreases bytes@.len() - i,
    {
        if bytes[i] == DELIM {
            let ghost head = bytes@.subrange(seg_start as int, i as int);
            let ghost tail = bytes@.skip(i + 1);
            let parsed = parse_seg(&bytes, seg_start, i);
            proof {
                assert(bytes@.skip(seg_start as int) =~= head + seq![DELIM] + tail);
                lemma_split_first(head, tail);
                lemma_collect_cons(head, split_delim(tail));
            }
            match parsed {
                Some(x) => {
                    res.push(x);
                },
                None => {
                },
            }
            seg_start = i + 1;
            proof {
                assert(bytes@.subrange(seg_start as int, i + 1) =~= Seq::<u8>::empty());
            }
        } else {
            proof {
                assert(bytes@.subrange(seg_start as int, i + 1) =~= bytes@.subrange(
                    seg_start as int,
                    i as int,
                ).push(bytes@[i as int]));
            }
        }
        i += 1;
    }
    let ghost last = bytes@.subrange(seg_start as int, bytes@.len() as int);
    let parsed = parse_seg(&bytes, seg_start, bytes.len());
    proof {
        assert(bytes@.skip(seg_start as int) =~= last);
        lemma_split_free(last);
        lemma_collect_cons(last, Seq::<Seq<u8>>::empty());
        assert(seq![last] =~= seq![last] + Seq::<Seq<u8>>::empty());
        assert(collect_tags(Seq::<Seq<u8>>::empty()) =~= Seq::<i32>::empty());
    }
    match parsed {
        Some(x) => {
            res.push(x);
        },
        None => {
        },
    }
    res
}

proof fn lemma_digits_of_digits(n: nat)
    ensures
        all_digits(digits_of(n)),
        digits_of(n).len() >= 1,
        digits_val(digits_of(n)) == n,
    decreases n,
{
    if n < 10 {
        assert(digits_of(n) =~= seq![(48 + n) as u8]);
        assert(digits_of(n).drop_last() =~= Seq::<u8>::empty());
        assert(digits_val(Seq::<u8>::empty()) == 0);
        assert(digits_val(digits_of(n)) == digits_val(Seq::<u8>::empty()) * 10 + ((48 + n) as u8
            - 48));
    } else {
        lemma_digits_of_digits(n / 10);
        let d = digits_of(n / 10);
        let whole = d.push((48 + n % 10) as u8);
        assert(whole.drop_last() =~= d);
        assert(forall|i: int| 0 <= i < whole.len() ==> is_digit(#[trigger] whole[i]));
        assert(digits_val(whole) == (n / 10) * 10 + n % 10);
        assert((n / 10) * 10 + n % 10 == n) by (nonlinear_arith);
    }
}

proof fn lemma_decimal_bytes(t: int)
    ensures
        forall|i: int| 0 <= i < decimal_of(t).len() ==> (#[trigger] decimal_of(t)[i] == 45
            || is_digit(decimal_of(t)[i])),
        decimal_of(t).len() >= 1,
        delim_free(decimal_of(t)),
{
    if t < 0 {
        lemma_digits_of_digits((-t) as nat);
        assert(forall|i: int| 1 <= i < decimal_of(t).len() ==> is_digit(
            #[trigger] decimal_of(t)[i],
        ));
    } else {
        lemma_digits_of_digits(t as nat);
    }
}

proof fn lemma_parse_decimal(t: int)
    requires
        i32::MIN <= t <= i32::MAX,
    ensures
        parses_as_i32(decimal_of(t)),
        seg_value(decimal_of(t)) == t,
{
    if t < 0 {
        lemma_digits_of_digits((-t) as nat);
        assert(decimal_of(t)[0] == 45);
        assert(seg_body(decimal_of(t)) =~= digits_of((-t) as nat));
        assert(seg_sign(decimal_of(t)) == -1);
    } else {
        lemma_digits_of_digits(t as nat);
        assert(digits_of(t as nat)[0] >= 48);
        assert(seg_body(decimal_of(t)) =~= digits_of(t as nat));
        assert(seg_sign(decimal_of(t)) == 1);
    }
}

proof fn lemma_ascii_valid(s: Seq<u8>)
    requires
        forall|i: int| 0 <= i < s.len() ==> s[i] < 0x80,
    ensures
        valid_utf8(s),
    decreases s.len(),
{
    if s.len() != 0 {
        let b0 = s[0];
        assert(b0 & 0x7f == b0) by (bit_vector)
            requires
                b0 < 0x80,
        ;
        assert(is_leading_byte_width_1(s[0]));
        assert(decode_first_codepoint(s) == codepoint_width_1(b0));
        assert(valid_first_scalar(s));
        assert(pop_first_scalar(s) =~= s.skip(1));
        lemma_ascii_valid(s.skip(1));
    }
}

proof fn lemma_encode_low(xs: Seq<i32>)
    ensures
        forall|i: int| 0 <= i < encode_spec(xs).len() ==> #[trigger] encode_spec(xs)[i] < 0x80,
    decreases xs.len(),
{
    if xs.len() != 0 {
        lemma_decimal_bytes(xs[0] as int);
        lemma_encode_low(xs.skip(1));
        let tok = token_of(xs[0] as int);
        let dec = decimal_of(xs[0] as int);
        let rest = encode_spec(xs.skip(1));
        assert(encode_spec(xs) == tok + rest);
        assert forall|i: int| 0 <= i < encode_spec(xs).len() implies #[trigger] encode_spec(xs)[i]
            < 0x80 by {
            if i < tok.len() {
                assert(encode_spec(xs)[i] == tok[i]);
                if 1 <= i < tok.len() - 1 {
                    assert(tok[i] == dec[i - 1]);
                }
            } else {
                assert(encode_spec(xs)[i] == rest[i - tok.len()]);
            }
        }
    }
}

proof fn lemma_collect_split_encode(xs: Seq<i32>)
    ensures
        collect_tags(split_delim(encode_spec(xs))) == xs,
    decreases xs.len(),
{
    if xs.len() == 0 {
        let e = Seq::<u8>::empty();
        assert(split_delim(e) == seq![e]);
        lemma_collect_cons(e, Seq::<Seq<u8>>::empty());
        assert(seq![e] =~= seq![e] + Seq::<Seq<u8>>::empty());
        assert(collect_tags(split_delim(encode_spec(xs))) =~= xs);
    } else {
        let t = xs[0];
        let dec = decimal_of(t as int);
        let rest = encode_spec(xs.skip(1));
        let s = encode_spec(xs);
        lemma_decimal_bytes(t as int);
        lemma_parse_decimal(t as int);
        assert(s =~= seq![DELIM] + (dec + seq![DELIM] + rest));
        assert(s[0] == DELIM);
        assert(s.skip(1) =~= dec + seq![DELIM] + rest);
        lemma_split_first(dec, rest);
        assert(split_delim(s) == seq![Seq::<u8>::empty()] + (seq![dec] + split_delim(rest)));
        lemma_collect_cons(Seq::<u8>::empty(), seq![dec] + split_delim(rest));
        assert(split_delim(s) =~= seq![Seq::<u8>::empty()] + (seq![dec] + split_delim(rest)));
        lemma_collect_cons(dec, split_delim(rest));
        lemma_collect_split_encode(xs.skip(1));
        assert(collect_tags(split_delim(s)) =~= seq![t] + xs.skip(1));
        assert(seq![t] + xs.skip(1) =~= xs);
    }
}

/// Round trip: decoding an encoded tag list gives the list back, for every
/// list, the empty one included, duplicates and sign included.
pub proof fn lemma_round_trip(xs: Seq<i32>)
    ensures
        decode_spec(encode_spec(xs)) == xs,
{
    lemma_encode_low(xs);
    lemma_ascii_valid(encode_spec(xs));
    lemma_collect_split_encode(xs);
}

proof fn lemma_contains_shift(a: Seq<u8>, b: Seq<u8>, n: Seq<u8>)
    requires
        contains_seq(b, n),
    ensures
        contains_seq(a + b, n),
{
    let i = choose|i: int|
        0 <= i && i + n.len() <= b.len() && #[trigger] b.subrange(i, i + n.len()) == n;
    assert((a + b).subrange(a.len() + i, a.len() + i + n.len()) =~= b.subrange(i, i + n.len()));
}

proof fn lemma_member_forward(xs: Seq<i32>, t: i32)
    requires
        xs.contains(t),
    ensures
        contains_seq(encode_spec(xs), token_of(t as int)),
    decreases xs.len(),
{
    let tok = token_of(t as int);
    let s = encode_spec(xs);
    if xs[0] == t {
        assert(s == tok + encode_spec(xs.skip(1)));
        assert(s.subrange(0, 0 + tok.len() as int) =~= tok);
        assert(contains_seq(s, tok));
    } else {
        let k = choose|k: int| 0 <= k < xs.len() && xs[k] == t;
        assert(xs.skip(1)[k - 1] == t);
        assert(xs.skip(1).contains(t));
        lemma_member_forward(xs.skip(1), t);
        lemma_contains_shift(token_of(xs[0] as int), encode_spec(xs.skip(1)), tok);
    }
}

proof fn lemma_token_split(s: Seq<u8>, w: Seq<u8>, i: int)
    requires
        delim_free(w),
        0 <= i,
        i + w.len() + 2 <= s.len(),
        s.subrange(i, i + w.len() + 2) == seq![DELIM] + w + seq![DELIM],
    ensures
        exists|k: int| 1 <= k < split_delim(s).len() && #[trigger] split_delim(s)[k] == w,
    decreases s.len(),
{
    let tok = seq![DELIM] + w + seq![DELIM];
    let wl = w.len() as int;
    if i == 0 {
        let c = s.skip(wl + 2);
        assert(s[0] == tok[0]);
        assert(forall|j: int| 0 <= j < wl ==> s[1 + j] == #[trigger] w[j]) by {
            assert(forall|j: int| 0 <= j < wl ==> s.subrange(0, wl + 2)[1 + j] == #[trigger] w[j]);
        }
        assert(s[1 + wl] == tok[1 + wl]);
        assert(s.skip(1) =~= w + seq![DELIM] + c);
        lemma_split_first(w, c);
        assert(split_delim(s) == seq![Seq::<u8>::empty()] + (seq![w] + split_delim(c)));
        assert(split_delim(s)[1] == w);
    } else {
        assert(s.skip(1).subrange(i - 1, i - 1 + wl + 2) =~= s.subrange(i, i + wl + 2));
        lemma_token_split(s.skip(1), w, i - 1);
        let r = split_delim(s.skip(1));
        let k = choose|k: int| 1 <= k < r.len() && #[trigger] r[k] == w;
        if s[0] == DELIM {
            assert(split_delim(s)[k + 1] == w);
        } else {
            assert(split_delim(s)[k] == r[k]);
        }
    }
}

proof fn lemma_collect_member(segs: Seq<Seq<u8>>, k: int)
    requires
        0 <= k < segs.len(),
        parses_as_i32(segs[k]),
    ensures
        collect_tags(segs).contains(seg_value(segs[k]) as i32),
    decreases k,
{
    if k == 0 {
        assert(collect_tags(segs)[0] == seg_value(segs[0]) as i32);
    } else {
        lemma_collect_member(segs.skip(1), k - 1);
        let tail = collect_tags(segs.skip(1));
        let j = choose|j: int| 0 <= j < tail.len() && tail[j] == seg_value(segs.skip(1)[k - 1]) as i32;
        let head: Seq<i32> = if parses_as_i32(segs[0]) {
            seq![seg_value(segs[0]) as i32]
        } else {
            Seq::<i32>::empty()
        };
        assert(collect_tags(segs) == head + tail);
        assert(collect_tags(segs)[head.len() + j] == tail[j]);
        assert(collect_tags(segs).contains(seg_value(segs[k]) as i32));
    }
}

proof fn lemma_member_backward(xs: Seq<i32>, t: i32)
    requires
        contains_seq(encode_spec(xs), token_of(t as int)),
    ensures
        xs.contains(t),
{
    let s = encode_spec(xs);
    let w = decimal_of(t as int);
    let tok = token_of(t as int);
    lemma_decimal_bytes(t as int);
    lemma_parse_decimal(t as int);
    let i = choose|i: int|
        0 <= i && i + tok.len() <= s.len() && #[trigger] s.subrange(i, i + tok.len()) == tok;
    assert(s.subrange(i, i + w.len() + 2) == seq![DELIM] + w + seq![DELIM]);
    lemma_token_split(s, w, i);
    let k = choose|k: int| 1 <= k < split_delim(s).len() && #[trigger] split_delim(s)[k] == w;
    lemma_collect_member(split_delim(s), k);
    lemma_collect_split_encode(xs);
}

/// Membership: the stored column of `xs` holds the token of `t` exactly
/// when `t` is one of the tags of `xs`.  In particular an id that is a
/// numeric prefix or suffix of a stored id never matches.
pub proof fn lemma_membership(xs: Seq<i32>, t: i32)
    ensures
        contains_seq(encode_spec(xs), token_of(t as int)) <==> xs.contains(t),
{
    if contains_seq(encode_spec(xs), token_of(t as int)) {
        lemma_member_backward(xs, t);
    }
    if xs.contains(t) {
        lemma_member_forward(xs, t);
    }
}

/// The token whose presence in a stored column marks membership of `t`.
pub fn tag_token(t: i32) -> (r: Vec<u8>)
    ensures
        r@ == token_of(t as int),
{
    let mut r: Vec<u8> = Vec::new();
    r.push(DELIM);
    push_decimal(&mut r, t);
    r.push(DELIM);
    proof {
        assert(r@ =~= token_of(t as int));
    }
    r
}

/// Substring search over bytes.
pub fn bytes_contain(hay: &Vec<u8>, needle: &Vec<u8>) -> (b: bool)
    ensures
        b == contains_seq(hay@, needle@),
{
    let hl = hay.len();
    let nl = needle.len();
    if nl > hl {
        return false;
    }
    if nl == 0 {
        proof {
            assert(hay@.subrange(0, 0 + needle@.len() as int) =~= needle@);
            assert(contains_seq(hay@, needle@));
        }
        return true;
    }
    let mut i: usize = 0;
    while i <= hl - nl
        invariant
            1 <= nl <= hl,
            hl == hay@.len(),
            nl == needle@.len(),
            0 <= i <= hl - nl + 1,
            forall|ii: int| 0 <= ii < i ==> #[trigger] hay@.subrange(ii, ii + nl) != needle@,
        decreases hl - nl + 1 - i,
    {
        let mut j: usize = 0;
        let mut matched = true;
        while j < nl && matched
            invariant
                nl <= hl,
                hl == hay@.len(),
                nl == needle@.len(),
                0 <= i <= hl - nl,
                0 <= j <= nl,
                matched ==> forall|jj: int| 0 <= jj < j ==> hay@[i + jj] == needle@[jj],
                !matched ==> hay@.subrange(i as int, i + nl) != needle@,
            decreases nl - j + (if matched {
                1int
            } else {
                0int
            }),
        {
            if hay[i + j] != needle[j] {
                proof {
                    assert(hay@.subrange(i as int, i + nl)[j as int] == hay@[i + j]);
                }
                matched = false;
            } else {
                j += 1;
            }
        }
        if matched {
            proof {
                assert(hay@.subrange(i as int, i + nl) =~= needle@);
            }
            return true;
        }
        i += 1;
    }
    proof {
        assert forall|ii: int| 0 <= ii && ii + nl <= hl implies #[trigger] hay@.subrange(
            ii,
            ii + nl,
        ) != needle@ by {
            assert(ii < hl - nl + 1);
        }
    }
    false
}

/// Does a stored column hold tag `t`?  A plain substring search for the
/// flanked token, never a decode.
pub fn blob_contains_tag(blob: &Vec<u8>, t: i32) -> (b: bool)
    ensures
        b == contains_seq(blob@, token_of(t as int)),
{
    let tok = tag_token(t);
    bytes_contain(blob, &tok)
}

/// Byte width of the UTF-8 scalar starting at `i`, or `None` when the
/// bytes at `i` do not begin a well-formed scalar.
fn first_scalar_width(v: &Vec<u8>, i: usize) -> (r: Option<usize>)
    requires
        i < v@.len(),
    ensures
        match r {
            Some(w) => valid_first_scalar(v@.skip(i as int)) && w == length_of_first_scalar(
                v@.skip(i as int),
            ) && 1 <= w && i + w <= v@.len(),
            None => !valid_first_scalar(v@.skip(i as int)),
        },
{
    let ghost s = v@.skip(i as int);
    proof {
        assert(s.len() == v@.len() - i);
        assert(s[0] == v@[i as int]);
    }
    let n = v.len();
    let b0 = v[i];
    if b0 < 0x80 {
        proof {
            assert(is_leading_byte_width_1(b0));
            assert(decode_first_codepoint(s) == codepoint_width_1(b0));
            assert(codepoint_width_1(b0) == (b0 & 0x7f) as u32);
            assert(b0 & 0x7f == b0) by (bit_vector)
                requires
                    b0 < 0x80,
            ;
            assert(not_surrogate(decode_first_codepoint(s)));
        }
        Some(1)
    } else if b0 < 0xc0 {
        // a continuation byte cannot lead a scalar
        None
    } else if b0 < 0xe0 {
        if n - i < 2 {
            return None;
        }
        let b1 = v[i + 1];
        proof {
            assert(s[1] == v@[i as int + 1]);
        }
        if !(0x80 <= b1 && b1 <= 0xbf) {
            return None;
        }
        let cp: u32 = (((b0 & 0x1f) as u32) << 6u32) | ((b1 & 0x3f) as u32);
        proof {
            assert(cp == codepoint_width_2(b0, b1));
            assert(length_of_first_codepoint(s) == 2);
        }
        if cp < 0x80 {
            return None;
        }
        proof {
            assert((((b0 & 0x1f) as u32) << 6u32) | ((b1 & 0x3f) as u32) <= 0x7ff) by (bit_vector);
            assert(not_surrogate(cp));
        }
        Some(2)
    } else if b0 < 0xf0 {
        if n - i < 3 {
            return None;
        }
        let b1 = v[i + 1];
        let b2 = v[i + 2];
        proof {
            assert(s[1] == v@[i as int + 1]);
            assert(s[2] == v@[i as int + 2]);
        }
        if !(0x80 <= b1 && b1 <= 0xbf) || !(0x80 <= b2 && b2 <= 0xbf) {
            return None;
        }
        let cp: u32 = (((b0 & 0x0f) as u32) << 12u32) | (((b1 & 0x3f) as u32) << 6u32) | ((b2
            & 0x3f) as u32);
        proof {
            assert(cp == codepoint_width_3(b0, b1, b2));
            assert(length_of_first_codepoint(s) == 3);
        }
        if cp < 0x800 {
            return None;
        }
        if 0xd800 <= cp && cp <= 0xdfff {
            return None;
        }
        Some(3)
    } else if b0 < 0xf8 {
        if n - i < 4 {
            return None;
        }
        let b1 = v[i + 1];
        let b2 = v[i + 2];
        let b3 = v[i + 3];
        proof {
            assert(s[1] == v@[i as int + 1]);
            assert(s[2] == v@[i as int + 2]);
            assert(s[3] == v@[i as int + 3]);
        }
        if !(0x80 <= b1 && b1 <= 0xbf) || !(0x80 <= b2 && b2 <= 0xbf) || !(0x80 <= b3 && b3
            <= 0xbf) {
            return None;
        }
        let cp: u32 = (((b0 & 0x07) as u32) << 18u32) | (((b1 & 0x3f) as u32) << 12u32) | (((b2
            & 0x3f) as u32) << 6u32) | ((b3 & 0x3f) as u32);
        proof {
            assert(cp == codepoint_width_4(b0, b1, b2, b3));
            assert(length_of_first_codepoint(s) == 4);
        }
        if cp < 0x10000 || cp > 0x10ffff {
            return None;
        }
        Some(4)
    } else {
        None
    }
}

/// True exactly when the bytes are a valid UTF-8 encoding.
fn is_valid_utf8(v: &Vec<u8>) -> (b: bool)
    ensures
        b == valid_utf8(v@),
{
    let mut i: usize = 0;
    proof {
        assert(v@.skip(0) =~= v@);
    }
    while i < v.len()
        invariant
            0 <= i <= v@.len(),
            valid_utf8(v@) == valid_utf8(v@.skip(i as int)),
        decreases v@.len() - i,
    {
        let ghost s = v@.skip(i as int);
        match first_scalar_width(v, i) {
            None => {
                proof {
                    assert(s.len() != 0);
                    assert(!valid_utf8(s));
                }
                return false;
            },
            Some(w) => {
                proof {
                    assert(pop_first_scalar(s) =~= v@.skip(i + w));
                }
                i = i + w;
            },
        }
    }
    proof {
        assert(v@.skip(v@.len() as int) =~= Seq::<u8>::empty());
    }
    true
}

/// Encode a tag list into the stored column format.
pub fn tags_to_u8(tags: Vec<i32>) -> (r: Vec<u8>)
    ensures
        r@ == encode_spec(tags@),
{
    let mut r: Vec<u8> = Vec::new();
    let mut i: usize = 0;
    while i < tags.len()
        invariant
            0 <= i <= tags@.len(),
            r@ == encode_spec(tags@.take(i as int)),
        decreases tags@.len() - i,
    {
        r.push(DELIM);
        push_decimal(&mut r, tags[i]);
        r.push(DELIM);
        proof {
            lemma_encode_snoc(tags@.take(i as int), tags@[i as int]);
            assert(tags@.take(i + 1) =~= tags@.take(i as int).push(tags@[i as int]));
            assert(r@ =~= encode_spec(tags@.take(i as int)) + token_of(tags@[i as int] as int));
        }
        i += 1;
    }
    proof {
        assert(tags@.take(tags@.len() as int) =~= tags@);
    }
    r
}

} // verus!
