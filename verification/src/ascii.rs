//! Byte-level text helpers: ASCII case mapping, whitespace trimming,
//! delimiter splitting, and decimal parsing and formatting.
//!
//! The wire protocol is bytes, so everything here works on `u8`
//! sequences; tokens such as method names never leave ASCII.

use vstd::prelude::*;

verus! {

/// ASCII whitespace as trimmed from tokens: space, tab, CR, LF.
pub open spec fn is_ws(b: u8) -> bool {
    b == 32 || b == 9 || b == 13 || b == 10
}

/// ASCII uppercase mapping of one byte.
pub open spec fn upper_byte(b: u8) -> u8 {
    if 97 <= b <= 122 {
        (b - 32) as u8
    } else {
        b
    }
}

/// ASCII lowercase mapping of one byte.
pub open spec fn lower_byte(b: u8) -> u8 {
    if 65 <= b <= 90 {
        (b + 32) as u8
    } else {
        b
    }
}

/// ASCII uppercase mapping of a byte sequence.
pub open spec fn upper(s: Seq<u8>) -> Seq<u8> {
    s.map_values(|b: u8| upper_byte(b))
}

/// ASCII lowercase mapping of a byte sequence.
pub open spec fn lower(s: Seq<u8>) -> Seq<u8> {
    s.map_values(|b: u8| lower_byte(b))
}

/// The sequence without its leading whitespace.
pub open spec fn trim_start(s: Seq<u8>) -> Seq<u8>
    decreases s.len(),
{
    if s.len() > 0 && is_ws(s[0]) {
        trim_start(s.skip(1))
    } else {
        s
    }
}

/// The sequence without its trailing whitespace.
pub open spec fn trim_end(s: Seq<u8>) -> Seq<u8>
    decreases s.len(),
{
    if s.len() > 0 && is_ws(s.last()) {
        trim_end(s.drop_last())
    } else {
        s
    }
}

/// The sequence without leading and trailing whitespace.
pub open spec fn trim(s: Seq<u8>) -> Seq<u8> {
    trim_end(trim_start(s))
}

/// Split at every occurrence of `d`, keeping empty pieces; the result
/// always has at least one piece.
pub open spec fn split_all(s: Seq<u8>, d: u8) -> Seq<Seq<u8>>
    decreases s.len(),
{
    if s.len() == 0 {
        seq![Seq::<u8>::empty()]
    } else {
        let rest = split_all(s.skip(1), d);
        if s[0] == d {
            seq![Seq::<u8>::empty()] + rest
        } else {
            seq![seq![s[0]] + rest[0]] + rest.skip(1)
        }
    }
}

/// The non-empty pieces of a piece list, in order.
pub open spec fn drop_empties(ts: Seq<Seq<u8>>) -> Seq<Seq<u8>>
    decreases ts.len(),
{
    if ts.len() == 0 {
        Seq::empty()
    } else {
        let rest = drop_empties(ts.drop_last());
        if ts.last().len() > 0 {
            rest.push(ts.last())
        } else {
            rest
        }
    }
}

/// The pieces of `s` between occurrences of `d`, empty pieces dropped.
pub open spec fn tokens(s: Seq<u8>, d: u8) -> Seq<Seq<u8>> {
    drop_empties(split_all(s, d))
}

/// `true` exactly when the two byte strings are equal.
pub fn bytes_eq(a: &[u8], b: &[u8]) -> (r: bool)
    ensures
        r <==> a@ == b@,
{
    if a.len() != b.len() {
        return false;
    }
    let mut i: usize = 0;
    while i < a.len()
        invariant
            0 <= i <= a.len(),
            a.len() == b.len(),
            forall|k: int| 0 <= k < i ==> a@[k] == b@[k],
        decreases a.len() - i,
    {
        if a[i] != b[i] {
            return false;
        }
        i = i + 1;
    }
    proof {
        assert(a@ =~= b@);
    }
    true
}

/// Copy of the input with every byte mapped to ASCII uppercase.
pub fn to_upper(v: &[u8]) -> (r: Vec<u8>)
    ensures
        r@ == upper(v@),
{
    let mut r: Vec<u8> = Vec::new();
    let mut i: usize = 0;
    while i < v.len()
        invariant
            0 <= i <= v.len(),
            r@.len() == i,
            forall|k: int| 0 <= k < i ==> r@[k] == upper_byte(v@[k]),
        decreases v.len() - i,
    {
        let b = v[i];
        if 97 <= b && b <= 122 {
            r.push(b - 32);
        } else {
            r.push(b);
        }
        i = i + 1;
    }
    proof {
        assert(r@ =~= upper(v@));
    }
    r
}

/// Copy of the input with every byte mapped to ASCII lowercase.
pub fn to_lower(v: &[u8]) -> (r: Vec<u8>)
    ensures
        r@ == lower(v@),
{
    let mut r: Vec<u8> = Vec::new();
    let mut i: usize = 0;
    while i < v.len()
        invariant
            0 <= i <= v.len(),
            r@.len() == i,
            forall|k: int| 0 <= k < i ==> r@[k] == lower_byte(v@[k]),
        decreases v.len() - i,
    {
        let b = v[i];
        if 65 <= b && b <= 90 {
            r.push(b + 32);
        } else {
            r.push(b);
        }
        i = i + 1;
    }
    proof {
        assert(r@ =~= lower(v@));
    }
    r
}

/// Dropping `i` leading whitespace bytes is exactly `trim_start` when
/// the byte after them, if any, is not whitespace.
proof fn lemma_trim_start_skip(s: Seq<u8>, i: int)
    requires
        0 <= i <= s.len(),
        forall|k: int| 0 <= k < i ==> is_ws(#[trigger] s[k]),
        i < s.len() ==> !is_ws(s[i]),
    ensures
        trim_start(s) == s.skip(i),
    decreases i,
{
    if i == 0 {
        assert(s.skip(0) =~= s);
    } else {
        lemma_trim_start_skip(s.skip(1), i - 1);
        assert(s.skip(1).skip(i - 1) =~= s.skip(i));
    }
}

/// Keeping the first `j` bytes is exactly `trim_end` when the bytes
/// after them are whitespace and the last kept byte, if any, is not.
proof fn lemma_trim_end_take(s: Seq<u8>, j: int)
    requires
        0 <= j <= s.len(),
        forall|k: int| j <= k < s.len() ==> is_ws(#[trigger] s[k]),
        j > 0 ==> !is_ws(s[j - 1]),
    ensures
        trim_end(s) == s.take(j),
    decreases s.len(),
{
    if j == s.len() {
        assert(s.take(j) =~= s);
    } else {
        lemma_trim_end_take(s.drop_last(), j);
        assert(s.drop_last().take(j) =~= s.take(j));
    }
}

/// Runtime test for the whitespace class trimmed from tokens.
pub fn ws_byte(b: u8) -> (r: bool)
    ensures
        r == is_ws(b),
{
    b == 32 || b == 9 || b == 13 || b == 10
}

/// Copy of the input without leading and trailing whitespace.
pub fn trim_bytes(v: &[u8]) -> (r: Vec<u8>)
    ensures
        r@ == trim(v@),
{
    let mut i: usize = 0;
    while i < v.len() && ws_byte(v[i])
        invariant
            0 <= i <= v.len(),
            forall|k: int| 0 <= k < i ==> is_ws(#[trigger] v@[k]),
        decreases v.len() - i,
    {
        i = i + 1;
    }
    let mut j: usize = v.len();
    while j > i && ws_byte(v[j - 1])
        invariant
            i <= j <= v.len(),
            forall|k: int| j <= k < v.len() ==> is_ws(#[trigger] v@[k]),
        decreases j,
    {
        j = j - 1;
    }
    let mut r: Vec<u8> = Vec::new();
    let mut k: usize = i;
    while k < j
        invariant
            i <= k <= j <= v.len(),
            r@.len() == k - i,
            forall|t: int| 0 <= t < k - i ==> r@[t] == v@[i + t],
        decreases j - k,
    {
        r.push(v[k]);
        k = k + 1;
    }
    proof {
        lemma_trim_start_skip(v@, i as int);
        if i == v.len() {
            assert(j == i);
            assert(trim_end(v@.skip(i as int)) =~= r@);
        } else {
            lemma_trim_end_take(v@.skip(i as int), j - i);
            assert(v@.skip(i as int).take(j - i) =~= r@);
        }
    }
    r
}

/// The index of the first occurrence of `b` in `s`, or `s.len()` when
/// `b` does not occur.
pub open spec fn first_index(s: Seq<u8>, b: u8) -> int
    decreases s.len(),
{
    if s.len() == 0 {
        0
    } else if s[0] == b {
        0
    } else {
        1 + first_index(s.skip(1), b)
    }
}

/// What `first_index` points at: the first occurrence, or the length.
pub proof fn lemma_first_index(s: Seq<u8>, b: u8)
    ensures
        0 <= first_index(s, b) <= s.len(),
        first_index(s, b) < s.len() ==> s[first_index(s, b)] == b,
        forall|k: int| 0 <= k < first_index(s, b) ==> s[k] != b,
    decreases s.len(),
{
    if s.len() > 0 && s[0] != b {
        lemma_first_index(s.skip(1), b);
        assert forall|k: int| 0 <= k < first_index(s, b) implies s[k] != b by {
            if k > 0 {
                assert(s.skip(1)[k - 1] != b);
            }
        }
    }
}

/// The index of the first occurrence of `b`, if any.
pub fn find_first(v: &[u8], b: u8) -> (r: Option<usize>)
    ensures
        r matches Some(i) ==> i as int == first_index(v@, b) && i < v@.len() && v@[i as int] == b,
        r is None ==> first_index(v@, b) == v@.len(),
{
    let mut i: usize = 0;
    while i < v.len()
        invariant
            0 <= i <= v.len(),
            forall|k: int| 0 <= k < i ==> v@[k] != b,
        decreases v.len() - i,
    {
        if v[i] == b {
            proof {
                lemma_first_index(v@, b);
                assert(first_index(v@, b) <= i as int);
                if first_index(v@, b) < i as int {
                    assert(v@[first_index(v@, b)] != b);
                }
            }
            return Some(i);
        }
        i = i + 1;
    }
    proof {
        lemma_first_index(v@, b);
        if first_index(v@, b) < v@.len() {
            assert(v@[first_index(v@, b)] != b);
        }
    }
    None
}

/// ASCII decimal digit.
pub open spec fn is_digit(b: u8) -> bool {
    48 <= b <= 57
}

/// Every byte of the sequence is a decimal digit.
pub open spec fn all_digits(s: Seq<u8>) -> bool {
    forall|k: int| 0 <= k < s.len() ==> is_digit(#[trigger] s[k])
}

/// The non-negative integer a digit string denotes, most significant
/// digit first.
pub open spec fn dec_value(s: Seq<u8>) -> nat
    decreases s.len(),
{
    if s.len() == 0 {
        0
    } else {
        (dec_value(s.drop_last()) * 10 + (s.last() - 48)) as nat
    }
}

/// Reading more digits never makes the denoted value smaller.
proof fn lemma_dec_value_prefix(s: Seq<u8>, i: int)
    requires
        0 <= i <= s.len(),
        all_digits(s),
    ensures
        dec_value(s.take(i)) <= dec_value(s),
    decreases s.len() - i,
{
    if i == s.len() {
        assert(s.take(i) =~= s);
    } else {
        lemma_dec_value_prefix(s, i + 1);
        assert(s.take(i + 1).drop_last() =~= s.take(i));
        assert(s.take(i + 1).last() == s[i]);
        assert(is_digit(s[i]));
        assert(dec_value(s.take(i)) <= dec_value(s.take(i)) * 10 + (s[i] - 48));
    }
}

/// Parses a digit string as a non-negative integer; anything empty,
/// non-numeric or too large for `usize` is rejected.
pub fn parse_dec(v: &[u8]) -> (r: Option<usize>)
    ensures
        r is Some <==> (v@.len() > 0 && all_digits(v@) && dec_value(v@) <= usize::MAX),
        r matches Some(n) ==> n == dec_value(v@),
{
    if v.len() == 0 {
        return None;
    }
    let mut acc: u128 = 0;
    let mut i: usize = 0;
    while i < v.len()
        invariant
            0 <= i <= v.len(),
            all_digits(v@.take(i as int)),
            acc == dec_value(v@.take(i as int)),
            acc <= usize::MAX,
        decreases v.len() - i,
    {
        let b = v[i];
        if b < 48 || b > 57 {
            proof {
                assert(!is_digit(v@[i as int]));
            }
            return None;
        }
        acc = acc * 10 + (b - 48) as u128;
        proof {
            assert(v@.take(i as int + 1).drop_last() =~= v@.take(i as int));
            assert(v@.take(i as int + 1).last() == v@[i as int]);
        }
        if acc > usize::MAX as u128 {
            proof {
                if all_digits(v@) {
                    lemma_dec_value_prefix(v@, i as int + 1);
                }
            }
            return None;
        }
        i = i + 1;
    }
    proof {
        assert(v@.take(v@.len() as int) =~= v@);
    }
    Some(acc as usize)
}

/// The decimal digit string of `n`, most significant digit first, with
/// no leading zeroes (`0` itself is one digit).
pub open spec fn dec_digits(n: nat) -> Seq<u8>
    decreases n,
{
    if n < 10 {
        seq![(48 + n) as u8]
    } else {
        dec_digits(n / 10).push((48 + n % 10) as u8)
    }
}

/// Formats `n` in decimal.
pub fn format_dec(n: u128) -> (r: Vec<u8>)
    ensures
        r@ == dec_digits(n as nat),
    decreases n,
{
    if n < 10 {
        let mut v: Vec<u8> = Vec::new();
        v.push(48 + n as u8);
        proof {
            assert(v@ =~= dec_digits(n as nat));
        }
        v
    } else {
        let mut v = format_dec(n / 10);
        v.push(48 + (n % 10) as u8);
        proof {
            assert(v@ =~= dec_digits(n as nat));
        }
        v
    }
}

/// `split_all` always yields at least one piece.
proof fn lemma_split_all_len(s: Seq<u8>, d: u8)
    ensures
        split_all(s, d).len() >= 1,
    decreases s.len(),
{
    if s.len() > 0 {
        lemma_split_all_len(s.skip(1), d);
    }
}

/// Appending one byte either opens a fresh empty piece (on the
/// delimiter) or extends the last piece.
proof fn lemma_split_all_push(s: Seq<u8>, d: u8, b: u8)
    ensures
        ({
            let ts = split_all(s, d);
            split_all(s.push(b), d) == if b == d {
                ts.push(Seq::<u8>::empty())
            } else {
                ts.update(ts.len() - 1, ts.last().push(b))
            }
        }),
    decreases s.len(),
{
    lemma_split_all_len(s, d);
    let ts = split_all(s, d);
    if s.len() == 0 {
        assert(s.push(b).skip(1) =~= Seq::<u8>::empty());
        assert(split_all(Seq::<u8>::empty(), d) == seq![Seq::<u8>::empty()]);
        if b == d {
            assert(split_all(s.push(b), d) =~~= ts.push(Seq::<u8>::empty()));
        } else {
            assert(seq![s.push(b)[0]] + Seq::<u8>::empty() =~= seq![b]);
            assert(split_all(s.push(b), d) =~~= ts.update(0, ts.last().push(b)));
        }
    } else {
        lemma_split_all_push(s.skip(1), d, b);
        lemma_split_all_len(s.skip(1), d);
        let rest = split_all(s.skip(1), d);
        assert(s.push(b).skip(1) =~= s.skip(1).push(b));
        let restp = split_all(s.skip(1).push(b), d);
        if b == d {
            if s[0] == d {
                assert(split_all(s.push(b), d) =~~= ts.push(Seq::<u8>::empty()));
            } else {
                assert(restp[0] == rest[0]);
                assert(restp.skip(1) =~~= rest.skip(1).push(Seq::<u8>::empty()));
                assert(split_all(s.push(b), d) =~~= ts.push(Seq::<u8>::empty()));
            }
        } else {
            if s[0] == d {
                assert(split_all(s.push(b), d) =~~= ts.update(ts.len() - 1, ts.last().push(b)));
            } else {
                if rest.len() == 1 {
                    assert(restp[0] == rest[0].push(b));
                    assert(seq![s.push(b)[0]] + restp[0] =~= (seq![s[0]] + rest[0]).push(b));
                    assert(restp.skip(1) =~~= rest.skip(1));
                    assert(split_all(s.push(b), d) =~~= ts.update(
                        ts.len() - 1,
                        ts.last().push(b),
                    ));
                } else {
                    assert(restp[0] == rest[0]);
                    assert(restp.skip(1) =~~= rest.skip(1).update(
                        rest.len() - 2,
                        rest.last().push(b),
                    ));
                    assert(split_all(s.push(b), d) =~~= ts.update(
                        ts.len() - 1,
                        ts.last().push(b),
                    ));
                }
            }
        }
    }
}

/// The pieces of `v` between occurrences of `d`, empty pieces dropped.
pub fn tokenize(v: &[u8], d: u8) -> (r: Vec<Vec<u8>>)
    ensures
        r.deep_view() == tokens(v@, d),
{
    let mut out: Vec<Vec<u8>> = Vec::new();
    let mut cur: Vec<u8> = Vec::new();
    let ghost mut raw_done: Seq<Seq<u8>> = Seq::empty();
    let mut i: usize = 0;
    while i < v.len()
        invariant
            0 <= i <= v.len(),
            split_all(v@.take(i as int), d) == raw_done.push(cur@),
            out.deep_view() == drop_empties(raw_done),
        decreases v.len() - i,
    {
        let b = v[i];
        proof {
            assert(v@.take(i as int + 1) =~= v@.take(i as int).push(v@[i as int]));
            lemma_split_all_push(v@.take(i as int), d, b);
        }
        if b == d {
            let ghost old_raw = raw_done;
            proof {
                raw_done = raw_done.push(cur@);
                assert(split_all(v@.take(i as int + 1), d) =~~= raw_done.push(
                    Seq::<u8>::empty(),
                ));
                assert(raw_done.drop_last() =~~= old_raw);
            }
            if cur.len() > 0 {
                let ghost old_deep = out.deep_view();
                let ghost cur_view = cur@;
                out.push(cur);
                proof {
                    assert(out.deep_view() =~~= old_deep.push(cur_view));
                    assert(drop_empties(raw_done) == drop_empties(old_raw).push(cur_view));
                }
            } else {
                proof {
                    assert(drop_empties(raw_done) == drop_empties(old_raw));
                }
            }
            cur = Vec::new();
        } else {
            let ghost old_cur = cur@;
            cur.push(b);
            proof {
                let ts = raw_done.push(old_cur);
                assert(ts.update(ts.len() - 1, ts.last().push(b)) =~~= raw_done.push(cur@));
            }
        }
        i = i + 1;
    }
    proof {
        assert(v@.take(v@.len() as int) =~= v@);
        assert(split_all(v@, d).drop_last() =~~= raw_done);
        assert(split_all(v@, d).last() == cur@);
    }
    if cur.len() > 0 {
        let ghost old_deep = out.deep_view();
        let ghost cur_view = cur@;
        out.push(cur);
        proof {
            assert(out.deep_view() =~~= old_deep.push(cur_view));
            assert(drop_empties(split_all(v@, d)) == drop_empties(raw_done).push(cur_view));
        }
    } else {
        proof {
            assert(drop_empties(split_all(v@, d)) == drop_empties(raw_done));
        }
    }
    out
}

/// Appends the bytes of `a` to `out`.
pub fn append_bytes(out: &mut Vec<u8>, a: &[u8])
    ensures
        final(out)@ == old(out)@ + a@,
{
    let mut i: usize = 0;
    while i < a.len()
        invariant
            0 <= i <= a.len(),
            out@ =~= old(out)@ + a@.take(i as int),
        decreases a.len() - i,
    {
        out.push(a[i]);
        proof {
            assert(old(out)@ + a@.take(i as int) + seq![a@[i as int]] =~= old(out)@ + a@.take(
                i as int + 1,
            ));
        }
        i = i + 1;
    }
    proof {
        assert(a@.take(a@.len() as int) =~= a@);
    }
}

} // verus!
