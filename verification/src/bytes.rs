//! Byte-sequence groundwork shared by the whole crate: splitting and joining
//! on a separator, dropping blank lines, byte-vector equality, and the exact
//! meaning of hexadecimal and decimal text.

use vstd::prelude::*;

verus! {

/// The views of a sequence of byte vectors.
pub open spec fn views_of(ts: Seq<Vec<u8>>) -> Seq<Seq<u8>> {
    ts.map_values(|t: Vec<u8>| t@)
}

// ---------------------------------------------------------------------------
// Splitting on a separator byte, as `str::split` does: every separator ends a
// token, empty tokens are kept, and the empty input holds one empty token.
// ---------------------------------------------------------------------------

pub open spec fn spec_split(s: Seq<u8>, sep: u8) -> Seq<Seq<u8>>
    decreases s.len(),
{
    if s.len() == 0 {
        seq![Seq::<u8>::empty()]
    } else if s[0] == sep {
        seq![Seq::<u8>::empty()] + spec_split(s.skip(1), sep)
    } else {
        let rest = spec_split(s.skip(1), sep);
        seq![seq![s[0]] + rest[0]] + rest.skip(1)
    }
}

pub proof fn lemma_split_len(s: Seq<u8>, sep: u8)
    ensures
        spec_split(s, sep).len() >= 1,
    decreases s.len(),
{
    if s.len() != 0 {
        lemma_split_len(s.skip(1), sep);
    }
}

/// No token of a split contains the separator.
pub proof fn lemma_split_tokens_sep_free(s: Seq<u8>, sep: u8)
    ensures
        forall|i: int, j: int|
            0 <= i < spec_split(s, sep).len() && 0 <= j < spec_split(s, sep)[i].len()
                ==> spec_split(s, sep)[i][j] != sep,
    decreases s.len(),
{
    if s.len() == 0 {
    } else if s[0] == sep {
        lemma_split_tokens_sep_free(s.skip(1), sep);
        assert forall|i: int, j: int|
            0 <= i < spec_split(s, sep).len() && 0 <= j < spec_split(s, sep)[i].len()
                implies spec_split(s, sep)[i][j] != sep by {
            if i > 0 {
                assert(spec_split(s, sep)[i] == spec_split(s.skip(1), sep)[i - 1]);
            }
        }
    } else {
        lemma_split_tokens_sep_free(s.skip(1), sep);
        lemma_split_len(s.skip(1), sep);
        assert forall|i: int, j: int|
            0 <= i < spec_split(s, sep).len() && 0 <= j < spec_split(s, sep)[i].len()
                implies spec_split(s, sep)[i][j] != sep by {
            let rest = spec_split(s.skip(1), sep);
            if i == 0 {
                if j > 0 {
                    assert(spec_split(s, sep)[0][j] == rest[0][j - 1]);
                }
            } else {
                assert(spec_split(s, sep)[i] == rest.skip(1)[i - 1]);
                assert(rest.skip(1)[i - 1] == rest[i]);
            }
        }
    }
}

/// Splits a byte vector at every occurrence of `sep`, keeping empty tokens.
pub fn split_bytes(s: &Vec<u8>, sep: u8) -> (out: Vec<Vec<u8>>)
    ensures
        views_of(out@) == spec_split(s@, sep),
{
    let mut out: Vec<Vec<u8>> = Vec::new();
    let mut cur: Vec<u8> = Vec::new();
    let mut i: usize = 0;
    proof {
        lemma_split_len(s@, sep);
        assert(s@.skip(0) =~= s@);
        assert(views_of(out@) =~= Seq::<Seq<u8>>::empty());
        assert(cur@ + spec_split(s@, sep)[0] =~= spec_split(s@, sep)[0]);
        assert(spec_split(s@, sep) =~~= views_of(out@) + seq![
            cur@ + spec_split(s@.skip(0), sep)[0]
        ] + spec_split(s@.skip(0), sep).skip(1));
    }
    while i < s.len()
        invariant
            0 <= i <= s@.len(),
            spec_split(s@.skip(i as int), sep).len() >= 1,
            spec_split(s@, sep) == views_of(out@) + seq![
                cur@ + spec_split(s@.skip(i as int), sep)[0]
            ] + spec_split(s@.skip(i as int), sep).skip(1),
        decreases s@.len() - i,
    {
        let ghost rest0 = spec_split(s@.skip(i as int), sep);
        proof {
            assert(s@.skip(i as int).len() > 0);
            assert(s@.skip(i as int)[0] == s@[i as int]);
            assert(s@.skip(i as int).skip(1) == s@.skip(i as int + 1));
            lemma_split_len(s@.skip(i as int + 1), sep);
        }
        let ghost rest1 = spec_split(s@.skip(i as int + 1), sep);
        if s[i] == sep {
            proof {
                assert(rest0 == seq![Seq::<u8>::empty()] + rest1);
                assert(rest0[0] == Seq::<u8>::empty());
                assert(cur@ + rest0[0] =~= cur@);
            }
            let ghost old_out = out@;
            let ghost old_cur = cur@;
            out.push(cur);
            cur = Vec::new();
            proof {
                assert(views_of(out@) =~= views_of(old_out) + seq![old_cur]);
                assert(cur@ + rest1[0] =~= rest1[0]);
                assert(rest0.skip(1) =~= rest1);
                assert(spec_split(s@, sep) =~~= views_of(out@) + seq![cur@ + rest1[0]]
                    + rest1.skip(1)) by {
                    assert(spec_split(s@, sep)
                        == views_of(old_out) + seq![old_cur + rest0[0]] + rest0.skip(1));
                    assert(rest1 =~= seq![rest1[0]] + rest1.skip(1));
                }
            }
        } else {
            let ghost old_cur = cur@;
            cur.push(s[i]);
            proof {
                assert(rest0 == seq![seq![s@[i as int]] + rest1[0]] + rest1.skip(1));
                assert(rest0[0] == seq![s@[i as int]] + rest1[0]);
                assert(cur@ == old_cur.push(s@[i as int]));
                assert(old_cur + rest0[0] =~= cur@ + rest1[0]);
                assert(rest0.skip(1) =~= rest1.skip(1));
                assert(spec_split(s@, sep) =~~= views_of(out@) + seq![cur@ + rest1[0]]
                    + rest1.skip(1));
            }
        }
        i = i + 1;
    }
    proof {
        assert(s@.skip(i as int) =~= Seq::<u8>::empty());
        assert(spec_split(s@.skip(i as int), sep) == seq![Seq::<u8>::empty()]);
        assert(cur@ + spec_split(s@.skip(i as int), sep)[0] == cur@);
        assert(spec_split(s@.skip(i as int), sep).skip(1) =~= Seq::<Seq<u8>>::empty());
    }
    let ghost old_out = out@;
    let ghost old_cur = cur@;
    out.push(cur);
    proof {
        assert(views_of(out@) =~= views_of(old_out) + seq![old_cur]);
        assert(spec_split(s@, sep) =~~= views_of(out@));
    }
    out
}

// ---------------------------------------------------------------------------
// Joining tokens with a separator, the inverse of splitting when no token
// holds the separator.
// ---------------------------------------------------------------------------

pub open spec fn spec_join(ts: Seq<Seq<u8>>, sep: u8) -> Seq<u8>
    decreases ts.len(),
{
    if ts.len() == 0 {
        Seq::empty()
    } else if ts.len() == 1 {
        ts[0]
    } else {
        ts[0] + seq![sep] + spec_join(ts.skip(1), sep)
    }
}

/// Splitting a join of separator-free tokens gives the tokens back.
pub proof fn lemma_split_of_join(ts: Seq<Seq<u8>>, sep: u8)
    requires
        ts.len() >= 1,
        forall|i: int, j: int| 0 <= i < ts.len() && 0 <= j < ts[i].len() ==> ts[i][j] != sep,
    ensures
        spec_split(spec_join(ts, sep), sep) == ts,
    decreases ts.len(), ts[0].len(),
{
    if ts.len() == 1 {
        lemma_split_sep_free_single(ts[0], sep);
        assert(spec_split(spec_join(ts, sep), sep) =~~= ts);
    } else if ts[0].len() == 0 {
        let s = spec_join(ts, sep);
        assert(s == ts[0] + seq![sep] + spec_join(ts.skip(1), sep));
        assert(s.len() > 0 && s[0] == sep);
        assert(s.skip(1) =~= spec_join(ts.skip(1), sep));
        lemma_split_of_join(ts.skip(1), sep);
        assert(ts[0] =~= Seq::<u8>::empty());
        assert(spec_split(s, sep) == seq![Seq::<u8>::empty()] + spec_split(s.skip(1), sep));
        assert(spec_split(s, sep) =~~= ts);
    } else {
        let s = spec_join(ts, sep);
        assert(s == ts[0] + seq![sep] + spec_join(ts.skip(1), sep));
        assert(s.len() > 0);
        assert(s[0] == ts[0][0]);
        assert(s[0] != sep);
        let ts2 = ts.update(0, ts[0].skip(1));
        assert(ts2[0] == ts[0].skip(1));
        assert forall|i: int, j: int|
            0 <= i < ts2.len() && 0 <= j < ts2[i].len() implies ts2[i][j] != sep by {
            if i == 0 {
                assert(ts2[0][j] == ts[0][j + 1]);
            } else {
                assert(ts2[i] == ts[i]);
            }
        }
        assert(ts2.skip(1) =~= ts.skip(1));
        assert(s.skip(1) =~= spec_join(ts2, sep)) by {
            if ts2.len() == 1 {
                assert(spec_join(ts2, sep) == ts2[0]);
                assert(s.skip(1) =~= ts[0].skip(1));
            } else {
                assert(spec_join(ts2, sep) == ts2[0] + seq![sep] + spec_join(ts2.skip(1), sep));
                assert(spec_join(ts2.skip(1), sep) == spec_join(ts.skip(1), sep));
                assert(s.skip(1) =~= ts[0].skip(1) + seq![sep] + spec_join(ts.skip(1), sep));
            }
        }
        lemma_split_of_join(ts2, sep);
        let rest = spec_split(s.skip(1), sep);
        assert(rest == ts2);
        assert(spec_split(s, sep) == seq![seq![s[0]] + rest[0]] + rest.skip(1));
        assert(seq![s[0]] + rest[0] =~= ts[0]);
        assert(rest.skip(1) =~= ts.skip(1));
        assert(spec_split(s, sep) =~~= ts);
    }
}

proof fn lemma_split_sep_free_single(t: Seq<u8>, sep: u8)
    requires
        forall|j: int| 0 <= j < t.len() ==> t[j] != sep,
    ensures
        spec_split(t, sep) == seq![t],
    decreases t.len(),
{
    if t.len() == 0 {
        assert(spec_split(t, sep) =~~= seq![t]);
    } else {
        assert(forall|j: int| 0 <= j < t.skip(1).len() ==> t.skip(1)[j] != sep);
        lemma_split_sep_free_single(t.skip(1), sep);
        let rest = spec_split(t.skip(1), sep);
        assert(rest == seq![t.skip(1)]);
        assert(rest[0] == t.skip(1));
        assert(rest.skip(1) =~= Seq::<Seq<u8>>::empty());
        assert(seq![t[0]] + rest[0] =~= t);
        assert(spec_split(t, sep) == seq![seq![t[0]] + rest[0]] + rest.skip(1));
        assert(spec_split(t, sep) =~~= seq![t]);
    }
}

// ---------------------------------------------------------------------------
// Dropping blank lines.
// ---------------------------------------------------------------------------

pub open spec fn drop_blank(ls: Seq<Seq<u8>>) -> Seq<Seq<u8>>
    decreases ls.len(),
{
    if ls.len() == 0 {
        Seq::empty()
    } else if ls[0].len() == 0 {
        drop_blank(ls.skip(1))
    } else {
        seq![ls[0]] + drop_blank(ls.skip(1))
    }
}

/// Keeps the non-empty lines, in order.
pub fn drop_blank_lines(ls: Vec<Vec<u8>>) -> (out: Vec<Vec<u8>>)
    ensures
        views_of(out@) == drop_blank(views_of(ls@)),
{
    let mut out: Vec<Vec<u8>> = Vec::new();
    let ghost all = views_of(ls@);
    let mut i: usize = 0;
    let n = ls.len();
    let mut rest = ls;
    // Consume from the front to move tokens rather than clone them.
    proof {
        assert(views_of(rest@).skip(0) =~= views_of(rest@));
    }
    while i < n
        invariant
            0 <= i <= all.len(),
            n == all.len(),
            views_of(rest@) =~= all,
            drop_blank(all) == views_of(out@) + drop_blank(all.skip(i as int)),
        decreases n - i,
    {
        proof {
            assert(all.skip(i as int).len() > 0);
            assert(all.skip(i as int)[0] == all[i as int]);
            assert(all.skip(i as int).skip(1) =~= all.skip(i as int + 1));
        }
        if rest[i].len() > 0 {
            let ghost old_out = out@;
            let line_copy = copy_bytes(&rest[i]);
            out.push(line_copy);
            proof {
                assert(views_of(out@) =~= views_of(old_out) + seq![all[i as int]]);
                assert(drop_blank(all.skip(i as int))
                    == seq![all[i as int]] + drop_blank(all.skip(i as int + 1)));
                assert(views_of(old_out) + drop_blank(all.skip(i as int))
                    =~= views_of(out@) + drop_blank(all.skip(i as int + 1)));
            }
        } else {
            proof {
                assert(drop_blank(all.skip(i as int)) == drop_blank(all.skip(i as int + 1)));
            }
        }
        i = i + 1;
    }
    proof {
        assert(all.skip(i as int) =~= Seq::<Seq<u8>>::empty());
        assert(drop_blank(all.skip(i as int)) =~= Seq::<Seq<u8>>::empty());
        assert(drop_blank(all) =~= views_of(out@));
    }
    out
}

// ---------------------------------------------------------------------------
// Byte-vector equality and copying.
// ---------------------------------------------------------------------------

/// Compares two byte vectors for equality of contents.
pub fn bytes_eq(a: &Vec<u8>, b: &Vec<u8>) -> (r: bool)
    ensures
        r == (a@ == b@),
{
    if a.len() != b.len() {
        return false;
    }
    let mut i: usize = 0;
    while i < a.len()
        invariant
            0 <= i <= a@.len(),
            a@.len() == b@.len(),
            forall|j: int| 0 <= j < i ==> a@[j] == b@[j],
        decreases a@.len() - i,
    {
        if a[i] != b[i] {
            return false;
        }
        i = i + 1;
    }
    proof {
        assert(a@ =~= b@);
    }
    true
}

/// Copies a byte vector.
pub fn copy_bytes(v: &Vec<u8>) -> (out: Vec<u8>)
    ensures
        out@ == v@,
{
    let mut out: Vec<u8> = Vec::new();
    let mut i: usize = 0;
    while i < v.len()
        invariant
            0 <= i <= v@.len(),
            out@ =~= v@.take(i as int),
        decreases v@.len() - i,
    {
        out.push(v[i]);
        proof {
            assert(v@.take(i as int + 1) =~= v@.take(i as int).push(v@[i as int]));
        }
        i = i + 1;
    }
    proof {
        assert(v@.take(v@.len() as int) =~= v@);
    }
    out
}

// ---------------------------------------------------------------------------
// Hexadecimal text.
// ---------------------------------------------------------------------------

pub open spec fn is_hex_digit(c: u8) -> bool {
    (48 <= c && c <= 57) || (65 <= c && c <= 70) || (97 <= c && c <= 102)
}

/// The numeric value of a hexadecimal digit, either case.
pub open spec fn hex_val(c: u8) -> int {
    if 48 <= c && c <= 57 {
        c - 48
    } else if 65 <= c && c <= 70 {
        c - 55
    } else {
        c - 87
    }
}

/// The lower-case hexadecimal digit of a value below 16.
pub open spec fn hex_digit_lower(v: int) -> u8 {
    if v < 10 {
        (48 + v) as u8
    } else {
        (87 + v) as u8
    }
}

pub open spec fn all_hex(s: Seq<u8>) -> bool {
    forall|i: int| 0 <= i < s.len() ==> is_hex_digit(s[i])
}

/// Two lower-case hexadecimal digits for each byte, in order.
pub open spec fn hex_of_bytes(b: Seq<u8>) -> Seq<u8>
    decreases b.len(),
{
    if b.len() == 0 {
        Seq::empty()
    } else {
        hex_of_bytes(b.drop_last()) + seq![
            hex_digit_lower(b.last() as int / 16),
            hex_digit_lower(b.last() as int % 16),
        ]
    }
}

pub proof fn lemma_hex_of_bytes_props(b: Seq<u8>)
    ensures
        hex_of_bytes(b).len() == 2 * b.len(),
        forall|i: int| 0 <= i < b.len() ==> hex_of_bytes(b)[2 * i]
            == hex_digit_lower(b[i] as int / 16),
        forall|i: int| 0 <= i < b.len() ==> hex_of_bytes(b)[2 * i + 1]
            == hex_digit_lower(b[i] as int % 16),
    decreases b.len(),
{
    if b.len() > 0 {
        lemma_hex_of_bytes_props(b.drop_last());
        assert forall|i: int| 0 <= i < b.len() implies hex_of_bytes(b)[2 * i]
            == hex_digit_lower(b[i] as int / 16) && hex_of_bytes(b)[2 * i + 1]
            == hex_digit_lower(b[i] as int % 16) by {
            if i < b.len() - 1 {
                assert(b.drop_last()[i] == b[i]);
                assert(hex_of_bytes(b)[2 * i] == hex_of_bytes(b.drop_last())[2 * i]);
                assert(hex_of_bytes(b)[2 * i + 1] == hex_of_bytes(b.drop_last())[2 * i + 1]);
            }
        }
    }
}

pub proof fn lemma_hex_digit_lower_val(v: int)
    requires
        0 <= v < 16,
    ensures
        is_hex_digit(hex_digit_lower(v)),
        hex_val(hex_digit_lower(v)) == v,
        hex_digit_lower(v) != 32,
        hex_digit_lower(v) != 10,
        hex_digit_lower(v) != 45,
{
}

/// All digits of a rendering are hexadecimal, and none is a separator.
pub proof fn lemma_hex_of_bytes_digits(b: Seq<u8>)
    ensures
        all_hex(hex_of_bytes(b)),
        forall|j: int| 0 <= j < hex_of_bytes(b).len() ==> hex_of_bytes(b)[j] != 32
            && hex_of_bytes(b)[j] != 10 && hex_of_bytes(b)[j] != 45,
    decreases b.len(),
{
    if b.len() > 0 {
        lemma_hex_of_bytes_digits(b.drop_last());
        lemma_hex_digit_lower_val(b.last() as int / 16);
        lemma_hex_digit_lower_val(b.last() as int % 16);
    }
}

/// Hexadecimal rendering distributes over concatenation.
pub proof fn lemma_hex_of_bytes_concat(x: Seq<u8>, y: Seq<u8>)
    ensures
        hex_of_bytes(x + y) == hex_of_bytes(x) + hex_of_bytes(y),
    decreases y.len(),
{
    if y.len() == 0 {
        assert(x + y =~= x);
        assert(hex_of_bytes(y) =~= Seq::<u8>::empty());
        assert(hex_of_bytes(x) + hex_of_bytes(y) =~= hex_of_bytes(x));
    } else {
        lemma_hex_of_bytes_concat(x, y.drop_last());
        assert((x + y).drop_last() =~= x + y.drop_last());
        assert((x + y).last() == y.last());
        let tail = seq![
            hex_digit_lower(y.last() as int / 16),
            hex_digit_lower(y.last() as int % 16),
        ];
        assert(hex_of_bytes(x + y) == hex_of_bytes(x + y.drop_last()) + tail);
        assert(hex_of_bytes(y) == hex_of_bytes(y.drop_last()) + tail);
        assert((hex_of_bytes(x) + hex_of_bytes(y.drop_last())) + tail
            =~= hex_of_bytes(x) + (hex_of_bytes(y.drop_last()) + tail));
    }
}

/// Copies the bytes of `v` between two positions.
pub fn copy_range(v: &Vec<u8>, from: usize, to: usize) -> (out: Vec<u8>)
    requires
        from <= to <= v@.len(),
    ensures
        out@ == v@.subrange(from as int, to as int),
{
    let mut out: Vec<u8> = Vec::new();
    let mut i: usize = from;
    while i < to
        invariant
            from <= i <= to <= v@.len(),
            out@ =~= v@.subrange(from as int, i as int),
        decreases to - i,
    {
        out.push(v[i]);
        proof {
            assert(v@.subrange(from as int, i as int + 1)
                =~= v@.subrange(from as int, i as int).push(v@[i as int]));
        }
        i = i + 1;
    }
    out
}

/// Renders bytes as lower-case hexadecimal, appending to `out`.
pub fn push_hex_of_bytes(out: &mut Vec<u8>, b: &Vec<u8>)
    ensures
        final(out)@ == old(out)@ + hex_of_bytes(b@),
{
    let mut i: usize = 0;
    while i < b.len()
        invariant
            0 <= i <= b@.len(),
            out@ == old(out)@ + hex_of_bytes(b@.take(i as int)),
        decreases b@.len() - i,
    {
        let byte = b[i];
        let hi = byte / 16;
        let lo = byte % 16;
        let hi_d: u8 = if hi < 10 { 48 + hi } else { 87 + hi };
        let lo_d: u8 = if lo < 10 { 48 + lo } else { 87 + lo };
        out.push(hi_d);
        out.push(lo_d);
        proof {
            let t = b@.take(i as int + 1);
            assert(t.drop_last() =~= b@.take(i as int));
            assert(t.last() == b@[i as int]);
            assert(hi_d == hex_digit_lower(b@[i as int] as int / 16));
            assert(lo_d == hex_digit_lower(b@[i as int] as int % 16));
            assert(out@ =~= old(out)@ + hex_of_bytes(t));
        }
        i = i + 1;
    }
    proof {
        assert(b@.take(b@.len() as int) =~= b@);
    }
}

// ---------------------------------------------------------------------------
// Decimal text, as `usize::from_str` reads it: an optional leading plus
// sign, then at least one digit, and the value must fit the type.
// ---------------------------------------------------------------------------

pub open spec fn is_dec_digit(c: u8) -> bool {
    48 <= c && c <= 57
}

pub open spec fn dec_digits_value(s: Seq<u8>) -> int
    decreases s.len(),
{
    if s.len() == 0 {
        0
    } else {
        dec_digits_value(s.drop_last()) * 10 + (s.last() - 48)
    }
}

/// The digit part of decimal text: the text itself, or what follows a plus.
pub open spec fn dec_digit_part(s: Seq<u8>) -> Seq<u8> {
    if s.len() > 0 && s[0] == 43 {
        s.skip(1)
    } else {
        s
    }
}

pub open spec fn dec_text_wf(s: Seq<u8>) -> bool {
    &&& dec_digit_part(s).len() > 0
    &&& forall|i: int| 0 <= i < dec_digit_part(s).len() ==> is_dec_digit(dec_digit_part(s)[i])
}

/// What parsing decimal text as a `usize` yields: the value when the text is
/// well-formed and fits, nothing otherwise.
pub open spec fn dec_value_opt(s: Seq<u8>) -> Option<usize> {
    if dec_text_wf(s) && dec_digits_value(dec_digit_part(s)) <= usize::MAX {
        Some(dec_digits_value(dec_digit_part(s)) as usize)
    } else {
        None
    }
}

/// A longer digit string never has a smaller value.
proof fn lemma_dec_value_monotone(s: Seq<u8>, i: int)
    requires
        0 <= i <= s.len(),
        forall|j: int| 0 <= j < s.len() ==> is_dec_digit(s[j]),
    ensures
        dec_digits_value(s) >= dec_digits_value(s.take(i)),
        dec_digits_value(s.take(i)) >= 0,
    decreases s.len() - i,
{
    if i < s.len() {
        lemma_dec_value_nonneg(s.take(i));
        lemma_dec_value_monotone(s, i + 1);
        assert(s.take(i + 1).drop_last() =~= s.take(i));
        assert(s.take(i + 1).last() == s[i]);
        assert(dec_digits_value(s.take(i + 1)) == dec_digits_value(s.take(i)) * 10 + (s[i] - 48));
        lemma_dec_value_nonneg(s.take(i));
    } else {
        assert(s.take(i) =~= s);
        lemma_dec_value_nonneg(s);
    }
}

proof fn lemma_dec_value_nonneg(s: Seq<u8>)
    requires
        forall|j: int| 0 <= j < s.len() ==> is_dec_digit(s[j]),
    ensures
        dec_digits_value(s) >= 0,
    decreases s.len(),
{
    if s.len() > 0 {
        assert(forall|j: int| 0 <= j < s.drop_last().len() ==> is_dec_digit(s.drop_last()[j]));
        lemma_dec_value_nonneg(s.drop_last());
    }
}

/// Parses decimal text as the standard library would parse a `usize`.
pub fn parse_dec(s: &Vec<u8>) -> (r: Option<usize>)
    ensures
        r == dec_value_opt(s@),
{
    let start: usize = if s.len() > 0 && s[0] == 43 {
        1
    } else {
        0
    };
    let ghost d = dec_digit_part(s@);
    proof {
        assert(d =~= s@.skip(start as int));
    }
    if s.len() == start {
        return None;
    }
    let mut acc: usize = 0;
    let mut i: usize = start;
    while i < s.len()
        invariant
            start <= i <= s@.len(),
            s@.len() > start,
            d == s@.skip(start as int),
            d == dec_digit_part(s@),
            forall|j: int| start <= j < i ==> is_dec_digit(s@[j]),
            acc as int == dec_digits_value(d.take(i - start as int)),
        decreases s@.len() - i,
    {
        let c = s[i];
        if !(48 <= c && c <= 57) {
            proof {
                assert(d[i - start as int] == s@[i as int]);
                assert(0 <= i - (start as int));
                assert(i - (start as int) < dec_digit_part(s@).len());
                assert(!is_dec_digit(dec_digit_part(s@)[i - start as int]));
                assert(!dec_text_wf(s@));
            }
            return None;
        }
        let digit = (c - 48) as usize;
        proof {
            assert(d.take(i - start as int + 1).drop_last() =~= d.take(i - start as int));
            assert(d.take(i - start as int + 1).last() == s@[i as int]);
        }
        if acc > (usize::MAX - digit) / 10 {
            // The value of the whole digit string can only grow further.
            proof {
                let k = i - start as int + 1;
                assert(acc as int * 10 + digit > usize::MAX) by {
                    assert(acc as int >= (usize::MAX - digit) / 10 + 1);
                    assert(((usize::MAX - digit) / 10 + 1) * 10
                        >= (usize::MAX as int - digit) + 1) by (nonlinear_arith);
                    assert(acc as int * 10 >= ((usize::MAX - digit) / 10 + 1) * 10)
                        by (nonlinear_arith)
                    requires
                        acc as int >= (usize::MAX - digit) / 10 + 1,
                    ;
                }
                assert(dec_digits_value(d.take(k)) > usize::MAX);
                if dec_text_wf(s@) {
                    assert(forall|j: int| 0 <= j < d.len()
                        ==> is_dec_digit(dec_digit_part(s@)[j]));
                    assert(forall|j: int| 0 <= j < d.len() ==> is_dec_digit(d[j]));
                    lemma_dec_value_monotone(d, k);
                    assert(dec_digits_value(d) > usize::MAX);
                }
            }
            return None;
        }
        proof {
            assert(acc as int * 10 + digit <= usize::MAX) by {
                assert(acc as int <= (usize::MAX - digit) / 10);
                assert(((usize::MAX as int - digit) / 10) * 10 <= usize::MAX as int - digit)
                    by (nonlinear_arith);
                assert(acc as int * 10 <= ((usize::MAX as int - digit) / 10) * 10)
                    by (nonlinear_arith)
                requires
                    acc as int <= (usize::MAX - digit) / 10,
                ;
            }
        }
        acc = acc * 10 + digit;
        i = i + 1;
    }
    proof {
        assert(d.take(i - start as int) =~= d);
        assert forall|j: int| 0 <= j < dec_digit_part(s@).len()
            implies is_dec_digit(dec_digit_part(s@)[j]) by {
            assert(dec_digit_part(s@)[j] == s@[j + start]);
        }
        assert(dec_text_wf(s@));
    }
    Some(acc)
}

/// The decimal rendering of a non-negative value, without sign or padding.
pub open spec fn dec_render(v: int) -> Seq<u8>
    decreases v,
{
    if v <= 0 {
        seq![48u8]
    } else if v < 10 {
        seq![(48 + v) as u8]
    } else {
        dec_render(v / 10) + seq![(48 + v % 10) as u8]
    }
}

pub proof fn lemma_dec_render_props(v: int)
    requires
        v >= 0,
    ensures
        dec_render(v).len() >= 1,
        forall|j: int| 0 <= j < dec_render(v).len() ==> is_dec_digit(dec_render(v)[j]),
        dec_digits_value(dec_render(v)) == v,
    decreases v,
{
    if v >= 10 {
        lemma_dec_render_props(v / 10);
        assert(dec_render(v).drop_last() =~= dec_render(v / 10));
        assert(dec_render(v).last() == (48 + v % 10) as u8);
        assert(dec_digits_value(dec_render(v))
            == dec_digits_value(dec_render(v / 10)) * 10 + (v % 10));
    } else {
        let s = dec_render(v);
        assert(s.len() == 1);
        assert(s.drop_last().len() == 0);
        assert(dec_digits_value(s.drop_last()) == 0);
        assert(dec_digits_value(s) == s.last() - 48);
    }
}

/// Rendering then parsing a `usize` gives the value back.
pub proof fn lemma_dec_render_parses(v: usize)
    ensures
        dec_value_opt(dec_render(v as int)) == Some(v),
{
    lemma_dec_render_props(v as int);
    let s = dec_render(v as int);
    assert(s[0] != 43);
    assert(dec_digit_part(s) == s);
}

/// A reversal helper for digit emission.
spec fn rev_bytes(s: Seq<u8>) -> Seq<u8>
    decreases s.len(),
{
    if s.len() == 0 {
        Seq::empty()
    } else {
        seq![s.last()] + rev_bytes(s.drop_last())
    }
}

/// Renders a value in decimal, appending to `out`.
pub fn push_dec(out: &mut Vec<u8>, v: usize)
    ensures
        final(out)@ == old(out)@ + dec_render(v as int),
{
    if v == 0 {
        out.push(48);
        proof {
            assert(out@ =~= old(out)@ + dec_render(0));
        }
        return;
    }
    let mut tmp: Vec<u8> = Vec::new();
    let mut x: usize = v;
    while x > 0
        invariant
            x >= 0,
            x > 0 ==> dec_render(v as int) == dec_render(x as int) + rev_bytes(tmp@),
            x == 0 ==> dec_render(v as int) == rev_bytes(tmp@),
        decreases x,
    {
        let d: u8 = 48 + (x % 10) as u8;
        let ghost old_tmp = tmp@;
        tmp.push(d);
        proof {
            assert(tmp@.drop_last() =~= old_tmp);
            assert(rev_bytes(tmp@) == seq![d] + rev_bytes(old_tmp));
            if x >= 10 {
                assert(dec_render(x as int) == dec_render(x as int / 10) + seq![d]);
                assert(dec_render(x as int / 10) + (seq![d] + rev_bytes(old_tmp))
                    =~= (dec_render(x as int / 10) + seq![d]) + rev_bytes(old_tmp));
            } else {
                assert(dec_render(x as int) == seq![d]);
                assert(seq![d] + rev_bytes(old_tmp) =~= dec_render(x as int) + rev_bytes(old_tmp));
            }
        }
        x = x / 10;
    }
    while tmp.len() > 0
        invariant
            dec_render(v as int) == out@.skip(old(out)@.len() as int) + rev_bytes(tmp@),
            out@.take(old(out)@.len() as int) == old(out)@,
            out@.len() >= old(out)@.len(),
        decreases tmp@.len(),
    {
        let ghost old_tmp = tmp@;
        let d_opt = tmp.pop();
        let d = d_opt.unwrap();
        let ghost mid_out = out@;
        out.push(d);
        proof {
            assert(tmp@ =~= old_tmp.drop_last());
            assert(d == old_tmp.last());
            assert(rev_bytes(old_tmp) == seq![d] + rev_bytes(tmp@));
            assert(out@.skip(old(out)@.len() as int)
                =~= mid_out.skip(old(out)@.len() as int) + seq![d]);
            assert(out@.take(old(out)@.len() as int) =~= old(out)@);
            assert(mid_out.skip(old(out)@.len() as int) + (seq![d] + rev_bytes(tmp@))
                =~= (mid_out.skip(old(out)@.len() as int) + seq![d]) + rev_bytes(tmp@));
        }
    }
    proof {
        assert(rev_bytes(tmp@) =~= Seq::<u8>::empty());
        assert(out@.skip(old(out)@.len() as int) + rev_bytes(tmp@)
            =~= out@.skip(old(out)@.len() as int));
        assert(out@ =~= out@.take(old(out)@.len() as int) + out@.skip(old(out)@.len() as int));
    }
}

} // verus!
