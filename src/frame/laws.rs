//! Laws of the codec: decoding is decided by the bytes already seen, and
//! encoding what was decoded from canonical bytes gives those bytes back.
use vstd::prelude::*;
use vstd::utf8::*;

use super::{
    bulk_at, crlf, decimal, decode, decode_items, decode_leaf, digits_value, encode, encode_items,
    encode_value, expect_at, is_digit, lemma_scan_line_bounds, null_tail, number_at, scan_digits,
    scan_line, text_at, FrameModel, Progress, CR, LF,
};

verus! {

/// `t` begins with all of `s`.
pub open spec fn extends(t: Seq<u8>, s: Seq<u8>) -> bool {
    s.len() <= t.len() && forall|k: int| 0 <= k < s.len() ==> #[trigger] t[k] == s[k]
}

proof fn lemma_scan_digits_bounds(s: Seq<u8>, i: int)
    ensures
        scan_digits(s, i) matches Progress::Complete(j) ==> 0 <= i <= j && j + 2 <= s.len() && s[j]
            == CR && s[j + 1] == LF,
    decreases s.len() - i,
{
    if 0 <= i < s.len() && s[i] != CR && is_digit(s[i]) {
        lemma_scan_digits_bounds(s, i + 1);
    }
}

proof fn lemma_leaf_bounds(s: Seq<u8>, i: int)
    ensures
        decode_leaf(s, i) matches Progress::Complete((f, e)) ==> 0 <= i < e <= s.len(),
{
    lemma_scan_line_bounds(s, i + 1);
    lemma_scan_digits_bounds(s, i + 1);
    lemma_scan_digits_bounds(s, i + 2);
}

proof fn lemma_items_bounds(s: Seq<u8>, i: int, n: nat, acc: Seq<FrameModel>)
    requires
        0 <= i,
    ensures
        decode_items(s, i, n, acc) matches Progress::Complete((f, e)) ==> i <= e && (n > 0 ==> e
            <= s.len()),
    decreases n,
{
    if n > 0 {
        lemma_leaf_bounds(s, i);
        if let Progress::Complete((f, e)) = decode_leaf(s, i) {
            lemma_items_bounds(s, e, (n - 1) as nat, acc.push(f));
        }
    }
}

proof fn lemma_scan_line_extends(s: Seq<u8>, t: Seq<u8>, i: int)
    requires
        extends(t, s),
        !(scan_line(s, i) is Incomplete),
    ensures
        scan_line(t, i) == scan_line(s, i),
    decreases s.len() - i,
{
    if s[i] != CR && s[i] != LF {
        lemma_scan_line_extends(s, t, i + 1);
    }
}

proof fn lemma_scan_digits_extends(s: Seq<u8>, t: Seq<u8>, i: int)
    requires
        extends(t, s),
        !(scan_digits(s, i) is Incomplete),
    ensures
        scan_digits(t, i) == scan_digits(s, i),
    decreases s.len() - i,
{
    if s[i] != CR && is_digit(s[i]) {
        lemma_scan_digits_extends(s, t, i + 1);
    }
}

proof fn lemma_number_extends(s: Seq<u8>, t: Seq<u8>, i: int)
    requires
        extends(t, s),
        !(number_at(s, i) is Incomplete),
    ensures
        number_at(t, i) == number_at(s, i),
{
    lemma_scan_digits_extends(s, t, i);
    lemma_scan_digits_bounds(s, i);
    if let Progress::Complete(j) = scan_digits(s, i) {
        assert(t.subrange(i, j) =~= s.subrange(i, j));
    }
}

proof fn lemma_expect_extends(s: Seq<u8>, t: Seq<u8>, i: int, lit: Seq<u8>)
    requires
        extends(t, s),
        0 <= i <= s.len(),
        !(expect_at(s, i, lit) is Incomplete),
    ensures
        expect_at(t, i, lit) == expect_at(s, i, lit),
{
    let avail_s = if s.len() - i < lit.len() {
        s.len() - i
    } else {
        lit.len() as int
    };
    let avail_t = if t.len() - i < lit.len() {
        t.len() - i
    } else {
        lit.len() as int
    };
    if s.subrange(i, i + avail_s) != lit.subrange(0, avail_s) {
        assert(!(s.subrange(i, i + avail_s) =~= lit.subrange(0, avail_s)));
        let k = choose|k: int| 0 <= k < avail_s && s.subrange(i, i + avail_s)[k] != lit.subrange(0, avail_s)[k];
        assert(t.subrange(i, i + avail_t)[k] != lit.subrange(0, avail_t)[k]);
    } else {
        assert(avail_s == lit.len());
        assert(t.subrange(i, i + avail_t) =~= s.subrange(i, i + avail_s));
    }
}

proof fn lemma_leaf_extends(s: Seq<u8>, t: Seq<u8>, i: int)
    requires
        extends(t, s),
        0 <= i,
        !(decode_leaf(s, i) is Incomplete),
    ensures
        decode_leaf(t, i) == decode_leaf(s, i),
{
    if i < s.len() {
        if s[i] == 43 || s[i] == 45 {
            lemma_scan_line_extends(s, t, i + 1);
            lemma_scan_line_bounds(s, i + 1);
            if let Progress::Complete(j) = scan_line(s, i + 1) {
                assert(t.subrange(i + 1, j) =~= s.subrange(i + 1, j));
            }
        } else if s[i] == 58 {
            lemma_number_extends(s, t, i + 1);
        } else if s[i] == 36 {
            if s[i + 1] == 45 {
                lemma_expect_extends(s, t, i + 2, null_tail());
            } else {
                lemma_number_extends(s, t, i + 1);
                lemma_scan_digits_bounds(s, i + 1);
                if let Progress::Complete((n, p)) = number_at(s, i + 1) {
                    let e = p + n;
                    if s.len() >= e {
                        lemma_expect_extends(s, t, e, crlf());
                        assert(t.subrange(p, e) =~= s.subrange(p, e));
                    }
                }
            }
        }
    }
}

proof fn lemma_items_extends(s: Seq<u8>, t: Seq<u8>, i: int, n: nat, acc: Seq<FrameModel>)
    requires
        extends(t, s),
        0 <= i,
        !(decode_items(s, i, n, acc) is Incomplete),
    ensures
        decode_items(t, i, n, acc) == decode_items(s, i, n, acc),
    decreases n,
{
    if n > 0 {
        lemma_leaf_extends(s, t, i);
        lemma_leaf_bounds(s, i);
        if let Progress::Complete((f, e)) = decode_leaf(s, i) {
            lemma_items_extends(s, t, e, (n - 1) as nat, acc.push(f));
        }
    }
}

proof fn lemma_decode_extends(s: Seq<u8>, t: Seq<u8>)
    requires
        extends(t, s),
        !(decode(s) is Incomplete),
    ensures
        decode(t) == decode(s),
{
    if s[0] == 42 {
        if s[1] == 45 {
            lemma_expect_extends(s, t, 2, null_tail());
        } else {
            lemma_number_extends(s, t, 1);
            lemma_scan_digits_bounds(s, 1);
            if let Progress::Complete((n, p)) = number_at(s, 1) {
                lemma_items_extends(s, t, p, n as nat, Seq::empty());
            }
        }
    } else {
        lemma_leaf_extends(s, t, 0);
    }
}

/// A decoded frame never reaches past the bytes it was decoded from.
pub proof fn lemma_decode_within(s: Seq<u8>)
    ensures
        decode(s) matches Progress::Complete((f, n)) ==> 0 < n <= s.len(),
{
    if s.len() > 0 {
        lemma_leaf_bounds(s, 0);
        lemma_scan_digits_bounds(s, 1);
        if s[0] == 42 && s.len() >= 2 && s[1] != 45 {
            if let Progress::Complete((n, p)) = number_at(s, 1) {
                lemma_items_bounds(s, p, n as nat, Seq::empty());
            }
        }
    }
}

/// Decoding is decided by the bytes already seen: once the outcome for `s` is a
/// complete frame or invalid, no bytes appended to `s` change it.
pub proof fn lemma_decode_stable(s: Seq<u8>, more: Seq<u8>)
    requires
        !(decode(s) is Incomplete),
    ensures
        decode(s + more) == decode(s),
{
    lemma_decode_extends(s, s + more);
}

/// A buffer that holds only the first part of a complete frame decodes as
/// incomplete: the frame is decoded once the missing suffix is appended.
pub proof fn lemma_decode_prefix_incomplete(s: Seq<u8>, more: Seq<u8>)
    requires
        decode(s + more) matches Progress::Complete((f, n)) && n > s.len(),
    ensures
        decode(s) is Incomplete,
{
    if !(decode(s) is Incomplete) {
        lemma_decode_stable(s, more);
        lemma_decode_within(s);
    }
}

} // verus!

verus! {

/// The decimal line at `i` carries no leading zero.
pub open spec fn plain_number(s: Seq<u8>, i: int) -> bool {
    s[i] != 48 || s[i + 1] == CR
}

/// The non-array frame at `i` writes its numbers without leading zeros.
pub open spec fn leaf_canonical(s: Seq<u8>, i: int) -> bool {
    if s[i] == 58 {
        plain_number(s, i + 1)
    } else if s[i] == 36 && s[i + 1] != 45 {
        plain_number(s, i + 1)
    } else {
        true
    }
}

/// The `n` array elements from `i` write their numbers without leading zeros.
pub open spec fn items_canonical(s: Seq<u8>, i: int, n: nat) -> bool
    decreases n,
{
    n == 0 || (leaf_canonical(s, i) && match decode_leaf(s, i) {
        Progress::Complete((f, e)) => items_canonical(s, e, (n - 1) as nat),
        _ => true,
    })
}

/// The frame at the start of `s` is in the form this codec writes: no number has
/// a leading zero, and a null is not written as the null array `*-1`.
pub open spec fn canonical(s: Seq<u8>) -> bool {
    if s[0] == 42 {
        s[1] != 45 && plain_number(s, 1) && match number_at(s, 1) {
            Progress::Complete((n, p)) => items_canonical(s, p, n as nat),
            _ => true,
        }
    } else {
        leaf_canonical(s, 0)
    }
}

proof fn lemma_scan_digits_all(s: Seq<u8>, i: int)
    ensures
        scan_digits(s, i) matches Progress::Complete(j) ==> forall|k: int|
            i <= k < j ==> is_digit(#[trigger] s[k]) && s[k] != CR,
    decreases s.len() - i,
{
    if 0 <= i < s.len() && s[i] != CR && is_digit(s[i]) {
        lemma_scan_digits_all(s, i + 1);
    }
}

proof fn lemma_digits_positive(d: Seq<u8>)
    requires
        d.len() >= 1,
        d[0] != 48,
        forall|k: int| 0 <= k < d.len() ==> is_digit(#[trigger] d[k]),
    ensures
        digits_value(d) >= 1,
    decreases d.len(),
{
    if d.len() > 1 {
        lemma_digits_positive(d.drop_last());
    }
}

proof fn lemma_decimal_of_digits(d: Seq<u8>)
    requires
        d.len() >= 1,
        d.len() == 1 || d[0] != 48,
        forall|k: int| 0 <= k < d.len() ==> is_digit(#[trigger] d[k]),
    ensures
        decimal(digits_value(d)) == d,
    decreases d.len(),
{
    let v = digits_value(d);
    if d.len() == 1 {
        assert(d.drop_last() =~= Seq::<u8>::empty());
        assert(is_digit(d[0]));
        assert(digits_value(d.drop_last()) == 0);
        assert(v == (d[0] - 48) as nat);
        assert(decimal(v) == seq![(48 + v) as u8]);
        assert(decimal(v) =~= d);
    } else {
        let a = digits_value(d.drop_last());
        let b = (d.last() - 48) as nat;
        lemma_decimal_of_digits(d.drop_last());
        lemma_digits_positive(d.drop_last());
        assert(v == a * 10 + b);
        assert((a * 10 + b) / 10 == a && (a * 10 + b) % 10 == b) by (nonlinear_arith)
            requires
                b < 10,
        ;
        assert(decimal(v) == decimal(a) + seq![(48 + b) as u8]);
        assert(is_digit(d[d.len() - 1]));
        assert(d =~= d.drop_last() + seq![d.last()]);
    }
}

/// The digits of a complete, canonical number line at `i` are the decimal of its value.
proof fn lemma_number_digits(s: Seq<u8>, i: int)
    requires
        0 <= i,
        number_at(s, i) is Complete,
        plain_number(s, i),
    ensures
        number_at(s, i) matches Progress::Complete((v, e)) ==> i + 3 <= e <= s.len() && s.subrange(
            i,
            e,
        ) == decimal(v as nat) + crlf(),
{
    lemma_scan_digits_all(s, i);
    lemma_scan_digits_bounds(s, i);
    if let Progress::Complete(j) = scan_digits(s, i) {
        let d = s.subrange(i, j);
        if s[i] == 48 {
            assert(j == i + 1);
        }
        assert forall|k: int| 0 <= k < d.len() implies is_digit(#[trigger] d[k]) by {
            assert(d[k] == s[i + k]);
        }
        lemma_decimal_of_digits(d);
        assert(s.subrange(j, j + 2) =~= crlf());
        assert(s.subrange(i, j + 2) =~= d + s.subrange(j, j + 2));
    }
}

proof fn lemma_leaf_encodes(s: Seq<u8>, i: int)
    requires
        0 <= i,
        decode_leaf(s, i) is Complete,
        leaf_canonical(s, i),
    ensures
        decode_leaf(s, i) matches Progress::Complete((f, e)) ==> !f.is_array() && s.subrange(i, e)
            == encode_value(f),
{
    if s[i] == 43 || s[i] == 45 {
        lemma_scan_line_bounds(s, i + 1);
        if let Progress::Complete(j) = scan_line(s, i + 1) {
            let b = s.subrange(i + 1, j);
            decode_utf8_encode_utf8(b);
            assert(s.subrange(i, j + 2) =~= seq![s[i]] + b + crlf());
        }
    } else if s[i] == 58 {
        lemma_number_digits(s, i + 1);
        if let Progress::Complete((v, e)) = number_at(s, i + 1) {
            assert(s.subrange(i, e) =~= seq![s[i]] + s.subrange(i + 1, e));
        }
    } else if s[i] == 36 {
        if s[i + 1] == 45 {
            assert(s.subrange(i + 2, i + 5) =~= null_tail().subrange(0, 3));
            assert(null_tail().subrange(0, 3) =~= null_tail());
            assert(s.subrange(i, i + 5) =~= seq![s[i], s[i + 1]] + s.subrange(i + 2, i + 5));
        } else {
            lemma_number_digits(s, i + 1);
            if let Progress::Complete((n, p)) = number_at(s, i + 1) {
                let e = p + n;
                assert(s.subrange(e, e + 2) =~= crlf().subrange(0, 2));
                assert(crlf().subrange(0, 2) =~= crlf());
                assert(s.subrange(i, e + 2) =~= seq![s[i]] + s.subrange(i + 1, p) + s.subrange(p, e)
                    + s.subrange(e, e + 2));
            }
        }
    }
}

proof fn lemma_items_encode(s: Seq<u8>, i: int, n: nat, acc: Seq<FrameModel>)
    requires
        0 <= i <= s.len(),
        decode_items(s, i, n, acc) is Complete,
        items_canonical(s, i, n),
        forall|k: int| 0 <= k < acc.len() ==> !(#[trigger] acc[k]).is_array(),
    ensures
        decode_items(s, i, n, acc) matches Progress::Complete((m, e)) ==> m is Array
            && m->Array_0.len() == acc.len() + n && i <= e && encode_items(acc) + s.subrange(i, e)
            == encode_items(m->Array_0),
    decreases n,
{
    if n == 0 {
        assert(encode_items(acc) + s.subrange(i, i) =~= encode_items(acc));
    } else {
        lemma_leaf_encodes(s, i);
        lemma_leaf_bounds(s, i);
        if let Progress::Complete((f, e1)) = decode_leaf(s, i) {
            let acc2 = acc.push(f);
            lemma_items_encode(s, e1, (n - 1) as nat, acc2);
            lemma_items_bounds(s, e1, (n - 1) as nat, acc2);
            assert(acc2.drop_last() =~= acc);
            if let Progress::Complete((m, e)) = decode_items(s, e1, (n - 1) as nat, acc2) {
                assert(s.subrange(i, e) =~= s.subrange(i, e1) + s.subrange(e1, e));
                assert(encode_items(acc) + s.subrange(i, e) =~= encode_items(acc2) + s.subrange(e1, e));
            }
        }
    }
}

/// Decoding a canonical buffer and encoding the result gives back exactly the
/// bytes that were decoded.
pub proof fn lemma_encode_decoded(s: Seq<u8>)
    requires
        decode(s) is Complete,
        canonical(s),
    ensures
        decode(s) matches Progress::Complete((m, n)) ==> m.is_flat() && encode(m) == s.subrange(0, n),
{
    if s[0] == 42 {
        lemma_number_digits(s, 1);
        if let Progress::Complete((n, p)) = number_at(s, 1) {
            lemma_items_encode(s, p, n as nat, Seq::empty());
            lemma_items_flat(s, p, n as nat, Seq::empty());
            lemma_items_bounds(s, p, n as nat, Seq::empty());
            if let Progress::Complete((m, e)) = decode_items(s, p, n as nat, Seq::empty()) {
                assert(encode_items(Seq::<FrameModel>::empty()) =~= Seq::<u8>::empty());
                assert(Seq::<u8>::empty() + s.subrange(p, e) =~= s.subrange(p, e));
                assert(s.subrange(0, e) =~= seq![42u8] + s.subrange(1, p) + s.subrange(p, e));
            }
        }
    } else {
        lemma_leaf_encodes(s, 0);
    }
}

proof fn lemma_items_flat(s: Seq<u8>, i: int, n: nat, acc: Seq<FrameModel>)
    requires
        forall|k: int| 0 <= k < acc.len() ==> !(#[trigger] acc[k]).is_array(),
    ensures
        decode_items(s, i, n, acc) matches Progress::Complete((m, e)) ==> m.is_flat(),
    decreases n,
{
    if n > 0 {
        if let Progress::Complete((f, e1)) = decode_leaf(s, i) {
            lemma_leaf_kind(s, i);
            lemma_items_flat(s, e1, (n - 1) as nat, acc.push(f));
        }
    }
}

proof fn lemma_leaf_kind(s: Seq<u8>, i: int)
    ensures
        decode_leaf(s, i) matches Progress::Complete((f, e)) ==> !f.is_array(),
{
}

} // verus!
