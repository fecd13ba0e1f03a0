//! RESP frames: the data type, its byte encoding, and an incremental decoder.
use vstd::prelude::*;
use vstd::utf8::*;

pub mod laws;

verus! {

pub const CR: u8 = 13;

pub const LF: u8 = 10;

/// A decoded protocol message.
#[derive(Debug, PartialEq, Eq)]
pub enum Frame {
    Simple(String),
    Error(String),
    Integer(u64),
    Bulk(Vec<u8>),
    Null,
    Array(Vec<Frame>),
}

/// Mathematical value of a [`Frame`].
pub enum FrameModel {
    Simple(Seq<char>),
    Error(Seq<char>),
    Integer(u64),
    Bulk(Seq<u8>),
    Null,
    Array(Seq<FrameModel>),
}

/// Model of a single frame, looking no deeper than one level: an array nested
/// in another is modelled as an empty array. Such frames are neither encoded nor
/// decoded here, as arrays stand only at the top level.
pub open spec fn scalar_model(f: Frame) -> FrameModel {
    match f {
        Frame::Simple(s) => FrameModel::Simple(s@),
        Frame::Error(s) => FrameModel::Error(s@),
        Frame::Integer(n) => FrameModel::Integer(n),
        Frame::Bulk(b) => FrameModel::Bulk(b@),
        Frame::Null => FrameModel::Null,
        Frame::Array(_) => FrameModel::Array(Seq::empty()),
    }
}

/// Models of a sequence of frames that stand inside an array.
pub open spec fn models(v: Seq<Frame>) -> Seq<FrameModel> {
    v.map_values(|f: Frame| scalar_model(f))
}

impl View for Frame {
    type V = FrameModel;

    open spec fn view(&self) -> FrameModel {
        match self {
            Frame::Array(v) => FrameModel::Array(models(v@)),
            _ => scalar_model(*self),
        }
    }
}

impl FrameModel {
    pub open spec fn is_array(self) -> bool {
        self is Array
    }

    /// Arrays appear only at the top level: no element of an array is an array.
    pub open spec fn is_flat(self) -> bool {
        match self {
            FrameModel::Array(items) => forall|i: int| 0 <= i < items.len() ==> !(#[trigger] items[i]).is_array(),
            _ => true,
        }
    }
}

/// Outcome of decoding from a byte buffer that may hold only part of a message.
#[derive(Debug, PartialEq, Eq)]
pub enum Progress<T> {
    Complete(T),
    Incomplete,
    Invalid,
}

pub open spec fn crlf() -> Seq<u8> {
    seq![CR, LF]
}

/// The three bytes that follow `$-` (or `*-`) in a null frame.
pub open spec fn null_tail() -> Seq<u8> {
    seq![49u8, CR, LF]
}

pub open spec fn is_digit(b: u8) -> bool {
    48 <= b <= 57
}

/// Value of a run of ASCII decimal digits.
pub open spec fn digits_value(d: Seq<u8>) -> nat
    decreases d.len(),
{
    if d.len() == 0 {
        0
    } else {
        digits_value(d.drop_last()) * 10 + (d.last() - 48) as nat
    }
}

/// Shortest decimal representation of `n`.
pub open spec fn decimal(n: nat) -> Seq<u8>
    decreases n,
{
    if n < 10 {
        seq![(48 + n) as u8]
    } else {
        decimal(n / 10) + seq![(48 + n % 10) as u8]
    }
}

// ---------------------------------------------------------------- encoding

/// Bytes of a frame that is not an array.
pub open spec fn encode_value(m: FrameModel) -> Seq<u8> {
    match m {
        FrameModel::Simple(s) => seq![43u8] + encode_utf8(s) + crlf(),
        FrameModel::Error(s) => seq![45u8] + encode_utf8(s) + crlf(),
        FrameModel::Integer(n) => seq![58u8] + decimal(n as nat) + crlf(),
        FrameModel::Bulk(b) => seq![36u8] + decimal(b.len()) + crlf() + b + crlf(),
        FrameModel::Null => seq![36u8, 45u8] + null_tail(),
        FrameModel::Array(_) => Seq::empty(),
    }
}

/// Bytes of a sequence of non-array frames, one after the other.
pub open spec fn encode_items(items: Seq<FrameModel>) -> Seq<u8>
    decreases items.len(),
{
    if items.len() == 0 {
        Seq::empty()
    } else {
        encode_items(items.drop_last()) + encode_value(items.last())
    }
}

/// Bytes of a frame: an array is its header followed by each element's bytes.
pub open spec fn encode(m: FrameModel) -> Seq<u8> {
    match m {
        FrameModel::Array(items) => seq![42u8] + decimal(items.len()) + crlf() + encode_items(items),
        _ => encode_value(m),
    }
}

// ---------------------------------------------------------------- decoding

/// Scans the line that starts at `i`; completes with the index of its `\r`.
/// A bare `\r` or `\n` makes the line invalid.
pub open spec fn scan_line(s: Seq<u8>, i: int) -> Progress<int>
    decreases s.len() - i,
{
    if i < 0 || i >= s.len() {
        Progress::Incomplete
    } else if s[i] == CR {
        if i + 1 >= s.len() {
            Progress::Incomplete
        } else if s[i + 1] == LF {
            Progress::Complete(i)
        } else {
            Progress::Invalid
        }
    } else if s[i] == LF {
        Progress::Invalid
    } else {
        scan_line(s, i + 1)
    }
}

/// Scans a line of decimal digits that starts at `i`; completes with the index of its `\r`.
pub open spec fn scan_digits(s: Seq<u8>, i: int) -> Progress<int>
    decreases s.len() - i,
{
    if i < 0 || i >= s.len() {
        Progress::Incomplete
    } else if s[i] == CR {
        if i + 1 >= s.len() {
            Progress::Incomplete
        } else if s[i + 1] == LF {
            Progress::Complete(i)
        } else {
            Progress::Invalid
        }
    } else if is_digit(s[i]) {
        scan_digits(s, i + 1)
    } else {
        Progress::Invalid
    }
}

/// An unsigned 64-bit decimal line at `i`: its value and the index after its `\r\n`.
pub open spec fn number_at(s: Seq<u8>, i: int) -> Progress<(u64, int)> {
    match scan_digits(s, i) {
        Progress::Complete(j) => {
            let v = digits_value(s.subrange(i, j));
            if j == i || v > u64::MAX {
                Progress::Invalid
            } else {
                Progress::Complete((v as u64, j + 2))
            }
        },
        Progress::Incomplete => Progress::Incomplete,
        Progress::Invalid => Progress::Invalid,
    }
}

/// Matches the bytes at `i` against `lit`; completes with the index after it.
pub open spec fn expect_at(s: Seq<u8>, i: int, lit: Seq<u8>) -> Progress<int> {
    let avail = if s.len() - i < lit.len() {
        s.len() - i
    } else {
        lit.len() as int
    };
    if s.subrange(i, i + avail) != lit.subrange(0, avail) {
        Progress::Invalid
    } else if avail < lit.len() {
        Progress::Incomplete
    } else {
        Progress::Complete(i + lit.len())
    }
}

pub open spec fn frame_after(p: Progress<int>, m: FrameModel) -> Progress<(FrameModel, int)> {
    match p {
        Progress::Complete(e) => Progress::Complete((m, e)),
        Progress::Incomplete => Progress::Incomplete,
        Progress::Invalid => Progress::Invalid,
    }
}

/// A text line after its type byte at `i`.
pub open spec fn text_at(s: Seq<u8>, i: int, error: bool) -> Progress<(FrameModel, int)> {
    match scan_line(s, i + 1) {
        Progress::Complete(j) => {
            let b = s.subrange(i + 1, j);
            if valid_utf8(b) {
                let t = decode_utf8(b);
                Progress::Complete(
                    (
                        if error {
                            FrameModel::Error(t)
                        } else {
                            FrameModel::Simple(t)
                        },
                        j + 2,
                    ),
                )
            } else {
                Progress::Invalid
            }
        },
        Progress::Incomplete => Progress::Incomplete,
        Progress::Invalid => Progress::Invalid,
    }
}

/// A bulk string whose length line starts at `i`.
pub open spec fn bulk_at(s: Seq<u8>, i: int) -> Progress<(FrameModel, int)> {
    match number_at(s, i) {
        Progress::Complete((n, p)) => {
            let e = p + n;
            if s.len() < e {
                Progress::Incomplete
            } else {
                frame_after(expect_at(s, e, crlf()), FrameModel::Bulk(s.subrange(p, e)))
            }
        },
        Progress::Incomplete => Progress::Incomplete,
        Progress::Invalid => Progress::Invalid,
    }
}

/// A frame other than an array at `i`.
pub open spec fn decode_leaf(s: Seq<u8>, i: int) -> Progress<(FrameModel, int)> {
    if i < 0 || i >= s.len() {
        Progress::Incomplete
    } else if s[i] == 43 {
        text_at(s, i, false)
    } else if s[i] == 45 {
        text_at(s, i, true)
    } else if s[i] == 58 {
        match number_at(s, i + 1) {
            Progress::Complete((v, e)) => Progress::Complete((FrameModel::Integer(v), e)),
            Progress::Incomplete => Progress::Incomplete,
            Progress::Invalid => Progress::Invalid,
        }
    } else if s[i] == 36 {
        if i + 1 >= s.len() {
            Progress::Incomplete
        } else if s[i + 1] == 45 {
            frame_after(expect_at(s, i + 2, null_tail()), FrameModel::Null)
        } else {
            bulk_at(s, i + 1)
        }
    } else {
        Progress::Invalid
    }
}

/// `n` more array elements from `i`, after those already in `acc`.
pub open spec fn decode_items(s: Seq<u8>, i: int, n: nat, acc: Seq<FrameModel>) -> Progress<
    (FrameModel, int),
>
    decreases n,
{
    if n == 0 {
        Progress::Complete((FrameModel::Array(acc), i))
    } else {
        match decode_leaf(s, i) {
            Progress::Complete((f, e)) => decode_items(s, e, (n - 1) as nat, acc.push(f)),
            Progress::Incomplete => Progress::Incomplete,
            Progress::Invalid => Progress::Invalid,
        }
    }
}

/// The frame at the start of `s`, with the number of bytes it takes.
pub open spec fn decode(s: Seq<u8>) -> Progress<(FrameModel, int)> {
    if s.len() == 0 {
        Progress::Incomplete
    } else if s[0] == 42 {
        if s.len() < 2 {
            Progress::Incomplete
        } else if s[1] == 45 {
            frame_after(expect_at(s, 2, null_tail()), FrameModel::Null)
        } else {
            match number_at(s, 1) {
                Progress::Complete((n, p)) => decode_items(s, p, n as nat, Seq::empty()),
                Progress::Incomplete => Progress::Incomplete,
                Progress::Invalid => Progress::Invalid,
            }
        }
    } else {
        decode_leaf(s, 0)
    }
}

} // verus!

verus! {

/// `r` is the executable counterpart of the position outcome `p`.
pub open spec fn same_position(r: Progress<usize>, p: Progress<int>) -> bool {
    match (r, p) {
        (Progress::Complete(a), Progress::Complete(b)) => a as int == b,
        (Progress::Incomplete, Progress::Incomplete) => true,
        (Progress::Invalid, Progress::Invalid) => true,
        _ => false,
    }
}

/// `r` is the executable counterpart of the decoding outcome `p`.
pub open spec fn same_decoding(r: Progress<(Frame, usize)>, p: Progress<(FrameModel, int)>) -> bool {
    match (r, p) {
        (Progress::Complete((f, a)), Progress::Complete((m, b))) => f@ == m && a as int == b,
        (Progress::Incomplete, Progress::Incomplete) => true,
        (Progress::Invalid, Progress::Invalid) => true,
        _ => false,
    }
}

/// Relies on `String::from_utf8`: it succeeds exactly on valid UTF-8, and the
/// string then holds the decoded characters.
#[verifier::external_body]
pub(crate) fn string_from_utf8(bytes: Vec<u8>) -> (r: Option<String>)
    ensures
        r is Some <==> valid_utf8(bytes@),
        r matches Some(s) ==> s@ == decode_utf8(bytes@),
{
    String::from_utf8(bytes).ok()
}

/// Copies `buf[a..b]`.
pub fn copy_range(buf: &[u8], a: usize, b: usize) -> (r: Vec<u8>)
    requires
        a <= b <= buf@.len(),
    ensures
        r@ == buf@.subrange(a as int, b as int),
{
    let mut r: Vec<u8> = Vec::with_capacity(b - a);
    let mut k: usize = a;
    proof {
        assert(r@ =~= buf@.subrange(a as int, a as int));
    }
    while k < b
        invariant
            a <= k <= b <= buf@.len(),
            r@ == buf@.subrange(a as int, k as int),
        decreases b - k,
    {
        r.push(buf[k]);
        k += 1;
        assert(r@ =~= buf@.subrange(a as int, k as int));
    }
    r
}

fn scan_line_exec(buf: &[u8], i: usize) -> (r: Progress<usize>)
    ensures
        same_position(r, scan_line(buf@, i as int)),
        r matches Progress::Complete(j) ==> i <= j && j + 2 <= buf.len(),
{
    let mut k: usize = i;
    while k < buf.len()
        invariant
            i <= k,
            scan_line(buf@, i as int) == scan_line(buf@, k as int),
        decreases buf.len() - k,
    {
        if buf[k] == CR {
            if k + 1 >= buf.len() {
                return Progress::Incomplete;
            } else if buf[k + 1] == LF {
                proof {
                    lemma_scan_line_bounds(buf@, i as int);
                }
                return Progress::Complete(k);
            } else {
                return Progress::Invalid;
            }
        } else if buf[k] == LF {
            return Progress::Invalid;
        }
        k += 1;
    }
    Progress::Incomplete
}

proof fn lemma_digits_push(s: Seq<u8>, i: int, k: int)
    requires
        0 <= i <= k < s.len(),
    ensures
        digits_value(s.subrange(i, k + 1)) == digits_value(s.subrange(i, k)) * 10 + (s[k] - 48) as nat,
{
    assert(s.subrange(i, k + 1).drop_last() =~= s.subrange(i, k));
}

fn number_at_exec(buf: &[u8], i: usize) -> (r: Progress<(u64, usize)>)
    ensures
        match (r, number_at(buf@, i as int)) {
            (Progress::Complete((v, e)), Progress::Complete((w, f))) => v == w && e as int == f,
            (Progress::Incomplete, Progress::Incomplete) => true,
            (Progress::Invalid, Progress::Invalid) => true,
            _ => false,
        },
        r matches Progress::Complete((v, e)) ==> i < e <= buf@.len(),
{
    if i >= buf.len() {
        return Progress::Incomplete;
    }
    let mut k: usize = i;
    let mut val: u64 = 0;
    let mut over = false;
    proof {
        assert(buf@.subrange(i as int, i as int) =~= Seq::<u8>::empty());
    }
    while k < buf.len()
        invariant
            i <= k,
            scan_digits(buf@, i as int) == scan_digits(buf@, k as int),
            over ==> digits_value(buf@.subrange(i as int, k as int)) > u64::MAX,
            !over ==> val == digits_value(buf@.subrange(i as int, k as int)),
        decreases buf.len() - k,
    {
        let b = buf[k];
        if b == CR {
            if k + 1 >= buf.len() {
                return Progress::Incomplete;
            } else if buf[k + 1] == LF {
                if k == i || over {
                    return Progress::Invalid;
                }
                return Progress::Complete((val, k + 2));
            } else {
                return Progress::Invalid;
            }
        } else if 48 <= b && b <= 57 {
            let d = (b - 48) as u64;
            proof {
                lemma_digits_push(buf@, i as int, k as int);
            }
            if !over {
                if val < 1844674407370955161 || (val == 1844674407370955161 && d <= 5) {
                    val = val * 10 + d;
                } else {
                    over = true;
                }
            }
        } else {
            return Progress::Invalid;
        }
        k += 1;
    }
    Progress::Incomplete
}

fn expect_exec(buf: &[u8], i: usize, lit: &Vec<u8>) -> (r: Progress<usize>)
    requires
        i <= buf@.len(),
    ensures
        same_position(r, expect_at(buf@, i as int, lit@)),
        r matches Progress::Complete(e) ==> e <= buf@.len() && e == i + lit@.len(),
{
    let mut k: usize = 0;
    while k < lit.len()
        invariant
            i <= buf@.len(),
            k <= lit@.len(),
            i + k <= buf.len(),
            forall|j: int| 0 <= j < k ==> buf@[i + j] == #[trigger] lit@[j],
        decreases lit.len() - k,
    {
        if k >= buf.len() - i {
            proof {
                assert(i + k == buf@.len());
                assert(buf@.subrange(i as int, i + k) =~= lit@.subrange(0, k as int));
            }
            return Progress::Incomplete;
        }
        if buf[i + k] != lit[k] {
            proof {
                let avail = if buf@.len() - i < lit@.len() {
                    buf@.len() - i
                } else {
                    lit@.len() as int
                };
                assert(buf@.subrange(i as int, i + avail)[k as int] != lit@.subrange(0, avail)[k as int]);
            }
            return Progress::Invalid;
        }
        k += 1;
    }
    proof {
        assert(buf@.subrange(i as int, i + lit@.len()) =~= lit@.subrange(0, lit@.len() as int));
    }
    Progress::Complete(i + lit.len())
}

fn text_at_exec(buf: &[u8], i: usize, error: bool) -> (r: Progress<(Frame, usize)>)
    requires
        i < buf.len(),
    ensures
        same_decoding(r, text_at(buf@, i as int, error)),
        r matches Progress::Complete((f, e)) ==> i < e <= buf@.len() && !f@.is_array(),
{
    match scan_line_exec(buf, i + 1) {
        Progress::Complete(j) => {
            let b = copy_range(buf, i + 1, j);
            match string_from_utf8(b) {
                Some(t) => {
                    let f = if error {
                        Frame::Error(t)
                    } else {
                        Frame::Simple(t)
                    };
                    Progress::Complete((f, j + 2))
                },
                None => Progress::Invalid,
            }
        },
        Progress::Incomplete => Progress::Incomplete,
        Progress::Invalid => Progress::Invalid,
    }
}

pub(crate) proof fn lemma_scan_line_bounds(s: Seq<u8>, i: int)
    ensures
        scan_line(s, i) matches Progress::Complete(j) ==> 0 <= i <= j && j + 2 <= s.len() && s[j] == CR
            && s[j + 1] == LF,
    decreases s.len() - i,
{
    if 0 <= i < s.len() && s[i] != CR && s[i] != LF {
        lemma_scan_line_bounds(s, i + 1);
    }
}

fn bulk_at_exec(buf: &[u8], i: usize) -> (r: Progress<(Frame, usize)>)
    ensures
        same_decoding(r, bulk_at(buf@, i as int)),
        r matches Progress::Complete((f, e)) ==> i < e <= buf@.len() && !f@.is_array(),
{
    match number_at_exec(buf, i) {
        Progress::Complete((n, p)) => {
            if n > (buf.len() - p) as u64 {
                return Progress::Incomplete;
            }
            let e = p + n as usize;
            let tail = vec![CR, LF];
            proof {
                assert(tail@ =~= crlf());
            }
            match expect_exec(buf, e, &tail) {
                Progress::Complete(k) => {
                    let data = copy_range(buf, p, e);
                    Progress::Complete((Frame::Bulk(data), k))
                },
                Progress::Incomplete => Progress::Incomplete,
                Progress::Invalid => Progress::Invalid,
            }
        },
        Progress::Incomplete => Progress::Incomplete,
        Progress::Invalid => Progress::Invalid,
    }
}

fn decode_leaf_exec(buf: &[u8], i: usize) -> (r: Progress<(Frame, usize)>)
    ensures
        same_decoding(r, decode_leaf(buf@, i as int)),
        r matches Progress::Complete((f, e)) ==> i < e <= buf@.len() && !f@.is_array(),
{
    if i >= buf.len() {
        return Progress::Incomplete;
    }
    let t = buf[i];
    if t == 43 {
        text_at_exec(buf, i, false)
    } else if t == 45 {
        text_at_exec(buf, i, true)
    } else if t == 58 {
        match number_at_exec(buf, i + 1) {
            Progress::Complete((v, e)) => Progress::Complete((Frame::Integer(v), e)),
            Progress::Incomplete => Progress::Incomplete,
            Progress::Invalid => Progress::Invalid,
        }
    } else if t == 36 {
        if i + 1 >= buf.len() {
            Progress::Incomplete
        } else if buf[i + 1] == 45 {
            let tail = vec![49u8, CR, LF];
            proof {
                assert(tail@ =~= null_tail());
            }
            match expect_exec(buf, i + 2, &tail) {
                Progress::Complete(e) => Progress::Complete((Frame::Null, e)),
                Progress::Incomplete => Progress::Incomplete,
                Progress::Invalid => Progress::Invalid,
            }
        } else {
            bulk_at_exec(buf, i + 1)
        }
    } else {
        Progress::Invalid
    }
}

/// Decodes the frame at the start of `buf`: the frame and the number of bytes it
/// takes, or that more bytes are needed, or that the bytes are not a frame.
pub fn decode_frame(buf: &[u8]) -> (r: Progress<(Frame, usize)>)
    ensures
        same_decoding(r, decode(buf@)),
        r matches Progress::Complete((f, n)) ==> 0 < n <= buf@.len() && f@.is_flat(),
{
    if buf.len() == 0 {
        return Progress::Incomplete;
    }
    if buf[0] != 42 {
        return decode_leaf_exec(buf, 0);
    }
    if buf.len() < 2 {
        return Progress::Incomplete;
    }
    if buf[1] == 45 {
        let tail = vec![49u8, CR, LF];
        proof {
            assert(tail@ =~= null_tail());
        }
        return match expect_exec(buf, 2, &tail) {
            Progress::Complete(e) => Progress::Complete((Frame::Null, e)),
            Progress::Incomplete => Progress::Incomplete,
            Progress::Invalid => Progress::Invalid,
        };
    }
    let (n, p) = match number_at_exec(buf, 1) {
        Progress::Complete(x) => x,
        Progress::Incomplete => {
            return Progress::Incomplete;
        },
        Progress::Invalid => {
            return Progress::Invalid;
        },
    };
    let mut items: Vec<Frame> = Vec::new();
    let mut pos: usize = p;
    let mut k: u64 = 0;
    proof {
        assert(models(items@) =~= Seq::<FrameModel>::empty());
    }
    while k < n
        invariant
            0 < p <= pos <= buf@.len(),
            k <= n,
            number_at(buf@, 1) == Progress::Complete((n, p as int)),
            decode(buf@) == decode_items(buf@, pos as int, (n - k) as nat, models(items@)),
            forall|j: int| 0 <= j < items@.len() ==> !(#[trigger] items@[j])@.is_array(),
        decreases n - k,
    {
        match decode_leaf_exec(buf, pos) {
            Progress::Complete((f, e)) => {
                proof {
                    assert(models(items@).push(f@) =~= models(items@.push(f)));
                }
                items.push(f);
                pos = e;
                k += 1;
            },
            Progress::Incomplete => {
                return Progress::Incomplete;
            },
            Progress::Invalid => {
                return Progress::Invalid;
            },
        }
    }
    let r = Frame::Array(items);
    Progress::Complete((r, pos))
}

} // verus!

verus! {

fn push_decimal(out: &mut Vec<u8>, n: u64)
    ensures
        final(out)@ == old(out)@ + decimal(n as nat),
    decreases n,
{
    if n >= 10 {
        push_decimal(out, n / 10);
    }
    out.push((48 + n % 10) as u8);
    proof {
        if n >= 10 {
            assert(final(out)@ =~= old(out)@ + decimal(n as nat));
        } else {
            assert(final(out)@ =~= old(out)@ + decimal(n as nat));
        }
    }
}

fn append_bytes(out: &mut Vec<u8>, b: &[u8])
    ensures
        final(out)@ == old(out)@ + b@,
{
    let ghost start = out@;
    let mut k: usize = 0;
    while k < b.len()
        invariant
            k <= b@.len(),
            out@ == start + b@.subrange(0, k as int),
        decreases b.len() - k,
    {
        out.push(b[k]);
        k += 1;
        assert(out@ =~= start + b@.subrange(0, k as int));
    }
    assert(b@.subrange(0, b@.len() as int) =~= b@);
}

fn push_crlf(out: &mut Vec<u8>)
    ensures
        final(out)@ == old(out)@ + crlf(),
{
    out.push(CR);
    out.push(LF);
    assert(final(out)@ =~= old(out)@ + crlf());
}

/// Appends the bytes of a frame that is not an array.
fn write_value(out: &mut Vec<u8>, frame: &Frame)
    requires
        !frame@.is_array(),
    ensures
        final(out)@ == old(out)@ + encode_value(frame@),
{
    let ghost start = out@;
    match frame {
        Frame::Simple(s) => {
            out.push(43);
            append_bytes(out, s.as_str().as_bytes());
            push_crlf(out);
            assert(out@ =~= start + encode_value(frame@));
        },
        Frame::Error(s) => {
            out.push(45);
            append_bytes(out, s.as_str().as_bytes());
            push_crlf(out);
            assert(out@ =~= start + encode_value(frame@));
        },
        Frame::Integer(v) => {
            out.push(58);
            push_decimal(out, *v);
            push_crlf(out);
            assert(out@ =~= start + encode_value(frame@));
        },
        Frame::Null => {
            out.push(36);
            out.push(45);
            out.push(49);
            push_crlf(out);
            assert(out@ =~= start + encode_value(frame@));
        },
        Frame::Bulk(b) => {
            out.push(36);
            push_decimal(out, b.len() as u64);
            push_crlf(out);
            append_bytes(out, b.as_slice());
            push_crlf(out);
            assert(out@ =~= start + encode_value(frame@));
        },
        Frame::Array(_) => {},
    }
}

/// Encodes a frame whose arrays, if any, stand only at the top level.
pub fn encode_frame(frame: &Frame) -> (r: Vec<u8>)
    requires
        frame@.is_flat(),
    ensures
        r@ == encode(frame@),
{
    let mut out: Vec<u8> = Vec::new();
    match frame {
        Frame::Array(items) => {
            out.push(42);
            push_decimal(&mut out, items.len() as u64);
            push_crlf(&mut out);
            let ghost header = out@;
            let ghost ms = frame@->Array_0;
            let mut k: usize = 0;
            proof {
                assert(ms.subrange(0, 0) =~= Seq::<FrameModel>::empty());
            }
            while k < items.len()
                invariant
                    k <= items@.len(),
                    ms.len() == items@.len(),
                    ms == models(items@),
                    forall|j: int| 0 <= j < ms.len() ==> !(#[trigger] ms[j]).is_array(),
                    out@ == header + encode_items(ms.subrange(0, k as int)),
                decreases items.len() - k,
            {
                proof {
                    assert(ms[k as int] == scalar_model(items@[k as int]));
                }
                write_value(&mut out, &items[k]);
                proof {
                    assert(ms.subrange(0, k + 1).drop_last() =~= ms.subrange(0, k as int));
                    assert(out@ =~= header + encode_items(ms.subrange(0, k + 1)));
                }
                k += 1;
            }
            proof {
                assert(ms.subrange(0, ms.len() as int) =~= ms);
                assert(out@ =~= encode(frame@));
            }
        },
        _ => {
            write_value(&mut out, frame);
            assert(out@ =~= encode(frame@));
        },
    }
    out
}

impl Frame {
    /// An empty array frame.
    pub fn array() -> (r: Frame)
        ensures
            r@ == FrameModel::Array(Seq::empty()),
    {
        let r = Frame::Array(Vec::new());
        assert(models(Seq::<Frame>::empty()) =~= Seq::<FrameModel>::empty());
        r
    }

    /// Appends a bulk string to an array frame.
    pub fn push_bulk(&mut self, bytes: Vec<u8>)
        requires
            old(self)@.is_array(),
        ensures
            final(self)@ == FrameModel::Array(old(self)@->Array_0.push(FrameModel::Bulk(bytes@))),
    {
        self.push_item(Frame::Bulk(bytes));
    }

    /// Appends an integer to an array frame.
    pub fn push_int(&mut self, value: u64)
        requires
            old(self)@.is_array(),
        ensures
            final(self)@ == FrameModel::Array(old(self)@->Array_0.push(FrameModel::Integer(value))),
    {
        self.push_item(Frame::Integer(value));
    }

    /// Appends a simple string to an array frame.
    pub fn push_simple(&mut self, text: String)
        requires
            old(self)@.is_array(),
        ensures
            final(self)@ == FrameModel::Array(old(self)@->Array_0.push(FrameModel::Simple(text@))),
    {
        self.push_item(Frame::Simple(text));
    }

    fn push_item(&mut self, item: Frame)
        requires
            old(self)@.is_array(),
            !item@.is_array(),
        ensures
            final(self)@ == FrameModel::Array(old(self)@->Array_0.push(item@)),
    {
        let mut current = Frame::Null;
        core::mem::swap(self, &mut current);
        match current {
            Frame::Array(mut v) => {
                let ghost before = v@;
                proof {
                    assert(models(v@).push(item@) =~= models(v@.push(item)));
                }
                v.push(item);
                *self = Frame::Array(v);
            },
            other => {
                *self = other;
            },
        }
    }
}

} // verus!

verus! {

// ---------------------------------------------------------------- the check pass

/// Where a decoding outcome ends, without the frame.
pub open spec fn end_of(p: Progress<(FrameModel, int)>) -> Progress<int> {
    match p {
        Progress::Complete((_, e)) => Progress::Complete(e),
        Progress::Incomplete => Progress::Incomplete,
        Progress::Invalid => Progress::Invalid,
    }
}

/// Relies on `std::str::from_utf8`: it succeeds exactly on valid UTF-8.
#[verifier::external_body]
fn is_utf8(bytes: &[u8]) -> (r: bool)
    ensures
        r == valid_utf8(bytes@),
{
    std::str::from_utf8(bytes).is_ok()
}

fn text_check(buf: &[u8], i: usize) -> (r: Progress<usize>)
    requires
        i < buf.len(),
    ensures
        same_position(r, end_of(text_at(buf@, i as int, false))),
        r matches Progress::Complete(e) ==> i < e <= buf@.len(),
{
    match scan_line_exec(buf, i + 1) {
        Progress::Complete(j) => {
            if is_utf8(&buf[i + 1..j]) {
                Progress::Complete(j + 2)
            } else {
                Progress::Invalid
            }
        },
        Progress::Incomplete => Progress::Incomplete,
        Progress::Invalid => Progress::Invalid,
    }
}

fn bulk_check(buf: &[u8], i: usize) -> (r: Progress<usize>)
    ensures
        same_position(r, end_of(bulk_at(buf@, i as int))),
        r matches Progress::Complete(e) ==> i < e <= buf@.len(),
{
    match number_at_exec(buf, i) {
        Progress::Complete((n, p)) => {
            if n > (buf.len() - p) as u64 {
                return Progress::Incomplete;
            }
            let e = p + n as usize;
            let tail = vec![CR, LF];
            proof {
                assert(tail@ =~= crlf());
            }
            expect_exec(buf, e, &tail)
        },
        Progress::Incomplete => Progress::Incomplete,
        Progress::Invalid => Progress::Invalid,
    }
}

fn leaf_check(buf: &[u8], i: usize) -> (r: Progress<usize>)
    ensures
        same_position(r, end_of(decode_leaf(buf@, i as int))),
        r matches Progress::Complete(e) ==> i < e <= buf@.len(),
{
    if i >= buf.len() {
        return Progress::Incomplete;
    }
    let t = buf[i];
    if t == 43 || t == 45 {
        text_check(buf, i)
    } else if t == 58 {
        match number_at_exec(buf, i + 1) {
            Progress::Complete((_, e)) => Progress::Complete(e),
            Progress::Incomplete => Progress::Incomplete,
            Progress::Invalid => Progress::Invalid,
        }
    } else if t == 36 {
        if i + 1 >= buf.len() {
            Progress::Incomplete
        } else if buf[i + 1] == 45 {
            let tail = vec![49u8, CR, LF];
            proof {
                assert(tail@ =~= null_tail());
            }
            expect_exec(buf, i + 2, &tail)
        } else {
            bulk_check(buf, i + 1)
        }
    } else {
        Progress::Invalid
    }
}

/// Checks whether `buf` starts with a whole frame, without building it: the
/// number of bytes the frame takes, or that more are needed, or that the bytes
/// are not a frame.
pub fn check_frame(buf: &[u8]) -> (r: Progress<usize>)
    ensures
        same_position(r, end_of(decode(buf@))),
{
    if buf.len() == 0 {
        return Progress::Incomplete;
    }
    if buf[0] != 42 {
        return leaf_check(buf, 0);
    }
    if buf.len() < 2 {
        return Progress::Incomplete;
    }
    if buf[1] == 45 {
        let tail = vec![49u8, CR, LF];
        proof {
            assert(tail@ =~= null_tail());
        }
        return expect_exec(buf, 2, &tail);
    }
    let (n, p) = match number_at_exec(buf, 1) {
        Progress::Complete(x) => x,
        Progress::Incomplete => {
            return Progress::Incomplete;
        },
        Progress::Invalid => {
            return Progress::Invalid;
        },
    };
    let ghost mut acc: Seq<FrameModel> = Seq::empty();
    let mut pos: usize = p;
    let mut k: u64 = 0;
    while k < n
        invariant
            0 < p <= pos <= buf@.len(),
            k <= n,
            number_at(buf@, 1) == Progress::Complete((n, p as int)),
            decode(buf@) == decode_items(buf@, pos as int, (n - k) as nat, acc),
        decreases n - k,
    {
        match leaf_check(buf, pos) {
            Progress::Complete(e) => {
                proof {
                    acc = acc.push(decode_leaf(buf@, pos as int)->Complete_0.0);
                }
                pos = e;
                k += 1;
            },
            Progress::Incomplete => {
                return Progress::Incomplete;
            },
            Progress::Invalid => {
                return Progress::Invalid;
            },
        }
    }
    Progress::Complete(pos)
}

} // verus!
