use vstd::prelude::*;

use vstd::slice::{slice_subrange, slice_to_vec};

use crate::value::{Tree, Value, views, lemma_views};

verus! {

/// What one decoding step yields, on the mathematical side.
pub enum Step {
    /// The bytes end before the unit does.
    Incomplete,
    /// The unit is malformed; this many bytes belong to it and are dropped.
    Malformed(nat),
    /// A unit, and the number of bytes it took.
    Unit(Tree, nat),
}

/// What one decoding step yields.
#[derive(Debug, PartialEq, Eq)]
pub enum Decoded {
    Incomplete,
    Malformed(usize),
    Unit(Value, usize),
}

impl Decoded {
    pub open spec fn view(self) -> Step {
        match self {
            Decoded::Incomplete => Step::Incomplete,
            Decoded::Malformed(k) => Step::Malformed(k as nat),
            Decoded::Unit(v, k) => Step::Unit(v@, k as nat),
        }
    }
}

/// The index of the first line feed of `s` at or after `k`, or `s.len()`.
pub open spec fn find_newline(s: Seq<u8>, k: int) -> int
    decreases s.len() - k,
{
    if k >= s.len() {
        s.len() as int
    } else if s[k] == 10 {
        k
    } else {
        find_newline(s, k + 1)
    }
}

/// A byte that counts as white space when a line is trimmed: tab, line feed,
/// vertical tab, form feed, carriage return, space, and the Latin-1 next-line
/// and no-break space.
pub open spec fn is_space(b: u8) -> bool {
    b == 9 || b == 10 || b == 11 || b == 12 || b == 13 || b == 32 || b == 0x85 || b == 0xa0
}

/// `s` without the white space at its start.
pub open spec fn trim_start(s: Seq<u8>) -> Seq<u8>
    decreases s.len(),
{
    if s.len() > 0 && is_space(s[0]) {
        trim_start(s.drop_first())
    } else {
        s
    }
}

/// `s` without the white space at its end.
pub open spec fn trim_end(s: Seq<u8>) -> Seq<u8>
    decreases s.len(),
{
    if s.len() > 0 && is_space(s.last()) {
        trim_end(s.drop_last())
    } else {
        s
    }
}

/// The text of the line that runs from `start` to the line feed at `e`,
/// without the white space around it (which takes the carriage return too).
pub open spec fn line_text(s: Seq<u8>, start: int, e: int) -> Seq<u8> {
    trim_end(trim_start(s.subrange(start, e)))
}

pub open spec fn is_digit(b: u8) -> bool {
    48 <= b <= 57
}

pub open spec fn all_digits(d: Seq<u8>) -> bool {
    forall|i: int| 0 <= i < d.len() ==> is_digit(#[trigger] d[i])
}

/// The number that the decimal digits `d` write.
pub open spec fn digits_value(d: Seq<u8>) -> nat
    decreases d.len(),
{
    if d.len() == 0 {
        0
    } else {
        (10 * digits_value(d.drop_last()) + (d.last() - 48)) as nat
    }
}

/// The integer that `t` writes: an optional sign, then one or more decimal digits.
pub open spec fn parse_int(t: Seq<u8>) -> Option<int> {
    if t.len() > 0 && (t[0] == 45 || t[0] == 43) {
        let d = t.drop_first();
        if d.len() > 0 && all_digits(d) {
            if t[0] == 45 {
                Some(-digits_value(d))
            } else {
                Some(digits_value(d) as int)
            }
        } else {
            None
        }
    } else if t.len() > 0 && all_digits(t) {
        Some(digits_value(t) as int)
    } else {
        None
    }
}

pub open spec fn in_i64(n: int) -> bool {
    i64::MIN <= n <= i64::MAX
}

/// Decodes the bulk string whose declared length `n` (positive) ends on the
/// line feed at `e`.
pub open spec fn bulk_after_header(s: Seq<u8>, e: int, n: int) -> Step {
    let body = e + 1;
    let end = body + n;
    if end > s.len() {
        Step::Incomplete
    } else if end < s.len() && s[end] == 10 {
        Step::Unit(Tree::Str(s.subrange(body, end)), (end + 1) as nat)
    } else if end + 1 < s.len() && s[end] == 13 && s[end + 1] == 10 {
        Step::Unit(Tree::Str(s.subrange(body, end)), (end + 2) as nat)
    } else if end == s.len() || (end + 1 == s.len() && s[end] == 13) {
        Step::Incomplete
    } else {
        Step::Malformed(end as nat)
    }
}

/// Decodes one type-tagged unit from the start of `s`.
pub open spec fn decode_one_spec(s: Seq<u8>) -> Step {
    if s.len() == 0 {
        Step::Incomplete
    } else {
        let tag = s[0];
        let e = find_newline(s, 1);
        let p = parse_int(line_text(s, 1, e));
        if tag != 42 && tag != 36 && tag != 58 && tag != 43 {
            Step::Unit(Tree::Nil, 1)
        } else if e == s.len() {
            Step::Incomplete
        } else if tag == 43 {
            Step::Unit(Tree::Str(line_text(s, 1, e)), (e + 1) as nat)
        } else if tag == 42 {
            let text = line_text(s, 1, e);
            match p {
                Some(n) if 0 <= n <= usize::MAX && !(text.len() > 0 && text[0] == 45) => Step::Unit(
                    Tree::Array(n as nat, Seq::empty()),
                    (e + 1) as nat,
                ),
                _ => Step::Malformed((e + 1) as nat),
            }
        } else {
            match p {
                Some(n) if in_i64(n) => if tag == 58 {
                    Step::Unit(Tree::Int(n), (e + 1) as nat)
                } else if n <= 0 {
                    Step::Unit(Tree::Nil, (e + 1) as nat)
                } else {
                    bulk_after_header(s, e, n)
                },
                _ => Step::Malformed((e + 1) as nat),
            }
        }
    }
}

/// Reads units from `pos` on and attaches each to `root`, until `root` is complete.
pub open spec fn assemble(s: Seq<u8>, root: Tree, pos: nat) -> Step
    decreases s.len() - pos,
{
    if root.complete() {
        Step::Unit(root, pos)
    } else {
        match decode_one_spec(s.subrange(pos as int, s.len() as int)) {
            Step::Unit(t, k) => if 0 < k && pos + k <= s.len() {
                assemble(s, root.append(t), pos + k)
            } else {
                Step::Incomplete
            },
            Step::Malformed(k) => Step::Malformed(pos + k),
            Step::Incomplete => Step::Incomplete,
        }
    }
}

/// Decodes one whole message from the start of `s`: its first unit, with every
/// unit that follows attached to it until it is complete.
pub open spec fn decode_message_spec(s: Seq<u8>) -> Step {
    match decode_one_spec(s) {
        Step::Unit(t, k) => assemble(s, t, k),
        other => other,
    }
}

pub open spec fn crlf() -> Seq<u8> {
    seq![13u8, 10u8]
}

/// The decimal digits of `n`.
pub open spec fn decimal(n: nat) -> Seq<u8>
    decreases n,
{
    if n < 10 {
        seq![(48 + n) as u8]
    } else {
        decimal(n / 10).push((48 + n % 10) as u8)
    }
}

/// The decimal text of `n`, with a minus sign when it is negative.
pub open spec fn signed_decimal(n: int) -> Seq<u8> {
    if n < 0 {
        seq![45u8] + decimal((-n) as nat)
    } else {
        decimal(n as nat)
    }
}

/// The wire form of a value.
pub open spec fn encode_spec(t: Tree) -> Seq<u8>
    decreases t,
{
    match t {
        Tree::Nil => seq![36u8, 45u8, 49u8, 13u8, 10u8],
        Tree::Int(n) => seq![58u8] + signed_decimal(n) + crlf(),
        Tree::Str(b) => seq![36u8] + decimal(b.len()) + crlf() + b + crlf(),
        Tree::Array(n, s) => seq![42u8] + decimal(n) + crlf() + encode_all(s),
    }
}

/// The wire forms of the values of `s`, one after the other.
pub open spec fn encode_all(s: Seq<Tree>) -> Seq<u8>
    decreases s,
{
    if s.len() == 0 {
        Seq::empty()
    } else {
        encode_all(s.subrange(0, s.len() - 1)) + encode_spec(s[s.len() - 1])
    }
}

pub proof fn lemma_find_newline(s: Seq<u8>, k: int)
    requires
        0 <= k <= s.len(),
    ensures
        k <= find_newline(s, k) <= s.len(),
        find_newline(s, k) < s.len() ==> s[find_newline(s, k)] == 10,
        forall|j: int| k <= j < find_newline(s, k) ==> s[j] != 10,
    decreases s.len() - k,
{
    if k < s.len() && s[k] != 10 {
        lemma_find_newline(s, k + 1);
    }
}

/// A decoded unit takes at least one byte and no more than there are; a
/// malformed one no more than there are.
pub proof fn lemma_decode_one_bounds(s: Seq<u8>)
    ensures
        decode_one_spec(s) matches Step::Unit(_, k) ==> 0 < k <= s.len(),
        decode_one_spec(s) matches Step::Malformed(k) ==> k <= s.len(),
{
    if s.len() > 0 {
        lemma_find_newline(s, 1);
    }
}

pub proof fn lemma_assemble_bounds(s: Seq<u8>, root: Tree, pos: nat)
    requires
        pos <= s.len(),
    ensures
        assemble(s, root, pos) matches Step::Unit(_, k) ==> k <= s.len(),
        assemble(s, root, pos) matches Step::Malformed(k) ==> k <= s.len(),
    decreases s.len() - pos,
{
    if !root.complete() {
        let rest = s.subrange(pos as int, s.len() as int);
        lemma_decode_one_bounds(rest);
        if let Step::Unit(t, k) = decode_one_spec(rest) {
            lemma_assemble_bounds(s, root.append(t), pos + k);
        }
    }
}

/// A whole message, or a malformed one, takes no more bytes than there are.
pub proof fn lemma_decode_message_bounds(s: Seq<u8>)
    ensures
        decode_message_spec(s) matches Step::Unit(_, k) ==> k <= s.len(),
        decode_message_spec(s) matches Step::Malformed(k) ==> k <= s.len(),
{
    lemma_decode_one_bounds(s);
    if let Step::Unit(t, k) = decode_one_spec(s) {
        lemma_assemble_bounds(s, t, k);
    }
}

pub proof fn lemma_digits_prefix(d: Seq<u8>, j: int)
    requires
        0 <= j <= d.len(),
        all_digits(d),
    ensures
        digits_value(d.subrange(0, j)) <= digits_value(d),
    decreases d.len(),
{
    if j < d.len() {
        let t = d.drop_last();
        assert(all_digits(t)) by {
            assert forall|i: int| 0 <= i < t.len() implies is_digit(#[trigger] t[i]) by {
                assert(t[i] == d[i]);
            }
        }
        assert(is_digit(d[d.len() - 1]));
        lemma_digits_prefix(t, j);
        assert(t.subrange(0, j) =~= d.subrange(0, j));
    } else {
        assert(d.subrange(0, j) =~= d);
    }
}

/// The index of the first line feed of `buf` at or after `k`, or `buf.len()`.
fn newline_from(buf: &[u8], k: usize) -> (e: usize)
    requires
        k <= buf@.len(),
    ensures
        e as int == find_newline(buf@, k as int),
        k <= e <= buf@.len(),
        e < buf@.len() ==> buf@[e as int] == 10,
{
    let mut i: usize = k;
    while i < buf.len()
        invariant
            k <= i <= buf@.len(),
            find_newline(buf@, i as int) == find_newline(buf@, k as int),
        decreases buf@.len() - i,
    {
        if buf[i] == 10 {
            return i;
        }
        i = i + 1;
    }
    i
}

/// The bounds of the text of the line from `start` to the line feed at `e`,
/// without the white space around it.
fn text_bounds(buf: &[u8], start: usize, e: usize) -> (r: (usize, usize))
    requires
        start <= e < buf@.len(),
    ensures
        start <= r.0 <= r.1 <= e,
        line_text(buf@, start as int, e as int) == buf@.subrange(r.0 as int, r.1 as int),
{
    let mut a: usize = start;
    while a < e && (buf[a] == 9 || buf[a] == 10 || buf[a] == 11 || buf[a] == 12 || buf[a] == 13
        || buf[a] == 32 || buf[a] == 0x85 || buf[a] == 0xa0)
        invariant
            start <= a <= e < buf@.len(),
            trim_start(buf@.subrange(start as int, e as int)) == trim_start(buf@.subrange(a as int, e as int)),
        decreases e - a,
    {
        assert(buf@.subrange(a as int, e as int).drop_first() =~= buf@.subrange(a + 1, e as int));
        a = a + 1;
    }
    let mut b: usize = e;
    while b > a && (buf[b - 1] == 9 || buf[b - 1] == 10 || buf[b - 1] == 11 || buf[b - 1] == 12
        || buf[b - 1] == 13 || buf[b - 1] == 32 || buf[b - 1] == 0x85 || buf[b - 1] == 0xa0)
        invariant
            start <= a <= b <= e < buf@.len(),
            trim_start(buf@.subrange(start as int, e as int)) == buf@.subrange(a as int, e as int),
            trim_end(buf@.subrange(a as int, e as int)) == trim_end(buf@.subrange(a as int, b as int)),
        decreases b - a,
    {
        assert(buf@.subrange(a as int, b as int).drop_last() =~= buf@.subrange(a as int, b - 1));
        b = b - 1;
    }
    (a, b)
}

/// Reads the decimal digits `buf[lo..hi]`, unless they are none, hold another
/// byte, or write a number above `u64::MAX`.
pub(crate) fn parse_digits(buf: &[u8], lo: usize, hi: usize) -> (r: Option<u64>)
    requires
        lo <= hi <= buf@.len(),
    ensures
        ({
            let d = buf@.subrange(lo as int, hi as int);
            match r {
                Some(m) => d.len() > 0 && all_digits(d) && digits_value(d) == m,
                None => d.len() == 0 || !all_digits(d) || digits_value(d) > u64::MAX,
            }
        }),
{
    let ghost d = buf@.subrange(lo as int, hi as int);
    if lo == hi {
        return None;
    }
    let mut acc: u64 = 0;
    let mut i: usize = lo;
    while i < hi
        invariant
            lo <= i <= hi <= buf@.len(),
            d == buf@.subrange(lo as int, hi as int),
            all_digits(d.subrange(0, i - lo)),
            digits_value(d.subrange(0, i - lo)) == acc,
        decreases hi - i,
    {
        let b = buf[i];
        if b < 48 || b > 57 {
            assert(!is_digit(d[i - lo]));
            return None;
        }
        let digit = (b - 48) as u64;
        let ghost next = d.subrange(0, i + 1 - lo);
        assert(next.drop_last() =~= d.subrange(0, i - lo));
        if acc > (u64::MAX - digit) / 10 {
            proof {
                if all_digits(d) {
                    lemma_digits_prefix(d, i + 1 - lo);
                }
            }
            return None;
        }
        acc = acc * 10 + digit;
        i = i + 1;
        assert forall|j: int| 0 <= j < next.len() implies is_digit(#[trigger] next[j]) by {
            if j < next.len() - 1 {
                assert(next[j] == d.subrange(0, i - 1 - lo)[j]);
            }
        }
    }
    assert(d.subrange(0, i - lo) =~= d);
    Some(acc)
}

/// Reads the sign and the magnitude of the integer that `buf[lo..hi]` writes,
/// unless it writes none or one whose magnitude exceeds `u64::MAX`.
fn parse_signed(buf: &[u8], lo: usize, hi: usize) -> (r: Option<(bool, u64)>)
    requires
        lo <= hi <= buf@.len(),
    ensures
        ({
            let t = buf@.subrange(lo as int, hi as int);
            match r {
                Some((neg, m)) => parse_int(t) == Some(if neg { -(m as int) } else { m as int })
                    && neg == (t.len() > 0 && t[0] == 45),
                None => parse_int(t) matches Some(n) ==> (n > u64::MAX || n < -(u64::MAX as int)),
            }
        }),
{
    let ghost t = buf@.subrange(lo as int, hi as int);
    if lo == hi {
        return None;
    }
    let first = buf[lo];
    let signed = first == 45 || first == 43;
    let start = if signed { lo + 1 } else { lo };
    assert(signed ==> buf@.subrange(start as int, hi as int) =~= t.drop_first());
    assert(!signed ==> buf@.subrange(start as int, hi as int) =~= t);
    match parse_digits(buf, start, hi) {
        Some(m) => Some((first == 45, m)),
        None => None,
    }
}

/// The value of a sign and a magnitude, where it fits an `i64`.
fn signed_i64(neg: bool, m: u64) -> (r: Option<i64>)
    ensures
        ({
            let n = if neg { -(m as int) } else { m as int };
            match r {
                Some(v) => v as int == n,
                None => !in_i64(n),
            }
        }),
{
    if neg {
        if m <= 9223372036854775807 {
            Some(-(m as i64))
        } else if m == 9223372036854775808 {
            Some(i64::MIN)
        } else {
            None
        }
    } else if m <= 9223372036854775807 {
        Some(m as i64)
    } else {
        None
    }
}

/// Decodes one type-tagged unit from the start of `buf`: an array header, a
/// bulk string, an integer, a simple string, or `Nil` for any other tag.
pub fn decode_one(buf: &[u8]) -> (r: Decoded)
    ensures
        r@ == decode_one_spec(buf@),
{
    if buf.len() == 0 {
        return Decoded::Incomplete;
    }
    let tag = buf[0];
    if tag != 42 && tag != 36 && tag != 58 && tag != 43 {
        return Decoded::Unit(Value::Nil, 1);
    }
    let e = newline_from(buf, 1);
    if e == buf.len() {
        return Decoded::Incomplete;
    }
    let (ts, te) = text_bounds(buf, 1, e);
    if tag == 43 {
        let text = slice_to_vec(slice_subrange(buf, ts, te));
        return Decoded::Unit(Value::String(text), e + 1);
    }
    let p = parse_signed(buf, ts, te);
    if tag == 42 {
        return match p {
            Some((neg, m)) => {
                if !neg && m <= usize::MAX as u64 {
                    Decoded::Unit(Value::Array(m as usize, Vec::new()), e + 1)
                } else {
                    Decoded::Malformed(e + 1)
                }
            },
            None => Decoded::Malformed(e + 1),
        };
    }
    let n = match p {
        Some((neg, m)) => match signed_i64(neg, m) {
            Some(v) => v,
            None => {
                return Decoded::Malformed(e + 1);
            },
        },
        None => {
            return Decoded::Malformed(e + 1);
        },
    };
    if tag == 58 {
        return Decoded::Unit(Value::Int(n), e + 1);
    }
    if n <= 0 {
        return Decoded::Unit(Value::Nil, e + 1);
    }
    let body = e + 1;
    if n as u64 > (buf.len() - body) as u64 {
        return Decoded::Incomplete;
    }
    let end = body + n as usize;
    if end < buf.len() && buf[end] == 10 {
        let text = slice_to_vec(slice_subrange(buf, body, end));
        Decoded::Unit(Value::String(text), end + 1)
    } else if buf.len() - end >= 2 && buf[end] == 13 && buf[end + 1] == 10 {
        let text = slice_to_vec(slice_subrange(buf, body, end));
        Decoded::Unit(Value::String(text), end + 2)
    } else if end == buf.len() || (buf.len() - end == 1 && buf[end] == 13) {
        Decoded::Incomplete
    } else {
        Decoded::Malformed(end)
    }
}

/// Decodes one whole message from the start of `buf`: its first unit, with
/// every unit that follows attached to it until it is complete.
pub fn decode_message(buf: &[u8]) -> (r: Decoded)
    ensures
        r@ == decode_message_spec(buf@),
{
    proof {
        lemma_decode_one_bounds(buf@);
    }
    let (mut root, mut pos) = match decode_one(buf) {
        Decoded::Unit(v, k) => (v, k),
        Decoded::Incomplete => {
            return Decoded::Incomplete;
        },
        Decoded::Malformed(k) => {
            return Decoded::Malformed(k);
        },
    };
    while !root.is_complete()
        invariant
            pos <= buf@.len(),
            assemble(buf@, root@, pos as nat) == decode_message_spec(buf@),
        decreases buf@.len() - pos,
    {
        let rest = slice_subrange(buf, pos, buf.len());
        proof {
            lemma_decode_one_bounds(rest@);
        }
        match decode_one(rest) {
            Decoded::Unit(v, k) => {
                root.append(v);
                pos = pos + k;
            },
            Decoded::Incomplete => {
                return Decoded::Incomplete;
            },
            Decoded::Malformed(k) => {
                return Decoded::Malformed(pos + k);
            },
        }
    }
    Decoded::Unit(root, pos)
}

/// Appends the decimal digits of `n` to `out`.
fn push_decimal(out: &mut Vec<u8>, n: u64)
    ensures
        final(out)@ == old(out)@ + decimal(n as nat),
    decreases n,
{
    if n >= 10 {
        push_decimal(out, n / 10);
    }
    out.push((48 + n % 10) as u8);
    proof {
        if n >= 10 {
            assert(decimal(n as nat) == decimal((n / 10) as nat).push((48 + n % 10) as u8));
        }
    }
    assert(final(out)@ =~= old(out)@ + decimal(n as nat));
}

/// Appends the wire form of `v` to `out`.
#[verifier::loop_isolation(false)]
fn encode_into(v: &Value, out: &mut Vec<u8>)
    ensures
        final(out)@ == old(out)@ + encode_spec(v@),
    decreases v,
{
    match v {
        Value::Nil => {
            out.push(36);
            out.push(45);
            out.push(49);
            out.push(13);
            out.push(10);
        },
        Value::Int(n) => {
            out.push(58);
            if *n < 0 {
                out.push(45);
                let m: u64 = ((-(*n + 1)) as u64) + 1;
                push_decimal(out, m);
            } else {
                push_decimal(out, *n as u64);
            }
            out.push(13);
            out.push(10);
        },
        Value::String(b) => {
            out.push(36);
            push_decimal(out, b.len() as u64);
            out.push(13);
            out.push(10);
            let mut i: usize = 0;
            let ghost before = out@;
            while i < b.len()
                invariant
                    0 <= i <= b@.len(),
                    out@ == before + b@.subrange(0, i as int),
                decreases b@.len() - i,
            {
                out.push(b[i]);
                i = i + 1;
                assert(out@ =~= before + b@.subrange(0, i as int));
            }
            assert(b@.subrange(0, i as int) =~= b@);
            out.push(13);
            out.push(10);
        },
        Value::Array(n, data) => {
            out.push(42);
            push_decimal(out, *n as u64);
            out.push(13);
            out.push(10);
            proof {
                lemma_views(data@);
            }
            let ghost before = out@;
            let ghost s = views(data@);
            let mut i: usize = 0;
            assert(encode_all(s.subrange(0, 0)) =~= Seq::<u8>::empty());
            while i < data.len()
                invariant
                    0 <= i <= data@.len(),
                    out@ == before + encode_all(s.subrange(0, i as int)),
                decreases data@.len() - i,
            {
                proof {
                    assert(decreases_to!(*v => *data));
                    assert(decreases_to!(*data => data@[i as int]));
                }
                encode_into(&data[i], out);
                proof {
                    let t = s.subrange(0, i + 1);
                    assert(t.subrange(0, t.len() - 1) =~= s.subrange(0, i as int));
                    assert(t[t.len() - 1] == data@[i as int]@);
                }
                i = i + 1;
                assert(out@ =~= before + encode_all(s.subrange(0, i as int)));
            }
            assert(s.subrange(0, i as int) =~= s);
        },
    }
    assert(final(out)@ =~= old(out)@ + encode_spec(v@));
}

/// The wire form of `v`.
pub fn encode(v: &Value) -> (r: Vec<u8>)
    ensures
        r@ == encode_spec(v@),
{
    let mut out: Vec<u8> = Vec::new();
    encode_into(v, &mut out);
    assert(out@ =~= encode_spec(v@));
    out
}

} // verus!
