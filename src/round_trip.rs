use vstd::prelude::*;

use crate::codec::{
    Step, all_digits, assemble, crlf, decimal, decode_message_spec, decode_one_spec, digits_value,
    encode_all, encode_spec, find_newline, in_i64, is_digit, is_space, line_text, trim_end, trim_start, parse_int, signed_decimal,
    bulk_after_header,
};
use crate::value::{Tree, all_complete, lemma_all_complete, lemma_append_extend, lemma_append_top};

verus! {

/// A value that the wire form carries unchanged: integers fit an `i64`, every
/// string is non-empty and its length fits an `i64`, and every array is
/// complete, with a size that fits a `usize`.
pub open spec fn encodable(t: Tree) -> bool
    decreases t,
{
    match t {
        Tree::Nil => true,
        Tree::Int(n) => in_i64(n),
        Tree::Str(b) => 0 < b.len() <= i64::MAX,
        Tree::Array(n, s) => n <= usize::MAX && n == s.len() && all_encodable(s),
    }
}

pub open spec fn all_encodable(s: Seq<Tree>) -> bool
    decreases s,
{
    s.len() == 0 || (all_encodable(s.subrange(0, s.len() - 1)) && encodable(s[s.len() - 1]))
}

pub proof fn lemma_all_encodable(s: Seq<Tree>)
    ensures
        all_encodable(s) == (forall|j: int| 0 <= j < s.len() ==> #[trigger] encodable(s[j])),
    decreases s.len(),
{
    if s.len() > 0 {
        let t = s.subrange(0, s.len() - 1);
        lemma_all_encodable(t);
        assert(all_encodable(s) == (all_encodable(t) && encodable(s[s.len() - 1])));
        if all_encodable(s) {
            assert forall|j: int| 0 <= j < s.len() implies #[trigger] encodable(s[j]) by {
                if j < t.len() {
                    assert(t[j] == s[j]);
                }
            }
        }
        if forall|j: int| 0 <= j < s.len() ==> #[trigger] encodable(s[j]) {
            assert forall|j: int| 0 <= j < t.len() implies #[trigger] encodable(t[j]) by {
                assert(t[j] == s[j]);
            }
        }
    }
}

pub proof fn lemma_encodable_complete(t: Tree)
    requires
        encodable(t),
    ensures
        t.complete(),
    decreases t,
{
    if let Tree::Array(n, s) = t {
        lemma_all_encodable(s);
        assert forall|j: int| 0 <= j < s.len() implies #[trigger] s[j].complete() by {
            lemma_encodable_complete(s[j]);
        }
        lemma_all_complete(s);
    }
}

pub proof fn lemma_decimal(n: nat)
    ensures
        decimal(n).len() >= 1,
        all_digits(decimal(n)),
        digits_value(decimal(n)) == n,
    decreases n,
{
    let d = decimal(n);
    if n < 10 {
        assert(d.drop_last() =~= Seq::<u8>::empty());
        assert(digits_value(d) == 10 * digits_value(d.drop_last()) + (d.last() - 48));
    } else {
        lemma_decimal(n / 10);
        let p = decimal(n / 10);
        assert(d.drop_last() =~= p);
        assert(d.last() == (48 + n % 10) as u8);
        assert(digits_value(d) == 10 * digits_value(p) + (d.last() - 48));
        assert(n == 10 * (n / 10) + n % 10);
        assert forall|i: int| 0 <= i < d.len() implies is_digit(#[trigger] d[i]) by {
            if i < p.len() {
                assert(d[i] == p[i]);
            }
        }
    }
}

pub proof fn lemma_parse_signed_decimal(n: int)
    ensures
        parse_int(signed_decimal(n)) == Some(n),
        signed_decimal(n).len() > 0,
        forall|i: int| 0 <= i < signed_decimal(n).len() ==> !is_space(#[trigger] signed_decimal(n)[i]),
{
    if n < 0 {
        let d = decimal((-n) as nat);
        lemma_decimal((-n) as nat);
        let t = signed_decimal(n);
        assert(t.drop_first() =~= d);
        assert forall|i: int| 0 <= i < t.len() implies !is_space(#[trigger] t[i]) by {
            if i > 0 {
                assert(t[i] == d[i - 1]);
                assert(is_digit(d[i - 1]));
            }
        }
    } else {
        let d = decimal(n as nat);
        lemma_decimal(n as nat);
        assert(is_digit(d[0]));
        assert forall|i: int| 0 <= i < d.len() implies !is_space(#[trigger] d[i]) by {
            assert(is_digit(d[i]));
        }
    }
}

pub proof fn lemma_find_newline_at(s: Seq<u8>, k: int, e: int)
    requires
        0 <= k <= e < s.len(),
        s[e] == 10,
        forall|j: int| k <= j < e ==> s[j] != 10,
    ensures
        find_newline(s, k) == e,
    decreases e - k,
{
    if k < e {
        lemma_find_newline_at(s, k + 1, e);
    }
}

/// A tag byte, a line of text `d` and a line end: the line is found and read back.
pub proof fn lemma_header_line(t: Seq<u8>, d: Seq<u8>)
    requires
        t.len() >= d.len() + 3int,
        t.subrange(1, d.len() + 3int) == d + crlf(),
        forall|i: int| 0 <= i < d.len() ==> #[trigger] d[i] != 10 && d[i] != 13,
        d.len() > 0,
        !is_space(d[0]),
        !is_space(d[d.len() - 1]),
    ensures
        find_newline(t, 1) == d.len() + 2int,
        line_text(t, 1, d.len() + 2int) == d,
{
    let e = d.len() + 2int;
    let u = t.subrange(1, d.len() + 3int);
    assert(t[e] == u[e - 1]);
    assert(t[e - 1] == u[e - 2]);
    assert forall|j: int| 1 <= j < e implies t[j] != 10 by {
        assert(t[j] == u[j - 1]);
        if j < e - 1 {
            assert(u[j - 1] == d[j - 1]);
        }
    }
    lemma_find_newline_at(t, 1, e);
    let line = t.subrange(1, e);
    assert(line =~= d.push(13u8)) by {
        assert forall|j: int| 0 <= j < line.len() implies line[j] == d.push(13u8)[j] by {
            assert(t[j + 1] == u[j]);
        }
    }
    assert(line.drop_last() =~= d);
    assert(trim_start(line) == line);
    assert(trim_end(line) == trim_end(d));
    assert(trim_end(d) == d);
}

/// Bytes that begin with `u` agree with `u` on every part of it.
pub proof fn lemma_prefix_part(t: Seq<u8>, u: Seq<u8>, a: int, b: int)
    requires
        u.len() <= t.len(),
        t.subrange(0, u.len() as int) == u,
        0 <= a <= b <= u.len(),
    ensures
        t.subrange(a, b) == u.subrange(a, b),
{
    assert forall|j: int| 0 <= j < b - a implies t.subrange(a, b)[j] == u.subrange(a, b)[j] by {
        assert(t[a + j] == t.subrange(0, u.len() as int)[a + j]);
    }
    assert(t.subrange(a, b) =~= u.subrange(a, b));
}

/// Decoding the wire form of a value that is not an array gives the value back
/// and takes exactly its bytes.
pub proof fn lemma_decode_leaf(t: Seq<u8>, w: Tree)
    requires
        encodable(w),
        !(w is Array),
        encode_spec(w).len() <= t.len(),
        t.subrange(0, encode_spec(w).len() as int) == encode_spec(w),
    ensures
        decode_one_spec(t) == Step::Unit(w, encode_spec(w).len()),
{
    let u = encode_spec(w);
    assert(t[0] == t.subrange(0, u.len() as int)[0]);
    match w {
        Tree::Nil => {
            let d = signed_decimal(-1);
            lemma_parse_signed_decimal(-1);
            assert(d =~= seq![45u8, 49u8]);
            lemma_prefix_part(t, u, 1, d.len() + 3int);
            assert(u.subrange(1, d.len() + 3int) =~= d + crlf());
            lemma_header_line(t, d);
        },
        Tree::Int(n) => {
            let d = signed_decimal(n);
            lemma_parse_signed_decimal(n);
            lemma_prefix_part(t, u, 1, d.len() + 3int);
            assert(u.subrange(1, d.len() + 3int) =~= d + crlf());
            lemma_header_line(t, d);
        },
        Tree::Str(b) => {
            let d = decimal(b.len());
            lemma_parse_signed_decimal(b.len() as int);
            assert(signed_decimal(b.len() as int) == d);
            lemma_prefix_part(t, u, 1, d.len() + 3int);
            assert(u.subrange(1, d.len() + 3int) =~= d + crlf());
            lemma_header_line(t, d);
            let e = d.len() + 2int;
            let end = e + 1 + b.len();
            lemma_prefix_part(t, u, e + 1, end + 2);
            assert(u.subrange(e + 1, end + 2) =~= b + crlf());
            assert(t[end] == t.subrange(e + 1, end + 2)[b.len() as int]);
            assert(t[end + 1] == t.subrange(e + 1, end + 2)[b.len() + 1int]);
            assert(t.subrange(e + 1, end) =~= b) by {
                assert forall|j: int| 0 <= j < b.len() implies t.subrange(e + 1, end)[j] == b[j] by {
                    assert(t.subrange(e + 1, end + 2)[j] == t[e + 1 + j]);
                }
            }
            assert(bulk_after_header(t, e, b.len() as int) == Step::Unit(Tree::Str(b), (end + 2) as nat));
        },
        _ => {},
    }
}

/// Decoding the wire form of an array gives its header: the declared size
/// and no elements yet.
pub proof fn lemma_decode_array_header(t: Seq<u8>, n: nat, elems: Seq<Tree>)
    requires
        encodable(Tree::Array(n, elems)),
        encode_spec(Tree::Array(n, elems)).len() <= t.len(),
        t.subrange(0, encode_spec(Tree::Array(n, elems)).len() as int) == encode_spec(Tree::Array(n, elems)),
    ensures
        decode_one_spec(t) == Step::Unit(Tree::Array(n, Seq::empty()), decimal(n).len() + 3),
        encode_spec(Tree::Array(n, elems)) == seq![42u8] + decimal(n) + crlf() + encode_all(elems),
{
    let u = encode_spec(Tree::Array(n, elems));
    assert(t[0] == t.subrange(0, u.len() as int)[0]);
    let d = decimal(n);
    lemma_parse_signed_decimal(n as int);
    assert(signed_decimal(n as int) == d);
    lemma_prefix_part(t, u, 1, d.len() + 3int);
    assert(u.subrange(1, d.len() + 3int) =~= d + crlf());
    lemma_header_line(t, d);
}

pub proof fn lemma_encode_all_prefix(elems: Seq<Tree>, k: int)
    requires
        0 <= k <= elems.len(),
    ensures
        encode_all(elems.subrange(0, k)).len() <= encode_all(elems).len(),
        encode_all(elems).subrange(0, encode_all(elems.subrange(0, k)).len() as int) == encode_all(elems.subrange(0, k)),
    decreases elems.len(),
{
    if k == elems.len() {
        assert(elems.subrange(0, k) =~= elems);
        assert(encode_all(elems).subrange(0, encode_all(elems).len() as int) =~= encode_all(elems));
    } else {
        let t = elems.subrange(0, elems.len() - 1);
        lemma_encode_all_prefix(t, k);
        assert(t.subrange(0, k) =~= elems.subrange(0, k));
        let a = encode_all(t);
        let b = encode_all(elems.subrange(0, k));
        assert(encode_all(elems) == a + encode_spec(elems[elems.len() - 1]));
        assert((a + encode_spec(elems[elems.len() - 1])).subrange(0, b.len() as int) =~= a.subrange(0, b.len() as int));
    }
}

/// Where the wire form of `w` stands at `pos` in `s`, and `root` waits for
/// elements, reading it attaches `w` to `root`.
pub open spec fn shifts(s: Seq<u8>, w: Tree, root: Tree, pos: nat) -> bool {
    (encodable(w) && !root.complete() && pos + encode_spec(w).len() <= s.len()
        && s.subrange(pos as int, (pos + encode_spec(w).len()) as int) == encode_spec(w))
        ==> assemble(s, root, pos) == assemble(s, root.append(w), pos + encode_spec(w).len())
}

/// Reading the wire forms of the elements of an array one after the other,
/// from element `i` on, fills the array in its context `ctx`.
#[verifier::spinoff_prover]
#[verifier::rlimit(40)]
pub proof fn lemma_chain(
    s: Seq<u8>,
    ctx: spec_fn(Tree) -> Tree,
    n: nat,
    elems: Seq<Tree>,
    base: nat,
    i: int,
)
    requires
        elems.len() == n,
        0 <= i <= n,
        forall|j: int, r: Tree, p: nat| 0 <= j < n ==> #[trigger] shifts(s, elems[j], r, p),
        forall|j: int| 0 <= j < n ==> #[trigger] encodable(elems[j]),
        forall|k: int| 0 <= k < n ==> !(#[trigger] ctx(Tree::Array(n, elems.subrange(0, k)))).complete()
            && ctx(Tree::Array(n, elems.subrange(0, k))).append(elems[k]) == ctx(Tree::Array(n, elems.subrange(0, k + 1))),
        base + encode_all(elems).len() <= s.len(),
        s.subrange(base as int, (base + encode_all(elems).len()) as int) == encode_all(elems),
    ensures
        assemble(s, ctx(Tree::Array(n, elems.subrange(0, i))), base + encode_all(elems.subrange(0, i)).len())
            == assemble(s, ctx(Tree::Array(n, elems)), base + encode_all(elems).len()),
    decreases n - i,
{
    if i < n {
        let pre = elems.subrange(0, i);
        let q = elems.subrange(0, i + 1);
        let e = elems[i];
        assert(q.subrange(0, i) =~= pre);
        assert(q[i] == e);
        assert(encode_all(q) == encode_all(pre) + encode_spec(e));
        lemma_encode_all_prefix(elems, i + 1);
        let all = encode_all(elems);
        let a = encode_all(pre).len();
        let p = base + a;
        let le = encode_spec(e).len();
        assert(s.subrange(p as int, (p + le) as int) =~= encode_spec(e)) by {
            assert forall|j: int| 0 <= j < le implies s.subrange(p as int, (p + le) as int)[j] == encode_spec(e)[j] by {
                assert(s.subrange(base as int, (base + all.len()) as int)[a + j] == all[a + j]);
                assert(all.subrange(0, encode_all(q).len() as int)[a + j] == encode_all(q)[a + j]);
            }
        }
        assert(shifts(s, e, ctx(Tree::Array(n, pre)), p));
        lemma_chain(s, ctx, n, elems, base, i + 1);
    } else {
        assert(elems.subrange(0, i) =~= elems);
    }
}

/// Attaching the elements of an array one by one, in the context of a tree
/// that waits for elements, fills the array there.
pub proof fn lemma_ctx_root(root: Tree, n: nat, elems: Seq<Tree>)
    requires
        !root.complete(),
        elems.len() == n,
        forall|j: int| 0 <= j < n ==> #[trigger] encodable(elems[j]),
    ensures
        forall|k: int| 0 <= k < n ==> !(#[trigger] root.append(Tree::Array(n, elems.subrange(0, k)))).complete()
            && root.append(Tree::Array(n, elems.subrange(0, k))).append(elems[k]) == root.append(Tree::Array(n, elems.subrange(0, k + 1))),
{
    assert forall|k: int| 0 <= k < n implies !(#[trigger] root.append(Tree::Array(n, elems.subrange(0, k)))).complete()
        && root.append(Tree::Array(n, elems.subrange(0, k))).append(elems[k]) == root.append(Tree::Array(n, elems.subrange(0, k + 1))) by {
        let pre = elems.subrange(0, k);
        lemma_prefix_complete(elems, k);
        lemma_encodable_complete(elems[k]);
        lemma_append_extend(root, n, pre, elems[k]);
        assert(pre.push(elems[k]) =~= elems.subrange(0, k + 1));
    }
}

/// The same, for the array on its own.
pub proof fn lemma_ctx_top(n: nat, elems: Seq<Tree>)
    requires
        elems.len() == n,
        forall|j: int| 0 <= j < n ==> #[trigger] encodable(elems[j]),
    ensures
        forall|k: int| 0 <= k < n ==> !Tree::Array(n, elems.subrange(0, k)).complete()
            && #[trigger] Tree::Array(n, elems.subrange(0, k)).append(elems[k]) == Tree::Array(n, elems.subrange(0, k + 1)),
{
    assert forall|k: int| 0 <= k < n implies !Tree::Array(n, elems.subrange(0, k)).complete()
        && #[trigger] Tree::Array(n, elems.subrange(0, k)).append(elems[k]) == Tree::Array(n, elems.subrange(0, k + 1)) by {
        let pre = elems.subrange(0, k);
        lemma_prefix_complete(elems, k);
        lemma_append_top(n, pre, elems[k]);
        assert(pre.push(elems[k]) =~= elems.subrange(0, k + 1));
    }
}

pub proof fn lemma_prefix_complete(elems: Seq<Tree>, k: int)
    requires
        0 <= k <= elems.len(),
        forall|j: int| 0 <= j < elems.len() ==> #[trigger] encodable(elems[j]),
    ensures
        all_complete(elems.subrange(0, k)),
{
    let pre = elems.subrange(0, k);
    assert forall|j: int| 0 <= j < pre.len() implies #[trigger] pre[j].complete() by {
        assert(pre[j] == elems[j]);
        lemma_encodable_complete(elems[j]);
    }
    lemma_all_complete(pre);
}

/// The elements of an array stand in its wire form after its header.
pub proof fn lemma_elements_part(s: Seq<u8>, pos: nat, n: nat, elems: Seq<Tree>)
    requires
        pos + encode_spec(Tree::Array(n, elems)).len() <= s.len(),
        s.subrange(pos as int, (pos + encode_spec(Tree::Array(n, elems)).len()) as int) == encode_spec(Tree::Array(n, elems)),
        encode_spec(Tree::Array(n, elems)) == seq![42u8] + decimal(n) + crlf() + encode_all(elems),
    ensures
        encode_spec(Tree::Array(n, elems)).len() == decimal(n).len() + 3 + encode_all(elems).len(),
        s.subrange((pos + decimal(n).len() + 3) as int, (pos + decimal(n).len() + 3 + encode_all(elems).len()) as int) == encode_all(elems),
{
    let u = encode_spec(Tree::Array(n, elems));
    let hl = decimal(n).len() + 3;
    let ea = encode_all(elems);
    let base = pos + hl;
    assert forall|j: int| 0 <= j < ea.len() implies s.subrange(base as int, (base + ea.len()) as int)[j] == ea[j] by {
        assert(s.subrange(pos as int, (pos + u.len()) as int)[hl + j] == u[hl + j]);
    }
    assert(s.subrange(base as int, (base + ea.len()) as int) =~= ea);
}

/// One step of assembling: a unit read at `pos` is attached to `root`.
pub proof fn lemma_assemble_step(s: Seq<u8>, root: Tree, pos: nat, u: Tree, k: nat)
    requires
        !root.complete(),
        0 < k,
        pos + k <= s.len(),
        decode_one_spec(s.subrange(pos as int, s.len() as int)) == Step::Unit(u, k),
    ensures
        assemble(s, root, pos) == assemble(s, root.append(u), pos + k),
{
}

/// Reading the wire form of a non-empty array attaches it to a tree that
/// waits for elements, given that reading each element attaches that element.
#[verifier::spinoff_prover]
#[verifier::rlimit(40)]
pub proof fn lemma_shift_array(s: Seq<u8>, n: nat, elems: Seq<Tree>, root: Tree, pos: nat)
    requires
        n > 0,
        encodable(Tree::Array(n, elems)),
        !root.complete(),
        pos + encode_spec(Tree::Array(n, elems)).len() <= s.len(),
        s.subrange(pos as int, (pos + encode_spec(Tree::Array(n, elems)).len()) as int) == encode_spec(Tree::Array(n, elems)),
        forall|j: int, r: Tree, p: nat| 0 <= j < n ==> #[trigger] shifts(s, elems[j], r, p),
    ensures
        assemble(s, root, pos) == assemble(s, root.append(Tree::Array(n, elems)), pos + encode_spec(Tree::Array(n, elems)).len()),
{
    let w = Tree::Array(n, elems);
    let len = encode_spec(w).len();
    let t = s.subrange(pos as int, s.len() as int);
    assert(t.subrange(0, len as int) =~= s.subrange(pos as int, (pos + len) as int));
    lemma_decode_array_header(t, n, elems);
    let hl = decimal(n).len() + 3;
    let h = Tree::Array(n, Seq::empty());
    lemma_assemble_step(s, root, pos, h, hl);
    lemma_all_encodable(elems);
    lemma_ctx_root(root, n, elems);
    let ctx = |x: Tree| root.append(x);
    lemma_elements_part(s, pos, n, elems);
    lemma_chain(s, ctx, n, elems, pos + hl, 0);
    assert(elems.subrange(0, 0) =~= Seq::<Tree>::empty());
    assert(encode_all(Seq::<Tree>::empty()) =~= Seq::<u8>::empty());
}

/// Reading the wire form of a value attaches that value to a tree that waits
/// for elements.
#[verifier::spinoff_prover]
#[verifier::rlimit(40)]
pub proof fn lemma_shift(s: Seq<u8>, w: Tree, root: Tree, pos: nat)
    ensures
        shifts(s, w, root, pos),
    decreases w,
{
    let len = encode_spec(w).len();
    if encodable(w) && !root.complete() && pos + len <= s.len()
        && s.subrange(pos as int, (pos + len) as int) == encode_spec(w) {
        match w {
            Tree::Array(n, elems) => {
                if n == 0 {
                    let t = s.subrange(pos as int, s.len() as int);
                    assert(t.subrange(0, len as int) =~= s.subrange(pos as int, (pos + len) as int));
                    lemma_decode_array_header(t, n, elems);
                    assert(elems =~= Seq::<Tree>::empty());
                    assert(encode_all(elems) =~= Seq::<u8>::empty());
                } else {
                    assert forall|j: int, r: Tree, p: nat| 0 <= j < n implies #[trigger] shifts(s, elems[j], r, p) by {
                        lemma_shift(s, elems[j], r, p);
                    }
                    lemma_shift_array(s, n, elems, root, pos);
                }
            },
            _ => {
                let t = s.subrange(pos as int, s.len() as int);
                assert(t.subrange(0, len as int) =~= s.subrange(pos as int, (pos + len) as int));
                lemma_decode_leaf(t, w);
                lemma_assemble_step(s, root, pos, w, len);
            },
        }
    }
}

/// Decoding a whole non-empty array from its wire form.
#[verifier::spinoff_prover]
#[verifier::rlimit(40)]
pub proof fn lemma_top_array(s: Seq<u8>, n: nat, elems: Seq<Tree>)
    requires
        n > 0,
        encodable(Tree::Array(n, elems)),
        encode_spec(Tree::Array(n, elems)).len() <= s.len(),
        s.subrange(0, encode_spec(Tree::Array(n, elems)).len() as int) == encode_spec(Tree::Array(n, elems)),
    ensures
        decode_message_spec(s) == Step::Unit(Tree::Array(n, elems), encode_spec(Tree::Array(n, elems)).len()),
{
    let w = Tree::Array(n, elems);
    let len = encode_spec(w).len();
    lemma_encodable_complete(w);
    lemma_decode_array_header(s, n, elems);
    let hl = decimal(n).len() + 3;
    let h = Tree::Array(n, Seq::empty());
    assert(decode_message_spec(s) == assemble(s, h, hl));
    lemma_elements_part(s, 0, n, elems);
    lemma_fill_top(s, n, elems, hl);
    assert(assemble(s, w, len) == Step::Unit(w, len));
}

/// Filling a non-empty array on its own from the wire forms of its elements.
#[verifier::spinoff_prover]
#[verifier::rlimit(40)]
proof fn lemma_fill_top(s: Seq<u8>, n: nat, elems: Seq<Tree>, base: nat)
    requires
        n > 0,
        encodable(Tree::Array(n, elems)),
        base + encode_all(elems).len() <= s.len(),
        s.subrange(base as int, (base + encode_all(elems).len()) as int) == encode_all(elems),
    ensures
        assemble(s, Tree::Array(n, Seq::empty()), base) == assemble(s, Tree::Array(n, elems), base + encode_all(elems).len()),
{
    lemma_all_encodable(elems);
    assert forall|j: int, r: Tree, p: nat| 0 <= j < n implies #[trigger] shifts(s, elems[j], r, p) by {
        lemma_shift(s, elems[j], r, p);
    }
    lemma_ctx_top(n, elems);
    let ctx = |x: Tree| x;
    lemma_chain(s, ctx, n, elems, base, 0);
    assert(elems.subrange(0, 0) =~= Seq::<Tree>::empty());
    assert(encode_all(Seq::<Tree>::empty()) =~= Seq::<u8>::empty());
}

/// Decoding a message from the wire form of a value gives the value back and
/// takes exactly its bytes, whatever follows them. This holds of every value
/// that the wire form can carry: an empty string would come back as `Nil`, and
/// an array that is not complete has no whole message to come back as. A
/// value that is not an array comes back from a single unit.
pub proof fn law_round_trip(t: Tree, rest: Seq<u8>)
    requires
        encodable(t),
    ensures
        decode_message_spec(encode_spec(t) + rest) == Step::Unit(t, encode_spec(t).len()),
        !(t is Array) ==> decode_one_spec(encode_spec(t) + rest) == Step::Unit(t, encode_spec(t).len()),
{
    let s = encode_spec(t) + rest;
    let len = encode_spec(t).len();
    assert(s.subrange(0, len as int) =~= encode_spec(t));
    lemma_encodable_complete(t);
    match t {
        Tree::Array(n, elems) => {
            if n == 0 {
                lemma_decode_array_header(s, n, elems);
                assert(elems =~= Seq::<Tree>::empty());
                assert(encode_all(elems) =~= Seq::<u8>::empty());
            } else {
                lemma_top_array(s, n, elems);
            }
        },
        _ => {
            lemma_decode_leaf(s, t);
        },
    }
}

/// A simple string decodes to the same value as the bulk string of the same
/// bytes, when it neither starts nor ends with white space (which a simple
/// string line loses).
pub proof fn law_simple_string(b: Seq<u8>, rest: Seq<u8>)
    requires
        0 < b.len() <= i64::MAX,
        forall|i: int| 0 <= i < b.len() ==> #[trigger] b[i] != 10 && b[i] != 13,
        !is_space(b[0]),
        !is_space(b[b.len() - 1]),
    ensures
        decode_one_spec(seq![43u8] + b + crlf() + rest) == Step::Unit(Tree::Str(b), b.len() + 3),
        decode_one_spec(seq![43u8] + b + crlf() + rest) matches Step::Unit(v, _)
            && decode_one_spec(encode_spec(Tree::Str(b)) + rest) matches Step::Unit(u, _) && u == v,
{
    let s = seq![43u8] + b + crlf() + rest;
    assert(s.subrange(1, b.len() + 3int) =~= b + crlf());
    lemma_header_line(s, b);
    law_round_trip(Tree::Str(b), rest);
}

} // verus!
