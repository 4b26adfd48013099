//! Text primitives shared by the index: character access, comparison in
//! byte order, prefixes, path segments and UTF-8 widths.

use vstd::prelude::*;
use vstd::string::StringExecFns;
use vstd::utf8::encode_utf8;

verus! {

/// Result of comparing two texts in byte order.
#[derive(Clone, Copy, Debug, PartialEq, Eq, Structural)]
pub enum ByteOrder {
    Before,
    Same,
    After,
}

/// Lexicographic comparison of `a` and `b` from position `i` on, given that
/// they agree before it.
pub open spec fn byte_order_from(a: Seq<u8>, b: Seq<u8>, i: int) -> ByteOrder
    decreases a.len() - i,
{
    if i < 0 || i >= a.len() {
        if i >= 0 && i < b.len() {
            ByteOrder::Before
        } else {
            ByteOrder::Same
        }
    } else if i >= b.len() {
        ByteOrder::After
    } else if a[i] < b[i] {
        ByteOrder::Before
    } else if a[i] > b[i] {
        ByteOrder::After
    } else {
        byte_order_from(a, b, i + 1)
    }
}

/// How the text `a` stands to the text `b` when both are ordered by the bytes
/// of their UTF-8 encoding, which is the order of `str`.
pub open spec fn text_order(a: Seq<char>, b: Seq<char>) -> ByteOrder {
    byte_order_from(encode_utf8(a), encode_utf8(b), 0)
}

/// `a` comes strictly before `b` in byte order.
pub open spec fn text_less(a: Seq<char>, b: Seq<char>) -> bool {
    text_order(a, b) == ByteOrder::Before
}

/// Two character sequences with the same UTF-8 encoding are the same.
pub proof fn lemma_encoding_injective(a: Seq<char>, b: Seq<char>)
    requires
        encode_utf8(a) == encode_utf8(b),
    ensures
        a == b,
{
    vstd::utf8::encode_utf8_decode_utf8(a);
    vstd::utf8::encode_utf8_decode_utf8(b);
}

proof fn lemma_order_same_from(a: Seq<u8>, b: Seq<u8>, i: int)
    requires
        0 <= i <= a.len(),
        i <= b.len(),
        byte_order_from(a, b, i) == ByteOrder::Same,
    ensures
        a.len() == b.len(),
        forall|j: int| i <= j < a.len() ==> a[j] == b[j],
    decreases a.len() - i,
{
    if i < a.len() && i < b.len() {
        lemma_order_same_from(a, b, i + 1);
    }
}

proof fn lemma_order_reflexive_from(a: Seq<u8>, i: int)
    requires
        0 <= i,
    ensures
        byte_order_from(a, a, i) == ByteOrder::Same,
    decreases a.len() - i,
{
    if i < a.len() {
        lemma_order_reflexive_from(a, i + 1);
    }
}

proof fn lemma_order_flip_from(a: Seq<u8>, b: Seq<u8>, i: int)
    requires
        0 <= i,
    ensures
        byte_order_from(a, b, i) == ByteOrder::Before <==> byte_order_from(b, a, i)
            == ByteOrder::After,
        byte_order_from(a, b, i) == ByteOrder::Same <==> byte_order_from(b, a, i)
            == ByteOrder::Same,
    decreases a.len() - i,
{
    if i < a.len() && i < b.len() && a[i] == b[i] {
        lemma_order_flip_from(a, b, i + 1);
    }
}

proof fn lemma_order_transitive_from(a: Seq<u8>, b: Seq<u8>, c: Seq<u8>, i: int)
    requires
        0 <= i,
        byte_order_from(a, b, i) != ByteOrder::After,
        byte_order_from(b, c, i) != ByteOrder::After,
    ensures
        byte_order_from(a, c, i) != ByteOrder::After,
        byte_order_from(a, b, i) == ByteOrder::Before || byte_order_from(b, c, i)
            == ByteOrder::Before ==> byte_order_from(a, c, i) == ByteOrder::Before,
    decreases a.len() - i,
{
    if i < a.len() && i < b.len() && i < c.len() && a[i] == b[i] && b[i] == c[i] {
        lemma_order_transitive_from(a, b, c, i + 1);
    }
}

/// Byte order is a strict total order on texts: `Same` means equal, the order
/// of two texts flips with them, and `Before` is transitive.
pub proof fn lemma_text_order(a: Seq<char>, b: Seq<char>, c: Seq<char>)
    ensures
        text_order(a, b) == ByteOrder::Same <==> a == b,
        text_order(a, b) == ByteOrder::Before <==> text_order(b, a) == ByteOrder::After,
        text_less(a, b) && text_less(b, c) ==> text_less(a, c),
        text_less(a, b) && text_order(b, c) == ByteOrder::Same ==> text_less(a, c),
{
    let x = encode_utf8(a);
    let y = encode_utf8(b);
    let z = encode_utf8(c);
    lemma_order_flip_from(x, y, 0);
    lemma_order_reflexive_from(x, 0);
    if text_order(a, b) == ByteOrder::Same {
        lemma_order_same_from(x, y, 0);
        assert(x =~= y);
        lemma_encoding_injective(a, b);
    }
    if text_less(a, b) && text_order(b, c) != ByteOrder::After {
        lemma_order_transitive_from(x, y, z, 0);
    }
}

/// Compares two texts in byte order.
pub fn compare_text(a: &str, b: &str) -> (r: ByteOrder)
    ensures
        r == text_order(a@, b@),
{
    let x = a.as_bytes();
    let y = b.as_bytes();
    let mut i: usize = 0;
    while i < x.len() && i < y.len()
        invariant
            i <= x.len(),
            i <= y.len(),
            x@ == encode_utf8(a@),
            y@ == encode_utf8(b@),
            byte_order_from(x@, y@, i as int) == byte_order_from(x@, y@, 0),
        decreases x.len() - i,
    {
        if x[i] < y[i] {
            return ByteOrder::Before;
        }
        if x[i] > y[i] {
            return ByteOrder::After;
        }
        i = i + 1;
    }
    if i < y.len() {
        ByteOrder::Before
    } else if i < x.len() {
        ByteOrder::After
    } else {
        ByteOrder::Same
    }
}

/// Whether two texts are equal.
pub fn text_eq(a: &str, b: &str) -> (r: bool)
    ensures
        r == (a@ == b@),
{
    let order = compare_text(a, b);
    proof {
        lemma_text_order(a@, b@, a@);
    }
    order == ByteOrder::Same
}

/// The characters of `s`, in order.
pub fn chars_of(s: &str) -> (v: Vec<char>)
    ensures
        v@ == s@,
{
    broadcast use vstd::string::axiom_spec_iter;

    let mut v: Vec<char> = Vec::new();
    for c in it: s.chars()
        invariant
            it.seq() == s@,
            v@ == it.seq().take(it.index()),
    {
        v.push(c);
    }
    v
}

/// `String::push`: the text grows by the one character `c` at its end.
#[verifier::external_body]
pub(crate) fn push_char(s: &mut String, c: char)
    ensures
        final(s)@ == old(s)@.push(c),
{
    s.push(c);
}

/// The text made of the characters `v[from..to]`.
pub fn text_of(v: &Vec<char>, from: usize, to: usize) -> (s: String)
    requires
        from <= to <= v.len(),
    ensures
        s@ == v@.subrange(from as int, to as int),
{
    let mut s = String::new();
    let mut i: usize = from;
    while i < to
        invariant
            from <= i <= to <= v.len(),
            s@ == v@.subrange(from as int, i as int),
        decreases to - i,
    {
        push_char(&mut s, v[i]);
        i = i + 1;
    }
    s
}

/// Whether `prefix` is a prefix of `s`, character by character.
pub fn starts_with(s: &str, prefix: &str) -> (r: bool)
    ensures
        r == prefix@.is_prefix_of(s@),
{
    let x = chars_of(s);
    let p = chars_of(prefix);
    if p.len() > x.len() {
        return false;
    }
    let mut i: usize = 0;
    while i < p.len()
        invariant
            i <= p.len() <= x.len(),
            x@ == s@,
            p@ == prefix@,
            forall|j: int| 0 <= j < i ==> x@[j] == p@[j],
        decreases p.len() - i,
    {
        if x[i] != p[i] {
            assert(x@.subrange(0, p@.len() as int)[i as int] != p@[i as int]);
            return false;
        }
        i = i + 1;
    }
    assert(x@.subrange(0, p@.len() as int) =~= p@);
    true
}

/// What follows the last `/` of `s`: all of `s` where it holds none.
pub open spec fn last_segment(s: Seq<char>) -> Seq<char>
    decreases s.len(),
{
    if s.len() == 0 {
        s
    } else if s.last() == '/' {
        Seq::empty()
    } else {
        last_segment(s.drop_last()).push(s.last())
    }
}

/// A suffix without a `/` that starts the text or follows a `/` is the last
/// segment.
pub proof fn lemma_last_segment_from(s: Seq<char>, k: int)
    requires
        0 <= k <= s.len(),
        forall|j: int| k <= j < s.len() ==> s[j] != '/',
        k > 0 ==> s[k - 1] == '/',
    ensures
        last_segment(s) == s.subrange(k, s.len() as int),
    decreases s.len(),
{
    if s.len() == k {
        assert(last_segment(s) =~= s.subrange(k, s.len() as int));
    } else {
        let t = s.drop_last();
        lemma_last_segment_from(t, k);
        assert(t.subrange(k, t.len() as int).push(s.last()) =~= s.subrange(k, s.len() as int));
    }
}

/// What follows the last `/` of `s`.
pub fn last_segment_of(s: &str) -> (r: String)
    ensures
        r@ == last_segment(s@),
{
    let v = chars_of(s);
    let mut start: usize = v.len();
    while start > 0 && v[start - 1] != '/'
        invariant
            start <= v.len(),
            forall|j: int| start <= j < v.len() ==> v@[j] != '/',
        decreases start,
    {
        start = start - 1;
    }
    proof {
        lemma_last_segment_from(v@, start as int);
    }
    text_of(&v, start, v.len())
}

/// How often `c` occurs in `s`.
pub open spec fn occurrences(s: Seq<char>, c: char) -> nat
    decreases s.len(),
{
    if s.len() == 0 {
        0
    } else {
        occurrences(s.drop_last(), c) + if s.last() == c {
            1nat
        } else {
            0nat
        }
    }
}

/// How often `c` occurs in `s`.
pub fn count_char(s: &str, c: char) -> (n: usize)
    ensures
        n == occurrences(s@, c),
{
    let v = chars_of(s);
    let mut n: usize = 0;
    let mut i: usize = 0;
    while i < v.len()
        invariant
            i <= v.len(),
            n <= i,
            n == occurrences(v@.take(i as int), c),
        decreases v.len() - i,
    {
        proof {
            assert(v@.take(i + 1).drop_last() =~= v@.take(i as int));
        }
        if v[i] == c {
            n = n + 1;
        }
        i = i + 1;
    }
    proof {
        assert(v@.take(v.len() as int) =~= v@);
    }
    n
}

/// `a` followed by `b`.
pub fn joined(a: &str, b: &str) -> (r: String)
    ensures
        r@ == a@ + b@,
{
    let mut r = String::from_str(a);
    r.append(b);
    r
}

/// The pieces of `s` between its `/`: one more than it has `/`, some of them
/// perhaps empty.
pub open spec fn segments(s: Seq<char>) -> Seq<Seq<char>>
    decreases s.len(),
{
    if s.len() == 0 {
        seq![Seq::<char>::empty()]
    } else if s.last() == '/' {
        segments(s.drop_last()).push(Seq::empty())
    } else {
        let before = segments(s.drop_last());
        before.update(before.len() - 1, before.last().push(s.last()))
    }
}

/// A text has at least one segment.
pub proof fn lemma_segments_nonempty(s: Seq<char>)
    ensures
        segments(s).len() >= 1,
    decreases s.len(),
{
    if s.len() > 0 {
        lemma_segments_nonempty(s.drop_last());
    }
}

/// What a list of strings stands for.
pub open spec fn texts_view(v: Seq<String>) -> Seq<Seq<char>> {
    v.map_values(|s: String| s@)
}

/// The pieces of `s` between its `/`.
pub fn split_segments(s: &str) -> (pieces: Vec<String>)
    ensures
        texts_view(pieces@) == segments(s@),
{
    let v = chars_of(s);
    let mut pieces: Vec<String> = Vec::new();
    let mut start: usize = 0;
    let mut i: usize = 0;
    proof {
        assert(v@.take(0) =~= Seq::<char>::empty());
        assert(texts_view(pieces@).push(v@.subrange(0, 0)) =~= segments(v@.take(0)));
    }
    while i < v.len()
        invariant
            start <= i <= v.len(),
            texts_view(pieces@).push(v@.subrange(start as int, i as int)) == segments(
                v@.take(i as int),
            ),
        decreases v.len() - i,
    {
        let ghost seen = texts_view(pieces@);
        let ghost open = v@.subrange(start as int, i as int);
        proof {
            assert(v@.take(i + 1).drop_last() =~= v@.take(i as int));
            lemma_segments_nonempty(v@.take(i as int));
        }
        if v[i] == '/' {
            let piece = text_of(&v, start, i);
            pieces.push(piece);
            start = i + 1;
            proof {
                assert(texts_view(pieces@) =~= seen.push(open));
                assert(v@.subrange(start as int, i + 1) =~= Seq::<char>::empty());
            }
        } else {
            proof {
                assert(open.push(v@[i as int]) =~= v@.subrange(start as int, i + 1));
                assert(seen.push(open).update(seen.len() as int, open.push(v@[i as int]))
                    =~= seen.push(v@.subrange(start as int, i + 1)));
            }
        }
        i = i + 1;
    }
    let ghost seen = texts_view(pieces@);
    let piece = text_of(&v, start, v.len());
    pieces.push(piece);
    proof {
        assert(v@.take(v.len() as int) =~= v@);
        assert(texts_view(pieces@) =~= seen.push(v@.subrange(start as int, v.len() as int)));
    }
    pieces
}

/// The number of bytes of the UTF-8 encoding of `s`.
pub fn byte_len(s: &str) -> (n: usize)
    ensures
        n == encode_utf8(s@).len(),
{
    s.as_bytes().len()
}

/// `s` with every `from` replaced by `to`.
pub open spec fn replaced(s: Seq<char>, from: char, to: char) -> Seq<char> {
    s.map_values(
        |c: char|
            if c == from {
                to
            } else {
                c
            },
    )
}

/// `s` with every `from` replaced by `to`.
pub fn replace_char(s: &str, from: char, to: char) -> (r: String)
    ensures
        r@ == replaced(s@, from, to),
{
    let v = chars_of(s);
    let mut r = String::new();
    let mut i: usize = 0;
    while i < v.len()
        invariant
            i <= v.len(),
            r@ == replaced(v@.take(i as int), from, to),
        decreases v.len() - i,
    {
        let c = if v[i] == from {
            to
        } else {
            v[i]
        };
        push_char(&mut r, c);
        proof {
            assert(replaced(v@.take(i + 1), from, to) =~= replaced(v@.take(i as int), from, to).push(
                c,
            ));
        }
        i = i + 1;
    }
    proof {
        assert(v@.take(v.len() as int) =~= v@);
    }
    r
}

/// What follows the first `n` characters of `s`.
pub fn text_after(s: &str, n: usize) -> (r: String)
    requires
        n <= s@.len(),
    ensures
        r@ == s@.skip(n as int),
{
    let v = chars_of(s);
    text_of(&v, n, v.len())
}

/// The number of characters of `s`.
pub fn char_len(s: &str) -> (n: usize)
    ensures
        n == s@.len(),
{
    chars_of(s).len()
}

/// A text in lower case, as Unicode defines it.
pub uninterp spec fn lowercase(s: Seq<char>) -> Seq<char>;

/// `str::to_lowercase`: the lower-case form of the text, which depends on
/// the text alone and is named [`lowercase`].
#[verifier::external_body]
pub(crate) fn to_lowercase(s: &str) -> (r: String)
    ensures
        r@ == lowercase(s@),
{
    s.to_lowercase()
}

/// The decimal digits of `n`.
pub open spec fn decimal(n: nat) -> Seq<char>
    decreases n,
{
    if n < 10 {
        seq![digit(n)]
    } else {
        decimal(n / 10).push(digit(n % 10))
    }
}

/// The character of a digit.
pub open spec fn digit(d: nat) -> char {
    if d == 0 {
        '0'
    } else if d == 1 {
        '1'
    } else if d == 2 {
        '2'
    } else if d == 3 {
        '3'
    } else if d == 4 {
        '4'
    } else if d == 5 {
        '5'
    } else if d == 6 {
        '6'
    } else if d == 7 {
        '7'
    } else if d == 8 {
        '8'
    } else {
        '9'
    }
}

fn digit_of(d: u32) -> (c: char)
    requires
        d < 10,
    ensures
        c == digit(d as nat),
{
    if d == 0 {
        '0'
    } else if d == 1 {
        '1'
    } else if d == 2 {
        '2'
    } else if d == 3 {
        '3'
    } else if d == 4 {
        '4'
    } else if d == 5 {
        '5'
    } else if d == 6 {
        '6'
    } else if d == 7 {
        '7'
    } else if d == 8 {
        '8'
    } else {
        '9'
    }
}

/// `n` written in decimal digits.
pub fn decimal_of(n: u32) -> (r: String)
    ensures
        r@ == decimal(n as nat),
    decreases n,
{
    if n < 10 {
        let mut r = String::new();
        push_char(&mut r, digit_of(n));
        r
    } else {
        let mut r = decimal_of(n / 10);
        push_char(&mut r, digit_of(n % 10));
        r
    }
}

} // verus!
