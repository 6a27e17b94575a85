//! String helpers: equality and ordering of strings as Rust defines them
//! (on their UTF-8 bytes), substring search, and character access.
use vstd::prelude::*;
use vstd::utf8::*;

verus! {

broadcast use vstd::utf8::encode_utf8_decode_utf8;

/// The character sequences of a sequence of strings.
pub open spec fn views(v: Seq<String>) -> Seq<Seq<char>> {
    v.map_values(|s: String| s@)
}

/// A sequence of indices as mathematical integers.
pub open spec fn ints(v: Seq<usize>) -> Seq<int> {
    v.map_values(|x: usize| x as int)
}

/// Lexicographic order on byte sequences: `a` is a proper prefix of `b`, or
/// at the first position where they differ `a` has the smaller byte.
pub open spec fn bytes_lt(a: Seq<u8>, b: Seq<u8>) -> bool {
    exists|i: int| #[trigger] first_difference(a, b, i) && lt_at(a, b, i)
}

/// `i` is the length of the common prefix of `a` and `b`.
pub open spec fn first_difference(a: Seq<u8>, b: Seq<u8>, i: int) -> bool {
    &&& 0 <= i <= a.len()
    &&& i <= b.len()
    &&& forall|j: int| 0 <= j < i ==> a[j] == b[j]
    &&& (i == a.len() || i == b.len() || a[i] != b[i])
}

pub open spec fn lt_at(a: Seq<u8>, b: Seq<u8>, i: int) -> bool {
    (i == a.len() && i < b.len()) || (i < a.len() && i < b.len() && a[i] < b[i])
}

/// The order of Rust's `str` and `String`: lexicographic on the UTF-8 bytes.
pub open spec fn str_lt(a: Seq<char>, b: Seq<char>) -> bool {
    bytes_lt(encode_utf8(a), encode_utf8(b))
}

/// `s` holds `p` as a contiguous part.
pub open spec fn has_substring(s: Seq<u8>, p: Seq<u8>) -> bool {
    exists|i: int| 0 <= i <= s.len() - p.len() && #[trigger] s.subrange(i, i + p.len()) == p
}

/// Every two sequences have a first difference.
pub proof fn lemma_first_difference_exists(a: Seq<u8>, b: Seq<u8>) -> (i: int)
    ensures
        first_difference(a, b, i),
    decreases a.len(),
{
    if a.len() == 0 || b.len() == 0 || a[0] != b[0] {
        0
    } else {
        let k = lemma_first_difference_exists(a.drop_first(), b.drop_first());
        assert forall|j: int| 0 <= j < k + 1 implies a[j] == b[j] by {
            if j > 0 {
                assert(a.drop_first()[j - 1] == b.drop_first()[j - 1]);
            }
        }
        k + 1
    }
}

/// The first difference is unique.
pub proof fn lemma_first_difference_unique(a: Seq<u8>, b: Seq<u8>, i: int, j: int)
    requires
        first_difference(a, b, i),
        first_difference(a, b, j),
    ensures
        i == j,
{
    if i < j {
        assert(a[i] == b[i]);
    } else if j < i {
        assert(a[j] == b[j]);
    }
}

/// `bytes_lt` is a strict total order.
pub proof fn lemma_bytes_lt_trichotomy(a: Seq<u8>, b: Seq<u8>)
    ensures
        a == b || bytes_lt(a, b) || bytes_lt(b, a),
        !(bytes_lt(a, b) && bytes_lt(b, a)),
        !bytes_lt(a, a),
{
    let i = lemma_first_difference_exists(a, b);
    assert(first_difference(b, a, i));
    if bytes_lt(a, b) && bytes_lt(b, a) {
        let k1 = choose|k: int| #[trigger] first_difference(a, b, k) && lt_at(a, b, k);
        let k2 = choose|k: int| #[trigger] first_difference(b, a, k) && lt_at(b, a, k);
        assert(first_difference(a, b, k2));
        lemma_first_difference_unique(a, b, k1, k2);
    }
    if !lt_at(a, b, i) && !lt_at(b, a, i) {
        assert(i == a.len() && i == b.len());
        assert(a =~= b);
    }
    if bytes_lt(a, a) {
        let k = choose|k: int| #[trigger] first_difference(a, a, k) && lt_at(a, a, k);
    }
}

pub proof fn lemma_bytes_lt_transitive(a: Seq<u8>, b: Seq<u8>, c: Seq<u8>)
    requires
        bytes_lt(a, b),
        bytes_lt(b, c),
    ensures
        bytes_lt(a, c),
{
    let i = choose|k: int| #[trigger] first_difference(a, b, k) && lt_at(a, b, k);
    let j = choose|k: int| #[trigger] first_difference(b, c, k) && lt_at(b, c, k);
    let m = if i < j { i } else { j };
    assert(first_difference(a, c, m));
    assert(lt_at(a, c, m));
}

/// `str_lt` is a strict total order on character sequences.
pub proof fn lemma_str_lt_order(a: Seq<char>, b: Seq<char>, c: Seq<char>)
    ensures
        a == b || str_lt(a, b) || str_lt(b, a),
        !(str_lt(a, b) && str_lt(b, a)),
        !str_lt(a, a),
        str_lt(a, b) && str_lt(b, c) ==> str_lt(a, c),
{
    lemma_bytes_lt_trichotomy(encode_utf8(a), encode_utf8(b));
    lemma_bytes_lt_trichotomy(encode_utf8(a), encode_utf8(a));
    if encode_utf8(a) == encode_utf8(b) {
        assert(decode_utf8(encode_utf8(a)) == a);
        assert(decode_utf8(encode_utf8(b)) == b);
    }
    if str_lt(a, b) && str_lt(b, c) {
        lemma_bytes_lt_transitive(encode_utf8(a), encode_utf8(b), encode_utf8(c));
    }
}

/// Byte-wise comparison of two byte slices.
fn bytes_less(a: &[u8], b: &[u8]) -> (r: bool)
    ensures
        r == bytes_lt(a@, b@),
{
    let mut i: usize = 0;
    while i < a.len() && i < b.len() && a[i] == b[i]
        invariant
            0 <= i <= a@.len(),
            i <= b@.len(),
            forall|j: int| 0 <= j < i ==> a@[j] == b@[j],
        decreases a.len() - i,
    {
        i = i + 1;
    }
    assert(first_difference(a@, b@, i as int));
    let r = (i == a.len() && i < b.len()) || (i < a.len() && i < b.len() && a[i] < b[i]);
    proof {
        if bytes_lt(a@, b@) {
            let k = choose|k: int| #[trigger] first_difference(a@, b@, k) && lt_at(a@, b@, k);
            lemma_first_difference_unique(a@, b@, k, i as int);
        }
    }
    r
}

/// `a < b` for strings, as Rust orders them.
pub fn str_less(a: &str, b: &str) -> (r: bool)
    ensures
        r == str_lt(a@, b@),
{
    bytes_less(a.as_bytes(), b.as_bytes())
}

/// `a == b` for strings.
pub fn str_equal(a: &str, b: &str) -> (r: bool)
    ensures
        r == (a@ == b@),
{
    let x = a.as_bytes();
    let y = b.as_bytes();
    assert(x@ == encode_utf8(a@));
    assert(y@ == encode_utf8(b@));
    if x.len() != y.len() {
        proof {
            if a@ == b@ {
                assert(x@ == y@);
            }
        }
        return false;
    }
    let mut i: usize = 0;
    while i < x.len()
        invariant
            x@ == encode_utf8(a@),
            y@ == encode_utf8(b@),
            x@.len() == y@.len(),
            0 <= i <= x@.len(),
            forall|j: int| 0 <= j < i ==> x@[j] == y@[j],
        decreases x.len() - i,
    {
        if x[i] != y[i] {
            proof {
                if a@ == b@ {
                    assert(x@ == y@);
                }
            }
            return false;
        }
        i = i + 1;
    }
    assert(x@ =~= y@);
    assert(decode_utf8(encode_utf8(a@)) == a@);
    assert(decode_utf8(encode_utf8(b@)) == b@);
    true
}

/// `s.contains(p)` for strings: `p` occurs in `s` as a contiguous byte run.
pub fn str_contains(s: &str, p: &str) -> (r: bool)
    ensures
        r == has_substring(encode_utf8(s@), encode_utf8(p@)),
{
    let x = s.as_bytes();
    let y = p.as_bytes();
    assert(x@ == encode_utf8(s@));
    assert(y@ == encode_utf8(p@));
    if y.len() > x.len() {
        return false;
    }
    let mut i: usize = 0;
    while i <= x.len() - y.len()
        invariant
            x@ == encode_utf8(s@),
            y@ == encode_utf8(p@),
            y@.len() <= x@.len(),
            0 <= i <= x@.len() - y@.len() + 1,
            forall|k: int| 0 <= k < i ==> #[trigger] x@.subrange(k, k + y@.len()) != y@,
        decreases x.len() - y.len() + 1 - i,
    {
        let mut j: usize = 0;
        while j < y.len() && x[i + j] == y[j]
            invariant
                x@ == encode_utf8(s@),
                y@ == encode_utf8(p@),
                x@.len() == x.len(),
                y@.len() <= x@.len(),
                i + y@.len() <= x@.len(),
                0 <= j <= y@.len(),
                forall|m: int| 0 <= m < j ==> x@[i + m] == y@[m],
            decreases y.len() - j,
        {
            j = j + 1;
        }
        if j == y.len() {
            assert(x@.subrange(i as int, i + y@.len()) =~= y@);
            assert(has_substring(x@, y@));
            assert(has_substring(encode_utf8(s@), encode_utf8(p@)));
            return true;
        }
        assert(x@.subrange(i as int, i + y@.len())[j as int] != y@[j as int]);
        i = i + 1;
    }
    false
}

/// `String::push`: appends one character.
#[verifier::external_body]
pub(crate) fn push_char(s: &mut String, c: char)
    ensures
        final(s)@ == old(s)@.push(c),
{
    s.push(c)
}

/// The characters of a string, in order.
pub fn chars_of(s: &str) -> (r: Vec<char>)
    ensures
        r@ == s@,
{
    let mut r: Vec<char> = Vec::new();
    for c in it: s.chars()
        invariant
            r@ == it.seq().take(it.index() as int),
    {
        r.push(c);
    }
    r
}

/// `items` with `sep` between each two of them.
pub open spec fn join_with(items: Seq<Seq<char>>, sep: Seq<char>) -> Seq<char>
    decreases items.len(),
{
    if items.len() == 0 {
        Seq::empty()
    } else if items.len() == 1 {
        items[0]
    } else {
        join_with(items.drop_last(), sep) + sep + items.last()
    }
}

/// `items.join(sep)`.
pub fn join(items: &[String], sep: &str) -> (r: String)
    ensures
        r@ == join_with(views(items@), sep@),
{
    let ghost v = views(items@);
    let mut r = String::new();
    let mut i: usize = 0;
    while i < items.len()
        invariant
            v == views(items@),
            0 <= i <= items@.len(),
            r@ == join_with(v.take(i as int), sep@),
        decreases items.len() - i,
    {
        if i > 0 {
            r.append(sep);
        }
        r.append(items[i].as_str());
        proof {
            assert(v.take(i + 1).drop_last() =~= v.take(i as int));
            assert(v.take(i + 1).last() == items@[i as int]@);
            if i == 0 {
                assert(r@ =~= join_with(v.take(1), sep@));
            } else {
                assert(r@ =~= join_with(v.take(i + 1), sep@));
            }
        }
        i = i + 1;
    }
    assert(v.take(i as int) =~= v);
    r
}

/// The decimal digit for `d < 10`.
pub open spec fn digit(d: nat) -> char {
    ((48 + d) as u8) as char
}

/// The decimal numeral of `n`, without leading zeros.
pub open spec fn decimal_text(n: nat) -> Seq<char>
    decreases n,
{
    if n < 10 {
        seq![digit(n)]
    } else {
        decimal_text(n / 10).push(digit(n % 10))
    }
}

/// `n.to_string()` for a count.
pub fn decimal(n: usize) -> (s: String)
    ensures
        s@ == decimal_text(n as nat),
    decreases n,
{
    let d = (n % 10) as u8;
    let c = (48u8 + d) as char;
    if n < 10 {
        let mut s = String::new();
        push_char(&mut s, c);
        assert(s@ =~= seq![digit(n as nat)]);
        s
    } else {
        let mut s = decimal(n / 10);
        push_char(&mut s, c);
        s
    }
}

} // verus!
