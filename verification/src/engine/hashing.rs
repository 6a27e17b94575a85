//! Content hashes: of file contents, of a list of input files, of a
//! command, and of a task (its command, its inputs and the hashes of its
//! dependencies).
use crate::engine::digest::{hex_encode, hex_lower, is_hex_hash, lemma_hex_lower, sha256, sha256_digest};
use crate::text::{lemma_str_lt_order, str_equal, str_less, str_lt};
use vstd::multiset::Multiset;
use vstd::prelude::*;
use vstd::utf8::encode_utf8;

verus! {

broadcast use vstd::seq_lib::group_to_multiset_ensures;

/// The lower-case hex SHA-256 digest of the UTF-8 encoding of `text`.
pub open spec fn digest_of(text: Seq<char>) -> Seq<char> {
    hex_lower(sha256(encode_utf8(text)))
}

/// The hex digest of the bytes of a file.
pub fn hash_content(data: &[u8]) -> (h: String)
    ensures
        h@ == hex_lower(sha256(data@)),
        is_hex_hash(h@),
{
    let d = sha256_digest(data);
    proof {
        lemma_hex_lower(d@);
    }
    hex_encode(d.as_slice())
}

/// The hex digest of a command.
pub fn hash_command(command: &str) -> (h: String)
    ensures
        h@ == digest_of(command@),
        is_hex_hash(h@),
{
    let d = sha256_digest(command.as_bytes());
    proof {
        lemma_hex_lower(d@);
    }
    hex_encode(d.as_slice())
}

/// One input file: its path and, when the file exists, the hash of its
/// content.
pub open spec fn file_list_text(entries: Seq<(Seq<char>, Option<Seq<char>>)>) -> Seq<char>
    decreases entries.len(),
{
    if entries.len() == 0 {
        Seq::empty()
    } else {
        let (path, hash) = entries.last();
        file_list_text(entries.drop_last()) + path + seq!['\0'] + (match hash {
            Some(h) => h,
            None => "<missing>"@,
        }) + seq!['\0']
    }
}

/// The hash of a list of input files, taken in the order given: each
/// path, a NUL, the file's hash (`<missing>` for a file that does not
/// exist) and a NUL.
pub fn hash_file_list(entries: &[(String, Option<String>)]) -> (h: String)
    ensures
        h@ == digest_of(
            file_list_text(
                entries@.map_values(
                    |e: (String, Option<String>)|
                        (
                            e.0@,
                            match e.1 {
                                Some(s) => Some(s@),
                                None => None,
                            },
                        ),
                ),
            ),
        ),
        is_hex_hash(h@),
{
    let ghost es = entries@.map_values(
        |e: (String, Option<String>)|
            (
                e.0@,
                match e.1 {
                    Some(s) => Some(s@),
                    None => None,
                },
            ),
    );
    let mut text = String::new();
    let mut i: usize = 0;
    while i < entries.len()
        invariant
            es == entries@.map_values(
                |e: (String, Option<String>)|
                    (
                        e.0@,
                        match e.1 {
                            Some(s) => Some(s@),
                            None => None,
                        },
                    ),
            ),
            0 <= i <= entries@.len(),
            text@ == file_list_text(es.take(i as int)),
        decreases entries.len() - i,
    {
        let ghost before = text@;
        text.append(entries[i].0.as_str());
        text.append("\0");
        match &entries[i].1 {
            Some(h) => text.append(h.as_str()),
            None => text.append("<missing>"),
        }
        text.append("\0");
        proof {
            reveal_strlit("\0");
            assert(es.take(i + 1).drop_last() =~= es.take(i as int));
            assert(es.take(i + 1).last() == es[i as int]);
            assert(text@ =~= file_list_text(es.take(i + 1)));
        }
        i = i + 1;
    }
    assert(es.take(i as int) =~= es);
    let d = sha256_digest(text.as_str().as_bytes());
    proof {
        lemma_hex_lower(d@);
    }
    hex_encode(d.as_slice())
}

/// The order of `(name, hash)` pairs: by name, then by hash.
pub open spec fn pair_lt(a: (Seq<char>, Seq<char>), b: (Seq<char>, Seq<char>)) -> bool {
    str_lt(a.0, b.0) || (a.0 == b.0 && str_lt(a.1, b.1))
}

/// No pair comes before an earlier one.
pub open spec fn pairs_sorted(s: Seq<(Seq<char>, Seq<char>)>) -> bool {
    forall|i: int, j: int| 0 <= i < j < s.len() ==> !pair_lt(#[trigger] s[j], #[trigger] s[i])
}

/// The pairs of a multiset in ascending order.
pub open spec fn sorted_form(m: Multiset<(Seq<char>, Seq<char>)>) -> Seq<(Seq<char>, Seq<char>)> {
    choose|t: Seq<(Seq<char>, Seq<char>)>| pairs_sorted(t) && t.to_multiset() == m
}

/// The dependency part of a task's hashed text: `name:hash` and a newline
/// for each dependency.
pub open spec fn deps_text(ds: Seq<(Seq<char>, Seq<char>)>) -> Seq<char>
    decreases ds.len(),
{
    if ds.len() == 0 {
        Seq::empty()
    } else {
        deps_text(ds.drop_last()) + ds.last().0 + seq![':'] + ds.last().1 + seq!['\n']
    }
}

/// The text whose digest is a task's hash.
pub open spec fn task_text(command: Seq<char>, input_hash: Seq<char>, deps: Seq<(Seq<char>, Seq<char>)>) -> Seq<char> {
    "cmd:"@ + command + "\ninputs:"@ + input_hash + "\ndeps:"@ + deps_text(sorted_form(deps.to_multiset()))
}

/// The views of a list of (name, hash) pairs.
pub open spec fn pair_views(v: Seq<(String, String)>) -> Seq<(Seq<char>, Seq<char>)> {
    v.map_values(|p: (String, String)| (p.0@, p.1@))
}

proof fn lemma_pair_order(a: (Seq<char>, Seq<char>), b: (Seq<char>, Seq<char>), c: (Seq<char>, Seq<char>))
    ensures
        a == b || pair_lt(a, b) || pair_lt(b, a),
        !(pair_lt(a, b) && pair_lt(b, a)),
        !pair_lt(a, a),
        pair_lt(a, b) && pair_lt(b, c) ==> pair_lt(a, c),
{
    lemma_str_lt_order(a.0, b.0, c.0);
    lemma_str_lt_order(a.1, b.1, c.1);
    lemma_str_lt_order(b.0, a.0, c.0);
    lemma_str_lt_order(a.0, a.0, a.0);
    lemma_str_lt_order(a.1, a.1, a.1);
    lemma_str_lt_order(b.1, a.1, c.1);
}

/// Two sorted sequences with the same elements are equal.
pub proof fn lemma_sorted_unique(a: Seq<(Seq<char>, Seq<char>)>, b: Seq<(Seq<char>, Seq<char>)>)
    requires
        pairs_sorted(a),
        pairs_sorted(b),
        a.to_multiset() == b.to_multiset(),
    ensures
        a == b,
    decreases a.len(),
{
    assert(a.len() == a.to_multiset().len());
    assert(b.len() == b.to_multiset().len());
    if a.len() > 0 {
        let x = a[0];
        let y = b[0];
        assert(a.to_multiset().count(x) > 0);
        assert(b.to_multiset().count(y) > 0);
        assert(b.contains(x));
        assert(a.contains(y));
        let j = choose|j: int| 0 <= j < b.len() && b[j] == x;
        let i = choose|i: int| 0 <= i < a.len() && a[i] == y;
        lemma_pair_order(x, y, x);
        if x != y {
            if pair_lt(x, y) {
                assert(j != 0);
                assert(!pair_lt(b[j], b[0]));
            } else {
                assert(i != 0);
                assert(!pair_lt(a[i], a[0]));
            }
        }
        let a1 = a.drop_first();
        let b1 = b.drop_first();
        vstd::seq_lib::to_multiset_remove(a, 0);
        vstd::seq_lib::to_multiset_remove(b, 0);
        assert(a.remove(0) =~= a1);
        assert(b.remove(0) =~= b1);
        assert forall|p: int, q: int| 0 <= p < q < a1.len() implies !pair_lt(#[trigger] a1[q], #[trigger] a1[p]) by {
            assert(a1[q] == a[q + 1] && a1[p] == a[p + 1]);
        }
        assert forall|p: int, q: int| 0 <= p < q < b1.len() implies !pair_lt(#[trigger] b1[q], #[trigger] b1[p]) by {
            assert(b1[q] == b[q + 1] && b1[p] == b[p + 1]);
        }
        lemma_sorted_unique(a1, b1);
        assert(a =~= seq![x] + a1);
        assert(b =~= seq![y] + b1);
    } else {
        assert(b.len() == 0);
        assert(a =~= b);
    }
}

/// `a < b` for pairs.
fn pair_less(a: &(String, String), b: &(String, String)) -> (r: bool)
    ensures
        r == pair_lt((a.0@, a.1@), (b.0@, b.1@)),
{
    if str_less(a.0.as_str(), b.0.as_str()) {
        true
    } else if str_equal(a.0.as_str(), b.0.as_str()) {
        str_less(a.1.as_str(), b.1.as_str())
    } else {
        false
    }
}

/// The pairs in ascending order.
fn sort_pairs(items: &[(String, String)]) -> (r: Vec<(String, String)>)
    ensures
        pairs_sorted(pair_views(r@)),
        pair_views(r@).to_multiset() == pair_views(items@).to_multiset(),
{
    let mut r: Vec<(String, String)> = Vec::new();
    let mut i: usize = 0;
    while i < items.len()
        invariant
            0 <= i <= items@.len(),
            pairs_sorted(pair_views(r@)),
            pair_views(r@).to_multiset() == pair_views(items@).take(i as int).to_multiset(),
        decreases items.len() - i,
    {
        let x = (items[i].0.clone(), items[i].1.clone());
        let ghost xv = (x.0@, x.1@);
        let mut pos: usize = 0;
        while pos < r.len() && !pair_less(&x, &r[pos])
            invariant
                0 <= pos <= r@.len(),
                xv == (x.0@, x.1@),
                forall|a: int| 0 <= a < pos ==> !pair_lt(xv, #[trigger] pair_views(r@)[a]),
            decreases r.len() - pos,
        {
            pos = pos + 1;
        }
        let ghost before = pair_views(r@);
        r.insert(pos, x);
        proof {
            let after = pair_views(r@);
            assert(after =~= before.insert(pos as int, xv));
            assert forall|a: int, b: int| 0 <= a < b < after.len() implies !pair_lt(#[trigger] after[b], #[trigger] after[a]) by {
                if a < pos && b == pos {
                    lemma_pair_order(before[a], xv, xv);
                } else if a == pos && b > pos {
                    if pos < before.len() {
                        assert(pair_lt(xv, before[pos as int]));
                        lemma_pair_order(before[b - 1], before[pos as int], xv);
                        lemma_pair_order(before[b - 1], xv, before[pos as int]);
                        lemma_pair_order(xv, before[pos as int], before[b - 1]);
                        if b - 1 > pos {
                            assert(!pair_lt(before[b - 1], before[pos as int]));
                        }
                    }
                } else if a < pos && b > pos {
                    assert(before[a] == after[a] && before[b - 1] == after[b]);
                } else if b < pos {
                    assert(before[a] == after[a] && before[b] == after[b]);
                } else {
                    assert(before[a - 1] == after[a] && before[b - 1] == after[b]);
                }
            }
            vstd::seq_lib::to_multiset_insert(before, pos as int, xv);
            let its = pair_views(items@);
            assert(its.take(i + 1) =~= its.take(i as int).push(xv));
        }
        i = i + 1;
    }
    assert(pair_views(items@).take(i as int) =~= pair_views(items@));
    r
}

/// The hash of a task: the digest of `cmd:` and the command, `\ninputs:`
/// and the input hash, `\ndeps:` and then, for each dependency in ascending
/// order of (name, hash), `name:hash` and a newline.
pub fn hash_task(command: &str, input_hash: &str, dep_hashes: &[(String, String)]) -> (h: String)
    ensures
        h@ == digest_of(task_text(command@, input_hash@, pair_views(dep_hashes@))),
        is_hex_hash(h@),
{
    let sorted = sort_pairs(dep_hashes);
    proof {
        let s = pair_views(sorted@);
        let d = pair_views(dep_hashes@);
        assert(pairs_sorted(s) && s.to_multiset() == d.to_multiset());
        let m = d.to_multiset();
        assert(pairs_sorted(sorted_form(m)) && sorted_form(m).to_multiset() == m);
        lemma_sorted_unique(s, sorted_form(m));
    }
    let mut text = String::from_str("cmd:");
    text.append(command);
    text.append("\ninputs:");
    text.append(input_hash);
    text.append("\ndeps:");
    let ghost head = text@;
    let ghost sv = pair_views(sorted@);
    let mut i: usize = 0;
    while i < sorted.len()
        invariant
            sv == pair_views(sorted@),
            0 <= i <= sorted@.len(),
            text@ == head + deps_text(sv.take(i as int)),
        decreases sorted.len() - i,
    {
        text.append(sorted[i].0.as_str());
        text.append(":");
        text.append(sorted[i].1.as_str());
        text.append("\n");
        proof {
            reveal_strlit(":");
            reveal_strlit("\n");
            assert(sv.take(i + 1).drop_last() =~= sv.take(i as int));
            assert(sv.take(i + 1).last() == (sorted@[i as int].0@, sorted@[i as int].1@));
            assert(text@ =~= head + deps_text(sv.take(i + 1)));
        }
        i = i + 1;
    }
    assert(sv.take(i as int) =~= sv);
    assert(text@ =~= task_text(command@, input_hash@, pair_views(dep_hashes@)));
    let d = sha256_digest(text.as_str().as_bytes());
    proof {
        lemma_hex_lower(d@);
    }
    hex_encode(d.as_slice())
}

/// The hash of a task does not depend on the order in which its
/// dependency hashes are given.
pub proof fn lemma_task_text_order_free(
    command: Seq<char>,
    input_hash: Seq<char>,
    a: Seq<(Seq<char>, Seq<char>)>,
    b: Seq<(Seq<char>, Seq<char>)>,
)
    requires
        a.to_multiset() == b.to_multiset(),
    ensures
        task_text(command, input_hash, a) == task_text(command, input_hash, b),
{
}

/// The text of two lists of input files one after the other is the text
/// of the first followed by the text of the second: every file goes into
/// the input hash, wherever it stands in the list.
pub proof fn lemma_file_list_text_split(
    a: Seq<(Seq<char>, Option<Seq<char>>)>,
    b: Seq<(Seq<char>, Option<Seq<char>>)>,
)
    ensures
        file_list_text(a + b) == file_list_text(a) + file_list_text(b),
    decreases b.len(),
{
    if b.len() == 0 {
        assert(a + b =~= a);
        assert(file_list_text(a) + file_list_text(b) =~= file_list_text(a));
    } else {
        let bd = b.drop_last();
        lemma_file_list_text_split(a, bd);
        assert((a + b).drop_last() =~= a + bd);
        assert((a + b).last() == b.last());
        let (path, hash) = b.last();
        let tail = path + seq!['\0'] + (match hash {
            Some(h) => h,
            None => "<missing>"@,
        }) + seq!['\0'];
        assert(file_list_text(a) + file_list_text(bd) + tail =~= file_list_text(a) + (
        file_list_text(bd) + tail));
    }
}

/// The text of one input file: its path, a NUL, its content hash
/// (`<missing>` for a file that does not exist) and a NUL.
pub proof fn lemma_file_list_text_one(path: Seq<char>, hash: Option<Seq<char>>)
    ensures
        file_list_text(seq![(path, hash)]) == path + seq!['\0'] + (match hash {
            Some(h) => h,
            None => "<missing>"@,
        }) + seq!['\0'],
{
    let e = seq![(path, hash)];
    assert(e.drop_last() =~= Seq::<(Seq<char>, Option<Seq<char>>)>::empty());
    assert(e.last() == (path, hash));
    assert(file_list_text(Seq::<(Seq<char>, Option<Seq<char>>)>::empty()) == Seq::<char>::empty());
    let t = path + seq!['\0'] + (match hash {
        Some(h) => h,
        None => "<missing>"@,
    }) + seq!['\0'];
    assert(Seq::<char>::empty() + t =~= t);
}

/// Two lists of input files that differ only in the content hash of one
/// file (two hashes of one length, as content hashes are) give different
/// texts, so a change to any one file reaches the input hash whenever the
/// digest tells the texts apart.
pub proof fn lemma_file_list_text_sees_every_hash(
    a: Seq<(Seq<char>, Option<Seq<char>>)>,
    path: Seq<char>,
    h1: Seq<char>,
    h2: Seq<char>,
    b: Seq<(Seq<char>, Option<Seq<char>>)>,
)
    requires
        h1 != h2,
        h1.len() == h2.len(),
    ensures
        file_list_text(a + seq![(path, Some(h1))] + b) != file_list_text(
            a + seq![(path, Some(h2))] + b,
        ),
{
    lemma_file_list_text_split(a + seq![(path, Some(h1))], b);
    lemma_file_list_text_split(a + seq![(path, Some(h2))], b);
    lemma_file_list_text_split(a, seq![(path, Some(h1))]);
    lemma_file_list_text_split(a, seq![(path, Some(h2))]);
    lemma_file_list_text_one(path, Some(h1));
    lemma_file_list_text_one(path, Some(h2));
    let ta = file_list_text(a);
    let tb = file_list_text(b);
    let t1 = path + seq!['\0'] + h1 + seq!['\0'];
    let t2 = path + seq!['\0'] + h2 + seq!['\0'];
    let x1 = ta + t1 + tb;
    let x2 = ta + t2 + tb;
    assert(!(h1 =~= h2));
    let i = choose|i: int| 0 <= i < h1.len() && h1[i] != h2[i];
    let off = ta.len() + path.len() + 1;
    assert(x1[off + i] == h1[i]);
    assert(x2[off + i] == h2[i]);
}

} // verus!
