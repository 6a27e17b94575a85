//! The text formats of the cache: the manifest of a cache entry (one
//! `path<TAB>hash` line per input file) and the table of the hash last built
//! for each task (one `task<TAB>hash` line per task).
use crate::text::{chars_of, push_char, str_equal, views};
use vstd::prelude::*;
use vstd::utf8::{decode_utf8, encode_utf8, is_char_boundary};

verus! {

/// An input file and the hash of its content.
#[derive(Debug, Clone)]
pub struct FileHash {
    pub path: String,
    pub hash: String,
}

/// The index of the first `c` in `s`, or -1.
pub open spec fn find_char(s: Seq<char>, c: char) -> int
    decreases s.len(),
{
    if s.len() == 0 {
        -1
    } else if s[0] == c {
        0
    } else {
        let r = find_char(s.drop_first(), c);
        if r < 0 {
            -1
        } else {
            r + 1
        }
    }
}

/// `find_char` gives -1 when `c` does not occur, else the index of its
/// first occurrence.
pub proof fn lemma_find_char(s: Seq<char>, c: char)
    ensures
        -1 <= find_char(s, c) < s.len(),
        find_char(s, c) >= 0 ==> s[find_char(s, c)] == c,
        forall|k: int| 0 <= k < s.len() && (find_char(s, c) < 0 || k < find_char(s, c)) ==> s[k] != c,
    decreases s.len(),
{
    if s.len() > 0 && s[0] != c {
        lemma_find_char(s.drop_first(), c);
        assert forall|k: int| 0 <= k < s.len() && (find_char(s, c) < 0 || k < find_char(s, c)) implies s[k] != c by {
            if k > 0 {
                assert(s[k] == s.drop_first()[k - 1]);
            }
        }
    }
}

/// A line without the carriage return that ended it.
pub open spec fn strip_cr(line: Seq<char>) -> Seq<char> {
    if line.len() > 0 && line.last() == '\r' {
        line.drop_last()
    } else {
        line
    }
}

/// The lines of `s` as `str::lines` gives them: split at each `\n`, with a
/// `\r` just before the `\n` dropped; a final `\n` ends the last line and
/// starts no new one.
pub open spec fn split_lines(s: Seq<char>) -> Seq<Seq<char>>
    decreases s.len(),
{
    if s.len() == 0 {
        Seq::empty()
    } else {
        let i = find_char(s, '\n');
        if i < 0 {
            seq![s]
        } else {
            proof {
                lemma_find_char(s, '\n');
            }
            seq![strip_cr(s.take(i))] + split_lines(s.skip(i + 1))
        }
    }
}

/// A line split at its first tab, as `splitn(2, '\t')` does; `None` for a
/// line without a tab.
pub open spec fn parse_entry(line: Seq<char>) -> Option<(Seq<char>, Seq<char>)> {
    let t = find_char(line, '\t');
    if t < 0 {
        None
    } else {
        Some((line.take(t), line.skip(t + 1)))
    }
}

/// The text before the first tab of a line (empty for a line without tab).
pub open spec fn entry_key(line: Seq<char>) -> Seq<char> {
    match parse_entry(line) {
        Some(e) => e.0,
        None => Seq::empty(),
    }
}

/// The entries of the lines that have a tab, in order.
pub open spec fn parse_entries(lines: Seq<Seq<char>>) -> Seq<(Seq<char>, Seq<char>)>
    decreases lines.len(),
{
    if lines.len() == 0 {
        Seq::empty()
    } else {
        match parse_entry(lines[0]) {
            Some(e) => seq![e] + parse_entries(lines.drop_first()),
            None => parse_entries(lines.drop_first()),
        }
    }
}

/// The entries of a manifest or task table.
pub open spec fn parse_table(content: Seq<char>) -> Seq<(Seq<char>, Seq<char>)> {
    parse_entries(split_lines(content))
}

/// One `key<TAB>value<NEWLINE>` line.
pub open spec fn entry_line(key: Seq<char>, value: Seq<char>) -> Seq<char> {
    key + seq!['\t'] + value + seq!['\n']
}

/// The lines of the entries, one after the other.
pub open spec fn render_entries(entries: Seq<(Seq<char>, Seq<char>)>) -> Seq<char>
    decreases entries.len(),
{
    if entries.len() == 0 {
        Seq::empty()
    } else {
        render_entries(entries.drop_last()) + entry_line(entries.last().0, entries.last().1)
    }
}

/// The (path, hash) pairs of a list of file hashes.
pub open spec fn file_entries(files: Seq<FileHash>) -> Seq<(Seq<char>, Seq<char>)> {
    files.map_values(|f: FileHash| (f.path@, f.hash@))
}

/// The value of the first entry for `key`.
pub open spec fn lookup_entry(entries: Seq<(Seq<char>, Seq<char>)>, key: Seq<char>) -> Option<
    Seq<char>,
>
    decreases entries.len(),
{
    if entries.len() == 0 {
        None
    } else if entries[0].0 == key {
        Some(entries[0].1)
    } else {
        lookup_entry(entries.drop_first(), key)
    }
}

/// `prefix` begins `s`.
pub open spec fn starts_with(s: Seq<char>, prefix: Seq<char>) -> bool {
    prefix.len() <= s.len() && s.take(prefix.len() as int) == prefix
}

/// The lines joined by `\n`, with a `\n` added when the result does not
/// already end with one.
pub open spec fn join_lines(lines: Seq<Seq<char>>) -> Seq<char>
    decreases lines.len(),
{
    if lines.len() == 0 {
        Seq::empty()
    } else if lines.len() == 1 {
        lines[0]
    } else {
        join_lines(lines.drop_last()) + seq!['\n'] + lines.last()
    }
}

/// `s` with a final `\n` when it has none.
pub open spec fn newline_terminated(s: Seq<char>) -> Seq<char> {
    if s.len() > 0 && s.last() == '\n' {
        s
    } else {
        s.push('\n')
    }
}

/// The lines that do not start with `prefix`, in order.
pub open spec fn lines_without_prefix(lines: Seq<Seq<char>>, prefix: Seq<char>) -> Seq<Seq<char>>
    decreases lines.len(),
{
    if lines.len() == 0 {
        Seq::empty()
    } else {
        let r = lines_without_prefix(lines.drop_last(), prefix);
        if starts_with(lines.last(), prefix) {
            r
        } else {
            r.push(lines.last())
        }
    }
}

/// The task table after recording `hash` for `task`: the lines that start
/// with `task<TAB>` are dropped, the line `task<TAB>hash` is added at the
/// end, and the lines are joined by `\n` with a final `\n`.
pub open spec fn updated_table(content: Seq<char>, task: Seq<char>, hash: Seq<char>) -> Seq<char> {
    let kept = lines_without_prefix(split_lines(content), task + seq!['\t']);
    newline_terminated(join_lines(kept.push(task + seq!['\t'] + hash)))
}

proof fn lemma_find_char_none(s: Seq<char>, c: char, j: int)
    requires
        0 <= j <= s.len(),
        forall|k: int| 0 <= k < j ==> s[k] != c,
    ensures
        j == s.len() ==> find_char(s, c) == -1,
        j < s.len() && s[j] == c ==> find_char(s, c) == j,
    decreases j,
{
    if j > 0 {
        let t = s.drop_first();
        assert forall|k: int| 0 <= k < j - 1 implies t[k] != c by {
            assert(t[k] == s[k + 1]);
        }
        lemma_find_char_none(t, c, j - 1);
    } else if s.len() > 0 && s[0] == c {
    }
}

/// The lines of a string.
pub fn lines_of(s: &str) -> (r: Vec<String>)
    ensures
        views(r@) == split_lines(s@),
{
    let chars = chars_of(s);
    let n = chars.len();
    let mut r: Vec<String> = Vec::new();
    let mut pos: usize = 0;
    assert(chars@.skip(0) =~= s@);
    while pos < n
        invariant
            chars@ == s@,
            n == chars@.len(),
            0 <= pos <= n,
            split_lines(s@) == views(r@) + split_lines(chars@.skip(pos as int)),
        decreases n - pos,
    {
        let ghost rest = chars@.skip(pos as int);
        let mut j: usize = pos;
        while j < n && chars[j] != '\n'
            invariant
                chars@ == s@,
                n == chars@.len(),
                0 <= pos <= j <= n,
                rest == chars@.skip(pos as int),
                forall|k: int| pos <= k < j ==> chars@[k] != '\n',
            decreases n - j,
        {
            j = j + 1;
        }
        proof {
            assert forall|k: int| 0 <= k < j - pos implies rest[k] != '\n' by {
                assert(rest[k] == chars@[pos + k]);
            }
            lemma_find_char_none(rest, '\n', j - pos);
        }
        // The line holds the characters up to the newline (or the end), less
        // a carriage return just before the newline.
        let mut end = j;
        if j < n && j > pos && chars[j - 1] == '\r' {
            end = j - 1;
        }
        let mut line = String::new();
        let mut k: usize = pos;
        while k < end
            invariant
                chars@ == s@,
                0 <= pos <= k <= end <= n,
                n == chars@.len(),
                line@ == chars@.subrange(pos as int, k as int),
            decreases end - k,
        {
            push_char(&mut line, chars[k]);
            assert(chars@.subrange(pos as int, k + 1) =~= chars@.subrange(pos as int, k as int).push(
                chars@[k as int],
            ));
            k = k + 1;
        }
        proof {
            if j < n {
                assert(rest[j - pos] == '\n');
                assert(rest.take(j - pos) =~= chars@.subrange(pos as int, j as int));
                if j > pos && chars@[j - 1] == '\r' {
                    assert(strip_cr(rest.take(j - pos)) =~= chars@.subrange(pos as int, j - 1));
                } else {
                    assert(strip_cr(rest.take(j - pos)) =~= chars@.subrange(pos as int, j as int));
                }
                assert(rest.skip(j - pos + 1) =~= chars@.skip(j + 1));
                assert(split_lines(rest) == seq![line@] + split_lines(chars@.skip(j + 1)));
            } else {
                assert(rest =~= chars@.subrange(pos as int, n as int));
                assert(split_lines(rest) == seq![line@]);
                assert(chars@.skip(n as int) =~= Seq::<char>::empty());
            }
        }
        let ghost before = views(r@);
        r.push(line);
        proof {
            assert(views(r@) =~= before.push(line@));
        }
        if j < n {
            pos = j + 1;
        } else {
            pos = n;
        }
        proof {
            assert(split_lines(s@) == views(r@) + split_lines(chars@.skip(pos as int)));
        }
    }
    proof {
        assert(chars@.skip(n as int) =~= Seq::<char>::empty());
        assert(views(r@) + Seq::<Seq<char>>::empty() =~= views(r@));
    }
    r
}

/// The characters `from..to` of `chars` as a string.
fn substring(chars: &Vec<char>, from: usize, to: usize) -> (r: String)
    requires
        from <= to <= chars@.len(),
    ensures
        r@ == chars@.subrange(from as int, to as int),
{
    let mut r = String::new();
    let mut k: usize = from;
    while k < to
        invariant
            from <= k <= to <= chars@.len(),
            r@ == chars@.subrange(from as int, k as int),
        decreases to - k,
    {
        push_char(&mut r, chars[k]);
        assert(chars@.subrange(from as int, k + 1) =~= chars@.subrange(from as int, k as int).push(
            chars@[k as int],
        ));
        k = k + 1;
    }
    r
}

/// A line split at its first tab.
fn split_entry(line: &str) -> (r: Option<(String, String)>)
    ensures
        match r {
            Some((a, b)) => parse_entry(line@) == Some((a@, b@)),
            None => parse_entry(line@) is None,
        },
{
    let chars = chars_of(line);
    let n = chars.len();
    let mut t: usize = 0;
    while t < n && chars[t] != '\t'
        invariant
            chars@ == line@,
            n == chars@.len(),
            0 <= t <= n,
            forall|k: int| 0 <= k < t ==> chars@[k] != '\t',
        decreases n - t,
    {
        t = t + 1;
    }
    proof {
        lemma_find_char_none(line@, '\t', t as int);
    }
    if t == n {
        return None;
    }
    let key = substring(&chars, 0, t);
    let value = substring(&chars, t + 1, n);
    proof {
        assert(key@ =~= line@.take(t as int));
        assert(value@ =~= line@.skip(t + 1));
    }
    Some((key, value))
}

/// The entries of a manifest or task table: its lines that hold a tab,
/// split at the first tab.
fn table_entries(content: &str) -> (r: Vec<(String, String)>)
    ensures
        r@.map_values(|e: (String, String)| (e.0@, e.1@)) == parse_table(content@),
{
    let lines = lines_of(content);
    let ghost ls = views(lines@);
    let mut r: Vec<(String, String)> = Vec::new();
    let mut i: usize = 0;
    assert(ls.skip(0) =~= ls);
    while i < lines.len()
        invariant
            ls == views(lines@),
            ls == split_lines(content@),
            0 <= i <= lines@.len(),
            parse_table(content@) == r@.map_values(|e: (String, String)| (e.0@, e.1@))
                + parse_entries(ls.skip(i as int)),
        decreases lines.len() - i,
    {
        let ghost before = r@.map_values(|e: (String, String)| (e.0@, e.1@));
        proof {
            assert(ls.skip(i as int).drop_first() =~= ls.skip(i + 1));
            assert(ls.skip(i as int)[0] == lines@[i as int]@);
        }
        match split_entry(lines[i].as_str()) {
            Some(e) => {
                r.push(e);
                proof {
                    assert(r@.map_values(|e: (String, String)| (e.0@, e.1@)) =~= before + seq![
                        (e.0@, e.1@),
                    ]);
                }
            },
            None => {},
        }
        i = i + 1;
    }
    proof {
        assert(ls.skip(i as int) =~= Seq::<Seq<char>>::empty());
    }
    r
}

/// Parses a manifest: one file hash per line that holds a tab, the path
/// before the first tab and the hash after it.
pub fn parse_manifest(content: &str) -> (files: Vec<FileHash>)
    ensures
        file_entries(files@) == parse_table(content@),
{
    let entries = table_entries(content);
    let ghost es = entries@.map_values(|e: (String, String)| (e.0@, e.1@));
    let mut files: Vec<FileHash> = Vec::new();
    let mut i: usize = 0;
    while i < entries.len()
        invariant
            es == entries@.map_values(|e: (String, String)| (e.0@, e.1@)),
            0 <= i <= entries@.len(),
            files@.len() == i,
            file_entries(files@) == es.take(i as int),
        decreases entries.len() - i,
    {
        let f = FileHash { path: entries[i].0.clone(), hash: entries[i].1.clone() };
        let ghost old_files = files@;
        assert(es[i as int] == (entries@[i as int].0@, entries@[i as int].1@));
        files.push(f);
        proof {
            assert forall|j: int| 0 <= j < i + 1 implies #[trigger] file_entries(files@)[j] == es.take(
                i + 1,
            )[j] by {
                if j < i {
                    assert(files@[j] == old_files[j]);
                    assert(file_entries(old_files)[j] == es.take(i as int)[j]);
                }
            }
            assert(file_entries(files@) =~= es.take(i + 1));
        }
        i = i + 1;
    }
    assert(es.take(i as int) =~= es);
    files
}

/// Writes a manifest: one `path<TAB>hash` line per file.
pub fn render_manifest(files: &[FileHash]) -> (content: String)
    ensures
        content@ == render_entries(file_entries(files@)),
{
    let mut content = String::new();
    let mut i: usize = 0;
    while i < files.len()
        invariant
            0 <= i <= files@.len(),
            content@ == render_entries(file_entries(files@).take(i as int)),
        decreases files.len() - i,
    {
        content.append(files[i].path.as_str());
        push_char(&mut content, '\t');
        content.append(files[i].hash.as_str());
        push_char(&mut content, '\n');
        proof {
            let es = file_entries(files@);
            assert(es.take(i + 1).drop_last() =~= es.take(i as int));
            assert(es[i as int] == (files@[i as int].path@, files@[i as int].hash@));
            assert(content@ =~= render_entries(es.take(i as int)) + entry_line(
                files@[i as int].path@,
                files@[i as int].hash@,
            ));
        }
        i = i + 1;
    }
    assert(file_entries(files@).take(i as int) =~= file_entries(files@));
    content
}

/// The hash recorded for `task_name` in a task table: the value of its first
/// line whose text before the first tab is the name.
pub fn find_task_hash(content: &str, task_name: &str) -> (r: Option<String>)
    ensures
        match r {
            Some(h) => lookup_entry(parse_table(content@), task_name@) == Some(h@),
            None => lookup_entry(parse_table(content@), task_name@) is None,
        },
{
    let entries = table_entries(content);
    let ghost es = entries@.map_values(|e: (String, String)| (e.0@, e.1@));
    let mut i: usize = 0;
    assert(es.skip(0) =~= es);
    while i < entries.len()
        invariant
            es == entries@.map_values(|e: (String, String)| (e.0@, e.1@)),
            es == parse_table(content@),
            0 <= i <= entries@.len(),
            lookup_entry(es, task_name@) == lookup_entry(es.skip(i as int), task_name@),
        decreases entries.len() - i,
    {
        proof {
            assert(es.skip(i as int)[0] == (entries@[i as int].0@, entries@[i as int].1@));
            assert(es.skip(i as int).drop_first() =~= es.skip(i + 1));
        }
        if str_equal(entries[i].0.as_str(), task_name) {
            return Some(entries[i].1.clone());
        }
        i = i + 1;
    }
    assert(es.skip(i as int) =~= Seq::<(Seq<char>, Seq<char>)>::empty());
    None
}

/// Whether `line` starts with `name` followed by a tab.
fn starts_with_entry(line: &str, name: &str) -> (b: bool)
    ensures
        b == starts_with(line@, name@ + seq!['\t']),
{
    let l = chars_of(line);
    let m = chars_of(name);
    let ghost prefix = name@ + seq!['\t'];
    if l.len() <= m.len() {
        return false;
    }
    let mut k: usize = 0;
    while k < m.len()
        invariant
            l@ == line@,
            m@ == name@,
            prefix == name@ + seq!['\t'],
            m@.len() < l@.len(),
            0 <= k <= m@.len(),
            forall|j: int| 0 <= j < k ==> l@[j] == m@[j],
        decreases m.len() - k,
    {
        if l[k] != m[k] {
            proof {
                assert(line@.take(prefix.len() as int)[k as int] != prefix[k as int]);
            }
            return false;
        }
        k = k + 1;
    }
    let b = l[m.len()] == '\t';
    proof {
        if b {
            assert(line@.take(prefix.len() as int) =~= prefix);
        } else {
            assert(line@.take(prefix.len() as int)[m@.len() as int] != prefix[m@.len() as int]);
        }
    }
    b
}

/// Records `hash` as the last hash built for `task_name`: drops the lines
/// that start with `task_name<TAB>`, adds `task_name<TAB>hash` at the end,
/// joins the lines with `\n` and ends the text with a `\n`.
pub fn record_task_hash(content: &str, task_name: &str, hash: &str) -> (r: String)
    ensures
        r@ == updated_table(content@, task_name@, hash@),
{
    let lines = lines_of(content);
    let ghost ls = views(lines@);
    let ghost prefix = task_name@ + seq!['\t'];
    let mut kept: Vec<String> = Vec::new();
    let mut i: usize = 0;
    while i < lines.len()
        invariant
            ls == views(lines@),
            ls == split_lines(content@),
            prefix == task_name@ + seq!['\t'],
            0 <= i <= lines@.len(),
            views(kept@) == lines_without_prefix(ls.take(i as int), prefix),
        decreases lines.len() - i,
    {
        proof {
            assert(ls.take(i + 1).drop_last() =~= ls.take(i as int));
            assert(ls.take(i + 1).last() == lines@[i as int]@);
        }
        if !starts_with_entry(lines[i].as_str(), task_name) {
            let ghost before = views(kept@);
            kept.push(lines[i].clone());
            assert(views(kept@) =~= before.push(lines@[i as int]@));
        }
        i = i + 1;
    }
    assert(ls.take(i as int) =~= ls);
    let mut entry = String::from_str(task_name);
    push_char(&mut entry, '\t');
    entry.append(hash);
    assert(entry@ =~= task_name@ + seq!['\t'] + hash@);
    let ghost before = views(kept@);
    kept.push(entry);
    assert(views(kept@) =~= before.push(task_name@ + seq!['\t'] + hash@));
    let mut joined = String::new();
    let mut j: usize = 0;
    while j < kept.len()
        invariant
            0 <= j <= kept@.len(),
            joined@ == join_lines(views(kept@).take(j as int)),
        decreases kept.len() - j,
    {
        proof {
            let v = views(kept@);
            assert(v.take(j + 1).drop_last() =~= v.take(j as int));
            assert(v.take(j + 1).last() == kept@[j as int]@);
        }
        if j > 0 {
            push_char(&mut joined, '\n');
        } else {
            assert(views(kept@).take(1) =~= seq![kept@[0]@]);
        }
        joined.append(kept[j].as_str());
        j = j + 1;
    }
    assert(views(kept@).take(j as int) =~= views(kept@));
    let chars = chars_of(joined.as_str());
    if chars.len() == 0 || chars[chars.len() - 1] != '\n' {
        push_char(&mut joined, '\n');
    }
    joined
}

/// `key<TAB>value`.
pub open spec fn entry_text(key: Seq<char>, value: Seq<char>) -> Seq<char> {
    key + seq!['\t'] + value
}

/// Each line followed by `\n`.
pub open spec fn terminated(lines: Seq<Seq<char>>) -> Seq<char>
    decreases lines.len(),
{
    if lines.len() == 0 {
        Seq::empty()
    } else {
        terminated(lines.drop_last()) + lines.last() + seq!['\n']
    }
}

/// `c` does not occur in `s`.
pub open spec fn lacks(s: Seq<char>, c: char) -> bool {
    forall|i: int| 0 <= i < s.len() ==> s[i] != c
}

/// A manifest line holds a path and a hash that it can give back: the path
/// has no tab and no newline, the hash no newline and no final `\r`.
pub open spec fn storable(key: Seq<char>, value: Seq<char>) -> bool {
    &&& lacks(key, '\t')
    &&& lacks(key, '\n')
    &&& lacks(value, '\n')
    &&& (value.len() == 0 || value.last() != '\r')
}

proof fn lemma_split_first(x: Seq<char>, y: Seq<char>)
    requires
        lacks(x, '\n'),
    ensures
        split_lines(x + seq!['\n'] + y) == seq![strip_cr(x)] + split_lines(y),
{
    let s = x + seq!['\n'] + y;
    assert forall|k: int| 0 <= k < x.len() implies s[k] != '\n' by {
        assert(s[k] == x[k]);
    }
    lemma_find_char_none(s, '\n', x.len() as int);
    assert(s.take(x.len() as int) =~= x);
    assert(s.skip(x.len() as int + 1) =~= y);
}

proof fn lemma_terminated_front(lines: Seq<Seq<char>>)
    requires
        lines.len() > 0,
    ensures
        terminated(lines) == lines[0] + seq!['\n'] + terminated(lines.drop_first()),
    decreases lines.len(),
{
    if lines.len() == 1 {
        assert(lines.drop_last() =~= Seq::<Seq<char>>::empty());
        assert(lines.drop_first() =~= Seq::<Seq<char>>::empty());
        assert(terminated(lines.drop_last()) =~= Seq::<char>::empty());
        assert(lines.last() == lines[0]);
        assert(terminated(lines) =~= lines[0] + seq!['\n']);
        assert(terminated(lines.drop_first()) =~= Seq::<char>::empty());
        assert(lines[0] + seq!['\n'] + Seq::<char>::empty() =~= lines[0] + seq!['\n']);
    } else {
        let d = lines.drop_last();
        lemma_terminated_front(d);
        assert(d.drop_first() =~= lines.drop_first().drop_last());
        assert(lines.drop_first().last() == lines.last());
        assert(terminated(lines) =~= lines[0] + seq!['\n'] + terminated(lines.drop_first()));
    }
}

/// Lines without a newline, each followed by one, split back into the
/// lines, less a final `\r`.
pub proof fn lemma_split_terminated(lines: Seq<Seq<char>>)
    requires
        forall|i: int| 0 <= i < lines.len() ==> lacks(#[trigger] lines[i], '\n'),
    ensures
        split_lines(terminated(lines)) == lines.map_values(|l: Seq<char>| strip_cr(l)),
    decreases lines.len(),
{
    if lines.len() == 0 {
        assert(lines.map_values(|l: Seq<char>| strip_cr(l)) =~= Seq::<Seq<char>>::empty());
    } else {
        lemma_terminated_front(lines);
        let rest = lines.drop_first();
        assert forall|i: int| 0 <= i < rest.len() implies lacks(#[trigger] rest[i], '\n') by {
            assert(rest[i] == lines[i + 1]);
        }
        lemma_split_terminated(rest);
        assert(lacks(lines[0], '\n'));
        lemma_split_first(lines[0], terminated(rest));
        assert(lines.map_values(|l: Seq<char>| strip_cr(l)) =~= seq![strip_cr(lines[0])]
            + rest.map_values(|l: Seq<char>| strip_cr(l)));
    }
}

proof fn lemma_render_terminated(entries: Seq<(Seq<char>, Seq<char>)>)
    ensures
        render_entries(entries) == terminated(
            entries.map_values(|e: (Seq<char>, Seq<char>)| entry_text(e.0, e.1)),
        ),
    decreases entries.len(),
{
    let t = entries.map_values(|e: (Seq<char>, Seq<char>)| entry_text(e.0, e.1));
    if entries.len() > 0 {
        lemma_render_terminated(entries.drop_last());
        assert(t.drop_last() =~= entries.drop_last().map_values(
            |e: (Seq<char>, Seq<char>)| entry_text(e.0, e.1),
        ));
        assert(entry_line(entries.last().0, entries.last().1) =~= t.last() + seq!['\n']);
        assert(render_entries(entries) =~= terminated(t.drop_last()) + t.last() + seq!['\n']);
    } else {
        assert(t =~= Seq::<Seq<char>>::empty());
    }
}

proof fn lemma_parse_entry_text(key: Seq<char>, value: Seq<char>)
    requires
        lacks(key, '\t'),
    ensures
        parse_entry(entry_text(key, value)) == Some((key, value)),
{
    let l = entry_text(key, value);
    assert forall|k: int| 0 <= k < key.len() implies l[k] != '\t' by {
        assert(l[k] == key[k]);
    }
    lemma_find_char_none(l, '\t', key.len() as int);
    assert(l.take(key.len() as int) =~= key);
    assert(l.skip(key.len() as int + 1) =~= value);
}

/// A manifest gives back the files that were written to it, when each path
/// has no tab or newline and each hash no newline and no final `\r`.
pub proof fn lemma_manifest_roundtrip(files: Seq<FileHash>)
    requires
        forall|i: int| 0 <= i < files.len() ==> storable(#[trigger] files[i].path@, files[i].hash@),
    ensures
        parse_table(render_entries(file_entries(files))) == file_entries(files),
{
    let es = file_entries(files);
    assert forall|i: int| 0 <= i < es.len() implies storable(#[trigger] es[i].0, es[i].1) by {
        assert(es[i] == (files[i].path@, files[i].hash@));
    }
    lemma_entries_roundtrip(es);
}

/// Entries written one per line are read back as they were.
pub proof fn lemma_entries_roundtrip(es: Seq<(Seq<char>, Seq<char>)>)
    requires
        forall|i: int| 0 <= i < es.len() ==> storable(#[trigger] es[i].0, es[i].1),
    ensures
        parse_table(render_entries(es)) == es,
{
    let texts = es.map_values(|e: (Seq<char>, Seq<char>)| entry_text(e.0, e.1));
    lemma_render_terminated(es);
    assert forall|i: int| 0 <= i < texts.len() implies lacks(#[trigger] texts[i], '\n') by {
        let (k, v) = es[i];
        assert(storable(es[i].0, es[i].1));
        assert forall|j: int| 0 <= j < texts[i].len() implies texts[i][j] != '\n' by {
            if j < k.len() {
                assert(texts[i][j] == k[j]);
            } else if j > k.len() {
                assert(texts[i][j] == v[j - k.len() - 1]);
            }
        }
    }
    lemma_split_terminated(texts);
    assert(texts.map_values(|l: Seq<char>| strip_cr(l)) =~= texts) by {
        assert forall|i: int| 0 <= i < texts.len() implies strip_cr(#[trigger] texts[i]) == texts[i] by {
            assert(storable(es[i].0, es[i].1));
            if es[i].1.len() == 0 {
                assert(texts[i].last() == '\t');
            } else {
                assert(texts[i].last() == es[i].1.last());
            }
        }
    }
    lemma_parse_texts(es);
}

proof fn lemma_parse_texts(es: Seq<(Seq<char>, Seq<char>)>)
    requires
        forall|i: int| 0 <= i < es.len() ==> storable(#[trigger] es[i].0, es[i].1),
    ensures
        parse_entries(es.map_values(|e: (Seq<char>, Seq<char>)| entry_text(e.0, e.1))) == es,
    decreases es.len(),
{
    let texts = es.map_values(|e: (Seq<char>, Seq<char>)| entry_text(e.0, e.1));
    if es.len() > 0 {
        let rest = es.drop_first();
        assert forall|i: int| 0 <= i < rest.len() implies storable(#[trigger] rest[i].0, rest[i].1) by {
            assert(rest[i] == es[i + 1]);
        }
        lemma_parse_texts(rest);
        assert(texts.drop_first() =~= rest.map_values(
            |e: (Seq<char>, Seq<char>)| entry_text(e.0, e.1),
        ));
        assert(storable(es[0].0, es[0].1));
        lemma_parse_entry_text(es[0].0, es[0].1);
        assert(es =~= seq![es[0]] + rest);
    } else {
        assert(es =~= Seq::<(Seq<char>, Seq<char>)>::empty());
    }
}

/// No line of `s` holds a newline, and no line holds a character that `s`
/// lacks.
pub proof fn lemma_split_lines_chars(s: Seq<char>, c: char)
    ensures
        forall|i: int| 0 <= i < split_lines(s).len() ==> lacks(#[trigger] split_lines(s)[i], '\n'),
        lacks(s, c) ==> forall|i: int|
            0 <= i < split_lines(s).len() ==> lacks(#[trigger] split_lines(s)[i], c),
    decreases s.len(),
{
    lemma_find_char(s, '\n');
    if s.len() > 0 {
        let i = find_char(s, '\n');
        if i >= 0 {
            let rest = s.skip(i + 1);
            lemma_split_lines_chars(rest, c);
            let first = strip_cr(s.take(i));
            assert forall|j: int| 0 <= j < first.len() implies first[j] != '\n' && (lacks(s, c)
                ==> first[j] != c) by {
                assert(first[j] == s[j]);
            }
            if lacks(s, c) {
                assert forall|j: int| 0 <= j < rest.len() implies rest[j] != c by {
                    assert(rest[j] == s[i + 1 + j]);
                }
            }
            assert forall|j: int| 0 <= j < split_lines(s).len() implies lacks(
                #[trigger] split_lines(s)[j],
                '\n',
            ) && (lacks(s, c) ==> lacks(split_lines(s)[j], c)) by {
                if j > 0 {
                    assert(split_lines(s)[j] == split_lines(rest)[j - 1]);
                }
            }
        }
    }
}

proof fn lemma_join_terminated(lines: Seq<Seq<char>>)
    requires
        lines.len() > 0,
    ensures
        join_lines(lines) + seq!['\n'] == terminated(lines),
    decreases lines.len(),
{
    if lines.len() == 1 {
        assert(terminated(lines.drop_last()) =~= Seq::<char>::empty());
        assert(terminated(lines) =~= lines[0] + seq!['\n']);
    } else {
        lemma_join_terminated(lines.drop_last());
        assert(join_lines(lines) + seq!['\n'] =~= join_lines(lines.drop_last()) + seq!['\n']
            + lines.last() + seq!['\n']);
    }
}

proof fn lemma_join_last(lines: Seq<Seq<char>>)
    requires
        lines.len() > 0,
        lines.last().len() > 0,
    ensures
        join_lines(lines).len() > 0,
        join_lines(lines).last() == lines.last().last(),
{
    if lines.len() > 1 {
        let j = join_lines(lines);
        assert(j == join_lines(lines.drop_last()) + seq!['\n'] + lines.last());
    }
}

proof fn lemma_parse_entries_push(a: Seq<Seq<char>>, x: Seq<char>)
    ensures
        parse_entries(a.push(x)) == parse_entries(a) + parse_entries(seq![x]),
    decreases a.len(),
{
    let single = parse_entries(seq![x]);
    assert(seq![x].drop_first() =~= Seq::<Seq<char>>::empty());
    if a.len() == 0 {
        assert(a.push(x) =~= seq![x]);
        assert(parse_entries(a) + single =~= single);
    } else {
        lemma_parse_entries_push(a.drop_first(), x);
        assert(a.push(x).drop_first() =~= a.drop_first().push(x));
        assert(a.push(x)[0] == a[0]);
        match parse_entry(a[0]) {
            Some(e) => {
                assert(parse_entries(a.push(x)) =~= seq![e] + parse_entries(a.drop_first().push(x)));
                assert(parse_entries(a.push(x)) =~= parse_entries(a) + single);
            },
            None => {},
        }
    }
}

proof fn lemma_parse_single(x: Seq<char>)
    ensures
        parse_entries(seq![x]) == (match parse_entry(x) {
            Some(p) => seq![p],
            None => Seq::<(Seq<char>, Seq<char>)>::empty(),
        }),
{
    let s = seq![x];
    assert(s[0] == x);
    assert(s.drop_first() =~= Seq::<Seq<char>>::empty());
    assert(parse_entries(s.drop_first()) =~= Seq::<(Seq<char>, Seq<char>)>::empty());
    match parse_entry(x) {
        Some(p) => {
            assert(seq![p] + Seq::<(Seq<char>, Seq<char>)>::empty() =~= seq![p]);
        },
        None => {},
    }
}

proof fn lemma_lookup_single(p: (Seq<char>, Seq<char>), k: Seq<char>)
    ensures
        lookup_entry(seq![p], k) == (if p.0 == k {
            Some(p.1)
        } else {
            None
        }),
{
    let s = seq![p];
    assert(s[0] == p);
    assert(s.drop_first() =~= Seq::<(Seq<char>, Seq<char>)>::empty());
    assert(lookup_entry(s.drop_first(), k) is None);
}

proof fn lemma_lookup_concat(e: Seq<(Seq<char>, Seq<char>)>, f: Seq<(Seq<char>, Seq<char>)>, k: Seq<char>)
    ensures
        lookup_entry(e + f, k) == (if lookup_entry(e, k) is Some {
            lookup_entry(e, k)
        } else {
            lookup_entry(f, k)
        }),
    decreases e.len(),
{
    if e.len() == 0 {
        assert(e + f =~= f);
    } else {
        assert((e + f)[0] == e[0]);
        assert((e + f).drop_first() =~= e.drop_first() + f);
        lemma_lookup_concat(e.drop_first(), f, k);
    }
}

proof fn lemma_key_prefix(x: Seq<char>, n: Seq<char>)
    requires
        lacks(n, '\t'),
        starts_with(x, n + seq!['\t']),
    ensures
        parse_entry(x) == Some((n, x.skip(n.len() as int + 1))),
{
    assert forall|k: int| 0 <= k < n.len() implies x[k] != '\t' by {
        assert(x[k] == x.take(n.len() as int + 1)[k]);
        assert((n + seq!['\t'])[k] == n[k]);
    }
    assert(x[n.len() as int] == x.take(n.len() as int + 1)[n.len() as int]);
    lemma_find_char_none(x, '\t', n.len() as int);
    assert(x.take(n.len() as int) =~= n) by {
        assert forall|k: int| 0 <= k < n.len() implies x.take(n.len() as int)[k] == n[k] by {
            assert(x[k] == x.take(n.len() as int + 1)[k]);
            assert((n + seq!['\t'])[k] == n[k]);
        }
    }
}

proof fn lemma_key_match(x: Seq<char>, n: Seq<char>)
    requires
        lacks(n, '\t'),
        parse_entry(x) is Some,
        entry_key(x) == n,
    ensures
        starts_with(x, n + seq!['\t']),
{
    lemma_find_char(x, '\t');
    let t = find_char(x, '\t');
    assert(x.take(t) == n);
    assert(x.take(n.len() as int + 1) =~= n + seq!['\t']);
}

proof fn lemma_strip_prefix(l: Seq<char>, p: Seq<char>)
    requires
        starts_with(strip_cr(l), p),
    ensures
        starts_with(l, p),
{
    assert(l.take(p.len() as int) =~= strip_cr(l).take(p.len() as int));
}

proof fn lemma_lookup_absent(a: Seq<Seq<char>>, k: Seq<char>)
    requires
        forall|i: int|
            0 <= i < a.len() ==> (parse_entry(#[trigger] a[i]) is None || entry_key(a[i]) != k),
    ensures
        lookup_entry(parse_entries(a), k) is None,
    decreases a.len(),
{
    if a.len() > 0 {
        let rest = a.drop_first();
        assert forall|i: int|
            0 <= i < rest.len() implies (parse_entry(#[trigger] rest[i]) is None || entry_key(rest[i],
        ) != k) by {
            assert(rest[i] == a[i + 1]);
        }
        lemma_lookup_absent(rest, k);
        assert(parse_entry(a[0]) is None || entry_key(a[0]) != k);
        match parse_entry(a[0]) {
            Some(e) => {
                assert(parse_entries(a) == seq![e] + parse_entries(rest));
                assert((seq![e] + parse_entries(rest))[0] == e);
                assert((seq![e] + parse_entries(rest)).drop_first() =~= parse_entries(rest));
            },
            None => {},
        }
    }
}

proof fn lemma_without_prefix(lines: Seq<Seq<char>>, p: Seq<char>)
    ensures
        forall|i: int|
            0 <= i < lines_without_prefix(lines, p).len() ==> !starts_with(
                #[trigger] lines_without_prefix(lines, p)[i],
                p,
            ) && exists|j: int| 0 <= j < lines.len() && lines[j] == lines_without_prefix(lines, p)[i],
    decreases lines.len(),
{
    if lines.len() > 0 {
        let d = lines.drop_last();
        lemma_without_prefix(d, p);
        let r = lines_without_prefix(lines, p);
        assert forall|i: int| 0 <= i < r.len() implies !starts_with(#[trigger] r[i], p) && exists|j: int|
            0 <= j < lines.len() && lines[j] == r[i] by {
            if i < lines_without_prefix(d, p).len() {
                assert(r[i] == lines_without_prefix(d, p)[i]);
                let j = choose|j: int| 0 <= j < d.len() && d[j] == lines_without_prefix(d, p)[i];
                assert(lines[j] == d[j]);
            } else {
                assert(r[i] == lines.last());
                assert(lines[lines.len() - 1] == r[i]);
            }
        }
    }
}

/// The table text after an update, split into lines: the kept lines (less
/// a final `\r`) and then the new entry.
proof fn lemma_updated_lines(content: Seq<char>, task: Seq<char>, hash: Seq<char>)
    requires
        storable(task, hash),
    ensures
        split_lines(updated_table(content, task, hash)) == lines_without_prefix(
            split_lines(content),
            task + seq!['\t'],
        ).map_values(|l: Seq<char>| strip_cr(l)).push(entry_text(task, hash)),
{
    let lines = split_lines(content);
    let prefix = task + seq!['\t'];
    let kept = lines_without_prefix(lines, prefix);
    let e = entry_text(task, hash);
    let all = kept.push(e);
    lemma_split_lines_chars(content, '\n');
    lemma_without_prefix(lines, prefix);
    assert forall|j: int| 0 <= j < e.len() implies e[j] != '\n' by {
        if j < task.len() {
            assert(e[j] == task[j]);
        } else if j > task.len() {
            assert(e[j] == hash[j - task.len() - 1]);
        }
    }
    assert forall|i: int| 0 <= i < all.len() implies lacks(#[trigger] all[i], '\n') by {
        if i < kept.len() {
            assert(all[i] == kept[i]);
            let j = choose|j: int| 0 <= j < lines.len() && lines[j] == kept[i];
            assert(lacks(lines[j], '\n'));
        }
    }
    let last_char = if hash.len() == 0 {
        '\t'
    } else {
        hash.last()
    };
    assert(e.last() == last_char);
    lemma_join_last(all);
    lemma_join_terminated(all);
    assert(updated_table(content, task, hash) == join_lines(all) + seq!['\n']);
    lemma_split_terminated(all);
    assert(strip_cr(e) == e);
    assert(all.map_values(|l: Seq<char>| strip_cr(l)) =~= kept.map_values(|l: Seq<char>| strip_cr(l)).push(e));
}

/// After `hash` is recorded for `task`, the table gives `hash` for `task`,
/// when the task name has no tab or newline and the hash no newline and no
/// final `\r`.
pub proof fn lemma_task_hash_roundtrip(content: Seq<char>, task: Seq<char>, hash: Seq<char>)
    requires
        storable(task, hash),
    ensures
        lookup_entry(parse_table(updated_table(content, task, hash)), task) == Some(hash),
{
    let lines = split_lines(content);
    let prefix = task + seq!['\t'];
    let kept = lines_without_prefix(lines, prefix);
    let stripped = kept.map_values(|l: Seq<char>| strip_cr(l));
    let e = entry_text(task, hash);
    lemma_updated_lines(content, task, hash);
    lemma_without_prefix(lines, prefix);
    lemma_parse_entries_push(stripped, e);
    lemma_parse_entry_text(task, hash);
    lemma_parse_single(e);
    lemma_lookup_single((task, hash), task);
    assert forall|i: int|
        0 <= i < stripped.len() implies (parse_entry(#[trigger] stripped[i]) is None || entry_key(stripped[i],
    ) != task) by {
        if parse_entry(stripped[i]) is Some && entry_key(stripped[i]) == task {
            lemma_key_match(stripped[i], task);
            lemma_strip_prefix(kept[i], prefix);
        }
    }
    lemma_lookup_absent(stripped, task);
    lemma_lookup_concat(parse_entries(stripped), seq![(task, hash)], task);
}

proof fn lemma_lookup_without_prefix(lines: Seq<Seq<char>>, n: Seq<char>, m: Seq<char>)
    requires
        lacks(n, '\t'),
        m != n,
    ensures
        lookup_entry(parse_entries(lines_without_prefix(lines, n + seq!['\t'])), m) == lookup_entry(
            parse_entries(lines),
            m,
        ),
    decreases lines.len(),
{
    if lines.len() > 0 {
        let d = lines.drop_last();
        let x = lines.last();
        let p = n + seq!['\t'];
        lemma_lookup_without_prefix(d, n, m);
        assert(lines =~= d.push(x));
        lemma_parse_entries_push(d, x);
        lemma_lookup_concat(parse_entries(d), parse_entries(seq![x]), m);
        assert(seq![x].drop_first() =~= Seq::<Seq<char>>::empty());
        if starts_with(x, p) {
            lemma_key_prefix(x, n);
            lemma_parse_single(x);
            lemma_lookup_single((n, x.skip(n.len() as int + 1)), m);
        } else {
            let kd = lines_without_prefix(d, p);
            lemma_parse_entries_push(kd, x);
            lemma_lookup_concat(parse_entries(kd), parse_entries(seq![x]), m);
        }
    }
}

/// No line of `content`, as `str::lines` gives them, ends with `\r`,
/// but for the lines that start with `task<TAB>`.
pub open spec fn other_lines_end_clean(content: Seq<char>, task: Seq<char>) -> bool {
    forall|i: int|
        0 <= i < split_lines(content).len() && !starts_with(
            #[trigger] split_lines(content)[i],
            task + seq!['\t'],
        ) ==> strip_cr(split_lines(content)[i]) == split_lines(content)[i]
}

/// No line of `content` that holds an entry for `key` ends with `\r`.
pub open spec fn entry_lines_end_clean(content: Seq<char>, key: Seq<char>) -> bool {
    forall|i: int|
        0 <= i < split_lines(content).len() && parse_entry(#[trigger] split_lines(content)[i])
            is Some && entry_key(split_lines(content)[i]) == key ==> strip_cr(
            split_lines(content)[i],
        ) == split_lines(content)[i]
}

/// Dropping a final `\r` from a line changes neither whether it holds an
/// entry nor the entry's key.
proof fn lemma_strip_entry(x: Seq<char>)
    ensures
        (parse_entry(strip_cr(x)) is Some) == (parse_entry(x) is Some),
        entry_key(strip_cr(x)) == entry_key(x),
{
    if x.len() > 0 && x.last() == '\r' {
        let s = x.drop_last();
        lemma_find_char(x, '\t');
        let t = find_char(x, '\t');
        if t < 0 {
            assert forall|k: int| 0 <= k < s.len() implies s[k] != '\t' by {
                assert(s[k] == x[k]);
            }
            lemma_find_char_none(s, '\t', s.len() as int);
        } else {
            assert(t < s.len());
            assert forall|k: int| 0 <= k < t implies s[k] != '\t' by {
                assert(s[k] == x[k]);
            }
            assert(s[t] == x[t]);
            lemma_find_char_none(s, '\t', t);
            assert(s.take(t) =~= x.take(t));
        }
    }
}

/// Dropping final `\r`s from the lines leaves what the entries give for
/// `key`, when no line that holds an entry for `key` ends with `\r`.
proof fn lemma_lookup_strip(lines: Seq<Seq<char>>, key: Seq<char>)
    requires
        forall|i: int|
            0 <= i < lines.len() && parse_entry(#[trigger] lines[i]) is Some && entry_key(lines[i])
                == key ==> strip_cr(lines[i]) == lines[i],
    ensures
        lookup_entry(parse_entries(lines.map_values(|l: Seq<char>| strip_cr(l))), key)
            == lookup_entry(parse_entries(lines), key),
    decreases lines.len(),
{
    if lines.len() > 0 {
        let x = lines[0];
        let rest = lines.drop_first();
        let sl = lines.map_values(|l: Seq<char>| strip_cr(l));
        let srest = rest.map_values(|l: Seq<char>| strip_cr(l));
        assert(sl[0] == strip_cr(x));
        assert(sl.drop_first() =~= srest);
        assert forall|i: int|
            0 <= i < rest.len() && parse_entry(#[trigger] rest[i]) is Some && entry_key(rest[i])
                == key implies strip_cr(rest[i]) == rest[i] by {
            assert(rest[i] == lines[i + 1]);
        }
        lemma_lookup_strip(rest, key);
        lemma_strip_entry(x);
        match parse_entry(x) {
            Some(e) => {
                let se = parse_entry(strip_cr(x))->0;
                assert(parse_entries(lines) == seq![e] + parse_entries(rest));
                assert(parse_entries(sl) == seq![se] + parse_entries(srest));
                lemma_lookup_concat(seq![e], parse_entries(rest), key);
                lemma_lookup_concat(seq![se], parse_entries(srest), key);
                lemma_lookup_single(e, key);
                lemma_lookup_single(se, key);
                if e.0 == key {
                    assert(strip_cr(x) == x);
                }
            },
            None => {
                assert(parse_entries(lines) == parse_entries(rest));
                assert(parse_entries(sl) == parse_entries(srest));
            },
        }
    }
}

/// Recording a hash for one task leaves what the table gives for every
/// other task, when no line that holds an entry for that other task ends
/// with `\r` (the table is written back one line per `\n`, so such a `\r`
/// would be lost).
pub proof fn lemma_task_hash_frame(
    content: Seq<char>,
    task: Seq<char>,
    hash: Seq<char>,
    other: Seq<char>,
)
    requires
        storable(task, hash),
        entry_lines_end_clean(content, other),
        other != task,
    ensures
        lookup_entry(parse_table(updated_table(content, task, hash)), other) == lookup_entry(
            parse_table(content),
            other,
        ),
{
    let lines = split_lines(content);
    let prefix = task + seq!['\t'];
    let kept = lines_without_prefix(lines, prefix);
    let stripped = kept.map_values(|l: Seq<char>| strip_cr(l));
    let e = entry_text(task, hash);
    lemma_updated_lines(content, task, hash);
    lemma_without_prefix(lines, prefix);
    assert forall|i: int|
        0 <= i < kept.len() && parse_entry(#[trigger] kept[i]) is Some && entry_key(kept[i])
            == other implies strip_cr(kept[i]) == kept[i] by {
        let j = choose|j: int| 0 <= j < lines.len() && lines[j] == kept[i];
        assert(parse_entry(lines[j]) is Some);
    }
    lemma_lookup_strip(kept, other);
    lemma_parse_entries_push(stripped, e);
    lemma_parse_entry_text(task, hash);
    lemma_parse_single(e);
    let single = seq![(task, hash)];
    lemma_lookup_single((task, hash), other);
    lemma_lookup_concat(parse_entries(stripped), single, other);
    lemma_lookup_without_prefix(lines, task, other);
}

/// The name of the directory that holds the entry for `hash` in the cache
/// directory: the first two bytes of the hash, which must end on a
/// character boundary.
pub fn entry_prefix(hash: &str) -> (p: String)
    requires
        is_char_boundary(encode_utf8(hash@), 2),
    ensures
        encode_utf8(p@) == encode_utf8(hash@).subrange(0, 2),
{
    let (front, _) = hash.split_at(2);
    front.to_string()
}

/// Whether `s` begins with `p`.
fn has_prefix(s: &str, p: &str) -> (b: bool)
    ensures
        b == starts_with(s@, p@),
{
    let l = chars_of(s);
    let m = chars_of(p);
    if l.len() < m.len() {
        return false;
    }
    let mut k: usize = 0;
    while k < m.len()
        invariant
            l@ == s@,
            m@ == p@,
            m@.len() <= l@.len(),
            0 <= k <= m@.len(),
            forall|j: int| 0 <= j < k ==> l@[j] == m@[j],
        decreases m.len() - k,
    {
        if l[k] != m[k] {
            proof {
                assert(s@.take(p@.len() as int)[k as int] != p@[k as int]);
            }
            return false;
        }
        k = k + 1;
    }
    assert(s@.take(p@.len() as int) =~= p@);
    true
}

/// The name of the directory of the entry for `h`: the first two bytes of
/// the hash.
pub open spec fn entry_dir(h: Seq<char>) -> Seq<char> {
    decode_utf8(encode_utf8(h).subrange(0, 2))
}

/// The path of the entry for `h`, relative to the cache directory.
pub open spec fn entry_base(h: Seq<char>) -> Seq<char> {
    entry_dir(h) + seq!['/'] + h
}

/// `f`, a path relative to the cache directory, is a file of the entry for
/// `h`: the entry itself, its manifest, or one of its saved outputs.
pub open spec fn belongs_to(f: Seq<char>, h: Seq<char>) -> bool {
    &&& is_char_boundary(encode_utf8(h), 2)
    &&& (f == entry_base(h) || f == entry_base(h) + ".manifest"@ || starts_with(
        f,
        entry_base(h) + ".outputs/"@,
    ))
}

/// A cache file that pruning keeps: the table of task hashes, or a file of
/// the entry of one of the hashes in `keep`.
pub open spec fn kept_entry(f: Seq<char>, keep: Seq<Seq<char>>) -> bool {
    f == "task_hashes"@ || exists|k: int| 0 <= k < keep.len() && belongs_to(f, #[trigger] keep[k])
}

/// Whether the file `f` is a file of the entry for `h`.
fn of_entry(f: &str, h: &str) -> (b: bool)
    ensures
        b == belongs_to(f@, h@),
{
    proof {
        reveal_strlit("/");
        reveal_strlit(".manifest");
        reveal_strlit(".outputs/");
    }
    if !h.is_char_boundary(2) {
        return false;
    }
    let p = entry_prefix(h);
    proof {
        vstd::utf8::encode_utf8_decode_utf8(p@);
    }
    let mut base = p;
    base.append("/");
    base.append(h);
    assert(base@ =~= entry_base(h@));
    if str_equal(f, base.as_str()) {
        return true;
    }
    let mut manifest = base.clone();
    manifest.append(".manifest");
    assert(manifest@ =~= entry_base(h@) + ".manifest"@);
    if str_equal(f, manifest.as_str()) {
        return true;
    }
    let mut outputs = base.clone();
    outputs.append(".outputs/");
    assert(outputs@ =~= entry_base(h@) + ".outputs/"@);
    has_prefix(f, outputs.as_str())
}

/// Which cache files pruning removes: for each file, given by its path
/// relative to the cache directory, whether it is neither the table of
/// task hashes nor a file of the entry of a hash in `keep`.
pub fn stale_files(files: &[String], keep: &[String]) -> (r: Vec<bool>)
    ensures
        r@.len() == files@.len(),
        forall|i: int| 0 <= i < files@.len() ==> #[trigger] r@[i] == !kept_entry(files@[i]@, views(keep@)),
{
    let ghost kv = views(keep@);
    let mut r: Vec<bool> = Vec::new();
    let mut i: usize = 0;
    while i < files.len()
        invariant
            kv == views(keep@),
            0 <= i <= files@.len(),
            r@.len() == i,
            forall|j: int| 0 <= j < i ==> #[trigger] r@[j] == !kept_entry(files@[j]@, kv),
        decreases files.len() - i,
    {
        let f = files[i].as_str();
        proof {
            reveal_strlit("task_hashes");
        }
        let mut kept = str_equal(f, "task_hashes");
        let mut k: usize = 0;
        while k < keep.len() && !kept
            invariant
                kv == views(keep@),
                f@ == files@[i as int]@,
                0 <= k <= keep@.len(),
                kept == (f@ == "task_hashes"@ || exists|j: int| 0 <= j < k && belongs_to(f@, #[trigger] kv[j])),
            decreases keep.len() - k,
        {
            assert(kv[k as int] == keep@[k as int]@);
            if of_entry(f, keep[k].as_str()) {
                kept = true;
            }
            k = k + 1;
        }
        proof {
            if !kept {
                assert(k == keep@.len());
            }
            if kept && f@ != "task_hashes"@ {
                let j = choose|j: int| 0 <= j < k && belongs_to(f@, #[trigger] kv[j]);
                assert(0 <= j < kv.len());
            }
        }
        r.push(!kept);
        i = i + 1;
    }
    r
}

/// The number of files removed and the sum of their sizes.
pub open spec fn pruned_count(removed: Seq<bool>) -> nat
    decreases removed.len(),
{
    if removed.len() == 0 {
        0
    } else {
        pruned_count(removed.drop_last()) + if removed.last() {
            1nat
        } else {
            0nat
        }
    }
}

/// The sum of the sizes of the removed files.
pub open spec fn pruned_size(sizes: Seq<u64>, removed: Seq<bool>) -> nat
    decreases removed.len(),
{
    if removed.len() == 0 {
        0
    } else {
        pruned_size(sizes, removed.drop_last()) + if removed.last() {
            sizes[removed.len() - 1] as nat
        } else {
            0nat
        }
    }
}

proof fn lemma_pruned_count_bound(removed: Seq<bool>)
    ensures
        pruned_count(removed) <= removed.len(),
    decreases removed.len(),
{
    if removed.len() > 0 {
        lemma_pruned_count_bound(removed.drop_last());
    }
}

proof fn lemma_pruned_size_mono(sizes: Seq<u64>, removed: Seq<bool>, k: int)
    requires
        0 <= k <= removed.len(),
    ensures
        pruned_size(sizes, removed.take(k)) <= pruned_size(sizes, removed),
    decreases removed.len() - k,
{
    if k < removed.len() {
        lemma_pruned_size_mono(sizes, removed, k + 1);
        let t = removed.take(k + 1);
        assert(t.drop_last() =~= removed.take(k));
    } else {
        assert(removed.take(k) =~= removed);
    }
}

/// The sum of all the sizes.
pub open spec fn total_size(sizes: Seq<u64>) -> nat
    decreases sizes.len(),
{
    if sizes.len() == 0 {
        0
    } else {
        total_size(sizes.drop_last()) + sizes.last() as nat
    }
}

/// The files that pruning leaves: those not marked as removed.
pub open spec fn left_after_prune(removed: Seq<bool>) -> Seq<bool> {
    Seq::new(removed.len(), |i: int| !removed[i])
}

/// The removed sizes read only the sizes of the files they mark.
proof fn lemma_pruned_size_prefix(sizes: Seq<u64>, removed: Seq<bool>, k: int)
    requires
        removed.len() <= k <= sizes.len(),
    ensures
        pruned_size(sizes.take(k), removed) == pruned_size(sizes, removed),
    decreases removed.len(),
{
    if removed.len() > 0 {
        lemma_pruned_size_prefix(sizes, removed.drop_last(), k);
        assert(sizes.take(k)[removed.len() - 1] == sizes[removed.len() - 1]);
    }
}

/// What pruning removes and what it leaves make up what the cache held:
/// the files left are as many as there were less the count it reports,
/// and hold as many bytes as there were less the bytes it reports.
pub proof fn lemma_prune_leaves_the_rest(sizes: Seq<u64>, removed: Seq<bool>)
    requires
        sizes.len() == removed.len(),
    ensures
        pruned_count(removed) + pruned_count(left_after_prune(removed)) == removed.len(),
        pruned_size(sizes, removed) + pruned_size(sizes, left_after_prune(removed)) == total_size(
            sizes,
        ),
    decreases removed.len(),
{
    if removed.len() > 0 {
        let n = removed.len() as int;
        let d = sizes.drop_last();
        let r = removed.drop_last();
        let left = left_after_prune(removed);
        lemma_prune_leaves_the_rest(d, r);
        assert(left.drop_last() =~= left_after_prune(r));
        assert(left.last() == !removed.last());
        assert(d =~= sizes.take(n - 1));
        lemma_pruned_size_prefix(sizes, r, n - 1);
        lemma_pruned_size_prefix(sizes, left_after_prune(r), n - 1);
    }
}

/// What pruning reports: how many files it removed (those marked in
/// `removed`) and how many bytes they held (`sizes[i]` for file `i`).
pub fn prune_tally(sizes: &[u64], removed: &[bool]) -> (r: (usize, u64))
    requires
        sizes@.len() == removed@.len(),
        pruned_size(sizes@, removed@) <= u64::MAX,
    ensures
        r.0 == pruned_count(removed@),
        r.1 == pruned_size(sizes@, removed@),
{
    let mut count: usize = 0;
    let mut freed: u64 = 0;
    let mut i: usize = 0;
    while i < removed.len()
        invariant
            sizes@.len() == removed@.len(),
            pruned_size(sizes@, removed@) <= u64::MAX,
            0 <= i <= removed@.len(),
            count == pruned_count(removed@.take(i as int)),
            freed == pruned_size(sizes@, removed@.take(i as int)),
        decreases removed.len() - i,
    {
        proof {
            let t = removed@.take(i + 1);
            assert(t.drop_last() =~= removed@.take(i as int));
            lemma_pruned_count_bound(removed@.take(i as int));
            lemma_pruned_size_mono(sizes@, removed@, i + 1);
        }
        if removed[i] {
            count = count + 1;
            freed = freed + sizes[i];
        }
        i = i + 1;
    }
    assert(removed@.take(i as int) =~= removed@);
    (count, freed)
}

/// The lines an update keeps lose no `\r` when written back, when none of
/// them ends with one.
proof fn lemma_kept_unstripped(content: Seq<char>, task: Seq<char>)
    requires
        other_lines_end_clean(content, task),
    ensures
        lines_without_prefix(split_lines(content), task + seq!['\t']).map_values(
            |l: Seq<char>| strip_cr(l),
        ) == lines_without_prefix(split_lines(content), task + seq!['\t']),
{
    let lines = split_lines(content);
    let prefix = task + seq!['\t'];
    let kept = lines_without_prefix(lines, prefix);
    lemma_without_prefix(lines, prefix);
    assert forall|i: int| 0 <= i < kept.len() implies strip_cr(#[trigger] kept[i]) == kept[i] by {
        let j = choose|j: int| 0 <= j < lines.len() && lines[j] == kept[i];
        assert(strip_cr(lines[j]) == lines[j]);
    }
    assert(kept.map_values(|l: Seq<char>| strip_cr(l)) =~= kept);
}

/// Dropping the lines with a prefix leaves lines without it alone.
proof fn lemma_without_prefix_none(lines: Seq<Seq<char>>, p: Seq<char>)
    requires
        forall|i: int| 0 <= i < lines.len() ==> !starts_with(#[trigger] lines[i], p),
    ensures
        lines_without_prefix(lines, p) == lines,
    decreases lines.len(),
{
    if lines.len() > 0 {
        let d = lines.drop_last();
        assert forall|i: int| 0 <= i < d.len() implies !starts_with(#[trigger] d[i], p) by {
            assert(d[i] == lines[i]);
        }
        lemma_without_prefix_none(d, p);
        assert(!starts_with(lines[lines.len() - 1], p));
        assert(d.push(lines.last()) =~= lines);
    }
}

/// Recording the same hash for a task twice gives the table that
/// recording it once gives, when no line of the table but those for the
/// task ends with `\r` (the first update writes the lines it keeps back
/// as they are, the second drops their `\r`).
pub proof fn lemma_task_hash_idempotent(content: Seq<char>, task: Seq<char>, hash: Seq<char>)
    requires
        storable(task, hash),
        other_lines_end_clean(content, task),
    ensures
        updated_table(updated_table(content, task, hash), task, hash) == updated_table(
            content,
            task,
            hash,
        ),
{
    let lines = split_lines(content);
    let prefix = task + seq!['\t'];
    let kept = lines_without_prefix(lines, prefix);
    let e = entry_text(task, hash);
    let u = updated_table(content, task, hash);
    lemma_updated_lines(content, task, hash);
    lemma_kept_unstripped(content, task);
    assert(split_lines(u) == kept.push(e));
    assert(e.take(prefix.len() as int) =~= prefix);
    assert(kept.push(e).drop_last() =~= kept);
    assert(lines_without_prefix(kept.push(e), prefix) == lines_without_prefix(kept, prefix));
    lemma_without_prefix(lines, prefix);
    lemma_without_prefix_none(kept, prefix);
}

} // verus!
